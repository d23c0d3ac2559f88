use life::game_of_life::{Cell, Chunk, GameOfLife, Position};

#[test]
fn position_new_holds_coordinates() {
    let p = Position::new(-4, 9);
    assert_eq!(-4, p.x);
    assert_eq!(9, p.y);
    assert_eq!(Position::new(-4, 9), p);
}

#[test]
fn chunk_world_starts_empty() {
    let game = GameOfLife::new();
    assert_eq!(0, game.chunks.len());
}

#[test]
fn chunk_new_is_all_dead() {
    let chunk = Chunk::new(8);
    for x in 0..8 {
        for y in 0..8 {
            assert_eq!(Ok(Cell::Dead), chunk.get_cell(x, y));
        }
    }
}

#[test]
fn chunk_get_cell_out_of_bounds_errs() {
    let chunk = Chunk::new(4);
    assert_eq!(Err(()), chunk.get_cell(4, 0));
    assert_eq!(Err(()), chunk.get_cell(0, 4));
    assert_eq!(Err(()), chunk.get_cell(9, 9));
}

#[test]
fn chunk_set_cell_writes_next_buffer() {
    let mut chunk = Chunk::new(4);
    assert_eq!(Ok(()), chunk.set_cell(1, 2, Cell::Alive));
    // the write lands in the next generation, not the current one
    assert_eq!(Ok(Cell::Dead), chunk.get_cell(1, 2));
    assert_eq!(Cell::Alive, chunk.next[1][2]);
    assert_eq!(Err(()), chunk.set_cell(4, 0, Cell::Alive));
    assert_eq!(Err(()), chunk.set_cell(0, 7, Cell::Alive));
}
