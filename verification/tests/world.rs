use life::gol::{Cell, GameOfLife, Region};

#[test]
fn gol_pos_in_bounds() {
    let mut game = GameOfLife::new();
    assert!(!game.pos_in_bounds(0, 0));
    game.set_cell(3, 4, Cell::Alive);
    assert!(game.pos_in_bounds(3, 4));
    assert!(!game.pos_in_bounds(100, 100));
}

#[test]
fn gol_get_cell() {
    let mut game = GameOfLife::new();
    // an empty world is dead everywhere
    assert_eq!(Cell::Dead, game.get_cell(0, 0));
    assert_eq!(Cell::Dead, game.get_cell(-17, 23));

    game.set_cell(2, -3, Cell::Alive);
    assert_eq!(Cell::Alive, game.get_cell(2, -3));
    assert_eq!(Cell::Dead, game.get_cell(3, -3));
    assert_eq!(Cell::Dead, game.get_cell(2, -2));

    game.set_cell(2, -3, Cell::Dead);
    assert_eq!(Cell::Dead, game.get_cell(2, -3));
}

#[test]
fn set_cell_reaches_virgin_space() {
    // writes far apart each get their own region and are all readable back
    let mut game = GameOfLife::new();
    game.set_cell(1000, -1000, Cell::Alive);
    game.set_cell(-1000, 1000, Cell::Alive);
    game.set_cell(0, 0, Cell::Alive);
    assert_eq!(Cell::Alive, game.get_cell(1000, -1000));
    assert_eq!(Cell::Alive, game.get_cell(-1000, 1000));
    assert_eq!(Cell::Alive, game.get_cell(0, 0));
    assert_eq!(Cell::Dead, game.get_cell(1000, 1000));
}

#[test]
fn populate_region_copies_world() {
    let mut game = GameOfLife::new();
    game.set_cell(0, 0, Cell::Alive);
    game.set_cell(1, 1, Cell::Alive);

    let mut region = Region::new(-1, -1, 4, 4);
    game.populate_region(&mut region);
    for x in -1..3 {
        for y in -1..3 {
            let expected = if (x, y) == (0, 0) || (x, y) == (1, 1) {
                Cell::Alive
            } else {
                Cell::Dead
            };
            assert_eq!(Some(expected), region.get_cell(x, y));
        }
    }
}

#[test]
fn set_region_writes_world() {
    let mut region = Region::new(-1, -1, 3, 3);
    region.set_cell(0, 0, Cell::Alive);
    region.set_cell(1, 1, Cell::Alive);

    let mut game = GameOfLife::new();
    game.set_cell(5, 5, Cell::Alive);
    game.set_region(&region);

    // the world now shows the region's cells inside its window
    for x in -1..2 {
        for y in -1..2 {
            let expected = if (x, y) == (0, 0) || (x, y) == (1, 1) {
                Cell::Alive
            } else {
                Cell::Dead
            };
            assert_eq!(expected, game.get_cell(x, y));
        }
    }
    // and is untouched outside it
    assert_eq!(Cell::Alive, game.get_cell(5, 5));
}

#[test]
fn merge_overlapping_regions_keeps_world() {
    let mut game = GameOfLife::new();
    // two writes close together create two overlapping regions
    game.set_cell(0, 0, Cell::Alive);
    game.set_cell(4, 4, Cell::Alive);
    assert_eq!(2, game.regions.len());

    game.merge_overlapping_regions();
    assert_eq!(1, game.regions.len());

    // every cell of the surrounding window shows what it showed before
    for x in -4..9 {
        for y in -4..9 {
            let expected = if (x, y) == (0, 0) || (x, y) == (4, 4) {
                Cell::Alive
            } else {
                Cell::Dead
            };
            assert_eq!(expected, game.get_cell(x, y));
        }
    }
}

#[test]
fn merge_leaves_disjoint_regions_alone() {
    let mut game = GameOfLife::new();
    game.set_cell(0, 0, Cell::Alive);
    game.set_cell(100, 100, Cell::Alive);
    assert_eq!(2, game.regions.len());
    game.merge_overlapping_regions();
    assert_eq!(2, game.regions.len());
    assert_eq!(Cell::Alive, game.get_cell(0, 0));
    assert_eq!(Cell::Alive, game.get_cell(100, 100));
}

#[test]
fn resize_region_grows_live_edges() {
    // a live cell on the positive x edge and one on the negative y edge
    let mut region = Region::new(0, 0, 3, 3);
    region.set_cell(2, 1, Cell::Alive);
    region.set_cell(1, 0, Cell::Alive);
    GameOfLife::resize_region(&mut region);
    // grown by two on exactly those edges, values kept, new space dead
    assert_eq!(0, region.x());
    assert_eq!(-2, region.y());
    assert_eq!(5, region.width());
    assert_eq!(5, region.height());
    assert_eq!(Some(Cell::Alive), region.get_cell(2, 1));
    assert_eq!(Some(Cell::Alive), region.get_cell(1, 0));
    for x in 0..5 {
        for y in -2..3 {
            if (x, y) != (2, 1) && (x, y) != (1, 0) {
                assert_eq!(Some(Cell::Dead), region.get_cell(x, y));
            }
        }
    }
}

#[test]
fn resize_region_leaves_buffered_region_alone() {
    let mut region = Region::new(-2, -2, 5, 5);
    region.set_cell(0, 0, Cell::Alive);
    GameOfLife::resize_region(&mut region);
    assert_eq!(-2, region.x());
    assert_eq!(-2, region.y());
    assert_eq!(5, region.width());
    assert_eq!(5, region.height());
}

#[test]
fn world_new_is_empty() {
    let game = GameOfLife::new();
    assert_eq!(0, game.regions.len());
    assert_eq!(Cell::Dead, game.get_cell(0, 0));
}
