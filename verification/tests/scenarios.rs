use life::gol::{Cell, GameOfLife};

/// A world with the listed cells set alive through the public interface.
fn world_with(alive: &[(isize, isize)]) -> GameOfLife {
    let mut game = GameOfLife::new();
    for &(cx, cy) in alive {
        game.set_cell(cx, cy, Cell::Alive);
    }
    game
}

/// Every cell of the window matches the listed live set.
fn assert_pattern(game: &GameOfLife, x0: isize, y0: isize, x1: isize, y1: isize, alive: &[(isize, isize)]) {
    for x in x0..x1 {
        for y in y0..y1 {
            let expected = if alive.contains(&(x, y)) { Cell::Alive } else { Cell::Dead };
            assert_eq!(expected, game.get_cell(x, y), "cell ({}, {})", x, y);
        }
    }
}

#[test]
fn glider_travels_one_diagonal_step_in_four_generations() {
    let glider = [(1, 0), (2, 1), (0, 2), (1, 2), (2, 2)];
    let mut game = world_with(&glider);
    for _ in 0..4 {
        game.step();
    }
    let moved = [(2, 1), (3, 2), (1, 3), (2, 3), (3, 3)];
    assert_pattern(&game, -4, -4, 9, 9, &moved);
}

#[test]
fn block_is_a_still_life() {
    let block = [(1, 1), (1, 2), (2, 1), (2, 2)];
    let mut game = world_with(&block);
    for _ in 0..5 {
        game.step();
        assert_pattern(&game, -3, -3, 7, 7, &block);
    }
}

#[test]
fn blinker_oscillates_with_period_two() {
    let horizontal = [(1, 2), (2, 2), (3, 2)];
    let vertical = [(2, 1), (2, 2), (2, 3)];
    let mut game = world_with(&horizontal);
    game.step();
    assert_pattern(&game, -2, -2, 7, 7, &vertical);
    game.step();
    assert_pattern(&game, -2, -2, 7, 7, &horizontal);
}

#[test]
fn isolated_cell_dies() {
    let mut game = world_with(&[(0, 0)]);
    game.step();
    assert_pattern(&game, -3, -3, 4, 4, &[]);
}

#[test]
fn step_ignores_region_layout() {
    // the same cells, written in a different order and with extra dead
    // writes that change how the world is cut into regions
    let blinker = [(0, -1), (0, 0), (0, 1)];
    let mut plain = world_with(&blinker);
    let mut scattered = GameOfLife::new();
    scattered.set_cell(40, 40, Cell::Dead);
    for &(cx, cy) in blinker.iter().rev() {
        scattered.set_cell(cx, cy, Cell::Alive);
    }
    scattered.set_cell(-40, 7, Cell::Dead);
    plain.step();
    scattered.step();
    for x in -4..5 {
        for y in -4..5 {
            assert_eq!(plain.get_cell(x, y), scattered.get_cell(x, y), "cell ({}, {})", x, y);
        }
    }
    assert_eq!(Cell::Dead, scattered.get_cell(40, 40));
}
