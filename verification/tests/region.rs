use life::gol::{Cell, Edge, Region};

#[test]
fn pos_in_bounds() {
    // Region going from (-5, -5) up to (5, 5) inclusive
    let region = Region::new(-5, -5, 11, 11);

    // In bounds
    assert!(region.pos_in_bounds(0, 0));
    assert!(region.pos_in_bounds(-3, 2));
    assert!(region.pos_in_bounds(-5, 5));
    assert!(region.pos_in_bounds(-5, -5));
    assert!(region.pos_in_bounds(5, 5));
    assert!(region.pos_in_bounds(5, -5));

    // Out of bounds
    assert!(!region.pos_in_bounds(15, 4));
    assert!(!region.pos_in_bounds(0, 8));
    assert!(!region.pos_in_bounds(6, 5));
    assert!(!region.pos_in_bounds(5, -6));
    assert!(!region.pos_in_bounds(-6, 6));
    assert!(!region.pos_in_bounds(-5, -6));
}

#[test]
fn pos_to_local() {
    // Region going from (-5, -5) up to (5, 5) inclusive
    let region = Region::new(-5, -5, 11, 11);

    // Outside region
    assert_eq!(None, region.pos_to_local(6, 5));
    assert_eq!(None, region.pos_to_local(10, -3));
    assert_eq!(None, region.pos_to_local(-2, 6));

    // Inside region
    assert_eq!(Some((0, 0)), region.pos_to_local(-5, -5));
    assert_eq!(Some((10, 10)), region.pos_to_local(5, 5));
    assert_eq!(Some((8, 3)), region.pos_to_local(3, -2));
}

#[test]
fn get_cell() {
    // Region going from (-5, -5) up to (5, 5) inclusive
    let region = Region::new(-5, -5, 11, 11);

    // Inbounds
    assert_eq!(Some(Cell::Dead), region.get_cell(-5, -5));
    assert_eq!(Some(Cell::Dead), region.get_cell(5, 5));
    assert_eq!(Some(Cell::Dead), region.get_cell(3, -2));
    assert_eq!(Some(Cell::Dead), region.get_cell(-0, 1));

    // Out of bounds
    assert_eq!(None, region.get_cell(-6, 5));
    assert_eq!(None, region.get_cell(9, 0));
    assert_eq!(None, region.get_cell(5, 6));
    assert_eq!(None, region.get_cell(0, -6));
}

#[test]
fn set_cell() {
    // Region going from (-5, -5) up to (5, 5) inclusive
    let mut region = Region::new(-5, -5, 11, 11);

    // Outside region
    region.set_cell(-6, 3, Cell::Alive);
    region.set_cell(2, 6, Cell::Alive);
    region.set_cell(-5, 6, Cell::Alive);
    for column in &region.state {
        for cell in column {
            assert_eq!(Cell::Dead, *cell);
        }
    }

    // Inside region
    region.set_cell(5, -5, Cell::Alive);
    assert_eq!(Cell::Alive, region.state[10][0]);
    region.set_cell(-5, 5, Cell::Alive);
    assert_eq!(Cell::Alive, region.state[0][10]);
    region.set_cell(2, -4, Cell::Alive);
    assert_eq!(Cell::Alive, region.state[7][1]);
}

#[test]
fn populate_overlap() {
    // Base region of all alive cells, -5 -5 to 5 5 inclusive
    let mut base = Region::new(-5, -5, 11, 11);
    for x in -5..=5 {
        for y in -5..=5 {
            base.set_cell(x, y, Cell::Alive)
        }
    }

    let mut no_overlap = Region::new(10, 6, 3, 6);
    base.populate_overlap(&mut no_overlap);
    for x in 10..13 {
        for y in 6..12 {
            assert_eq!(no_overlap.get_cell(x, y).unwrap(), Cell::Dead)
        }
    }

    let mut partial_overlap = Region::new(-8, 0, 7, 9);
    base.populate_overlap(&mut partial_overlap);
    for x in -8..-5 {
        for y in 0..9 {
            assert_eq!(partial_overlap.get_cell(x, y).unwrap(), Cell::Dead)
        }
    }
    for x in -5..-1 {
        for y in 0..=5 {
            assert_eq!(partial_overlap.get_cell(x, y).unwrap(), Cell::Alive)
        }
        for y in 6..9 {
            assert_eq!(partial_overlap.get_cell(x, y).unwrap(), Cell::Dead)
        }
    }

    let mut complete_overlap = Region::new(-3, -3, 5, 5);
    base.populate_overlap(&mut complete_overlap);
    for x in -3..2 {
        for y in -3..2 {
            assert_eq!(complete_overlap.get_cell(x, y).unwrap(), Cell::Alive)
        }
    }
}

#[test]
fn is_overlapping() {
    // Base region from -5 -5 to 5 5 inclusive
    let base = Region::new(-5, -5, 11, 11);

    let no_overlap = Region::new(10, 6, 3, 6);
    assert!(!base.is_overlapping(&no_overlap));
    assert!(!no_overlap.is_overlapping(&base));

    let partial_overlap = Region::new(-8, 0, 7, 9);
    assert!(base.is_overlapping(&partial_overlap));
    assert!(partial_overlap.is_overlapping(&base));

    let complete_overlap = Region::new(-3, -3, 5, 5);
    assert!(base.is_overlapping(&complete_overlap));
    assert!(complete_overlap.is_overlapping(&base));
}

#[test]
fn adjust_size() {
    // Region going from (-5, -5) up to (5, 5) inclusive
    let mut region = Region::new(-5, -5, 11, 11);
    // Make all cells alive so we can see the new cells being dead
    for x in -5..=5 {
        for y in -5..=5 {
            region.set_cell(x, y, Cell::Alive)
        }
    }

    // +X edge
    region.adjust_size(Edge::X, 3);
    assert_eq!(14, region.width);
    assert_eq!(14, region.state.len());
    for column in &mut region.state[11..] {
        for cell in column {
            assert_eq!(*cell, Cell::Dead);
            *cell = Cell::Alive // Fill new space with alive cells for following checks
        }
    }

    // +Y edge
    region.adjust_size(Edge::Y, -2);
    assert_eq!(9, region.height);
    for column in &region.state {
        assert_eq!(9, column.len());
        for cell in column {
            assert_eq!(*cell, Cell::Alive)
        }
    }

    // -X edge
    region.adjust_size(Edge::NegX, -2);
    assert_eq!(12, region.width);
    assert_eq!(12, region.state.len());
    for column in &region.state {
        for cell in column {
            assert_eq!(*cell, Cell::Alive)
        }
    }

    // -Y edge
    region.adjust_size(Edge::NegY, 5);
    assert_eq!(14, region.height);
    for column in &region.state {
        assert_eq!(14, column.len());
        for cell in &column[0..5] {
            assert_eq!(*cell, Cell::Dead)
        }
    }
}

#[test]
fn move_region() {
    // Region going from (-5, -5) up to (5, 5) inclusive
    let mut region = Region::new(-5, -5, 11, 11);
    // Make all cells alive so we can see the new cells being dead
    for x in -5..=5 {
        for y in -5..=5 {
            region.set_cell(x, y, Cell::Alive)
        }
    }

    region.move_region(2, 1);
    assert_eq!(-3, region.x);
    assert_eq!(-4, region.y);
    for column in &mut region.state[region.width - 2..] {
        for cell in column {
            assert_eq!(Cell::Dead, *cell);
            *cell = Cell::Alive;
        }
    }
    let width = region.width;
    let height = region.height;
    for column in &mut region.state[..width - 2] {
        for cell in &column[0..height - 1] {
            assert_eq!(Cell::Alive, *cell);
        }
        assert_eq!(Cell::Dead, *column.last().unwrap());
        *column.last_mut().unwrap() = Cell::Alive;
    }

    region.move_region(-4, -3);
    assert_eq!(-7, region.x);
    assert_eq!(-7, region.y);
    for column in &mut region.state[..4] {
        for cell in column {
            assert_eq!(Cell::Dead, *cell);
            *cell = Cell::Alive;
        }
    }
    for column in &region.state[4..] {
        for cell in &column[..3] {
            assert_eq!(Cell::Dead, *cell);
        }
        for cell in &column[3..] {
            assert_eq!(Cell::Alive, *cell);
        }
    }
}

#[test]
fn contains_matches_to_local() {
    // contains and to_local agree on every coordinate of a window around the region
    let region = Region::new(-3, 2, 4, 3);
    for x in -6..6 {
        for y in -2..8 {
            assert_eq!(region.pos_in_bounds(x, y), region.pos_to_local(x, y).is_some());
        }
    }
}

#[test]
fn local_plus_anchor_round_trip() {
    // adding the anchor back onto the local pair gives the world coordinate
    let region = Region::new(-3, 2, 4, 3);
    for x in -3..1 {
        for y in 2..5 {
            let (lx, ly) = region.pos_to_local(x, y).unwrap();
            assert_eq!(lx as isize + region.x(), x);
            assert_eq!(ly as isize + region.y(), y);
        }
    }
}

#[test]
fn bounds_overflow_contains_nothing() {
    // a region whose far corner would overflow the coordinate type contains nothing
    let region = Region::new(isize::MAX - 2, 0, 5, 5);
    assert!(!region.pos_in_bounds(isize::MAX - 1, 1));
    assert!(!region.pos_in_bounds(isize::MAX - 2, 0));
    assert_eq!(None, region.get_cell(isize::MAX - 1, 1));
    let mut region = region;
    region.set_cell(isize::MAX - 1, 1, Cell::Alive);
    assert_eq!(None, region.get_cell(isize::MAX - 1, 1));
}

#[test]
fn shrink_saturates_at_zero() {
    let mut region = Region::new(0, 0, 3, 3);
    region.adjust_size(Edge::X, -10);
    assert_eq!(0, region.width);
    assert_eq!(0, region.state.len());
    let mut region = Region::new(0, 0, 3, 3);
    region.adjust_size(Edge::NegY, -10);
    assert_eq!(0, region.height);
    assert_eq!(10, region.y());
}

#[test]
fn grow_negative_edge_preserves_world_coordinates() {
    let mut region = Region::new(0, 0, 2, 2);
    region.set_cell(0, 1, Cell::Alive);
    region.set_cell(1, 0, Cell::Alive);
    region.adjust_size(Edge::NegX, 3);
    assert_eq!(-3, region.x());
    assert_eq!(5, region.width());
    // existing cells keep their world coordinates, the new columns are dead
    assert_eq!(Some(Cell::Alive), region.get_cell(0, 1));
    assert_eq!(Some(Cell::Alive), region.get_cell(1, 0));
    assert_eq!(Some(Cell::Dead), region.get_cell(0, 0));
    for x in -3..0 {
        for y in 0..2 {
            assert_eq!(Some(Cell::Dead), region.get_cell(x, y));
        }
    }
}

#[test]
fn move_round_trip_restores_anchor() {
    let mut region = Region::new(0, 0, 4, 4);
    for x in 0..4 {
        for y in 0..4 {
            region.set_cell(x, y, Cell::Alive);
        }
    }
    region.move_region(2, 1);
    region.move_region(-2, -1);
    assert_eq!(0, region.x());
    assert_eq!(0, region.y());
    // cells inside both windows are retained, vacated cells are not remembered
    for x in 0..4 {
        for y in 0..4 {
            let expected = if x >= 2 && y >= 1 { Cell::Alive } else { Cell::Dead };
            assert_eq!(Some(expected), region.get_cell(x, y));
        }
    }
}

#[test]
fn surrounded_region_overlaps() {
    // neither corner test alone finds this: the outer region surrounds the inner
    let outer = Region::new(-10, -10, 21, 21);
    let inner = Region::new(-1, -1, 3, 3);
    assert!(outer.is_overlapping(&inner));
    assert!(inner.is_overlapping(&outer));
}

#[test]
fn cell_default_is_dead() {
    assert_eq!(Cell::Dead, Cell::default());
}
