use minesweeper_core::field::{CellState, Field, MinesweeperError, OpenResult};

fn count_mines(field: &Field, width: usize, height: usize) -> usize {
    let mut count: usize = 0;
    for y in 0..height {
        for x in 0..width {
            if field.is_mine(x, y).unwrap() {
                count += 1;
            }
        }
    }
    count
}

#[test]
fn construction_places_exact_mine_count() {
    let field = Field::new(10, 10, 0, 0, 10).unwrap();
    assert_eq!(count_mines(&field, 10, 10), 10);
    assert_eq!(field.is_mine(0, 0), Ok(false));
}

#[test]
fn construction_zero_mines() {
    let field = Field::new(4, 3, 1, 1, 0).unwrap();
    assert_eq!(count_mines(&field, 4, 3), 0);
    for y in 0..3 {
        for x in 0..4 {
            assert_eq!(field.get_mines_around(x, y), Ok(0));
            assert_eq!(field.is_closed(x, y), Ok(true));
        }
    }
}

#[test]
fn hints_match_brute_force_recount() {
    let field = Field::new(8, 8, 3, 3, 10).unwrap();
    for y in 0..8_usize {
        for x in 0..8_usize {
            let mut expected: u8 = 0;
            for dy in -1..2_i32 {
                for dx in -1..2_i32 {
                    if dx == 0 && dy == 0 {
                        continue;
                    }
                    let nx = x as i32 + dx;
                    let ny = y as i32 + dy;
                    if 0 <= nx && nx < 8 && 0 <= ny && ny < 8 {
                        if field.is_mine(nx as usize, ny as usize).unwrap() {
                            expected += 1;
                        }
                    }
                }
            }
            assert_eq!(field.get_mines_around(x, y), Ok(expected));
        }
    }
}

#[test]
fn open_twice_reports_already_opened() {
    let mut field = Field::new(4, 4, 1, 1, 0).unwrap();
    assert_eq!(field.open_cell(1, 1), Ok(OpenResult::NotMine));
    assert_eq!(field.open_cell(1, 1), Ok(OpenResult::AlreadyOpened));
    assert_eq!(field.is_closed(1, 1), Ok(false));
}

#[test]
fn zero_region_cascade_opens_whole_board() {
    let mut field = Field::new(5, 5, 2, 2, 0).unwrap();
    assert_eq!(field.open_cell(2, 2), Ok(OpenResult::NotMine));
    for y in 0..5 {
        for x in 0..5 {
            assert_eq!(field.is_closed(x, y), Ok(false));
            let cell = field.get_cell(x, y).unwrap();
            assert_eq!(cell.state, CellState::Opened);
        }
    }
}

#[test]
fn numbered_cell_opens_alone() {
    // On a 2 x 2 board with two mines, every mine borders the safe start
    // cell, so the start cell's hint is 2 and opening it must not cascade.
    let mut field = Field::new(2, 2, 0, 0, 2).unwrap();
    assert_eq!(field.get_mines_around(0, 0), Ok(2));
    assert_eq!(field.open_cell(0, 0), Ok(OpenResult::NotMine));
    assert_eq!(field.is_closed(0, 0), Ok(false));
    assert_eq!(field.is_closed(1, 0), Ok(true));
    assert_eq!(field.is_closed(0, 1), Ok(true));
    assert_eq!(field.is_closed(1, 1), Ok(true));
}

#[test]
fn opening_a_mine_reports_mine() {
    let mut field = Field::new(2, 2, 0, 0, 2).unwrap();
    let mut mine_at = None;
    for y in 0..2 {
        for x in 0..2 {
            if field.is_mine(x, y).unwrap() {
                mine_at = Some((x, y));
            }
        }
    }
    let (mx, my) = mine_at.unwrap();
    assert_eq!(field.open_cell(mx, my), Ok(OpenResult::Mine));
    assert_eq!(field.is_closed(mx, my), Ok(false));
}

#[test]
fn protected_cell_cannot_be_opened() {
    let mut field = Field::new(3, 3, 0, 0, 0).unwrap();
    for state in [CellState::Flagged, CellState::Suspected, CellState::UnderPressing] {
        assert_eq!(field.set_state(1, 1, state), Ok(()));
        assert_eq!(field.open_cell(1, 1), Ok(OpenResult::Flagged));
        let cell = field.get_cell(1, 1).unwrap();
        assert_eq!(cell.state, state);
        for y in 0..3 {
            for x in 0..3 {
                if !(x == 1 && y == 1) {
                    assert_eq!(field.get_cell(x, y).unwrap().state, CellState::Closed);
                }
            }
        }
    }
    assert_eq!(field.set_state(1, 1, CellState::Closed), Ok(()));
    assert_eq!(field.open_cell(1, 1), Ok(OpenResult::NotMine));
}

#[test]
fn out_of_bounds_is_rejected_everywhere() {
    let mut field = Field::new(4, 6, 0, 0, 3).unwrap();
    assert_eq!(field.is_mine(4, 0), Err(MinesweeperError::BoundsError));
    assert_eq!(field.is_mine(0, 6), Err(MinesweeperError::BoundsError));
    assert_eq!(field.get_mines_around(4, 5), Err(MinesweeperError::BoundsError));
    assert_eq!(field.is_closed(100, 100), Err(MinesweeperError::BoundsError));
    assert_eq!(field.get_cell(4, 0), Err(MinesweeperError::BoundsError));
    assert_eq!(
        field.set_state(0, 6, CellState::Flagged),
        Err(MinesweeperError::BoundsError)
    );
    assert_eq!(field.open_cell(4, 6), Err(MinesweeperError::BoundsError));
    for y in 0..6 {
        for x in 0..4 {
            assert_eq!(field.get_cell(x, y).unwrap().state, CellState::Closed);
        }
    }
}

#[test]
fn too_many_mines_is_rejected() {
    assert!(matches!(
        Field::new(3, 3, 0, 0, 8),
        Err(MinesweeperError::TooManyMines)
    ));
    assert!(Field::new(3, 3, 0, 0, 7).is_ok());
    assert!(matches!(
        Field::new(0, 0, 0, 0, 0),
        Err(MinesweeperError::TooManyMines)
    ));
}

#[test]
fn start_bounds_check_is_non_strict() {
    assert!(matches!(
        Field::new(5, 5, 6, 0, 3),
        Err(MinesweeperError::StartOutOfBounds)
    ));
    assert!(matches!(
        Field::new(5, 5, 0, 6, 3),
        Err(MinesweeperError::StartOutOfBounds)
    ));
    // A start coordinate equal to the side length passes construction, even
    // though it is out of range for every later access.
    assert!(Field::new(5, 5, 5, 5, 3).is_ok());
}

#[test]
fn set_state_writes_the_tag() {
    let mut field = Field::new(3, 3, 0, 0, 0).unwrap();
    assert_eq!(field.set_state(2, 1, CellState::Suspected), Ok(()));
    assert_eq!(field.get_cell(2, 1).unwrap().state, CellState::Suspected);
    assert_eq!(field.is_closed(2, 1), Ok(false));
    assert_eq!(field.set_state(2, 1, CellState::Closed), Ok(()));
    assert_eq!(field.is_closed(2, 1), Ok(true));
}

#[test]
fn cell_snapshot_carries_its_coordinates() {
    let field = Field::new(7, 5, 2, 3, 4).unwrap();
    for y in 0..5 {
        for x in 0..7 {
            let cell = field.get_cell(x, y).unwrap();
            assert_eq!(cell.x_pos as usize, x);
            assert_eq!(cell.y_pos as usize, y);
        }
    }
}

#[test]
fn end_to_end_session() {
    let mut field = Field::new(10, 10, 0, 0, 10).unwrap();
    assert_eq!(field.width(), 10);
    assert_eq!(field.height(), 10);
    assert_eq!(field.mines_count(), 10);
    assert_eq!(count_mines(&field, 10, 10), 10);
    assert_eq!(field.is_mine(0, 0), Ok(false));
    assert_eq!(field.open_cell(0, 0), Ok(OpenResult::NotMine));
    assert_eq!(field.is_closed(0, 0), Ok(false));
}
