use minesweeper::{parse_command, Action, Board, BoardError, Cell, Command, InputError};

fn layout(rows: &[&[bool]]) -> Vec<Vec<bool>> {
    rows.iter().map(|r| r.to_vec()).collect()
}

fn mine_at(b: &Board, x: usize, y: usize) -> bool {
    matches!(b.cell(x, y), Cell::Mine)
}

fn recount(b: &Board, x: usize, y: usize) -> usize {
    let mut n = 0;
    for dy in -1i64..=1 {
        for dx in -1i64..=1 {
            if dx == 0 && dy == 0 {
                continue;
            }
            let nx = x as i64 + dx;
            let ny = y as i64 + dy;
            if nx >= 0 && ny >= 0 && (nx as usize) < b.width() && (ny as usize) < b.height() {
                if mine_at(b, nx as usize, ny as usize) {
                    n += 1;
                }
            }
        }
    }
    n
}

fn snapshot(b: &Board) -> (Vec<Cell>, bool) {
    let mut cells = Vec::new();
    for y in 0..b.height() {
        for x in 0..b.width() {
            cells.push(b.cell(x, y));
        }
    }
    (cells, b.is_over())
}

fn count_of(c: Cell) -> usize {
    match c {
        Cell::Hidden { adjacent_mines } => adjacent_mines,
        Cell::Revealed { adjacent_mines } => adjacent_mines,
        Cell::Flagged { adjacent_mines } => adjacent_mines,
        Cell::Mine => panic!("a mine has no count"),
    }
}

fn three_by_three_corner_mine() -> Board {
    Board::from_layout(
        3,
        3,
        &layout(&[&[false, false, false], &[false, false, false], &[false, false, true]]),
    )
    .unwrap()
}

#[test]
fn new_places_exactly_the_mines_asked_for() {
    for &(w, h, m) in &[(10usize, 10usize, 10usize), (3, 3, 8), (5, 2, 0), (1, 4, 3), (7, 7, 48)] {
        let b = Board::new(w, h, m).unwrap();
        let mut mines = 0;
        for y in 0..h {
            for x in 0..w {
                if mine_at(&b, x, y) {
                    mines += 1;
                }
            }
        }
        assert_eq!(mines, m);
        assert_eq!(b.mine_count(), m);
        assert_eq!((b.width(), b.height()), (w, h));
        assert!(!b.is_over());
    }
}

#[test]
fn new_stores_exact_neighbour_counts() {
    for _ in 0..20 {
        let b = Board::new(6, 5, 9).unwrap();
        for y in 0..5 {
            for x in 0..6 {
                match b.cell(x, y) {
                    Cell::Mine => {}
                    Cell::Hidden { adjacent_mines } => {
                        assert_eq!(adjacent_mines, recount(&b, x, y));
                        assert_eq!(adjacent_mines, b.count_adjacent_mines(x, y));
                    }
                    other => panic!("fresh board holds {:?}", other),
                }
            }
        }
    }
}

#[test]
fn new_rejects_bad_sizes() {
    assert_eq!(Board::new(0, 3, 0).err(), Some(BoardError::EmptyBoard));
    assert_eq!(Board::new(3, 0, 0).err(), Some(BoardError::EmptyBoard));
    assert_eq!(Board::new(2, 2, 4).err(), Some(BoardError::TooManyMines));
    assert_eq!(Board::new(2, 2, 9).err(), Some(BoardError::TooManyMines));
    assert!(Board::new(2, 2, 3).is_ok());
}

#[test]
fn from_layout_rejects_bad_layouts() {
    assert_eq!(
        Board::from_layout(2, 2, &layout(&[&[false, false], &[false]])).err(),
        Some(BoardError::RaggedLayout)
    );
    assert_eq!(
        Board::from_layout(2, 2, &layout(&[&[false, false]])).err(),
        Some(BoardError::RaggedLayout)
    );
    assert_eq!(
        Board::from_layout(2, 1, &layout(&[&[true, true]])).err(),
        Some(BoardError::TooManyMines)
    );
    assert_eq!(Board::from_layout(0, 1, &layout(&[])).err(), Some(BoardError::EmptyBoard));
}

#[test]
fn single_cell_board_reveals_zero() {
    let mut b = Board::new(1, 1, 0).unwrap();
    assert_eq!(b.cell(0, 0), Cell::Hidden { adjacent_mines: 0 });
    b.reveal_cell(0, 0);
    assert_eq!(b.cell(0, 0), Cell::Revealed { adjacent_mines: 0 });
    assert!(!b.is_over());
}

#[test]
fn two_cell_board_reveals_one() {
    let mut b = Board::new(2, 1, 1).unwrap();
    let safe = if mine_at(&b, 0, 0) { 1 } else { 0 };
    assert!(mine_at(&b, 1 - safe, 0));
    b.reveal_cell(safe, 0);
    assert_eq!(b.cell(safe, 0), Cell::Revealed { adjacent_mines: 1 });
    assert!(!b.is_over());
}

#[test]
fn flood_fill_stops_at_the_numbers() {
    let mut b = three_by_three_corner_mine();
    b.reveal_cell(0, 0);
    let zero = Cell::Revealed { adjacent_mines: 0 };
    let one = Cell::Revealed { adjacent_mines: 1 };
    assert_eq!(b.cell(0, 0), zero);
    assert_eq!(b.cell(1, 0), zero);
    assert_eq!(b.cell(2, 0), zero);
    assert_eq!(b.cell(0, 1), zero);
    assert_eq!(b.cell(0, 2), zero);
    assert_eq!(b.cell(1, 1), one);
    assert_eq!(b.cell(2, 1), one);
    assert_eq!(b.cell(1, 2), one);
    assert_eq!(b.cell(2, 2), Cell::Mine);
    assert!(!b.is_over());
}

#[test]
fn flood_fill_is_blocked_by_flags() {
    let mut b = Board::from_layout(
        4,
        1,
        &layout(&[&[false, false, false, true]]),
    )
    .unwrap();
    b.toggle_flag(1, 0);
    b.reveal_cell(0, 0);
    assert_eq!(b.cell(0, 0), Cell::Revealed { adjacent_mines: 0 });
    assert_eq!(b.cell(1, 0), Cell::Flagged { adjacent_mines: 0 });
    assert_eq!(b.cell(2, 0), Cell::Hidden { adjacent_mines: 1 });
}

#[test]
fn revealing_a_number_does_not_spread() {
    let mut b = three_by_three_corner_mine();
    b.reveal_cell(1, 1);
    assert_eq!(b.cell(1, 1), Cell::Revealed { adjacent_mines: 1 });
    assert_eq!(b.cell(0, 0), Cell::Hidden { adjacent_mines: 0 });
    assert_eq!(b.cell(2, 1), Cell::Hidden { adjacent_mines: 1 });
}

#[test]
fn flag_round_trip_keeps_the_count() {
    let mut b = three_by_three_corner_mine();
    b.toggle_flag(1, 1);
    assert_eq!(b.cell(1, 1), Cell::Flagged { adjacent_mines: 1 });
    b.toggle_flag(1, 1);
    assert_eq!(b.cell(1, 1), Cell::Hidden { adjacent_mines: 1 });
    let before = snapshot(&b);
    for _ in 0..5 {
        b.toggle_flag(2, 1);
        b.toggle_flag(2, 1);
    }
    assert_eq!(snapshot(&b), before);
}

#[test]
fn flags_do_not_apply_to_revealed_cells_or_mines() {
    let mut b = three_by_three_corner_mine();
    b.reveal_cell(1, 1);
    let before = snapshot(&b);
    b.toggle_flag(1, 1);
    b.toggle_flag(2, 2);
    assert_eq!(snapshot(&b), before);
}

#[test]
fn revealing_revealed_or_flagged_cells_changes_nothing() {
    let mut b = three_by_three_corner_mine();
    b.reveal_cell(1, 1);
    b.toggle_flag(2, 1);
    let before = snapshot(&b);
    b.reveal_cell(1, 1);
    b.reveal_cell(2, 1);
    assert_eq!(snapshot(&b), before);
}

#[test]
fn hitting_a_mine_freezes_the_board() {
    let mut b = three_by_three_corner_mine();
    b.toggle_flag(0, 0);
    b.reveal_cell(2, 2);
    assert!(b.is_over());
    assert_eq!(b.cell(2, 2), Cell::Mine);
    let before = snapshot(&b);
    b.reveal_cell(1, 1);
    b.reveal_cell(0, 2);
    b.toggle_flag(0, 0);
    b.toggle_flag(1, 0);
    assert_eq!(snapshot(&b), before);
    assert_eq!(b.play_turn("r 1,1"), Ok(Command { action: Action::Reveal, x: 1, y: 1 }));
    assert_eq!(snapshot(&b), before);
}

#[test]
fn count_adjacent_mines_clips_at_edges() {
    let b = Board::from_layout(
        3,
        2,
        &layout(&[&[true, false, true], &[true, true, false]]),
    )
    .unwrap();
    assert_eq!(b.count_adjacent_mines(1, 0), 4);
    assert_eq!(b.count_adjacent_mines(2, 1), 2);
    assert_eq!(b.count_adjacent_mines(0, 0), 2);
    assert_eq!(b.cell(2, 1), Cell::Hidden { adjacent_mines: 2 });
}

#[test]
fn render_draws_each_cell() {
    let mut b = Board::from_layout(3, 1, &layout(&[&[false, false, true]])).unwrap();
    assert_eq!(b.render(), "\u{25a1} \u{25a1} \u{25a1} \n");
    b.toggle_flag(1, 0);
    b.reveal_cell(0, 0);
    assert_eq!(b.render(), "  \u{2691} \u{25a1} \n");
    b.toggle_flag(1, 0);
    b.reveal_cell(1, 0);
    assert_eq!(b.render(), "  1 \u{25a1} \n");
    b.reveal_cell(2, 0);
    assert_eq!(b.render(), "  1 * \n");
}

#[test]
fn render_breaks_rows() {
    let b = Board::new(2, 3, 0).unwrap();
    assert_eq!(b.render(), "\u{25a1} \u{25a1} \n\u{25a1} \u{25a1} \n\u{25a1} \u{25a1} \n");
}

#[test]
fn parse_accepts_commands() {
    assert_eq!(parse_command("r 3,2", 10, 10), Ok(Command { action: Action::Reveal, x: 3, y: 2 }));
    assert_eq!(parse_command("f 0,9", 10, 10), Ok(Command { action: Action::Flag, x: 0, y: 9 }));
    assert_eq!(parse_command("  reveal\t 12,007 \n", 20, 20), Ok(Command { action: Action::Reveal, x: 12, y: 7 }));
    assert_eq!(parse_command("flag 1,1\r\n", 2, 2), Ok(Command { action: Action::Flag, x: 1, y: 1 }));
}

#[test]
fn parse_rejects_malformed_lines() {
    assert_eq!(parse_command("", 5, 5), Err(InputError::Malformed));
    assert_eq!(parse_command("r", 5, 5), Err(InputError::Malformed));
    assert_eq!(parse_command("r 1, 2", 5, 5), Err(InputError::Malformed));
    assert_eq!(parse_command("r 1 2", 5, 5), Err(InputError::Malformed));
    assert_eq!(parse_command("r 1,2,3", 5, 5), Err(InputError::Malformed));
    assert_eq!(parse_command("r 12", 5, 5), Err(InputError::Malformed));
}

#[test]
fn parse_rejects_bad_numbers() {
    assert_eq!(parse_command("r a,1", 5, 5), Err(InputError::InvalidCoordinates));
    assert_eq!(parse_command("r -1,2", 5, 5), Err(InputError::InvalidCoordinates));
    assert_eq!(parse_command("r ,2", 5, 5), Err(InputError::InvalidCoordinates));
    assert_eq!(parse_command("r 2,", 5, 5), Err(InputError::InvalidCoordinates));
    assert_eq!(
        parse_command("r 99999999999999999999999,1", 5, 5),
        Err(InputError::InvalidCoordinates)
    );
}

#[test]
fn parse_rejects_out_of_bounds_before_the_word() {
    assert_eq!(parse_command("r 5,0", 5, 5), Err(InputError::OutOfBounds));
    assert_eq!(parse_command("x 0,5", 5, 5), Err(InputError::OutOfBounds));
    assert_eq!(parse_command("x 1,1", 5, 5), Err(InputError::UnknownCommand));
    assert_eq!(parse_command("R 1,1", 5, 5), Err(InputError::UnknownCommand));
}

#[test]
fn play_turn_rejects_without_change() {
    let mut b = three_by_three_corner_mine();
    let before = snapshot(&b);
    assert_eq!(b.play_turn("r 3,0"), Err(InputError::OutOfBounds));
    assert_eq!(b.play_turn("r 0,3"), Err(InputError::OutOfBounds));
    assert_eq!(b.play_turn("boom"), Err(InputError::Malformed));
    assert_eq!(b.play_turn("q 0,0"), Err(InputError::UnknownCommand));
    assert_eq!(snapshot(&b), before);
}

#[test]
fn play_turn_dispatches() {
    let mut b = three_by_three_corner_mine();
    assert_eq!(b.play_turn("f 1,1"), Ok(Command { action: Action::Flag, x: 1, y: 1 }));
    assert_eq!(b.cell(1, 1), Cell::Flagged { adjacent_mines: 1 });
    assert_eq!(b.play_turn("r 0,0"), Ok(Command { action: Action::Reveal, x: 0, y: 0 }));
    assert_eq!(b.cell(2, 0), Cell::Revealed { adjacent_mines: 0 });
    assert_eq!(b.cell(1, 1), Cell::Flagged { adjacent_mines: 1 });
    assert!(!b.is_over());
    b.play_turn("r 2,2").unwrap();
    assert!(b.is_over());
}

#[test]
fn error_messages() {
    assert_eq!(InputError::OutOfBounds.message(), "Coordinates are out of bounds!");
    assert_eq!(InputError::InvalidCoordinates.message(), "Invalid coordinates!");
    assert!(InputError::Malformed.message().contains("cmd x,y"));
    assert!(InputError::UnknownCommand.message().starts_with("Unknown command!"));
}

#[test]
fn counts_survive_a_game() {
    let mut b = Board::new(8, 8, 10).unwrap();
    for y in 0..8 {
        for x in 0..8 {
            if !mine_at(&b, x, y) {
                b.reveal_cell(x, y);
            }
        }
    }
    assert!(!b.is_over());
    for y in 0..8 {
        for x in 0..8 {
            let c = b.cell(x, y);
            if c != Cell::Mine {
                assert_eq!(c, Cell::Revealed { adjacent_mines: recount(&b, x, y) });
                assert_eq!(count_of(c), recount(&b, x, y));
            }
        }
    }
}
