use minesweeper::{choose_bomb_cells, Board, CellState, Command, ConfigurationError, GameResult};

fn board_with(width: usize, height: usize, bombs: &[(usize, usize)]) -> Board {
    Board::with_bombs(width, height, &bombs.to_vec()).unwrap()
}

fn bombs_on(b: &Board) -> usize {
    let mut n = 0;
    for y in 0..b.height() {
        for x in 0..b.width() {
            if b.cell_at(x, y).has_bomb {
                n += 1;
            }
        }
    }
    n
}

fn count_by_hand(b: &Board, x: usize, y: usize) -> u8 {
    let mut n = 0;
    for dy in -1i64..=1 {
        for dx in -1i64..=1 {
            if dx == 0 && dy == 0 {
                continue;
            }
            let nx = x as i64 + dx;
            let ny = y as i64 + dy;
            if nx >= 0 && ny >= 0 && (nx as usize) < b.width() && (ny as usize) < b.height() {
                if b.cell_at(nx as usize, ny as usize).has_bomb {
                    n += 1;
                }
            }
        }
    }
    n
}

fn hidden_safe(b: &Board) -> usize {
    let mut n = 0;
    for y in 0..b.height() {
        for x in 0..b.width() {
            let c = b.cell_at(x, y);
            if !c.has_bomb && c.state != CellState::Revealed {
                n += 1;
            }
        }
    }
    n
}

#[test]
fn generated_board_has_exact_bomb_count() {
    for &(w, h, n) in &[(10usize, 10usize, 10u32), (4, 4, 16), (3, 5, 0), (1, 1, 1), (7, 3, 20)] {
        let b = Board::new(w, h, n).unwrap();
        assert_eq!(bombs_on(&b), n as usize);
        assert_eq!(b.left_to_reveal(), w * h - n as usize);
        assert_eq!(b.cursor_x(), w / 2);
        assert_eq!(b.cursor_y(), h / 2);
    }
}

#[test]
fn generated_counts_match_brute_force() {
    for _ in 0..20 {
        let b = Board::new(8, 6, 15).unwrap();
        for y in 0..6 {
            for x in 0..8 {
                assert_eq!(b.mine_count(x, y), count_by_hand(&b, x, y));
            }
        }
    }
}

#[test]
fn chosen_cells_are_distinct_and_on_board() {
    let cells = choose_bomb_cells(3, 3, 9);
    assert_eq!(cells.len(), 9);
    for (i, a) in cells.iter().enumerate() {
        assert!(a.0 < 3 && a.1 < 3);
        for b in cells.iter().skip(i + 1) {
            assert_ne!(a, b);
        }
    }
    assert_eq!(choose_bomb_cells(5, 2, 0).len(), 0);
}

#[test]
fn too_many_bombs_is_a_configuration_error() {
    assert_eq!(Board::new(2, 2, 5).err(), Some(ConfigurationError::TooManyBombs));
    assert_eq!(Board::new(3, 3, 10).err(), Some(ConfigurationError::TooManyBombs));
    assert!(Board::new(3, 3, 9).is_ok());
}

#[test]
fn bomb_off_the_board_is_a_configuration_error() {
    let r = Board::with_bombs(3, 3, &vec![(0, 0), (3, 1)]);
    assert_eq!(r.err(), Some(ConfigurationError::BombOutOfBounds));
    let r = Board::with_bombs(3, 3, &vec![(1, 3)]);
    assert_eq!(r.err(), Some(ConfigurationError::BombOutOfBounds));
}

#[test]
fn repeated_bomb_position_holds_one_bomb() {
    let b = board_with(3, 3, &[(1, 1), (1, 1)]);
    assert_eq!(bombs_on(&b), 1);
    assert_eq!(b.left_to_reveal(), 8);
    assert_eq!(b.mine_count(0, 0), 1);
}

#[test]
fn three_by_three_example() {
    let mut b = board_with(3, 3, &[(0, 0), (2, 2)]);
    assert_eq!(b.mine_count(1, 1), 2);
    assert_eq!(b.mine_count(2, 0), 0);
    assert_eq!(b.left_to_reveal(), 7);

    assert_eq!(b.reveal_cell(1, 1), GameResult::InProgress);
    assert_eq!(b.left_to_reveal(), 6);
    for y in 0..3 {
        for x in 0..3 {
            let expected = if (x, y) == (1, 1) { CellState::Revealed } else { CellState::Unmarked };
            assert_eq!(b.cell_at(x, y).state, expected);
        }
    }

    assert_eq!(b.reveal_cell(2, 0), GameResult::InProgress);
    for &(x, y) in &[(2, 0), (1, 0), (2, 1), (1, 1)] {
        assert_eq!(b.cell_at(x, y).state, CellState::Revealed);
    }
    for &(x, y) in &[(0, 0), (0, 1), (0, 2), (1, 2), (2, 2)] {
        assert_eq!(b.cell_at(x, y).state, CellState::Unmarked);
    }
    assert_eq!(b.left_to_reveal(), 3);
    assert_eq!(b.left_to_reveal(), hidden_safe(&b));
}

#[test]
fn one_by_one_without_bombs_wins_at_once() {
    let mut b = Board::new(1, 1, 0).unwrap();
    assert_eq!(b.left_to_reveal(), 1);
    assert_eq!(b.reveal_cell(0, 0), GameResult::Win);
    assert_eq!(b.left_to_reveal(), 0);
}

#[test]
fn flood_fill_reveals_zero_region_and_its_border() {
    // A wall of bombs in column 2 splits a 5 x 3 board.
    let mut b = board_with(5, 3, &[(2, 0), (2, 1), (2, 2)]);
    assert_eq!(b.reveal_cell(0, 0), GameResult::InProgress);
    for y in 0..3 {
        assert_eq!(b.cell_at(0, y).state, CellState::Revealed);
        assert_eq!(b.cell_at(1, y).state, CellState::Revealed);
        assert_eq!(b.cell_at(2, y).state, CellState::Unmarked);
        assert_eq!(b.cell_at(3, y).state, CellState::Unmarked);
        assert_eq!(b.cell_at(4, y).state, CellState::Unmarked);
    }
    assert_eq!(b.left_to_reveal(), 6);
    assert_eq!(b.reveal_cell(4, 2), GameResult::Win);
    assert_eq!(b.left_to_reveal(), 0);
}

#[test]
fn flood_fill_stops_at_flags_only_by_revealing_them() {
    let mut b = board_with(4, 4, &[(3, 3)]);
    b.move_cursor(Command::Left);
    b.move_cursor(Command::Up);
    b.mark();
    assert_eq!(b.cell_at(1, 1).state, CellState::Flagged);
    assert_eq!(b.reveal_cell(0, 0), GameResult::Win);
    assert_eq!(b.cell_at(1, 1).state, CellState::Revealed);
    assert_eq!(b.cell_at(3, 3).state, CellState::Unmarked);
}

#[test]
fn revealing_a_revealed_cell_changes_nothing() {
    let mut b = board_with(3, 3, &[(0, 0)]);
    assert_eq!(b.reveal_cell(1, 1), GameResult::InProgress);
    assert_eq!(b.left_to_reveal(), 7);
    assert_eq!(b.reveal_cell(1, 1), GameResult::InProgress);
    assert_eq!(b.left_to_reveal(), 7);
}

#[test]
fn revealing_a_bomb_loses() {
    let mut b = board_with(3, 3, &[(0, 0), (2, 2)]);
    assert_eq!(b.reveal_cell(2, 2), GameResult::Loss);
    assert_eq!(b.cell_at(2, 2).state, CellState::Revealed);
    assert_eq!(b.cell_at(0, 0).state, CellState::Unmarked);
    assert_eq!(b.left_to_reveal(), 7);
}

#[test]
fn revealing_last_safe_cell_wins() {
    let mut b = board_with(2, 1, &[(0, 0)]);
    assert_eq!(b.left_to_reveal(), 1);
    assert_eq!(b.reveal_cell(1, 0), GameResult::Win);
}

#[test]
fn cursor_stays_on_board() {
    let mut b = board_with(3, 2, &[]);
    assert_eq!((b.cursor_x(), b.cursor_y()), (1, 1));
    for _ in 0..5 {
        b.move_cursor(Command::Down);
        b.move_cursor(Command::Right);
    }
    assert_eq!((b.cursor_x(), b.cursor_y()), (2, 1));
    for _ in 0..5 {
        assert_eq!(b.update(Command::Up), GameResult::InProgress);
        assert_eq!(b.update(Command::Left), GameResult::InProgress);
    }
    assert_eq!((b.cursor_x(), b.cursor_y()), (0, 0));
    b.update(Command::Right);
    assert_eq!((b.cursor_x(), b.cursor_y()), (1, 0));
}

#[test]
fn flag_is_one_way() {
    let mut b = board_with(3, 3, &[(2, 2)]);
    b.mark();
    assert_eq!(b.cell_at(1, 1).state, CellState::Flagged);
    b.mark();
    assert_eq!(b.cell_at(1, 1).state, CellState::Flagged);
    assert_eq!(b.left_to_reveal(), 8);

    b.update(Command::Right);
    assert_eq!(b.update(Command::Reveal), GameResult::InProgress);
    assert_eq!(b.update(Command::Flag), GameResult::InProgress);
    assert_eq!(b.cell_at(2, 1).state, CellState::Revealed);
}

#[test]
fn keys_map_to_commands() {
    assert_eq!(Command::from_key('8'), Command::Up);
    assert_eq!(Command::from_key('5'), Command::Down);
    assert_eq!(Command::from_key('4'), Command::Left);
    assert_eq!(Command::from_key('6'), Command::Right);
    assert_eq!(Command::from_key('7'), Command::Reveal);
    assert_eq!(Command::from_key('9'), Command::Flag);
    assert_eq!(Command::from_key('q'), Command::Quit);
    assert_eq!(Command::from_key('x'), Command::Other);
}

#[test]
fn unknown_command_changes_nothing() {
    let mut b = board_with(3, 3, &[(0, 0)]);
    assert_eq!(b.update(Command::Other), GameResult::InProgress);
    assert_eq!(b.update(Command::Quit), GameResult::InProgress);
    assert_eq!((b.cursor_x(), b.cursor_y()), (1, 1));
    assert_eq!(b.left_to_reveal(), 8);
    assert_eq!(b.cell_at(1, 1).state, CellState::Unmarked);
}

#[test]
fn update_reveal_uses_cursor() {
    let mut b = board_with(3, 3, &[(1, 1)]);
    assert_eq!(b.update(Command::Reveal), GameResult::Loss);
    assert_eq!(b.cell_at(1, 1).state, CellState::Revealed);
}

#[test]
fn glyphs_show_cell_states() {
    let mut b = board_with(3, 3, &[(0, 0), (2, 2)]);
    assert_eq!(b.glyph(1, 1), '.');
    b.mark();
    assert_eq!(b.glyph(1, 1), '?');
    b.reveal_cell(1, 0);
    assert_eq!(b.glyph(1, 0), '1');
    b.reveal_cell(1, 1);
    assert_eq!(b.glyph(1, 1), '2');
    b.reveal_cell(2, 0);
    assert_eq!(b.glyph(2, 0), '0');
    b.reveal_cell(0, 0);
    assert_eq!(b.glyph(0, 0), 'X');
}
