use icub3d_sudoku_solver::{Board, BoardError};

const PUZZLE: &str =
    "120400586060201403040096000090000014081000360430000070000720030608903040372008051";

const SOLVED_TEXT: &str = "1 2 9 | 4 3 7 | 5 8 6\n8 6 7 | 2 5 1 | 4 9 3\n5 4 3 | 8 9 6 | 1 2 7\n------+-------+------\n7 9 5 | 3 6 2 | 8 1 4\n2 8 1 | 5 7 4 | 3 6 9\n4 3 6 | 1 8 9 | 2 7 5\n------+-------+------\n9 1 4 | 7 2 5 | 6 3 8\n6 5 8 | 9 1 3 | 7 4 2\n3 7 2 | 6 4 8 | 9 5 1\n";

fn is_complete_solution(g: &[u8]) -> bool {
    if g.len() != 81 {
        return false;
    }
    for unit in 0..9 {
        let mut row = [false; 10];
        let mut col = [false; 10];
        let mut bx = [false; 10];
        for k in 0..9 {
            let r = g[unit * 9 + k] as usize;
            let c = g[k * 9 + unit] as usize;
            let b = g[((unit / 3) * 3 + k / 3) * 9 + (unit % 3) * 3 + k % 3] as usize;
            if r == 0 || c == 0 || b == 0 || row[r] || col[c] || bx[b] {
                return false;
            }
            row[r] = true;
            col[c] = true;
            bx[b] = true;
        }
    }
    true
}

#[test]
fn valid() {
    let tests = vec![
        (
            true,
            0,
            1,
            "023456789000000000000000000000000000000000000000000000000000000000000000000000000",
        ),
        (
            false,
            0,
            2,
            "023456789000000000000000000000000000000000000000000000000000000000000000000000000",
        ),
        (
            false,
            0,
            1,
            "000000001000000000000000000000000000000000000000000000000000000000000000000000000",
        ),
        (
            false,
            0,
            1,
            "000000000100000000000000000000000000000000000000000000000000000000000000000000000",
        ),
        (
            false,
            0,
            1,
            "000000000000000000000000000000000000000000000000000000000000000000000000100000000",
        ),
    ];
    for (n, test) in tests.iter().enumerate() {
        let b = Board::new(test.3.to_string()).unwrap();
        assert_eq!(b.valid(test.1, test.2), test.0, "test {}", n);
    }
}

#[test]
fn solvable() {
    let mut board = Board::new(PUZZLE.to_string()).unwrap();

    assert_eq!(board.solve(), true);
}

#[test]
fn to_string() {
    let mut board = Board::new(PUZZLE.to_string()).unwrap();
    board.solve();
    assert_eq!(board.to_string(), SOLVED_TEXT);
}

#[test]
fn board_new_with_various_blanks() {
    let board = Board::new(
        "240000789308000016001800023034502698 ._030070000060030087000902053000801600084357"
            .to_string(),
    )
    .unwrap();
    assert_eq!(
        *board.grid(),
        vec![
            2, 4, 0, 0, 0, 0, 7, 8, 9, 3, 0, 8, 0, 0, 0, 0, 1, 6, 0, 0, 1, 8, 0, 0, 0, 2, 3, 0,
            3, 4, 5, 0, 2, 6, 9, 8, 0, 0, 0, 0, 3, 0, 0, 7, 0, 0, 0, 0, 0, 6, 0, 0, 3, 0, 0, 8,
            7, 0, 0, 0, 9, 0, 2, 0, 5, 3, 0, 0, 0, 8, 0, 1, 6, 0, 0, 0, 8, 4, 3, 5, 7
        ]
    );
}

#[test]
#[should_panic(expected = r#"string must contain only digits"#)]
fn board_new_non_numeric() {
    Board::new(
        "240000789308000016001800023034502698 ._03007000006003008700090205300080160008435a"
            .to_string(),
    )
    .map_err(|e| e.message())
    .unwrap();
}

#[test]
#[should_panic(expected = r#"string must be exactly 81 characters"#)]
fn board_new_too_short() {
    Board::new("24000078930800001600180002".to_string())
        .map_err(|e| e.message())
        .unwrap();
}

#[test]
#[should_panic(expected = r#"string must be exactly 81 characters"#)]
fn board_new_too_long() {
    Board::new(
        "240000789308000016000000001800000000000000000000000000000000000000000000000000000000000002"
            .to_string(),
    )
    .map_err(|e| e.message())
    .unwrap();
}

#[test]
fn new_maps_every_blank_marker_to_zero() {
    let text = format!("{}{}", "0._ 123456789", "0".repeat(68));
    let board = Board::new(text).unwrap();
    let g = board.grid();
    assert_eq!(&g[0..13], &[0, 0, 0, 0, 1, 2, 3, 4, 5, 6, 7, 8, 9]);
    assert!(g[13..].iter().all(|&v| v == 0));
}

#[test]
fn new_rejects_empty_text_by_length() {
    assert_eq!(Board::new(String::new()), Err(BoardError::LengthMismatch));
}

#[test]
fn new_rejects_length_before_characters() {
    let text = "x".repeat(80);
    assert_eq!(Board::new(text), Err(BoardError::LengthMismatch));
}

#[test]
fn new_rejects_each_kind_of_bad_character() {
    for bad in ['a', '-', '\n', 'x', '+', '/'] {
        let mut text = "0".repeat(80);
        text.insert(40, bad);
        assert_eq!(Board::new(text), Err(BoardError::InvalidCharacter), "{:?}", bad);
    }
}

#[test]
fn valid_ignores_the_position_itself() {
    let b = Board::new(format!("5{}", "0".repeat(80))).unwrap();
    assert!(b.valid(0, 5));
    assert!(!b.valid(1, 5));
    assert!(!b.valid(9, 5));
    assert!(!b.valid(20, 5));
    assert!(b.valid(21, 5));
    assert!(b.valid(80, 5));
}

#[test]
fn solved_board_is_a_permutation_in_every_unit() {
    let mut board = Board::new(PUZZLE.to_string()).unwrap();
    assert!(board.solve());
    assert!(board.solved());
    assert!(is_complete_solution(board.grid()));
}

#[test]
fn solve_keeps_clues() {
    let mut board = Board::new(PUZZLE.to_string()).unwrap();
    let before = board.grid().clone();
    assert!(board.solve());
    for (i, &v) in before.iter().enumerate() {
        if v != 0 {
            assert_eq!(board.grid()[i], v);
        }
    }
}

#[test]
fn solving_twice_gives_the_same_grid() {
    let mut a = Board::new(PUZZLE.to_string()).unwrap();
    let mut b = Board::new(PUZZLE.to_string()).unwrap();
    assert_eq!(a.solve(), b.solve());
    assert_eq!(a.grid(), b.grid());
}

#[test]
fn empty_board_solves_to_first_grid() {
    let mut board = Board::new("0".repeat(81)).unwrap();
    assert!(board.solve());
    assert_eq!(
        board.to_string(),
        "1 2 3 | 4 5 6 | 7 8 9\n4 5 6 | 7 8 9 | 1 2 3\n7 8 9 | 1 2 3 | 4 5 6\n------+-------+------\n2 1 4 | 3 6 5 | 8 9 7\n3 6 5 | 8 9 7 | 2 1 4\n8 9 7 | 2 1 4 | 3 6 5\n------+-------+------\n5 3 1 | 6 4 2 | 9 7 8\n6 4 2 | 9 7 8 | 5 3 1\n9 7 8 | 5 3 1 | 6 4 2\n"
    );
}

#[test]
fn two_equal_clues_in_a_row_are_unsolvable() {
    // Two 1s in the first row; the last row keeps three blanks.
    let text = "119437586867251493543896127795362814281574369436189275914725638658913742372648...";
    let mut board = Board::new(text.to_string()).unwrap();
    let before = board.grid().clone();
    assert!(!board.solve());
    assert_eq!(*board.grid(), before);
    assert!(board.grid()[78..].iter().all(|&v| v == 0));
}

#[test]
fn two_equal_clues_in_a_row_with_many_blanks_are_unsolvable() {
    // Two 5s in the first row, and the rest of the first band blank.
    let text = format!(
        "55.......{}{}",
        ".".repeat(18),
        "795362814281574369436189275914725638658913742372648951"
    );
    let mut board = Board::new(text).unwrap();
    let before = board.grid().clone();
    assert!(!board.solve());
    assert_eq!(*board.grid(), before);
    assert!(board.grid()[2..27].iter().all(|&v| v == 0));
}

#[test]
fn full_board_with_a_clash_is_unsolvable() {
    let mut text: Vec<char> = "129437586867251493543896127795362814281574369436189275914725638658913742372648951"
        .chars()
        .collect();
    text.swap(0, 1);
    let mut board = Board::new(text.into_iter().collect()).unwrap();
    assert!(!board.solved());
    assert!(!board.solve());
}

#[test]
fn solved_puzzle_reports_solved() {
    let mut board = Board::new(
        "129437586867251493543896127795362814281574369436189275914725638658913742372648951"
            .to_string(),
    )
    .unwrap();
    assert!(board.solved());
    assert!(board.solve());
    assert_eq!(board.to_string(), SOLVED_TEXT);
}

#[test]
fn next_unsolved_finds_first_empty() {
    let board = Board::new(PUZZLE.to_string()).unwrap();
    assert_eq!(board.next_unsolved(0), 2);
    assert_eq!(board.next_unsolved(3), 4);
    let full = Board::new(
        "129437586867251493543896127795362814281574369436189275914725638658913742372648951"
            .to_string(),
    )
    .unwrap();
    assert_eq!(full.next_unsolved(0), 81);
}

#[test]
fn next_unsolved_past_the_end_is_81() {
    let board = Board::new("0".repeat(81)).unwrap();
    assert_eq!(board.next_unsolved(81), 81);
    assert_eq!(board.next_unsolved(82), 81);
    assert_eq!(board.next_unsolved(1000), 81);
}

#[test]
fn render_unsolved_board_shows_zeros() {
    let board = Board::new("0".repeat(81)).unwrap();
    let line = "0 0 0 | 0 0 0 | 0 0 0\n";
    let band = line.repeat(3);
    let expected = format!("{}------+-------+------\n{}------+-------+------\n{}", band, band, band);
    assert_eq!(board.to_string(), expected);
}

#[test]
fn error_messages_differ() {
    assert_ne!(
        BoardError::LengthMismatch.message(),
        BoardError::InvalidCharacter.message()
    );
}
