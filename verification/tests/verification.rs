use sudoku_solver::grid::Sudoku;
use sudoku_solver::handler::{tally_results, SudokuHandler};
use sudoku_solver::text::write_puzzle_to_json;

fn sample() -> Sudoku {
    let mut grid: Sudoku = [[None; 9]; 9];
    for r in 0..9 {
        for c in 0..9 {
            grid[r][c] = Some(((r * 3 + r / 3 + c) % 9) as u8 + 1);
        }
    }
    grid
}

#[test]
fn new_handler_has_no_result_and_keeps_the_puzzle() {
    let handler = SudokuHandler::new(Box::new(sample()));
    assert!(!handler.result);
    assert_eq!(*handler.puzzle, sample());
}

#[test]
fn answer_one_accepts() {
    let mut handler = SudokuHandler::new(Box::new(sample()));
    assert_eq!(handler.write(b"1"), 1);
    assert!(handler.result);
    assert_eq!(*handler.puzzle, sample());
}

#[test]
fn any_other_text_rejects() {
    for answer in [&b"0"[..], b"", b"11", b"1\n", b" 1", b"true", "\u{e9}".as_bytes()] {
        let mut handler = SudokuHandler::new(Box::new(sample()));
        handler.result = true;
        assert_eq!(handler.write(answer), answer.len());
        assert!(!handler.result);
    }
}

#[test]
fn answer_that_is_no_text_changes_nothing() {
    for answer in [&[0xffu8][..], &[0x31, 0x80], &[0xc3], &[0xed, 0xa0, 0x80], &[0xc0, 0xb1]] {
        let mut handler = SudokuHandler::new(Box::new(sample()));
        assert_eq!(handler.write(answer), answer.len());
        assert!(!handler.result);
        handler.result = true;
        assert_eq!(handler.write(answer), answer.len());
        assert!(handler.result);
    }
}

#[test]
fn later_answer_replaces_the_earlier_one() {
    let mut handler = SudokuHandler::new(Box::new(sample()));
    handler.write(b"1");
    assert!(handler.result);
    handler.write(b"0");
    assert!(!handler.result);
    handler.write(b"1");
    assert!(handler.result);
}

#[test]
fn request_body_is_the_puzzle_as_json() {
    let handler = SudokuHandler::new(Box::new(sample()));
    let body = handler.read();
    assert_eq!(body, write_puzzle_to_json(&sample()));
    assert!(body.starts_with(b"{\"content\": [[1,2,3,4,5,6,7,8,9], [4,5,6,7,8,9,1,2,3], "));
    assert_eq!(body.len(), 202);
    assert_eq!(handler.read(), body);
}

#[test]
fn answers_are_counted() {
    assert_eq!(tally_results(&[]), (0, 0));
    assert_eq!(tally_results(&[true]), (1, 1));
    assert_eq!(tally_results(&[false]), (0, 1));
    assert_eq!(tally_results(&[true, false, true, true, false]), (3, 5));
    assert_eq!(tally_results(&[false; 7]), (0, 7));
}
