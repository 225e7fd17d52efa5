use sudoku_solver::grid::Sudoku;
use sudoku_solver::text::{
    format_puzzle, only_digits, read_puzzle, write_puzzle_to_json, ReadError, MATRIX_LENGTH,
};

const CLASSIC: &str = "53..7....\n6..195...\n.98....6.\n8...6...3\n4..8.3..1\n7...2...6\n.6....28.\n...419..5\n....8..79\n";

fn grid_of(rows: [&str; 9]) -> Sudoku {
    let mut grid: Sudoku = [[None; 9]; 9];
    for (r, line) in rows.iter().enumerate() {
        for (c, b) in line.bytes().enumerate() {
            grid[r][c] = if b == b'.' { None } else { Some(b - b'0') };
        }
    }
    grid
}

fn classic() -> Sudoku {
    grid_of([
        "53..7....",
        "6..195...",
        ".98....6.",
        "8...6...3",
        "4..8.3..1",
        "7...2...6",
        ".6....28.",
        "...419..5",
        "....8..79",
    ])
}

#[test]
fn puzzle_is_read_row_by_row() {
    let mut pos = 0;
    let read = read_puzzle(CLASSIC.as_bytes(), &mut pos);
    assert_eq!(read, Ok(Some(Box::new(classic()))));
    // the reader stops behind the last cell byte, before the line feed
    assert_eq!(pos, CLASSIC.len() - 1);
}

#[test]
fn end_of_input_gives_no_puzzle() {
    let mut pos = 0;
    assert_eq!(read_puzzle(b"", &mut pos), Ok(None));
    assert_eq!(pos, 0);
    let mut pos = 0;
    assert_eq!(read_puzzle(b"\n\n  abc 0 \n", &mut pos), Ok(None));
    assert_eq!(pos, 11);
}

#[test]
fn puzzles_are_read_one_after_the_other() {
    let mut input = String::new();
    input.push_str(CLASSIC);
    input.push('\n');
    input.push_str(&CLASSIC.replace('.', "1"));
    input.push('\n');
    let bytes = input.as_bytes();
    let mut pos = 0;
    assert_eq!(read_puzzle(bytes, &mut pos), Ok(Some(Box::new(classic()))));
    assert_eq!(pos, 89);
    let second = read_puzzle(bytes, &mut pos).unwrap().unwrap();
    assert_eq!(pos, 91 + 89);
    for r in 0..9 {
        for c in 0..9 {
            assert_eq!(second[r][c], Some(classic()[r][c].unwrap_or(1)));
        }
    }
    assert_eq!(read_puzzle(bytes, &mut pos), Ok(None));
    assert_eq!(pos, bytes.len());
    assert_eq!(read_puzzle(bytes, &mut pos), Ok(None));
    assert_eq!(pos, bytes.len());
}

#[test]
fn bytes_between_the_cells_are_skipped() {
    let mut input = Vec::new();
    input.extend_from_slice(b"Grid 0\r\n");
    for line in CLASSIC.lines() {
        for b in line.bytes() {
            input.push(b);
            input.push(b' ');
        }
        input.extend_from_slice(b"|\r\n");
    }
    input.extend_from_slice(b"tail");
    let mut pos = 0;
    assert_eq!(read_puzzle(&input, &mut pos), Ok(Some(Box::new(classic()))));
    // "Grid 0\r\n" is 8 bytes, a line is 21, and the last cell is the
    // 17th byte of the ninth line
    assert_eq!(pos, 8 + 8 * 21 + 17);
    assert_eq!(read_puzzle(&input, &mut pos), Ok(None));
    assert_eq!(pos, input.len());
}

#[test]
fn zero_is_no_cell_byte() {
    let mut input = vec![b'0'; 100];
    input.extend_from_slice(CLASSIC.as_bytes());
    let mut pos = 0;
    assert_eq!(read_puzzle(&input, &mut pos), Ok(Some(Box::new(classic()))));
}

#[test]
fn input_that_ends_inside_a_puzzle_is_an_error() {
    let mut pos = 0;
    assert_eq!(read_puzzle(b"5", &mut pos), Err(ReadError::UnexpectedEof));
    assert_eq!(pos, 1);
    let cut = &CLASSIC.as_bytes()[..CLASSIC.len() - 2];
    let mut pos = 0;
    assert_eq!(read_puzzle(cut, &mut pos), Err(ReadError::UnexpectedEof));
    assert_eq!(pos, cut.len());
    let mut pos = 3;
    assert_eq!(read_puzzle(CLASSIC.as_bytes(), &mut pos), Err(ReadError::UnexpectedEof));
    assert_eq!(pos, CLASSIC.len());
}

#[test]
fn position_behind_the_input_reads_nothing() {
    let mut pos = CLASSIC.len();
    assert_eq!(read_puzzle(CLASSIC.as_bytes(), &mut pos), Ok(None));
    assert_eq!(pos, CLASSIC.len());
    let mut pos = CLASSIC.len() + 7;
    assert_eq!(read_puzzle(CLASSIC.as_bytes(), &mut pos), Ok(None));
    assert_eq!(pos, CLASSIC.len() + 7);
}

#[test]
fn puzzle_is_shown_as_nine_lines_and_an_empty_one() {
    let text = format_puzzle(&classic());
    let mut expected = String::from(CLASSIC);
    expected.push('\n');
    assert_eq!(text, expected.into_bytes());
    assert_eq!(text.len(), 91);
}

#[test]
fn what_is_shown_can_be_read_again() {
    let text = format_puzzle(&classic());
    let mut pos = 0;
    assert_eq!(read_puzzle(&text, &mut pos), Ok(Some(Box::new(classic()))));
    assert_eq!(pos, 89);
    assert_eq!(read_puzzle(&text, &mut pos), Ok(None));
}

#[test]
fn only_digits_tells_digits_from_other_values() {
    assert!(only_digits(&classic()));
    let empty: Sudoku = [[None; 9]; 9];
    assert!(only_digits(&empty));
    let mut grid = classic();
    grid[8][8] = Some(0);
    assert!(!only_digits(&grid));
    grid[8][8] = Some(10);
    assert!(!only_digits(&grid));
    grid[8][8] = Some(9);
    assert!(only_digits(&grid));
}

#[test]
fn json_body_of_the_classic_puzzle() {
    let json = write_puzzle_to_json(&classic());
    let expected = "{\"content\": [[5,3,0,0,7,0,0,0,0], [6,0,0,1,9,5,0,0,0], \
[0,9,8,0,0,0,0,6,0], [8,0,0,0,6,0,0,0,3], [4,0,0,8,0,3,0,0,1], [7,0,0,0,2,0,0,0,6], \
[0,6,0,0,0,0,2,8,0], [0,0,0,4,1,9,0,0,5], [0,0,0,0,8,0,0,7,9]]}";
    assert_eq!(String::from_utf8(json.clone()).unwrap(), expected);
    assert_eq!(json.len(), MATRIX_LENGTH);
    assert_eq!(MATRIX_LENGTH, 202);
}

#[test]
fn json_body_of_the_empty_grid() {
    let empty: Sudoku = [[None; 9]; 9];
    let json = write_puzzle_to_json(&empty);
    let row = "[0,0,0,0,0,0,0,0,0]";
    let expected = format!("{{\"content\": [{}]}}", vec![row; 9].join(", "));
    assert_eq!(String::from_utf8(json).unwrap(), expected);
    assert_eq!(expected.len(), 202);
}

#[test]
fn json_numbers_of_two_and_three_digits() {
    let mut grid: Sudoku = [[None; 9]; 9];
    grid[0][0] = Some(10);
    grid[0][8] = Some(255);
    grid[8][0] = Some(100);
    grid[8][8] = Some(99);
    grid[4][4] = Some(207);
    let json = String::from_utf8(write_puzzle_to_json(&grid)).unwrap();
    assert!(json.starts_with("{\"content\": [[10,0,0,0,0,0,0,0,255], ["));
    assert!(json.contains(", [0,0,0,0,207,0,0,0,0], "));
    assert!(json.ends_with(", [100,0,0,0,0,0,0,0,99]]}"));
    assert_eq!(json.len(), 202 + 1 + 2 + 2 + 1 + 2);
}
