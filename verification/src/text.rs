//! The text forms of a grid: the puzzle format that is read, the lines that
//! are shown, and the JSON body that is sent for verification.

use crate::grid::{cell, digit_of, in_grid, is_digit, Sudoku};
use vstd::prelude::*;

verus! {

/// The length in bytes of the JSON body of a grid whose cells are empty or
/// hold one digit each.
pub const MATRIX_LENGTH: usize = 202;

/// The byte `.`, which stands for an empty cell.
pub const DOT: u8 = 46;

/// The byte `0`.
pub const ZERO: u8 = 48;

/// The byte `1`.
pub const ONE: u8 = 49;

/// The byte `9`.
pub const NINE: u8 = 57;

/// The line feed.
pub const NEWLINE: u8 = 10;

/// The byte `,`.
pub const COMMA: u8 = 44;

/// The space.
pub const SPACE: u8 = 32;

/// The byte `[`.
pub const OPEN: u8 = 91;

/// The byte `]`.
pub const CLOSE: u8 = 93;

/// Why no puzzle could be read.
#[derive(Debug, PartialEq, Eq, Clone, Copy)]
pub enum ReadError {
    /// The input ended inside a puzzle, after at least one of its cells.
    UnexpectedEof,
}

/// Whether a byte of the input stands for a cell: `.` or one of `1` to `9`.
/// Every other byte is skipped.
pub open spec fn is_cell_byte(b: u8) -> bool {
    b == DOT || (ONE <= b && b <= NINE)
}

/// The cell that a cell byte stands for.
pub open spec fn cell_of_byte(b: u8) -> Option<u8> {
    if b == DOT {
        None
    } else {
        Some((b - ZERO) as u8)
    }
}

/// The cell bytes of `s`, in their order.
pub open spec fn cell_bytes(s: Seq<u8>) -> Seq<u8>
    decreases s.len(),
{
    if s.len() == 0 {
        s
    } else if is_cell_byte(s.last()) {
        cell_bytes(s.drop_last()).push(s.last())
    } else {
        cell_bytes(s.drop_last())
    }
}

/// What of `s` is still to be read at position `pos`.
pub open spec fn unread(s: Seq<u8>, pos: int) -> Seq<u8> {
    if 0 <= pos <= s.len() {
        s.subrange(pos, s.len() as int)
    } else {
        Seq::empty()
    }
}

/// Whether `g` holds, row by row, what the first 81 of `cells` stand for.
pub open spec fn holds_cells(g: Sudoku, cells: Seq<u8>) -> bool {
    forall|r: int, c: int|
        in_grid(r, c) ==> #[trigger] cell(g, r, c) == cell_of_byte(cells[9 * r + c])
}

/// Whether every filled cell of `g` holds one of the digits 1 to 9.
pub open spec fn holds_digits(g: Sudoku) -> bool {
    forall|r: int, c: int|
        in_grid(r, c) && (#[trigger] cell(g, r, c)) is Some ==> is_digit(cell(g, r, c))
}

/// The cell bytes of two pieces of input, one after the other.
pub proof fn lemma_cell_bytes_add(a: Seq<u8>, b: Seq<u8>)
    ensures
        cell_bytes(a + b) == cell_bytes(a) + cell_bytes(b),
    decreases b.len(),
{
    if b.len() == 0 {
        assert(a + b =~= a);
        assert(cell_bytes(a) + cell_bytes(b) =~= cell_bytes(a));
    } else {
        assert((a + b).drop_last() =~= a + b.drop_last());
        assert((a + b).last() == b.last());
        lemma_cell_bytes_add(a, b.drop_last());
        if is_cell_byte(b.last()) {
            assert((cell_bytes(a) + cell_bytes(b.drop_last())).push(b.last()) =~= cell_bytes(a)
                + cell_bytes(b.drop_last()).push(b.last()));
        }
    }
}

/// Reads the next puzzle of `input`, starting at `*pos`, and moves `*pos`
/// past what was read.
///
/// A puzzle is the next 81 cell bytes, row by row; the bytes between them
/// are skipped. With no cell byte left the result is `Ok(None)`, with
/// fewer than 81 it is the error; either way the rest of the input has
/// been used up. After a puzzle, `*pos` stands right behind its last cell
/// byte.
pub fn read_puzzle(input: &[u8], pos: &mut usize) -> (res: Result<Option<Box<Sudoku>>, ReadError>)
    ensures
        cell_bytes(unread(input@, *old(pos) as int)).len() == 0 ==> res == Ok::<
            Option<Box<Sudoku>>,
            ReadError,
        >(None),
        0 < cell_bytes(unread(input@, *old(pos) as int)).len() < 81 ==> res == Err::<
            Option<Box<Sudoku>>,
            ReadError,
        >(ReadError::UnexpectedEof),
        cell_bytes(unread(input@, *old(pos) as int)).len() >= 81 ==> (res matches Ok(Some(g))
            && holds_cells(*g, cell_bytes(unread(input@, *old(pos) as int))) && holds_digits(*g)),
        res matches Ok(Some(_)) ==> *old(pos) < *final(pos) <= input@.len() && is_cell_byte(
            input@[*final(pos) - 1],
        ) && cell_bytes(input@.subrange(*old(pos) as int, *final(pos) as int)).len() == 81,
        !(res matches Ok(Some(_))) && *old(pos) <= input@.len() ==> *final(pos) == input@.len(),
        *old(pos) > input@.len() ==> *final(pos) == *old(pos),
{
    let n: usize = input.len();
    if *pos > n {
        return Ok(None);
    }
    let start: usize = *pos;
    let ghost s = input@;
    let mut grid: Sudoku = [[None;9];9];
    let mut count: usize = 0;
    let mut i: usize = start;
    while i < n && count < 81
        invariant
            s == input@,
            n == s.len(),
            start <= i <= n,
            count <= 81,
            count == cell_bytes(s.subrange(start as int, i as int)).len(),
            count == 81 ==> start < i && is_cell_byte(s[i - 1]),
            forall|k: int|
                0 <= k < count ==> #[trigger] cell_of_byte(
                    cell_bytes(s.subrange(start as int, i as int))[k],
                ) == cell(grid, k / 9, k % 9),
            forall|k: int|
                0 <= k < count ==> is_cell_byte(
                    #[trigger] cell_bytes(s.subrange(start as int, i as int))[k],
                ),
        decreases n - i,
    {
        let b: u8 = input[i];
        let ghost seen = s.subrange(start as int, i as int);
        let ghost grid0 = grid;
        proof {
            assert(s.subrange(start as int, i + 1).drop_last() =~= seen);
            assert(s.subrange(start as int, i + 1).last() == b);
        }
        if b == DOT || (ONE <= b && b <= NINE) {
            let row: usize = count / 9;
            let col: usize = count % 9;
            grid[row][col] = if b == DOT {
                None
            } else {
                Some(b - ZERO)
            };
            proof {
                assert forall|k: int| 0 <= k < count + 1 implies #[trigger] cell_of_byte(
                    cell_bytes(s.subrange(start as int, i + 1))[k],
                ) == cell(grid, k / 9, k % 9) by {
                    if k < count {
                        assert(cell_of_byte(cell_bytes(seen)[k]) == cell(grid0, k / 9, k % 9));
                        assert(k / 9 != row || k % 9 != col);
                    }
                }
            }
            count += 1;
        }
        i += 1;
    }
    *pos = i;
    proof {
        let seen = s.subrange(start as int, i as int);
        let rest = s.subrange(i as int, n as int);
        assert(unread(s, start as int) =~= seen + rest);
        lemma_cell_bytes_add(seen, rest);
        if count == 81 {
            let cells = cell_bytes(unread(s, start as int));
            assert forall|r: int, c: int| in_grid(r, c) implies #[trigger] cell(grid, r, c)
                == cell_of_byte(cells[9 * r + c]) by {
                let k = 9 * r + c;
                assert(k / 9 == r && k % 9 == c);
                assert(cells[k] == cell_bytes(seen)[k]);
                assert(cell_of_byte(cell_bytes(seen)[k]) == cell(grid, k / 9, k % 9));
            }
            assert forall|r: int, c: int|
                in_grid(r, c) && (#[trigger] cell(grid, r, c)) is Some implies is_digit(
                cell(grid, r, c),
            ) by {
                let k = 9 * r + c;
                assert(is_cell_byte(cell_bytes(seen)[k]));
                assert(cell_of_byte(cell_bytes(seen)[k]) == cell(grid, k / 9, k % 9));
                assert(k / 9 == r && k % 9 == c);
            }
        } else {
            assert(rest =~= Seq::<u8>::empty());
            assert(cell_bytes(seen) + cell_bytes(rest) =~= cell_bytes(seen));
        }
    }
    if count == 81 {
        Ok(Some(Box::new(grid)))
    } else if count == 0 {
        Ok(None)
    } else {
        Err(ReadError::UnexpectedEof)
    }
}

/// The byte that shows a cell: `.` for an empty one, else its digit.
pub open spec fn text_cell(val: Option<u8>) -> u8 {
    match val {
        Some(d) => (ZERO + d) as u8,
        None => DOT,
    }
}

/// The lines that show `g`: one line of nine bytes for each row, and an
/// empty line behind them. Every line ends in a line feed.
pub open spec fn puzzle_text(g: Sudoku) -> Seq<u8> {
    Seq::new(
        91,
        |k: int|
            if k == 90 || k % 10 == 9 {
                NEWLINE
            } else {
                text_cell(cell(g, k / 10, k % 10))
            },
    )
}

/// The decimal digits of `n`, as bytes.
pub open spec fn decimal(n: nat) -> Seq<u8>
    decreases n,
{
    if n < 10 {
        seq![(ZERO + n) as u8]
    } else {
        decimal(n / 10).push((ZERO + n % 10) as u8)
    }
}

/// The first `n` cells of row `r` as JSON numbers with commas between
/// them. An empty cell is the number 0.
pub open spec fn json_cells(g: Sudoku, r: int, n: nat) -> Seq<u8>
    decreases n,
{
    if n == 0 {
        Seq::empty()
    } else if n == 1 {
        decimal(digit_of(cell(g, r, 0)) as nat)
    } else {
        json_cells(g, r, (n - 1) as nat).push(COMMA) + decimal(digit_of(cell(g, r, n - 1)) as nat)
    }
}

/// Row `r` as a JSON array.
pub open spec fn json_row(g: Sudoku, r: int) -> Seq<u8> {
    seq![OPEN] + json_cells(g, r, 9).push(CLOSE)
}

/// The first `n` rows as JSON arrays with a comma and a space between
/// them.
pub open spec fn json_rows(g: Sudoku, n: nat) -> Seq<u8>
    decreases n,
{
    if n == 0 {
        Seq::empty()
    } else if n == 1 {
        json_row(g, 0)
    } else {
        json_rows(g, (n - 1) as nat).push(COMMA).push(SPACE) + json_row(g, n - 1)
    }
}

/// The bytes `{"content": [`, with which the JSON body begins.
pub open spec fn json_head() -> Seq<u8> {
    seq![123u8, 34u8, 99u8, 111u8, 110u8, 116u8, 101u8, 110u8, 116u8, 34u8, 58u8, 32u8, 91u8]
}

/// The bytes `]}`, with which the JSON body ends.
pub open spec fn json_tail() -> Seq<u8> {
    seq![93u8, 125u8]
}

/// The JSON body for `g`: an object whose one member, `content`, is the
/// array of the nine rows.
pub open spec fn json_text(g: Sudoku) -> Seq<u8> {
    json_head() + json_rows(g, 9) + json_tail()
}

/// Whether every cell of `g` is written as one byte in JSON: whether it is
/// empty or holds at most 9.
pub open spec fn one_byte_cells(g: Sudoku) -> bool {
    forall|r: int, c: int| in_grid(r, c) ==> digit_of(#[trigger] cell(g, r, c)) <= 9
}

/// With one byte for each cell, the first `n` cells of a row take
/// `2 * n - 1` bytes.
proof fn lemma_json_cells_len(g: Sudoku, r: int, n: nat)
    requires
        one_byte_cells(g),
        0 <= r < 9,
        1 <= n <= 9,
    ensures
        json_cells(g, r, n).len() == 2 * n - 1,
    decreases n,
{
    assert(digit_of(cell(g, r, n - 1)) <= 9);
    if n > 1 {
        lemma_json_cells_len(g, r, (n - 1) as nat);
    }
}

/// With one byte for each cell, the first `n` rows take `21 * n - 2` bytes.
proof fn lemma_json_rows_len(g: Sudoku, n: nat)
    requires
        one_byte_cells(g),
        1 <= n <= 9,
    ensures
        json_rows(g, n).len() == 21 * n - 2,
    decreases n,
{
    lemma_json_cells_len(g, n - 1, 9);
    if n > 1 {
        lemma_json_rows_len(g, (n - 1) as nat);
    }
}

/// The JSON body of a grid with one byte for each cell is `MATRIX_LENGTH`
/// bytes long.
pub proof fn lemma_json_text_len(g: Sudoku)
    requires
        one_byte_cells(g),
    ensures
        json_text(g).len() == MATRIX_LENGTH,
{
    lemma_json_rows_len(g, 9);
}

/// How many cell bytes the first `n` bytes of the lines that show a grid
/// hold.
spec fn cells_shown(n: int) -> int {
    if n == 91 {
        81
    } else {
        9 * (n / 10) + n % 10
    }
}

/// The cell bytes among the first `n` bytes of the lines that show `g` are
/// the bytes of its first cells, row by row.
proof fn lemma_cells_of_text(g: Sudoku, n: int)
    requires
        holds_digits(g),
        0 <= n <= 91,
    ensures
        cell_bytes(puzzle_text(g).take(n)).len() == cells_shown(n),
        forall|k: int|
            0 <= k < cells_shown(n) ==> #[trigger] cell_bytes(puzzle_text(g).take(n))[k]
                == text_cell(cell(g, k / 9, k % 9)),
    decreases n,
{
    let text = puzzle_text(g);
    if n > 0 {
        lemma_cells_of_text(g, n - 1);
        assert(text.take(n).drop_last() =~= text.take(n - 1));
        let b = text.take(n).last();
        assert(b == text[n - 1]);
        if n - 1 == 90 || (n - 1) % 10 == 9 {
            assert(b == NEWLINE);
        } else {
            let (r, c) = ((n - 1) / 10, (n - 1) % 10);
            assert(b == text_cell(cell(g, r, c)));
            assert(cell(g, r, c) is Some ==> is_digit(cell(g, r, c)));
            assert(is_cell_byte(b));
            let k = cells_shown(n - 1);
            assert(k == 9 * r + c);
            assert(k / 9 == r && k % 9 == c);
        }
    }
}

/// What `format_puzzle` writes, `read_puzzle` reads back: the lines that
/// show a grid hold 81 cell bytes, and these stand for its cells.
pub proof fn lemma_text_reads_back(g: Sudoku)
    requires
        holds_digits(g),
    ensures
        cell_bytes(unread(puzzle_text(g), 0)).len() == 81,
        holds_cells(g, cell_bytes(unread(puzzle_text(g), 0))),
{
    let text = puzzle_text(g);
    assert(unread(text, 0) =~= text.take(91));
    lemma_cells_of_text(g, 91);
    let cells = cell_bytes(text.take(91));
    assert forall|r: int, c: int| in_grid(r, c) implies #[trigger] cell(g, r, c) == cell_of_byte(
        cells[9 * r + c],
    ) by {
        let k = 9 * r + c;
        assert(k / 9 == r && k % 9 == c);
        assert(cells[k] == text_cell(cell(g, k / 9, k % 9)));
        assert(cell(g, r, c) is Some ==> is_digit(cell(g, r, c)));
    }
}

/// Says whether every filled cell of `puzzle` holds one of the digits 1 to
/// 9.
pub fn only_digits(puzzle: &Sudoku) -> (ok: bool)
    ensures
        ok == holds_digits(*puzzle),
{
    let mut row: usize = 0;
    while row < 9
        invariant
            row <= 9,
            forall|r: int, c: int|
                0 <= r < row && 0 <= c < 9 && (#[trigger] cell(*puzzle, r, c)) is Some
                    ==> is_digit(cell(*puzzle, r, c)),
        decreases 9 - row,
    {
        let mut col: usize = 0;
        while col < 9
            invariant
                row < 9,
                col <= 9,
                forall|r: int, c: int|
                    0 <= r < row && 0 <= c < 9 && (#[trigger] cell(*puzzle, r, c)) is Some
                        ==> is_digit(cell(*puzzle, r, c)),
                forall|c: int|
                    0 <= c < col && (#[trigger] cell(*puzzle, row as int, c)) is Some
                        ==> is_digit(cell(*puzzle, row as int, c)),
            decreases 9 - col,
        {
            match puzzle[row][col] {
                Some(d) => {
                    if d < 1 || d > 9 {
                        assert(!is_digit(cell(*puzzle, row as int, col as int)));
                        return false;
                    }
                },
                None => {},
            }
            col += 1;
        }
        row += 1;
    }
    true
}

/// Writes `puzzle` as lines of text: a line of nine bytes for each row, `.`
/// for an empty cell and its digit for a filled one, and an empty line
/// behind them.
pub fn format_puzzle(puzzle: &Sudoku) -> (out: Vec<u8>)
    requires
        holds_digits(*puzzle),
    ensures
        out@ == puzzle_text(*puzzle),
{
    let mut out: Vec<u8> = Vec::new();
    let mut row: usize = 0;
    while row < 9
        invariant
            row <= 9,
            holds_digits(*puzzle),
            out@.len() == 10 * row,
            forall|k: int| 0 <= k < out@.len() ==> #[trigger] out@[k] == puzzle_text(*puzzle)[k],
        decreases 9 - row,
    {
        let mut col: usize = 0;
        while col < 9
            invariant
                row < 9,
                col <= 9,
                holds_digits(*puzzle),
                out@.len() == 10 * row + col,
                forall|k: int|
                    0 <= k < out@.len() ==> #[trigger] out@[k] == puzzle_text(*puzzle)[k],
            decreases 9 - col,
        {
            let ghost k = 10 * row + col;
            assert(k / 10 == row && k % 10 == col);
            match puzzle[row][col] {
                Some(d) => {
                    assert(is_digit(cell(*puzzle, row as int, col as int)));
                    out.push(ZERO + d);
                },
                None => {
                    out.push(DOT);
                },
            }
            col += 1;
        }
        out.push(NEWLINE);
        row += 1;
    }
    out.push(NEWLINE);
    assert(out@ =~= puzzle_text(*puzzle));
    out
}

/// Appends `bytes` to `out`.
fn push_bytes(out: &mut Vec<u8>, bytes: &[u8])
    ensures
        final(out)@ == old(out)@ + bytes@,
{
    let mut i: usize = 0;
    while i < bytes.len()
        invariant
            i <= bytes@.len(),
            out@ == old(out)@ + bytes@.subrange(0, i as int),
        decreases bytes@.len() - i,
    {
        out.push(bytes[i]);
        assert(out@ =~= old(out)@ + bytes@.subrange(0, i + 1));
        i += 1;
    }
    assert(bytes@.subrange(0, i as int) =~= bytes@);
}

/// Appends the decimal digits of `n` to `out`.
fn push_decimal(out: &mut Vec<u8>, n: u8)
    ensures
        final(out)@ == old(out)@ + decimal(n as nat),
{
    reveal_with_fuel(decimal, 3);
    if n >= 100 {
        out.push(ZERO + n / 100);
    }
    if n >= 10 {
        out.push(ZERO + n / 10 % 10);
    }
    out.push(ZERO + n % 10);
    assert(out@ =~= old(out)@ + decimal(n as nat));
}

/// Appends row `row` of `puzzle` to `out` as a JSON array.
fn push_json_row(out: &mut Vec<u8>, puzzle: &Sudoku, row: usize)
    requires
        row < 9,
    ensures
        final(out)@ == old(out)@ + json_row(*puzzle, row as int),
{
    out.push(OPEN);
    let ghost base = out@;
    let mut col: usize = 0;
    while col < 9
        invariant
            col <= 9,
            row < 9,
            out@ == base + json_cells(*puzzle, row as int, col as nat),
        decreases 9 - col,
    {
        let ghost before = out@;
        if col > 0 {
            out.push(COMMA);
        }
        let n: u8 = match puzzle[row][col] {
            Some(d) => d,
            None => 0,
        };
        assert(n == digit_of(cell(*puzzle, row as int, col as int)));
        push_decimal(out, n);
        assert(out@ =~= base + json_cells(*puzzle, row as int, (col + 1) as nat));
        col += 1;
    }
    out.push(CLOSE);
    assert(out@ =~= old(out)@ + json_row(*puzzle, row as int));
}

/// Writes `puzzle` as the JSON body that is sent for verification:
/// `{"content": [` , the nine rows, each an array of nine numbers, and
/// `]}`. An empty cell is written as 0.
pub fn write_puzzle_to_json(puzzle: &Sudoku) -> (out: Vec<u8>)
    ensures
        out@ == json_text(*puzzle),
        one_byte_cells(*puzzle) ==> out@.len() == MATRIX_LENGTH,
{
    let head: [u8; 13] = [123, 34, 99, 111, 110, 116, 101, 110, 116, 34, 58, 32, 91];
    let tail: [u8; 2] = [93, 125];
    let mut out: Vec<u8> = Vec::new();
    push_bytes(&mut out, &head);
    assert(out@ =~= json_head());
    let mut row: usize = 0;
    while row < 9
        invariant
            row <= 9,
            out@ == json_head() + json_rows(*puzzle, row as nat),
        decreases 9 - row,
    {
        if row > 0 {
            out.push(COMMA);
            out.push(SPACE);
        }
        push_json_row(&mut out, puzzle, row);
        assert(out@ =~= json_head() + json_rows(*puzzle, (row + 1) as nat));
        row += 1;
    }
    push_bytes(&mut out, &tail);
    assert(out@ =~= json_text(*puzzle));
    proof {
        if one_byte_cells(*puzzle) {
            lemma_json_text_len(*puzzle);
        }
    }
    out
}

} // verus!
