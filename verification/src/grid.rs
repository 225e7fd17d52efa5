//! The grid and the rule that decides whether a digit may be placed.

use vstd::prelude::*;

verus! {

/// A 9×9 grid, indexed `[row][col]`. `None` is an empty cell.
pub type Sudoku = [[Option<u8>; 9]; 9];

/// The cell of `g` at (`r`, `c`).
pub open spec fn cell(g: Sudoku, r: int, c: int) -> Option<u8> {
    g@[r]@[c]
}

/// Whether (`r`, `c`) names a cell.
pub open spec fn in_grid(r: int, c: int) -> bool {
    0 <= r < 9 && 0 <= c < 9
}

/// Whether two distinct cells share a row, a column or a 3×3 block.
pub open spec fn peers(r1: int, c1: int, r2: int, c2: int) -> bool {
    &&& in_grid(r1, c1)
    &&& in_grid(r2, c2)
    &&& (r1 != r2 || c1 != c2)
    &&& (r1 == r2 || c1 == c2 || (r1 / 3 == r2 / 3 && c1 / 3 == c2 / 3))
}

/// Whether `val` may stand at (`r`, `c`): no other cell of the row, the
/// column or the block holds it. The cell's own content plays no part, and
/// an empty candidate is legal everywhere.
pub open spec fn is_legal(g: Sudoku, r: int, c: int, val: Option<u8>) -> bool {
    val is Some ==> forall|r2: int, c2: int|
        peers(r, c, r2, c2) ==> #[trigger] cell(g, r2, c2) != val
}

/// Whether a cell holds one of the digits 1 to 9.
pub open spec fn is_digit(val: Option<u8>) -> bool {
    val matches Some(v) && 1 <= v <= 9
}

/// The number a cell stands for; an empty cell counts as 0.
pub open spec fn digit_of(val: Option<u8>) -> int {
    match val {
        Some(v) => v as int,
        None => 0,
    }
}

/// Whether `g1` is `g0` with `val` written at (`r`, `c`).
pub open spec fn placed(g0: Sudoku, g1: Sudoku, r: int, c: int, val: Option<u8>) -> bool {
    &&& in_grid(r, c)
    &&& cell(g1, r, c) == val
    &&& forall|r2: int, c2: int|
        in_grid(r2, c2) && (r2 != r || c2 != c) ==> #[trigger] cell(g1, r2, c2) == cell(g0, r2, c2)
}

/// Whether `val` may stand at a cell does not depend on what the cell
/// itself holds: writing anything there, the value in question too, leaves
/// the answer as it was.
pub proof fn lemma_own_cell_ignored(
    g0: Sudoku,
    g1: Sudoku,
    r: int,
    c: int,
    written: Option<u8>,
    val: Option<u8>,
)
    requires
        placed(g0, g1, r, c, written),
    ensures
        is_legal(g1, r, c, val) == is_legal(g0, r, c, val),
{
    assert forall|r2: int, c2: int| peers(r, c, r2, c2) implies #[trigger] cell(g1, r2, c2)
        == cell(g0, r2, c2) by {}
    if val is Some {
        if is_legal(g0, r, c, val) {
            assert forall|r2: int, c2: int| peers(r, c, r2, c2) implies #[trigger] cell(
                g1,
                r2,
                c2,
            ) != val by {
                assert(cell(g0, r2, c2) != val);
            }
        }
        if is_legal(g1, r, c, val) {
            assert forall|r2: int, c2: int| peers(r, c, r2, c2) implies #[trigger] cell(
                g0,
                r2,
                c2,
            ) != val by {
                assert(cell(g1, r2, c2) != val);
            }
        }
    }
}

/// Says whether `val` may be placed at (`row`, `col`) of `puzzle`: whether
/// none of the other cells of that row, column and block holds it.
pub fn check_square(puzzle: &Sudoku, row: usize, col: usize, val: Option<u8>) -> (legal: bool)
    requires
        row < 9,
        col < 9,
    ensures
        legal == is_legal(*puzzle, row as int, col as int, val),
{
    if val.is_none() {
        return true;
    }
    let mut k: usize = 0;
    while k < 9
        invariant
            k <= 9,
            row < 9,
            col < 9,
            val is Some,
            forall|c2: int| 0 <= c2 < k && c2 != col ==> #[trigger] cell(*puzzle, row as int, c2) != val,
            forall|r2: int| 0 <= r2 < k && r2 != row ==> #[trigger] cell(*puzzle, r2, col as int) != val,
        decreases 9 - k,
    {
        if k != col && puzzle[row][k] == val {
            assert(peers(row as int, col as int, row as int, k as int));
            assert(cell(*puzzle, row as int, k as int) == val);
            return false;
        }
        if k != row && puzzle[k][col] == val {
            assert(peers(row as int, col as int, k as int, col as int));
            assert(cell(*puzzle, k as int, col as int) == val);
            return false;
        }
        k += 1;
    }
    let top: usize = row / 3 * 3;
    let left: usize = col / 3 * 3;
    let mut i: usize = 0;
    while i < 3
        invariant
            i <= 3,
            row < 9,
            col < 9,
            top == row / 3 * 3,
            left == col / 3 * 3,
            val is Some,
            forall|r2: int, c2: int|
                top <= r2 < top + i && left <= c2 < left + 3 && (r2 != row || c2 != col)
                    ==> #[trigger] cell(*puzzle, r2, c2) != val,
        decreases 3 - i,
    {
        let mut j: usize = 0;
        while j < 3
            invariant
                i < 3,
                j <= 3,
                row < 9,
                col < 9,
                top == row / 3 * 3,
                left == col / 3 * 3,
                val is Some,
                forall|r2: int, c2: int|
                    top <= r2 < top + i && left <= c2 < left + 3 && (r2 != row || c2 != col)
                        ==> #[trigger] cell(*puzzle, r2, c2) != val,
                forall|c2: int|
                    left <= c2 < left + j && (top + i != row || c2 != col) ==> #[trigger] cell(
                        *puzzle,
                        top + i,
                        c2,
                    ) != val,
            decreases 3 - j,
        {
            let r: usize = top + i;
            let c: usize = left + j;
            if (r != row || c != col) && puzzle[r][c] == val {
                assert(peers(row as int, col as int, r as int, c as int));
                assert(cell(*puzzle, r as int, c as int) == val);
                return false;
            }
            j += 1;
        }
        i += 1;
    }
    assert forall|r2: int, c2: int| peers(row as int, col as int, r2, c2) implies #[trigger] cell(
        *puzzle,
        r2,
        c2,
    ) != val by {
        if r2 != row && c2 != col {
            assert(top <= r2 < top + 3 && left <= c2 < left + 3);
        }
    }
    true
}

} // verus!
