//! Depth-first search with backtracking over the empty cells of a grid.

use crate::checker::{
    is_complete, is_permutation, is_solved, is_valid, lemma_complete_and_valid_is_solved,
    lemma_permutation_holds_each_digit, lemma_solved_is_complete_and_valid, row_of,
};
use crate::counting::lemma_pigeonhole;
use crate::grid::{
    cell, check_square, digit_of, in_grid, is_digit, is_legal, peers, placed, Sudoku,
};
use vstd::prelude::*;
use vstd::set_lib::{lemma_int_range, lemma_len_subset, set_int_range};

verus! {

/// What the cell (`r`, `c`) of a completion `h` of `g` must be: the given
/// of `g` where there is one, else a digit that no other cell of its row,
/// column or block in `h` repeats.
pub open spec fn filled_from(g: Sudoku, h: Sudoku, r: int, c: int) -> bool {
    if cell(g, r, c) is Some {
        cell(h, r, c) == cell(g, r, c)
    } else {
        is_digit(cell(h, r, c)) && is_legal(h, r, c, cell(h, r, c))
    }
}

/// Whether `h` is `g` with every empty cell filled in legally.
pub open spec fn completes(g: Sudoku, h: Sudoku) -> bool {
    forall|r: int, c: int| in_grid(r, c) ==> #[trigger] filled_from(g, h, r, c)
}

/// Whether some grid completes `g`.
pub open spec fn solvable(g: Sudoku) -> bool {
    exists|h: Sudoku| completes(g, h)
}

/// The scan order: row by row, each row from left to right.
pub open spec fn before(r1: int, c1: int, r2: int, c2: int) -> bool {
    r1 < r2 || (r1 == r2 && c1 < c2)
}

/// Whether (`r`, `c`) is the first empty cell of `g` in scan order.
pub open spec fn first_empty(g: Sudoku, r: int, c: int) -> bool {
    &&& in_grid(r, c)
    &&& cell(g, r, c) is None
    &&& forall|r2: int, c2: int|
        in_grid(r2, c2) && before(r2, c2, r, c) ==> #[trigger] cell(g, r2, c2) is Some
}

/// Whether `a` and `b` hold the same in every cell that comes before
/// (`r`, `c`) in scan order.
pub open spec fn agree_before(a: Sudoku, b: Sudoku, r: int, c: int) -> bool {
    forall|r2: int, c2: int|
        in_grid(r2, c2) && before(r2, c2, r, c) ==> #[trigger] cell(a, r2, c2) == cell(b, r2, c2)
}

/// Whether `a` comes no later than `b` when grids are compared cell by
/// cell in scan order: where they first differ, `a` holds the smaller
/// digit.
pub open spec fn no_later(a: Sudoku, b: Sudoku) -> bool {
    forall|r: int, c: int|
        in_grid(r, c) && #[trigger] agree_before(a, b, r, c) ==> digit_of(cell(a, r, c))
            <= digit_of(cell(b, r, c))
}

/// Whether `h` is the completion of `g` that the search reaches first: the
/// one that comes no later than any other.
pub open spec fn first_completion(g: Sudoku, h: Sudoku) -> bool {
    &&& completes(g, h)
    &&& forall|other: Sudoku| #[trigger] completes(g, other) ==> no_later(h, other)
}

/// Whether `h` keeps every given of `g`.
pub open spec fn keeps_givens(g: Sudoku, h: Sudoku) -> bool {
    forall|r: int, c: int|
        in_grid(r, c) && (#[trigger] cell(g, r, c)) is Some ==> cell(h, r, c) == cell(g, r, c)
}

/// The scan positions, 0 to 80, of the empty cells of `g`.
pub open spec fn empty_cells(g: Sudoku) -> Set<int> {
    Set::new(|k: int| 0 <= k < 81 && cell(g, k / 9, k % 9) is None)
}

/// Two grids that hold the same in every cell are the same grid.
pub proof fn lemma_same_cells(a: Sudoku, b: Sudoku)
    requires
        forall|r: int, c: int| in_grid(r, c) ==> #[trigger] cell(a, r, c) == cell(b, r, c),
    ensures
        a == b,
{
    assert forall|r: int| 0 <= r < 9 implies a@[r] == b@[r] by {
        assert forall|c: int| 0 <= c < 9 implies a@[r]@[c] == b@[r]@[c] by {
            assert(cell(a, r, c) == cell(b, r, c));
        }
        assert(a@[r] =~= b@[r]);
    }
    assert(a =~= b);
}

/// Filling an empty cell leaves fewer empty cells.
proof fn lemma_fewer_empty(g0: Sudoku, g1: Sudoku, r: int, c: int, val: Option<u8>)
    requires
        placed(g0, g1, r, c, val),
        cell(g0, r, c) is None,
        val is Some,
    ensures
        empty_cells(g0).finite(),
        empty_cells(g1).len() < empty_cells(g0).len(),
{
    lemma_int_range(0, 81);
    lemma_len_subset(empty_cells(g0), set_int_range(0, 81));
    let k = 9 * r + c;
    assert(k / 9 == r && k % 9 == c);
    assert(empty_cells(g0).contains(k));
    assert forall|j: int| empty_cells(g1).contains(j) == empty_cells(g0).remove(k).contains(
        j,
    ) by {
        if 0 <= j < 81 && j != k {
            assert(in_grid(j / 9, j % 9));
            assert(j / 9 != r || j % 9 != c);
            assert(cell(g1, j / 9, j % 9) == cell(g0, j / 9, j % 9));
        }
    }
    assert(empty_cells(g1) =~= empty_cells(g0).remove(k));
}

/// A grid without an empty cell completes itself, and nothing else does.
proof fn lemma_complete_is_own_completion(g: Sudoku)
    requires
        is_complete(g),
    ensures
        first_completion(g, g),
{
    assert forall|r: int, c: int| in_grid(r, c) implies #[trigger] filled_from(g, g, r, c) by {
        assert(cell(g, r, c) is Some);
    }
    assert forall|other: Sudoku| #[trigger] completes(g, other) implies no_later(g, other) by {
        assert forall|r: int, c: int| in_grid(r, c) implies digit_of(cell(g, r, c)) <= digit_of(
            cell(other, r, c),
        ) by {
            assert(cell(g, r, c) is Some);
            assert(filled_from(g, other, r, c));
        }
    }
}

/// A completion that holds `val` at an empty cell also completes the grid
/// in which `val` has been placed there.
proof fn lemma_completes_placed(g0: Sudoku, g1: Sudoku, h: Sudoku, r: int, c: int, val: Option<u8>)
    requires
        placed(g0, g1, r, c, val),
        cell(g0, r, c) is None,
        val is Some,
        completes(g0, h),
        cell(h, r, c) == val,
    ensures
        completes(g1, h),
{
    assert forall|r2: int, c2: int| in_grid(r2, c2) implies #[trigger] filled_from(
        g1,
        h,
        r2,
        c2,
    ) by {
        assert(filled_from(g0, h, r2, c2));
        if r2 != r || c2 != c {
            assert(cell(g1, r2, c2) == cell(g0, r2, c2));
        }
    }
}

/// After a legal placement of a digit, every completion of the new grid
/// completes the old one too.
proof fn lemma_completes_unplaced(
    g0: Sudoku,
    g1: Sudoku,
    h: Sudoku,
    r: int,
    c: int,
    val: Option<u8>,
)
    requires
        placed(g0, g1, r, c, val),
        cell(g0, r, c) is None,
        is_digit(val),
        is_legal(g0, r, c, val),
        completes(g1, h),
    ensures
        completes(g0, h),
        cell(h, r, c) == val,
{
    assert(filled_from(g1, h, r, c));
    assert forall|r2: int, c2: int| peers(r, c, r2, c2) implies #[trigger] cell(h, r2, c2)
        != val by {
        assert(filled_from(g1, h, r2, c2));
        assert(cell(g1, r2, c2) == cell(g0, r2, c2));
        if cell(g0, r2, c2) is Some {
            assert(cell(g0, r2, c2) != val);
        } else {
            assert(peers(r2, c2, r, c));
            assert(cell(h, r, c) != cell(h, r2, c2));
        }
    }
    assert forall|r2: int, c2: int| in_grid(r2, c2) implies #[trigger] filled_from(
        g0,
        h,
        r2,
        c2,
    ) by {
        assert(filled_from(g1, h, r2, c2));
        if r2 != r || c2 != c {
            assert(cell(g1, r2, c2) == cell(g0, r2, c2));
        }
    }
}

/// No completion holds at an empty cell a value that is illegal there.
proof fn lemma_illegal_excluded(g: Sudoku, h: Sudoku, r: int, c: int, val: Option<u8>)
    requires
        in_grid(r, c),
        cell(g, r, c) is None,
        !is_legal(g, r, c, val),
        completes(g, h),
    ensures
        cell(h, r, c) != val,
{
    let (r2, c2) = choose|r2: int, c2: int|
        peers(r, c, r2, c2) && #[trigger] cell(g, r2, c2) == val;
    assert(filled_from(g, h, r2, c2));
    assert(filled_from(g, h, r, c));
    assert(cell(h, r2, c2) == val);
}

/// Among the completions of a grid, one that holds the smallest digit at
/// the first empty cell, and comes first among those that hold the same
/// there, comes first of all.
proof fn lemma_first_through_cell(g0: Sudoku, g1: Sudoku, h: Sudoku, r: int, c: int, v: u8)
    requires
        first_empty(g0, r, c),
        placed(g0, g1, r, c, Some(v)),
        1 <= v <= 9,
        is_legal(g0, r, c, Some(v)),
        first_completion(g1, h),
        forall|other: Sudoku| #[trigger] completes(g0, other) ==> digit_of(cell(other, r, c)) >= v,
    ensures
        first_completion(g0, h),
{
    lemma_completes_unplaced(g0, g1, h, r, c, Some(v));
    assert forall|other: Sudoku| #[trigger] completes(g0, other) implies no_later(h, other) by {
        assert(filled_from(g0, other, r, c));
        if cell(other, r, c) == Some(v) {
            lemma_completes_placed(g0, g1, other, r, c, Some(v));
        } else {
            assert(digit_of(cell(other, r, c)) > v);
            assert forall|r2: int, c2: int|
                in_grid(r2, c2) && #[trigger] agree_before(h, other, r2, c2) implies digit_of(
                cell(h, r2, c2),
            ) <= digit_of(cell(other, r2, c2)) by {
                if before(r2, c2, r, c) {
                    assert(cell(g0, r2, c2) is Some);
                    assert(filled_from(g0, other, r2, c2));
                    assert(filled_from(g0, h, r2, c2));
                } else if before(r, c, r2, c2) {
                    assert(cell(h, r, c) == cell(other, r, c));
                }
            }
        }
    }
}

/// Every completion of a grid that breaks no rule is a Sudoku solution:
/// each row, column and block of it holds the digits 1 to 9 once, with no
/// cell left empty.
pub proof fn lemma_completion_of_valid_is_solved(g: Sudoku, h: Sudoku)
    requires
        is_valid(g),
        completes(g, h),
    ensures
        is_solved(h),
        keeps_givens(g, h),
{
    assert forall|r: int, c: int| in_grid(r, c) implies is_digit(#[trigger] cell(h, r, c)) by {
        assert(filled_from(g, h, r, c));
    }
    assert forall|r1: int, c1: int, r2: int, c2: int|
        #![trigger cell(h, r1, c1), cell(h, r2, c2)]
        peers(r1, c1, r2, c2) implies cell(h, r1, c1) != cell(h, r2, c2) by {
        assert(filled_from(g, h, r1, c1));
        assert(filled_from(g, h, r2, c2));
        assert(peers(r2, c2, r1, c1));
    }
    assert forall|r: int, c: int| in_grid(r, c) && (#[trigger] cell(g, r, c)) is Some implies cell(
        h,
        r,
        c,
    ) == cell(g, r, c) by {
        assert(filled_from(g, h, r, c));
    }
    lemma_complete_and_valid_is_solved(h);
}

/// Every Sudoku solution that keeps the givens of a grid completes it. So
/// a grid that cannot be completed has no solution.
pub proof fn lemma_solution_completes(g: Sudoku, h: Sudoku)
    requires
        keeps_givens(g, h),
        is_solved(h),
    ensures
        completes(g, h),
{
    lemma_solved_is_complete_and_valid(h);
    assert forall|r: int, c: int| in_grid(r, c) implies #[trigger] filled_from(g, h, r, c) by {
        assert(cell(h, r, c) is Some);
        assert forall|r2: int, c2: int| peers(r, c, r2, c2) implies #[trigger] cell(h, r2, c2)
            != cell(h, r, c) by {}
    }
}

/// Whether the givens of `g` are digits of which no column holds one twice,
/// and no row but row `r`.
pub open spec fn repeats_only_in_row(g: Sudoku, r: int) -> bool {
    &&& forall|a: int, b: int|
        in_grid(a, b) && (#[trigger] cell(g, a, b)) is Some ==> is_digit(cell(g, a, b))
    &&& forall|r1: int, c1: int, r2: int, c2: int|
        #![trigger cell(g, r1, c1), cell(g, r2, c2)]
        in_grid(r1, c1) && in_grid(r2, c2) && cell(g, r1, c1) is Some && ((c1 == c2 && r1 != r2)
            || (r1 == r2 && r1 != r && c1 != c2)) ==> cell(g, r1, c1) != cell(g, r2, c2)
}

/// A grid in which a row holds the same given twice cannot be completed,
/// where its givens are digits and no column and no other row repeats one:
/// the search reports failure on it.
pub proof fn lemma_row_repeat_unsolvable(g: Sudoku, r: int, c1: int, c2: int)
    requires
        in_grid(r, c1),
        in_grid(r, c2),
        c1 != c2,
        cell(g, r, c1) is Some,
        cell(g, r, c1) == cell(g, r, c2),
        repeats_only_in_row(g, r),
    ensures
        !solvable(g),
{
    if solvable(g) {
        let h = choose|h: Sudoku| completes(g, h);
        let v = cell(g, r, c1);
        assert(filled_from(g, h, r, c1));
        assert(filled_from(g, h, r, c2));
        assert(is_digit(v));
        assert forall|a: int, b: int| in_grid(a, b) implies is_digit(#[trigger] cell(h, a, b)) by {
            assert(filled_from(g, h, a, b));
        }
        assert forall|a: int, b: int, c: int|
            #![trigger cell(h, a, c), cell(h, b, c)]
            in_grid(a, c) && in_grid(b, c) && a != b implies cell(h, a, c) != cell(h, b, c) by {
            assert(filled_from(g, h, a, c));
            assert(filled_from(g, h, b, c));
            assert(peers(a, c, b, c));
            assert(peers(b, c, a, c));
        }
        assert forall|a: int, b: int, c: int|
            #![trigger cell(h, a, b), cell(h, a, c)]
            in_grid(a, b) && in_grid(a, c) && b != c && a != r implies cell(h, a, b) != cell(
            h,
            a,
            c,
        ) by {
            assert(filled_from(g, h, a, b));
            assert(filled_from(g, h, a, c));
            assert(peers(a, b, a, c));
            assert(peers(a, c, a, b));
        }
        // every other row holds `v` somewhere, and not in column c1 or c2
        let at = Seq::new(9, |a: int| choose|c: int| 0 <= c < 9 && cell(h, a, c) == v);
        assert forall|a: int| 0 <= a < 9 && a != r implies 0 <= #[trigger] at[a] < 9 && cell(
            h,
            a,
            at[a],
        ) == v && at[a] != c1 && at[a] != c2 by {
            let row = row_of(h, a);
            assert forall|k: int| 0 <= k < 9 implies is_digit(#[trigger] row[k]) by {
                assert(is_digit(cell(h, a, k)));
            }
            assert forall|i: int, j: int| 0 <= i < j < 9 implies #[trigger] row[i]
                != #[trigger] row[j] by {
                assert(cell(h, a, i) != cell(h, a, j));
            }
            assert(is_permutation(row));
            lemma_permutation_holds_each_digit(row, digit_of(v));
            let k = choose|k: int| 0 <= k < 9 && digit_of(#[trigger] row[k]) == digit_of(v);
            assert(is_digit(row[k]));
            assert(cell(h, a, k) == v);
            assert(cell(h, a, c1) != cell(h, r, c1));
            assert(cell(h, a, c2) != cell(h, r, c2));
        }
        // eight rows, seven columns left for them
        let s = Seq::new(
            8,
            |i: int|
                {
                    let c = at[if i < r {
                        i
                    } else {
                        i + 1
                    }];
                    c - (if c > c1 {
                        1int
                    } else {
                        0
                    }) - (if c > c2 {
                        1int
                    } else {
                        0
                    })
                },
        );
        assert forall|i: int| 0 <= i < s.len() implies 0 <= #[trigger] s[i] < 7 by {
            let a = if i < r {
                i
            } else {
                i + 1
            };
            assert(0 <= at[a] < 9 && at[a] != c1 && at[a] != c2);
        }
        lemma_pigeonhole(s, 7);
        let (i, j) = choose|i: int, j: int| 0 <= i < j < s.len() && s[i] == s[j];
        let a = if i < r {
            i
        } else {
            i + 1
        };
        let b = if j < r {
            j
        } else {
            j + 1
        };
        assert(0 <= at[a] < 9 && at[a] != c1 && at[a] != c2 && cell(h, a, at[a]) == v);
        assert(0 <= at[b] < 9 && at[b] != c1 && at[b] != c2 && cell(h, b, at[b]) == v);
        assert(at[a] == at[b]);
        assert(cell(h, a, at[a]) != cell(h, b, at[a]));
    }
}

/// A grid has at most one first completion.
pub proof fn lemma_first_completion_unique(g: Sudoku, a: Sudoku, b: Sudoku)
    requires
        first_completion(g, a),
        first_completion(g, b),
    ensures
        a == b,
{
    assert(no_later(a, b));
    assert(no_later(b, a));
    lemma_agree_up_to(g, a, b, 9, 0);
    lemma_same_cells(a, b);
}

/// Two completions of which neither comes later than the other hold the
/// same in every cell before (`r`, `c`).
proof fn lemma_agree_up_to(g: Sudoku, a: Sudoku, b: Sudoku, r: int, c: int)
    requires
        completes(g, a),
        completes(g, b),
        no_later(a, b),
        no_later(b, a),
        0 <= r <= 9,
        0 <= c < 9,
    ensures
        agree_before(a, b, r, c),
        forall|r2: int, c2: int| in_grid(r2, c2) && before(r2, c2, r, c) ==> #[trigger] cell(
            a,
            r2,
            c2,
        ) == cell(b, r2, c2),
    decreases 9 * r + c,
{
    if r > 0 || c > 0 {
        let (pr, pc) = if c > 0 {
            (r, c - 1)
        } else {
            (r - 1, 8int)
        };
        lemma_agree_up_to(g, a, b, pr, pc);
        assert forall|r2: int, c2: int| in_grid(r2, c2) && before(r2, c2, r, c) implies cell(
            b,
            r2,
            c2,
        ) == cell(a, r2, c2) by {
            if r2 == pr && c2 == pc {
                assert(agree_before(a, b, pr, pc));
                assert(agree_before(b, a, pr, pc));
                assert(digit_of(cell(a, pr, pc)) == digit_of(cell(b, pr, pc)));
                assert(filled_from(g, a, pr, pc));
                assert(filled_from(g, b, pr, pc));
            } else {
                assert(before(r2, c2, pr, pc));
            }
        }
    }
}

/// Finds the first empty cell in scan order, if there is one.
pub fn find_empty(puzzle: &Sudoku) -> (found: Option<(usize, usize)>)
    ensures
        found is None ==> is_complete(*puzzle),
        found matches Some((r, c)) ==> first_empty(*puzzle, r as int, c as int),
{
    let mut row: usize = 0;
    while row < 9
        invariant
            row <= 9,
            forall|r2: int, c2: int|
                0 <= r2 < row && 0 <= c2 < 9 ==> #[trigger] cell(*puzzle, r2, c2) is Some,
        decreases 9 - row,
    {
        let mut col: usize = 0;
        while col < 9
            invariant
                row < 9,
                col <= 9,
                forall|r2: int, c2: int|
                    0 <= r2 < row && 0 <= c2 < 9 ==> #[trigger] cell(*puzzle, r2, c2) is Some,
                forall|c2: int| 0 <= c2 < col ==> #[trigger] cell(*puzzle, row as int, c2) is Some,
            decreases 9 - col,
        {
            if puzzle[row][col].is_none() {
                return Some((row, col));
            }
            col += 1;
        }
        row += 1;
    }
    None
}

/// Fills the empty cells of `puzzle` by depth-first search: the first empty
/// cell in scan order takes the digits 1 to 9 in turn, each legal one is
/// placed and the rest is searched, and a digit that leads nowhere is taken
/// back.
///
/// Returns whether the grid can be completed. If it can, `puzzle` becomes
/// the first completion; if it cannot, `puzzle` is left as it was.
pub fn solve(puzzle: &mut Sudoku) -> (solved: bool)
    ensures
        solved == solvable(*old(puzzle)),
        solved ==> first_completion(*old(puzzle), *final(puzzle)),
        solved && is_valid(*old(puzzle)) ==> is_solved(*final(puzzle)),
        !solved ==> *final(puzzle) == *old(puzzle),
    decreases empty_cells(*old(puzzle)).len(),
{
    let ghost g0 = *puzzle;
    let (row, col) = match find_empty(puzzle) {
        None => {
            proof {
                lemma_complete_is_own_completion(g0);
                if is_valid(g0) {
                    lemma_completion_of_valid_is_solved(g0, g0);
                }
            }
            return true;
        },
        Some(at) => at,
    };
    proof {
        assert forall|other: Sudoku| #[trigger] completes(g0, other) implies digit_of(
            cell(other, row as int, col as int),
        ) >= 1 by {
            assert(filled_from(g0, other, row as int, col as int));
        }
    }
    let mut digit: u8 = 1;
    while digit <= 9
        invariant
            1 <= digit <= 10,
            g0 == *old(puzzle),
            *puzzle == g0,
            first_empty(g0, row as int, col as int),
            forall|other: Sudoku| #[trigger]
                completes(g0, other) ==> digit_of(cell(other, row as int, col as int)) >= digit,
        decreases 10 - digit,
    {
        if check_square(puzzle, row, col, Some(digit)) {
            puzzle[row][col] = Some(digit);
            let ghost g1 = *puzzle;
            proof {
                assert(placed(g0, g1, row as int, col as int, Some(digit)));
                lemma_fewer_empty(g0, g1, row as int, col as int, Some(digit));
            }
            if solve(puzzle) {
                proof {
                    lemma_first_through_cell(g0, g1, *puzzle, row as int, col as int, digit);
                    if is_valid(g0) {
                        lemma_completion_of_valid_is_solved(g0, *puzzle);
                    }
                }
                return true;
            }
            puzzle[row][col] = None;
            proof {
                assert forall|r: int, c: int| in_grid(r, c) implies #[trigger] cell(*puzzle, r, c)
                    == cell(g0, r, c) by {
                    if r != row || c != col {
                        assert(cell(g1, r, c) == cell(g0, r, c));
                    }
                }
                lemma_same_cells(*puzzle, g0);
                assert forall|other: Sudoku| #[trigger] completes(g0, other) implies cell(
                    other,
                    row as int,
                    col as int,
                ) != Some(digit) by {
                    if cell(other, row as int, col as int) == Some(digit) {
                        lemma_completes_placed(
                            g0,
                            g1,
                            other,
                            row as int,
                            col as int,
                            Some(digit),
                        );
                    }
                }
            }
        } else {
            proof {
                assert forall|other: Sudoku| #[trigger] completes(g0, other) implies cell(
                    other,
                    row as int,
                    col as int,
                ) != Some(digit) by {
                    lemma_illegal_excluded(g0, other, row as int, col as int, Some(digit));
                }
            }
        }
        digit += 1;
    }
    proof {
        assert forall|other: Sudoku| !completes(g0, other) by {
            if completes(g0, other) {
                assert(filled_from(g0, other, row as int, col as int));
            }
        }
    }
    false
}

/// Solves `puzzle` in place where it can be solved, and leaves it as it is
/// where it cannot.
pub fn solve_puzzle(puzzle: &mut Sudoku)
    ensures
        solvable(*old(puzzle)) ==> first_completion(*old(puzzle), *final(puzzle)),
        solvable(*old(puzzle)) && is_valid(*old(puzzle)) ==> is_solved(*final(puzzle)),
        !solvable(*old(puzzle)) ==> *final(puzzle) == *old(puzzle),
{
    solve(puzzle);
}

} // verus!
