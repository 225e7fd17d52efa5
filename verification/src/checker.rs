//! The check that a finished grid is a Sudoku solution.

use crate::counting::lemma_pigeonhole;
use crate::grid::{cell, digit_of, in_grid, is_digit, is_legal, peers, Sudoku};
use vstd::prelude::*;

verus! {

/// The nine cells of row `i`, from left to right.
pub open spec fn row_of(g: Sudoku, i: int) -> Seq<Option<u8>> {
    Seq::new(9, |k: int| cell(g, i, k))
}

/// The nine cells of column `i`, from top to bottom.
pub open spec fn column_of(g: Sudoku, i: int) -> Seq<Option<u8>> {
    Seq::new(9, |k: int| cell(g, k, i))
}

/// The nine cells of block `i`, row by row. The blocks are numbered row by
/// row too: block `i` starts at row `i / 3 * 3` and column `i % 3 * 3`.
pub open spec fn block_of(g: Sudoku, i: int) -> Seq<Option<u8>> {
    Seq::new(9, |k: int| cell(g, i / 3 * 3 + k / 3, i % 3 * 3 + k % 3))
}

/// Whether nine cells hold the digits 1 to 9, each once: none is empty and
/// no two are equal.
pub open spec fn is_permutation(s: Seq<Option<u8>>) -> bool {
    &&& s.len() == 9
    &&& forall|i: int| 0 <= i < 9 ==> is_digit(#[trigger] s[i])
    &&& forall|i: int, j: int| 0 <= i < j < 9 ==> #[trigger] s[i] != #[trigger] s[j]
}

/// Whether row `i`, column `i` and block `i` each hold the digits 1 to 9
/// once.
pub open spec fn groups_hold(g: Sudoku, i: int) -> bool {
    &&& is_permutation(row_of(g, i))
    &&& is_permutation(column_of(g, i))
    &&& is_permutation(block_of(g, i))
}

/// Whether `g` is a Sudoku solution: every row, every column and every
/// block holds the digits 1 to 9, each once.
pub open spec fn is_solved(g: Sudoku) -> bool {
    forall|i: int| 0 <= i < 9 ==> #[trigger] groups_hold(g, i)
}

/// Whether no cell of `g` is empty.
pub open spec fn is_complete(g: Sudoku) -> bool {
    forall|r: int, c: int| in_grid(r, c) ==> #[trigger] cell(g, r, c) is Some
}

/// Whether `g`, finished or not, breaks no rule: every filled cell holds a
/// digit, and no two cells of one row, column or block hold the same.
pub open spec fn is_valid(g: Sudoku) -> bool {
    &&& forall|r: int, c: int|
        in_grid(r, c) && (#[trigger] cell(g, r, c)) is Some ==> is_digit(cell(g, r, c))
    &&& forall|r1: int, c1: int, r2: int, c2: int|
        #![trigger cell(g, r1, c1), cell(g, r2, c2)]
        peers(r1, c1, r2, c2) && cell(g, r1, c1) is Some ==> cell(g, r1, c1) != cell(g, r2, c2)
}

/// In a grid that breaks no rule, what a cell holds is legal where it
/// stands.
pub proof fn lemma_valid_cells_are_legal(g: Sudoku, r: int, c: int)
    requires
        is_valid(g),
        in_grid(r, c),
    ensures
        is_legal(g, r, c, cell(g, r, c)),
{
    assert forall|r2: int, c2: int| peers(r, c, r2, c2) implies #[trigger] cell(g, r2, c2)
        != cell(g, r, c) || cell(g, r, c) is None by {
        if cell(g, r, c) is Some {
            assert(cell(g, r, c) != cell(g, r2, c2));
        }
    }
}

/// Nine cells that hold digits, no two the same, hold every digit: each of
/// 1 to 9 stands in one of them.
pub proof fn lemma_permutation_holds_each_digit(s: Seq<Option<u8>>, d: int)
    requires
        is_permutation(s),
        1 <= d <= 9,
    ensures
        exists|k: int| 0 <= k < 9 && digit_of(#[trigger] s[k]) == d,
{
    if !exists|k: int| 0 <= k < 9 && digit_of(#[trigger] s[k]) == d {
        let t = Seq::new(
            9,
            |k: int|
                if digit_of(s[k]) > d {
                    digit_of(s[k]) - 2
                } else {
                    digit_of(s[k]) - 1
                },
        );
        assert forall|k: int| 0 <= k < t.len() implies 0 <= #[trigger] t[k] < 8 by {
            assert(is_digit(s[k]));
            assert(digit_of(s[k]) != d);
        }
        lemma_pigeonhole(t, 8);
        let (i, j) = choose|i: int, j: int| 0 <= i < j < t.len() && t[i] == t[j];
        assert(is_digit(s[i]) && is_digit(s[j]));
        assert(digit_of(s[i]) != d && digit_of(s[j]) != d);
        assert(s[i] != s[j]);
        assert(digit_of(s[i]) == digit_of(s[j]));
    }
}

/// A finished grid that breaks no rule is a Sudoku solution.
pub proof fn lemma_complete_and_valid_is_solved(g: Sudoku)
    requires
        is_complete(g),
        is_valid(g),
    ensures
        is_solved(g),
{
    assert forall|i: int| 0 <= i < 9 implies #[trigger] groups_hold(g, i) by {
        let row = row_of(g, i);
        let column = column_of(g, i);
        let block = block_of(g, i);
        assert forall|k: int| 0 <= k < 9 implies is_digit(#[trigger] row[k]) by {
            assert(cell(g, i, k) is Some);
        }
        assert forall|k: int| 0 <= k < 9 implies is_digit(#[trigger] column[k]) by {
            assert(cell(g, k, i) is Some);
        }
        assert forall|k: int| 0 <= k < 9 implies is_digit(#[trigger] block[k]) by {
            assert(cell(g, i / 3 * 3 + k / 3, i % 3 * 3 + k % 3) is Some);
        }
        assert forall|a: int, b: int| 0 <= a < b < 9 implies #[trigger] row[a] != #[trigger] row[b] by {
            assert(peers(i, a, i, b));
            assert(cell(g, i, a) is Some);
        }
        assert forall|a: int, b: int| 0 <= a < b < 9 implies #[trigger] column[a]
            != #[trigger] column[b] by {
            assert(peers(a, i, b, i));
            assert(cell(g, a, i) is Some);
        }
        assert forall|a: int, b: int| 0 <= a < b < 9 implies #[trigger] block[a]
            != #[trigger] block[b] by {
            let (r1, c1) = (i / 3 * 3 + a / 3, i % 3 * 3 + a % 3);
            let (r2, c2) = (i / 3 * 3 + b / 3, i % 3 * 3 + b % 3);
            assert(peers(r1, c1, r2, c2));
            assert(cell(g, r1, c1) is Some);
        }
    }
}

/// A Sudoku solution has no empty cell and breaks no rule.
pub proof fn lemma_solved_is_complete_and_valid(g: Sudoku)
    requires
        is_solved(g),
    ensures
        is_complete(g),
        is_valid(g),
{
    assert forall|r: int, c: int| in_grid(r, c) implies is_digit(#[trigger] cell(g, r, c)) by {
        assert(groups_hold(g, r));
        assert(is_digit(row_of(g, r)[c]));
    }
    assert forall|r1: int, c1: int, r2: int, c2: int|
        #![trigger cell(g, r1, c1), cell(g, r2, c2)]
        peers(r1, c1, r2, c2) implies cell(g, r1, c1) != cell(g, r2, c2) by {
        if r1 == r2 {
            assert(groups_hold(g, r1));
            let row = row_of(g, r1);
            assert(row[c1] != row[c2]);
        } else if c1 == c2 {
            assert(groups_hold(g, c1));
            let column = column_of(g, c1);
            assert(column[r1] != column[r2]);
        } else {
            let i = r1 / 3 * 3 + c1 / 3;
            let a = r1 % 3 * 3 + c1 % 3;
            let b = r2 % 3 * 3 + c2 % 3;
            assert(groups_hold(g, i));
            let block = block_of(g, i);
            assert(block[a] == cell(g, r1, c1));
            assert(block[b] == cell(g, r2, c2));
            assert(block[a] != block[b]);
        }
    }
}

/// Says whether nine cells hold the digits 1 to 9, each once.
pub fn check_group(group: &[Option<u8>; 9]) -> (ok: bool)
    ensures
        ok == is_permutation(group@),
{
    let mut seen: [bool; 10] = [false;10];
    let ghost mut at: Seq<int> = Seq::new(10, |v: int| 0int);
    let mut k: usize = 0;
    while k < 9
        invariant
            k <= 9,
            at.len() == 10,
            forall|j: int|
                0 <= j < k ==> is_digit(#[trigger] group@[j]) && seen@[digit_of(group@[j])],
            forall|i: int, j: int| 0 <= i < j < k ==> #[trigger] group@[i] != #[trigger] group@[j],
            forall|v: int|
                0 <= v < 10 && #[trigger] seen@[v] ==> 0 <= at[v] < k && group@[at[v]] is Some
                    && digit_of(group@[at[v]]) == v,
        decreases 9 - k,
    {
        match group[k] {
            None => {
                assert(!is_digit(group@[k as int]));
                return false;
            },
            Some(v) => {
                if v < 1 || v > 9 {
                    assert(!is_digit(group@[k as int]));
                    return false;
                }
                if seen[v as usize] {
                    assert(group@[at[v as int]] == group@[k as int]);
                    return false;
                }
                seen[v as usize] = true;
                proof {
                    at = at.update(v as int, k as int);
                }
            },
        }
        k += 1;
    }
    true
}

/// Says whether `puzzle` is a Sudoku solution: whether every row, column
/// and block holds the digits 1 to 9, each once. A grid with an empty cell
/// is none, and neither is one whose groups only add up to the right sum.
pub fn check_puzzle(puzzle: &Sudoku) -> (ok: bool)
    ensures
        ok == is_solved(*puzzle),
{
    let mut i: usize = 0;
    while i < 9
        invariant
            i <= 9,
            forall|j: int| 0 <= j < i ==> #[trigger] groups_hold(*puzzle, j),
        decreases 9 - i,
    {
        let top: usize = i / 3 * 3;
        let left: usize = i % 3 * 3;
        let mut column: [Option<u8>; 9] = [None;9];
        let mut block: [Option<u8>; 9] = [None;9];
        let mut k: usize = 0;
        while k < 9
            invariant
                k <= 9,
                i < 9,
                top == i / 3 * 3,
                left == i % 3 * 3,
                forall|j: int| 0 <= j < k ==> #[trigger] column@[j] == cell(*puzzle, j, i as int),
                forall|j: int|
                    0 <= j < k ==> #[trigger] block@[j] == cell(
                        *puzzle,
                        top + j / 3,
                        left + j % 3,
                    ),
            decreases 9 - k,
        {
            column[k] = puzzle[k][i];
            block[k] = puzzle[top + k / 3][left + k % 3];
            k += 1;
        }
        assert(puzzle@[i as int]@ =~= row_of(*puzzle, i as int));
        assert(column@ =~= column_of(*puzzle, i as int));
        assert(block@ =~= block_of(*puzzle, i as int));
        if !check_group(&puzzle[i]) || !check_group(&column) || !check_group(&block) {
            assert(!groups_hold(*puzzle, i as int));
            return false;
        }
        i += 1;
    }
    true
}

} // verus!
