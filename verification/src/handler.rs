//! What is kept for one puzzle while it is sent for verification, and the
//! count of the answers.

use crate::grid::Sudoku;
use crate::text::{json_text, write_puzzle_to_json, ONE};
use vstd::prelude::*;
use vstd::utf8::valid_utf8;

verus! {

/// The state of one request: the grid that is sent, and whether the server
/// has accepted it.
pub struct SudokuHandler {
    /// Whether the last answer that could be read said that the grid is
    /// right.
    pub result: bool,
    /// The grid that is sent.
    pub puzzle: Box<Sudoku>,
}

/// What `result` becomes when the answer `data` arrives: an answer that is
/// text decides, and it accepts the grid if it is the one character `1`; an
/// answer that is no text leaves `result` as it was.
pub open spec fn verdict(previous: bool, data: Seq<u8>) -> bool {
    if valid_utf8(data) {
        data == seq![ONE]
    } else {
        previous
    }
}

/// The number of `true` in `s`.
pub open spec fn count_true(s: Seq<bool>) -> nat
    decreases s.len(),
{
    if s.len() == 0 {
        0
    } else if s.last() {
        count_true(s.drop_last()) + 1
    } else {
        count_true(s.drop_last())
    }
}

/// `std::str::from_utf8`, of which only success or failure is kept: it
/// succeeds on exactly the byte strings that are valid UTF-8.
#[verifier::external_body]
fn is_utf8(data: &[u8]) -> (ok: bool)
    ensures
        ok == valid_utf8(data@),
{
    std::str::from_utf8(data).is_ok()
}

impl SudokuHandler {
    /// A handler for `puzzle` that has no answer yet.
    pub fn new(puzzle: Box<Sudoku>) -> (handler: Self)
        ensures
            !handler.result,
            handler.puzzle == puzzle,
    {
        Self { puzzle, result: false }
    }

    /// Takes in the answer `data` of the server and returns how many bytes
    /// of it were used, which is all of them.
    pub fn write(&mut self, data: &[u8]) -> (used: usize)
        ensures
            used == data@.len(),
            final(self).result == verdict(old(self).result, data@),
            final(self).puzzle == old(self).puzzle,
    {
        if is_utf8(data) {
            self.result = data.len() == 1 && data[0] == ONE;
            assert(self.result == (data@ =~= seq![ONE]));
        }
        data.len()
    }

    /// The body of the request: the grid as JSON.
    pub fn read(&self) -> (body: Vec<u8>)
        ensures
            body@ == json_text(*self.puzzle),
    {
        write_puzzle_to_json(&self.puzzle)
    }
}

/// Counts the answers: how many grids were accepted, and how many there
/// were.
pub fn tally_results(results: &[bool]) -> (counts: (usize, usize))
    ensures
        counts.0 == count_true(results@),
        counts.1 == results@.len(),
{
    let mut verified: usize = 0;
    let mut i: usize = 0;
    while i < results.len()
        invariant
            i <= results@.len(),
            verified <= i,
            verified == count_true(results@.subrange(0, i as int)),
        decreases results@.len() - i,
    {
        assert(results@.subrange(0, i + 1).drop_last() =~= results@.subrange(0, i as int));
        if results[i] {
            verified += 1;
        }
        i += 1;
    }
    assert(results@.subrange(0, i as int) =~= results@);
    (verified, i)
}

} // verus!
