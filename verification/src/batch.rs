//! The batch layer: runs a list of puzzles through a chosen node-ownership
//! strategy, one puzzle at a time, collecting per-puzzle results in original
//! input order.  Wall-clock timing and bounded-concurrency dispatch are
//! measurement and thread plumbing, not verifiable logic, and belong to the
//! caller.

use vstd::prelude::*;
use crate::puzzle::{Puzzle, valid_size, wf_board};
use crate::solver::{solver_post, SolverArena, SolverRc};

verus! {

/// Which node-ownership strategy backs a search.
#[derive(Copy, Clone, PartialEq, Eq, Structural, Debug)]
pub enum MemFlag {
    Arena,
    Rc,
}

/// Runs every puzzle of `puzzles`, in order, through the solver selected by
/// `flag`; the result at index `i` is the path and expanded-node count of
/// the puzzle at index `i`, so output ordering is the input ordering no
/// matter how long each search takes.
pub fn run_batch<const N: usize>(puzzles: &Vec<Puzzle<N>>, flag: MemFlag) -> (results: Vec<
    (Vec<Puzzle<N>>, u64),
>)
    requires
        valid_size(N as int),
        forall|i: int|
            0 <= i < puzzles@.len() ==> wf_board((#[trigger] puzzles@[i])@, N as int),
    ensures
        results@.len() == puzzles@.len(),
        forall|i: int|
            0 <= i < results@.len() ==> solver_post(
                puzzles@[i],
                ((#[trigger] results@[i]).0)@,
                results@[i].1,
            ),
{
    let mut results: Vec<(Vec<Puzzle<N>>, u64)> = Vec::new();
    let n = puzzles.len();
    for i in 0..n
        invariant
            valid_size(N as int),
            n == puzzles@.len(),
            forall|j: int|
                0 <= j < puzzles@.len() ==> wf_board((#[trigger] puzzles@[j])@, N as int),
            results@.len() == i,
            forall|j: int|
                0 <= j < i ==> solver_post(
                    puzzles@[j],
                    ((#[trigger] results@[j]).0)@,
                    results@[j].1,
                ),
    {
        let p = puzzles[i].clone();
        let out = match flag {
            MemFlag::Arena => SolverArena::find_path(p),
            MemFlag::Rc => SolverRc::find_path(p),
        };
        results.push(out);
    }
    results
}

} // verus!
