use vstd::prelude::*;

verus! {

/// The three answer strings of one day's puzzle.
pub struct Solution {
    pub part1: String,
    pub part2: String,
    pub part3: String,
}

/// The three raw input texts of one day's puzzle.
pub struct Input {
    pub part1: String,
    pub part2: String,
    pub part3: String,
}

/// A day's solver: turns the raw inputs into the three answers.
/// `None` reports malformed input (the only failure the solvers know).
pub trait Solver {
    fn solve(&self, input: Input) -> Option<Solution>;
}

} // verus!
