//! The command a run was asked to perform, and its dispatch. Reading the
//! actual command line, printing the count and printing help stay with the
//! binary around this library; this module only decides and computes.

use vstd::prelude::*;
use crate::point::Point;
use crate::region::{region, in_coord_box, admissible, calc_points_impl, LIMIT_BOUND};

verus! {

/// What a run was asked to do.
#[derive(Clone, Copy)]
pub enum Command {
    /// Count the admissible region around `from` under `dig_sum_limit`.
    Start { from: Point, dig_sum_limit: u32 },
}

/// A parsed invocation: a command, or nothing, in which case only help is
/// wanted.
#[derive(Clone, Copy)]
pub struct Cli {
    pub command: Option<Command>,
}

impl Cli {
    /// Runs the requested command: the region count for `Start`, `None`
    /// where no command was given and help should be shown instead.
    pub fn execute(&self) -> (r: Option<usize>)
        requires
            match self.command {
                Some(Command::Start { from, dig_sum_limit }) => in_coord_box(from)
                    && dig_sum_limit <= LIMIT_BOUND,
                None => true,
            },
        ensures
            match self.command {
                Some(Command::Start { from, dig_sum_limit }) => r matches Some(c) && c == region(
                    from,
                    dig_sum_limit,
                ).len() && (c == 0 <==> !admissible(from, dig_sum_limit)),
                None => r is None,
            },
    {
        match self.command {
            Some(Command::Start { from, dig_sum_limit }) => Some(
                calc_points_impl(from, dig_sum_limit),
            ),
            None => None,
        }
    }
}

} // verus!
