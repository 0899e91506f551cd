//! A cell of the integer grid, with structural equality, a per-axis digit
//! sum, and unit movement.

use vstd::prelude::*;
use crate::digits::{DigitSum, digit_sum_int, abs_nat, pow10, lemma_digit_sum_digits_bound};

verus! {

/// A grid cell: a pair of signed coordinates, compared by value.
#[derive(Clone, Copy, Debug, PartialEq, Eq, Hash, Structural)]
pub struct Point {
    pub x: i32,
    pub y: i32,
}

impl Point {
    /// Builds the point (x, y).
    pub fn new(x: i32, y: i32) -> (p: Point)
        ensures
            p.x == x,
            p.y == y,
    {
        Point { x, y }
    }

    /// Returns this point moved by (x_diff, y_diff); the point itself is
    /// left as it was.
    pub fn inc(&mut self, x_diff: i32, y_diff: i32) -> (r: Point)
        requires
            i32::MIN <= old(self).x + x_diff <= i32::MAX,
            i32::MIN <= old(self).y + y_diff <= i32::MAX,
        ensures
            *final(self) == *old(self),
            r.x == old(self).x + x_diff,
            r.y == old(self).y + y_diff,
    {
        let mut copy = self.clone();
        copy.x = copy.x + x_diff;
        copy.y = copy.y + y_diff;
        copy
    }
}

/// The digit sum of a coordinate is at most 9 for each of its ten digits.
proof fn lemma_coord_digit_sum_bound(c: i32)
    ensures
        digit_sum_int(c as int) <= 90,
{
    assert(pow10(10) == 10000000000) by {
        reveal_with_fuel(pow10, 11);
    }
    lemma_digit_sum_digits_bound(abs_nat(c as int), 10);
}

impl DigitSum for Point {
    open spec fn digit_sum_spec(&self) -> nat {
        digit_sum_int(self.x as int) + digit_sum_int(self.y as int)
    }

    open spec fn digit_sum_in_range(&self) -> bool {
        self.x != i32::MIN && self.y != i32::MIN
    }

    /// The digit sums of the two coordinates, added axis by axis; the sign
    /// of each coordinate is discarded first.
    fn digit_sum(&self) -> (r: u32) {
        proof {
            lemma_coord_digit_sum_bound(self.x);
            lemma_coord_digit_sum_bound(self.y);
        }
        self.x.digit_sum() + self.y.digit_sum()
    }
}

impl Default for Point {
    /// The origin.
    fn default() -> (p: Point)
        ensures
            p.x == 0,
            p.y == 0,
    {
        Point { x: 0, y: 0 }
    }
}

} // verus!
