//! Toy-boat races: for each race, count the button-hold times that beat the
//! record distance.

pub mod problem_1;
pub mod problem_2;

use vstd::prelude::*;
use crate::text::{char_index, contains_char, keep_non_ws, num_val, usize_digits};

verus! {

/// One race: its duration and the record distance to beat.
pub struct Race {
    pub duration: usize,
    pub record: usize,
}

/// Holding the button for `h` of `d` time units travels `h * (d - h)`:
/// whether that beats the record `r`.
pub open spec fn beats(d: int, r: int, h: int) -> bool {
    h * (d - h) > r
}

/// How many hold times in `[0, h)` beat the record.
pub open spec fn wins_below(d: int, r: int, h: int) -> nat
    decreases h,
{
    if h <= 0 {
        0
    } else {
        wins_below(d, r, h - 1) + if beats(d, r, h - 1) {
            1nat
        } else {
            0nat
        }
    }
}

/// The number of hold times that win a race.
pub open spec fn spec_wins(d: int, r: int) -> nat {
    wins_below(d, r, d + 1)
}

/// Counts the hold times that beat the record.
pub fn find_possible_solutions(race: Race) -> (r: usize)
    ensures
        r == spec_wins(race.duration as int, race.record as int),
{
    let d = race.duration;
    let rec = race.record;
    let mut count: usize = 0;
    let mut h: usize = 0;
    while h < d
        invariant
            0 <= h <= d,
            count <= h,
            count == wins_below(d as int, rec as int, h as int),
        decreases d - h,
    {
        let a: u128 = h as u128;
        let b: u128 = (d - h) as u128;
        proof {
            assert(a * b < u128::MAX) by (nonlinear_arith)
                requires
                    a <= u64::MAX,
                    b <= u64::MAX,
            ;
        }
        let travelled: u128 = a * b;
        if travelled > (rec as u128) {
            count = count + 1;
        }
        h = h + 1;
    }
    // holding for the whole duration travels nothing
    assert(!beats(d as int, rec as int, d as int));
    assert(spec_wins(d as int, rec as int) == wins_below(d as int, rec as int, d as int));
    count
}

/// Whether a race line is a label, a colon, and number text after it.
pub open spec fn race_line_ok(line: Seq<char>) -> bool {
    contains_char(line, ':') && usize_digits(keep_non_ws(line.skip(char_index(line, ':') + 1)))
}

/// The number a race line holds once its whitespace is dropped.
pub open spec fn race_line_val(line: Seq<char>) -> int {
    num_val(keep_non_ws(line.skip(char_index(line, ':') + 1)))
}

/// Reads a race line as one number, ignoring the whitespace between its
/// digit groups.
pub fn parse_race_line(line: &Vec<char>) -> (r: Option<usize>)
    ensures
        r is Some <==> race_line_ok(line@),
        r matches Some(n) ==> n == race_line_val(line@),
{
    match crate::text::split_once_char(line, ':') {
        None => None,
        Some((_, after)) => {
            let digits = crate::text::strip_ws(&after);
            crate::text::parse_usize(&digits)
        }
    }
}

} // verus!
