//! Second part: extend each history one step to the left and sum the new
//! values.

use vstd::prelude::*;
use crate::day_09::{
    all_zero, copy_vec, delta_level, extrap_prev, ints, is_all_zero, line_ok, line_vals,
    parse_history,
};
use crate::text::{chars_vec, spec_lines, split_lines, SolveError};

verus! {

/// Whether every line is a readable history.
pub open spec fn input_ok(s: Seq<char>) -> bool {
    forall|i: int| 0 <= i < spec_lines(s).len() ==> line_ok(#[trigger] spec_lines(s)[i])
}

/// The sum of the backwards-extended values of the first `k` histories.
pub open spec fn sum_prev(s: Seq<char>, k: int) -> int
    decreases k,
{
    if k <= 0 {
        0
    } else {
        sum_prev(s, k - 1) + extrap_prev(line_vals(spec_lines(s)[k - 1]))
    }
}

/// Extends one history one step to the left; `None` when an intermediate
/// value leaves `isize`. The sign of each level's first value alternates in
/// the backwards extrapolation.
fn extrapolate_prev(nums: &Vec<isize>) -> (r: Option<isize>)
    ensures
        r matches Some(n) ==> n == extrap_prev(ints(nums@)),
{
    let ghost goal = extrap_prev(ints(nums@));
    let mut level = copy_vec(nums);
    let mut acc: isize = 0;
    let mut positive: bool = true;
    loop
        invariant
            positive ==> acc + extrap_prev(ints(level@)) == goal,
            !positive ==> acc - extrap_prev(ints(level@)) == goal,
        ensures
            acc == goal,
        decreases level@.len(),
    {
        if is_all_zero(&level) {
            break;
        }
        assert(level@.len() >= 1) by {
            if level@.len() == 0 {
                assert(all_zero(ints(level@)));
            }
        }
        let first = level[0];
        assert(first == ints(level@)[0]);
        acc = if positive {
            match acc.checked_add(first) {
                Some(v) => v,
                None => {
                    return None;
                }
            }
        } else {
            match acc.checked_sub(first) {
                Some(v) => v,
                None => {
                    return None;
                }
            }
        };
        positive = !positive;
        level = match delta_level(&level) {
            Some(d) => d,
            None => {
                return None;
            }
        };
    }
    Some(acc)
}

/// Reads one history per line, extends each one step to the left, and sums
/// the new values. Fails with `Malformed` exactly when a line is empty or
/// holds a non-number, and with `Overflow` when an intermediate value leaves
/// `isize`.
pub fn solve(input: &str) -> (r: Result<isize, SolveError>)
    ensures
        r == Err::<isize, SolveError>(SolveError::Malformed) <==> !input_ok(input@),
        r matches Ok(n) ==> n == sum_prev(input@, spec_lines(input@).len() as int),
        r is Ok || r == Err::<isize, SolveError>(SolveError::Malformed) || r == Err::<
            isize,
            SolveError,
        >(SolveError::Overflow),
{
    let cs = chars_vec(input);
    let lines = split_lines(&cs);
    let mut histories: Vec<Vec<isize>> = Vec::new();
    let mut i: usize = 0;
    while i < lines.len()
        invariant
            0 <= i <= lines@.len(),
            lines@.len() == spec_lines(input@).len(),
            forall|k: int| 0 <= k < lines@.len() ==> lines@[k]@ == spec_lines(input@)[k],
            histories@.len() == i,
            forall|k: int|
                0 <= k < i ==> ints(#[trigger] histories@[k]@) == line_vals(spec_lines(input@)[k]),
            forall|k: int| 0 <= k < i ==> line_ok(#[trigger] spec_lines(input@)[k]),
        decreases lines@.len() - i,
    {
        match parse_history(&lines[i]) {
            Some(v) => {
                histories.push(v);
            }
            None => {
                assert(!line_ok(spec_lines(input@)[i as int]));
                return Err(SolveError::Malformed);
            }
        }
        i = i + 1;
    }
    assert(input_ok(input@));
    let mut total: isize = 0;
    let mut k: usize = 0;
    while k < histories.len()
        invariant
            input_ok(input@),
            0 <= k <= histories@.len(),
            histories@.len() == spec_lines(input@).len(),
            forall|m: int|
                0 <= m < histories@.len() ==> ints(#[trigger] histories@[m]@) == line_vals(
                    spec_lines(input@)[m],
                ),
            total == sum_prev(input@, k as int),
        decreases histories@.len() - k,
    {
        let hist: &Vec<isize> = &histories[k];
        let value = match extrapolate_prev(hist) {
            Some(v) => v,
            None => {
                return Err(SolveError::Overflow);
            }
        };
        total = match total.checked_add(value) {
            Some(v) => v,
            None => {
                return Err(SolveError::Overflow);
            }
        };
        k = k + 1;
    }
    Ok(total)
}

} // verus!
