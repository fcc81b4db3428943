//! Second part: jacks are the weakest cards and wild for the hand type.

use vstd::prelude::*;
use crate::day_07::{hand_line_ok, line_bid, line_key, solve_hands, sort_upto, winnings};
use crate::text::{spec_lines, SolveError};

verus! {

/// Ranks every hand with jokers wild and sums rank times bid.
pub fn solve(input: &str) -> (r: Result<usize, SolveError>)
    ensures
        ({
            let n = spec_lines(input@).len() as int;
            let hands = Seq::new(
                n as nat,
                |i: int| (line_key(spec_lines(input@)[i], true), line_bid(spec_lines(input@)[i])),
            );
            let ok = forall|i: int|
                0 <= i < n ==> hand_line_ok(#[trigger] spec_lines(input@)[i], true);
            &&& (!ok ==> r == Err::<usize, SolveError>(SolveError::Malformed))
            &&& (r is Ok <==> (ok && winnings(sort_upto(hands, n), n) <= usize::MAX))
            &&& (r matches Ok(v) ==> v == winnings(sort_upto(hands, n), n))
        }),
{
    solve_hands(input, true)
}

} // verus!
