//! Second part: the two lines spell one long race each; count its winning
//! hold times.

use vstd::prelude::*;
use crate::day_06::{parse_race_line, race_line_ok, race_line_val, spec_wins};
use crate::text::{chars_vec, spec_lines, split_lines, SolveError};

verus! {

/// Whether the input holds a readable duration line and record line.
pub open spec fn input_ok(s: Seq<char>) -> bool {
    &&& spec_lines(s).len() >= 2
    &&& race_line_ok(spec_lines(s)[0])
    &&& race_line_ok(spec_lines(s)[1])
}

/// Reads the two lines as one race — whitespace between digit groups is
/// ignored — and counts the hold times that beat its record.
pub fn solve(input: &str) -> (r: Result<usize, SolveError>)
    ensures
        r is Ok <==> input_ok(input@),
        r matches Ok(n) ==> n == spec_wins(
            race_line_val(spec_lines(input@)[0]),
            race_line_val(spec_lines(input@)[1]),
        ),
        !input_ok(input@) ==> r == Err::<usize, SolveError>(SolveError::Malformed),
{
    let cs = chars_vec(input);
    let lines = split_lines(&cs);
    if lines.len() < 2 {
        return Err(SolveError::Malformed);
    }
    let duration = match parse_race_line(&lines[0]) {
        Some(v) => v,
        None => {
            return Err(SolveError::Malformed);
        }
    };
    let record = match parse_race_line(&lines[1]) {
        Some(v) => v,
        None => {
            return Err(SolveError::Malformed);
        }
    };
    let race = crate::day_06::Race { duration, record };
    Ok(crate::day_06::find_possible_solutions(race))
}

} // verus!
