//! First part: each column of the two lines is a race; multiply the counts
//! of winning hold times.

use vstd::prelude::*;
use crate::day_06::{find_possible_solutions, spec_wins, Race};
use crate::text::{
    char_index, chars_vec, contains_char, num_val, parse_usize, spec_fields, spec_lines,
    split_fields, split_lines, split_once_char, usize_digits, SolveError,
};

verus! {

/// The whitespace-separated fields after the line's colon.
pub open spec fn line_fields(line: Seq<char>) -> Seq<Seq<char>> {
    spec_fields(line.skip(char_index(line, ':') + 1))
}

/// Whether a line is a label, a colon, and numbers after it.
pub open spec fn line_nums_ok(line: Seq<char>) -> bool {
    &&& contains_char(line, ':')
    &&& forall|i: int|
        0 <= i < line_fields(line).len() ==> usize_digits(#[trigger] line_fields(line)[i])
}

/// Whether the input holds a readable duration line and record line.
pub open spec fn input_ok(s: Seq<char>) -> bool {
    &&& spec_lines(s).len() >= 2
    &&& line_nums_ok(spec_lines(s)[0])
    &&& line_nums_ok(spec_lines(s)[1])
}

/// How many races the two lines describe: the shorter column count rules.
pub open spec fn n_races(s: Seq<char>) -> int {
    let a = line_fields(spec_lines(s)[0]).len() as int;
    let b = line_fields(spec_lines(s)[1]).len() as int;
    if a <= b {
        a
    } else {
        b
    }
}

/// The duration and record of the `i`-th race.
pub open spec fn race_at(s: Seq<char>, i: int) -> (int, int) {
    (num_val(line_fields(spec_lines(s)[0])[i]), num_val(line_fields(spec_lines(s)[1])[i]))
}

/// The product of the win counts of the first `k` races.
pub open spec fn wins_prod(s: Seq<char>, k: int) -> nat
    decreases k,
{
    if k <= 0 {
        1
    } else {
        wins_prod(s, k - 1) * spec_wins(race_at(s, k - 1).0, race_at(s, k - 1).1)
    }
}

/// Whether every partial product of win counts fits in `usize`.
pub open spec fn wins_prod_fits(s: Seq<char>, k: int) -> bool
    decreases k,
{
    if k <= 0 {
        true
    } else {
        wins_prod_fits(s, k - 1) && wins_prod(s, k - 1) * spec_wins(
            race_at(s, k - 1).0,
            race_at(s, k - 1).1,
        ) <= usize::MAX
    }
}

proof fn lemma_fits_mono(s: Seq<char>, k: int, n: int)
    requires
        k <= n,
        wins_prod_fits(s, n),
    ensures
        wins_prod_fits(s, k),
    decreases n,
{
    if k < n && n > 0 {
        lemma_fits_mono(s, k, n - 1);
    }
}

/// Parses the numbers after the colon; `None` exactly when the line is not
/// a label, a colon, and numbers.
fn parse_num_line(line: &Vec<char>) -> (r: Option<Vec<usize>>)
    ensures
        r is Some <==> line_nums_ok(line@),
        r matches Some(v) ==> {
            &&& v@.len() == line_fields(line@).len()
            &&& forall|i: int|
                0 <= i < v@.len() ==> #[trigger] v@[i] == num_val(line_fields(line@)[i])
        },
{
    let after = match split_once_char(line, ':') {
        Some((_, after)) => after,
        None => {
            return None;
        }
    };
    let fields = split_fields(&after);
    let mut out: Vec<usize> = Vec::new();
    let mut i: usize = 0;
    while i < fields.len()
        invariant
            0 <= i <= fields@.len(),
            fields@.len() == line_fields(line@).len(),
            forall|k: int| 0 <= k < fields@.len() ==> fields@[k]@ == line_fields(line@)[k],
            out@.len() == i,
            forall|k: int| 0 <= k < i ==> #[trigger] out@[k] == num_val(line_fields(line@)[k]),
            forall|k: int| 0 <= k < i ==> usize_digits(#[trigger] line_fields(line@)[k]),
        decreases fields@.len() - i,
    {
        match parse_usize(&fields[i]) {
            Some(n) => {
                out.push(n);
            }
            None => {
                assert(!usize_digits(line_fields(line@)[i as int]));
                return None;
            }
        }
        i = i + 1;
    }
    Some(out)
}

/// Reads the duration line and the record line column by column and
/// multiplies each race's count of winning hold times. Fails with
/// `Malformed` exactly when a line is missing or misshapen, and with
/// `Overflow` exactly when a partial product leaves `usize`.
pub fn solve(input: &str) -> (r: Result<usize, SolveError>)
    ensures
        r is Ok <==> (input_ok(input@) && wins_prod_fits(input@, n_races(input@))),
        r matches Ok(n) ==> n == wins_prod(input@, n_races(input@)),
        !input_ok(input@) ==> r == Err::<usize, SolveError>(SolveError::Malformed),
        input_ok(input@) && !wins_prod_fits(input@, n_races(input@)) ==> r == Err::<
            usize,
            SolveError,
        >(SolveError::Overflow),
{
    let cs = chars_vec(input);
    let lines = split_lines(&cs);
    if lines.len() < 2 {
        return Err(SolveError::Malformed);
    }
    let durations = match parse_num_line(&lines[0]) {
        Some(v) => v,
        None => {
            return Err(SolveError::Malformed);
        }
    };
    let records = match parse_num_line(&lines[1]) {
        Some(v) => v,
        None => {
            return Err(SolveError::Malformed);
        }
    };
    let count = if durations.len() <= records.len() {
        durations.len()
    } else {
        records.len()
    };
    assert(count == n_races(input@));
    let mut acc: usize = 1;
    let mut k: usize = 0;
    while k < count
        invariant
            0 <= k <= count,
            count == n_races(input@),
            input_ok(input@),
            durations@.len() >= count,
            records@.len() >= count,
            forall|i: int|
                0 <= i < count ==> #[trigger] durations@[i] == race_at(input@, i).0
                    && #[trigger] records@[i] == race_at(input@, i).1,
            acc == wins_prod(input@, k as int),
            wins_prod_fits(input@, k as int),
        decreases count - k,
    {
        let race = Race { duration: durations[k], record: records[k] };
        let wins = find_possible_solutions(race);
        match acc.checked_mul(wins) {
            Some(v) => {
                acc = v;
            }
            None => {
                assert(!wins_prod_fits(input@, k as int + 1));
                proof {
                    if wins_prod_fits(input@, n_races(input@)) {
                        lemma_fits_mono(input@, k as int + 1, n_races(input@));
                    }
                }
                return Err(SolveError::Overflow);
            }
        }
        k = k + 1;
    }
    Ok(acc)
}

} // verus!
