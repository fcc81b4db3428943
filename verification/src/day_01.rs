//! Calibration values: each line yields a two-digit number from its first
//! and last digit; the answers sum them over all lines.

use vstd::prelude::*;
use crate::text::{chars_vec, digit_val, is_digit, spec_lines, split_lines};

verus! {

/// Whether the line holds an ASCII digit.
pub open spec fn has_digit(line: Seq<char>) -> bool {
    exists|i: int| 0 <= i < line.len() && is_digit(line[i])
}

/// The value of the first digit of the line (zero without one).
pub open spec fn first_digit_val(line: Seq<char>) -> int
    decreases line.len(),
{
    if line.len() == 0 {
        0
    } else if is_digit(line[0]) {
        digit_val(line[0])
    } else {
        first_digit_val(line.drop_first())
    }
}

/// The value of the last digit of the line (zero without one).
pub open spec fn last_digit_val(line: Seq<char>) -> int
    decreases line.len(),
{
    if line.len() == 0 {
        0
    } else if is_digit(line.last()) {
        digit_val(line.last())
    } else {
        last_digit_val(line.drop_last())
    }
}

/// A line's calibration value: first digit, then last digit.
pub open spec fn line_calibration(line: Seq<char>) -> int {
    10 * first_digit_val(line) + last_digit_val(line)
}

/// The calibration sum of the first `k` lines.
pub open spec fn calibration_sum(s: Seq<char>, k: int) -> int
    decreases k,
{
    if k <= 0 {
        0
    } else {
        calibration_sum(s, k - 1) + line_calibration(spec_lines(s)[k - 1])
    }
}

/// Whether every line holds a digit.
pub open spec fn all_lines_have_digits(s: Seq<char>) -> bool {
    forall|i: int| 0 <= i < spec_lines(s).len() ==> has_digit(#[trigger] spec_lines(s)[i])
}

proof fn lemma_first_digit_range(line: Seq<char>)
    ensures
        0 <= first_digit_val(line) <= 9,
    decreases line.len(),
{
    if line.len() > 0 && !is_digit(line[0]) {
        lemma_first_digit_range(line.drop_first());
    }
}

proof fn lemma_last_digit_range(line: Seq<char>)
    ensures
        0 <= last_digit_val(line) <= 9,
    decreases line.len(),
{
    if line.len() > 0 && !is_digit(line.last()) {
        lemma_last_digit_range(line.drop_last());
    }
}

/// The first and last digit values of a line that holds a digit.
fn line_digits(line: &Vec<char>) -> (r: Option<(usize, usize)>)
    ensures
        r is Some <==> has_digit(line@),
        r matches Some(p) ==> p.0 == first_digit_val(line@) && p.1 == last_digit_val(line@),
{
    let mut first: Option<usize> = None;
    let mut i: usize = 0;
    assert(line@.skip(0) =~= line@);
    while i < line.len()
        invariant
            0 <= i <= line@.len(),
            match first {
                Some(v) => v == first_digit_val(line@) && 0 <= v <= 9 && has_digit(line@),
                None => first_digit_val(line@) == first_digit_val(line@.skip(i as int))
                    && forall|k: int| 0 <= k < i ==> !is_digit(line@[k]),
            },
        decreases line@.len() - i,
    {
        let c = line[i];
        assert(line@.skip(i as int)[0] == c);
        assert(line@.skip(i as int).drop_first() =~= line@.skip(i as int + 1));
        let unset = match first {
            None => true,
            Some(_) => false,
        };
        if unset && c >= '0' && c <= '9' {
            assert(is_digit(line@[i as int]));
            first = Some((c as usize) - 48);
        }
        i = i + 1;
    }
    let first_v = match first {
        Some(v) => v,
        None => {
            assert(!has_digit(line@)) by {
                assert(forall|k: int| 0 <= k < line@.len() ==> !is_digit(line@[k]));
            }
            return None;
        }
    };
    assert(has_digit(line@));
    let mut j: usize = line.len();
    let mut last: Option<usize> = None;
    while j > 0
        invariant
            0 <= j <= line@.len(),
            match last {
                Some(v) => v == last_digit_val(line@) && 0 <= v <= 9,
                None => last_digit_val(line@) == last_digit_val(line@.take(j as int)) && forall|
                    k: int,
                |
                    j <= k < line@.len() ==> !is_digit(line@[k]),
            },
        decreases j,
    {
        let unset = match last {
            None => true,
            Some(_) => false,
        };
        if unset {
            let c = line[j - 1];
            assert(line@.take(j as int).last() == c);
            assert(line@.take(j as int).drop_last() =~= line@.take(j as int - 1));
            if c >= '0' && c <= '9' {
                last = Some((c as usize) - 48);
            }
        }
        j = j - 1;
    }
    match last {
        Some(v) => Some((first_v, v)),
        None => {
            // a first digit was found, so a last digit exists
            assert(forall|k: int| 0 <= k < line@.len() ==> !is_digit(line@[k]));
            assert(false);
            None
        }
    }
}

/// Sums the calibration values of all lines: the first digit of each line
/// followed by its last. Every line must hold a digit, and the sum must fit
/// the result type.
pub fn problem_1(input: String) -> (r: usize)
    requires
        all_lines_have_digits(input@),
        calibration_sum(input@, spec_lines(input@).len() as int) <= usize::MAX,
    ensures
        r == calibration_sum(input@, spec_lines(input@).len() as int),
{
    let cs = chars_vec(input.as_str());
    let lines = split_lines(&cs);
    let ghost n = spec_lines(input@).len() as int;
    proof {
        lemma_calibration_sum_mono(input@, n);
    }
    let mut total: usize = 0;
    let mut k: usize = 0;
    while k < lines.len()
        invariant
            all_lines_have_digits(input@),
            calibration_sum(input@, n) <= usize::MAX,
            n == spec_lines(input@).len(),
            forall|m: int| 0 <= m <= n ==> calibration_sum(input@, m) <= calibration_sum(input@, n),
            forall|m: int| 0 <= m <= n ==> calibration_sum(input@, m) >= 0,
            lines@.len() == n,
            forall|m: int| 0 <= m < n ==> lines@[m]@ == spec_lines(input@)[m],
            0 <= k <= n,
            total == calibration_sum(input@, k as int),
        decreases n - k,
    {
        assert(has_digit(spec_lines(input@)[k as int]));
        let (first, last) = match line_digits(&lines[k]) {
            Some(p) => p,
            None => {
                // unreachable: every line holds a digit
                assert(false);
                (0, 0)
            }
        };
        proof {
            lemma_first_digit_range(spec_lines(input@)[k as int]);
            lemma_last_digit_range(spec_lines(input@)[k as int]);
        }
        let value = 10 * first + last;
        assert(value == line_calibration(spec_lines(input@)[k as int]));
        assert(calibration_sum(input@, k as int + 1) == total + value);
        total = total + value;
        k = k + 1;
    }
    total
}

/// The digit that a spelled-out name or a digit character denotes at
/// position `i`, if any. No name is a prefix of another, so at most one
/// matches.
pub open spec fn token_val(line: Seq<char>, i: int) -> Option<int> {
    if i + 3 <= line.len() && line[i] == 'o' && line[i + 1] == 'n' && line[i + 2] == 'e' {
        Some(1int)
    } else if i + 3 <= line.len() && line[i] == 't' && line[i + 1] == 'w' && line[i + 2] == 'o' {
        Some(2int)
    } else if i + 5 <= line.len() && line[i] == 't' && line[i + 1] == 'h' && line[i + 2] == 'r'
        && line[i + 3] == 'e' && line[i + 4] == 'e' {
        Some(3int)
    } else if i + 4 <= line.len() && line[i] == 'f' && line[i + 1] == 'o' && line[i + 2] == 'u'
        && line[i + 3] == 'r' {
        Some(4int)
    } else if i + 4 <= line.len() && line[i] == 'f' && line[i + 1] == 'i' && line[i + 2] == 'v'
        && line[i + 3] == 'e' {
        Some(5int)
    } else if i + 3 <= line.len() && line[i] == 's' && line[i + 1] == 'i' && line[i + 2] == 'x' {
        Some(6int)
    } else if i + 5 <= line.len() && line[i] == 's' && line[i + 1] == 'e' && line[i + 2] == 'v'
        && line[i + 3] == 'e' && line[i + 4] == 'n' {
        Some(7int)
    } else if i + 5 <= line.len() && line[i] == 'e' && line[i + 1] == 'i' && line[i + 2] == 'g'
        && line[i + 3] == 'h' && line[i + 4] == 't' {
        Some(8int)
    } else if i + 4 <= line.len() && line[i] == 'n' && line[i + 1] == 'i' && line[i + 2] == 'n'
        && line[i + 3] == 'e' {
        Some(9int)
    } else if 0 <= i < line.len() && is_digit(line[i]) {
        Some(digit_val(line[i]))
    } else {
        None
    }
}

/// The first token value at or after position `i`.
pub open spec fn first_tok(line: Seq<char>, i: int) -> Option<int>
    decreases line.len() - i,
{
    if i < 0 || i >= line.len() {
        None
    } else {
        match token_val(line, i) {
            Some(v) => Some(v),
            None => first_tok(line, i + 1),
        }
    }
}

/// The last token value strictly before position `j`.
pub open spec fn last_tok(line: Seq<char>, j: int) -> Option<int>
    decreases j,
{
    if j <= 0 {
        None
    } else {
        match token_val(line, j - 1) {
            Some(v) => Some(v),
            None => last_tok(line, j - 1),
        }
    }
}

/// A line's calibration value with spelled digits admitted.
pub open spec fn line_calibration_2(line: Seq<char>) -> int {
    10 * (first_tok(line, 0)->0) + (last_tok(line, line.len() as int)->0)
}

/// The spelled-digit calibration sum of the first `k` lines.
pub open spec fn calibration_sum_2(s: Seq<char>, k: int) -> int
    decreases k,
{
    if k <= 0 {
        0
    } else {
        calibration_sum_2(s, k - 1) + line_calibration_2(spec_lines(s)[k - 1])
    }
}

/// Whether every line holds a digit or a spelled digit.
pub open spec fn all_lines_have_tokens(s: Seq<char>) -> bool {
    forall|i: int|
        0 <= i < spec_lines(s).len() ==> first_tok(#[trigger] spec_lines(s)[i], 0) is Some
}

proof fn lemma_token_range(line: Seq<char>, i: int)
    ensures
        token_val(line, i) matches Some(v) ==> 0 <= v <= 9,
{
}

proof fn lemma_first_tok_range(line: Seq<char>, i: int)
    ensures
        first_tok(line, i) matches Some(v) ==> 0 <= v <= 9,
    decreases line.len() - i,
{
    if 0 <= i < line.len() {
        lemma_token_range(line, i);
        lemma_first_tok_range(line, i + 1);
    }
}

proof fn lemma_last_tok_range(line: Seq<char>, j: int)
    ensures
        last_tok(line, j) matches Some(v) ==> 0 <= v <= 9,
    decreases j,
{
    if j > 0 {
        lemma_token_range(line, j - 1);
        lemma_last_tok_range(line, j - 1);
    }
}

/// Reads the token at position `i`, spelled or a digit character.
fn token_at(line: &Vec<char>, i: usize) -> (r: Option<usize>)
    requires
        i < line@.len(),
    ensures
        r is Some <==> token_val(line@, i as int) is Some,
        r matches Some(v) ==> Some(v as int) == token_val(line@, i as int) && v <= 9,
{
    let rem = line.len() - i;
    if rem >= 3 && line[i] == 'o' && line[i + 1] == 'n' && line[i + 2] == 'e' {
        Some(1)
    } else if rem >= 3 && line[i] == 't' && line[i + 1] == 'w' && line[i + 2] == 'o' {
        Some(2)
    } else if rem >= 5 && line[i] == 't' && line[i + 1] == 'h' && line[i + 2] == 'r' && line[i + 3]
        == 'e' && line[i + 4] == 'e' {
        Some(3)
    } else if rem >= 4 && line[i] == 'f' && line[i + 1] == 'o' && line[i + 2] == 'u' && line[i + 3]
        == 'r' {
        Some(4)
    } else if rem >= 4 && line[i] == 'f' && line[i + 1] == 'i' && line[i + 2] == 'v' && line[i + 3]
        == 'e' {
        Some(5)
    } else if rem >= 3 && line[i] == 's' && line[i + 1] == 'i' && line[i + 2] == 'x' {
        Some(6)
    } else if rem >= 5 && line[i] == 's' && line[i + 1] == 'e' && line[i + 2] == 'v' && line[i + 3]
        == 'e' && line[i + 4] == 'n' {
        Some(7)
    } else if rem >= 5 && line[i] == 'e' && line[i + 1] == 'i' && line[i + 2] == 'g' && line[i + 3]
        == 'h' && line[i + 4] == 't' {
        Some(8)
    } else if rem >= 4 && line[i] == 'n' && line[i + 1] == 'i' && line[i + 2] == 'n' && line[i + 3]
        == 'e' {
        Some(9)
    } else if line[i] >= '0' && line[i] <= '9' {
        Some((line[i] as usize) - 48)
    } else {
        None
    }
}

/// The first and last token values of a line that holds one.
fn line_tokens(line: &Vec<char>) -> (r: Option<(usize, usize)>)
    ensures
        r is Some <==> first_tok(line@, 0) is Some,
        r matches Some(p) ==> {
            &&& Some(p.0 as int) == first_tok(line@, 0)
            &&& Some(p.1 as int) == last_tok(line@, line@.len() as int)
            &&& p.0 <= 9
            &&& p.1 <= 9
        },
{
    let mut first: Option<usize> = None;
    let mut last: Option<usize> = None;
    let mut i: usize = 0;
    while i < line.len()
        invariant
            0 <= i <= line@.len(),
            match first {
                Some(v) => Some(v as int) == first_tok(line@, 0) && v <= 9,
                None => first_tok(line@, 0) == first_tok(line@, i as int),
            },
            match last {
                Some(v) => Some(v as int) == last_tok(line@, i as int) && v <= 9,
                None => last_tok(line@, i as int) is None,
            },
            first is Some <==> last is Some,
        decreases line@.len() - i,
    {
        match token_at(line, i) {
            Some(v) => {
                let unset = match first {
                    None => true,
                    Some(_) => false,
                };
                if unset {
                    first = Some(v);
                }
                last = Some(v);
            }
            None => {}
        }
        i = i + 1;
    }
    match (first, last) {
        (Some(a), Some(b)) => Some((a, b)),
        _ => {
            assert(first_tok(line@, i as int) is None);
            None
        }
    }
}

/// Sums the calibration values of all lines, with spelled-out digits
/// (`one` through `nine`) admitted beside digit characters; overlapping
/// names each count. Every line must hold a token, and the sum must fit the
/// result type.
pub fn problem_2(input: String) -> (r: usize)
    requires
        all_lines_have_tokens(input@),
        calibration_sum_2(input@, spec_lines(input@).len() as int) <= usize::MAX,
    ensures
        r == calibration_sum_2(input@, spec_lines(input@).len() as int),
{
    let cs = chars_vec(input.as_str());
    let lines = split_lines(&cs);
    let ghost n = spec_lines(input@).len() as int;
    proof {
        lemma_calibration_sum_2_mono(input@, n);
    }
    let mut total: usize = 0;
    let mut k: usize = 0;
    while k < lines.len()
        invariant
            all_lines_have_tokens(input@),
            calibration_sum_2(input@, n) <= usize::MAX,
            n == spec_lines(input@).len(),
            forall|m: int|
                0 <= m <= n ==> calibration_sum_2(input@, m) <= calibration_sum_2(input@, n),
            forall|m: int| 0 <= m <= n ==> calibration_sum_2(input@, m) >= 0,
            lines@.len() == n,
            forall|m: int| 0 <= m < n ==> lines@[m]@ == spec_lines(input@)[m],
            0 <= k <= n,
            total == calibration_sum_2(input@, k as int),
        decreases n - k,
    {
        assert(first_tok(spec_lines(input@)[k as int], 0) is Some);
        let (first, last) = match line_tokens(&lines[k]) {
            Some(p) => p,
            None => {
                // unreachable: every line holds a token
                assert(false);
                (0, 0)
            }
        };
        let value = 10 * first + last;
        assert(value == line_calibration_2(spec_lines(input@)[k as int]));
        assert(calibration_sum_2(input@, k as int + 1) == total + value);
        total = total + value;
        k = k + 1;
    }
    total
}

proof fn lemma_first_tok_witness(line: Seq<char>, i: int)
    requires
        first_tok(line, i) is Some,
    ensures
        exists|k: int| i <= k < line.len() && token_val(line, #[trigger] (k + 0)) is Some,
    decreases line.len() - i,
{
    if 0 <= i < line.len() {
        if token_val(line, i) is Some {
            assert(token_val(line, i + 0) is Some);
        } else {
            lemma_first_tok_witness(line, i + 1);
        }
    }
}

proof fn lemma_last_tok_some(line: Seq<char>, i: int, j: int)
    requires
        0 <= i,
        token_val(line, i) is Some,
        i < j,
    ensures
        last_tok(line, j) is Some,
    decreases j,
{
    if j - 1 > i {
        if token_val(line, j - 1) is None {
            lemma_last_tok_some(line, i, j - 1);
        }
    }
}

proof fn lemma_calibration_sum_2_mono(s: Seq<char>, n: int)
    requires
        all_lines_have_tokens(s),
        n <= spec_lines(s).len(),
    ensures
        forall|m: int| 0 <= m <= n ==> calibration_sum_2(s, m) <= calibration_sum_2(s, n),
        forall|m: int| 0 <= m <= n ==> calibration_sum_2(s, m) >= 0,
    decreases n,
{
    if n > 0 {
        lemma_calibration_sum_2_mono(s, n - 1);
        let line = spec_lines(s)[n - 1];
        lemma_first_tok_range(line, 0);
        lemma_last_tok_range(line, line.len() as int);
        assert(first_tok(line, 0) is Some);
        lemma_first_tok_witness(line, 0);
        let k = choose|k: int| 0 <= k < line.len() && token_val(line, #[trigger] (k + 0)) is Some;
        assert(token_val(line, k) is Some);
        lemma_last_tok_some(line, k, line.len() as int);
        assert(line_calibration_2(line) >= 0);
        assert(calibration_sum_2(s, n) == calibration_sum_2(s, n - 1) + line_calibration_2(line));
    }
}

proof fn lemma_calibration_sum_mono(s: Seq<char>, n: int)
    ensures
        forall|m: int| 0 <= m <= n ==> calibration_sum(s, m) <= calibration_sum(s, n),
        forall|m: int| 0 <= m <= n ==> calibration_sum(s, m) >= 0,
    decreases n,
{
    if n > 0 {
        lemma_calibration_sum_mono(s, n - 1);
        lemma_first_digit_range(spec_lines(s)[n - 1]);
        lemma_last_digit_range(spec_lines(s)[n - 1]);
        assert(calibration_sum(s, n) == calibration_sum(s, n - 1) + line_calibration(
            spec_lines(s)[n - 1],
        ));
        assert(calibration_sum(s, n) >= calibration_sum(s, n - 1));
    }
}

} // verus!
