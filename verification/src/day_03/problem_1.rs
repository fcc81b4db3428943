//! First part: sum every number that a symbol touches.

use vstd::prelude::*;
use crate::day_03::{
    lemma_digit_run, lemma_run_val_nonneg, run_start, run_touches, run_val, run_value,
    skip_digits, symbol_in_box,
};
use crate::text::{chars_vec, digits_end, is_digit, spec_lines, split_lines, SolveError};

verus! {

/// The part-number sum of row `r` left of column `c`: each digit run whose
/// box holds a symbol counts once, at its starting column.
pub open spec fn row_parts_sum(s: Seq<char>, r: int, c: int) -> int
    decreases c,
{
    if c <= 0 {
        0
    } else {
        row_parts_sum(s, r, c - 1) + if run_start(spec_lines(s)[r], c - 1) && run_touches(
            spec_lines(s),
            r,
            c - 1,
            digits_end(spec_lines(s)[r], c - 1),
        ) {
            run_val(spec_lines(s)[r], c - 1)
        } else {
            0
        }
    }
}

/// The part-number sum of the first `r` rows.
pub open spec fn parts_sum(s: Seq<char>, r: int) -> int
    decreases r,
{
    if r <= 0 {
        0
    } else {
        parts_sum(s, r - 1) + row_parts_sum(s, r - 1, spec_lines(s)[r - 1].len() as int)
    }
}

/// The whole grid's part-number sum.
pub open spec fn spec_total(s: Seq<char>) -> int {
    parts_sum(s, spec_lines(s).len() as int)
}

proof fn lemma_row_sum_bounds(s: Seq<char>, r: int, c: int)
    requires
        c <= spec_lines(s)[r].len(),
    ensures
        forall|m: int| 0 <= m <= c ==> row_parts_sum(s, r, m) <= row_parts_sum(s, r, c),
        row_parts_sum(s, r, c) >= 0,
    decreases c,
{
    if c > 0 {
        lemma_row_sum_bounds(s, r, c - 1);
        lemma_run_val_nonneg(spec_lines(s)[r], c - 1);
    }
}

proof fn lemma_parts_sum_bounds(s: Seq<char>, r: int)
    ensures
        forall|m: int| 0 <= m <= r ==> parts_sum(s, m) <= parts_sum(s, r),
        parts_sum(s, r) >= 0,
    decreases r,
{
    if r > 0 {
        lemma_parts_sum_bounds(s, r - 1);
        lemma_row_sum_bounds(s, r - 1, spec_lines(s)[r - 1].len() as int);
    }
}

proof fn lemma_row_sum_run(s: Seq<char>, r: int, a: int, c: int)
    requires
        0 <= a < c,
        forall|m: int| a < m < c ==> !run_start(spec_lines(s)[r], m),
    ensures
        row_parts_sum(s, r, c) == row_parts_sum(s, r, a + 1),
    decreases c,
{
    if c > a + 1 {
        lemma_row_sum_run(s, r, a, c - 1);
    }
}

/// Scans the whole schematic and sums the numbers a symbol touches. Fails
/// with `Overflow` exactly when the sum leaves `usize`; nothing else fails.
pub fn solve(input: &str) -> (r: Result<usize, SolveError>)
    ensures
        r is Ok <==> spec_total(input@) <= usize::MAX,
        r matches Ok(n) ==> n == spec_total(input@),
        r is Err ==> r == Err::<usize, SolveError>(SolveError::Overflow),
{
    let cs = chars_vec(input);
    let lines = split_lines(&cs);
    let ghost ls = spec_lines(input@);
    let ghost n = ls.len() as int;
    proof {
        lemma_parts_sum_bounds(input@, n);
    }
    let mut total: usize = 0;
    let mut r: usize = 0;
    while r < lines.len()
        invariant
            ls == spec_lines(input@),
            n == ls.len(),
            lines@.len() == n,
            forall|k: int| 0 <= k < n ==> lines@[k]@ == ls[k],
            forall|m: int| 0 <= m <= n ==> parts_sum(input@, m) <= parts_sum(input@, n),
            parts_sum(input@, n) >= 0,
            0 <= r <= n,
            total == parts_sum(input@, r as int),
        decreases n - r,
    {
        let row: &Vec<char> = &lines[r];
        proof {
            lemma_row_sum_bounds(input@, r as int, row@.len() as int);
        }
        let mut c: usize = 0;
        while c < row.len()
            invariant
                ls == spec_lines(input@),
                n == ls.len(),
                lines@.len() == n,
                forall|k: int| 0 <= k < n ==> lines@[k]@ == ls[k],
                forall|m: int| 0 <= m <= n ==> parts_sum(input@, m) <= parts_sum(input@, n),
                forall|m: int|
                    0 <= m <= row@.len() ==> #[trigger] row_parts_sum(input@, r as int, m)
                        <= row_parts_sum(input@, r as int, row@.len() as int),
                row_parts_sum(input@, r as int, row@.len() as int) >= 0,
                parts_sum(input@, n) >= 0,
                0 <= r < n,
                row@ == ls[r as int],
                0 <= c <= row@.len(),
                total == parts_sum(input@, r as int) + row_parts_sum(input@, r as int, c as int),
                total <= parts_sum(input@, r as int + 1),
                parts_sum(input@, r as int) + row_parts_sum(input@, r as int, row@.len() as int)
                    == parts_sum(input@, r as int + 1),
                parts_sum(input@, r as int) >= 0,
                row_parts_sum(input@, r as int, c as int) >= 0,
            decreases row@.len() - c,
        {
            let ch = row[c];
            let starts = (ch >= '0' && ch <= '9') && (c == 0 || !(row[c - 1] >= '0' && row[c - 1]
                <= '9'));
            if starts {
                assert(run_start(ls[r as int], c as int));
                let e = skip_digits(row, c);
                assert(c < e) by {
                    assert(is_digit(row@[c as int]));
                    assert(digits_end(row@, c as int) == digits_end(row@, c as int + 1));
                    crate::day_03::lemma_digits_end_bounds(row@, c as int + 1);
                }
                let touches = symbol_in_box(&lines, Ghost(ls), r, c, e);
                if touches {
                    let value = match run_value(row, c, e) {
                        Some(v) => v,
                        None => {
                            // the number alone leaves the result type
                            assert(run_val(ls[r as int], c as int) > usize::MAX);
                            proof {
                                lemma_row_sum_bounds(input@, r as int, c as int + 1);
                                assert(row_parts_sum(input@, r as int, c as int + 1) > usize::MAX);
                                assert(parts_sum(input@, n) > usize::MAX);
                            }
                            return Err(SolveError::Overflow);
                        }
                    };
                    total = match total.checked_add(value) {
                        Some(v) => v,
                        None => {
                            proof {
                                assert(row_parts_sum(input@, r as int, c as int + 1) == row_parts_sum(
                                    input@,
                                    r as int,
                                    c as int,
                                ) + value);
                                assert(parts_sum(input@, n) > usize::MAX);
                            }
                            return Err(SolveError::Overflow);
                        }
                    };
                } else {
                    assert(row_parts_sum(input@, r as int, c as int + 1) == row_parts_sum(
                        input@,
                        r as int,
                        c as int,
                    ));
                }
                proof {
                    assert forall|m: int| c < m < e implies !run_start(ls[r as int], m) by {
                        lemma_digit_run(row@, c as int, m - 1);
                        lemma_digit_run(row@, c as int, m);
                    }
                    if (e as int) > c as int + 1 {
                        lemma_row_sum_run(input@, r as int, c as int, e as int);
                    }
                }
                c = e;
            } else {
                assert(!run_start(ls[r as int], c as int));
                c = c + 1;
            }
        }
        assert(total == parts_sum(input@, r as int + 1));
        r = r + 1;
    }
    Ok(total)
}

} // verus!
