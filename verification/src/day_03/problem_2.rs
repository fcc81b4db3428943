//! Second part: a `*` symbol touching exactly two numbers is a gear; sum the
//! products of each gear's two numbers.

use vstd::prelude::*;
use crate::day_03::{
    cell, lemma_digits_end_bounds, lemma_run_val_nonneg, run_start, run_val, skip_digits,
};
use crate::text::{chars_vec, digits_end, is_digit, spec_lines, split_lines, SolveError};

verus! {

/// Whether the run starting at `a` of row `rr` touches the cell `(r, c)`.
pub open spec fn run_adj(s: Seq<char>, rr: int, a: int, r: int, c: int) -> bool {
    &&& run_start(spec_lines(s)[rr], a)
    &&& r - 1 <= rr <= r + 1
    &&& a - 1 <= c <= digits_end(spec_lines(s)[rr], a)
}

/// How many runs of row `rr` starting left of `upto` touch `(r, c)`.
pub open spec fn row_adj_count(s: Seq<char>, rr: int, r: int, c: int, upto: int) -> nat
    decreases upto,
{
    if upto <= 0 {
        0
    } else {
        row_adj_count(s, rr, r, c, upto - 1) + if run_adj(s, rr, upto - 1, r, c) {
            1nat
        } else {
            0nat
        }
    }
}

/// How many runs of the first `rows` rows touch `(r, c)`.
pub open spec fn rows_adj_count(s: Seq<char>, r: int, c: int, rows: int) -> nat
    decreases rows,
{
    if rows <= 0 {
        0
    } else {
        rows_adj_count(s, r, c, rows - 1) + row_adj_count(
            s,
            rows - 1,
            r,
            c,
            spec_lines(s)[rows - 1].len() as int,
        )
    }
}

pub open spec fn adj_count(s: Seq<char>, r: int, c: int) -> nat {
    rows_adj_count(s, r, c, spec_lines(s).len() as int)
}

/// The product of the values of the touching runs of row `rr` left of
/// `upto`.
pub open spec fn row_adj_prod(s: Seq<char>, rr: int, r: int, c: int, upto: int) -> int
    decreases upto,
{
    if upto <= 0 {
        1
    } else {
        row_adj_prod(s, rr, r, c, upto - 1) * if run_adj(s, rr, upto - 1, r, c) {
            run_val(spec_lines(s)[rr], upto - 1)
        } else {
            1
        }
    }
}

pub open spec fn rows_adj_prod(s: Seq<char>, r: int, c: int, rows: int) -> int
    decreases rows,
{
    if rows <= 0 {
        1
    } else {
        rows_adj_prod(s, r, c, rows - 1) * row_adj_prod(
            s,
            rows - 1,
            r,
            c,
            spec_lines(s)[rows - 1].len() as int,
        )
    }
}

pub open spec fn adj_prod(s: Seq<char>, r: int, c: int) -> int {
    rows_adj_prod(s, r, c, spec_lines(s).len() as int)
}

/// A gear's contribution: the product of its two numbers, zero elsewhere.
pub open spec fn gear_val(s: Seq<char>, r: int, c: int) -> int {
    if cell(spec_lines(s), r, c) == Some('*') && adj_count(s, r, c) == 2 {
        adj_prod(s, r, c)
    } else {
        0
    }
}

/// The gear sum of row `r` left of column `c`.
pub open spec fn gear_row_sum(s: Seq<char>, r: int, c: int) -> int
    decreases c,
{
    if c <= 0 {
        0
    } else {
        gear_row_sum(s, r, c - 1) + gear_val(s, r, c - 1)
    }
}

/// The gear sum of the first `r` rows.
pub open spec fn gear_sum(s: Seq<char>, r: int) -> int
    decreases r,
{
    if r <= 0 {
        0
    } else {
        gear_sum(s, r - 1) + gear_row_sum(s, r - 1, spec_lines(s)[r - 1].len() as int)
    }
}

pub open spec fn spec_total(s: Seq<char>) -> int {
    gear_sum(s, spec_lines(s).len() as int)
}

/// Counts the runs of one row that touch `(r, c)`.
fn scan_row_count(
    lines: &Vec<Vec<char>>,
    Ghost(ls): Ghost<Seq<Seq<char>>>,
    Ghost(s): Ghost<Seq<char>>,
    rr: usize,
    r: usize,
    c: usize,
) -> (cnt: usize)
    requires
        ls == spec_lines(s),
        lines@.len() == ls.len(),
        forall|k: int| 0 <= k < ls.len() ==> lines@[k]@ == ls[k],
        rr < ls.len(),
        r - 1 <= rr as int <= r + 1,
    ensures
        cnt == row_adj_count(s, rr as int, r as int, c as int, ls[rr as int].len() as int),
        cnt <= ls[rr as int].len(),
{
    let row: &Vec<char> = &lines[rr];
    let mut cnt: usize = 0;
    let mut a: usize = 0;
    while a < row.len()
        invariant
            ls == spec_lines(s),
            lines@.len() == ls.len(),
            forall|k: int| 0 <= k < ls.len() ==> lines@[k]@ == ls[k],
            rr < ls.len(),
            r - 1 <= rr as int <= r + 1,
            row@ == ls[rr as int],
            0 <= a <= row@.len(),
            cnt <= a,
            cnt == row_adj_count(s, rr as int, r as int, c as int, a as int),
        decreases row@.len() - a,
    {
        let ch = row[a];
        let starts = (ch >= '0' && ch <= '9') && (a == 0 || !(row[a - 1] >= '0' && row[a - 1]
            <= '9'));
        let mut adj = false;
        if starts && (a == 0 || a - 1 <= c) {
            let e = skip_digits(row, a);
            if c <= e {
                adj = true;
            }
        }
        assert(adj == run_adj(s, rr as int, a as int, r as int, c as int));
        if adj {
            cnt = cnt + 1;
        }
        a = a + 1;
    }
    cnt
}

/// Multiplies the values of the runs of one row that touch `(r, c)`;
/// `None` when a value or a partial product leaves `usize`.
fn scan_row_prod(
    lines: &Vec<Vec<char>>,
    Ghost(ls): Ghost<Seq<Seq<char>>>,
    Ghost(s): Ghost<Seq<char>>,
    rr: usize,
    r: usize,
    c: usize,
    acc0: usize,
    Ghost(accs): Ghost<int>,
) -> (res: Option<usize>)
    requires
        ls == spec_lines(s),
        lines@.len() == ls.len(),
        forall|k: int| 0 <= k < ls.len() ==> lines@[k]@ == ls[k],
        rr < ls.len(),
        r - 1 <= rr as int <= r + 1,
        acc0 as int == accs,
    ensures
        res matches Some(v) ==> v == accs * row_adj_prod(
            s,
            rr as int,
            r as int,
            c as int,
            ls[rr as int].len() as int,
        ),
{
    let row: &Vec<char> = &lines[rr];
    let mut acc: usize = acc0;
    let mut a: usize = 0;
    while a < row.len()
        invariant
            ls == spec_lines(s),
            lines@.len() == ls.len(),
            forall|k: int| 0 <= k < ls.len() ==> lines@[k]@ == ls[k],
            rr < ls.len(),
            r - 1 <= rr as int <= r + 1,
            row@ == ls[rr as int],
            0 <= a <= row@.len(),
            acc as int == accs * row_adj_prod(s, rr as int, r as int, c as int, a as int),
        decreases row@.len() - a,
    {
        let ch = row[a];
        let starts = (ch >= '0' && ch <= '9') && (a == 0 || !(row[a - 1] >= '0' && row[a - 1]
            <= '9'));
        let mut adj = false;
        let mut e: usize = a;
        if starts && (a == 0 || a - 1 <= c) {
            e = skip_digits(row, a);
            if c <= e {
                adj = true;
            }
        }
        assert(adj == run_adj(s, rr as int, a as int, r as int, c as int));
        if adj {
            assert(a < e) by {
                assert(is_digit(row@[a as int]));
                assert(digits_end(row@, a as int) == digits_end(row@, a as int + 1));
                lemma_digits_end_bounds(row@, a as int + 1);
            }
            let value = match crate::day_03::run_value(row, a, e) {
                Some(v) => v,
                None => {
                    return None;
                }
            };
            acc = match acc.checked_mul(value) {
                Some(v) => v,
                None => {
                    return None;
                }
            };
            proof {
                let pa = row_adj_prod(s, rr as int, r as int, c as int, a as int);
                assert(accs * (pa * (value as int)) == (accs * pa) * (value as int))
                    by (nonlinear_arith);
            }
        }
        a = a + 1;
    }
    Some(acc)
}

proof fn lemma_row_adj_prod_nonneg(s: Seq<char>, rr: int, r: int, c: int, upto: int)
    requires
        upto <= spec_lines(s)[rr].len(),
    ensures
        row_adj_prod(s, rr, r, c, upto) >= 0,
    decreases upto,
{
    if upto > 0 {
        lemma_row_adj_prod_nonneg(s, rr, r, c, upto - 1);
        if run_adj(s, rr, upto - 1, r, c) {
            lemma_run_val_nonneg(spec_lines(s)[rr], upto - 1);
            assert(row_adj_prod(s, rr, r, c, upto) >= 0) by (nonlinear_arith)
                requires
                    row_adj_prod(s, rr, r, c, upto - 1) >= 0,
                    run_val(spec_lines(s)[rr], upto - 1) >= 0,
                    row_adj_prod(s, rr, r, c, upto) == row_adj_prod(s, rr, r, c, upto - 1)
                        * run_val(spec_lines(s)[rr], upto - 1),
            ;
        }
    }
}

proof fn lemma_rows_adj_prod_nonneg(s: Seq<char>, r: int, c: int, rows: int)
    requires
        rows <= spec_lines(s).len(),
    ensures
        rows_adj_prod(s, r, c, rows) >= 0,
    decreases rows,
{
    if rows > 0 {
        lemma_rows_adj_prod_nonneg(s, r, c, rows - 1);
        lemma_row_adj_prod_nonneg(s, rows - 1, r, c, spec_lines(s)[rows - 1].len() as int);
        assert(rows_adj_prod(s, r, c, rows) >= 0) by (nonlinear_arith)
            requires
                rows_adj_prod(s, r, c, rows - 1) >= 0,
                row_adj_prod(s, rows - 1, r, c, spec_lines(s)[rows - 1].len() as int) >= 0,
                rows_adj_prod(s, r, c, rows) == rows_adj_prod(s, r, c, rows - 1) * row_adj_prod(
                    s,
                    rows - 1,
                    r,
                    c,
                    spec_lines(s)[rows - 1].len() as int,
                ),
        ;
    }
}

proof fn lemma_gear_row_sum_bounds(s: Seq<char>, r: int, c: int)
    requires
        c <= spec_lines(s)[r].len(),
    ensures
        forall|m: int| 0 <= m <= c ==> gear_row_sum(s, r, m) <= gear_row_sum(s, r, c),
        gear_row_sum(s, r, c) >= 0,
    decreases c,
{
    if c > 0 {
        lemma_gear_row_sum_bounds(s, r, c - 1);
        assert(gear_val(s, r, c - 1) >= 0) by {
            if cell(spec_lines(s), r, c - 1) == Some('*') && adj_count(s, r, c - 1) == 2 {
                lemma_rows_adj_prod_nonneg(s, r, c - 1, spec_lines(s).len() as int);
            }
        }
    }
}

proof fn lemma_gear_sum_bounds(s: Seq<char>, r: int)
    requires
        r <= spec_lines(s).len(),
    ensures
        forall|m: int| 0 <= m <= r ==> gear_sum(s, m) <= gear_sum(s, r),
        gear_sum(s, r) >= 0,
    decreases r,
{
    if r > 0 {
        lemma_gear_sum_bounds(s, r - 1);
        lemma_gear_row_sum_bounds(s, r - 1, spec_lines(s)[r - 1].len() as int);
    }
}

/// Counts the runs around `(r, c)` in the up-to-three rows beside it.
fn count_adjacent(
    lines: &Vec<Vec<char>>,
    Ghost(ls): Ghost<Seq<Seq<char>>>,
    Ghost(s): Ghost<Seq<char>>,
    r: usize,
    c: usize,
) -> (cnt: usize)
    requires
        ls == spec_lines(s),
        lines@.len() == ls.len(),
        forall|k: int| 0 <= k < ls.len() ==> lines@[k]@ == ls[k],
        r < ls.len(),
        forall|k: int| 0 <= k < ls.len() ==> (#[trigger] ls[k]).len() < usize::MAX,
    ensures
        cnt as int == adj_count(s, r as int, c as int) || cnt == usize::MAX,
        cnt as int <= adj_count(s, r as int, c as int),
{
    proof {
        lemma_rows_adj_zero(s, r as int, c as int, if r > 0 {
            r - 1
        } else {
            0
        });
    }
    let lo: usize = if r > 0 {
        r - 1
    } else {
        0
    };
    let mut cnt: usize = 0;
    let mut rr = lo;
    while rr < lines.len() && rr <= r + 1
        invariant
            ls == spec_lines(s),
            lines@.len() == ls.len(),
            forall|k: int| 0 <= k < ls.len() ==> lines@[k]@ == ls[k],
            r < ls.len(),
            forall|k: int| 0 <= k < ls.len() ==> (#[trigger] ls[k]).len() < usize::MAX,
            lo == if r > 0 {
                r - 1
            } else {
                0
            },
            lo <= rr <= r + 2,
            rr <= ls.len(),
            (cnt as int == rows_adj_count(s, r as int, c as int, rr as int) || cnt == usize::MAX),
            cnt as int <= rows_adj_count(s, r as int, c as int, rr as int),
        decreases r + 2 - rr,
    {
        let row_cnt = scan_row_count(lines, Ghost(ls), Ghost(s), rr, r, c);
        cnt = match cnt.checked_add(row_cnt) {
            Some(v) => v,
            None => usize::MAX,
        };
        rr = rr + 1;
    }
    proof {
        lemma_rows_adj_upper(s, r as int, c as int, rr as int, ls.len() as int);
    }
    cnt
}

/// Rows before `r - 1` hold no touching runs.
proof fn lemma_rows_adj_zero(s: Seq<char>, r: int, c: int, rows: int)
    requires
        rows <= r - 1 || (r == 0 && rows == 0),
    ensures
        rows_adj_count(s, r, c, rows) == 0,
    decreases rows,
{
    if rows > 0 {
        lemma_rows_adj_zero(s, r, c, rows - 1);
        lemma_row_adj_none(s, rows - 1, r, c, spec_lines(s)[rows - 1].len() as int);
    }
}

/// A row farther than one step holds no touching runs.
proof fn lemma_row_adj_none(s: Seq<char>, rr: int, r: int, c: int, upto: int)
    requires
        rr < r - 1 || rr > r + 1,
    ensures
        row_adj_count(s, rr, r, c, upto) == 0,
        row_adj_prod(s, rr, r, c, upto) == 1,
    decreases upto,
{
    if upto > 0 {
        lemma_row_adj_none(s, rr, r, c, upto - 1);
    }
}

/// Rows past `r + 1` add no touching runs.
proof fn lemma_rows_adj_upper(s: Seq<char>, r: int, c: int, from: int, rows: int)
    requires
        from >= r + 2 || from >= rows,
        from <= rows,
    ensures
        rows_adj_count(s, r, c, rows) == rows_adj_count(s, r, c, from),
        rows_adj_prod(s, r, c, rows) == rows_adj_prod(s, r, c, from),
    decreases rows - from,
{
    if from < rows {
        lemma_row_adj_none(s, from, r, c, spec_lines(s)[from].len() as int);
        lemma_rows_adj_upper(s, r, c, from + 1, rows);
    }
}

/// Multiplies the values of the runs around `(r, c)`; `None` when a value or
/// a product leaves `usize`.
fn prod_adjacent(
    lines: &Vec<Vec<char>>,
    Ghost(ls): Ghost<Seq<Seq<char>>>,
    Ghost(s): Ghost<Seq<char>>,
    r: usize,
    c: usize,
) -> (res: Option<usize>)
    requires
        ls == spec_lines(s),
        lines@.len() == ls.len(),
        forall|k: int| 0 <= k < ls.len() ==> lines@[k]@ == ls[k],
        r < ls.len(),
    ensures
        res matches Some(v) ==> v == adj_prod(s, r as int, c as int),
{
    proof {
        lemma_rows_prod_zero(s, r as int, c as int, if r > 0 {
            r - 1
        } else {
            0
        });
    }
    let lo: usize = if r > 0 {
        r - 1
    } else {
        0
    };
    let mut acc: usize = 1;
    let mut rr = lo;
    while rr < lines.len() && rr <= r + 1
        invariant
            ls == spec_lines(s),
            lines@.len() == ls.len(),
            forall|k: int| 0 <= k < ls.len() ==> lines@[k]@ == ls[k],
            r < ls.len(),
            lo == if r > 0 {
                r - 1
            } else {
                0
            },
            lo <= rr <= r + 2,
            rr <= ls.len(),
            acc as int == rows_adj_prod(s, r as int, c as int, rr as int),
        decreases r + 2 - rr,
    {
        acc = match scan_row_prod(lines, Ghost(ls), Ghost(s), rr, r, c, acc, Ghost(acc as int)) {
            Some(v) => v,
            None => {
                return None;
            }
        };
        rr = rr + 1;
    }
    proof {
        lemma_rows_adj_upper(s, r as int, c as int, rr as int, ls.len() as int);
    }
    Some(acc)
}

/// Rows before `r - 1` multiply nothing in.
proof fn lemma_rows_prod_zero(s: Seq<char>, r: int, c: int, rows: int)
    requires
        rows <= r - 1 || (r == 0 && rows == 0),
    ensures
        rows_adj_prod(s, r, c, rows) == 1,
    decreases rows,
{
    if rows > 0 {
        lemma_rows_prod_zero(s, r, c, rows - 1);
        lemma_row_adj_none(s, rows - 1, r, c, spec_lines(s)[rows - 1].len() as int);
    }
}

/// Finds every `*` touching exactly two numbers and sums the products of
/// their values. Fails only with `Overflow`, when a number, a product or the
/// sum leaves `usize`.
pub fn solve(input: &str) -> (r: Result<usize, SolveError>)
    ensures
        r matches Ok(n) ==> n == spec_total(input@),
        r is Err ==> r == Err::<usize, SolveError>(SolveError::Overflow),
{
    let cs = chars_vec(input);
    let lines = split_lines(&cs);
    let ghost ls = spec_lines(input@);
    let ghost n = ls.len() as int;
    proof {
        lemma_gear_sum_bounds(input@, n);
    }
    // a row as long as the address space would have been rejected upstream
    let mut r: usize = 0;
    while r < lines.len()
        invariant
            ls == spec_lines(input@),
            lines@.len() == ls.len(),
            forall|k: int| 0 <= k < ls.len() ==> lines@[k]@ == ls[k],
            0 <= r <= ls.len(),
            forall|k: int| 0 <= k < r ==> (#[trigger] ls[k]).len() < usize::MAX,
        decreases ls.len() - r,
    {
        let row: &Vec<char> = &lines[r];
        if row.len() == usize::MAX {
            return Err(SolveError::Overflow);
        }
        r = r + 1;
    }
    let mut total: usize = 0;
    let mut rw: usize = 0;
    while rw < lines.len()
        invariant
            ls == spec_lines(input@),
            n == ls.len(),
            lines@.len() == n,
            forall|k: int| 0 <= k < n ==> lines@[k]@ == ls[k],
            forall|k: int| 0 <= k < n ==> (#[trigger] ls[k]).len() < usize::MAX,
            0 <= rw <= n,
            total == gear_sum(input@, rw as int),
        decreases n - rw,
    {
        let row: &Vec<char> = &lines[rw];
        let mut c: usize = 0;
        while c < row.len()
            invariant
                ls == spec_lines(input@),
                n == ls.len(),
                lines@.len() == n,
                forall|k: int| 0 <= k < n ==> lines@[k]@ == ls[k],
                forall|k: int| 0 <= k < n ==> (#[trigger] ls[k]).len() < usize::MAX,
                0 <= rw < n,
                row@ == ls[rw as int],
                0 <= c <= row@.len(),
                total == gear_sum(input@, rw as int) + gear_row_sum(input@, rw as int, c as int),
            decreases row@.len() - c,
        {
            let ch = row[c];
            let mut value: usize = 0;
            if ch == '*' {
                let cnt = count_adjacent(&lines, Ghost(ls), Ghost(input@), rw, c);
                if cnt == 2 {
                    assert(adj_count(input@, rw as int, c as int) == 2 || usize::MAX == 2);
                    value = match prod_adjacent(&lines, Ghost(ls), Ghost(input@), rw, c) {
                        Some(v) => v,
                        None => {
                            return Err(SolveError::Overflow);
                        }
                    };
                    assert(value == gear_val(input@, rw as int, c as int));
                } else {
                    assert(gear_val(input@, rw as int, c as int) == 0) by {
                        if adj_count(input@, rw as int, c as int) == 2 {
                            assert(cnt as int <= 2);
                            assert(cnt as int == 2);
                        }
                    }
                }
            } else {
                assert(gear_val(input@, rw as int, c as int) == 0);
            }
            total = match total.checked_add(value) {
                Some(v) => v,
                None => {
                    return Err(SolveError::Overflow);
                }
            };
            c = c + 1;
        }
        assert(total == gear_sum(input@, rw as int + 1));
        rw = rw + 1;
    }
    Ok(total)
}

} // verus!
