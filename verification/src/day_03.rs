//! Engine schematic: digit runs in a character grid count when a symbol
//! touches them, and `*` symbols with exactly two neighbouring numbers are
//! gears.

pub mod problem_1;
pub mod problem_2;

use vstd::prelude::*;
use crate::text::{digits_end, is_digit, num_val, parse_usize};

verus! {

/// The character at a grid coordinate, or `None` off the grid.
pub open spec fn cell(lines: Seq<Seq<char>>, r: int, c: int) -> Option<char> {
    if 0 <= r < lines.len() && 0 <= c < lines[r].len() {
        Some(lines[r][c])
    } else {
        None
    }
}

/// A symbol cell: any character that is neither a digit nor empty ground.
pub open spec fn is_symbol_at(lines: Seq<Seq<char>>, r: int, c: int) -> bool {
    match cell(lines, r, c) {
        Some(ch) => !is_digit(ch) && ch != '.',
        None => false,
    }
}

/// `c` starts a maximal digit run of its row.
pub open spec fn run_start(line: Seq<char>, c: int) -> bool {
    &&& 0 <= c < line.len()
    &&& is_digit(line[c])
    &&& (c == 0 || !is_digit(line[c - 1]))
}

/// The value of the digit run starting at `a`.
pub open spec fn run_val(line: Seq<char>, a: int) -> int {
    num_val(line.subrange(a, digits_end(line, a)))
}

/// Whether a symbol touches the run `[a, b)` of row `r`, diagonals included.
pub open spec fn run_touches(lines: Seq<Seq<char>>, r: int, a: int, b: int) -> bool {
    exists|rr: int, cc: int|
        r - 1 <= rr <= r + 1 && a - 1 <= cc <= b && #[trigger] is_symbol_at(lines, rr, cc)
}

/// Skips digits from `i`; returns the first non-digit position.
pub fn skip_digits(line: &Vec<char>, i: usize) -> (r: usize)
    requires
        i <= line@.len(),
    ensures
        r == digits_end(line@, i as int),
        i <= r <= line@.len(),
{
    let mut j = i;
    while j < line.len() && line[j] >= '0' && line[j] <= '9'
        invariant
            i <= j <= line@.len(),
            digits_end(line@, i as int) == digits_end(line@, j as int),
        decreases line@.len() - j,
    {
        j = j + 1;
    }
    j
}

/// `digits_end` never moves backwards and never leaves the line.
pub proof fn lemma_digits_end_bounds(s: Seq<char>, i: int)
    requires
        0 <= i,
    ensures
        digits_end(s, i) >= i,
        i <= s.len() ==> digits_end(s, i) <= s.len(),
    decreases s.len() - i,
{
    if i < s.len() && is_digit(s[i]) {
        lemma_digits_end_bounds(s, i + 1);
    }
}

/// Scans the cells around the run `[a, b)` of row `r` for a symbol.
pub fn symbol_in_box(
    lines: &Vec<Vec<char>>,
    Ghost(ls): Ghost<Seq<Seq<char>>>,
    r: usize,
    a: usize,
    b: usize,
) -> (found: bool)
    requires
        lines@.len() == ls.len(),
        forall|k: int| 0 <= k < ls.len() ==> lines@[k]@ == ls[k],
        a <= b,
    ensures
        found == run_touches(ls, r as int, a as int, b as int),
{
    let n_rows = lines.len();
    let lo_c: usize = if a > 0 {
        a - 1
    } else {
        0
    };
    let mut drr: usize = 0;
    while drr < 3
        invariant
            lines@.len() == ls.len(),
            forall|k: int| 0 <= k < ls.len() ==> lines@[k]@ == ls[k],
            a <= b,
            lo_c == if a > 0 {
                a - 1
            } else {
                0
            },
            0 <= drr <= 3,
            n_rows == ls.len(),
            forall|rr2: int, cc2: int|
                r - 1 <= rr2 <= r + 1 && a - 1 <= cc2 <= b && rr2 < r - 1 + drr ==> !(
                #[trigger] is_symbol_at(ls, rr2, cc2)),
        decreases 3 - drr,
    {
        let ghost rr_spec: int = r - 1 + drr;
        let row_opt: Option<usize> = if drr == 0 {
            if r > 0 {
                Some(r - 1)
            } else {
                None
            }
        } else if drr == 1 {
            Some(r)
        } else {
            if r < usize::MAX {
                Some(r + 1)
            } else {
                None
            }
        };
        match row_opt {
            None => {
                assert forall|cc2: int| !(#[trigger] is_symbol_at(ls, rr_spec, cc2)) by {
                    assert(rr_spec < 0 || rr_spec > n_rows);
                    assert(cell(ls, rr_spec, cc2) is None);
                }
            }
            Some(rr) => {
                assert(rr == rr_spec);
                if rr < lines.len() {
                    let row: &Vec<char> = &lines[rr];
                    if row.len() > 0 {
                        let hi_c: usize = if b < row.len() - 1 {
                            b
                        } else {
                            row.len() - 1
                        };
                        let mut cc = lo_c;
                        if lo_c > hi_c {
                            assert forall|cc2: int|
                                a - 1 <= cc2 <= b implies !(#[trigger] is_symbol_at(
                                ls,
                                rr as int,
                                cc2,
                            )) by {
                                if cc2 >= 0 {
                                    assert(cc2 >= row@.len());
                                }
                            }
                            drr = drr + 1;
                            continue;
                        }
                        while cc <= hi_c
                            invariant
                                lines@.len() == ls.len(),
                                forall|k: int| 0 <= k < ls.len() ==> lines@[k]@ == ls[k],
                                rr < ls.len(),
                                row@ == ls[rr as int],
                                row@.len() > 0,
                                row@.len() <= usize::MAX,
                                hi_c < row@.len(),
                                hi_c <= b,
                                a <= b,
                                lo_c == if a > 0 {
                                    a - 1
                                } else {
                                    0
                                },
                                hi_c == if b < row@.len() - 1 {
                                    b as int
                                } else {
                                    row@.len() - 1
                                },
                                r - 1 <= rr as int <= r + 1,
                                lo_c <= cc <= hi_c + 1,
                                forall|cc2: int|
                                    lo_c <= cc2 < cc ==> !(#[trigger] is_symbol_at(
                                        ls,
                                        rr as int,
                                        cc2,
                                    )),
                            decreases hi_c + 1 - cc,
                        {
                            let ch = row[cc];
                            if !(ch >= '0' && ch <= '9') && ch != '.' {
                                assert(is_symbol_at(ls, rr as int, cc as int));
                                assert(run_touches(ls, r as int, a as int, b as int));
                                return true;
                            }
                            assert(!is_symbol_at(ls, rr as int, cc as int));
                            cc = cc + 1;
                        }
                        assert forall|cc2: int|
                            a - 1 <= cc2 <= b implies !(#[trigger] is_symbol_at(
                            ls,
                            rr as int,
                            cc2,
                        )) by {
                            if cc2 < lo_c {
                                assert(cc2 < 0);
                            } else if cc2 > hi_c {
                                assert(cc2 >= row@.len());
                            }
                        }
                    } else {
                        assert(forall|cc2: int| !(#[trigger] is_symbol_at(ls, rr as int, cc2)));
                    }
                } else {
                    assert(forall|cc2: int| !(#[trigger] is_symbol_at(ls, rr as int, cc2)));
                }
            }
        }
        drr = drr + 1;
    }
    assert(!run_touches(ls, r as int, a as int, b as int)) by {
        if run_touches(ls, r as int, a as int, b as int) {
            let (rr2, cc2) = choose|rr2: int, cc2: int|
                r - 1 <= rr2 <= r + 1 && a - 1 <= cc2 <= b && #[trigger] is_symbol_at(
                    ls,
                    rr2,
                    cc2,
                );
            assert(!is_symbol_at(ls, rr2, cc2));
        }
    }
    false
}

/// Reads the value of the digit run `[a, b)`; `None` exactly when it leaves
/// `usize`.
pub fn run_value(line: &Vec<char>, a: usize, b: usize) -> (r: Option<usize>)
    requires
        a < b <= line@.len(),
        b as int == digits_end(line@, a as int),
    ensures
        r is Some <==> run_val(line@, a as int) <= usize::MAX,
        r matches Some(v) ==> v == run_val(line@, a as int),
{
    let mut digits: Vec<char> = Vec::new();
    let mut k = a;
    while k < b
        invariant
            a <= k <= b <= line@.len(),
            digits@ == line@.subrange(a as int, k as int),
        decreases b - k,
    {
        digits.push(line[k]);
        assert(digits@ =~= line@.subrange(a as int, k as int + 1));
        k = k + 1;
    }
    assert(forall|i: int| a <= i < b ==> is_digit(line@[i])) by {
        assert forall|i: int| a <= i < b implies is_digit(line@[i]) by {
            lemma_digit_run(line@, a as int, i);
        }
    }
    assert(crate::text::all_digits(digits@));
    assert(digits@.len() > 0);
    proof {
        crate::text::lemma_num_val_nonneg(digits@);
    }
    parse_usize(&digits)
}

pub proof fn lemma_digit_run(s: Seq<char>, a: int, i: int)
    requires
        a <= i < digits_end(s, a),
        0 <= a,
    ensures
        is_digit(s[i]),
    decreases i - a,
{
    if a < s.len() && is_digit(s[a]) {
        if i > a {
            lemma_digit_run(s, a + 1, i);
        }
    }
}

/// Digit runs are non-negative numbers.
pub proof fn lemma_run_val_nonneg(line: Seq<char>, a: int)
    requires
        0 <= a <= line.len(),
    ensures
        run_val(line, a) >= 0,
{
    lemma_digits_end_bounds(line, a);
    let sub = line.subrange(a, digits_end(line, a));
    assert forall|i: int| 0 <= i < sub.len() implies is_digit(sub[i]) by {
        lemma_digit_run(line, a, a + i);
    }
    crate::text::lemma_num_val_nonneg(sub);
}

} // verus!
