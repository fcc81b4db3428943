//! Sequence extrapolation: reduce each history to difference levels and
//! extend it one step past either end.

pub mod problem_1;
pub mod problem_2;

use vstd::prelude::*;
use crate::text::{isize_digits, parse_isize, signed_val, spec_fields, split_fields};

verus! {

/// The mathematical values of a vector of machine integers.
pub open spec fn ints(v: Seq<isize>) -> Seq<int> {
    v.map_values(|x: isize| x as int)
}

/// Pairwise differences: one level down the pyramid.
pub open spec fn spec_deltas(v: Seq<int>) -> Seq<int> {
    if v.len() <= 1 {
        Seq::empty()
    } else {
        Seq::new((v.len() - 1) as nat, |i: int| v[i + 1] - v[i])
    }
}

pub open spec fn all_zero(v: Seq<int>) -> bool {
    forall|i: int| 0 <= i < v.len() ==> v[i] == 0
}

/// The value that extends a history one step to the right.
pub open spec fn extrap_next(v: Seq<int>) -> int
    decreases v.len(),
{
    if all_zero(v) {
        0
    } else {
        v.last() + extrap_next(spec_deltas(v))
    }
}

/// The value that extends a history one step to the left.
pub open spec fn extrap_prev(v: Seq<int>) -> int
    decreases v.len(),
{
    if all_zero(v) {
        0
    } else {
        v[0] - extrap_prev(spec_deltas(v))
    }
}

/// A line of optionally signed numbers, at least one.
pub open spec fn line_ok(line: Seq<char>) -> bool {
    &&& spec_fields(line).len() > 0
    &&& forall|i: int|
        0 <= i < spec_fields(line).len() ==> isize_digits(#[trigger] spec_fields(line)[i])
}

/// The history a line holds.
pub open spec fn line_vals(line: Seq<char>) -> Seq<int> {
    Seq::new(spec_fields(line).len(), |i: int| signed_val(spec_fields(line)[i]))
}

/// Parses one history line; `None` exactly when it is empty or holds a
/// non-number.
pub fn parse_history(line: &Vec<char>) -> (r: Option<Vec<isize>>)
    ensures
        r is Some <==> line_ok(line@),
        r matches Some(v) ==> ints(v@) == line_vals(line@),
{
    let fields = split_fields(line);
    if fields.len() == 0 {
        return None;
    }
    let mut out: Vec<isize> = Vec::new();
    let mut i: usize = 0;
    while i < fields.len()
        invariant
            0 <= i <= fields@.len(),
            fields@.len() == spec_fields(line@).len(),
            forall|k: int| 0 <= k < fields@.len() ==> fields@[k]@ == spec_fields(line@)[k],
            out@.len() == i,
            forall|k: int| 0 <= k < i ==> #[trigger] out@[k] == signed_val(spec_fields(line@)[k]),
            forall|k: int| 0 <= k < i ==> isize_digits(#[trigger] spec_fields(line@)[k]),
        decreases fields@.len() - i,
    {
        match parse_isize(&fields[i]) {
            Some(n) => {
                out.push(n);
            }
            None => {
                assert(!isize_digits(spec_fields(line@)[i as int]));
                return None;
            }
        }
        i = i + 1;
    }
    assert(ints(out@) =~= line_vals(line@));
    Some(out)
}

/// A fresh vector with the same entries.
pub fn copy_vec(v: &Vec<isize>) -> (r: Vec<isize>)
    ensures
        r@ == v@,
{
    let mut out: Vec<isize> = Vec::new();
    let mut i: usize = 0;
    while i < v.len()
        invariant
            0 <= i <= v@.len(),
            out@ == v@.take(i as int),
        decreases v@.len() - i,
    {
        out.push(v[i]);
        assert(out@ =~= v@.take(i as int + 1));
        i = i + 1;
    }
    assert(out@ =~= v@);
    out
}

/// Whether every entry is zero.
pub fn is_all_zero(v: &Vec<isize>) -> (r: bool)
    ensures
        r == all_zero(ints(v@)),
{
    let mut i: usize = 0;
    while i < v.len()
        invariant
            0 <= i <= v@.len(),
            forall|k: int| 0 <= k < i ==> ints(v@)[k] == 0,
        decreases v@.len() - i,
    {
        if v[i] != 0 {
            assert(ints(v@)[i as int] != 0);
            return false;
        }
        i = i + 1;
    }
    true
}

/// One difference level; `None` when a difference leaves `isize`.
pub fn delta_level(v: &Vec<isize>) -> (r: Option<Vec<isize>>)
    ensures
        r matches Some(d) ==> ints(d@) == spec_deltas(ints(v@)),
        r matches Some(d) ==> (v@.len() >= 1 ==> d@.len() < v@.len()),
{
    let mut out: Vec<isize> = Vec::new();
    if v.len() <= 1 {
        assert(ints(out@) =~= spec_deltas(ints(v@)));
        return Some(out);
    }
    let mut i: usize = 0;
    while i < v.len() - 1
        invariant
            v@.len() >= 2,
            0 <= i <= v@.len() - 1,
            out@.len() == i,
            forall|k: int| 0 <= k < i ==> #[trigger] ints(out@)[k] == spec_deltas(ints(v@))[k],
        decreases v@.len() - 1 - i,
    {
        match v[i + 1].checked_sub(v[i]) {
            Some(d) => {
                let ghost out0 = out@;
                assert(forall|k: int|
                    0 <= k < out0.len() ==> #[trigger] ints(out0)[k] == out0[k] as int);
                assert(ints(v@).len() == v@.len());
                assert(d == v@[i as int + 1] - v@[i as int]);
                out.push(d);
                assert forall|k: int| 0 <= k < i + 1 implies #[trigger] ints(out@)[k]
                    == spec_deltas(ints(v@))[k] by {
                    assert(ints(out@)[k] == out@[k] as int);
                    if k < i {
                        assert(ints(out0)[k] == spec_deltas(ints(v@))[k]);
                        assert(ints(out0)[k] == out0[k] as int);
                        assert(out@[k] == out0[k]);
                    } else {
                        assert(out@[k] == d);
                        assert(ints(v@)[i as int] == v@[i as int] as int);
                        assert(ints(v@)[i as int + 1] == v@[i as int + 1] as int);
                        assert(spec_deltas(ints(v@))[i as int] == ints(v@)[i as int + 1] - ints(
                            v@,
                        )[i as int]);
                    }
                }
            }
            None => {
                return None;
            }
        }
        i = i + 1;
    }
    assert(ints(out@) =~= spec_deltas(ints(v@)));
    Some(out)
}

} // verus!
