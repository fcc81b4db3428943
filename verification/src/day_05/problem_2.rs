//! Second part: the seed numbers pair into ranges; push whole ranges through
//! the chain, splitting them at map boundaries, and report the smallest
//! reachable location.

use vstd::prelude::*;
use crate::day_05::{
    group_entries, input_ok, map_groups, parse_almanac, seed_at, seeds_fields,
};
use crate::text::SolveError;

verus! {

/// The first entry (in list order) whose source range holds `v`.
pub open spec fn containing_from(es: Seq<(int, int, int)>, i: int, v: int) -> Option<int>
    decreases es.len() - i,
{
    if i < 0 || i >= es.len() {
        None
    } else if es[i].1 <= v < es[i].1 + es[i].2 {
        Some(i)
    } else {
        containing_from(es, i + 1, v)
    }
}

/// The smallest source start strictly above `v`, among entries from `i` on.
pub open spec fn min_src_above(es: Seq<(int, int, int)>, i: int, v: int) -> Option<int>
    decreases es.len() - i,
{
    if i < 0 || i >= es.len() {
        None
    } else {
        let rest = min_src_above(es, i + 1, v);
        if es[i].1 > v {
            match rest {
                None => Some(es[i].1),
                Some(m) => Some(
                    if es[i].1 < m {
                        es[i].1
                    } else {
                        m
                    },
                ),
            }
        } else {
            rest
        }
    }
}

/// Splits the interval `[current, end]` through one map: a piece covered by
/// an entry is remapped up to the entry's end, an uncovered piece passes
/// through up to the next entry's start.
pub open spec fn next_segs(es: Seq<(int, int, int)>, current: int, end: int) -> Seq<(int, int)>
    decreases end + 1 - current,
{
    if current > end {
        Seq::empty()
    } else {
        match containing_from(es, 0, current) {
            Some(ix) => {
                let e = es[ix];
                let reach = if end < e.1 + e.2 - 1 {
                    end
                } else {
                    e.1 + e.2 - 1
                };
                let range_end = if reach < current {
                    current
                } else {
                    reach
                };
                seq![(e.0 + (current - e.1), e.0 + (range_end - e.1))] + next_segs(
                    es,
                    range_end + 1,
                    end,
                )
            },
            None => match min_src_above(es, 0, current) {
                Some(ms) => {
                    let ms2 = if ms > current {
                        ms
                    } else {
                        current + 1
                    };
                    let ms3 = if ms2 > end + 1 {
                        end + 1
                    } else {
                        ms2
                    };
                    let stop = if ms2 - 1 < end {
                        ms2 - 1
                    } else {
                        end
                    };
                    seq![(current, stop)] + next_segs(es, ms3, end)
                },
                None => seq![(current, end)],
            },
        }
    }
}

/// One map applied to a list of intervals, in order.
pub open spec fn stage_segs(es: Seq<(int, int, int)>, segs: Seq<(int, int)>, k: int) -> Seq<
    (int, int),
>
    decreases k,
{
    if k <= 0 {
        Seq::empty()
    } else {
        stage_segs(es, segs, k - 1) + next_segs(es, segs[k - 1].0, segs[k - 1].1)
    }
}

/// The seed ranges: the numbers pair into a start and a size; empty ranges
/// are dropped.
pub open spec fn ranges_go(s: Seq<char>, i: int) -> Seq<(int, int)>
    decreases i,
{
    if i <= 0 {
        Seq::empty()
    } else {
        ranges_go(s, i - 1) + if seed_at(s, 2 * (i - 1) + 1) >= 1 {
            seq![
                (seed_at(s, 2 * (i - 1)), seed_at(s, 2 * (i - 1)) + seed_at(s, 2 * (i - 1) + 1)
                    - 1),
            ]
        } else {
            Seq::empty()
        }
    }
}

pub open spec fn seed_ranges(s: Seq<char>) -> Seq<(int, int)> {
    ranges_go(s, seeds_fields(s).len() as int / 2)
}

/// The intervals after the first `k` maps of the chain.
pub open spec fn chain_segs(s: Seq<char>, k: int) -> Seq<(int, int)>
    decreases k,
{
    if k <= 0 {
        seed_ranges(s)
    } else {
        let es = group_entries(map_groups(s)[k - 1], map_groups(s)[k - 1].len() as int);
        stage_segs(es, chain_segs(s, k - 1), chain_segs(s, k - 1).len() as int)
    }
}

pub open spec fn final_segs(s: Seq<char>) -> Seq<(int, int)> {
    chain_segs(s, map_groups(s).len() as int)
}

/// The smallest interval start among the first `k` (at least one).
pub open spec fn min_start(segs: Seq<(int, int)>, k: int) -> int
    decreases k,
{
    if k <= 1 {
        segs[0].0
    } else {
        let prev = min_start(segs, k - 1);
        if segs[k - 1].0 < prev {
            segs[k - 1].0
        } else {
            prev
        }
    }
}

/// Finds the first entry holding `v`.
fn containing_scan(
    entries: &Vec<(usize, usize, usize)>,
    Ghost(es): Ghost<Seq<(int, int, int)>>,
    v: usize,
) -> (r: Option<usize>)
    requires
        entries@.len() == es.len(),
        forall|i: int|
            0 <= i < es.len() ==> ((#[trigger] entries@[i]).0 as int, entries@[i].1 as int,
            entries@[i].2 as int) == es[i],
    ensures
        match r {
            Some(ix) => containing_from(es, 0, v as int) == Some(ix as int) && ix < es.len()
                && es[ix as int].1 <= v as int && (v as int) < es[ix as int].1 + es[ix as int].2,
            None => containing_from(es, 0, v as int) is None,
        },
{
    let mut i: usize = 0;
    while i < entries.len()
        invariant
            entries@.len() == es.len(),
            forall|k: int|
                0 <= k < es.len() ==> ((#[trigger] entries@[k]).0 as int, entries@[k].1 as int,
                entries@[k].2 as int) == es[k],
            0 <= i <= es.len(),
            containing_from(es, 0, v as int) == containing_from(es, i as int, v as int),
        decreases es.len() - i,
    {
        let e = entries[i];
        if v >= e.1 && v - e.1 < e.2 {
            return Some(i);
        }
        i = i + 1;
    }
    None
}

/// Finds the smallest entry start strictly above `v`.
fn min_above_scan(
    entries: &Vec<(usize, usize, usize)>,
    Ghost(es): Ghost<Seq<(int, int, int)>>,
    v: usize,
) -> (r: Option<usize>)
    requires
        entries@.len() == es.len(),
        forall|i: int|
            0 <= i < es.len() ==> ((#[trigger] entries@[i]).0 as int, entries@[i].1 as int,
            entries@[i].2 as int) == es[i],
    ensures
        match r {
            Some(m) => min_src_above(es, 0, v as int) == Some(m as int) && m > v,
            None => min_src_above(es, 0, v as int) is None,
        },
{
    let mut best: Option<usize> = None;
    let mut i: usize = entries.len();
    while i > 0
        invariant
            entries@.len() == es.len(),
            forall|k: int|
                0 <= k < es.len() ==> ((#[trigger] entries@[k]).0 as int, entries@[k].1 as int,
                entries@[k].2 as int) == es[k],
            0 <= i <= es.len(),
            match best {
                Some(m) => min_src_above(es, i as int, v as int) == Some(m as int) && m > v,
                None => min_src_above(es, i as int, v as int) is None,
            },
        decreases i,
    {
        let e = entries[i - 1];
        if e.1 > v {
            best = match best {
                None => Some(e.1),
                Some(m) => Some(
                    if e.1 < m {
                        e.1
                    } else {
                        m
                    },
                ),
            };
        }
        i = i - 1;
    }
    best
}

/// Splits one interval through one map; `None` when a remapped bound leaves
/// `usize`.
fn next_intervals(
    entries: &Vec<(usize, usize, usize)>,
    Ghost(es): Ghost<Seq<(int, int, int)>>,
    lo: usize,
    hi: usize,
    out: &mut Vec<(usize, usize)>,
) -> (ok: bool)
    requires
        entries@.len() == es.len(),
        forall|i: int|
            0 <= i < es.len() ==> ((#[trigger] entries@[i]).0 as int, entries@[i].1 as int,
            entries@[i].2 as int) == es[i],
    ensures
        ok ==> {
            &&& final(out)@.len() == old(out)@.len() + next_segs(es, lo as int, hi as int).len()
            &&& (forall|k: int|
                0 <= k < old(out)@.len() ==> #[trigger] final(out)@[k] == old(out)@[k])
            &&& (forall|k: int|
                0 <= k < next_segs(es, lo as int, hi as int).len() ==> ((#[trigger] final(out)@[old(
                    out,
                )@.len() + k]).0 as int, final(out)@[old(out)@.len() + k].1 as int) == next_segs(
                    es,
                    lo as int,
                    hi as int,
                )[k])
        },
{
    let ghost base = out@;
    let ghost whole = next_segs(es, lo as int, hi as int);
    let mut current = lo;
    let mut finished = false;
    while !finished && current <= hi
        invariant
            entries@.len() == es.len(),
            forall|k: int|
                0 <= k < es.len() ==> ((#[trigger] entries@[k]).0 as int, entries@[k].1 as int,
                entries@[k].2 as int) == es[k],
            whole == next_segs(es, lo as int, hi as int),
            out@.len() >= base.len(),
            forall|k: int| 0 <= k < base.len() ==> #[trigger] out@[k] == base[k],
            whole.len() >= out@.len() - base.len(),
            forall|k: int|
                0 <= k < out@.len() - base.len() ==> ((#[trigger] out@[base.len() + k]).0 as int,
                out@[base.len() + k].1 as int) == whole[k],
            !finished ==> whole =~= out@.subrange(base.len() as int, out@.len() as int).map_values(
                |p: (usize, usize)| (p.0 as int, p.1 as int),
            ) + next_segs(es, current as int, hi as int),
            finished ==> whole.len() == out@.len() - base.len(),
        decreases hi + 1 - current, (if finished { 0int } else { 1int }),
    {
        let ghost done_part = out@.subrange(base.len() as int, out@.len() as int).map_values(
            |p: (usize, usize)| (p.0 as int, p.1 as int),
        );
        match containing_scan(entries, Ghost(es), current) {
            Some(ix) => {
                let e = entries[ix];
                // the remapped piece runs to the entry's end or the
                // interval's, whichever is nearer
                let src_end_opt = e.1.checked_add(e.2);
                let reach: usize = match src_end_opt {
                    Some(src_end) => {
                        if hi < src_end - 1 {
                            hi
                        } else {
                            src_end - 1
                        }
                    }
                    None => hi,
                };
                let range_end: usize = if reach < current {
                    current
                } else {
                    reach
                };
                let a = match e.0.checked_add(current - e.1) {
                    Some(v) => v,
                    None => {
                        return false;
                    }
                };
                let b = match e.0.checked_add(range_end - e.1) {
                    Some(v) => v,
                    None => {
                        return false;
                    }
                };
                out.push((a, b));
                proof {
                    assert(next_segs(es, current as int, hi as int) == seq![
                        (a as int, b as int),
                    ] + next_segs(es, range_end as int + 1, hi as int));
                    assert(done_part.push((a as int, b as int)) =~= out@.subrange(
                        base.len() as int,
                        out@.len() as int,
                    ).map_values(|p: (usize, usize)| (p.0 as int, p.1 as int)));
                    assert(done_part + (seq![(a as int, b as int)] + next_segs(
                        es,
                        range_end as int + 1,
                        hi as int,
                    )) =~= done_part.push((a as int, b as int)) + next_segs(
                        es,
                        range_end as int + 1,
                        hi as int,
                    ));
                }
                if range_end == hi {
                    assert(next_segs(es, range_end as int + 1, hi as int) =~= Seq::<
                        (int, int),
                    >::empty());
                    assert(whole =~= out@.subrange(base.len() as int, out@.len() as int).map_values(
                        |p: (usize, usize)| (p.0 as int, p.1 as int),
                    ));
                    finished = true;
                } else {
                    current = range_end + 1;
                }
            }
            None => {
                match min_above_scan(entries, Ghost(es), current) {
                    Some(ms) => {
                        let stop: usize = if ms - 1 < hi {
                            ms - 1
                        } else {
                            hi
                        };
                        let ghost ms3: int = if ms as int > hi as int + 1 {
                            hi as int + 1
                        } else {
                            ms as int
                        };
                        out.push((current, stop));
                        proof {
                            assert(next_segs(es, current as int, hi as int) == seq![
                                (current as int, stop as int),
                            ] + next_segs(es, ms3, hi as int));
                            assert(done_part.push((current as int, stop as int)) =~= out@.subrange(
                                base.len() as int,
                                out@.len() as int,
                            ).map_values(|p: (usize, usize)| (p.0 as int, p.1 as int)));
                            assert(done_part + (seq![(current as int, stop as int)] + next_segs(
                                es,
                                ms3,
                                hi as int,
                            )) =~= done_part.push((current as int, stop as int)) + next_segs(
                                es,
                                ms3,
                                hi as int,
                            ));
                        }
                        if ms > hi {
                            assert(next_segs(es, ms3, hi as int) =~= Seq::<(int, int)>::empty());
                            assert(whole =~= out@.subrange(
                                base.len() as int,
                                out@.len() as int,
                            ).map_values(|p: (usize, usize)| (p.0 as int, p.1 as int)));
                            finished = true;
                        } else {
                            current = ms;
                        }
                    }
                    None => {
                        out.push((current, hi));
                        proof {
                            assert(next_segs(es, current as int, hi as int) == seq![
                                (current as int, hi as int),
                            ]);
                            assert(done_part.push((current as int, hi as int)) =~= out@.subrange(
                                base.len() as int,
                                out@.len() as int,
                            ).map_values(|p: (usize, usize)| (p.0 as int, p.1 as int)));
                            assert(done_part + seq![(current as int, hi as int)] =~= done_part.push(
                                (current as int, hi as int),
                            ));
                        }
                        assert(whole =~= out@.subrange(
                            base.len() as int,
                            out@.len() as int,
                        ).map_values(|p: (usize, usize)| (p.0 as int, p.1 as int)));
                        finished = true;
                    }
                }
            }
        }
    }
    proof {
        if !finished {
            assert(next_segs(es, current as int, hi as int) =~= Seq::<(int, int)>::empty());
            assert(whole =~= out@.subrange(base.len() as int, out@.len() as int).map_values(
                |p: (usize, usize)| (p.0 as int, p.1 as int),
            ));
        }
        assert(whole.len() == out@.len() - base.len());
        assert forall|k: int| 0 <= k < whole.len() implies ((#[trigger] out@[base.len() + k]).0
            as int, out@[base.len() + k].1 as int) == whole[k] by {
            let sub = out@.subrange(base.len() as int, out@.len() as int);
            assert(sub[k] == out@[base.len() + k]);
            assert(sub.map_values(|p: (usize, usize)| (p.0 as int, p.1 as int))[k] == (sub[k].0
                as int, sub[k].1 as int));
            assert(sub.map_values(|p: (usize, usize)| (p.0 as int, p.1 as int))[k] == whole[k]);
        }
    }
    true
}

/// Parses the almanac, reads the seed numbers as ranges, pushes every range
/// through the chain, and returns the smallest location start. Fails with
/// `Malformed` when the input leaves the grammar, pairs unevenly, or leaves
/// no range, and with `Overflow` when a bound leaves `usize`.
pub fn solve(input: &str) -> (r: Result<usize, SolveError>)
    ensures
        !(input_ok(input@) && seeds_fields(input@).len() % 2 == 0) ==> r == Err::<
            usize,
            SolveError,
        >(SolveError::Malformed),
        r matches Ok(n) ==> {
            &&& final_segs(input@).len() > 0
            &&& n == min_start(final_segs(input@), final_segs(input@).len() as int)
        },
        r is Ok || r == Err::<usize, SolveError>(SolveError::Malformed) || r == Err::<
            usize,
            SolveError,
        >(SolveError::Overflow),
{
    let (seeds, maps) = match parse_almanac(input) {
        Some(p) => p,
        None => {
            return Err(SolveError::Malformed);
        }
    };
    if seeds.len() % 2 != 0 {
        return Err(SolveError::Malformed);
    }
    let pairs = seeds.len() / 2;
    assert(2 * (pairs as int) <= seeds@.len());
    assert(seeds@.len() <= usize::MAX) by {
        assert(seeds@.len() == seeds.len());
    }
    let mut segs: Vec<(usize, usize)> = Vec::new();
    let mut i: usize = 0;
    while i < pairs
        invariant
            input_ok(input@),
            seeds@.len() == seeds_fields(input@).len(),
            forall|k: int| 0 <= k < seeds@.len() ==> #[trigger] seeds@[k] as int == seed_at(input@, k),
            seeds@.len() % 2 == 0,
            pairs == seeds@.len() / 2,
            2 * (pairs as int) <= seeds@.len(),
            seeds@.len() <= usize::MAX,
            0 <= i <= pairs,
            segs@.len() == ranges_go(input@, i as int).len(),
            forall|k: int|
                0 <= k < segs@.len() ==> ((#[trigger] segs@[k]).0 as int, segs@[k].1 as int)
                    == ranges_go(input@, i as int)[k],
        decreases pairs - i,
    {
        assert(2 * (i as int) + 1 < seeds@.len());
        let start = seeds[2 * i];
        let size = seeds[2 * i + 1];
        if size >= 1 {
            let end = match start.checked_add(size - 1) {
                Some(v) => v,
                None => {
                    return Err(SolveError::Overflow);
                }
            };
            segs.push((start, end));
            assert(ranges_go(input@, i as int + 1) =~= ranges_go(input@, i as int) + seq![
                (start as int, end as int),
            ]);
        } else {
            assert(ranges_go(input@, i as int + 1) =~= ranges_go(input@, i as int));
        }
        i = i + 1;
    }
    assert(seed_ranges(input@) =~= ranges_go(input@, pairs as int));
    let mut k: usize = 0;
    while k < maps.len()
        invariant
            input_ok(input@),
            seeds_fields(input@).len() % 2 == 0,
            maps@.len() == map_groups(input@).len(),
            forall|m: int|
                0 <= m < maps@.len() ==> (#[trigger] maps@[m])@.len() == group_entries(
                    map_groups(input@)[m],
                    map_groups(input@)[m].len() as int,
                ).len(),
            forall|m: int, i2: int|
                0 <= m < maps@.len() && 0 <= i2 < maps@[m]@.len() ==> ((#[trigger] maps@[m]@[i2]).0
                    as int, maps@[m]@[i2].1 as int, maps@[m]@[i2].2 as int) == group_entries(
                    map_groups(input@)[m],
                    map_groups(input@)[m].len() as int,
                )[i2],
            0 <= k <= maps@.len(),
            segs@.len() == chain_segs(input@, k as int).len(),
            forall|m: int|
                0 <= m < segs@.len() ==> ((#[trigger] segs@[m]).0 as int, segs@[m].1 as int)
                    == chain_segs(input@, k as int)[m],
        decreases maps@.len() - k,
    {
        let ghost es = group_entries(map_groups(input@)[k as int], map_groups(input@)[k as int].len() as int);
        let ghost cur_spec = chain_segs(input@, k as int);
        let mut next: Vec<(usize, usize)> = Vec::new();
        let mut j: usize = 0;
        while j < segs.len()
            invariant
                input_ok(input@),
                seeds_fields(input@).len() % 2 == 0,
                entriesinv(maps@, input@, k as int),
                es == group_entries(
                    map_groups(input@)[k as int],
                    map_groups(input@)[k as int].len() as int,
                ),
                k < maps@.len(),
                maps@.len() == map_groups(input@).len(),
                cur_spec == chain_segs(input@, k as int),
                segs@.len() == cur_spec.len(),
                forall|m: int|
                    0 <= m < segs@.len() ==> ((#[trigger] segs@[m]).0 as int, segs@[m].1 as int)
                        == cur_spec[m],
                0 <= j <= segs@.len(),
                next@.len() == stage_segs(es, cur_spec, j as int).len(),
                forall|m: int|
                    0 <= m < next@.len() ==> ((#[trigger] next@[m]).0 as int, next@[m].1 as int)
                        == stage_segs(es, cur_spec, j as int)[m],
            decreases segs@.len() - j,
        {
            let (lo, hi) = segs[j];
            let ghost before = next@;
            let ok = next_intervals(&maps[k], Ghost(es), lo, hi, &mut next);
            if !ok {
                return Err(SolveError::Overflow);
            }
            assert(stage_segs(es, cur_spec, j as int + 1) == stage_segs(es, cur_spec, j as int)
                + next_segs(es, lo as int, hi as int));
            proof {
                assert forall|m: int|
                    0 <= m < next@.len() implies ((#[trigger] next@[m]).0 as int,
                next@[m].1 as int) == stage_segs(es, cur_spec, j as int + 1)[m] by {
                    if m < before.len() {
                        assert(next@[m] == before[m]);
                    } else {
                        let k2 = m - before.len();
                        assert(((next@[before.len() + k2]).0 as int, next@[before.len()
                            + k2].1 as int) == next_segs(es, lo as int, hi as int)[k2]);
                    }
                }
            }
            j = j + 1;
        }
        segs = next;
        k = k + 1;
    }
    if segs.len() == 0 {
        return Err(SolveError::Malformed);
    }
    let mut best = segs[0].0;
    let mut m: usize = 1;
    while m < segs.len()
        invariant
            input_ok(input@),
            seeds_fields(input@).len() % 2 == 0,
            segs@.len() == final_segs(input@).len(),
            forall|q: int|
                0 <= q < segs@.len() ==> ((#[trigger] segs@[q]).0 as int, segs@[q].1 as int)
                    == final_segs(input@)[q],
            1 <= m <= segs@.len(),
            best as int == min_start(final_segs(input@), m as int),
        decreases segs@.len() - m,
    {
        if segs[m].0 < best {
            best = segs[m].0;
        }
        m = m + 1;
    }
    Ok(best)
}

/// The parsed maps mirror the map blocks of the text.
pub open spec fn entriesinv(maps: Seq<Vec<(usize, usize, usize)>>, s: Seq<char>, k: int) -> bool {
    &&& maps.len() == map_groups(s).len()
    &&& (forall|m: int|
        0 <= m < maps.len() ==> (#[trigger] maps[m])@.len() == group_entries(
            map_groups(s)[m],
            map_groups(s)[m].len() as int,
        ).len())
    &&& (forall|m: int, i2: int|
        0 <= m < maps.len() && 0 <= i2 < maps[m]@.len() ==> ((#[trigger] maps[m]@[i2]).0 as int,
        maps[m]@[i2].1 as int, maps[m]@[i2].2 as int) == group_entries(
            map_groups(s)[m],
            map_groups(s)[m].len() as int,
        )[i2])
}

} // verus!
