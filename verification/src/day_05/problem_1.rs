//! First part: run every seed through the chain of maps and report the
//! smallest location reached.

use vstd::prelude::*;
use crate::day_05::{
    chain_val, group_entries, input_ok, location_of, map_groups, parse_almanac, seed_at,
    seeds_fields, stage_from, stage_val,
};
use crate::text::SolveError;

verus! {

/// The smallest location among the first `k` seeds (at least one).
pub open spec fn min_location(s: Seq<char>, k: int) -> int
    decreases k,
{
    if k <= 1 {
        location_of(s, seed_at(s, 0))
    } else {
        let prev = min_location(s, k - 1);
        let here = location_of(s, seed_at(s, k - 1));
        if here < prev {
            here
        } else {
            prev
        }
    }
}

/// Sends one value through one map; `None` when the remapped value leaves
/// `usize`.
pub fn apply_map(
    entries: &Vec<(usize, usize, usize)>,
    Ghost(es): Ghost<Seq<(int, int, int)>>,
    v: usize,
) -> (r: Option<usize>)
    requires
        entries@.len() == es.len(),
        forall|i: int|
            0 <= i < es.len() ==> ((#[trigger] entries@[i]).0 as int, entries@[i].1 as int,
            entries@[i].2 as int) == es[i],
    ensures
        r matches Some(u) ==> u == stage_val(es, v as int),
{
    let mut i: usize = 0;
    while i < entries.len()
        invariant
            entries@.len() == es.len(),
            forall|k: int|
                0 <= k < es.len() ==> ((#[trigger] entries@[k]).0 as int, entries@[k].1 as int,
                entries@[k].2 as int) == es[k],
            0 <= i <= es.len(),
            stage_val(es, v as int) == stage_from(es, i as int, v as int),
        decreases es.len() - i,
    {
        let e = entries[i];
        if v >= e.1 && v - e.1 < e.2 {
            let off = v - e.1;
            return match e.0.checked_add(off) {
                Some(u) => Some(u),
                None => None,
            };
        }
        i = i + 1;
    }
    Some(v)
}

/// Sends one value through the whole chain; `None` when an intermediate
/// value leaves `usize`.
pub fn chase(maps: &Vec<Vec<(usize, usize, usize)>>, Ghost(s): Ghost<Seq<char>>, seed: usize) -> (r:
    Option<usize>)
    requires
        maps@.len() == map_groups(s).len(),
        forall|k: int|
            0 <= k < maps@.len() ==> (#[trigger] maps@[k])@.len() == group_entries(
                map_groups(s)[k],
                map_groups(s)[k].len() as int,
            ).len(),
        forall|k: int, i: int|
            0 <= k < maps@.len() && 0 <= i < maps@[k]@.len() ==> ((#[trigger] maps@[k]@[i]).0
                as int, maps@[k]@[i].1 as int, maps@[k]@[i].2 as int) == group_entries(
                map_groups(s)[k],
                map_groups(s)[k].len() as int,
            )[i],
    ensures
        r matches Some(u) ==> u == location_of(s, seed as int),
{
    let mut v = seed;
    let mut k: usize = 0;
    while k < maps.len()
        invariant
            maps@.len() == map_groups(s).len(),
            forall|m: int|
                0 <= m < maps@.len() ==> (#[trigger] maps@[m])@.len() == group_entries(
                    map_groups(s)[m],
                    map_groups(s)[m].len() as int,
                ).len(),
            forall|m: int, i: int|
                0 <= m < maps@.len() && 0 <= i < maps@[m]@.len() ==> ((#[trigger] maps@[m]@[i]).0
                    as int, maps@[m]@[i].1 as int, maps@[m]@[i].2 as int) == group_entries(
                    map_groups(s)[m],
                    map_groups(s)[m].len() as int,
                )[i],
            0 <= k <= maps@.len(),
            v as int == chain_val(s, seed as int, k as int),
        decreases maps@.len() - k,
    {
        let ghost es = group_entries(map_groups(s)[k as int], map_groups(s)[k as int].len() as int);
        v = match apply_map(&maps[k], Ghost(es), v) {
            Some(u) => u,
            None => {
                return None;
            }
        };
        k = k + 1;
    }
    Some(v)
}

/// Parses the almanac, follows every seed through the chain, and returns the
/// smallest location. Fails with `Malformed` exactly when the input leaves
/// the grammar or lists no seed, and with `Overflow` when a remapped value
/// leaves `usize`.
pub fn solve(input: &str) -> (r: Result<usize, SolveError>)
    ensures
        r == Err::<usize, SolveError>(SolveError::Malformed) <==> !(input_ok(input@)
            && seeds_fields(input@).len() > 0),
        r matches Ok(n) ==> n == min_location(input@, seeds_fields(input@).len() as int),
        r is Ok || r == Err::<usize, SolveError>(SolveError::Malformed) || r == Err::<
            usize,
            SolveError,
        >(SolveError::Overflow),
{
    let (seeds, maps) = match parse_almanac(input) {
        Some(p) => p,
        None => {
            return Err(SolveError::Malformed);
        }
    };
    if seeds.len() == 0 {
        return Err(SolveError::Malformed);
    }
    let mut best: usize = match chase(&maps, Ghost(input@), seeds[0]) {
        Some(u) => u,
        None => {
            return Err(SolveError::Overflow);
        }
    };
    let mut k: usize = 1;
    while k < seeds.len()
        invariant
            input_ok(input@),
            seeds@.len() == seeds_fields(input@).len(),
            forall|i: int| 0 <= i < seeds@.len() ==> #[trigger] seeds@[i] as int == seed_at(input@, i),
            maps@.len() == map_groups(input@).len(),
            forall|m: int|
                0 <= m < maps@.len() ==> (#[trigger] maps@[m])@.len() == group_entries(
                    map_groups(input@)[m],
                    map_groups(input@)[m].len() as int,
                ).len(),
            forall|m: int, i: int|
                0 <= m < maps@.len() && 0 <= i < maps@[m]@.len() ==> ((#[trigger] maps@[m]@[i]).0
                    as int, maps@[m]@[i].1 as int, maps@[m]@[i].2 as int) == group_entries(
                    map_groups(input@)[m],
                    map_groups(input@)[m].len() as int,
                )[i],
            1 <= k <= seeds@.len(),
            best as int == min_location(input@, k as int),
        decreases seeds@.len() - k,
    {
        let loc = match chase(&maps, Ghost(input@), seeds[k]) {
            Some(u) => u,
            None => {
                return Err(SolveError::Overflow);
            }
        };
        if loc < best {
            best = loc;
        }
        k = k + 1;
    }
    Ok(best)
}

} // verus!
