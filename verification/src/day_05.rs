//! Seed almanac: a seed list and a chain of maps, each remapping a number
//! range onto another; follow every seed (or seed range) through the chain.

pub mod problem_1;
pub mod problem_2;

use vstd::prelude::*;
use crate::text::{
    char_index, contains_char, num_val, parse_usize, spec_fields, spec_lines, split_fields,
    split_lines, split_once_char, usize_digits,
};

verus! {

/// Consecutive non-empty lines grouped into blocks; empty lines separate
/// them, and the last block may be empty.
pub open spec fn groups_go(ls: Seq<Seq<char>>, cur: Seq<Seq<char>>) -> Seq<Seq<Seq<char>>>
    decreases ls.len(),
{
    if ls.len() == 0 {
        seq![cur]
    } else if ls[0].len() == 0 {
        seq![cur] + groups_go(ls.drop_first(), Seq::empty())
    } else {
        groups_go(ls.drop_first(), cur.push(ls[0]))
    }
}

/// The lines after the seed line and its blank separator.
pub open spec fn tail_lines(s: Seq<char>) -> Seq<Seq<char>> {
    if spec_lines(s).len() >= 2 {
        spec_lines(s).skip(2)
    } else {
        Seq::empty()
    }
}

/// The map blocks: everything from the third line on, split on empty lines.
pub open spec fn map_groups(s: Seq<char>) -> Seq<Seq<Seq<char>>> {
    groups_go(tail_lines(s), Seq::empty())
}

/// A remap line: destination start, source start, and range size.
pub open spec fn entry_ok(line: Seq<char>) -> bool {
    &&& spec_fields(line).len() == 3
    &&& usize_digits(spec_fields(line)[0])
    &&& usize_digits(spec_fields(line)[1])
    &&& usize_digits(spec_fields(line)[2])
}

pub open spec fn entry_of(line: Seq<char>) -> (int, int, int) {
    (num_val(spec_fields(line)[0]), num_val(spec_fields(line)[1]), num_val(spec_fields(line)[2]))
}

/// Whether every line of a block is a header or a remap line.
pub open spec fn group_ok(g: Seq<Seq<char>>) -> bool {
    forall|i: int|
        0 <= i < g.len() ==> (contains_char(#[trigger] g[i], ':') || entry_ok(g[i]))
}

/// The remap entries of a block, headers dropped.
pub open spec fn group_entries(g: Seq<Seq<char>>, upto: int) -> Seq<(int, int, int)>
    decreases upto,
{
    if upto <= 0 {
        Seq::empty()
    } else {
        group_entries(g, upto - 1) + if contains_char(g[upto - 1], ':') {
            Seq::empty()
        } else {
            seq![entry_of(g[upto - 1])]
        }
    }
}

/// The seed numbers on the first line, after its colon.
pub open spec fn seeds_fields(s: Seq<char>) -> Seq<Seq<char>> {
    spec_fields(spec_lines(s)[0].skip(char_index(spec_lines(s)[0], ':') + 1))
}

pub open spec fn seeds_ok(s: Seq<char>) -> bool {
    &&& spec_lines(s).len() >= 1
    &&& contains_char(spec_lines(s)[0], ':')
    &&& forall|i: int|
        0 <= i < seeds_fields(s).len() ==> usize_digits(#[trigger] seeds_fields(s)[i])
}

pub open spec fn seed_at(s: Seq<char>, i: int) -> int {
    num_val(seeds_fields(s)[i])
}

/// The whole almanac grammar: a seed line, an empty line after it, and map
/// blocks of headers and remap lines.
pub open spec fn input_ok(s: Seq<char>) -> bool {
    &&& seeds_ok(s)
    &&& (spec_lines(s).len() >= 2 ==> spec_lines(s)[1].len() == 0)
    &&& forall|k: int| 0 <= k < map_groups(s).len() ==> group_ok(#[trigger] map_groups(s)[k])
}

/// Where one map sends a value: the first entry whose source range holds it
/// decides; without one the value passes through.
pub open spec fn stage_from(entries: Seq<(int, int, int)>, i: int, v: int) -> int
    decreases entries.len() - i,
{
    if i < 0 || i >= entries.len() {
        v
    } else {
        let e = entries[i];
        if e.1 <= v < e.1 + e.2 {
            e.0 + (v - e.1)
        } else {
            stage_from(entries, i + 1, v)
        }
    }
}

pub open spec fn stage_val(entries: Seq<(int, int, int)>, v: int) -> int {
    stage_from(entries, 0, v)
}

/// A value after the first `k` maps of the chain.
pub open spec fn chain_val(s: Seq<char>, v: int, k: int) -> int
    decreases k,
{
    if k <= 0 {
        v
    } else {
        stage_val(
            group_entries(map_groups(s)[k - 1], map_groups(s)[k - 1].len() as int),
            chain_val(s, v, k - 1),
        )
    }
}

/// A seed's final location.
pub open spec fn location_of(s: Seq<char>, seed: int) -> int {
    chain_val(s, seed, map_groups(s).len() as int)
}

/// A fresh vector with the same characters.
pub fn copy_chars(v: &Vec<char>) -> (r: Vec<char>)
    ensures
        r@ == v@,
{
    let mut out: Vec<char> = Vec::new();
    let mut i: usize = 0;
    while i < v.len()
        invariant
            0 <= i <= v@.len(),
            out@ == v@.take(i as int),
        decreases v@.len() - i,
    {
        out.push(v[i]);
        assert(out@ =~= v@.take(i as int + 1));
        i = i + 1;
    }
    assert(out@ =~= v@);
    out
}

/// Reads the remap entries of one block of lines; `None` exactly when a
/// non-header line is not three numbers.
pub fn parse_group(group: &Vec<Vec<char>>, Ghost(gs): Ghost<Seq<Seq<char>>>) -> (r: Option<
    Vec<(usize, usize, usize)>,
>)
    requires
        group@.len() == gs.len(),
        forall|i: int| 0 <= i < gs.len() ==> group@[i]@ == gs[i],
    ensures
        r is Some <==> group_ok(gs),
        r matches Some(v) ==> {
            &&& v@.len() == group_entries(gs, gs.len() as int).len()
            &&& forall|i: int|
                0 <= i < v@.len() ==> ((#[trigger] v@[i]).0 as int, v@[i].1 as int,
                v@[i].2 as int) == group_entries(gs, gs.len() as int)[i]
        },
{
    let mut out: Vec<(usize, usize, usize)> = Vec::new();
    let mut i: usize = 0;
    while i < group.len()
        invariant
            group@.len() == gs.len(),
            forall|k: int| 0 <= k < gs.len() ==> group@[k]@ == gs[k],
            0 <= i <= gs.len(),
            forall|k: int| 0 <= k < i ==> (contains_char(#[trigger] gs[k], ':') || entry_ok(gs[k])),
            out@.len() == group_entries(gs, i as int).len(),
            forall|k: int|
                0 <= k < out@.len() ==> ((#[trigger] out@[k]).0 as int, out@[k].1 as int,
                out@[k].2 as int) == group_entries(gs, i as int)[k],
        decreases gs.len() - i,
    {
        let line: &Vec<char> = &group[i];
        let mut has_colon = false;
        let mut j: usize = 0;
        while j < line.len()
            invariant
                line@ == gs[i as int],
                0 <= j <= line@.len(),
                has_colon == exists|m: int| 0 <= m < j && line@[m] == ':',
            decreases line@.len() - j,
        {
            if line[j] == ':' {
                has_colon = true;
            }
            j = j + 1;
        }
        assert(has_colon == contains_char(gs[i as int], ':'));
        if !has_colon {
            let fields = split_fields(line);
            if fields.len() != 3 {
                assert(!entry_ok(gs[i as int]));
                return None;
            }
            let dest = match parse_usize(&fields[0]) {
                Some(v) => v,
                None => {
                    assert(!entry_ok(gs[i as int]));
                    return None;
                }
            };
            let src = match parse_usize(&fields[1]) {
                Some(v) => v,
                None => {
                    assert(!entry_ok(gs[i as int]));
                    return None;
                }
            };
            let size = match parse_usize(&fields[2]) {
                Some(v) => v,
                None => {
                    assert(!entry_ok(gs[i as int]));
                    return None;
                }
            };
            out.push((dest, src, size));
            assert(group_entries(gs, i as int + 1) =~= group_entries(gs, i as int) + seq![
                entry_of(gs[i as int]),
            ]);
        } else {
            assert(group_entries(gs, i as int + 1) =~= group_entries(gs, i as int));
        }
        i = i + 1;
    }
    Some(out)
}

/// Reads the whole almanac: the seed numbers and the chain of maps. `None`
/// exactly when the input leaves the almanac grammar.
pub fn parse_almanac(input: &str) -> (r: Option<(Vec<usize>, Vec<Vec<(usize, usize, usize)>>)>)
    ensures
        r is Some <==> input_ok(input@),
        r matches Some(p) ==> {
            &&& p.0@.len() == seeds_fields(input@).len()
            &&& (forall|i: int|
                0 <= i < p.0@.len() ==> #[trigger] p.0@[i] as int == seed_at(input@, i))
            &&& p.1@.len() == map_groups(input@).len()
            &&& (forall|k: int|
                0 <= k < p.1@.len() ==> (#[trigger] p.1@[k])@.len() == group_entries(
                    map_groups(input@)[k],
                    map_groups(input@)[k].len() as int,
                ).len())
            &&& (forall|k: int, i: int|
                0 <= k < p.1@.len() && 0 <= i < p.1@[k]@.len() ==> ((#[trigger] p.1@[k]@[i]).0
                    as int, p.1@[k]@[i].1 as int, p.1@[k]@[i].2 as int) == group_entries(
                    map_groups(input@)[k],
                    map_groups(input@)[k].len() as int,
                )[i])
        },
{
    let cs = crate::text::chars_vec(input);
    let lines = split_lines(&cs);
    let ghost ls = spec_lines(input@);
    if lines.len() == 0 {
        return None;
    }
    let (_, seeds_text) = match split_once_char(&lines[0], ':') {
        Some(p) => p,
        None => {
            return None;
        }
    };
    let seed_fields = split_fields(&seeds_text);
    let mut seeds: Vec<usize> = Vec::new();
    let mut i: usize = 0;
    while i < seed_fields.len()
        invariant
            ls == spec_lines(input@),
            ls.len() >= 1,
            contains_char(ls[0], ':'),
            seed_fields@.len() == seeds_fields(input@).len(),
            forall|k: int|
                0 <= k < seed_fields@.len() ==> seed_fields@[k]@ == seeds_fields(input@)[k],
            0 <= i <= seed_fields@.len(),
            seeds@.len() == i,
            forall|k: int| 0 <= k < i ==> #[trigger] seeds@[k] as int == seed_at(input@, k),
            forall|k: int| 0 <= k < i ==> usize_digits(#[trigger] seeds_fields(input@)[k]),
        decreases seed_fields@.len() - i,
    {
        match parse_usize(&seed_fields[i]) {
            Some(v) => {
                seeds.push(v);
            }
            None => {
                assert(!usize_digits(seeds_fields(input@)[i as int]));
                return None;
            }
        }
        i = i + 1;
    }
    assert(seeds_ok(input@));
    if lines.len() >= 2 && lines[1].len() > 0 {
        return None;
    }
    // group the remaining lines on the empty ones
    let mut maps: Vec<Vec<(usize, usize, usize)>> = Vec::new();
    let ghost mut done: Seq<Seq<Seq<char>>> = Seq::empty();
    let mut cur: Vec<Vec<char>> = Vec::new();
    let ghost mut curs: Seq<Seq<char>> = Seq::empty();
    let mut li: usize = 2;
    if lines.len() < 2 {
        assert(map_groups(input@) =~= seq![Seq::<Seq<char>>::empty()]);
        let empty_group: Vec<Vec<char>> = Vec::new();
        let parsed = match parse_group(&empty_group, Ghost(Seq::empty())) {
            Some(v) => v,
            None => {
                assert(false);
                return None;
            }
        };
        maps.push(parsed);
        assert(input_ok(input@));
        return Some((seeds, maps));
    }
    assert(tail_lines(input@) =~= ls.skip(2));
    assert(ls.skip(2).skip(0) =~= ls.skip(2));
    assert(Seq::<Seq<Seq<char>>>::empty() + groups_go(ls.skip(2), Seq::empty()) =~= groups_go(
        ls.skip(2),
        Seq::empty(),
    ));
    while li < lines.len()
        invariant
            ls == spec_lines(input@),
            lines@.len() == ls.len(),
            ls.len() >= 2,
            forall|k: int| 0 <= k < ls.len() ==> lines@[k]@ == ls[k],
            2 <= li <= ls.len(),
            cur@.len() == curs.len(),
            forall|k: int| 0 <= k < curs.len() ==> cur@[k]@ == curs[k],
            map_groups(input@) == done + groups_go(ls.skip(2).skip(li - 2), curs),
            maps@.len() == done.len(),
            forall|k: int| 0 <= k < done.len() ==> group_ok(#[trigger] done[k]),
            forall|k: int|
                0 <= k < done.len() ==> (#[trigger] maps@[k])@.len() == group_entries(
                    done[k],
                    done[k].len() as int,
                ).len(),
            forall|k: int, i2: int|
                0 <= k < done.len() && 0 <= i2 < maps@[k]@.len() ==> ((#[trigger] maps@[k]@[i2]).0
                    as int, maps@[k]@[i2].1 as int, maps@[k]@[i2].2 as int) == group_entries(
                    done[k],
                    done[k].len() as int,
                )[i2],
        decreases ls.len() - li,
    {
        let line: &Vec<char> = &lines[li];
        assert(ls.skip(2).skip(li - 2)[0] == ls[li as int]);
        assert(ls.skip(2).skip(li - 2).drop_first() =~= ls.skip(2).skip(li - 2 + 1));
        if line.len() == 0 {
            let ghost done0 = done;
            let ghost curs0 = curs;
            let parsed = match parse_group(&cur, Ghost(curs)) {
                Some(v) => v,
                None => {
                    assert(!group_ok(curs));
                    assert(map_groups(input@)[done.len() as int] == curs);
                    return None;
                }
            };
            maps.push(parsed);
            proof {
                done = done.push(curs);
                curs = Seq::empty();
            }
            cur = Vec::new();
            assert(done0 + (seq![curs0] + groups_go(ls.skip(2).skip(li - 2 + 1), Seq::empty()))
                =~= done + groups_go(ls.skip(2).skip(li - 2 + 1), Seq::empty()));
        } else {
            cur.push(copy_chars(line));
            proof {
                curs = curs.push(ls[li as int]);
            }
        }
        li = li + 1;
    }
    assert(ls.skip(2).skip(li - 2) =~= Seq::<Seq<char>>::empty());
    let ghost done0 = done;
    let ghost curs0 = curs;
    let parsed = match parse_group(&cur, Ghost(curs)) {
        Some(v) => v,
        None => {
            assert(map_groups(input@)[done.len() as int] == curs);
            return None;
        }
    };
    maps.push(parsed);
    proof {
        done = done.push(curs);
    }
    assert(map_groups(input@) =~= done);
    assert(input_ok(input@)) by {
        assert(forall|k: int|
            0 <= k < map_groups(input@).len() ==> group_ok(#[trigger] map_groups(input@)[k]));
    }
    Some((seeds, maps))
}

} // verus!
