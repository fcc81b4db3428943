//! First part: sum the identifiers of the games a bag of 12 red, 13 green
//! and 14 blue cubes could show.

use vstd::prelude::*;
use crate::day_02::{game_id, game_ok, game_rounds, parse_game, round_vals};
use crate::text::{chars_vec, spec_lines, split_lines, SolveError};

verus! {

pub const COUNT_RED: usize = 12;

pub const COUNT_GREEN: usize = 13;

pub const COUNT_BLUE: usize = 14;

/// Whether every round stays within the bag.
pub open spec fn game_possible(line: Seq<char>) -> bool {
    forall|k: int|
        0 <= k < game_rounds(line).len() ==> {
            let v = round_vals(#[trigger] game_rounds(line)[k]);
            v.0 <= COUNT_RED && v.1 <= COUNT_GREEN && v.2 <= COUNT_BLUE
        }
}

pub open spec fn input_ok(s: Seq<char>) -> bool {
    forall|i: int| 0 <= i < spec_lines(s).len() ==> game_ok(#[trigger] spec_lines(s)[i])
}

/// The identifier sum of the possible games among the first `k` lines.
pub open spec fn id_sum(s: Seq<char>, k: int) -> int
    decreases k,
{
    if k <= 0 {
        0
    } else {
        id_sum(s, k - 1) + if game_possible(spec_lines(s)[k - 1]) {
            game_id(spec_lines(s)[k - 1])
        } else {
            0
        }
    }
}

pub open spec fn spec_total(s: Seq<char>) -> int {
    id_sum(s, spec_lines(s).len() as int)
}

proof fn lemma_id_sum_bounds(s: Seq<char>, k: int)
    requires
        forall|i: int| 0 <= i < k ==> game_ok(#[trigger] spec_lines(s)[i]),
    ensures
        forall|m: int| 0 <= m <= k ==> id_sum(s, m) <= id_sum(s, k),
        id_sum(s, k) >= 0,
    decreases k,
{
    if k > 0 {
        lemma_id_sum_bounds(s, k - 1);
        if game_possible(spec_lines(s)[k - 1]) {
            crate::text::lemma_num_val_nonneg(crate::day_02::game_id_text(spec_lines(s)[k - 1]));
        }
    }
}

/// Parses every game and sums the identifiers of those the bag allows.
/// Fails with `Malformed` exactly when a line leaves the game grammar, and
/// with `Overflow` exactly when the identifier sum leaves `usize`.
pub fn solve(input: &str) -> (r: Result<usize, SolveError>)
    ensures
        r is Ok <==> (input_ok(input@) && spec_total(input@) <= usize::MAX),
        r matches Ok(n) ==> n == spec_total(input@),
        !input_ok(input@) ==> r == Err::<usize, SolveError>(SolveError::Malformed),
        input_ok(input@) && spec_total(input@) > usize::MAX ==> r == Err::<usize, SolveError>(
            SolveError::Overflow,
        ),
{
    let cs = chars_vec(input);
    let lines = split_lines(&cs);
    let ghost n = spec_lines(input@).len() as int;
    let mut games: Vec<(usize, Vec<(usize, usize, usize)>)> = Vec::new();
    let mut k: usize = 0;
    while k < lines.len()
        invariant
            n == spec_lines(input@).len(),
            lines@.len() == n,
            forall|m: int| 0 <= m < n ==> lines@[m]@ == spec_lines(input@)[m],
            0 <= k <= n,
            forall|m: int| 0 <= m < k ==> game_ok(#[trigger] spec_lines(input@)[m]),
            games@.len() == k,
            forall|m: int|
                0 <= m < k ==> {
                    let g = #[trigger] games@[m];
                    &&& g.0 as int == game_id(spec_lines(input@)[m])
                    &&& g.1@.len() == game_rounds(spec_lines(input@)[m]).len()
                    &&& forall|j: int|
                        0 <= j < g.1@.len() ==> ((#[trigger] g.1@[j]).0 as int, g.1@[j].1 as int,
                        g.1@[j].2 as int) == round_vals(game_rounds(spec_lines(input@)[m])[j])
                },
        decreases n - k,
    {
        match parse_game(&lines[k]) {
            Some(g) => {
                games.push(g);
            }
            None => {
                assert(!game_ok(spec_lines(input@)[k as int]));
                return Err(SolveError::Malformed);
            }
        }
        k = k + 1;
    }
    assert(input_ok(input@));
    proof {
        lemma_id_sum_bounds(input@, n);
    }
    let mut total: usize = 0;
    let mut g: usize = 0;
    while g < games.len()
        invariant
            input_ok(input@),
            n == spec_lines(input@).len(),
            games@.len() == n,
            forall|m: int| 0 <= m <= n ==> id_sum(input@, m) <= id_sum(input@, n),
            id_sum(input@, n) >= 0,
            forall|m: int|
                0 <= m < n ==> {
                    let gm = #[trigger] games@[m];
                    &&& gm.0 as int == game_id(spec_lines(input@)[m])
                    &&& gm.1@.len() == game_rounds(spec_lines(input@)[m]).len()
                    &&& forall|j: int|
                        0 <= j < gm.1@.len() ==> ((#[trigger] gm.1@[j]).0 as int, gm.1@[j].1 as int,
                        gm.1@[j].2 as int) == round_vals(game_rounds(spec_lines(input@)[m])[j])
                },
            0 <= g <= n,
            total == id_sum(input@, g as int),
        decreases n - g,
    {
        let game: &(usize, Vec<(usize, usize, usize)>) = &games[g];
        let rounds: &Vec<(usize, usize, usize)> = &game.1;
        let mut possible = true;
        let mut j: usize = 0;
        while j < rounds.len()
            invariant
                input_ok(input@),
                n == spec_lines(input@).len(),
                0 <= g < n,
                rounds@.len() == game_rounds(spec_lines(input@)[g as int]).len(),
                forall|m: int|
                    0 <= m < rounds@.len() ==> ((#[trigger] rounds@[m]).0 as int,
                    rounds@[m].1 as int, rounds@[m].2 as int) == round_vals(
                        game_rounds(spec_lines(input@)[g as int])[m],
                    ),
                0 <= j <= rounds@.len(),
                possible == forall|m: int|
                    0 <= m < j ==> {
                        let v = round_vals(#[trigger] game_rounds(spec_lines(input@)[g as int])[m]);
                        v.0 <= COUNT_RED && v.1 <= COUNT_GREEN && v.2 <= COUNT_BLUE
                    },
            decreases rounds@.len() - j,
        {
            let rv = rounds[j];
            if rv.0 > COUNT_RED || rv.1 > COUNT_GREEN || rv.2 > COUNT_BLUE {
                possible = false;
            }
            j = j + 1;
        }
        assert(possible == game_possible(spec_lines(input@)[g as int]));
        if possible {
            total = match total.checked_add(game.0) {
                Some(v) => v,
                None => {
                    assert(id_sum(input@, g as int + 1) > usize::MAX);
                    return Err(SolveError::Overflow);
                }
            };
        }
        g = g + 1;
    }
    Ok(total)
}

} // verus!
