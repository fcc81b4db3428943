//! Second part: the fewest cubes each game needs is the per-colour maximum
//! over its rounds; sum the products of the three.

use vstd::prelude::*;
use crate::day_02::{game_ok, game_rounds, parse_game, round_vals};
use crate::text::{chars_vec, spec_lines, split_lines, SolveError};

verus! {

/// The per-colour maxima over the first `k` rounds.
pub open spec fn max_vals(line: Seq<char>, k: int) -> (int, int, int)
    decreases k,
{
    if k <= 0 {
        (0, 0, 0)
    } else {
        let prev = max_vals(line, k - 1);
        let v = round_vals(game_rounds(line)[k - 1]);
        (
            if v.0 > prev.0 {
                v.0
            } else {
                prev.0
            },
            if v.1 > prev.1 {
                v.1
            } else {
                prev.1
            },
            if v.2 > prev.2 {
                v.2
            } else {
                prev.2
            },
        )
    }
}

/// The power of a game: the product of the fewest workable cube counts.
pub open spec fn game_power(line: Seq<char>) -> int {
    let m = max_vals(line, game_rounds(line).len() as int);
    m.0 * m.1 * m.2
}

pub open spec fn input_ok(s: Seq<char>) -> bool {
    forall|i: int| 0 <= i < spec_lines(s).len() ==> game_ok(#[trigger] spec_lines(s)[i])
}

/// The power sum of the first `k` games.
pub open spec fn power_sum(s: Seq<char>, k: int) -> int
    decreases k,
{
    if k <= 0 {
        0
    } else {
        power_sum(s, k - 1) + game_power(spec_lines(s)[k - 1])
    }
}

pub open spec fn spec_total(s: Seq<char>) -> int {
    power_sum(s, spec_lines(s).len() as int)
}

proof fn lemma_max_vals_nonneg(line: Seq<char>, k: int)
    ensures
        max_vals(line, k).0 >= 0,
        max_vals(line, k).1 >= 0,
        max_vals(line, k).2 >= 0,
    decreases k,
{
    if k > 0 {
        lemma_max_vals_nonneg(line, k - 1);
    }
}

proof fn lemma_power_nonneg(line: Seq<char>)
    ensures
        game_power(line) >= 0,
{
    let m = max_vals(line, game_rounds(line).len() as int);
    lemma_max_vals_nonneg(line, game_rounds(line).len() as int);
    assert(m.0 * m.1 * m.2 >= 0) by (nonlinear_arith)
        requires
            m.0 >= 0,
            m.1 >= 0,
            m.2 >= 0,
    ;
}

proof fn lemma_power_sum_bounds(s: Seq<char>, k: int)
    ensures
        forall|m: int| 0 <= m <= k ==> power_sum(s, m) <= power_sum(s, k),
        power_sum(s, k) >= 0,
    decreases k,
{
    if k > 0 {
        lemma_power_sum_bounds(s, k - 1);
        lemma_power_nonneg(spec_lines(s)[k - 1]);
    }
}

/// Parses every game and sums the products of its per-colour maxima. Fails
/// with `Malformed` exactly when a line leaves the game grammar, and with
/// `Overflow` exactly when the power sum leaves `usize`.
pub fn solve(input: &str) -> (r: Result<usize, SolveError>)
    ensures
        r is Ok <==> (input_ok(input@) && spec_total(input@) <= usize::MAX),
        r matches Ok(n) ==> n == spec_total(input@),
        !input_ok(input@) ==> r == Err::<usize, SolveError>(SolveError::Malformed),
        input_ok(input@) && spec_total(input@) > usize::MAX ==> r == Err::<usize, SolveError>(
            SolveError::Overflow,
        ),
{
    let cs = chars_vec(input);
    let lines = split_lines(&cs);
    let ghost n = spec_lines(input@).len() as int;
    let mut games: Vec<Vec<(usize, usize, usize)>> = Vec::new();
    let mut k: usize = 0;
    while k < lines.len()
        invariant
            n == spec_lines(input@).len(),
            lines@.len() == n,
            forall|m: int| 0 <= m < n ==> lines@[m]@ == spec_lines(input@)[m],
            0 <= k <= n,
            forall|m: int| 0 <= m < k ==> game_ok(#[trigger] spec_lines(input@)[m]),
            games@.len() == k,
            forall|m: int|
                0 <= m < k ==> {
                    let g = #[trigger] games@[m];
                    &&& g@.len() == game_rounds(spec_lines(input@)[m]).len()
                    &&& forall|j: int|
                        0 <= j < g@.len() ==> ((#[trigger] g@[j]).0 as int, g@[j].1 as int,
                        g@[j].2 as int) == round_vals(game_rounds(spec_lines(input@)[m])[j])
                },
        decreases n - k,
    {
        match parse_game(&lines[k]) {
            Some(g) => {
                games.push(g.1);
            }
            None => {
                assert(!game_ok(spec_lines(input@)[k as int]));
                return Err(SolveError::Malformed);
            }
        }
        k = k + 1;
    }
    assert(input_ok(input@));
    proof {
        lemma_power_sum_bounds(input@, n);
    }
    let mut total: usize = 0;
    let mut g: usize = 0;
    while g < games.len()
        invariant
            input_ok(input@),
            n == spec_lines(input@).len(),
            games@.len() == n,
            forall|m: int| 0 <= m <= n ==> power_sum(input@, m) <= power_sum(input@, n),
            power_sum(input@, n) >= 0,
            forall|m: int|
                0 <= m < n ==> {
                    let gm = #[trigger] games@[m];
                    &&& gm@.len() == game_rounds(spec_lines(input@)[m]).len()
                    &&& forall|j: int|
                        0 <= j < gm@.len() ==> ((#[trigger] gm@[j]).0 as int, gm@[j].1 as int,
                        gm@[j].2 as int) == round_vals(game_rounds(spec_lines(input@)[m])[j])
                },
            0 <= g <= n,
            total == power_sum(input@, g as int),
        decreases n - g,
    {
        let ghost line = spec_lines(input@)[g as int];
        let rounds: &Vec<(usize, usize, usize)> = &games[g];
        let mut mr: usize = 0;
        let mut mg: usize = 0;
        let mut mb: usize = 0;
        let mut j: usize = 0;
        while j < rounds.len()
            invariant
                line == spec_lines(input@)[g as int],
                0 <= g < n,
                n == spec_lines(input@).len(),
                rounds@.len() == game_rounds(line).len(),
                forall|m: int|
                    0 <= m < rounds@.len() ==> ((#[trigger] rounds@[m]).0 as int,
                    rounds@[m].1 as int, rounds@[m].2 as int) == round_vals(
                        game_rounds(line)[m],
                    ),
                0 <= j <= rounds@.len(),
                (mr as int, mg as int, mb as int) == max_vals(line, j as int),
            decreases rounds@.len() - j,
        {
            let rv = rounds[j];
            if rv.0 > mr {
                mr = rv.0;
            }
            if rv.1 > mg {
                mg = rv.1;
            }
            if rv.2 > mb {
                mb = rv.2;
            }
            j = j + 1;
        }
        // multiply with a zero short-circuit: a zero factor makes the power
        // zero whatever the others hold
        let power: usize = if mr == 0 || mg == 0 || mb == 0 {
            proof {
                let m = max_vals(line, game_rounds(line).len() as int);
                assert(m.0 * m.1 * m.2 == 0) by (nonlinear_arith)
                    requires
                        m.0 == 0 || m.1 == 0 || m.2 == 0,
                ;
            }
            0
        } else {
            let first = match mr.checked_mul(mg) {
                Some(v) => v,
                None => {
                    proof {
                        lemma_power_gt(line, mr as int, mg as int, mb as int);
                        assert(power_sum(input@, g as int + 1) > usize::MAX);
                    }
                    return Err(SolveError::Overflow);
                }
            };
            match first.checked_mul(mb) {
                Some(v) => v,
                None => {
                    proof {
                        lemma_power_gt(line, mr as int, mg as int, mb as int);
                        assert(power_sum(input@, g as int + 1) > usize::MAX);
                    }
                    return Err(SolveError::Overflow);
                }
            }
        };
        assert(power as int == game_power(line));
        total = match total.checked_add(power) {
            Some(v) => v,
            None => {
                assert(power_sum(input@, g as int + 1) > usize::MAX);
                return Err(SolveError::Overflow);
            }
        };
        g = g + 1;
    }
    Ok(total)
}

/// A partial product of positive maxima never exceeds the full power.
proof fn lemma_power_gt(line: Seq<char>, mr: int, mg: int, mb: int)
    requires
        (mr, mg, mb) == max_vals(line, game_rounds(line).len() as int),
        mr >= 1,
        mg >= 1,
        mb >= 1,
    ensures
        mr * mg <= game_power(line),
        mr * mg * mb == game_power(line),
{
    assert(mr * mg <= mr * mg * mb) by (nonlinear_arith)
        requires
            mr >= 1,
            mg >= 1,
            mb >= 1,
    ;
}

} // verus!
