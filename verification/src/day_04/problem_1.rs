//! First part: a card with `m` matches scores `2^(m-1)` points; sum the
//! scores.

use vstd::prelude::*;
use crate::day_04::{card_matches, card_mine, card_ok, card_winning, count_matches, parse_card};
use crate::text::{chars_vec, spec_lines, split_lines, SolveError};

verus! {

pub open spec fn pow2(n: nat) -> nat
    decreases n,
{
    if n == 0 {
        1
    } else {
        2 * pow2((n - 1) as nat)
    }
}

/// A card's score: double for every match past the first.
pub open spec fn card_score(line: Seq<char>) -> nat {
    if card_matches(line) > 0 {
        pow2((card_matches(line) - 1) as nat)
    } else {
        0
    }
}

/// Whether every line follows the card grammar.
pub open spec fn input_ok(s: Seq<char>) -> bool {
    forall|i: int| 0 <= i < spec_lines(s).len() ==> card_ok(#[trigger] spec_lines(s)[i])
}

/// The score sum of the first `k` cards.
pub open spec fn score_sum(s: Seq<char>, k: int) -> int
    decreases k,
{
    if k <= 0 {
        0
    } else {
        score_sum(s, k - 1) + card_score(spec_lines(s)[k - 1])
    }
}

/// Whether every score and partial sum fits in `usize`.
pub open spec fn score_fits(s: Seq<char>, k: int) -> bool
    decreases k,
{
    if k <= 0 {
        true
    } else {
        score_fits(s, k - 1) && card_score(spec_lines(s)[k - 1]) <= usize::MAX && score_sum(s, k)
            <= usize::MAX
    }
}

proof fn lemma_score_fits_mono(s: Seq<char>, k: int, n: int)
    requires
        k <= n,
        score_fits(s, n),
    ensures
        score_fits(s, k),
    decreases n,
{
    if k < n && n > 0 {
        lemma_score_fits_mono(s, k, n - 1);
    }
}

proof fn lemma_pow2_mono(m: nat, n: nat)
    requires
        m <= n,
    ensures
        pow2(m) <= pow2(n),
    decreases n,
{
    if m < n && n > 0 {
        lemma_pow2_mono(m, (n - 1) as nat);
        assert(pow2(n) == 2 * pow2((n - 1) as nat));
    }
}

/// Two to the power `n`; `None` exactly when that leaves `usize`.
fn pow2_exec(n: usize) -> (r: Option<usize>)
    ensures
        r is Some <==> pow2(n as nat) <= usize::MAX,
        r matches Some(v) ==> v == pow2(n as nat),
{
    let mut acc: usize = 1;
    let mut i: usize = 0;
    while i < n
        invariant
            0 <= i <= n,
            acc == pow2(i as nat),
        decreases n - i,
    {
        match acc.checked_mul(2) {
            Some(v) => {
                acc = v;
            }
            None => {
                assert(pow2(i as nat + 1) > usize::MAX);
                proof {
                    lemma_pow2_mono(i as nat + 1, n as nat);
                }
                return None;
            }
        }
        i = i + 1;
    }
    Some(acc)
}

/// Parses every card, scores it by its matches, and sums the scores. Fails
/// with `Malformed` exactly when a line leaves the card grammar, and with
/// `Overflow` exactly when a score or a partial sum leaves `usize`.
pub fn solve(input: &str) -> (r: Result<usize, SolveError>)
    ensures
        r is Ok <==> (input_ok(input@) && score_fits(input@, spec_lines(input@).len() as int)),
        r matches Ok(n) ==> n == score_sum(input@, spec_lines(input@).len() as int),
        !input_ok(input@) ==> r == Err::<usize, SolveError>(SolveError::Malformed),
        input_ok(input@) && !score_fits(input@, spec_lines(input@).len() as int) ==> r == Err::<
            usize,
            SolveError,
        >(SolveError::Overflow),
{
    let cs = chars_vec(input);
    let lines = split_lines(&cs);
    let ghost n = spec_lines(input@).len() as int;
    let mut matches_per_card: Vec<usize> = Vec::new();
    let mut k: usize = 0;
    while k < lines.len()
        invariant
            n == spec_lines(input@).len(),
            lines@.len() == n,
            forall|m: int| 0 <= m < n ==> lines@[m]@ == spec_lines(input@)[m],
            0 <= k <= n,
            forall|m: int| 0 <= m < k ==> card_ok(#[trigger] spec_lines(input@)[m]),
            matches_per_card@.len() == k,
            forall|m: int|
                0 <= m < k ==> #[trigger] matches_per_card@[m] == card_matches(
                    spec_lines(input@)[m],
                ),
        decreases n - k,
    {
        let line: &Vec<char> = &lines[k];
        let (winning, mine) = match parse_card(line) {
            Some(p) => p,
            None => {
                assert(!card_ok(spec_lines(input@)[k as int]));
                return Err(SolveError::Malformed);
            }
        };
        let matches = count_matches(&mine, &winning);
        proof {
            assert(Seq::new(mine@.len(), |i: int| mine@[i] as int) =~= card_mine(
                spec_lines(input@)[k as int],
            ));
            assert(Seq::new(winning@.len(), |i: int| winning@[i] as int) =~= card_winning(
                spec_lines(input@)[k as int],
            ));
        }
        assert(matches == card_matches(spec_lines(input@)[k as int]));
        matches_per_card.push(matches);
        k = k + 1;
    }
    assert(input_ok(input@));
    let mut total: usize = 0;
    let mut c: usize = 0;
    while c < matches_per_card.len()
        invariant
            input_ok(input@),
            n == spec_lines(input@).len(),
            matches_per_card@.len() == n,
            forall|m: int|
                0 <= m < n ==> #[trigger] matches_per_card@[m] == card_matches(
                    spec_lines(input@)[m],
                ),
            0 <= c <= n,
            total == score_sum(input@, c as int),
            score_fits(input@, c as int),
        decreases n - c,
    {
        let matches = matches_per_card[c];
        let score: usize = if matches > 0 {
            match pow2_exec(matches - 1) {
                Some(v) => v,
                None => {
                    assert(!score_fits(input@, c as int + 1));
                    proof {
                        if score_fits(input@, n) {
                            lemma_score_fits_mono(input@, c as int + 1, n);
                        }
                    }
                    return Err(SolveError::Overflow);
                }
            }
        } else {
            0
        };
        assert(score == card_score(spec_lines(input@)[c as int]));
        total = match total.checked_add(score) {
            Some(v) => v,
            None => {
                assert(!score_fits(input@, c as int + 1));
                proof {
                    if score_fits(input@, n) {
                        lemma_score_fits_mono(input@, c as int + 1, n);
                    }
                }
                return Err(SolveError::Overflow);
            }
        };
        c = c + 1;
    }
    Ok(total)
}

} // verus!
