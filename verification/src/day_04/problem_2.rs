//! Second part: each card's matches win copies of the following cards;
//! count all cards held at the end.

use vstd::prelude::*;
use crate::day_04::{card_matches, card_mine, card_ok, card_winning, count_matches, parse_card};
use crate::text::{chars_vec, spec_lines, split_lines, SolveError};

verus! {

/// The match counts of all cards.
pub open spec fn wins_seq(s: Seq<char>) -> Seq<int> {
    Seq::new(spec_lines(s).len(), |i: int| card_matches(spec_lines(s)[i]) as int)
}

/// Whether every line follows the card grammar.
pub open spec fn input_ok(s: Seq<char>) -> bool {
    forall|i: int| 0 <= i < spec_lines(s).len() ==> card_ok(#[trigger] spec_lines(s)[i])
}

/// Whether no card's matches run past the last card.
pub open spec fn ranges_ok(ws: Seq<int>) -> bool {
    forall|i: int| 0 <= i < ws.len() ==> i + #[trigger] ws[i] < ws.len()
}

/// One card held of each, before any copying.
pub open spec fn ones(n: int) -> Seq<int> {
    Seq::new(n as nat, |i: int| 1int)
}

/// Card `i` adds its own count to the `w` cards after it.
pub open spec fn spread(c: Seq<int>, i: int, w: int) -> Seq<int> {
    Seq::new(c.len(), |j: int| if i < j <= i + w { c[j] + c[i] } else { c[j] })
}

/// The held counts after the first `k` cards have copied.
pub open spec fn copies_upto(ws: Seq<int>, k: int) -> Seq<int>
    decreases k,
{
    if k <= 0 {
        ones(ws.len() as int)
    } else {
        spread(copies_upto(ws, k - 1), k - 1, ws[k - 1])
    }
}

pub proof fn lemma_copies_upto_len(ws: Seq<int>, k: int)
    ensures
        copies_upto(ws, k).len() == ws.len(),
    decreases k,
{
    if k > 0 {
        lemma_copies_upto_len(ws, k - 1);
    }
}

/// The sum of the first `k` held counts.
pub open spec fn sum_copies(c: Seq<int>, k: int) -> int
    decreases k,
{
    if k <= 0 {
        0
    } else {
        sum_copies(c, k - 1) + c[k - 1]
    }
}

/// The final number of cards held.
pub open spec fn spec_total(s: Seq<char>) -> int {
    sum_copies(copies_upto(wins_seq(s), wins_seq(s).len() as int), wins_seq(s).len() as int)
}

/// Parses every card and cascades the copies its matches win. Fails with
/// `Malformed` exactly when a line leaves the card grammar or a card's
/// matches run past the last card; `Overflow` reports a count that leaves
/// `usize`.
pub fn solve(input: &str) -> (r: Result<usize, SolveError>)
    ensures
        r == Err::<usize, SolveError>(SolveError::Malformed) <==> !(input_ok(input@) && ranges_ok(
            wins_seq(input@),
        )),
        r matches Ok(n) ==> n == spec_total(input@),
        r is Ok || r == Err::<usize, SolveError>(SolveError::Malformed) || r == Err::<
            usize,
            SolveError,
        >(SolveError::Overflow),
{
    let cs = chars_vec(input);
    let lines = split_lines(&cs);
    let ghost n = spec_lines(input@).len() as int;
    let ghost ws = wins_seq(input@);
    let mut wins: Vec<usize> = Vec::new();
    let mut k: usize = 0;
    while k < lines.len()
        invariant
            n == spec_lines(input@).len(),
            ws == wins_seq(input@),
            lines@.len() == n,
            forall|m: int| 0 <= m < n ==> lines@[m]@ == spec_lines(input@)[m],
            0 <= k <= n,
            forall|m: int| 0 <= m < k ==> card_ok(#[trigger] spec_lines(input@)[m]),
            wins@.len() == k,
            forall|m: int| 0 <= m < k ==> #[trigger] wins@[m] == ws[m],
        decreases n - k,
    {
        let line: &Vec<char> = &lines[k];
        let (winning, mine) = match parse_card(line) {
            Some(p) => p,
            None => {
                assert(!card_ok(spec_lines(input@)[k as int]));
                return Err(SolveError::Malformed);
            }
        };
        let matches = count_matches(&mine, &winning);
        proof {
            assert(Seq::new(mine@.len(), |i: int| mine@[i] as int) =~= card_mine(
                spec_lines(input@)[k as int],
            ));
            assert(Seq::new(winning@.len(), |i: int| winning@[i] as int) =~= card_winning(
                spec_lines(input@)[k as int],
            ));
        }
        assert(matches == ws[k as int]);
        wins.push(matches);
        k = k + 1;
    }
    assert(input_ok(input@));
    // every card's reach must stay on the table
    let mut i: usize = 0;
    while i < wins.len()
        invariant
            ws == wins_seq(input@),
            wins@.len() == ws.len(),
            forall|m: int| 0 <= m < ws.len() ==> #[trigger] wins@[m] == ws[m],
            0 <= i <= ws.len(),
            forall|m: int| 0 <= m < i ==> m + #[trigger] ws[m] < ws.len(),
        decreases ws.len() - i,
    {
        let w = wins[i];
        if w >= wins.len() - i {
            assert(i + ws[i as int] >= ws.len());
            assert(!ranges_ok(ws));
            return Err(SolveError::Malformed);
        }
        i = i + 1;
    }
    assert(ranges_ok(ws));
    let mut copies: Vec<usize> = Vec::new();
    let mut j: usize = 0;
    while j < wins.len()
        invariant
            0 <= j <= wins@.len(),
            copies@.len() == j,
            forall|m: int| 0 <= m < j ==> #[trigger] copies@[m] == 1,
        decreases wins@.len() - j,
    {
        copies.push(1);
        j = j + 1;
    }
    proof {
        lemma_copies_upto_len(ws, 0);
    }
    assert forall|m: int| 0 <= m < ws.len() implies copies@[m] as int == copies_upto(ws, 0)[m] by {
        assert(copies_upto(ws, 0)[m] == 1);
    }
    let mut c: usize = 0;
    while c < wins.len()
        invariant
            ws == wins_seq(input@),
            input_ok(input@),
            ranges_ok(ws),
            wins@.len() == ws.len(),
            forall|m: int| 0 <= m < ws.len() ==> #[trigger] wins@[m] == ws[m],
            copies@.len() == ws.len(),
            0 <= c <= ws.len(),
            forall|m: int|
                0 <= m < ws.len() ==> #[trigger] copies@[m] as int == copies_upto(ws, c as int)[m],
        decreases ws.len() - c,
    {
        let w = wins[c];
        assert(c + w < wins@.len());
        let held = copies[c];
        let ghost before = copies@;
        let mut t: usize = 1;
        while t <= w
            invariant
                ws == wins_seq(input@),
                input_ok(input@),
                ranges_ok(ws),
                ws.len() <= usize::MAX,
                wins@.len() == ws.len(),
                copies@.len() == ws.len(),
                0 <= c < ws.len(),
                w == ws[c as int],
                c + w < ws.len(),
                1 <= t <= w + 1,
                held == before[c as int],
                forall|m: int|
                    0 <= m < ws.len() ==> #[trigger] copies@[m] as int == (if c < m < c + t {
                        before[m] as int + before[c as int] as int
                    } else {
                        before[m] as int
                    }),
            decreases w + 1 - t,
        {
            let idx = c + t;
            let updated = match copies[idx].checked_add(held) {
                Some(v) => v,
                None => {
                    return Err(SolveError::Overflow);
                }
            };
            copies[idx] = updated;
            t = t + 1;
        }
        proof {
            lemma_copies_upto_len(ws, c as int);
            lemma_copies_upto_len(ws, c as int + 1);
            assert forall|m: int| 0 <= m < ws.len() implies copies@[m] as int == copies_upto(
                ws,
                c as int + 1,
            )[m] by {
                assert(copies_upto(ws, c as int + 1) == spread(
                    copies_upto(ws, c as int),
                    c as int,
                    ws[c as int],
                ));
                assert(before[m] as int == copies_upto(ws, c as int)[m]);
                assert(before[c as int] as int == copies_upto(ws, c as int)[c as int]);
                assert(spread(copies_upto(ws, c as int), c as int, ws[c as int])[m] == (if c < m
                    <= c + ws[c as int] {
                    copies_upto(ws, c as int)[m] + copies_upto(ws, c as int)[c as int]
                } else {
                    copies_upto(ws, c as int)[m]
                }));
            }
        }
        c = c + 1;
    }
    proof {
        lemma_copies_upto_len(ws, ws.len() as int);
    }
    let mut total: usize = 0;
    let mut m: usize = 0;
    while m < copies.len()
        invariant
            ws == wins_seq(input@),
            input_ok(input@),
            ranges_ok(ws),
            copies_upto(ws, ws.len() as int).len() == ws.len(),
            copies@.len() == ws.len(),
            forall|q: int|
                0 <= q < ws.len() ==> #[trigger] copies@[q] as int == copies_upto(
                    ws,
                    ws.len() as int,
                )[q],
            0 <= m <= ws.len(),
            total == sum_copies(copies_upto(ws, ws.len() as int), m as int),
        decreases ws.len() - m,
    {
        total = match total.checked_add(copies[m]) {
            Some(v) => v,
            None => {
                return Err(SolveError::Overflow);
            }
        };
        m = m + 1;
    }
    Ok(total)
}

} // verus!
