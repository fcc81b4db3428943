//! Camel card hands: rank every hand by its type and then its cards, and
//! sum each hand's bid weighted by its rank.

pub mod problem_1;
pub mod problem_2;

use vstd::prelude::*;
use crate::text::{
    chars_vec, num_val, parse_usize, spec_lines, split_lines, split_once_char, usize_digits,
    SolveError,
};

verus! {

/// A card's strength under the plain ordering, strongest highest; `None`
/// outside the card alphabet.
pub open spec fn strength_1(c: char) -> Option<int> {
    match c {
        'A' => Some(12int),
        'K' => Some(11int),
        'Q' => Some(10int),
        'J' => Some(9int),
        'T' => Some(8int),
        '9' => Some(7int),
        '8' => Some(6int),
        '7' => Some(5int),
        '6' => Some(4int),
        '5' => Some(3int),
        '4' => Some(2int),
        '3' => Some(1int),
        '2' => Some(0int),
        _ => None,
    }
}

/// A card's strength with jokers: `J` is wild and weakest.
pub open spec fn strength_2(c: char) -> Option<int> {
    match c {
        'A' => Some(12int),
        'K' => Some(11int),
        'Q' => Some(10int),
        'T' => Some(9int),
        '9' => Some(8int),
        '8' => Some(7int),
        '7' => Some(6int),
        '6' => Some(5int),
        '5' => Some(4int),
        '4' => Some(3int),
        '3' => Some(2int),
        '2' => Some(1int),
        'J' => Some(0int),
        _ => None,
    }
}

pub open spec fn strength(c: char, jokers: bool) -> Option<int> {
    if jokers {
        strength_2(c)
    } else {
        strength_1(c)
    }
}

/// Whether a card is wild.
pub open spec fn is_wild(c: char, jokers: bool) -> bool {
    jokers && c == 'J'
}

/// How many cards of the hand are wild, among the first `k`.
pub open spec fn wild_count(cards: Seq<char>, jokers: bool, k: int) -> nat
    decreases k,
{
    if k <= 0 {
        0
    } else {
        wild_count(cards, jokers, k - 1) + if is_wild(cards[k - 1], jokers) {
            1nat
        } else {
            0nat
        }
    }
}

/// How many unordered pairs of equal non-wild cards stand among the first
/// `k`, each second element counted against all earlier ones.
pub open spec fn pair_row(cards: Seq<char>, jokers: bool, j: int, i: int) -> nat
    decreases i,
{
    if i <= 0 {
        0
    } else {
        pair_row(cards, jokers, j, i - 1) + if cards[i - 1] == cards[j] && !is_wild(
            cards[j],
            jokers,
        ) {
            1nat
        } else {
            0nat
        }
    }
}

pub open spec fn pair_count(cards: Seq<char>, jokers: bool, k: int) -> nat
    decreases k,
{
    if k <= 0 {
        0
    } else {
        pair_count(cards, jokers, k - 1) + pair_row(cards, jokers, k - 1, k - 1)
    }
}

/// The hand type from the equal-pair count `p` among non-wild cards and the
/// wild count `w`, strongest highest: adding every wild card to the largest
/// group gives five of a kind 6, four of a kind 5, full house 4, three of a
/// kind 3, two pair 2, one pair 1, high card 0.
pub open spec fn type_strength(p: int, w: int) -> int {
    if w >= 4 {
        6
    } else if w == 3 {
        if p >= 1 {
            6
        } else {
            5
        }
    } else if w == 2 {
        if p >= 3 {
            6
        } else if p >= 1 {
            5
        } else {
            3
        }
    } else if w == 1 {
        if p >= 6 {
            6
        } else if p >= 3 {
            5
        } else if p >= 2 {
            4
        } else if p >= 1 {
            3
        } else {
            1
        }
    } else {
        if p >= 10 {
            6
        } else if p >= 6 {
            5
        } else if p >= 4 {
            4
        } else if p >= 3 {
            3
        } else if p >= 2 {
            2
        } else if p >= 1 {
            1
        } else {
            0
        }
    }
}

/// Whether five characters are all cards.
pub open spec fn hand_cards_ok(cards: Seq<char>, jokers: bool) -> bool {
    cards.len() == 5 && forall|i: int| 0 <= i < 5 ==> strength(#[trigger] cards[i], jokers) is Some
}

/// A hand's sort key: its type, then each card in order, packed so that a
/// larger key means a stronger hand.
pub open spec fn key_of(cards: Seq<char>, jokers: bool) -> int {
    type_strength(
        pair_count(cards, jokers, 5) as int,
        wild_count(cards, jokers, 5) as int,
    ) * 0x100000 + (strength(cards[0], jokers)->0) * 0x10000 + (strength(cards[1], jokers)->0)
        * 0x1000 + (strength(cards[2], jokers)->0) * 0x100 + (strength(cards[3], jokers)->0) * 0x10
        + (strength(cards[4], jokers)->0)
}

/// A hand line: five cards, one space, and a bid number.
pub open spec fn hand_line_ok(line: Seq<char>, jokers: bool) -> bool {
    &&& crate::text::contains_char(line, ' ')
    &&& crate::text::char_index(line, ' ') == 5
    &&& hand_cards_ok(line.take(5), jokers)
    &&& usize_digits(line.skip(6))
}

pub open spec fn line_key(line: Seq<char>, jokers: bool) -> int {
    key_of(line.take(5), jokers)
}

pub open spec fn line_bid(line: Seq<char>) -> int {
    num_val(line.skip(6))
}

/// The card's strength, read off the table.
fn card_strength(c: char, jokers: bool) -> (r: Option<usize>)
    ensures
        r is Some <==> strength(c, jokers) is Some,
        r matches Some(v) ==> Some(v as int) == strength(c, jokers) && v <= 12,
{
    if jokers {
        match c {
            'A' => Some(12),
            'K' => Some(11),
            'Q' => Some(10),
            'T' => Some(9),
            '9' => Some(8),
            '8' => Some(7),
            '7' => Some(6),
            '6' => Some(5),
            '5' => Some(4),
            '4' => Some(3),
            '3' => Some(2),
            '2' => Some(1),
            'J' => Some(0),
            _ => None,
        }
    } else {
        match c {
            'A' => Some(12),
            'K' => Some(11),
            'Q' => Some(10),
            'J' => Some(9),
            'T' => Some(8),
            '9' => Some(7),
            '8' => Some(6),
            '7' => Some(5),
            '6' => Some(4),
            '5' => Some(3),
            '4' => Some(2),
            '3' => Some(1),
            '2' => Some(0),
            _ => None,
        }
    }
}

/// Reads one hand line into its sort key and bid; `None` exactly when the
/// line is not five cards, a space, and a number.
pub fn parse_hand(line: &Vec<char>, jokers: bool) -> (r: Option<(usize, usize)>)
    ensures
        r is Some <==> hand_line_ok(line@, jokers),
        r matches Some(h) ==> h.0 as int == line_key(line@, jokers) && h.1 as int == line_bid(
            line@,
        ),
{
    let (cards, bid_text) = match split_once_char(line, ' ') {
        Some(p) => p,
        None => {
            return None;
        }
    };
    proof {
        crate::text::lemma_char_index_bounds(line@, ' ');
    }
    if cards.len() != 5 {
        return None;
    }
    assert(crate::text::char_index(line@, ' ') == 5);
    assert(cards@ == line@.take(5));
    assert(bid_text@ == line@.skip(6));
    let bid = match parse_usize(&bid_text) {
        Some(v) => v,
        None => {
            return None;
        }
    };
    let mut strengths: Vec<usize> = Vec::new();
    let mut i: usize = 0;
    while i < 5
        invariant
            cards@.len() == 5,
            cards@ == line@.take(5),
            0 <= i <= 5,
            strengths@.len() == i,
            forall|k: int|
                0 <= k < i ==> Some(#[trigger] strengths@[k] as int) == strength(cards@[k], jokers)
                    && strengths@[k] <= 12,
        decreases 5 - i,
    {
        match card_strength(cards[i], jokers) {
            Some(v) => {
                strengths.push(v);
            }
            None => {
                assert(strength(cards@[i as int], jokers) is None);
                return None;
            }
        }
        i = i + 1;
    }
    assert forall|q: int| 0 <= q < 5 implies strength(#[trigger] cards@[q], jokers) is Some by {
        assert(Some(strengths@[q] as int) == strength(cards@[q], jokers));
    }
    assert(hand_cards_ok(cards@, jokers));
    // count the wild cards and the equal pairs among the rest
    let mut wilds: usize = 0;
    let mut j: usize = 0;
    while j < 5
        invariant
            cards@.len() == 5,
            0 <= j <= 5,
            wilds == wild_count(cards@, jokers, j as int),
            wilds <= j,
        decreases 5 - j,
    {
        let w = jokers && cards[j] == 'J';
        assert(w == is_wild(cards@[j as int], jokers));
        if w {
            wilds = wilds + 1;
        }
        j = j + 1;
    }
    let mut pairs: usize = 0;
    let mut a: usize = 0;
    while a < 5
        invariant
            cards@.len() == 5,
            0 <= a <= 5,
            pairs == pair_count(cards@, jokers, a as int),
            pairs <= 4 * a,
        decreases 5 - a,
    {
        let mut row: usize = 0;
        let mut b: usize = 0;
        while b < a
            invariant
                cards@.len() == 5,
                0 <= b <= a < 5,
                row == pair_row(cards@, jokers, a as int, b as int),
                row <= b,
            decreases a - b,
        {
            let hit = cards[b] == cards[a] && !(jokers && cards[a] == 'J');
            assert(hit == (cards@[b as int] == cards@[a as int] && !is_wild(
                cards@[a as int],
                jokers,
            )));
            if hit {
                row = row + 1;
            }
            b = b + 1;
        }
        assert(row == pair_row(cards@, jokers, a as int, a as int));
        pairs = pairs + row;
        a = a + 1;
    }
    let ty: usize = if wilds >= 4 {
        6
    } else if wilds == 3 {
        if pairs >= 1 {
            6
        } else {
            5
        }
    } else if wilds == 2 {
        if pairs >= 3 {
            6
        } else if pairs >= 1 {
            5
        } else {
            3
        }
    } else if wilds == 1 {
        if pairs >= 6 {
            6
        } else if pairs >= 3 {
            5
        } else if pairs >= 2 {
            4
        } else if pairs >= 1 {
            3
        } else {
            1
        }
    } else {
        if pairs >= 10 {
            6
        } else if pairs >= 6 {
            5
        } else if pairs >= 4 {
            4
        } else if pairs >= 3 {
            3
        } else if pairs >= 2 {
            2
        } else if pairs >= 1 {
            1
        } else {
            0
        }
    };
    assert(ty as int == type_strength(pairs as int, wilds as int));
    let key: usize = ty * 0x100000 + strengths[0] * 0x10000 + strengths[1] * 0x1000 + strengths[2]
        * 0x100 + strengths[3] * 0x10 + strengths[4];
    assert(key as int == line_key(line@, jokers));
    Some((key, bid))
}

/// Inserts behind every earlier hand of an equal or smaller key.
pub open spec fn spec_insert(t: Seq<(int, int)>, x: (int, int)) -> Seq<(int, int)>
    decreases t.len(),
{
    if t.len() == 0 {
        seq![x]
    } else if t[0].0 <= x.0 {
        seq![t[0]] + spec_insert(t.drop_first(), x)
    } else {
        seq![x] + t
    }
}

/// The first `k` hands, insertion-sorted by key, weakest first.
pub open spec fn sort_upto(hands: Seq<(int, int)>, k: int) -> Seq<(int, int)>
    decreases k,
{
    if k <= 0 {
        Seq::empty()
    } else {
        spec_insert(sort_upto(hands, k - 1), hands[k - 1])
    }
}

/// The winnings of the first `k` ranked hands: rank times bid, weakest hand
/// first at rank one.
pub open spec fn winnings(sorted: Seq<(int, int)>, k: int) -> int
    decreases k,
{
    if k <= 0 {
        0
    } else {
        winnings(sorted, k - 1) + k * sorted[k - 1].1
    }
}

proof fn lemma_sort_len(hands: Seq<(int, int)>, k: int)
    requires
        0 <= k,
    ensures
        sort_upto(hands, k).len() == k,
    decreases k,
{
    if k > 0 {
        lemma_sort_len(hands, k - 1);
        lemma_insert_len(sort_upto(hands, k - 1), hands[k - 1]);
    }
}

proof fn lemma_insert_len(t: Seq<(int, int)>, x: (int, int))
    ensures
        spec_insert(t, x).len() == t.len() + 1,
    decreases t.len(),
{
    if t.len() > 0 && t[0].0 <= x.0 {
        lemma_insert_len(t.drop_first(), x);
    }
}

/// Inserting splits the run at the first strictly larger key.
proof fn lemma_insert_at(t: Seq<(int, int)>, x: (int, int), pos: int)
    requires
        0 <= pos <= t.len(),
        forall|k: int| 0 <= k < pos ==> t[k].0 <= x.0,
        pos < t.len() ==> t[pos].0 > x.0,
    ensures
        spec_insert(t, x) =~= t.take(pos) + seq![x] + t.skip(pos),
    decreases t.len(),
{
    if t.len() == 0 {
    } else if pos == 0 {
    } else {
        lemma_insert_at(t.drop_first(), x, pos - 1);
        assert(t.drop_first().take(pos - 1) =~= t.take(pos).drop_first());
        assert(t.drop_first().skip(pos - 1) =~= t.skip(pos));
        assert(spec_insert(t, x) =~= seq![t[0]] + spec_insert(t.drop_first(), x));
    }
}

/// Parses every hand line, ranks the hands weakest to strongest, and sums
/// rank times bid. Fails with `Malformed` exactly when a line is not five
/// cards and a bid, and with `Overflow` exactly when the winnings leave
/// `usize`.
pub fn solve_hands(input: &str, jokers: bool) -> (r: Result<usize, SolveError>)
    ensures
        ({
            let n = spec_lines(input@).len() as int;
            let hands = Seq::new(
                n as nat,
                |i: int|
                    (line_key(spec_lines(input@)[i], jokers), line_bid(spec_lines(input@)[i])),
            );
            let ok = forall|i: int|
                0 <= i < n ==> hand_line_ok(#[trigger] spec_lines(input@)[i], jokers);
            &&& (!ok ==> r == Err::<usize, SolveError>(SolveError::Malformed))
            &&& (r is Ok <==> (ok && winnings(sort_upto(hands, n), n) <= usize::MAX))
            &&& (r matches Ok(v) ==> v == winnings(sort_upto(hands, n), n))
        }),
{
    let cs = chars_vec(input);
    let lines = split_lines(&cs);
    let ghost n = spec_lines(input@).len() as int;
    let ghost hands = Seq::new(
        n as nat,
        |i: int| (line_key(spec_lines(input@)[i], jokers), line_bid(spec_lines(input@)[i])),
    );
    let mut sorted: Vec<(usize, usize)> = Vec::new();
    let mut k: usize = 0;
    while k < lines.len()
        invariant
            n == spec_lines(input@).len(),
            hands == Seq::new(
                n as nat,
                |i: int|
                    (line_key(spec_lines(input@)[i], jokers), line_bid(spec_lines(input@)[i])),
            ),
            lines@.len() == n,
            forall|m: int| 0 <= m < n ==> lines@[m]@ == spec_lines(input@)[m],
            0 <= k <= n,
            forall|m: int|
                0 <= m < k ==> hand_line_ok(#[trigger] spec_lines(input@)[m], jokers),
            sorted@.len() == k,
            Seq::new(sorted@.len(), |i: int| (sorted@[i].0 as int, sorted@[i].1 as int))
                =~= sort_upto(hands, k as int),
            forall|a2: int, b2: int|
                0 <= a2 <= b2 < sorted@.len() ==> (#[trigger] sorted@[a2]).0 <= (
                #[trigger] sorted@[b2]).0,
        decreases n - k,
    {
        let (key, bid) = match parse_hand(&lines[k], jokers) {
            Some(h) => h,
            None => {
                assert(!hand_line_ok(spec_lines(input@)[k as int], jokers));
                return Err(SolveError::Malformed);
            }
        };
        assert((key as int, bid as int) == hands[k as int]);
        let mut pos: usize = 0;
        while pos < sorted.len() && sorted[pos].0 <= key
            invariant
                0 <= pos <= sorted@.len(),
                forall|m: int| 0 <= m < pos ==> (#[trigger] sorted@[m]).0 <= key,
            decreases sorted@.len() - pos,
        {
            pos = pos + 1;
        }
        let ghost before = Seq::new(sorted@.len(), |i: int| (sorted@[i].0 as int, sorted@[i].1 as int));
        proof {
            lemma_insert_at(before, (key as int, bid as int), pos as int);
        }
        sorted.insert(pos, (key, bid));
        proof {
            assert(Seq::new(sorted@.len(), |i: int| (sorted@[i].0 as int, sorted@[i].1 as int))
                =~= before.take(pos as int) + seq![(key as int, bid as int)] + before.skip(
                pos as int,
            ));
            assert(Seq::new(sorted@.len(), |i: int| (sorted@[i].0 as int, sorted@[i].1 as int))
                =~= spec_insert(sort_upto(hands, k as int), hands[k as int]));
        }
        assert forall|a2: int, b2: int|
            0 <= a2 <= b2 < sorted@.len() implies (#[trigger] sorted@[a2]).0 <= (
        #[trigger] sorted@[b2]).0 by {
            let view = Seq::new(
                sorted@.len(),
                |i: int| (sorted@[i].0 as int, sorted@[i].1 as int),
            );
            lemma_sorted_view(hands, k as int + 1);
            assert(view[a2].0 <= view[b2].0);
        }
        k = k + 1;
    }
    let ghost all_sorted = sort_upto(hands, n);
    proof {
        lemma_sort_len(hands, n);
        assert(Seq::new(sorted@.len(), |i: int| (sorted@[i].0 as int, sorted@[i].1 as int))
            =~= all_sorted);
        assert forall|q: int| 0 <= q < all_sorted.len() implies #[trigger] all_sorted[q].1
            >= 0 by {
            assert(all_sorted[q] == (sorted@[q].0 as int, sorted@[q].1 as int));
        }
        assert forall|i: int|
            0 <= i < sorted@.len() implies ((#[trigger] sorted@[i]).0 as int,
        sorted@[i].1 as int) == all_sorted[i] by {
            assert(all_sorted[i] == (sorted@[i].0 as int, sorted@[i].1 as int));
        }
        lemma_winnings_bounds(all_sorted, all_sorted.len() as int);
    }
    let mut total: usize = 0;
    let mut m: usize = 0;
    while m < sorted.len()
        invariant
            n == spec_lines(input@).len(),
            hands == Seq::new(
                n as nat,
                |i: int|
                    (line_key(spec_lines(input@)[i], jokers), line_bid(spec_lines(input@)[i])),
            ),
            forall|i: int|
                0 <= i < n ==> hand_line_ok(#[trigger] spec_lines(input@)[i], jokers),
            all_sorted == sort_upto(hands, n),
            all_sorted.len() == n,
            sorted@.len() == all_sorted.len(),
            forall|i: int|
                0 <= i < sorted@.len() ==> ((#[trigger] sorted@[i]).0 as int, sorted@[i].1 as int)
                    == all_sorted[i],
            forall|q: int|
                0 <= q <= all_sorted.len() ==> #[trigger] winnings(all_sorted, q) <= winnings(
                    all_sorted,
                    all_sorted.len() as int,
                ),
            forall|q: int|
                0 <= q <= all_sorted.len() ==> #[trigger] winnings(all_sorted, q) >= 0,
            forall|q: int| 0 <= q < all_sorted.len() ==> #[trigger] all_sorted[q].1 >= 0,
            0 <= m <= sorted@.len(),
            total == winnings(all_sorted, m as int),
        decreases sorted@.len() - m,
    {
        let rank = m + 1;
        let term = match rank.checked_mul(sorted[m].1) {
            Some(v) => v,
            None => {
                assert(winnings(all_sorted, m as int + 1) > usize::MAX);
                return Err(SolveError::Overflow);
            }
        };
        total = match total.checked_add(term) {
            Some(v) => v,
            None => {
                assert(winnings(all_sorted, m as int + 1) > usize::MAX);
                return Err(SolveError::Overflow);
            }
        };
        m = m + 1;
    }
    Ok(total)
}

/// Sorted prefixes stay sorted and keep their members' keys ordered.
proof fn lemma_sorted_view(hands: Seq<(int, int)>, k: int)
    ensures
        forall|a2: int, b2: int|
            0 <= a2 <= b2 < sort_upto(hands, k).len() ==> (#[trigger] sort_upto(hands, k)[a2]).0
                <= (#[trigger] sort_upto(hands, k)[b2]).0,
    decreases k,
{
    if k > 0 {
        lemma_sorted_view(hands, k - 1);
        lemma_insert_sorted(sort_upto(hands, k - 1), hands[k - 1]);
    }
}

/// Inserting into a sorted run keeps it sorted.
proof fn lemma_insert_sorted(t: Seq<(int, int)>, x: (int, int))
    requires
        forall|a2: int, b2: int| 0 <= a2 <= b2 < t.len() ==> (#[trigger] t[a2]).0 <= (
        #[trigger] t[b2]).0,
    ensures
        forall|a2: int, b2: int|
            0 <= a2 <= b2 < spec_insert(t, x).len() ==> (#[trigger] spec_insert(t, x)[a2]).0 <= (
            #[trigger] spec_insert(t, x)[b2]).0,
    decreases t.len(),
{
    lemma_insert_len(t, x);
    if t.len() > 0 && t[0].0 <= x.0 {
        assert(forall|a2: int, b2: int|
            0 <= a2 <= b2 < t.drop_first().len() ==> (#[trigger] t.drop_first()[a2]).0 <= (
            #[trigger] t.drop_first()[b2]).0);
        lemma_insert_sorted(t.drop_first(), x);
        lemma_insert_first_bound(t.drop_first(), x, t[0].0);
        let res = spec_insert(t, x);
        assert(res =~= seq![t[0]] + spec_insert(t.drop_first(), x));
        assert forall|a2: int, b2: int| 0 <= a2 <= b2 < res.len() implies (#[trigger] res[a2]).0
            <= (#[trigger] res[b2]).0 by {
            if a2 == 0 {
                if b2 > 0 {
                    assert(res[b2] == spec_insert(t.drop_first(), x)[b2 - 1]);
                    assert(t[0].0 <= spec_insert(t.drop_first(), x)[b2 - 1].0);
                }
            } else {
                assert(res[a2] == spec_insert(t.drop_first(), x)[a2 - 1]);
                assert(res[b2] == spec_insert(t.drop_first(), x)[b2 - 1]);
            }
        }
    } else if t.len() > 0 {
        let res = spec_insert(t, x);
        assert(res =~= seq![x] + t);
        assert forall|a2: int, b2: int| 0 <= a2 <= b2 < res.len() implies (#[trigger] res[a2]).0
            <= (#[trigger] res[b2]).0 by {
            if a2 == 0 {
                if b2 > 0 {
                    assert(res[b2] == t[b2 - 1]);
                    assert(t[0].0 <= t[b2 - 1].0);
                }
            } else {
                assert(res[a2] == t[a2 - 1]);
                assert(res[b2] == t[b2 - 1]);
            }
        }
    }
}

/// Every member of an insertion into a run with keys at least `lo`... the
/// head bounds the inserted run from below.
proof fn lemma_insert_first_bound(t: Seq<(int, int)>, x: (int, int), lo: int)
    requires
        lo <= x.0,
        forall|k: int| 0 <= k < t.len() ==> lo <= (#[trigger] t[k]).0,
    ensures
        forall|k: int| 0 <= k < spec_insert(t, x).len() ==> lo <= (#[trigger] spec_insert(t, x)[k]).0,
    decreases t.len(),
{
    lemma_insert_len(t, x);
    let res = spec_insert(t, x);
    if t.len() > 0 && t[0].0 <= x.0 {
        assert(forall|k: int| 0 <= k < t.drop_first().len() ==> lo <= (#[trigger] t.drop_first()[k]).0);
        lemma_insert_first_bound(t.drop_first(), x, lo);
        assert(res =~= seq![t[0]] + spec_insert(t.drop_first(), x));
        assert forall|k: int| 0 <= k < res.len() implies lo <= (#[trigger] res[k]).0 by {
            if k > 0 {
                assert(res[k] == spec_insert(t.drop_first(), x)[k - 1]);
            }
        }
    } else {
        assert(res =~= seq![x] + t);
        assert forall|k: int| 0 <= k < res.len() implies lo <= (#[trigger] res[k]).0 by {
            if k > 0 {
                assert(res[k] == t[k - 1]);
            }
        }
    }
}

proof fn lemma_winnings_bounds(sorted: Seq<(int, int)>, k: int)
    requires
        k <= sorted.len(),
        forall|q: int| 0 <= q < sorted.len() ==> #[trigger] sorted[q].1 >= 0,
    ensures
        forall|q: int| 0 <= q <= k ==> #[trigger] winnings(sorted, q) <= winnings(sorted, k),
        forall|q: int| 0 <= q <= k ==> #[trigger] winnings(sorted, q) >= 0,
    decreases k,
{
    if k > 0 {
        lemma_winnings_bounds(sorted, k - 1);
        assert(winnings(sorted, k) == winnings(sorted, k - 1) + k * sorted[k - 1].1);
        assert(k * sorted[k - 1].1 >= 0) by (nonlinear_arith)
            requires
                k >= 1,
                sorted[k - 1].1 >= 0,
        ;
    }
}

} // verus!
