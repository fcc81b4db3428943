//! Scratch cards: each card lists winning numbers and own numbers; the
//! matches decide a score or a cascade of copied cards.

pub mod problem_1;
pub mod problem_2;

use vstd::prelude::*;
use crate::text::{
    char_index, contains_char, digits_end, num_val, parse_usize, spec_fields, split_fields,
    split_once_char, usize_digits, ws_end,
};

verus! {

/// Whether the line opens with the card label, an identifier, and a colon:
/// `Card <id>:`.
pub open spec fn card_head_ok(line: Seq<char>) -> bool {
    &&& line.len() >= 4
    &&& line[0] == 'C' && line[1] == 'a' && line[2] == 'r' && line[3] == 'd'
    &&& ({
        let a = ws_end(line, 4);
        let b = digits_end(line, a);
        &&& b > a
        &&& num_val(line.subrange(a, b)) <= usize::MAX
        &&& b < line.len()
        &&& line[b] == ':'
    })
}

/// The text after the card head.
pub open spec fn card_body(line: Seq<char>) -> Seq<char> {
    line.skip(digits_end(line, ws_end(line, 4)) + 1)
}

/// Whether the body splits on `|` into two lists of numbers.
pub open spec fn card_body_ok(body: Seq<char>) -> bool {
    &&& contains_char(body, '|')
    &&& ({
        let w = spec_fields(body.take(char_index(body, '|')));
        let m = spec_fields(body.skip(char_index(body, '|') + 1));
        &&& (forall|i: int| 0 <= i < w.len() ==> usize_digits(#[trigger] w[i]))
        &&& (forall|i: int| 0 <= i < m.len() ==> usize_digits(#[trigger] m[i]))
    })
}

pub open spec fn card_ok(line: Seq<char>) -> bool {
    card_head_ok(line) && card_body_ok(card_body(line))
}

/// The winning numbers of a card.
pub open spec fn card_winning(line: Seq<char>) -> Seq<int> {
    let body = card_body(line);
    let w = spec_fields(body.take(char_index(body, '|')));
    Seq::new(w.len(), |i: int| num_val(w[i]))
}

/// The card's own numbers.
pub open spec fn card_mine(line: Seq<char>) -> Seq<int> {
    let body = card_body(line);
    let m = spec_fields(body.skip(char_index(body, '|') + 1));
    Seq::new(m.len(), |i: int| num_val(m[i]))
}

/// How many distinct own numbers appear among the winning numbers — each
/// value counts once, as a set intersection.
pub open spec fn match_count(mine: Seq<int>, winning: Seq<int>, k: int) -> nat
    decreases k,
{
    if k <= 0 {
        0
    } else {
        match_count(mine, winning, k - 1) + if winning.contains(mine[k - 1]) && !mine.take(
            k - 1,
        ).contains(mine[k - 1]) {
            1nat
        } else {
            0nat
        }
    }
}

pub open spec fn card_matches(line: Seq<char>) -> nat {
    match_count(card_mine(line), card_winning(line), card_mine(line).len() as int)
}

/// Skips spaces from `i`; returns the first non-space position.
fn skip_ws(line: &Vec<char>, i: usize) -> (r: usize)
    requires
        i <= line@.len(),
    ensures
        r == ws_end(line@, i as int),
        i <= r <= line@.len(),
    decreases line@.len() - i,
{
    let mut j = i;
    while j < line.len() && (line[j] == ' ' || line[j] == '\t' || line[j] == '\r' || line[j]
        == '\n')
        invariant
            i <= j <= line@.len(),
            ws_end(line@, i as int) == ws_end(line@, j as int),
        decreases line@.len() - j,
    {
        j = j + 1;
    }
    j
}

/// Skips digits from `i`; returns the first non-digit position.
fn skip_digits(line: &Vec<char>, i: usize) -> (r: usize)
    requires
        i <= line@.len(),
    ensures
        r == digits_end(line@, i as int),
        i <= r <= line@.len(),
{
    let mut j = i;
    while j < line.len() && line[j] >= '0' && line[j] <= '9'
        invariant
            i <= j <= line@.len(),
            digits_end(line@, i as int) == digits_end(line@, j as int),
        decreases line@.len() - j,
    {
        j = j + 1;
    }
    j
}

/// Parses one card line into its winning and own numbers; `None` exactly
/// when the line leaves the card grammar.
pub fn parse_card(line: &Vec<char>) -> (r: Option<(Vec<usize>, Vec<usize>)>)
    ensures
        r is Some <==> card_ok(line@),
        r matches Some(p) ==> {
            &&& p.0@.len() == card_winning(line@).len()
            &&& forall|i: int| 0 <= i < p.0@.len() ==> #[trigger] p.0@[i] == card_winning(line@)[i]
            &&& p.1@.len() == card_mine(line@).len()
            &&& forall|i: int| 0 <= i < p.1@.len() ==> #[trigger] p.1@[i] == card_mine(line@)[i]
        },
{
    if line.len() < 4 || !(line[0] == 'C' && line[1] == 'a' && line[2] == 'r' && line[3] == 'd') {
        return None;
    }
    let a = skip_ws(line, 4);
    let b = skip_digits(line, a);
    if b == a {
        return None;
    }
    let mut id_digits: Vec<char> = Vec::new();
    let mut k = a;
    while k < b
        invariant
            a <= k <= b <= line@.len(),
            id_digits@ == line@.subrange(a as int, k as int),
        decreases b - k,
    {
        id_digits.push(line[k]);
        assert(id_digits@ =~= line@.subrange(a as int, k as int + 1));
        k = k + 1;
    }
    assert(forall|i: int| a <= i < b ==> crate::text::is_digit(line@[i])) by {
        assert forall|i: int| a <= i < b implies crate::text::is_digit(line@[i]) by {
            lemma_digits_prefix(line@, a as int, i);
        }
    }
    assert(crate::text::all_digits(id_digits@));
    match parse_usize(&id_digits) {
        Some(_) => {}
        None => {
            assert(!card_head_ok(line@)) by {
                assert(id_digits@.len() > 0);
                assert(num_val(line@.subrange(a as int, b as int)) > usize::MAX);
            }
            return None;
        }
    }
    if b >= line.len() || !(line[b] == ':') {
        assert(!card_head_ok(line@));
        return None;
    }
    let mut body: Vec<char> = Vec::new();
    let mut m = b + 1;
    while m < line.len()
        invariant
            b as int + 1 <= m as int <= line@.len(),
            body@ == line@.subrange(b as int + 1, m as int),
        decreases line@.len() - m,
    {
        body.push(line[m]);
        assert(body@ =~= line@.subrange(b as int + 1, m as int + 1));
        m = m + 1;
    }
    assert(body@ =~= card_body(line@));
    let (wpart, mpart) = match split_once_char(&body, '|') {
        Some(p) => p,
        None => {
            return None;
        }
    };
    let wfields = split_fields(&wpart);
    let mfields = split_fields(&mpart);
    let mut winning: Vec<usize> = Vec::new();
    let mut i: usize = 0;
    while i < wfields.len()
        invariant
            0 <= i <= wfields@.len(),
            wfields@.len() == card_winning(line@).len(),
            forall|k2: int|
                0 <= k2 < wfields@.len() ==> wfields@[k2]@ == spec_fields(
                    card_body(line@).take(char_index(card_body(line@), '|')),
                )[k2],
            winning@.len() == i,
            forall|k2: int| 0 <= k2 < i ==> #[trigger] winning@[k2] == card_winning(line@)[k2],
            forall|k2: int|
                0 <= k2 < i ==> usize_digits(
                    #[trigger] spec_fields(
                        card_body(line@).take(char_index(card_body(line@), '|')),
                    )[k2],
                ),
        decreases wfields@.len() - i,
    {
        match parse_usize(&wfields[i]) {
            Some(n) => {
                winning.push(n);
            }
            None => {
                assert(!usize_digits(
                    spec_fields(card_body(line@).take(char_index(card_body(line@), '|')))[i as int],
                ));
                assert(!card_body_ok(card_body(line@)));
                return None;
            }
        }
        i = i + 1;
    }
    let mut mine: Vec<usize> = Vec::new();
    let mut j: usize = 0;
    while j < mfields.len()
        invariant
            0 <= j <= mfields@.len(),
            mfields@.len() == card_mine(line@).len(),
            forall|k2: int|
                0 <= k2 < mfields@.len() ==> mfields@[k2]@ == spec_fields(
                    card_body(line@).skip(char_index(card_body(line@), '|') + 1),
                )[k2],
            mine@.len() == j,
            forall|k2: int| 0 <= k2 < j ==> #[trigger] mine@[k2] == card_mine(line@)[k2],
            forall|k2: int|
                0 <= k2 < j ==> usize_digits(
                    #[trigger] spec_fields(
                        card_body(line@).skip(char_index(card_body(line@), '|') + 1),
                    )[k2],
                ),
        decreases mfields@.len() - j,
    {
        match parse_usize(&mfields[j]) {
            Some(n) => {
                mine.push(n);
            }
            None => {
                assert(!usize_digits(
                    spec_fields(
                        card_body(line@).skip(char_index(card_body(line@), '|') + 1),
                    )[j as int],
                ));
                assert(!card_body_ok(card_body(line@)));
                return None;
            }
        }
        j = j + 1;
    }
    assert(card_ok(line@));
    Some((winning, mine))
}

proof fn lemma_digits_prefix(s: Seq<char>, a: int, i: int)
    requires
        a <= i < digits_end(s, a),
        0 <= a,
    ensures
        crate::text::is_digit(s[i]),
    decreases i - a,
{
    if a < s.len() && crate::text::is_digit(s[a]) {
        if i > a {
            lemma_digits_prefix(s, a + 1, i);
        }
    }
}

/// Counts the distinct own numbers that appear among the winning numbers.
pub fn count_matches(mine: &Vec<usize>, winning: &Vec<usize>) -> (r: usize)
    ensures
        r == match_count(
            Seq::new(mine@.len(), |i: int| mine@[i] as int),
            Seq::new(winning@.len(), |i: int| winning@[i] as int),
            mine@.len() as int,
        ),
{
    let ghost ms = Seq::new(mine@.len(), |i: int| mine@[i] as int);
    let ghost ws = Seq::new(winning@.len(), |i: int| winning@[i] as int);
    let mut count: usize = 0;
    let mut i: usize = 0;
    while i < mine.len()
        invariant
            ms == Seq::new(mine@.len(), |k: int| mine@[k] as int),
            ws == Seq::new(winning@.len(), |k: int| winning@[k] as int),
            0 <= i <= mine@.len(),
            count <= i,
            count == match_count(ms, ws, i as int),
        decreases mine@.len() - i,
    {
        let v = mine[i];
        let mut seen = false;
        let mut k: usize = 0;
        while k < i
            invariant
                0 <= k <= i <= mine@.len(),
                ms == Seq::new(mine@.len(), |m: int| mine@[m] as int),
                seen == ms.take(i as int).subrange(0, k as int).contains(v as int),
            decreases i - k,
        {
            let hit = mine[k] == v;
            proof {
                let pre = ms.take(i as int).subrange(0, k as int + 1);
                assert(pre.drop_last() =~= ms.take(i as int).subrange(0, k as int));
                if hit {
                    assert(pre[k as int] == v as int);
                    assert(pre.contains(v as int));
                } else {
                    if pre.contains(v as int) {
                        let w = choose|w: int| 0 <= w < pre.len() && pre[w] == v as int;
                        if w < k {
                            assert(pre.drop_last()[w] == v as int);
                            assert(pre.drop_last().contains(v as int));
                        }
                    }
                }
            }
            if hit {
                seen = true;
                assert(ms.take(i as int).subrange(0, k as int + 1).contains(v as int));
            }
            proof {
                if !seen {
                    assert(!ms.take(i as int).subrange(0, k as int + 1).contains(v as int));
                }
            }
            k = k + 1;
        }
        assert(ms.take(i as int).subrange(0, i as int) =~= ms.take(i as int));
        let mut won = false;
        let mut w: usize = 0;
        while w < winning.len()
            invariant
                0 <= w <= winning@.len(),
                ws == Seq::new(winning@.len(), |m: int| winning@[m] as int),
                won == ws.subrange(0, w as int).contains(v as int),
            decreases winning@.len() - w,
        {
            let hit = winning[w] == v;
            proof {
                let pre = ws.subrange(0, w as int + 1);
                assert(pre.drop_last() =~= ws.subrange(0, w as int));
                if hit {
                    assert(pre[w as int] == v as int);
                    assert(pre.contains(v as int));
                } else {
                    if pre.contains(v as int) {
                        let q = choose|q: int| 0 <= q < pre.len() && pre[q] == v as int;
                        if q < w {
                            assert(pre.drop_last()[q] == v as int);
                            assert(pre.drop_last().contains(v as int));
                        }
                    }
                }
            }
            if hit {
                won = true;
                assert(ws.subrange(0, w as int + 1).contains(v as int));
            }
            proof {
                if !won {
                    assert(!ws.subrange(0, w as int + 1).contains(v as int));
                }
            }
            w = w + 1;
        }
        assert(ws.subrange(0, winning@.len() as int) =~= ws);
        assert(ms[i as int] == v as int);
        if won && !seen {
            count = count + 1;
        }
        i = i + 1;
    }
    count
}

} // verus!
