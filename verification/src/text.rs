//! Shared helpers for walking over puzzle input text: collecting the
//! characters of a string, splitting them into lines and fields, and reading
//! unsigned numbers.

use vstd::prelude::*;
use vstd::std_specs::iter::IteratorSpec;

verus! {

broadcast use vstd::string::axiom_spec_iter, vstd::string::next_postcondition;

/// Collects the characters of a string slice into a vector.
pub fn chars_vec(s: &str) -> (r: Vec<char>)
    ensures
        r@ == s@,
{
    let mut it = s.chars();
    let mut out: Vec<char> = Vec::new();
    loop
        invariant
            out@ + it.remaining() == s@,
            it.decrease() is Some,
        ensures
            out@ == s@,
        decreases it.decrease()->0,
    {
        match it.next() {
            Some(c) => {
                out.push(c);
                assert(out@ + it.remaining() == s@);
            }
            None => {
                assert(out@ + it.remaining() =~= out@);
                break;
            }
        }
    }
    out
}

/// A line terminator; a carriage return directly before it is dropped.
pub open spec fn is_line_break(c: char) -> bool {
    c == '\n'
}

/// Whitespace that separates fields on a line.
pub open spec fn is_ws(c: char) -> bool {
    c == ' ' || c == '\t' || c == '\r' || c == '\n'
}

/// An ASCII decimal digit.
pub open spec fn is_digit(c: char) -> bool {
    '0' <= c && c <= '9'
}

pub open spec fn digit_val(c: char) -> int {
    c as int - '0' as int
}

/// Drops one trailing carriage return, if present.
pub open spec fn strip_cr(s: Seq<char>) -> Seq<char> {
    if s.len() > 0 && s[s.len() - 1] == '\r' {
        s.drop_last()
    } else {
        s
    }
}

/// The lines of `s`, split on `'\n'` with a `'\r'` before the break dropped;
/// a final break does not open an empty last line. `cur` is the part of the
/// current line already read.
pub open spec fn lines_go(s: Seq<char>, cur: Seq<char>) -> Seq<Seq<char>>
    decreases s.len(),
{
    if s.len() == 0 {
        if cur.len() == 0 {
            Seq::empty()
        } else {
            seq![cur]
        }
    } else if is_line_break(s[0]) {
        seq![strip_cr(cur)] + lines_go(s.drop_first(), Seq::empty())
    } else {
        lines_go(s.drop_first(), cur.push(s[0]))
    }
}

pub open spec fn spec_lines(s: Seq<char>) -> Seq<Seq<char>> {
    lines_go(s, Seq::empty())
}

/// The maximal runs of non-whitespace characters of `s`.
pub open spec fn fields_go(s: Seq<char>, cur: Seq<char>) -> Seq<Seq<char>>
    decreases s.len(),
{
    if s.len() == 0 {
        if cur.len() == 0 {
            Seq::empty()
        } else {
            seq![cur]
        }
    } else if is_ws(s[0]) {
        if cur.len() == 0 {
            fields_go(s.drop_first(), Seq::empty())
        } else {
            seq![cur] + fields_go(s.drop_first(), Seq::empty())
        }
    } else {
        fields_go(s.drop_first(), cur.push(s[0]))
    }
}

pub open spec fn spec_fields(s: Seq<char>) -> Seq<Seq<char>> {
    fields_go(s, Seq::empty())
}

/// Splits on every occurrence of `sep`, keeping empty segments: `n`
/// separators give `n + 1` segments.
pub open spec fn split_go(s: Seq<char>, sep: char, cur: Seq<char>) -> Seq<Seq<char>>
    decreases s.len(),
{
    if s.len() == 0 {
        seq![cur]
    } else if s[0] == sep {
        seq![cur] + split_go(s.drop_first(), sep, Seq::empty())
    } else {
        split_go(s.drop_first(), sep, cur.push(s[0]))
    }
}

pub open spec fn spec_split(s: Seq<char>, sep: char) -> Seq<Seq<char>> {
    split_go(s, sep, Seq::empty())
}

/// Splits at every `sep`, as `spec_split` describes.
pub fn split_char(cs: &Vec<char>, sep: char) -> (r: Vec<Vec<char>>)
    ensures
        r@.len() == spec_split(cs@, sep).len(),
        forall|i: int| 0 <= i < r@.len() ==> r@[i]@ == spec_split(cs@, sep)[i],
{
    let mut out: Vec<Vec<char>> = Vec::new();
    let ghost mut done: Seq<Seq<char>> = Seq::empty();
    let mut cur: Vec<char> = Vec::new();
    let mut i: usize = 0;
    assert(cs@.skip(0) =~= cs@);
    assert(Seq::<Seq<char>>::empty() + split_go(cs@, sep, Seq::empty()) =~= split_go(
        cs@,
        sep,
        Seq::empty(),
    ));
    while i < cs.len()
        invariant
            0 <= i <= cs@.len(),
            out@.len() == done.len(),
            forall|k: int| 0 <= k < done.len() ==> out@[k]@ == done[k],
            spec_split(cs@, sep) == done + split_go(cs@.skip(i as int), sep, cur@),
        decreases cs@.len() - i,
    {
        let c = cs[i];
        assert(cs@.skip(i as int)[0] == c);
        assert(cs@.skip(i as int).drop_first() =~= cs@.skip(i as int + 1));
        if c == sep {
            let ghost done0 = done;
            let ghost cur0 = cur@;
            out.push(cur);
            proof {
                done = done.push(cur@);
            }
            cur = Vec::new();
            assert(done0 + (seq![cur0] + split_go(cs@.skip(i as int + 1), sep, Seq::empty()))
                =~= done + split_go(cs@.skip(i as int + 1), sep, Seq::empty()));
        } else {
            cur.push(c);
        }
        i = i + 1;
    }
    assert(cs@.skip(i as int) =~= Seq::<char>::empty());
    out.push(cur);
    proof {
        done = done.push(cur@);
    }
    assert(spec_split(cs@, sep) =~= done);
    out
}

pub open spec fn all_digits(s: Seq<char>) -> bool {
    forall|i: int| 0 <= i < s.len() ==> is_digit(s[i])
}

/// The value of a digit string read in base ten.
pub open spec fn num_val(s: Seq<char>) -> int
    decreases s.len(),
{
    if s.len() == 0 {
        0
    } else {
        num_val(s.drop_last()) * 10 + digit_val(s.last())
    }
}

pub proof fn lemma_num_val_bounds(s: Seq<char>, j: int)
    requires
        all_digits(s),
        0 <= j <= s.len(),
    ensures
        0 <= num_val(s.take(j)),
        num_val(s.take(j)) <= num_val(s),
    decreases s.len() - j,
{
    if j == s.len() {
        assert(s.take(j) =~= s);
        lemma_num_val_nonneg(s);
    } else {
        lemma_num_val_bounds(s, j + 1);
        assert(s.take(j + 1).drop_last() =~= s.take(j));
        assert(s.take(j + 1).last() == s[j]);
        lemma_num_val_nonneg(s.take(j));
    }
}

pub proof fn lemma_num_val_nonneg(s: Seq<char>)
    requires
        all_digits(s),
    ensures
        num_val(s) >= 0,
    decreases s.len(),
{
    if s.len() > 0 {
        assert(all_digits(s.drop_last())) by {
            assert(forall|i: int| 0 <= i < s.len() - 1 ==> s.drop_last()[i] == s[i]);
        }
        lemma_num_val_nonneg(s.drop_last());
    }
}

/// Splits the characters into lines, as `spec_lines` describes.
pub fn split_lines(cs: &Vec<char>) -> (r: Vec<Vec<char>>)
    ensures
        r@.len() == spec_lines(cs@).len(),
        forall|i: int| 0 <= i < r@.len() ==> r@[i]@ == spec_lines(cs@)[i],
{
    let mut out: Vec<Vec<char>> = Vec::new();
    let ghost mut done: Seq<Seq<char>> = Seq::empty();
    let mut cur: Vec<char> = Vec::new();
    let mut i: usize = 0;
    assert(cs@.skip(0) =~= cs@);
    assert(Seq::<Seq<char>>::empty() + lines_go(cs@, Seq::empty()) =~= lines_go(cs@, Seq::empty()));
    while i < cs.len()
        invariant
            0 <= i <= cs@.len(),
            out@.len() == done.len(),
            forall|k: int| 0 <= k < done.len() ==> out@[k]@ == done[k],
            spec_lines(cs@) == done + lines_go(cs@.skip(i as int), cur@),
        decreases cs@.len() - i,
    {
        let c = cs[i];
        assert(cs@.skip(i as int)[0] == c);
        assert(cs@.skip(i as int).drop_first() =~= cs@.skip(i as int + 1));
        if c == '\n' {
            let ghost cur0 = cur@;
            if cur.len() > 0 && cur[cur.len() - 1] == '\r' {
                cur.pop();
            }
            assert(cur@ =~= strip_cr(cur0));
            out.push(cur);
            proof {
                done = done.push(cur@);
            }
            cur = Vec::new();
        } else {
            cur.push(c);
        }
        i = i + 1;
    }
    assert(cs@.skip(i as int) =~= Seq::<char>::empty());
    if cur.len() > 0 {
        out.push(cur);
        proof {
            done = done.push(cur@);
        }
    }
    assert(spec_lines(cs@) =~= done);
    out
}

/// Splits a line into whitespace-separated fields, as `spec_fields` describes.
pub fn split_fields(cs: &Vec<char>) -> (r: Vec<Vec<char>>)
    ensures
        r@.len() == spec_fields(cs@).len(),
        forall|i: int| 0 <= i < r@.len() ==> r@[i]@ == spec_fields(cs@)[i],
{
    let mut out: Vec<Vec<char>> = Vec::new();
    let ghost mut done: Seq<Seq<char>> = Seq::empty();
    let mut cur: Vec<char> = Vec::new();
    let mut i: usize = 0;
    assert(cs@.skip(0) =~= cs@);
    assert(Seq::<Seq<char>>::empty() + fields_go(cs@, Seq::empty()) =~= fields_go(cs@, Seq::empty()));
    while i < cs.len()
        invariant
            0 <= i <= cs@.len(),
            out@.len() == done.len(),
            forall|k: int| 0 <= k < done.len() ==> out@[k]@ == done[k],
            spec_fields(cs@) == done + fields_go(cs@.skip(i as int), cur@),
        decreases cs@.len() - i,
    {
        let c = cs[i];
        assert(cs@.skip(i as int)[0] == c);
        assert(cs@.skip(i as int).drop_first() =~= cs@.skip(i as int + 1));
        if c == ' ' || c == '\t' || c == '\r' || c == '\n' {
            if cur.len() > 0 {
                let ghost done0 = done;
                let ghost cur0 = cur@;
                out.push(cur);
                proof {
                    done = done.push(cur@);
                }
                cur = Vec::new();
                assert(done0 + (seq![cur0] + fields_go(cs@.skip(i as int + 1), Seq::empty()))
                    =~= done + fields_go(cs@.skip(i as int + 1), Seq::empty()));
            } else {
                assert(cur@ =~= Seq::<char>::empty());
            }
        } else {
            cur.push(c);
        }
        i = i + 1;
    }
    assert(cs@.skip(i as int) =~= Seq::<char>::empty());
    if cur.len() > 0 {
        out.push(cur);
        proof {
            done = done.push(cur@);
        }
    }
    assert(spec_fields(cs@) =~= done);
    out
}

/// Failure of a puzzle solver.
#[derive(Clone, Copy, PartialEq, Eq, Structural, Debug)]
pub enum SolveError {
    /// The input does not follow the puzzle's grammar.
    Malformed,
    /// An intermediate value does not fit the result type.
    Overflow,
    /// The walk the input describes never reaches its goal.
    Unsolvable,
}

/// The first position at or after `i` that is not a space.
pub open spec fn ws_end(s: Seq<char>, i: int) -> int
    decreases s.len() - i,
{
    if i < 0 || i >= s.len() || !is_ws(s[i]) {
        i
    } else {
        ws_end(s, i + 1)
    }
}

/// The first position at or after `i` that is not a digit.
pub open spec fn digits_end(s: Seq<char>, i: int) -> int
    decreases s.len() - i,
{
    if i < 0 || i >= s.len() || !is_digit(s[i]) {
        i
    } else {
        digits_end(s, i + 1)
    }
}

/// Whether `c` occurs in `s`.
pub open spec fn contains_char(s: Seq<char>, c: char) -> bool {
    exists|i: int| 0 <= i < s.len() && s[i] == c
}

/// The index of the first occurrence of `c`, or the length when absent.
pub open spec fn char_index(s: Seq<char>, c: char) -> int
    decreases s.len(),
{
    if s.len() == 0 {
        0
    } else if s[0] == c {
        0
    } else {
        1 + char_index(s.drop_first(), c)
    }
}

pub proof fn lemma_char_index_bounds(s: Seq<char>, c: char)
    ensures
        0 <= char_index(s, c) <= s.len(),
        contains_char(s, c) ==> char_index(s, c) < s.len() && s[char_index(s, c)] == c,
        forall|k: int| 0 <= k < char_index(s, c) ==> s[k] != c,
    decreases s.len(),
{
    if s.len() > 0 && s[0] != c {
        lemma_char_index_bounds(s.drop_first(), c);
        assert(forall|k: int|
            0 <= k < s.drop_first().len() ==> s.drop_first()[k] == s[k + 1]);
        if contains_char(s, c) {
            let i = choose|i: int| 0 <= i < s.len() && s[i] == c;
            assert(s.drop_first()[i - 1] == c);
            assert(contains_char(s.drop_first(), c));
        }
        assert forall|k: int| 0 <= k < char_index(s, c) implies s[k] != c by {
            if k > 0 {
                assert(s.drop_first()[k - 1] != c);
            }
        }
    }
}

pub proof fn lemma_char_index_is(s: Seq<char>, c: char, j: int)
    requires
        0 <= j <= s.len(),
        forall|k: int| 0 <= k < j ==> s[k] != c,
        j < s.len() ==> s[j] == c,
        j == s.len() ==> !contains_char(s, c),
    ensures
        char_index(s, c) == j,
    decreases j,
{
    if s.len() == 0 {
    } else if j == 0 {
    } else {
        assert(s[0] != c);
        let s2 = s.drop_first();
        assert(forall|k: int| 0 <= k < j - 1 ==> s2[k] == s[k + 1] && s[k + 1] != c);
        if j - 1 < s2.len() {
            assert(s2[j - 1] == s[j]);
        } else {
            assert(!contains_char(s2, c)) by {
                if contains_char(s2, c) {
                    let i = choose|i: int| 0 <= i < s2.len() && s2[i] == c;
                    assert(s[i + 1] == c);
                }
            }
        }
        lemma_char_index_is(s2, c, j - 1);
    }
}

/// Splits at the first occurrence of `sep`, which is dropped; `None` exactly
/// when `sep` does not occur.
pub fn split_once_char(cs: &Vec<char>, sep: char) -> (r: Option<(Vec<char>, Vec<char>)>)
    ensures
        r is Some <==> contains_char(cs@, sep),
        r matches Some(parts) ==> {
            &&& parts.0@ == cs@.take(char_index(cs@, sep))
            &&& parts.1@ == cs@.skip(char_index(cs@, sep) + 1)
        },
{
    let mut i: usize = 0;
    while i < cs.len()
        invariant
            0 <= i <= cs@.len(),
            forall|k: int| 0 <= k < i ==> cs@[k] != sep,
        decreases cs@.len() - i,
    {
        if cs[i] == sep {
            proof {
                lemma_char_index_is(cs@, sep, i as int);
            }
            let mut before: Vec<char> = Vec::new();
            let mut k: usize = 0;
            while k < i
                invariant
                    0 <= k <= i <= cs@.len(),
                    before@ == cs@.take(k as int),
                decreases i - k,
            {
                before.push(cs[k]);
                assert(before@ =~= cs@.take(k as int + 1));
                k = k + 1;
            }
            let mut after: Vec<char> = Vec::new();
            let mut m: usize = i + 1;
            while m < cs.len()
                invariant
                    i as int + 1 <= m as int <= cs@.len(),
                    after@ == cs@.subrange(i as int + 1, m as int),
                decreases cs@.len() - m,
            {
                after.push(cs[m]);
                assert(after@ =~= cs@.subrange(i as int + 1, m as int + 1));
                m = m + 1;
            }
            assert(after@ =~= cs@.skip(i as int + 1));
            return Some((before, after));
        }
        i = i + 1;
    }
    proof {
        if contains_char(cs@, sep) {
            let k = choose|k: int| 0 <= k < cs@.len() && cs@[k] == sep;
            assert(false);
        }
    }
    None
}

/// The characters of `s` that are not whitespace, in order.
pub open spec fn keep_non_ws(s: Seq<char>) -> Seq<char>
    decreases s.len(),
{
    if s.len() == 0 {
        Seq::empty()
    } else {
        keep_non_ws(s.drop_last()) + if is_ws(s.last()) {
            Seq::empty()
        } else {
            seq![s.last()]
        }
    }
}

/// Drops every whitespace character.
pub fn strip_ws(cs: &Vec<char>) -> (r: Vec<char>)
    ensures
        r@ == keep_non_ws(cs@),
{
    let mut out: Vec<char> = Vec::new();
    let mut i: usize = 0;
    assert(cs@.take(0) =~= Seq::<char>::empty());
    while i < cs.len()
        invariant
            0 <= i <= cs@.len(),
            out@ == keep_non_ws(cs@.take(i as int)),
        decreases cs@.len() - i,
    {
        let c = cs[i];
        assert(cs@.take(i as int + 1).drop_last() =~= cs@.take(i as int));
        assert(cs@.take(i as int + 1).last() == c);
        if !(c == ' ' || c == '\t' || c == '\r' || c == '\n') {
            out.push(c);
        }
        i = i + 1;
    }
    assert(cs@.take(i as int) =~= cs@);
    out
}

/// Whether a digit string is well formed and its value fits in `usize`.
pub open spec fn usize_digits(s: Seq<char>) -> bool {
    s.len() > 0 && all_digits(s) && num_val(s) <= usize::MAX
}

/// Reads an unsigned base-ten number; `None` exactly on an empty string, a
/// non-digit, or a value over `usize::MAX`.
pub fn parse_usize(cs: &Vec<char>) -> (r: Option<usize>)
    ensures
        r is Some <==> usize_digits(cs@),
        r matches Some(n) ==> n == num_val(cs@),
{
    if cs.len() == 0 {
        return None;
    }
    let mut acc: usize = 0;
    let mut i: usize = 0;
    while i < cs.len()
        invariant
            0 <= i <= cs@.len(),
            cs@.len() > 0,
            all_digits(cs@.take(i as int)),
            acc == num_val(cs@.take(i as int)),
        decreases cs@.len() - i,
    {
        let c = cs[i];
        if c < '0' || c > '9' {
            assert(!all_digits(cs@));
            return None;
        }
        let d: usize = (c as usize) - 48;
        assert(cs@.take(i as int + 1).drop_last() =~= cs@.take(i as int));
        assert(cs@.take(i as int + 1).last() == cs@[i as int]);
        let next = match acc.checked_mul(10) {
            Some(m) => m.checked_add(d),
            None => None,
        };
        match next {
            Some(v) => {
                acc = v;
            }
            None => {
                assert(num_val(cs@.take(i as int + 1)) > usize::MAX);
                assert(!usize_digits(cs@)) by {
                    if all_digits(cs@) {
                        lemma_num_val_bounds(cs@, i as int + 1);
                    }
                }
                return None;
            }
        }
        i = i + 1;
    }
    assert(cs@.take(i as int) =~= cs@);
    Some(acc)
}

/// Whether a string is an optionally signed number whose value fits the
/// symmetric `isize` range.
pub open spec fn isize_digits(s: Seq<char>) -> bool {
    if s.len() > 0 && s[0] == '-' {
        s.drop_first().len() > 0 && all_digits(s.drop_first()) && num_val(s.drop_first())
            <= isize::MAX
    } else {
        s.len() > 0 && all_digits(s) && num_val(s) <= isize::MAX
    }
}

/// The signed value of an optionally `'-'`-prefixed digit string.
pub open spec fn signed_val(s: Seq<char>) -> int {
    if s.len() > 0 && s[0] == '-' {
        -num_val(s.drop_first())
    } else {
        num_val(s)
    }
}

/// Reads a signed base-ten number; `None` exactly when `isize_digits` fails.
pub fn parse_isize(cs: &Vec<char>) -> (r: Option<isize>)
    ensures
        r is Some <==> isize_digits(cs@),
        r matches Some(n) ==> n == signed_val(cs@),
{
    if cs.len() > 0 && cs[0] == '-' {
        let mut rest: Vec<char> = Vec::new();
        let mut i: usize = 1;
        while i < cs.len()
            invariant
                1 <= i <= cs@.len(),
                rest@ == cs@.subrange(1, i as int),
            decreases cs@.len() - i,
        {
            rest.push(cs[i]);
            assert(rest@ =~= cs@.subrange(1, i as int + 1));
            i = i + 1;
        }
        assert(rest@ =~= cs@.drop_first());
        match parse_usize(&rest) {
            Some(n) => {
                if n <= (isize::MAX as usize) {
                    Some(-(n as isize))
                } else {
                    None
                }
            }
            None => None,
        }
    } else {
        match parse_usize(cs) {
            Some(n) => {
                if n <= (isize::MAX as usize) {
                    Some(n as isize)
                } else {
                    None
                }
            }
            None => None,
        }
    }
}

} // verus!
