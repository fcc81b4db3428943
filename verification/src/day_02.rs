//! Cube game: each line lists a game of semicolon-separated rounds, each
//! round comma-separated counts of red, green and blue cubes.

pub mod problem_1;
pub mod problem_2;

use vstd::prelude::*;
use crate::text::{
    char_index, contains_char, num_val, parse_usize, spec_fields, spec_split, split_char,
    split_fields, split_once_char, usize_digits,
};

verus! {

pub open spec fn is_red(f: Seq<char>) -> bool {
    f.len() == 3 && f[0] == 'r' && f[1] == 'e' && f[2] == 'd'
}

pub open spec fn is_green(f: Seq<char>) -> bool {
    f.len() == 5 && f[0] == 'g' && f[1] == 'r' && f[2] == 'e' && f[3] == 'e' && f[4] == 'n'
}

pub open spec fn is_blue(f: Seq<char>) -> bool {
    f.len() == 4 && f[0] == 'b' && f[1] == 'l' && f[2] == 'u' && f[3] == 'e'
}

/// An entry is a count and a colour word.
pub open spec fn entry_ok(entry: Seq<char>) -> bool {
    &&& spec_fields(entry).len() == 2
    &&& usize_digits(spec_fields(entry)[0])
    &&& (is_red(spec_fields(entry)[1]) || is_green(spec_fields(entry)[1]) || is_blue(
        spec_fields(entry)[1],
    ))
}

/// The cube counts a round shows, entry by entry; a colour named twice keeps
/// its last count.
pub open spec fn round_acc(entries: Seq<Seq<char>>, upto: int) -> (int, int, int)
    decreases upto,
{
    if upto <= 0 {
        (0, 0, 0)
    } else {
        let prev = round_acc(entries, upto - 1);
        let f = spec_fields(entries[upto - 1]);
        if is_red(f[1]) {
            (num_val(f[0]), prev.1, prev.2)
        } else if is_green(f[1]) {
            (prev.0, num_val(f[0]), prev.2)
        } else {
            (prev.0, prev.1, num_val(f[0]))
        }
    }
}

/// The comma-separated entries of one round.
pub open spec fn round_entries(rt: Seq<char>) -> Seq<Seq<char>> {
    spec_split(rt, ',')
}

pub open spec fn round_ok(rt: Seq<char>) -> bool {
    forall|i: int|
        0 <= i < round_entries(rt).len() ==> entry_ok(#[trigger] round_entries(rt)[i])
}

/// The red, green and blue counts of one round.
pub open spec fn round_vals(rt: Seq<char>) -> (int, int, int) {
    round_acc(round_entries(rt), round_entries(rt).len() as int)
}

/// The text after the game head.
pub open spec fn game_body(line: Seq<char>) -> Seq<char> {
    line.skip(5).skip(char_index(line.skip(5), ':') + 1)
}

/// The game's identifier text, between the label and the colon.
pub open spec fn game_id_text(line: Seq<char>) -> Seq<char> {
    line.skip(5).take(char_index(line.skip(5), ':'))
}

/// The semicolon-separated rounds of the game.
pub open spec fn game_rounds(line: Seq<char>) -> Seq<Seq<char>> {
    spec_split(game_body(line), ';')
}

/// A line is the label `Game `, a number, a colon, and readable rounds.
pub open spec fn game_ok(line: Seq<char>) -> bool {
    &&& line.len() >= 5
    &&& line[0] == 'G' && line[1] == 'a' && line[2] == 'm' && line[3] == 'e' && line[4] == ' '
    &&& contains_char(line.skip(5), ':')
    &&& usize_digits(game_id_text(line))
    &&& forall|k: int|
        0 <= k < game_rounds(line).len() ==> round_ok(#[trigger] game_rounds(line)[k])
}

pub open spec fn game_id(line: Seq<char>) -> int {
    num_val(game_id_text(line))
}

/// Reads one round's counts; `None` exactly when an entry is not a count
/// and a colour.
fn parse_round(rt: &Vec<char>) -> (r: Option<(usize, usize, usize)>)
    ensures
        r is Some <==> round_ok(rt@),
        r matches Some(v) ==> (v.0 as int, v.1 as int, v.2 as int) == round_vals(rt@),
{
    let entries = split_char(rt, ',');
    let mut red: usize = 0;
    let mut green: usize = 0;
    let mut blue: usize = 0;
    let mut k: usize = 0;
    while k < entries.len()
        invariant
            entries@.len() == round_entries(rt@).len(),
            forall|i: int| 0 <= i < entries@.len() ==> entries@[i]@ == round_entries(rt@)[i],
            0 <= k <= entries@.len(),
            forall|i: int| 0 <= i < k ==> entry_ok(#[trigger] round_entries(rt@)[i]),
            (red as int, green as int, blue as int) == round_acc(round_entries(rt@), k as int),
        decreases entries@.len() - k,
    {
        let fields = split_fields(&entries[k]);
        if fields.len() != 2 {
            assert(!entry_ok(round_entries(rt@)[k as int]));
            return None;
        }
        let count = match parse_usize(&fields[0]) {
            Some(v) => v,
            None => {
                assert(!entry_ok(round_entries(rt@)[k as int]));
                return None;
            }
        };
        let word: &Vec<char> = &fields[1];
        if word.len() == 3 && word[0] == 'r' && word[1] == 'e' && word[2] == 'd' {
            red = count;
        } else if word.len() == 5 && word[0] == 'g' && word[1] == 'r' && word[2] == 'e' && word[3]
            == 'e' && word[4] == 'n' {
            green = count;
        } else if word.len() == 4 && word[0] == 'b' && word[1] == 'l' && word[2] == 'u' && word[3]
            == 'e' {
            blue = count;
        } else {
            assert(!entry_ok(round_entries(rt@)[k as int]));
            return None;
        }
        assert(entry_ok(round_entries(rt@)[k as int]));
        k = k + 1;
    }
    Some((red, green, blue))
}

/// Reads one game line into its identifier and its rounds' counts; `None`
/// exactly when the line leaves the game grammar.
pub fn parse_game(line: &Vec<char>) -> (r: Option<(usize, Vec<(usize, usize, usize)>)>)
    ensures
        r is Some <==> game_ok(line@),
        r matches Some(p) ==> {
            &&& p.0 as int == game_id(line@)
            &&& p.1@.len() == game_rounds(line@).len()
            &&& forall|k: int|
                0 <= k < p.1@.len() ==> ((#[trigger] p.1@[k]).0 as int, p.1@[k].1 as int,
                p.1@[k].2 as int) == round_vals(game_rounds(line@)[k])
        },
{
    if line.len() < 5 || !(line[0] == 'G' && line[1] == 'a' && line[2] == 'm' && line[3] == 'e'
        && line[4] == ' ') {
        return None;
    }
    let mut rest: Vec<char> = Vec::new();
    let mut i: usize = 5;
    while i < line.len()
        invariant
            5 <= i <= line@.len(),
            rest@ == line@.subrange(5, i as int),
        decreases line@.len() - i,
    {
        rest.push(line[i]);
        assert(rest@ =~= line@.subrange(5, i as int + 1));
        i = i + 1;
    }
    assert(rest@ =~= line@.skip(5));
    let (id_text, body) = match split_once_char(&rest, ':') {
        Some(p) => p,
        None => {
            return None;
        }
    };
    assert(id_text@ == game_id_text(line@));
    assert(body@ == game_body(line@));
    let id = match parse_usize(&id_text) {
        Some(v) => v,
        None => {
            return None;
        }
    };
    let rounds_text = split_char(&body, ';');
    let mut rounds: Vec<(usize, usize, usize)> = Vec::new();
    let mut k: usize = 0;
    while k < rounds_text.len()
        invariant
            rounds_text@.len() == game_rounds(line@).len(),
            forall|i2: int|
                0 <= i2 < rounds_text@.len() ==> rounds_text@[i2]@ == game_rounds(line@)[i2],
            0 <= k <= rounds_text@.len(),
            forall|i2: int| 0 <= i2 < k ==> round_ok(#[trigger] game_rounds(line@)[i2]),
            rounds@.len() == k,
            forall|i2: int|
                0 <= i2 < k ==> ((#[trigger] rounds@[i2]).0 as int, rounds@[i2].1 as int,
                rounds@[i2].2 as int) == round_vals(game_rounds(line@)[i2]),
        decreases rounds_text@.len() - k,
    {
        match parse_round(&rounds_text[k]) {
            Some(v) => {
                rounds.push(v);
            }
            None => {
                assert(!round_ok(game_rounds(line@)[k as int]));
                return None;
            }
        }
        k = k + 1;
    }
    assert(game_ok(line@));
    Some((id, rounds))
}

} // verus!
