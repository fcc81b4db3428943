//! A network of three-letter nodes and a left/right instruction tape: walk
//! the network under the cycled tape, and combine the ghostly walks by their
//! cycle lengths.

use vstd::prelude::*;
use crate::text::{chars_vec, spec_lines, split_lines, SolveError};

verus! {

/// One step of the instruction tape.
#[derive(Clone, Copy, PartialEq, Eq, Structural, Debug)]
pub enum Indication {
    Right,
    Left,
}

/// A node name: three characters.
pub type Name = (char, char, char);

/// The two exits of a node.
#[derive(Clone, Copy, Debug)]
pub struct Direction {
    pub right: Name,
    pub left: Name,
}

impl Direction {
    /// The exit an indication picks.
    pub fn to(&self, indication: &Indication) -> (r: Name)
        ensures
            r == spec_to(*self, *indication),
    {
        match indication {
            Indication::Right => self.right,
            Indication::Left => self.left,
        }
    }
}

pub open spec fn spec_to(d: Direction, i: Indication) -> Name {
    match i {
        Indication::Right => d.right,
        Indication::Left => d.left,
    }
}

/// The network: nodes in the order the input lists them; a name listed
/// twice keeps its last entry.
pub struct Directions {
    pub entries: Vec<(Name, Direction)>,
}

/// The last entry under a name, as a repeated insertion would leave it.
pub open spec fn lookup(entries: Seq<(Name, Direction)>, key: Name) -> Option<Direction>
    decreases entries.len(),
{
    if entries.len() == 0 {
        None
    } else if entries.last().0 == key {
        Some(entries.last().1)
    } else {
        lookup(entries.drop_last(), key)
    }
}

/// Where one step from `from` leads, or `None` for an unknown name.
pub open spec fn spec_next(entries: Seq<(Name, Direction)>, ind: Indication, from: Name) -> Option<
    Name,
> {
    match lookup(entries, from) {
        Some(d) => Some(spec_to(d, ind)),
        None => None,
    }
}

impl Directions {
    /// An empty network.
    pub fn new() -> (r: Directions)
        ensures
            r.entries@.len() == 0,
    {
        Directions { entries: Vec::new() }
    }

    /// Adds a node; a later entry shadows an earlier one of the same name.
    pub fn add_direction(&mut self, from: Name, right: Name, left: Name)
        ensures
            final (self).entries@ == old(self).entries@.push((from, Direction { right, left })),
    {
        self.entries.push((from, Direction { right, left }));
    }

    /// Follows one indication from `from`; `None` for an unknown name.
    pub fn next(&self, indication: &Indication, from: Name) -> (r: Option<Name>)
        ensures
            r == spec_next(self.entries@, *indication, from),
    {
        let mut i: usize = self.entries.len();
        assert(self.entries@.take(i as int) =~= self.entries@);
        while i > 0
            invariant
                0 <= i <= self.entries@.len(),
                lookup(self.entries@, from) == lookup(self.entries@.take(i as int), from),
            decreases i,
        {
            let e = self.entries[i - 1];
            assert(self.entries@.take(i as int).last() == e);
            assert(self.entries@.take(i as int).drop_last() =~= self.entries@.take(i as int - 1));
            if e.0.0 == from.0 && e.0.1 == from.1 && e.0.2 == from.2 {
                assert(e.0 == from);
                return Some(e.1.to(indication));
            }
            i = i - 1;
        }
        assert(self.entries@.take(0) =~= Seq::<(Name, Direction)>::empty());
        None
    }
}

/// The parsed puzzle: the instruction tape and the network.
pub struct Data {
    pub indications: Vec<Indication>,
    pub directions: Directions,
}

/// The indication a tape character denotes.
pub open spec fn ind_of(c: char) -> Option<Indication> {
    if c == 'R' {
        Some(Indication::Right)
    } else if c == 'L' {
        Some(Indication::Left)
    } else {
        None
    }
}

pub open spec fn tape_ok(line: Seq<char>) -> bool {
    forall|i: int| 0 <= i < line.len() ==> ind_of(#[trigger] line[i]) is Some
}

pub open spec fn tape_of(line: Seq<char>) -> Seq<Indication> {
    Seq::new(line.len(), |i: int| ind_of(line[i])->0)
}

/// A name character: an upper-case letter or a digit.
pub open spec fn name_char(c: char) -> bool {
    ('A' <= c && c <= 'Z') || ('0' <= c && c <= '9')
}

/// A node line: `XXX = (YYY, ZZZ)`, names of three letters or digits.
pub open spec fn node_line_ok(line: Seq<char>) -> bool {
    &&& line.len() == 16
    &&& (forall|i: int|
        (0 <= i < 3 || 7 <= i < 10 || 12 <= i < 15) ==> name_char(#[trigger] line[i]))
    &&& line[3] == ' ' && line[4] == '=' && line[5] == ' ' && line[6] == '('
    &&& line[10] == ',' && line[11] == ' '
    &&& line[15] == ')'
}

pub open spec fn node_of(line: Seq<char>) -> (Name, Direction) {
    (
        (line[0], line[1], line[2]),
        Direction { left: (line[7], line[8], line[9]), right: (line[12], line[13], line[14]) },
    )
}

/// The node lines: everything after the tape line and the line below it,
/// which is ignored.
pub open spec fn node_lines(s: Seq<char>) -> Seq<Seq<char>> {
    if spec_lines(s).len() >= 2 {
        spec_lines(s).skip(2)
    } else {
        Seq::empty()
    }
}

pub open spec fn input_ok(s: Seq<char>) -> bool {
    &&& spec_lines(s).len() >= 1
    &&& spec_lines(s)[0].len() > 0
    &&& tape_ok(spec_lines(s)[0])
    &&& forall|k: int| 0 <= k < node_lines(s).len() ==> node_line_ok(#[trigger] node_lines(s)[k])
}

/// Parses the instruction tape and the node list. Fails with `Malformed`
/// exactly when the tape is empty or holds a stray character, or a node line
/// leaves the `XXX = (YYY, ZZZ)` shape.
pub fn input_generator(input: &str) -> (r: Result<Data, SolveError>)
    ensures
        r is Ok <==> input_ok(input@),
        !input_ok(input@) ==> r == Err::<Data, SolveError>(SolveError::Malformed),
        r matches Ok(d) ==> {
            &&& d.indications@ == tape_of(spec_lines(input@)[0])
            &&& d.directions.entries@.len() == node_lines(input@).len()
            &&& (forall|k: int|
                0 <= k < d.directions.entries@.len() ==> #[trigger] d.directions.entries@[k]
                    == node_of(node_lines(input@)[k]))
        },
{
    let cs = chars_vec(input);
    let lines = split_lines(&cs);
    if lines.len() == 0 {
        return Err(SolveError::Malformed);
    }
    let tape_line: &Vec<char> = &lines[0];
    if tape_line.len() == 0 {
        return Err(SolveError::Malformed);
    }
    let mut indications: Vec<Indication> = Vec::new();
    let mut i: usize = 0;
    while i < tape_line.len()
        invariant
            tape_line@ == spec_lines(input@)[0],
            spec_lines(input@).len() >= 1,
            0 <= i <= tape_line@.len(),
            indications@.len() == i,
            forall|k: int| 0 <= k < i ==> ind_of(#[trigger] tape_line@[k]) is Some,
            forall|k: int| 0 <= k < i ==> #[trigger] indications@[k] == ind_of(tape_line@[k])->0,
        decreases tape_line@.len() - i,
    {
        let c = tape_line[i];
        if c == 'R' {
            indications.push(Indication::Right);
        } else if c == 'L' {
            indications.push(Indication::Left);
        } else {
            assert(ind_of(tape_line@[i as int]) is None);
            return Err(SolveError::Malformed);
        }
        i = i + 1;
    }
    assert(indications@ =~= tape_of(spec_lines(input@)[0]));
    let mut directions = Directions::new();
    let mut li: usize = 2;
    if lines.len() < 2 {
        assert(node_lines(input@) =~= Seq::<Seq<char>>::empty());
        assert(input_ok(input@));
        return Ok(Data { indications, directions });
    }
    while li < lines.len()
        invariant
            lines@.len() == spec_lines(input@).len(),
            forall|k: int| 0 <= k < lines@.len() ==> lines@[k]@ == spec_lines(input@)[k],
            spec_lines(input@).len() >= 2,
            node_lines(input@) == spec_lines(input@).skip(2),
            2 <= li <= lines@.len(),
            directions.entries@.len() == li - 2,
            forall|k: int|
                0 <= k < li - 2 ==> node_line_ok(#[trigger] node_lines(input@)[k]),
            forall|k: int|
                0 <= k < li - 2 ==> #[trigger] directions.entries@[k] == node_of(
                    node_lines(input@)[k],
                ),
        decreases lines@.len() - li,
    {
        let line: &Vec<char> = &lines[li];
        assert(line@ == node_lines(input@)[li - 2]);
        if line.len() != 16 {
            return Err(SolveError::Malformed);
        }
        let mut names_ok = true;
        let mut j: usize = 0;
        while j < 16
            invariant
                line@.len() == 16,
                0 <= j <= 16,
                names_ok == forall|m: int|
                    0 <= m < j && (0 <= m < 3 || 7 <= m < 10 || 12 <= m < 15) ==> name_char(
                        #[trigger] line@[m],
                    ),
            decreases 16 - j,
        {
            if j < 3 || (7 <= j && j < 10) || (12 <= j && j < 15) {
                let c = line[j];
                let good = ('A' <= c && c <= 'Z') || ('0' <= c && c <= '9');
                if !good {
                    assert(!name_char(line@[j as int]));
                    names_ok = false;
                }
            }
            j = j + 1;
        }
        if !names_ok {
            assert(!node_line_ok(line@));
            return Err(SolveError::Malformed);
        }
        if !(line[3] == ' ' && line[4] == '=' && line[5] == ' ' && line[6] == '(' && line[10]
            == ',' && line[11] == ' ' && line[15] == ')') {
            assert(!node_line_ok(line@));
            return Err(SolveError::Malformed);
        }
        assert(node_line_ok(line@));
        let from = (line[0], line[1], line[2]);
        let left = (line[7], line[8], line[9]);
        let right = (line[12], line[13], line[14]);
        directions.add_direction(from, right, left);
        assert(directions.entries@.last() == node_of(node_lines(input@)[li - 2]));
        li = li + 1;
    }
    assert(input_ok(input@));
    Ok(Data { indications, directions })
}

/// Whether a node is the walk's goal: the node `ZZZ` for the lone walk,
/// any name ending in `Z` for the ghostly ones.
pub open spec fn at_goal(n: Name, full: bool) -> bool {
    if full {
        n == (('Z', 'Z', 'Z'))
    } else {
        n.2 == 'Z'
    }
}

/// The steps a walk takes from `from` to the goal, following the cycled
/// tape from phase `i`; `None` when it runs off the network or `fuel` out.
pub open spec fn walk_steps(
    entries: Seq<(Name, Direction)>,
    inds: Seq<Indication>,
    from: Name,
    i: int,
    fuel: nat,
    full: bool,
) -> Option<nat>
    decreases fuel,
{
    if at_goal(from, full) {
        Some(0)
    } else if fuel == 0 {
        None
    } else {
        match spec_next(entries, inds[i], from) {
            None => None,
            Some(n) => match walk_steps(
                entries,
                inds,
                n,
                if i + 1 < inds.len() {
                    i + 1
                } else {
                    0
                },
                (fuel - 1) as nat,
                full,
            ) {
                None => None,
                Some(k) => Some(k + 1),
            },
        }
    }
}

/// Enough fuel to visit every node at every tape phase, clipped to
/// `usize::MAX`.
pub open spec fn spec_walk_cap(e: nat, n: nat) -> nat {
    if (e + 1) * n + 1 <= usize::MAX {
        ((e + 1) * n + 1) as nat
    } else {
        usize::MAX as nat
    }
}

fn walk_cap_exec(e: usize, n: usize) -> (r: usize)
    requires
        n >= 1,
    ensures
        r == spec_walk_cap(e as nat, n as nat),
{
    match e.checked_add(1) {
        None => {
            proof {
                assert((e as int + 1) * (n as int) >= e as int + 1) by (nonlinear_arith)
                    requires
                        n >= 1,
                        e >= 0,
                ;
            }
            usize::MAX
        }
        Some(e1) => match e1.checked_mul(n) {
            None => usize::MAX,
            Some(p) => match p.checked_add(1) {
                None => usize::MAX,
                Some(c) => c,
            },
        },
    }
}

/// Walks from `start` under the cycled tape until the goal; `None` when the
/// walk leaves the network or never arrives.
pub fn run_walk(dirs: &Directions, inds: &Vec<Indication>, start: Name, full: bool) -> (r: Option<
    usize,
>)
    requires
        inds@.len() >= 1,
    ensures
        ({
            let cap = spec_walk_cap(dirs.entries@.len(), inds@.len());
            match walk_steps(dirs.entries@, inds@, start, 0, cap, full) {
                Some(k) => r == Some(k as usize) && k <= usize::MAX,
                None => r is None,
            }
        }),
{
    let ghost cap = spec_walk_cap(dirs.entries@.len(), inds@.len());
    let mut fuel: usize = walk_cap_exec(dirs.entries.len(), inds.len());
    let mut cur = start;
    let mut phase: usize = 0;
    let mut steps: usize = 0;
    loop
        invariant
            inds@.len() >= 1,
            inds@.len() <= usize::MAX,
            0 <= phase < inds@.len(),
            cap == spec_walk_cap(dirs.entries@.len(), inds@.len()),
            steps + fuel == cap,
            walk_steps(dirs.entries@, inds@, start, 0, cap, full) == match walk_steps(
                dirs.entries@,
                inds@,
                cur,
                phase as int,
                fuel as nat,
                full,
            ) {
                None => None::<nat>,
                Some(k) => Some((steps + k) as nat),
            },
        ensures
            walk_steps(dirs.entries@, inds@, start, 0, cap, full) == Some(steps as nat),
        decreases fuel,
    {
        let arrived = if full {
            cur.0 == 'Z' && cur.1 == 'Z' && cur.2 == 'Z'
        } else {
            cur.2 == 'Z'
        };
        if arrived {
            assert(at_goal(cur, full));
            break;
        }
        assert(!at_goal(cur, full));
        if fuel == 0 {
            return None;
        }
        let ind = inds[phase];
        cur = match dirs.next(&ind, cur) {
            Some(n) => n,
            None => {
                return None;
            }
        };
        phase = if phase + 1 < inds.len() {
            phase + 1
        } else {
            0
        };
        fuel = fuel - 1;
        steps = steps + 1;
    }
    Some(steps)
}

/// Walks the lone path from `AAA` to `ZZZ` and counts its steps. Fails with
/// `Malformed` exactly on an empty tape, and with `Unsolvable` exactly when
/// the walk leaves the network or never arrives.
pub fn solve_1(input: &Data) -> (r: Result<usize, SolveError>)
    ensures
        input.indications@.len() == 0 ==> r == Err::<usize, SolveError>(SolveError::Malformed),
        input.indications@.len() >= 1 ==> match walk_steps(
            input.directions.entries@,
            input.indications@,
            ('A', 'A', 'A'),
            0,
            spec_walk_cap(input.directions.entries@.len(), input.indications@.len()),
            true,
        ) {
            Some(k) => r == Ok::<usize, SolveError>(k as usize),
            None => r == Err::<usize, SolveError>(SolveError::Unsolvable),
        },
{
    if input.indications.len() == 0 {
        return Err(SolveError::Malformed);
    }
    match run_walk(&input.directions, &input.indications, ('A', 'A', 'A'), true) {
        Some(k) => Ok(k),
        None => Err(SolveError::Unsolvable),
    }
}

/// The greatest common divisor.
pub open spec fn spec_gcd(a: nat, b: nat) -> nat
    decreases b,
{
    if b == 0 {
        a
    } else {
        spec_gcd(b, a % b)
    }
}

/// The least common multiple, as the product over the divisor.
pub open spec fn spec_lcm(a: nat, b: nat) -> nat {
    if a == 0 || b == 0 {
        0
    } else {
        a / spec_gcd(a, b) * b
    }
}

pub proof fn lemma_gcd_pos(a: nat, b: nat)
    requires
        a > 0 || b > 0,
    ensures
        spec_gcd(a, b) > 0,
    decreases b,
{
    if b > 0 {
        lemma_gcd_pos(b, a % b);
    }
}

/// Euclid's algorithm.
pub fn gcd(a: usize, b: usize) -> (r: usize)
    ensures
        r == spec_gcd(a as nat, b as nat),
{
    let mut x = a;
    let mut y = b;
    while y != 0
        invariant
            spec_gcd(a as nat, b as nat) == spec_gcd(x as nat, y as nat),
        decreases y,
    {
        let t = x % y;
        x = y;
        y = t;
    }
    x
}

/// The least common multiple; `None` exactly when it leaves `usize`.
pub fn lcm(a: usize, b: usize) -> (r: Option<usize>)
    ensures
        r is Some <==> spec_lcm(a as nat, b as nat) <= usize::MAX,
        r matches Some(v) ==> v == spec_lcm(a as nat, b as nat),
{
    if a == 0 || b == 0 {
        return Some(0);
    }
    proof {
        lemma_gcd_pos(a as nat, b as nat);
    }
    let g = gcd(a, b);
    let q = a / g;
    q.checked_mul(b)
}

/// The start nodes: every listed name ending in `A`, in list order.
pub open spec fn starts_go(entries: Seq<(Name, Direction)>, k: int) -> Seq<Name>
    decreases k,
{
    if k <= 0 {
        Seq::empty()
    } else {
        starts_go(entries, k - 1) + if entries[k - 1].0.2 == 'A' {
            seq![entries[k - 1].0]
        } else {
            Seq::empty()
        }
    }
}

pub open spec fn spec_starts(entries: Seq<(Name, Direction)>) -> Seq<Name> {
    starts_go(entries, entries.len() as int)
}

/// Each ghost's cycle length: the steps from its start to a `Z` name.
pub open spec fn cycle_at(entries: Seq<(Name, Direction)>, inds: Seq<Indication>, j: int) -> Option<
    nat,
> {
    walk_steps(entries, inds, spec_starts(entries)[j], 0, spec_walk_cap(entries.len(), inds.len()), false)
}

/// The least common multiple of the first `k` cycles (at least one).
pub open spec fn fold_lcm(cycles: Seq<nat>, k: int) -> nat
    decreases k,
{
    if k <= 1 {
        cycles[0]
    } else {
        spec_lcm(fold_lcm(cycles, k - 1), cycles[k - 1])
    }
}

/// Walks every `A`-ending start to a `Z`-ending name at once and reports
/// when they all arrive together: the least common multiple of the cycle
/// lengths. Fails with `Malformed` exactly on an empty tape, with
/// `Unsolvable` exactly when no start exists or some walk never arrives, and
/// with `Overflow` when the combined cycle leaves `usize`.
pub fn solve_2(input: &Data) -> (r: Result<usize, SolveError>)
    ensures
        input.indications@.len() == 0 ==> r == Err::<usize, SolveError>(SolveError::Malformed),
        input.indications@.len() >= 1 ==> {
            let entries = input.directions.entries@;
            let starts = spec_starts(entries);
            if starts.len() == 0 || exists|j: int|
                0 <= j < starts.len() && #[trigger] cycle_at(entries, input.indications@, j)
                    is None {
                r == Err::<usize, SolveError>(SolveError::Unsolvable)
            } else {
                let cycles = Seq::new(starts.len(), |j: int| cycle_at(entries, input.indications@, j)->0);
                r matches Ok(n) ==> n == fold_lcm(cycles, cycles.len() as int)
            }
        },
{
    if input.indications.len() == 0 {
        return Err(SolveError::Malformed);
    }
    let ghost entries = input.directions.entries@;
    let ghost starts_spec = spec_starts(entries);
    let mut starts: Vec<Name> = Vec::new();
    let mut i: usize = 0;
    while i < input.directions.entries.len()
        invariant
            entries == input.directions.entries@,
            0 <= i <= entries.len(),
            starts@.len() == starts_go(entries, i as int).len(),
            forall|k: int| 0 <= k < starts@.len() ==> #[trigger] starts@[k] == starts_go(
                entries,
                i as int,
            )[k],
        decreases entries.len() - i,
    {
        let e = input.directions.entries[i];
        if e.0.2 == 'A' {
            starts.push(e.0);
            assert(starts_go(entries, i as int + 1) =~= starts_go(entries, i as int) + seq![e.0]);
        } else {
            assert(starts_go(entries, i as int + 1) =~= starts_go(entries, i as int));
        }
        i = i + 1;
    }
    assert(starts@.len() == starts_spec.len());
    assert(forall|k: int| 0 <= k < starts@.len() ==> #[trigger] starts@[k] == starts_spec[k]);
    if starts.len() == 0 {
        return Err(SolveError::Unsolvable);
    }
    let mut cycles: Vec<usize> = Vec::new();
    let mut j: usize = 0;
    while j < starts.len()
        invariant
            entries == input.directions.entries@,
            starts_spec == spec_starts(entries),
            input.indications@.len() >= 1,
            starts@.len() == starts_spec.len(),
            forall|k: int| 0 <= k < starts@.len() ==> #[trigger] starts@[k] == starts_spec[k],
            0 <= j <= starts@.len(),
            cycles@.len() == j,
            forall|k: int|
                0 <= k < j ==> cycle_at(entries, input.indications@, k) == Some(
                    #[trigger] cycles@[k] as nat,
                ),
        decreases starts@.len() - j,
    {
        let c = match run_walk(&input.directions, &input.indications, starts[j], false) {
            Some(c) => c,
            None => {
                assert(cycle_at(entries, input.indications@, j as int) is None);
                assert(exists|q: int|
                    0 <= q < spec_starts(entries).len() && #[trigger] cycle_at(
                        entries,
                        input.indications@,
                        q,
                    ) is None);
                return Err(SolveError::Unsolvable);
            }
        };
        assert(cycle_at(entries, input.indications@, j as int) == Some(c as nat));
        cycles.push(c);
        j = j + 1;
    }
    let ghost cspec = Seq::new(starts_spec.len(), |k: int| cycle_at(entries, input.indications@, k)->0);
    assert(forall|k: int| 0 <= k < cycles@.len() ==> #[trigger] cycles@[k] as nat == cspec[k]);
    assert forall|k: int|
        0 <= k < starts_spec.len() implies #[trigger] cycle_at(entries, input.indications@, k)
            is Some by {
        assert(cycle_at(entries, input.indications@, k) == Some(cycles@[k] as nat));
    }
    let mut acc = cycles[0];
    let mut m: usize = 1;
    while m < cycles.len()
        invariant
            entries == input.directions.entries@,
            starts_spec == spec_starts(entries),
            input.indications@.len() >= 1,
            starts_spec.len() >= 1,
            forall|k: int|
                0 <= k < starts_spec.len() ==> #[trigger] cycle_at(
                    entries,
                    input.indications@,
                    k,
                ) is Some,
            cspec == Seq::new(
                starts_spec.len(),
                |k: int| cycle_at(entries, input.indications@, k)->0,
            ),
            cycles@.len() == cspec.len(),
            cspec.len() >= 1,
            forall|k: int| 0 <= k < cycles@.len() ==> #[trigger] cycles@[k] as nat == cspec[k],
            1 <= m <= cycles@.len(),
            acc as nat == fold_lcm(cspec, m as int),
        decreases cycles@.len() - m,
    {
        acc = match lcm(acc, cycles[m]) {
            Some(v) => v,
            None => {
                return Err(SolveError::Overflow);
            }
        };
        m = m + 1;
    }
    Ok(acc)
}

} // verus!
