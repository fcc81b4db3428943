//! Parsing the grid, probing the start cell, and tracing the closed loop.

use vstd::prelude::*;
use crate::day_10::grid::{Dir, GridError, Space, Tile, spec_redirect, tile_of};
use crate::text::{chars_vec, spec_lines, split_lines};

verus! {

/// Whether every character of every line denotes a tile.
pub open spec fn lines_parse_ok(lines: Seq<Seq<char>>) -> bool {
    forall|i: int, j: int|
        0 <= i < lines.len() && 0 <= j < lines[i].len() ==> tile_of(#[trigger] lines[i][j]) is Some
}

/// Whether some line holds a start character.
pub open spec fn has_start(lines: Seq<Seq<char>>) -> bool {
    exists|i: int, j: int|
        0 <= i < lines.len() && 0 <= j < lines[i].len() && #[trigger] lines[i][j] == 'S'
}

/// The grid holds exactly the tiles the lines denote.
pub open spec fn represents(space: Space, lines: Seq<Seq<char>>) -> bool {
    &&& space.tiles@.len() == lines.len()
    &&& forall|i: int|
        0 <= i < lines.len() ==> (#[trigger] space.tiles@[i])@.len() == lines[i].len()
    &&& forall|i: int, j: int|
        0 <= i < lines.len() && 0 <= j < lines[i].len() ==> #[trigger] space.tiles@[i]@[j]
            == tile_of(lines[i][j])->0
}

/// `start` is the first start character in row-major order.
pub open spec fn start_is_first(lines: Seq<Seq<char>>, start: (usize, usize)) -> bool {
    &&& start.0 < lines.len()
    &&& start.1 < lines[start.0 as int].len()
    &&& lines[start.0 as int][start.1 as int] == 'S'
    &&& forall|i: int, j: int|
        0 <= i < start.0 && 0 <= j < lines[i].len() ==> #[trigger] lines[i][j] != 'S'
    &&& forall|j: int| 0 <= j < start.1 ==> #[trigger] lines[start.0 as int][j] != 'S'
}

/// The parsed grid together with its start cell.
pub struct Input {
    pub start: (usize, usize),
    pub space: Space,
}

impl Input {
    pub open spec fn wf(&self) -> bool {
        &&& self.space.wf()
        &&& self.space.tile_at_pos(self.start) == Some(Tile::Start)
    }
}

/// Parses the input text into a grid and finds the first start cell.
/// Fails with `InvalidTile` exactly when a character falls outside the tile
/// alphabet, and with `StartNotFound` exactly when no start character occurs
/// (in particular on empty input).
pub fn input_generator(input: &str) -> (r: Result<Input, GridError>)
    ensures
        r is Err ==> (r == Err::<Input, GridError>(GridError::InvalidTile) <==> !lines_parse_ok(
            spec_lines(input@),
        )),
        r == Err::<Input, GridError>(GridError::StartNotFound) <==> (lines_parse_ok(
            spec_lines(input@),
        ) && !has_start(spec_lines(input@))),
        r is Ok <==> (lines_parse_ok(spec_lines(input@)) && has_start(spec_lines(input@))),
        r matches Ok(inp) ==> {
            &&& inp.space.wf()
            &&& inp.wf()
            &&& represents(inp.space, spec_lines(input@))
            &&& start_is_first(spec_lines(input@), inp.start)
        },
{
    let cs = chars_vec(input);
    let lines = split_lines(&cs);
    let ghost ls = spec_lines(input@);
    let mut tiles: Vec<Vec<Tile>> = Vec::new();
    let mut i: usize = 0;
    while i < lines.len()
        invariant
            ls == spec_lines(input@),
            lines@.len() == ls.len(),
            forall|k: int| 0 <= k < ls.len() ==> lines@[k]@ == ls[k],
            0 <= i <= ls.len(),
            tiles@.len() == i,
            forall|k: int| 0 <= k < i ==> (#[trigger] tiles@[k])@.len() == ls[k].len(),
            forall|k: int, j: int|
                0 <= k < i && 0 <= j < ls[k].len() ==> #[trigger] tiles@[k]@[j] == tile_of(
                    ls[k][j],
                )->0,
            forall|k: int, j: int|
                0 <= k < i && 0 <= j < ls[k].len() ==> tile_of(#[trigger] ls[k][j]) is Some,
        decreases ls.len() - i,
    {
        let line: &Vec<char> = &lines[i];
        let mut row: Vec<Tile> = Vec::new();
        let mut j: usize = 0;
        while j < line.len()
            invariant
                ls == spec_lines(input@),
                0 <= i < ls.len(),
                line@ == ls[i as int],
                0 <= j <= line@.len(),
                row@.len() == j,
                forall|m: int| 0 <= m < j ==> #[trigger] row@[m] == tile_of(ls[i as int][m])->0,
                forall|m: int| 0 <= m < j ==> tile_of(#[trigger] ls[i as int][m]) is Some,
            decreases line@.len() - j,
        {
            match Tile::new(line[j]) {
                Ok(t) => {
                    row.push(t);
                }
                Err(_) => {
                    assert(tile_of(ls[i as int][j as int]) is None);
                    assert(!lines_parse_ok(ls));
                    return Err(GridError::InvalidTile);
                }
            }
            j = j + 1;
        }
        tiles.push(row);
        i = i + 1;
    }
    assert(lines_parse_ok(ls));
    let h = tiles.len();
    let w = if h > 0 {
        tiles[0].len()
    } else {
        0
    };
    let space = Space { w, h, tiles };
    assert(space.wf());
    assert(represents(space, ls));

    let mut r: usize = 0;
    while r < space.tiles.len()
        invariant
            ls == spec_lines(input@),
            space.wf(),
            represents(space, ls),
            lines_parse_ok(ls),
            0 <= r <= ls.len(),
            forall|k: int, j: int|
                0 <= k < r && 0 <= j < ls[k].len() ==> #[trigger] ls[k][j] != 'S',
        decreases ls.len() - r,
    {
        let row: &Vec<Tile> = &space.tiles[r];
        let mut c: usize = 0;
        while c < row.len()
            invariant
                ls == spec_lines(input@),
                space.wf(),
                represents(space, ls),
                lines_parse_ok(ls),
                0 <= r < ls.len(),
                row@ == space.tiles@[r as int]@,
                0 <= c <= ls[r as int].len(),
                row@.len() == ls[r as int].len(),
                forall|k: int, j: int|
                    0 <= k < r && 0 <= j < ls[k].len() ==> #[trigger] ls[k][j] != 'S',
                forall|j: int| 0 <= j < c ==> #[trigger] ls[r as int][j] != 'S',
            decreases row@.len() - c,
        {
            let is_start = match row[c] {
                Tile::Start => true,
                _ => false,
            };
            if is_start {
                assert(ls[r as int][c as int] == 'S');
                let start = (r, c);
                assert(start_is_first(ls, start));
                assert(has_start(ls));
                return Ok(Input { start, space });
            }
            assert(ls[r as int][c as int] != 'S');
            c = c + 1;
        }
        r = r + 1;
    }
    assert(!has_start(ls));
    Err(GridError::StartNotFound)
}

/// Whether direction `d` out of `start` reaches a tile that accepts a walk
/// travelling in `d`.
pub open spec fn dir_ok(space: Space, start: (usize, usize), d: Dir) -> bool {
    &&& space.spec_move(start, d) is Some
    &&& space.tile_at_pos(space.spec_move(start, d)->0) is Some
    &&& spec_redirect(space.tile_at_pos(space.spec_move(start, d)->0)->0, d) is Ok
}

/// The first valid initial direction in north, east, south, west order.
pub open spec fn first_dir(space: Space, start: (usize, usize)) -> Option<Dir> {
    if dir_ok(space, start, Dir::North) {
        Some(Dir::North)
    } else if dir_ok(space, start, Dir::East) {
        Some(Dir::East)
    } else if dir_ok(space, start, Dir::South) {
        Some(Dir::South)
    } else if dir_ok(space, start, Dir::West) {
        Some(Dir::West)
    } else {
        None
    }
}

/// Probes one direction out of the start.
fn probe_dir(space: &Space, start: (usize, usize), d: Dir) -> (r: bool)
    ensures
        r == dir_ok(*space, start, d),
{
    match space.move_position(&start, &d) {
        Some(p) => match space.get(&p) {
            Some(t) => match t.redirect(&d) {
                Ok(_) => true,
                Err(_) => false,
            },
            None => false,
        },
        None => false,
    }
}

/// Picks the first valid initial direction, north before east before south
/// before west.
pub fn first_valid_dir(space: &Space, start: (usize, usize)) -> (r: Option<Dir>)
    ensures
        r == first_dir(*space, start),
{
    if probe_dir(space, start, Dir::North) {
        Some(Dir::North)
    } else if probe_dir(space, start, Dir::East) {
        Some(Dir::East)
    } else if probe_dir(space, start, Dir::South) {
        Some(Dir::South)
    } else if probe_dir(space, start, Dir::West) {
        Some(Dir::West)
    } else {
        None
    }
}

/// The walk's fuel: enough steps to visit every cell of the rectangle from
/// every direction, clipped to `usize::MAX`.
pub open spec fn walk_cap(space: Space) -> nat {
    if 4 * space.h * space.w <= usize::MAX {
        (4 * space.h * space.w) as nat
    } else {
        usize::MAX as nat
    }
}

proof fn lemma_cap_arith(h: int, w: int)
    requires
        h >= 0,
        w >= 0,
    ensures
        4 * h * w == (h * w) * 4,
        h * w <= 4 * h * w,
{
    assert(4 * h * w == (h * w) * 4 && h * w <= 4 * h * w) by (nonlinear_arith)
        requires
            h >= 0,
            w >= 0,
    ;
}

fn walk_cap_exec(space: &Space) -> (r: usize)
    ensures
        r == walk_cap(*space),
{
    proof {
        lemma_cap_arith(space.h as int, space.w as int);
    }
    match space.h.checked_mul(space.w) {
        Some(hw) => match hw.checked_mul(4) {
            Some(c) => c,
            None => usize::MAX,
        },
        None => usize::MAX,
    }
}

/// The states a walk passes through before closing at a start tile: each
/// element is a visited cell with the travel direction that entered it.
/// `None` when the walk leaves the grid, meets a tile that refuses its
/// direction, or fails to close within `fuel` further moves.
pub open spec fn walk_states(space: Space, pos: (usize, usize), d: Dir, fuel: nat) -> Option<
    Seq<((usize, usize), Dir)>,
>
    decreases fuel,
{
    match space.tile_at_pos(pos) {
        None => None,
        Some(t) => {
            if t is Start {
                Some(Seq::empty())
            } else {
                match spec_redirect(t, d) {
                    Err(_) => None,
                    Ok(d2) => match space.spec_move(pos, d2) {
                        None => None,
                        Some(p2) => {
                            if fuel == 0 {
                                None
                            } else {
                                match walk_states(space, p2, d2, (fuel - 1) as nat) {
                                    None => None,
                                    Some(rest) => Some(seq![(pos, d)] + rest),
                                }
                            }
                        },
                    },
                }
            }
        },
    }
}

/// The cell at which a walk closes — a start tile — and the travel
/// direction that entered it; `None` exactly when `walk_states` is `None`.
pub open spec fn walk_end(space: Space, pos: (usize, usize), d: Dir, fuel: nat) -> Option<
    ((usize, usize), Dir),
>
    decreases fuel,
{
    match space.tile_at_pos(pos) {
        None => None,
        Some(t) => {
            if t is Start {
                Some((pos, d))
            } else {
                match spec_redirect(t, d) {
                    Err(_) => None,
                    Ok(d2) => match space.spec_move(pos, d2) {
                        None => None,
                        Some(p2) => {
                            if fuel == 0 {
                                None
                            } else {
                                walk_end(space, p2, d2, (fuel - 1) as nat)
                            }
                        },
                    },
                }
            }
        },
    }
}

/// The cells of a state sequence.
pub open spec fn states_cells(states: Seq<((usize, usize), Dir)>) -> Seq<(usize, usize)> {
    states.map_values(|sd: ((usize, usize), Dir)| sd.0)
}

spec fn prepend_states(
    prefix: Seq<((usize, usize), Dir)>,
    tail: Option<Seq<((usize, usize), Dir)>>,
) -> Option<Seq<((usize, usize), Dir)>> {
    match tail {
        None => None,
        Some(s) => Some(prefix + s),
    }
}

/// Walks from `pos0` (entered travelling `d0`) until a start tile closes the
/// loop, returning the visited cells in order; `LoopNotClosed` exactly when
/// the walk fails.
pub fn trace_loop(space: &Space, pos0: (usize, usize), d0: Dir) -> (r: Result<
    Vec<(usize, usize)>,
    GridError,
>)
    ensures
        match walk_states(*space, pos0, d0, walk_cap(*space)) {
            None => r == Err::<Vec<(usize, usize)>, GridError>(GridError::LoopNotClosed),
            Some(states) => r matches Ok(v) && v@ == states_cells(states),
        },
{
    let mut visited: Vec<(usize, usize)> = Vec::new();
    let ghost mut prefix: Seq<((usize, usize), Dir)> = Seq::empty();
    let mut pos = pos0;
    let mut d = d0;
    let mut fuel: usize = walk_cap_exec(space);
    assert(prepend_states(prefix, walk_states(*space, pos, d, fuel as nat)) == walk_states(
        *space,
        pos0,
        d0,
        walk_cap(*space),
    )) by {
        match walk_states(*space, pos0, d0, walk_cap(*space)) {
            None => {}
            Some(s) => {
                assert(Seq::<((usize, usize), Dir)>::empty() + s =~= s);
            }
        }
    }
    loop
        invariant
            visited@ == states_cells(prefix),
            prepend_states(prefix, walk_states(*space, pos, d, fuel as nat)) == walk_states(
                *space,
                pos0,
                d0,
                walk_cap(*space),
            ),
        ensures
            walk_states(*space, pos0, d0, walk_cap(*space)) == Some(prefix),
            visited@ == states_cells(prefix),
        decreases fuel,
    {
        match space.get(&pos) {
            None => {
                return Err(GridError::LoopNotClosed);
            }
            Some(t) => {
                let is_start = match t {
                    Tile::Start => true,
                    _ => false,
                };
                if is_start {
                    assert(walk_states(*space, pos, d, fuel as nat) == Some(
                        Seq::<((usize, usize), Dir)>::empty(),
                    ));
                    assert(prefix + Seq::<((usize, usize), Dir)>::empty() =~= prefix);
                    break;
                }
                match t.redirect(&d) {
                    Err(_) => {
                        return Err(GridError::LoopNotClosed);
                    }
                    Ok(d2) => {
                        match space.move_position(&pos, &d2) {
                            None => {
                                return Err(GridError::LoopNotClosed);
                            }
                            Some(p2) => {
                                if fuel == 0 {
                                    return Err(GridError::LoopNotClosed);
                                }
                                proof {
                                    let tail = walk_states(*space, p2, d2, (fuel - 1) as nat);
                                    match tail {
                                        None => {}
                                        Some(rest) => {
                                            assert(prefix + (seq![(pos, d)] + rest) =~= prefix.push(
                                                (pos, d),
                                            ) + rest);
                                            assert(states_cells(prefix.push((pos, d)))
                                                =~= states_cells(prefix).push(pos));
                                        }
                                    }
                                    prefix = prefix.push((pos, d));
                                }
                                assert(states_cells(prefix) =~= states_cells(
                                    prefix.drop_last(),
                                ).push(pos)) by {
                                    assert(prefix.drop_last() =~= prefix.take(
                                        prefix.len() - 1,
                                    ));
                                }
                                visited.push(pos);
                                fuel = fuel - 1;
                                pos = p2;
                                d = d2;
                            }
                        }
                    }
                }
            }
        }
    }
    Ok(visited)
}

/// The farthest distance along the loop: half the loop's length, rounded up.
/// The loop length is one more than the count of visited non-start cells.
pub open spec fn farthest_of(states: Seq<((usize, usize), Dir)>) -> int {
    states.len() as int / 2 + 1
}

/// Traces the loop out of the start cell and reports the step count to its
/// farthest point. Fails with `NoValidDirection` exactly when no direction
/// out of the start begins a traceable path, and with `LoopNotClosed` exactly
/// when the walk from the first valid direction never closes.
pub fn solve_1(input: &Input) -> (r: Result<usize, GridError>)
    ensures
        match first_dir(input.space, input.start) {
            None => r == Err::<usize, GridError>(GridError::NoValidDirection),
            Some(d0) => match walk_states(
                input.space,
                input.space.spec_move(input.start, d0)->0,
                d0,
                walk_cap(input.space),
            ) {
                None => r == Err::<usize, GridError>(GridError::LoopNotClosed),
                Some(states) => r == Ok::<usize, GridError>(farthest_of(states) as usize),
            },
        },
{
    let space = &input.space;
    let d0 = match first_valid_dir(space, input.start) {
        Some(d) => d,
        None => {
            return Err(GridError::NoValidDirection);
        }
    };
    let pos0 = match space.move_position(&input.start, &d0) {
        Some(p) => p,
        None => {
            // unreachable: a valid direction moves to a cell
            assert(false);
            return Err(GridError::NoValidDirection);
        }
    };
    match trace_loop(space, pos0, d0) {
        Ok(v) => Ok(v.len() / 2 + 1),
        Err(e) => Err(e),
    }
}

} // verus!
