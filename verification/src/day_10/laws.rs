//! Proved laws of the loop tracer and the interior classifiers.

use vstd::prelude::*;
use crate::day_10::classify::lp_has;
use crate::day_10::flood::{escape_path, escapes, flood_inside, free_cell, in_rect, on_border};
use crate::day_10::grid::{spec_flip, spec_redirect, Dir, RedirectError, Space, Tile};
use crate::day_10::trace::{dir_ok, states_cells, walk_end, walk_states};

verus! {

/// Flipping a direction twice gives it back.
pub proof fn lemma_flip_involutive(d: Dir)
    ensures
        spec_flip(spec_flip(d)) == d,
{
}

/// A free cell that free cells join to the border: the outside of the loop.
pub open spec fn flood_outside(space: Space, lp: Seq<(usize, usize)>, p: (usize, usize)) -> bool {
    free_cell(space, lp, p) && escapes(space, lp, p)
}

/// Every cell of the rectangle falls in exactly one of the three classes:
/// on the loop, inside it, or outside it.
pub proof fn lemma_partition(space: Space, lp: Seq<(usize, usize)>, p: (usize, usize))
    requires
        in_rect(space, p),
    ensures
        lp_has(lp, p.0 as int, p.1 as int) || flood_inside(space, lp, p) || flood_outside(
            space,
            lp,
            p,
        ),
        lp_has(lp, p.0 as int, p.1 as int) ==> !flood_inside(space, lp, p) && !flood_outside(
            space,
            lp,
            p,
        ),
        !(flood_inside(space, lp, p) && flood_outside(space, lp, p)),
{
}

/// A non-loop cell on the rectangle's border lies outside the loop: its own
/// cell is already a path to the border.
pub proof fn lemma_border_outside(space: Space, lp: Seq<(usize, usize)>, p: (usize, usize))
    requires
        in_rect(space, p),
        on_border(space, p),
        !lp_has(lp, p.0 as int, p.1 as int),
    ensures
        flood_outside(space, lp, p),
        !flood_inside(space, lp, p),
{
    let path = seq![p];
    assert(escape_path(space, lp, path));
    assert(escapes(space, lp, p));
}

/// A walk through a tile, reversed, passes the same tile the other way.
pub proof fn lemma_redirect_flip(t: Tile, d: Dir)
    requires
        spec_redirect(t, d) is Ok,
    ensures
        spec_redirect(t, spec_flip(spec_redirect(t, d)->Ok_0)) == Ok::<Dir, RedirectError>(
            spec_flip(d),
        ),
{
}

/// A step of the grid, reversed, returns to its source cell.
pub proof fn lemma_move_flip(space: Space, a: (usize, usize), b: (usize, usize), d: Dir)
    requires
        space.spec_move(a, d) == Some(b),
        in_rect(space, a),
    ensures
        space.spec_move(b, spec_flip(d)) == Some(a),
{
}

/// A closed walk visits no more cells than it has fuel.
pub proof fn lemma_walk_len_le_fuel(space: Space, pos: (usize, usize), d: Dir, fuel: nat)
    requires
        walk_states(space, pos, d, fuel) is Some,
    ensures
        walk_states(space, pos, d, fuel)->0.len() <= fuel,
    decreases fuel,
{
    match space.tile_at_pos(pos) {
        None => {}
        Some(t) => {
            if !(t is Start) {
                match spec_redirect(t, d) {
                    Err(_) => {}
                    Ok(d2) => match space.spec_move(pos, d2) {
                        None => {}
                        Some(p2) => {
                            if fuel > 0 {
                                lemma_walk_len_le_fuel(space, p2, d2, (fuel - 1) as nat);
                            }
                        },
                    },
                }
            }
        },
    }
}

/// More fuel changes nothing once a walk closes.
pub proof fn lemma_walk_fuel_mono(space: Space, pos: (usize, usize), d: Dir, f1: nat, f2: nat)
    requires
        f1 <= f2,
        walk_states(space, pos, d, f1) is Some,
    ensures
        walk_states(space, pos, d, f2) == walk_states(space, pos, d, f1),
        walk_end(space, pos, d, f2) == walk_end(space, pos, d, f1),
    decreases f1,
{
    match space.tile_at_pos(pos) {
        None => {}
        Some(t) => {
            if !(t is Start) {
                match spec_redirect(t, d) {
                    Err(_) => {}
                    Ok(d2) => match space.spec_move(pos, d2) {
                        None => {}
                        Some(p2) => {
                            if f1 > 0 {
                                lemma_walk_fuel_mono(space, p2, d2, (f1 - 1) as nat, (f2
                                    - 1) as nat);
                            }
                        },
                    },
                }
            }
        },
    }
}

/// A walk's states and its end point exist together.
pub proof fn lemma_walk_states_end(space: Space, pos: (usize, usize), d: Dir, fuel: nat)
    ensures
        walk_states(space, pos, d, fuel) is Some <==> walk_end(space, pos, d, fuel) is Some,
    decreases fuel,
{
    match space.tile_at_pos(pos) {
        None => {}
        Some(t) => {
            if !(t is Start) {
                match spec_redirect(t, d) {
                    Err(_) => {}
                    Ok(d2) => match space.spec_move(pos, d2) {
                        None => {}
                        Some(p2) => {
                            if fuel > 0 {
                                lemma_walk_states_end(space, p2, d2, (fuel - 1) as nat);
                            }
                        },
                    },
                }
            }
        },
    }
}

/// The states of a walk, traversed backwards: the same cells in reverse
/// order, each entered from the side the forward walk left it by. `de` is
/// the direction with which the forward walk entered its final start tile.
pub open spec fn reverse_states(states: Seq<((usize, usize), Dir)>, de: Dir) -> Seq<
    ((usize, usize), Dir),
> {
    Seq::new(
        states.len(),
        |j: int|
            (
                states[states.len() - 1 - j].0,
                spec_flip(
                    if j == 0 {
                        de
                    } else {
                        states[states.len() - j].1
                    },
                ),
            ),
    )
}

/// Reversing a closed walk, step by step: the reversed walk prepends the
/// reversal of the forward states to whatever continues the walk behind the
/// forward walk's first cell.
#[verifier::rlimit(100)]
#[verifier::spinoff_prover]
pub proof fn lemma_walk_reverse(
    space: Space,
    p: (usize, usize),
    d: Dir,
    fuel: nat,
    prev: (usize, usize),
    rfuel: nat,
)
    requires
        walk_states(space, p, d, fuel) is Some,
        walk_end(space, p, d, fuel) is Some,
        space.spec_move(prev, d) == Some(p),
        in_rect(space, prev),
        walk_states(space, prev, spec_flip(d), rfuel) is Some,
        walk_end(space, prev, spec_flip(d), rfuel) is Some,
    ensures
        ({
            let states = walk_states(space, p, d, fuel)->0;
            let e = (walk_end(space, p, d, fuel)->0).0;
            let de = (walk_end(space, p, d, fuel)->0).1;
            &&& space.spec_move(e, spec_flip(de)) is Some
            &&& walk_states(
                space,
                space.spec_move(e, spec_flip(de))->0,
                spec_flip(de),
                rfuel + states.len(),
            ) == Some(
                reverse_states(states, de) + walk_states(space, prev, spec_flip(d), rfuel)->0,
            )
            &&& walk_end(
                space,
                space.spec_move(e, spec_flip(de))->0,
                spec_flip(de),
                rfuel + states.len(),
            ) == walk_end(space, prev, spec_flip(d), rfuel)
        }),
    decreases fuel,
{
    let states = walk_states(space, p, d, fuel)->0;
    let e = (walk_end(space, p, d, fuel)->0).0;
    let de = (walk_end(space, p, d, fuel)->0).1;
    let t = space.tile_at_pos(p)->0;
    if t is Start {
        // the forward walk closes at once: e == p, de == d, states is empty
        assert(states =~= Seq::<((usize, usize), Dir)>::empty());
        lemma_move_flip(space, prev, p, d);
        assert(reverse_states(states, de) =~= Seq::<((usize, usize), Dir)>::empty());
        assert(reverse_states(states, de) + walk_states(space, prev, spec_flip(d), rfuel)->0
            =~= walk_states(space, prev, spec_flip(d), rfuel)->0);
        lemma_walk_fuel_mono(space, prev, spec_flip(d), rfuel, rfuel + states.len());
    } else {
        let d1 = spec_redirect(t, d)->Ok_0;
        let p1 = space.spec_move(p, d1)->0;
        assert(fuel > 0);
        let states1 = walk_states(space, p1, d1, (fuel - 1) as nat)->0;
        assert(states == seq![(p, d)] + states1);
        // build the one-step-longer continuation through `p` itself
        lemma_redirect_flip(t, d);
        lemma_move_flip(space, prev, p, d);
        let rstates = walk_states(space, prev, spec_flip(d), rfuel)->0;
        assert(walk_states(space, p, spec_flip(d1), rfuel + 1) == Some(
            seq![(p, spec_flip(d1))] + rstates,
        ));
        assert(walk_end(space, p, spec_flip(d1), rfuel + 1) == walk_end(
            space,
            prev,
            spec_flip(d),
            rfuel,
        ));
        lemma_walk_reverse(space, p1, d1, (fuel - 1) as nat, p, rfuel + 1);
        assert(reverse_states(states1, de) + (seq![(p, spec_flip(d1))] + rstates)
            =~= reverse_states(states, de) + rstates) by {
            let lhs = reverse_states(states1, de) + (seq![(p, spec_flip(d1))] + rstates);
            let rhs = reverse_states(states, de) + rstates;
            assert(states1 =~= states.drop_first());
            assert(forall|j: int|
                0 <= j < states1.len() ==> #[trigger] reverse_states(states1, de)[j]
                    == reverse_states(states, de)[j]);
            assert(states.len() >= 1);
            assert(reverse_states(states, de)[states.len() - 1] == (p, spec_flip(d1))) by {
                if states.len() == 1 {
                    assert((walk_end(space, p1, d1, (fuel - 1) as nat)->0).1 == de);
                    assert(states1.len() == 0);
                    assert(space.tile_at_pos(p1)->0 is Start);
                    assert(de == d1);
                } else {
                    assert(states[1].1 == states1[0].1);
                    assert(states1[0] == (p1, d1));
                }
            }
        }
        assert(rfuel + 1 + states1.len() == rfuel + states.len());
    }
}

/// Tracing the loop from its other end: a closed walk out of the start cell
/// yields a second valid initial direction, whose walk also closes at the
/// start, has the same length, and visits exactly the same cells — the
/// direction chosen only reverses the traversal order.
pub proof fn lemma_trace_direction_symmetric(
    space: Space,
    start: (usize, usize),
    d0: Dir,
    fuel: nat,
)
    requires
        in_rect(space, start),
        space.tile_at_pos(start) == Some(Tile::Start),
        space.spec_move(start, d0) is Some,
        walk_states(space, space.spec_move(start, d0)->0, d0, fuel) is Some,
        walk_end(space, space.spec_move(start, d0)->0, d0, fuel) is Some,
        (walk_end(space, space.spec_move(start, d0)->0, d0, fuel)->0).0 == start,
    ensures
        ({
            let p0 = space.spec_move(start, d0)->0;
            let states = walk_states(space, p0, d0, fuel)->0;
            let de = (walk_end(space, p0, d0, fuel)->0).1;
            let r0 = spec_flip(de);
            &&& space.spec_move(start, r0) is Some
            &&& dir_ok(space, start, r0)
            &&& walk_states(space, space.spec_move(start, r0)->0, r0, fuel) == Some(
                reverse_states(states, de),
            )
            &&& reverse_states(states, de).len() == states.len()
            &&& walk_end(space, space.spec_move(start, r0)->0, r0, fuel) == Some(
                (start, spec_flip(d0)),
            )
            &&& forall|x: (usize, usize)|
                states_cells(reverse_states(states, de)).contains(x) <==> states_cells(
                    states,
                ).contains(x)
        }),
{
    let p0 = space.spec_move(start, d0)->0;
    let states = walk_states(space, p0, d0, fuel)->0;
    let e = (walk_end(space, p0, d0, fuel)->0).0;
    let de = (walk_end(space, p0, d0, fuel)->0).1;
    let r0 = spec_flip(de);
    // an empty continuation: the reverse walk stops at the start tile
    assert(walk_states(space, start, spec_flip(d0), 0) == Some(
        Seq::<((usize, usize), Dir)>::empty(),
    ));
    assert(walk_end(space, start, spec_flip(d0), 0) == Some((start, spec_flip(d0))));
    lemma_walk_reverse(space, p0, d0, fuel, start, 0);
    let q = space.spec_move(e, spec_flip(de))->0;
    assert(space.spec_move(start, r0) == space.spec_move(e, spec_flip(de)));
    assert(reverse_states(states, de) + Seq::<((usize, usize), Dir)>::empty() =~= reverse_states(
        states,
        de,
    ));
    assert(walk_states(space, q, r0, 0 + states.len()) == Some(reverse_states(states, de)));
    lemma_walk_len_le_fuel(space, p0, d0, fuel);
    lemma_walk_fuel_mono(space, q, r0, states.len(), fuel);
    // the reversed walk's first step certifies the direction
    assert(dir_ok(space, start, r0)) by {
        if states.len() == 0 {
            // a closed walk of length zero would place the start beside itself
            assert(e == p0);
            assert(false);
        } else {
            assert(walk_states(space, q, r0, fuel)->0.len() > 0);
            assert(space.tile_at_pos(q) is Some);
            assert(spec_redirect(space.tile_at_pos(q)->0, r0) is Ok);
        }
    }
    // same cells, in reverse order
    assert forall|x: (usize, usize)|
        states_cells(reverse_states(states, de)).contains(x) implies states_cells(
        states,
    ).contains(x) by {
        let j = choose|j: int|
            0 <= j < states_cells(reverse_states(states, de)).len() && states_cells(
                reverse_states(states, de),
            )[j] == x;
        assert(states_cells(states)[states.len() - 1 - j] == x);
    }
    assert forall|x: (usize, usize)| states_cells(states).contains(x) implies states_cells(
        reverse_states(states, de),
    ).contains(x) by {
        let j = choose|j: int|
            0 <= j < states_cells(states).len() && states_cells(states)[j] == x;
        assert(states_cells(reverse_states(states, de))[states.len() - 1 - j] == x);
    }
}

} // verus!
