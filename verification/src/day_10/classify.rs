//! Classifying the cells the traced loop encloses.
//!
//! Two classifiers are offered. The parity scan (used by `solve_2`, as a
//! row sweep and a column sweep intersected) counts loop crossings; the
//! flood classifier marks everything that reaches the rectangle's border
//! through free cells and keeps the rest. Tests hold the two against each
//! other.

use vstd::prelude::*;
use crate::day_10::grid::{GridError, Space, Tile};
use crate::day_10::trace::{
    first_dir, first_valid_dir, states_cells, trace_loop, walk_cap, walk_states, Input,
};

verus! {

/// Whether the loop-cell list holds the coordinate `(r, c)`.
pub open spec fn lp_has(lp: Seq<(usize, usize)>, r: int, c: int) -> bool {
    exists|n: int| #![trigger lp[n]] 0 <= n < lp.len() && lp[n].0 == r && lp[n].1 == c
}

/// Pipe shapes that a west-to-east sweep counts as one loop crossing.
pub open spec fn h_cross(t: Tile) -> bool {
    t is Vertical || t is BendNW || t is BendNE
}

/// Pipe shapes that a north-to-south sweep counts as one loop crossing.
pub open spec fn v_cross(t: Tile) -> bool {
    t is Horizontal || t is BendSW || t is BendNW
}

/// A loop cell that crosses a west-to-east sweep at `(r, c)`.
pub open spec fn cross_h(space: Space, lp: Seq<(usize, usize)>, r: int, c: int) -> bool {
    lp_has(lp, r, c) && match space.tile_at(r, c) {
        Some(t) => h_cross(t),
        None => false,
    }
}

/// A loop cell that crosses a north-to-south sweep at `(r, c)`.
pub open spec fn cross_v(space: Space, lp: Seq<(usize, usize)>, r: int, c: int) -> bool {
    lp_has(lp, r, c) && match space.tile_at(r, c) {
        Some(t) => v_cross(t),
        None => false,
    }
}

/// How many crossings a west-to-east sweep of row `r` meets left of column
/// `c`.
pub open spec fn row_cross_count(space: Space, lp: Seq<(usize, usize)>, r: int, c: int) -> nat
    decreases c,
{
    if c <= 0 {
        0
    } else {
        row_cross_count(space, lp, r, c - 1) + if cross_h(space, lp, r, c - 1) {
            1nat
        } else {
            0nat
        }
    }
}

/// How many crossings a north-to-south sweep of column `c` meets above row
/// `r`.
pub open spec fn col_cross_count(space: Space, lp: Seq<(usize, usize)>, c: int, r: int) -> nat
    decreases r,
{
    if r <= 0 {
        0
    } else {
        col_cross_count(space, lp, c, r - 1) + if cross_v(space, lp, r - 1, c) {
            1nat
        } else {
            0nat
        }
    }
}

/// A non-loop cell with an odd crossing count to its west.
pub open spec fn h_inside(space: Space, lp: Seq<(usize, usize)>, r: int, c: int) -> bool {
    !lp_has(lp, r, c) && row_cross_count(space, lp, r, c) % 2 == 1
}

/// A non-loop cell with an odd crossing count to its north.
pub open spec fn v_inside(space: Space, lp: Seq<(usize, usize)>, r: int, c: int) -> bool {
    !lp_has(lp, r, c) && col_cross_count(space, lp, c, r) % 2 == 1
}

/// A cell of the rectangle that both sweeps place inside the loop.
pub open spec fn spec_inside(space: Space, lp: Seq<(usize, usize)>, r: int, c: int) -> bool {
    &&& 0 <= r < space.h
    &&& 0 <= c < space.w
    &&& h_inside(space, lp, r, c)
    &&& v_inside(space, lp, r, c)
}

/// The inside cells of row `r` left of column `c`, in order.
pub open spec fn inside_list_row(space: Space, lp: Seq<(usize, usize)>, r: int, c: int) -> Seq<
    (usize, usize),
>
    decreases c,
{
    if c <= 0 {
        Seq::empty()
    } else {
        inside_list_row(space, lp, r, c - 1) + if spec_inside(space, lp, r, c - 1) {
            seq![((r as usize), ((c - 1) as usize))]
        } else {
            Seq::empty()
        }
    }
}

/// The inside cells of the rows above `r`, row-major.
pub open spec fn inside_list_rows(space: Space, lp: Seq<(usize, usize)>, r: int) -> Seq<
    (usize, usize),
>
    decreases r,
{
    if r <= 0 {
        Seq::empty()
    } else {
        inside_list_rows(space, lp, r - 1) + inside_list_row(space, lp, r - 1, space.w as int)
    }
}

/// All inside cells of the grid in row-major order.
pub open spec fn inside_list(space: Space, lp: Seq<(usize, usize)>) -> Seq<(usize, usize)> {
    inside_list_rows(space, lp, space.h as int)
}

/// The number of cells the loop encloses.
pub open spec fn spec_inside_count(space: Space, lp: Seq<(usize, usize)>) -> nat {
    inside_list(space, lp).len()
}

/// A fresh `h` by `w` grid of `false`.
pub(crate) fn bool_grid(h: usize, w: usize) -> (r: Vec<Vec<bool>>)
    ensures
        r@.len() == h,
        forall|i: int| 0 <= i < h ==> (#[trigger] r@[i])@.len() == w,
        forall|i: int, j: int| 0 <= i < h && 0 <= j < w ==> #[trigger] r@[i]@[j] == false,
{
    let mut g: Vec<Vec<bool>> = Vec::new();
    let mut i: usize = 0;
    while i < h
        invariant
            0 <= i <= h,
            g@.len() == i,
            forall|k: int| 0 <= k < i ==> (#[trigger] g@[k])@.len() == w,
            forall|k: int, j: int| 0 <= k < i && 0 <= j < w ==> #[trigger] g@[k]@[j] == false,
        decreases h - i,
    {
        let mut row: Vec<bool> = Vec::new();
        let mut j: usize = 0;
        while j < w
            invariant
                0 <= j <= w,
                row@.len() == j,
                forall|m: int| 0 <= m < j ==> #[trigger] row@[m] == false,
            decreases w - j,
        {
            row.push(false);
            j = j + 1;
        }
        g.push(row);
        i = i + 1;
    }
    g
}

/// Marks the loop cells that lie in the `h` by `w` rectangle.
pub(crate) fn loop_mask(space: &Space, visited: &Vec<(usize, usize)>, start: (usize, usize)) -> (r: Vec<
    Vec<bool>,
>)
    ensures
        r@.len() == space.h,
        forall|i: int| 0 <= i < space.h ==> (#[trigger] r@[i])@.len() == space.w,
        forall|i: int, j: int|
            0 <= i < space.h && 0 <= j < space.w ==> #[trigger] r@[i]@[j] == lp_has(
                visited@.push(start),
                i,
                j,
            ),
{
    let ghost lp = visited@.push(start);
    let mut mask = bool_grid(space.h, space.w);
    if start.0 < space.h && start.1 < space.w {
        mask[start.0][start.1] = true;
    }
    assert(forall|i: int, j: int|
        0 <= i < space.h && 0 <= j < space.w ==> #[trigger] mask@[i]@[j] == (i == start.0 && j
            == start.1));
    let mut k: usize = 0;
    while k < visited.len()
        invariant
            lp == visited@.push(start),
            0 <= k <= visited@.len(),
            mask@.len() == space.h,
            forall|i: int| 0 <= i < space.h ==> (#[trigger] mask@[i])@.len() == space.w,
            forall|i: int, j: int|
                0 <= i < space.h && 0 <= j < space.w ==> #[trigger] mask@[i]@[j] == ((i == start.0
                    && j == start.1) || exists|n: int|
                    #![trigger visited@[n]]
                    0 <= n < k && visited@[n].0 == i && visited@[n].1 == j),
        decreases visited@.len() - k,
    {
        let p = visited[k];
        if p.0 < space.h && p.1 < space.w {
            mask[p.0][p.1] = true;
        }
        assert(forall|i: int, j: int|
            0 <= i < space.h && 0 <= j < space.w ==> #[trigger] mask@[i]@[j] == ((i == start.0 && j
                == start.1) || exists|n: int|
                #![trigger visited@[n]]
                0 <= n < k + 1 && visited@[n].0 == i && visited@[n].1 == j));
        k = k + 1;
    }
    proof {
        assert(forall|i: int, j: int|
            0 <= i < space.h && 0 <= j < space.w ==> (lp_has(lp, i, j) <==> ((i == start.0 && j
                == start.1) || exists|n: int|
                #![trigger visited@[n]]
                0 <= n < visited@.len() && visited@[n].0 == i && visited@[n].1 == j))) by {
            assert(forall|i: int, j: int|
                0 <= i < space.h && 0 <= j < space.w && lp_has(lp, i, j) ==> ((i == start.0 && j
                    == start.1) || exists|n: int|
                    #![trigger visited@[n]]
                    0 <= n < visited@.len() && visited@[n].0 == i && visited@[n].1 == j)) by {
                assert(forall|n: int|
                    0 <= n < lp.len() && n < visited@.len() ==> #[trigger] lp[n]
                        == visited@[n]);
                assert(lp[visited@.len() as int] == start);
            }
            assert forall|n: int|
                #![trigger visited@[n]]
                0 <= n < visited@.len() implies lp_has(
                lp,
                visited@[n].0 as int,
                visited@[n].1 as int,
            ) by {
                assert(lp[n] == visited@[n]);
            }
            assert(forall|i: int, j: int|
                i == start.0 && j == start.1 ==> lp_has(lp, i, j)) by {
                assert(lp[visited@.len() as int] == start);
            }
        }
    }
    mask
}

/// One west-to-east sweep per row, marking cells with an odd crossing count.
fn h_pass(space: &Space, mask: &Vec<Vec<bool>>, Ghost(lp): Ghost<Seq<(usize, usize)>>) -> (out:
    Vec<Vec<bool>>)
    requires
        mask@.len() == space.h,
        forall|i: int| 0 <= i < space.h ==> (#[trigger] mask@[i])@.len() == space.w,
        forall|i: int, j: int|
            0 <= i < space.h && 0 <= j < space.w ==> #[trigger] mask@[i]@[j] == lp_has(lp, i, j),
    ensures
        out@.len() == space.h,
        forall|i: int| 0 <= i < space.h ==> (#[trigger] out@[i])@.len() == space.w,
        forall|i: int, j: int|
            0 <= i < space.h && 0 <= j < space.w ==> #[trigger] out@[i]@[j] == h_inside(
                *space,
                lp,
                i,
                j,
            ),
{
    let mut out = bool_grid(space.h, space.w);
    let mut r: usize = 0;
    while r < space.h
        invariant
            mask@.len() == space.h,
            forall|i: int| 0 <= i < space.h ==> (#[trigger] mask@[i])@.len() == space.w,
            forall|i: int, j: int|
                0 <= i < space.h && 0 <= j < space.w ==> #[trigger] mask@[i]@[j] == lp_has(
                    lp,
                    i,
                    j,
                ),
            0 <= r <= space.h,
            out@.len() == space.h,
            forall|i: int| 0 <= i < space.h ==> (#[trigger] out@[i])@.len() == space.w,
            forall|i: int, j: int|
                0 <= i < space.h && 0 <= j < space.w && i < r ==> #[trigger] out@[i]@[j]
                    == h_inside(*space, lp, i, j),
            forall|i: int, j: int|
                0 <= i < space.h && 0 <= j < space.w && i >= r ==> #[trigger] out@[i]@[j]
                    == false,
        decreases space.h - r,
    {
        let mut flag: bool = false;
        let mut c: usize = 0;
        while c < space.w
            invariant
                mask@.len() == space.h,
                forall|i: int| 0 <= i < space.h ==> (#[trigger] mask@[i])@.len() == space.w,
                forall|i: int, j: int|
                    0 <= i < space.h && 0 <= j < space.w ==> #[trigger] mask@[i]@[j] == lp_has(
                        lp,
                        i,
                        j,
                    ),
                0 <= r < space.h,
                0 <= c <= space.w,
                out@.len() == space.h,
                forall|i: int| 0 <= i < space.h ==> (#[trigger] out@[i])@.len() == space.w,
                forall|i: int, j: int|
                    0 <= i < space.h && 0 <= j < space.w && (i < r || (i == r && j < c))
                        ==> #[trigger] out@[i]@[j] == h_inside(*space, lp, i, j),
                forall|i: int, j: int|
                    0 <= i < space.h && 0 <= j < space.w && (i > r || (i == r && j >= c))
                        ==> #[trigger] out@[i]@[j] == false,
                flag == (row_cross_count(*space, lp, r as int, c as int) % 2 == 1),
            decreases space.w - c,
        {
            let in_loop = mask[r][c];
            if in_loop {
                let crossing = match space.get(&(r, c)) {
                    Some(t) => match t {
                        Tile::Vertical => true,
                        Tile::BendNW => true,
                        Tile::BendNE => true,
                        _ => false,
                    },
                    None => false,
                };
                if crossing {
                    flag = !flag;
                }
                assert(!h_inside(*space, lp, r as int, c as int));
            } else {
                assert(!cross_h(*space, lp, r as int, c as int));
                if flag {
                    out[r][c] = true;
                }
            }
            c = c + 1;
        }
        r = r + 1;
    }
    out
}

/// One north-to-south sweep per column, marking cells with an odd crossing
/// count.
fn v_pass(space: &Space, mask: &Vec<Vec<bool>>, Ghost(lp): Ghost<Seq<(usize, usize)>>) -> (out:
    Vec<Vec<bool>>)
    requires
        mask@.len() == space.h,
        forall|i: int| 0 <= i < space.h ==> (#[trigger] mask@[i])@.len() == space.w,
        forall|i: int, j: int|
            0 <= i < space.h && 0 <= j < space.w ==> #[trigger] mask@[i]@[j] == lp_has(lp, i, j),
    ensures
        out@.len() == space.h,
        forall|i: int| 0 <= i < space.h ==> (#[trigger] out@[i])@.len() == space.w,
        forall|i: int, j: int|
            0 <= i < space.h && 0 <= j < space.w ==> #[trigger] out@[i]@[j] == v_inside(
                *space,
                lp,
                i,
                j,
            ),
{
    let mut out = bool_grid(space.h, space.w);
    let mut c: usize = 0;
    while c < space.w
        invariant
            mask@.len() == space.h,
            forall|i: int| 0 <= i < space.h ==> (#[trigger] mask@[i])@.len() == space.w,
            forall|i: int, j: int|
                0 <= i < space.h && 0 <= j < space.w ==> #[trigger] mask@[i]@[j] == lp_has(
                    lp,
                    i,
                    j,
                ),
            0 <= c <= space.w,
            out@.len() == space.h,
            forall|i: int| 0 <= i < space.h ==> (#[trigger] out@[i])@.len() == space.w,
            forall|i: int, j: int|
                0 <= i < space.h && 0 <= j < space.w && j < c ==> #[trigger] out@[i]@[j]
                    == v_inside(*space, lp, i, j),
            forall|i: int, j: int|
                0 <= i < space.h && 0 <= j < space.w && j >= c ==> #[trigger] out@[i]@[j]
                    == false,
        decreases space.w - c,
    {
        let mut flag: bool = false;
        let mut r: usize = 0;
        while r < space.h
            invariant
                mask@.len() == space.h,
                forall|i: int| 0 <= i < space.h ==> (#[trigger] mask@[i])@.len() == space.w,
                forall|i: int, j: int|
                    0 <= i < space.h && 0 <= j < space.w ==> #[trigger] mask@[i]@[j] == lp_has(
                        lp,
                        i,
                        j,
                    ),
                0 <= c < space.w,
                0 <= r <= space.h,
                out@.len() == space.h,
                forall|i: int| 0 <= i < space.h ==> (#[trigger] out@[i])@.len() == space.w,
                forall|i: int, j: int|
                    0 <= i < space.h && 0 <= j < space.w && (j < c || (j == c && i < r))
                        ==> #[trigger] out@[i]@[j] == v_inside(*space, lp, i, j),
                forall|i: int, j: int|
                    0 <= i < space.h && 0 <= j < space.w && (j > c || (j == c && i >= r))
                        ==> #[trigger] out@[i]@[j] == false,
                flag == (col_cross_count(*space, lp, c as int, r as int) % 2 == 1),
            decreases space.h - r,
        {
            let in_loop = mask[r][c];
            if in_loop {
                let crossing = match space.get(&(r, c)) {
                    Some(t) => match t {
                        Tile::Horizontal => true,
                        Tile::BendSW => true,
                        Tile::BendNW => true,
                        _ => false,
                    },
                    None => false,
                };
                if crossing {
                    flag = !flag;
                }
                assert(!v_inside(*space, lp, r as int, c as int));
            } else {
                assert(!cross_v(*space, lp, r as int, c as int));
                if flag {
                    out[r][c] = true;
                }
            }
            r = r + 1;
        }
        c = c + 1;
    }
    out
}

/// Classifies by the two parity sweeps and returns the inside cells in
/// row-major order. `visited` are the traced loop cells and `start` the
/// start cell; together they form the loop.
pub fn classify_parity(space: &Space, visited: &Vec<(usize, usize)>, start: (usize, usize)) -> (r:
    Vec<(usize, usize)>)
    ensures
        r@ == inside_list(*space, visited@.push(start)),
{
    let ghost lp = visited@.push(start);
    let mask = loop_mask(space, visited, start);
    let hmark = h_pass(space, &mask, Ghost(lp));
    let vmark = v_pass(space, &mask, Ghost(lp));
    let mut out: Vec<(usize, usize)> = Vec::new();
    let mut r: usize = 0;
    assert(out@ =~= inside_list_rows(*space, lp, 0) + inside_list_row(*space, lp, 0, 0));
    while r < space.h
        invariant
            lp == visited@.push(start),
            hmark@.len() == space.h,
            forall|i: int| 0 <= i < space.h ==> (#[trigger] hmark@[i])@.len() == space.w,
            forall|i: int, j: int|
                0 <= i < space.h && 0 <= j < space.w ==> #[trigger] hmark@[i]@[j] == h_inside(
                    *space,
                    lp,
                    i,
                    j,
                ),
            vmark@.len() == space.h,
            forall|i: int| 0 <= i < space.h ==> (#[trigger] vmark@[i])@.len() == space.w,
            forall|i: int, j: int|
                0 <= i < space.h && 0 <= j < space.w ==> #[trigger] vmark@[i]@[j] == v_inside(
                    *space,
                    lp,
                    i,
                    j,
                ),
            0 <= r <= space.h,
            out@ == inside_list_rows(*space, lp, r as int),
        decreases space.h - r,
    {
        let mut c: usize = 0;
        while c < space.w
            invariant
                lp == visited@.push(start),
                hmark@.len() == space.h,
                forall|i: int| 0 <= i < space.h ==> (#[trigger] hmark@[i])@.len() == space.w,
                forall|i: int, j: int|
                    0 <= i < space.h && 0 <= j < space.w ==> #[trigger] hmark@[i]@[j] == h_inside(
                        *space,
                        lp,
                        i,
                        j,
                    ),
                vmark@.len() == space.h,
                forall|i: int| 0 <= i < space.h ==> (#[trigger] vmark@[i])@.len() == space.w,
                forall|i: int, j: int|
                    0 <= i < space.h && 0 <= j < space.w ==> #[trigger] vmark@[i]@[j] == v_inside(
                        *space,
                        lp,
                        i,
                        j,
                    ),
                0 <= r < space.h,
                0 <= c <= space.w,
                out@ == inside_list_rows(*space, lp, r as int) + inside_list_row(
                    *space,
                    lp,
                    r as int,
                    c as int,
                ),
            decreases space.w - c,
        {
            if hmark[r][c] && vmark[r][c] {
                assert(spec_inside(*space, lp, r as int, c as int));
                out.push((r, c));
                assert(out@ =~= inside_list_rows(*space, lp, r as int) + inside_list_row(
                    *space,
                    lp,
                    r as int,
                    c as int + 1,
                ));
            } else {
                assert(!spec_inside(*space, lp, r as int, c as int));
                assert(out@ =~= inside_list_rows(*space, lp, r as int) + inside_list_row(
                    *space,
                    lp,
                    r as int,
                    c as int + 1,
                ));
            }
            c = c + 1;
        }
        assert(out@ =~= inside_list_rows(*space, lp, r as int + 1));
        r = r + 1;
        assert(out@ =~= inside_list_rows(*space, lp, r as int) + inside_list_row(
            *space,
            lp,
            r as int,
            0,
        ));
    }
    assert(out@ =~= inside_list(*space, lp));
    out
}

/// Traces the loop and counts the cells it encloses, by the two parity
/// sweeps intersected. The error cases are those of `solve_1`.
pub fn solve_2(input: &Input) -> (r: Result<usize, GridError>)
    ensures
        match first_dir(input.space, input.start) {
            None => r == Err::<usize, GridError>(GridError::NoValidDirection),
            Some(d0) => match walk_states(
                input.space,
                input.space.spec_move(input.start, d0)->0,
                d0,
                walk_cap(input.space),
            ) {
                None => r == Err::<usize, GridError>(GridError::LoopNotClosed),
                Some(states) => r == Ok::<usize, GridError>(
                    spec_inside_count(input.space, states_cells(states).push(input.start)) as usize,
                ),
            },
        },
{
    let space = &input.space;
    let d0 = match first_valid_dir(space, input.start) {
        Some(d) => d,
        None => {
            return Err(GridError::NoValidDirection);
        }
    };
    let pos0 = match space.move_position(&input.start, &d0) {
        Some(p) => p,
        None => {
            // unreachable: a valid direction moves to a cell
            assert(false);
            return Err(GridError::NoValidDirection);
        }
    };
    let visited = match trace_loop(space, pos0, d0) {
        Ok(v) => v,
        Err(e) => {
            return Err(e);
        }
    };
    let inside = classify_parity(space, &visited, input.start);
    Ok(inside.len())
}

} // verus!
