//! The flood classifier: a cell is outside the loop exactly when a path of
//! free cells joins it to the rectangle's border, and inside otherwise.

use vstd::prelude::*;
use crate::day_10::classify::{lp_has, loop_mask, bool_grid};
use crate::day_10::grid::Space;

verus! {

/// Four-neighbourhood adjacency.
pub open spec fn adj(p: (usize, usize), q: (usize, usize)) -> bool {
    ||| (p.0 == q.0 && (p.1 + 1 == q.1 || q.1 + 1 == p.1))
    ||| (p.1 == q.1 && (p.0 + 1 == q.0 || q.0 + 1 == p.0))
}

/// Membership in the `h` by `w` rectangle.
pub open spec fn in_rect(space: Space, p: (usize, usize)) -> bool {
    p.0 < space.h && p.1 < space.w
}

/// A cell of the rectangle that the loop does not pass through.
pub open spec fn free_cell(space: Space, lp: Seq<(usize, usize)>, p: (usize, usize)) -> bool {
    in_rect(space, p) && !lp_has(lp, p.0 as int, p.1 as int)
}

/// A cell on the rectangle's outer border.
pub open spec fn on_border(space: Space, p: (usize, usize)) -> bool {
    p.0 == 0 || p.0 + 1 == space.h || p.1 == 0 || p.1 + 1 == space.w
}

/// A run of adjacent free cells whose last cell lies on the border.
pub open spec fn escape_path(space: Space, lp: Seq<(usize, usize)>, path: Seq<(usize, usize)>) -> bool {
    &&& path.len() > 0
    &&& forall|i: int| 0 <= i < path.len() ==> free_cell(space, lp, #[trigger] path[i])
    &&& forall|i: int| 0 <= i < path.len() - 1 ==> adj(#[trigger] path[i], path[i + 1])
    &&& on_border(space, path[path.len() - 1])
}

/// Whether free cells join `p` to the border.
pub open spec fn escapes(space: Space, lp: Seq<(usize, usize)>, p: (usize, usize)) -> bool {
    exists|path: Seq<(usize, usize)>| escape_path(space, lp, path) && path[0] == p
}

/// A free cell that no free path joins to the border.
pub open spec fn flood_inside(space: Space, lp: Seq<(usize, usize)>, p: (usize, usize)) -> bool {
    free_cell(space, lp, p) && !escapes(space, lp, p)
}

/// The flood-inside cells of row `r` left of column `c`, in order.
pub open spec fn flood_list_row(space: Space, lp: Seq<(usize, usize)>, r: int, c: int) -> Seq<
    (usize, usize),
>
    decreases c,
{
    if c <= 0 {
        Seq::empty()
    } else {
        flood_list_row(space, lp, r, c - 1) + if r >= 0 && flood_inside(
            space,
            lp,
            ((r as usize), ((c - 1) as usize)),
        ) {
            seq![((r as usize), ((c - 1) as usize))]
        } else {
            Seq::empty()
        }
    }
}

/// The flood-inside cells of the rows above `r`, row-major.
pub open spec fn flood_list_rows(space: Space, lp: Seq<(usize, usize)>, r: int) -> Seq<
    (usize, usize),
>
    decreases r,
{
    if r <= 0 {
        Seq::empty()
    } else {
        flood_list_rows(space, lp, r - 1) + flood_list_row(space, lp, r - 1, space.w as int)
    }
}

/// All flood-inside cells in row-major order.
pub open spec fn flood_inside_list(space: Space, lp: Seq<(usize, usize)>) -> Seq<(usize, usize)> {
    flood_list_rows(space, lp, space.h as int)
}

/// A marked entry of a grid of flags.
pub open spec fn marked_at(m: Seq<Vec<bool>>, p: (usize, usize)) -> bool {
    p.0 < m.len() && p.1 < m[p.0 as int]@.len() && m[p.0 as int]@[p.1 as int]
}

/// The unmarked entries of one row.
pub open spec fn count_false_row(row: Seq<bool>) -> nat
    decreases row.len(),
{
    if row.len() == 0 {
        0
    } else {
        count_false_row(row.drop_last()) + if row.last() {
            0nat
        } else {
            1nat
        }
    }
}

/// The unmarked entries of a grid of flags.
pub open spec fn count_false(g: Seq<Vec<bool>>) -> nat
    decreases g.len(),
{
    if g.len() == 0 {
        0
    } else {
        count_false(g.drop_last()) + count_false_row(g.last()@)
    }
}

proof fn lemma_count_false_row_update(row: Seq<bool>, c: int)
    requires
        0 <= c < row.len(),
        !row[c],
    ensures
        count_false_row(row.update(c, true)) + 1 == count_false_row(row),
    decreases row.len(),
{
    if c == row.len() - 1 {
        assert(row.update(c, true).drop_last() =~= row.drop_last());
        assert(row.update(c, true).last());
    } else {
        assert(row.update(c, true).drop_last() =~= row.drop_last().update(c, true));
        assert(row.update(c, true).last() == row.last());
        lemma_count_false_row_update(row.drop_last(), c);
    }
}

proof fn lemma_count_false_update(m: Seq<Vec<bool>>, m2: Seq<Vec<bool>>, r: int, c: int)
    requires
        0 <= r < m.len(),
        m2.len() == m.len(),
        0 <= c < m[r]@.len(),
        !m[r]@[c],
        m2[r]@ == m[r]@.update(c, true),
        forall|i: int| 0 <= i < m.len() && i != r ==> m2[i] == m[i],
    ensures
        count_false(m2) + 1 == count_false(m),
    decreases m.len(),
{
    if r == m.len() - 1 {
        assert(m2.drop_last() =~= m.drop_last());
        lemma_count_false_row_update(m[r]@, c);
    } else {
        assert(m2.last() == m.last());
        lemma_count_false_update(m.drop_last(), m2.drop_last(), r, c);
    }
}

/// Prepending a free neighbour to an escaping cell's path.
proof fn lemma_escape_step(
    space: Space,
    lp: Seq<(usize, usize)>,
    q: (usize, usize),
    p: (usize, usize),
)
    requires
        free_cell(space, lp, q),
        adj(q, p),
        escapes(space, lp, p),
    ensures
        escapes(space, lp, q),
{
    let path = choose|path: Seq<(usize, usize)>| escape_path(space, lp, path) && path[0] == p;
    let path2 = seq![q] + path;
    assert(path2[0] == q);
    assert(forall|i: int| 0 <= i < path.len() ==> path2[i + 1] == path[i]);
    assert(forall|i: int| 0 <= i < path2.len() ==> free_cell(space, lp, #[trigger] path2[i]));
    assert(forall|i: int| 0 <= i < path2.len() - 1 ==> adj(#[trigger] path2[i], path2[i + 1]));
    assert(on_border(space, path2[path2.len() - 1]));
    assert(escape_path(space, lp, path2));
}

/// In a closed marking that covers the free border cells, every cell of an
/// escape path is marked.
proof fn lemma_escape_marked(
    space: Space,
    lp: Seq<(usize, usize)>,
    m: Seq<Vec<bool>>,
    path: Seq<(usize, usize)>,
)
    requires
        escape_path(space, lp, path),
        forall|p: (usize, usize)|
            in_rect(space, p) && on_border(space, p) && #[trigger] free_cell(space, lp, p)
                ==> marked_at(m, p),
        forall|p: (usize, usize), q: (usize, usize)|
            #![trigger adj(p, q)]
            marked_at(m, p) && free_cell(space, lp, q) && adj(p, q) ==> marked_at(m, q),
    ensures
        marked_at(m, path[0]),
    decreases path.len(),
{
    if path.len() == 1 {
        assert(on_border(space, path[0]));
        assert(free_cell(space, lp, path[0]));
    } else {
        let rest = path.drop_first();
        assert(forall|i: int| 0 <= i < rest.len() ==> rest[i] == path[i + 1]);
        assert(escape_path(space, lp, rest)) by {
            assert(forall|i: int|
                0 <= i < rest.len() ==> free_cell(space, lp, #[trigger] rest[i]));
            assert(forall|i: int| 0 <= i < rest.len() - 1 ==> adj(#[trigger] rest[i], rest[i + 1]));
            assert(rest[rest.len() - 1] == path[path.len() - 1]);
        }
        lemma_escape_marked(space, lp, m, rest);
        assert(marked_at(m, path[1]));
        assert(adj(path[1], path[0]));
        assert(free_cell(space, lp, path[0]));
    }
}

/// Classifies by flooding: marks every free cell that reaches the border
/// through free cells, pass by pass until nothing changes, and returns the
/// unmarked free cells — the inside — in row-major order. One classification
/// is memoised in the mark grid, so each component is settled once.
#[verifier::rlimit(60)]
pub fn classify_flood(space: &Space, visited: &Vec<(usize, usize)>, start: (usize, usize)) -> (r:
    Vec<(usize, usize)>)
    ensures
        r@ == flood_inside_list(*space, visited@.push(start)),
{
    let ghost lp = visited@.push(start);
    let mask = loop_mask(space, visited, start);
    let mut marked = bool_grid(space.h, space.w);
    loop
        invariant
            lp == visited@.push(start),
            mask@.len() == space.h,
            forall|i: int| 0 <= i < space.h ==> (#[trigger] mask@[i])@.len() == space.w,
            forall|i: int, j: int|
                0 <= i < space.h && 0 <= j < space.w ==> #[trigger] mask@[i]@[j] == lp_has(
                    lp,
                    i,
                    j,
                ),
            marked@.len() == space.h,
            forall|i: int| 0 <= i < space.h ==> (#[trigger] marked@[i])@.len() == space.w,
            forall|p: (usize, usize)|
                #[trigger] marked_at(marked@, p) ==> free_cell(*space, lp, p) && escapes(
                    *space,
                    lp,
                    p,
                ),
        ensures
            marked@.len() == space.h,
            forall|i: int| 0 <= i < space.h ==> (#[trigger] marked@[i])@.len() == space.w,
            forall|p: (usize, usize)|
                #[trigger] marked_at(marked@, p) ==> free_cell(*space, lp, p) && escapes(
                    *space,
                    lp,
                    p,
                ),
            forall|p: (usize, usize)|
                in_rect(*space, p) && on_border(*space, p) && #[trigger] free_cell(*space, lp, p)
                    ==> marked_at(marked@, p),
            forall|p: (usize, usize), q: (usize, usize)|
                #![trigger adj(p, q)]
                marked_at(marked@, p) && free_cell(*space, lp, q) && adj(p, q) ==> marked_at(
                    marked@,
                    q,
                ),
        decreases count_false(marked@),
    {
        let ghost m_pass = marked@;
        let mut changed: bool = false;
        let mut r: usize = 0;
        while r < space.h
            invariant
                lp == visited@.push(start),
                mask@.len() == space.h,
                forall|i: int| 0 <= i < space.h ==> (#[trigger] mask@[i])@.len() == space.w,
                forall|i: int, j: int|
                    0 <= i < space.h && 0 <= j < space.w ==> #[trigger] mask@[i]@[j] == lp_has(
                        lp,
                        i,
                        j,
                    ),
                marked@.len() == space.h,
                forall|i: int| 0 <= i < space.h ==> (#[trigger] marked@[i])@.len() == space.w,
                forall|p: (usize, usize)|
                    #[trigger] marked_at(marked@, p) ==> free_cell(*space, lp, p) && escapes(
                        *space,
                        lp,
                        p,
                    ),
                0 <= r <= space.h,
                !changed ==> marked@ == m_pass,
                changed ==> count_false(marked@) < count_false(m_pass),
                !changed ==> forall|p: (usize, usize)|
                    p.0 < r && #[trigger] free_cell(*space, lp, p) && !marked_at(marked@, p)
                        ==> !on_border(*space, p),
                !changed ==> forall|p: (usize, usize), q: (usize, usize)|
                    #![trigger adj(p, q)]
                    p.0 < r && free_cell(*space, lp, p) && !marked_at(marked@, p) && adj(p, q)
                        && in_rect(*space, q) ==> !marked_at(marked@, q),
            decreases space.h - r,
        {
            let mut c: usize = 0;
            while c < space.w
                invariant
                    lp == visited@.push(start),
                    mask@.len() == space.h,
                    forall|i: int| 0 <= i < space.h ==> (#[trigger] mask@[i])@.len() == space.w,
                    forall|i: int, j: int|
                        0 <= i < space.h && 0 <= j < space.w ==> #[trigger] mask@[i]@[j] == lp_has(
                            lp,
                            i,
                            j,
                        ),
                    marked@.len() == space.h,
                    forall|i: int| 0 <= i < space.h ==> (#[trigger] marked@[i])@.len() == space.w,
                    forall|p: (usize, usize)|
                        #[trigger] marked_at(marked@, p) ==> free_cell(*space, lp, p) && escapes(
                            *space,
                            lp,
                            p,
                        ),
                    0 <= r < space.h,
                    0 <= c <= space.w,
                    !changed ==> marked@ == m_pass,
                    changed ==> count_false(marked@) < count_false(m_pass),
                    !changed ==> forall|p: (usize, usize)|
                        (p.0 < r || (p.0 == r && p.1 < c)) && #[trigger] free_cell(*space, lp, p)
                            && !marked_at(marked@, p) ==> !on_border(*space, p),
                    !changed ==> forall|p: (usize, usize), q: (usize, usize)|
                        #![trigger adj(p, q)]
                        (p.0 < r || (p.0 == r && p.1 < c)) && free_cell(*space, lp, p)
                            && !marked_at(marked@, p) && adj(p, q) && in_rect(*space, q)
                            ==> !marked_at(marked@, q),
                decreases space.w - c,
            {
                if !mask[r][c] && !marked[r][c] {
                    let p = (r, c);
                    assert(free_cell(*space, lp, p));
                    let border = r == 0 || r + 1 == space.h || c == 0 || c + 1 == space.w;
                    let nb_n = r > 0 && marked[r - 1][c];
                    let nb_s = r + 1 < space.h && marked[r + 1][c];
                    let nb_w = c > 0 && marked[r][c - 1];
                    let nb_e = c + 1 < space.w && marked[r][c + 1];
                    if border || nb_n || nb_s || nb_w || nb_e {
                        proof {
                            if border {
                                let path = seq![p];
                                assert(escape_path(*space, lp, path));
                                assert(escapes(*space, lp, p));
                            } else {
                                if nb_n {
                                    let q = ((r - 1) as usize, c);
                                    assert(marked_at(marked@, q));
                                    lemma_escape_step(*space, lp, p, q);
                                } else if nb_s {
                                    let q = ((r + 1) as usize, c);
                                    assert(marked_at(marked@, q));
                                    lemma_escape_step(*space, lp, p, q);
                                } else if nb_w {
                                    let q = (r, (c - 1) as usize);
                                    assert(marked_at(marked@, q));
                                    lemma_escape_step(*space, lp, p, q);
                                } else {
                                    let q = (r, (c + 1) as usize);
                                    assert(marked_at(marked@, q));
                                    lemma_escape_step(*space, lp, p, q);
                                }
                            }
                        }
                        let ghost m0 = marked@;
                        marked[r][c] = true;
                        proof {
                            assert(marked@[r as int]@ =~= m0[r as int]@.update(c as int, true));
                            lemma_count_false_update(m0, marked@, r as int, c as int);
                            if changed {
                                assert(count_false(marked@) < count_false(m_pass));
                            }
                            assert(forall|x: (usize, usize)|
                                #[trigger] marked_at(marked@, x) && x != p ==> marked_at(m0, x));
                        }
                        changed = true;
                    }
                }
                c = c + 1;
            }
            r = r + 1;
        }
        if !changed {
            proof {
                assert forall|p: (usize, usize)|
                    in_rect(*space, p) && on_border(*space, p) && #[trigger] free_cell(
                    *space,
                    lp,
                    p,
                ) implies marked_at(marked@, p) by {
                    if !marked_at(marked@, p) {
                        assert(p.0 < space.h);
                        assert(!on_border(*space, p));
                    }
                }
                assert forall|p: (usize, usize), q: (usize, usize)|
                    #![trigger adj(p, q)]
                    marked_at(marked@, p) && free_cell(*space, lp, q) && adj(p, q) implies marked_at(
                    marked@,
                    q,
                ) by {
                    if !marked_at(marked@, q) {
                        assert(q.0 < space.h);
                        assert(adj(q, p));
                        assert(in_rect(*space, p)) by {
                            assert(free_cell(*space, lp, p));
                        }
                        assert(!marked_at(marked@, p));
                    }
                }
            }
            break;
        }
    }
    // collect the unmarked free cells in row-major order
    proof {
        assert forall|p: (usize, usize)|
            free_cell(*space, lp, p) implies (marked_at(marked@, p) <==> escapes(
            *space,
            lp,
            p,
        )) by {
            if escapes(*space, lp, p) {
                let path = choose|path: Seq<(usize, usize)>|
                    escape_path(*space, lp, path) && path[0] == p;
                lemma_escape_marked(*space, lp, marked@, path);
            }
        }
    }
    let mut out: Vec<(usize, usize)> = Vec::new();
    let mut r: usize = 0;
    assert(out@ =~= flood_list_rows(*space, lp, 0) + flood_list_row(*space, lp, 0, 0));
    while r < space.h
        invariant
            lp == visited@.push(start),
            mask@.len() == space.h,
            forall|i: int| 0 <= i < space.h ==> (#[trigger] mask@[i])@.len() == space.w,
            forall|i: int, j: int|
                0 <= i < space.h && 0 <= j < space.w ==> #[trigger] mask@[i]@[j] == lp_has(
                    lp,
                    i,
                    j,
                ),
            marked@.len() == space.h,
            forall|i: int| 0 <= i < space.h ==> (#[trigger] marked@[i])@.len() == space.w,
            forall|p: (usize, usize)|
                #[trigger] free_cell(*space, lp, p) ==> (marked_at(marked@, p) <==> escapes(
                    *space,
                    lp,
                    p,
                )),
            0 <= r <= space.h,
            out@ == flood_list_rows(*space, lp, r as int),
        decreases space.h - r,
    {
        let mut c: usize = 0;
        while c < space.w
            invariant
                lp == visited@.push(start),
                mask@.len() == space.h,
                forall|i: int| 0 <= i < space.h ==> (#[trigger] mask@[i])@.len() == space.w,
                forall|i: int, j: int|
                    0 <= i < space.h && 0 <= j < space.w ==> #[trigger] mask@[i]@[j] == lp_has(
                        lp,
                        i,
                        j,
                    ),
                marked@.len() == space.h,
                forall|i: int| 0 <= i < space.h ==> (#[trigger] marked@[i])@.len() == space.w,
                forall|p: (usize, usize)|
                    #[trigger] free_cell(*space, lp, p) ==> (marked_at(marked@, p) <==> escapes(
                        *space,
                        lp,
                        p,
                    )),
                0 <= r < space.h,
                0 <= c <= space.w,
                out@ == flood_list_rows(*space, lp, r as int) + flood_list_row(
                    *space,
                    lp,
                    r as int,
                    c as int,
                ),
            decreases space.w - c,
        {
            let p = (r, c);
            if !mask[r][c] && !marked[r][c] {
                assert(free_cell(*space, lp, p));
                assert(flood_inside(*space, lp, p));
                out.push(p);
                assert(out@ =~= flood_list_rows(*space, lp, r as int) + flood_list_row(
                    *space,
                    lp,
                    r as int,
                    c as int + 1,
                ));
            } else {
                assert(!flood_inside(*space, lp, p));
                assert(out@ =~= flood_list_rows(*space, lp, r as int) + flood_list_row(
                    *space,
                    lp,
                    r as int,
                    c as int + 1,
                ));
            }
            c = c + 1;
        }
        assert(out@ =~= flood_list_rows(*space, lp, r as int + 1));
        r = r + 1;
        assert(out@ =~= flood_list_rows(*space, lp, r as int) + flood_list_row(
            *space,
            lp,
            r as int,
            0,
        ));
    }
    assert(out@ =~= flood_inside_list(*space, lp));
    out
}

} // verus!
