//! Spanning-clear detection: count same-color 8-connected components that
//! touch both the leftmost and the rightmost column.
//!
//! The flood fill uses an explicit stack and a dense per-cell visited map,
//! shared across colors, so no cell is ever expanded twice.

use vstd::prelude::*;

use crate::grid::{cell_index, lemma_cell_index_bound, lemma_cell_index_injective, lemma_dims_bounded};
use crate::state::MAX_CELLS;

verus! {

/// Number of `false` entries of a visited map.
pub open spec fn count_unvisited(vis: Seq<bool>) -> int
    decreases vis.len(),
{
    if vis.len() == 0 {
        0
    } else {
        count_unvisited(vis.drop_last()) + if vis.last() {
            0int
        } else {
            1int
        }
    }
}

proof fn lemma_count_unvisited_nonneg(vis: Seq<bool>)
    ensures
        count_unvisited(vis) >= 0,
    decreases vis.len(),
{
    if vis.len() > 0 {
        lemma_count_unvisited_nonneg(vis.drop_last());
    }
}

proof fn lemma_count_unvisited_update(vis: Seq<bool>, i: int)
    requires
        0 <= i < vis.len(),
        !vis[i],
    ensures
        count_unvisited(vis.update(i, true)) == count_unvisited(vis) - 1,
    decreases vis.len(),
{
    let vu = vis.update(i, true);
    if i == vis.len() - 1 {
        assert(vu.drop_last() =~= vis.drop_last());
    } else {
        assert(vu.drop_last() =~= vis.drop_last().update(i, true));
        lemma_count_unvisited_update(vis.drop_last(), i);
    }
}

/// The eight neighbor offsets, in expansion order.
pub open spec fn nbr_dx(k: int) -> int {
    if k == 0 {
        -1
    } else if k == 1 {
        -1
    } else if k == 2 {
        -1
    } else if k == 3 {
        0
    } else if k == 4 {
        0
    } else if k == 5 {
        1
    } else if k == 6 {
        1
    } else {
        1
    }
}

pub open spec fn nbr_dy(k: int) -> int {
    if k == 0 {
        -1
    } else if k == 1 {
        0
    } else if k == 2 {
        1
    } else if k == 3 {
        -1
    } else if k == 4 {
        1
    } else if k == 5 {
        -1
    } else if k == 6 {
        0
    } else {
        1
    }
}

fn neighbor_offset(k: usize) -> (r: (i32, i32))
    requires
        k < 8,
    ensures
        r.0 == nbr_dx(k as int),
        r.1 == nbr_dy(k as int),
{
    if k == 0 {
        (-1, -1)
    } else if k == 1 {
        (-1, 0)
    } else if k == 2 {
        (-1, 1)
    } else if k == 3 {
        (0, -1)
    } else if k == 4 {
        (0, 1)
    } else if k == 5 {
        (1, -1)
    } else if k == 6 {
        (1, 0)
    } else {
        (1, 1)
    }
}

/// Stack and visited map after expanding the first `k` neighbors of the
/// popped cell `(x, y)`.
pub open spec fn flood_push(
    g: Seq<u8>,
    gw: int,
    gh: int,
    c: u8,
    st: Seq<(usize, usize)>,
    vis: Seq<bool>,
    x: int,
    y: int,
    k: int,
) -> (Seq<(usize, usize)>, Seq<bool>)
    decreases k,
{
    if k <= 0 {
        (st, vis)
    } else {
        let prev = flood_push(g, gw, gh, c, st, vis, x, y, k - 1);
        let nx = x + nbr_dx(k - 1);
        let ny = y + nbr_dy(k - 1);
        if 0 <= nx < gw && 0 <= ny < gh && g[ny * gw + nx] == c && !(prev.1[ny * gw + nx]) {
            (prev.0.push((nx as usize, ny as usize)), prev.1.update(ny * gw + nx, true))
        } else {
            prev
        }
    }
}

proof fn lemma_flood_push_props(
    g: Seq<u8>,
    gw: int,
    gh: int,
    c: u8,
    st: Seq<(usize, usize)>,
    vis: Seq<bool>,
    x: int,
    y: int,
    k: int,
)
    requires
        0 <= k,
        vis.len() == gw * gh,
    ensures
        ({
            let r = flood_push(g, gw, gh, c, st, vis, x, y, k);
            &&& r.1.len() == vis.len()
            &&& r.0.len() >= st.len()
            &&& count_unvisited(r.1) + r.0.len() - st.len() == count_unvisited(vis)
            &&& (r.0.len() == st.len() ==> r == (st, vis))
            &&& (forall|t: int| 0 <= t < st.len() ==> r.0[t] == st[t])
            &&& (forall|t: int|
                st.len() <= t < r.0.len() ==> (#[trigger] r.0[t]).0 < gw && r.0[t].1 < gh)
        }),
    decreases k,
{
    if k > 0 {
        lemma_flood_push_props(g, gw, gh, c, st, vis, x, y, k - 1);
        let prev = flood_push(g, gw, gh, c, st, vis, x, y, k - 1);
        let nx = x + nbr_dx(k - 1);
        let ny = y + nbr_dy(k - 1);
        if 0 <= nx < gw && 0 <= ny < gh && g[ny * gw + nx] == c && !(prev.1[ny * gw + nx]) {
            lemma_cell_index_bound(gw, gh, nx, ny);
            lemma_count_unvisited_update(prev.1, ny * gw + nx);
        }
    }
}

/// Finer accounting of one neighbor expansion, on boards of bounded size:
/// the marks it adds are exactly the cells it pushes, pushed cells hold the
/// flood's color, and every in-range same-color neighbor already considered
/// is marked afterwards.
proof fn lemma_flood_push_marks(
    g: Seq<u8>,
    gw: int,
    gh: int,
    c: u8,
    st: Seq<(usize, usize)>,
    vis: Seq<bool>,
    x: int,
    y: int,
    k: int,
)
    requires
        0 <= k,
        vis.len() == gw * gh,
        1 <= gw <= MAX_CELLS,
        1 <= gh <= MAX_CELLS,
    ensures
        ({
            let r = flood_push(g, gw, gh, c, st, vis, x, y, k);
            &&& (forall|i: int| 0 <= i < vis.len() && vis[i] ==> r.1[i])
            &&& (forall|i: int|
                0 <= i < vis.len() && #[trigger] r.1[i] && !vis[i] ==> exists|t: int|
                    st.len() <= t < r.0.len() && (#[trigger] r.0[t]).1 * gw + r.0[t].0 == i)
            &&& (forall|t: int|
                st.len() <= t < r.0.len() ==> g[(#[trigger] r.0[t]).1 * gw + r.0[t].0] == c
                    && r.1[r.0[t].1 * gw + r.0[t].0])
            &&& (forall|k2: int|
                0 <= k2 < k && 0 <= x + #[trigger] nbr_dx(k2) < gw && 0 <= y + nbr_dy(k2) < gh
                    && g[(y + nbr_dy(k2)) * gw + (x + nbr_dx(k2))] == c ==> r.1[(y + nbr_dy(k2))
                    * gw + (x + nbr_dx(k2))])
        }),
    decreases k,
{
    lemma_flood_push_props(g, gw, gh, c, st, vis, x, y, k);
    if k > 0 {
        lemma_flood_push_marks(g, gw, gh, c, st, vis, x, y, k - 1);
        lemma_flood_push_props(g, gw, gh, c, st, vis, x, y, k - 1);
        let prev = flood_push(g, gw, gh, c, st, vis, x, y, k - 1);
        let r = flood_push(g, gw, gh, c, st, vis, x, y, k);
        let nx = x + nbr_dx(k - 1);
        let ny = y + nbr_dy(k - 1);
        let pushed = 0 <= nx < gw && 0 <= ny < gh && g[ny * gw + nx] == c && !(prev.1[ny * gw
            + nx]);
        if pushed {
            lemma_cell_index_bound(gw, gh, nx, ny);
            let tn = prev.0.len() as int;
            assert(r.0[tn] == ((nx as usize), (ny as usize)));
            assert(r.0[tn].1 * gw + r.0[tn].0 == ny * gw + nx);
            assert forall|i: int| 0 <= i < vis.len() && #[trigger] r.1[i] && !vis[i] implies exists|
                t: int,
            |
                st.len() <= t < r.0.len() && (#[trigger] r.0[t]).1 * gw + r.0[t].0 == i by {
                if i == ny * gw + nx {
                    assert(st.len() <= tn < r.0.len() && r.0[tn].1 * gw + r.0[tn].0 == i);
                } else {
                    let tt = choose|t: int|
                        st.len() <= t < prev.0.len() && (#[trigger] prev.0[t]).1 * gw + prev.0[t].0
                            == i;
                    assert(r.0[tt] == prev.0[tt]);
                    assert(st.len() <= tt < r.0.len() && r.0[tt].1 * gw + r.0[tt].0 == i);
                }
            }
        }
        assert forall|t: int| st.len() <= t < r.0.len() implies g[(#[trigger] r.0[t]).1 * gw
            + r.0[t].0] == c && r.1[r.0[t].1 * gw + r.0[t].0] by {
            if t < prev.0.len() {
                assert(r.0[t] == prev.0[t]);
                lemma_cell_index_bound(gw, gh, prev.0[t].0 as int, prev.0[t].1 as int);
                assert(g[prev.0[t].1 * gw + prev.0[t].0] == c && prev.1[prev.0[t].1 * gw
                    + prev.0[t].0]);
            } else {
                assert(pushed && t == prev.0.len());
                assert(r.0[t] == ((nx as usize), (ny as usize)));
            }
        }
        assert forall|k2: int|
            0 <= k2 < k && 0 <= x + #[trigger] nbr_dx(k2) < gw && 0 <= y + nbr_dy(k2) < gh && g[(y
                + nbr_dy(k2)) * gw + (x + nbr_dx(k2))] == c implies r.1[(y + nbr_dy(k2)) * gw + (x
            + nbr_dx(k2))] by {
            let ni = (y + nbr_dy(k2)) * gw + (x + nbr_dx(k2));
            lemma_cell_index_bound(gw, gh, x + nbr_dx(k2), y + nbr_dy(k2));
            if k2 < k - 1 {
                assert(prev.1[ni]);
            } else {
                assert(k2 == k - 1);
                if !prev.1[ni] {
                    assert(pushed);
                }
            }
        }
    }
}

/// The whole flood from the given stack: pops the top cell, notes whether
/// it lies in the rightmost column, expands its unvisited same-color
/// neighbors, and repeats until the stack is empty.
pub open spec fn flood(
    g: Seq<u8>,
    gw: int,
    gh: int,
    c: u8,
    st: Seq<(usize, usize)>,
    vis: Seq<bool>,
    touches: bool,
) -> (Seq<bool>, bool)
    decreases count_unvisited(vis), st.len(),
    via flood_decreases
{
    if st.len() == 0 || vis.len() != gw * gh {
        (vis, touches)
    } else {
        let top = st.last();
        let st0 = st.drop_last();
        let t1 = touches || top.0 == gw - 1;
        let pushed = flood_push(g, gw, gh, c, st0, vis, top.0 as int, top.1 as int, 8);
        flood(g, gw, gh, c, pushed.0, pushed.1, t1)
    }
}

#[via_fn]
proof fn flood_decreases(
    g: Seq<u8>,
    gw: int,
    gh: int,
    c: u8,
    st: Seq<(usize, usize)>,
    vis: Seq<bool>,
    touches: bool,
) {
    if !(st.len() == 0 || vis.len() != gw * gh) {
        let top = st.last();
        let st0 = st.drop_last();
        lemma_flood_push_props(g, gw, gh, c, st0, vis, top.0 as int, top.1 as int, 8);
        lemma_count_unvisited_nonneg(vis);
        lemma_count_unvisited_nonneg(flood_push(g, gw, gh, c, st0, vis, top.0 as int, top.1 as int, 8).1);
    }
}

/// A flood that has already touched the right edge reports so.
proof fn lemma_flood_touch_true(
    g: Seq<u8>,
    gw: int,
    gh: int,
    c: u8,
    st: Seq<(usize, usize)>,
    vis: Seq<bool>,
)
    requires
        vis.len() == gw * gh,
    ensures
        flood(g, gw, gh, c, st, vis, true).1,
    decreases count_unvisited(vis), st.len(),
{
    if st.len() != 0 {
        let top = st.last();
        let st0 = st.drop_last();
        lemma_flood_push_props(g, gw, gh, c, st0, vis, top.0 as int, top.1 as int, 8);
        let pushed = flood_push(g, gw, gh, c, st0, vis, top.0 as int, top.1 as int, 8);
        lemma_count_unvisited_nonneg(vis);
        lemma_count_unvisited_nonneg(pushed.1);
        lemma_flood_touch_true(g, gw, gh, c, pushed.0, pushed.1);
    }
}

/// A flood whose stack holds a right-edge cell reports a touch.
proof fn lemma_flood_stack_edge(
    g: Seq<u8>,
    gw: int,
    gh: int,
    c: u8,
    st: Seq<(usize, usize)>,
    vis: Seq<bool>,
    t: bool,
    tt: int,
)
    requires
        vis.len() == gw * gh,
        0 <= tt < st.len(),
        st[tt].0 == gw - 1,
    ensures
        flood(g, gw, gh, c, st, vis, t).1,
    decreases count_unvisited(vis), st.len(),
{
    let top = st.last();
    let st0 = st.drop_last();
    lemma_flood_push_props(g, gw, gh, c, st0, vis, top.0 as int, top.1 as int, 8);
    let pushed = flood_push(g, gw, gh, c, st0, vis, top.0 as int, top.1 as int, 8);
    lemma_count_unvisited_nonneg(vis);
    lemma_count_unvisited_nonneg(pushed.1);
    if tt == st.len() - 1 {
        assert(top.0 == gw - 1);
        lemma_flood_touch_true(g, gw, gh, c, pushed.0, pushed.1);
    } else {
        assert(st0[tt] == st[tt]);
        assert(pushed.0[tt] == st0[tt]);
        lemma_flood_stack_edge(g, gw, gh, c, pushed.0, pushed.1, t || top.0 == gw - 1, tt);
    }
}

/// A flood never unmarks a cell and keeps the visited map's length.
proof fn lemma_flood_mono(
    g: Seq<u8>,
    gw: int,
    gh: int,
    c: u8,
    st: Seq<(usize, usize)>,
    vis: Seq<bool>,
    t: bool,
)
    requires
        vis.len() == gw * gh,
        1 <= gw <= MAX_CELLS,
        1 <= gh <= MAX_CELLS,
    ensures
        ({
            let r = flood(g, gw, gh, c, st, vis, t);
            &&& r.0.len() == vis.len()
            &&& forall|i: int| 0 <= i < vis.len() && vis[i] ==> r.0[i]
        }),
    decreases count_unvisited(vis), st.len(),
{
    if st.len() != 0 {
        let top = st.last();
        let st0 = st.drop_last();
        lemma_flood_push_props(g, gw, gh, c, st0, vis, top.0 as int, top.1 as int, 8);
        lemma_flood_push_marks(g, gw, gh, c, st0, vis, top.0 as int, top.1 as int, 8);
        let pushed = flood_push(g, gw, gh, c, st0, vis, top.0 as int, top.1 as int, 8);
        lemma_count_unvisited_nonneg(vis);
        lemma_count_unvisited_nonneg(pushed.1);
        lemma_flood_mono(g, gw, gh, c, pushed.0, pushed.1, t || top.0 == gw - 1);
    }
}

/// Any right-edge cell a flood marks makes it report a touch.
proof fn lemma_flood_edge_mark(
    g: Seq<u8>,
    gw: int,
    gh: int,
    c: u8,
    st: Seq<(usize, usize)>,
    vis: Seq<bool>,
    t: bool,
)
    requires
        vis.len() == gw * gh,
        1 <= gw <= MAX_CELLS,
        1 <= gh <= MAX_CELLS,
    ensures
        ({
            let r = flood(g, gw, gh, c, st, vis, t);
            forall|y2: int|
                0 <= y2 < gh && #[trigger] r.0[y2 * gw + (gw - 1)] ==> vis[y2 * gw + (gw - 1)]
                    || r.1
        }),
    decreases count_unvisited(vis), st.len(),
{
    if st.len() != 0 {
        let top = st.last();
        let st0 = st.drop_last();
        lemma_flood_push_props(g, gw, gh, c, st0, vis, top.0 as int, top.1 as int, 8);
        lemma_flood_push_marks(g, gw, gh, c, st0, vis, top.0 as int, top.1 as int, 8);
        let pushed = flood_push(g, gw, gh, c, st0, vis, top.0 as int, top.1 as int, 8);
        lemma_count_unvisited_nonneg(vis);
        lemma_count_unvisited_nonneg(pushed.1);
        let t1 = t || top.0 == gw - 1;
        lemma_flood_edge_mark(g, gw, gh, c, pushed.0, pushed.1, t1);
        let r = flood(g, gw, gh, c, st, vis, t);
        assert forall|y2: int| 0 <= y2 < gh && #[trigger] r.0[y2 * gw + (gw - 1)] implies vis[y2
            * gw + (gw - 1)] || r.1 by {
            let i2 = y2 * gw + (gw - 1);
            lemma_cell_index_bound(gw, gh, gw - 1, y2);
            let rr = flood(g, gw, gh, c, pushed.0, pushed.1, t1);
            assert(rr == r);
            assert(rr.0[y2 * gw + (gw - 1)] == r.0[i2]);
            if !vis[i2] {
                if pushed.1[i2] {
                    let te = choose|t2: int|
                        st0.len() <= t2 < pushed.0.len() && (#[trigger] pushed.0[t2]).1 * gw
                            + pushed.0[t2].0 == i2;
                    lemma_cell_index_injective(
                        gw,
                        pushed.0[te].0 as int,
                        pushed.0[te].1 as int,
                        gw - 1,
                        y2,
                    );
                    lemma_flood_stack_edge(g, gw, gh, c, pushed.0, pushed.1, t1, te);
                }
            }
        }
    }
}

/// The cell `(x, y)` is waiting on the stack.
pub open spec fn on_stack(st: Seq<(usize, usize)>, x: int, y: int) -> bool {
    exists|t: int| 0 <= t < st.len() && (#[trigger] st[t]).0 == x && st[t].1 == y
}

/// Neighbor `k` of `(x, y)` is in bounds and holds the same color.
pub open spec fn nbr_same(g: Seq<u8>, gw: int, gh: int, x: int, y: int, k: int) -> bool {
    &&& 0 <= x + nbr_dx(k) < gw
    &&& 0 <= y + nbr_dy(k) < gh
    &&& g[(y + nbr_dy(k)) * gw + (x + nbr_dx(k))] == g[y * gw + x]
}

/// Every same-color neighbor of a visited cell that is not still waiting
/// on the stack is visited: popped cells are expanded completely.
pub open spec fn expanded(g: Seq<u8>, gw: int, gh: int, vis: Seq<bool>, st: Seq<(usize, usize)>) -> bool {
    forall|x: int, y: int, k: int|
        0 <= x < gw && 0 <= y < gh && 0 <= k < 8 && vis[y * gw + x] && !on_stack(st, x, y)
            && #[trigger] nbr_same(g, gw, gh, x, y, k) ==> vis[(y + nbr_dy(k)) * gw + (x + nbr_dx(
            k,
        ))]
}

/// Stack cells are in bounds, visited, and hold the flood's color.
pub open spec fn stack_ok(
    g: Seq<u8>,
    gw: int,
    gh: int,
    c: u8,
    st: Seq<(usize, usize)>,
    vis: Seq<bool>,
) -> bool {
    forall|t: int|
        0 <= t < st.len() ==> (#[trigger] st[t]).0 < gw && st[t].1 < gh && g[st[t].1 * gw
            + st[t].0] == c && vis[st[t].1 * gw + st[t].0]
}

/// When a flood ends, its visited map is closed under same-color
/// adjacency.
proof fn lemma_flood_expands(
    g: Seq<u8>,
    gw: int,
    gh: int,
    c: u8,
    st: Seq<(usize, usize)>,
    vis: Seq<bool>,
    t: bool,
)
    requires
        vis.len() == gw * gh,
        1 <= gw <= MAX_CELLS,
        1 <= gh <= MAX_CELLS,
        stack_ok(g, gw, gh, c, st, vis),
        expanded(g, gw, gh, vis, st),
    ensures
        expanded(g, gw, gh, flood(g, gw, gh, c, st, vis, t).0, Seq::<(usize, usize)>::empty()),
    decreases count_unvisited(vis), st.len(),
{
    if st.len() == 0 {
        assert forall|x: int, y: int, k: int|
            0 <= x < gw && 0 <= y < gh && 0 <= k < 8 && vis[y * gw + x] && !on_stack(
                Seq::<(usize, usize)>::empty(),
                x,
                y,
            ) && #[trigger] nbr_same(g, gw, gh, x, y, k) implies vis[(y + nbr_dy(k)) * gw + (x
            + nbr_dx(k))] by {
            assert(!on_stack(st, x, y));
        }
    } else {
        let top = st.last();
        let st0 = st.drop_last();
        let xt = top.0 as int;
        let yt = top.1 as int;
        lemma_flood_push_props(g, gw, gh, c, st0, vis, xt, yt, 8);
        lemma_flood_push_marks(g, gw, gh, c, st0, vis, xt, yt, 8);
        let pushed = flood_push(g, gw, gh, c, st0, vis, xt, yt, 8);
        lemma_count_unvisited_nonneg(vis);
        lemma_count_unvisited_nonneg(pushed.1);
        let t1 = t || top.0 == gw - 1;
        assert(st[st.len() - 1] == top);
        assert forall|t2: int| 0 <= t2 < pushed.0.len() implies (#[trigger] pushed.0[t2]).0 < gw
            && pushed.0[t2].1 < gh && g[pushed.0[t2].1 * gw + pushed.0[t2].0] == c
            && pushed.1[pushed.0[t2].1 * gw + pushed.0[t2].0] by {
            if t2 < st0.len() {
                assert(pushed.0[t2] == st0[t2]);
                assert(st[t2] == st0[t2]);
                lemma_cell_index_bound(gw, gh, st[t2].0 as int, st[t2].1 as int);
            }
        }
        assert(stack_ok(g, gw, gh, c, pushed.0, pushed.1));
        assert forall|x: int, y: int, k: int|
            0 <= x < gw && 0 <= y < gh && 0 <= k < 8 && pushed.1[y * gw + x] && !on_stack(
                pushed.0,
                x,
                y,
            ) && #[trigger] nbr_same(g, gw, gh, x, y, k) implies pushed.1[(y + nbr_dy(k)) * gw + (x
            + nbr_dx(k))] by {
            let i = y * gw + x;
            let ni = (y + nbr_dy(k)) * gw + (x + nbr_dx(k));
            lemma_cell_index_bound(gw, gh, x, y);
            lemma_cell_index_bound(gw, gh, x + nbr_dx(k), y + nbr_dy(k));
            if vis[i] {
                if on_stack(st, x, y) {
                    let tt = choose|t2: int|
                        0 <= t2 < st.len() && (#[trigger] st[t2]).0 == x && st[t2].1 == y;
                    if tt < st.len() - 1 {
                        assert(st0[tt] == st[tt]);
                        assert(pushed.0[tt] == st0[tt]);
                        assert(on_stack(pushed.0, x, y));
                    } else {
                        assert(x == xt && y == yt);
                        assert(g[yt * gw + xt] == c);
                        assert(g[ni] == c);
                    }
                } else {
                    assert(vis[ni]);
                }
            } else {
                let te = choose|t2: int|
                    st0.len() <= t2 < pushed.0.len() && (#[trigger] pushed.0[t2]).1 * gw
                        + pushed.0[t2].0 == i;
                lemma_cell_index_injective(
                    gw,
                    pushed.0[te].0 as int,
                    pushed.0[te].1 as int,
                    x,
                    y,
                );
                assert(on_stack(pushed.0, x, y));
            }
        }
        lemma_flood_expands(g, gw, gh, c, pushed.0, pushed.1, t1);
    }
}

/// Any visited right-edge cell has already been counted as a clear.
pub open spec fn edge_counted(gw: int, gh: int, vis: Seq<bool>, clears: int) -> bool {
    forall|y: int| 0 <= y < gh && #[trigger] vis[y * gw + (gw - 1)] ==> clears >= 1
}

/// Executable flood fill matching `flood`.
#[verifier::loop_isolation(false)]
fn flood_fill(
    grid: &Vec<u8>,
    gw: usize,
    gh: usize,
    color: u8,
    stack: &mut Vec<(usize, usize)>,
    visited: &mut Vec<bool>,
) -> (touches: bool)
    requires
        grid@.len() == gw * gh,
        gw * gh <= MAX_CELLS,
        1 <= gw,
        1 <= gh,
        old(visited)@.len() == gw * gh,
        forall|t: int|
            0 <= t < old(stack)@.len() ==> (#[trigger] old(stack)@[t]).0 < gw && old(
                stack,
            )@[t].1 < gh,
    ensures
        final(visited)@.len() == gw * gh,
        (final(visited)@, touches) == flood(
            grid@,
            gw as int,
            gh as int,
            color,
            old(stack)@,
            old(visited)@,
            false,
        ),
{
    proof {
        lemma_dims_bounded(gw as int, gh as int);
    }
    let ghost gwi = gw as int;
    let ghost ghi = gh as int;
    let ghost target = flood(grid@, gwi, ghi, color, stack@, visited@, false);
    let mut touches = false;
    while stack.len() > 0
        invariant
            visited@.len() == gw * gh,
            forall|t: int|
                0 <= t < stack@.len() ==> (#[trigger] stack@[t]).0 < gw && stack@[t].1 < gh,
            flood(grid@, gwi, ghi, color, stack@, visited@, touches) == target,
        decreases count_unvisited(visited@), stack@.len(),
    {
        let ghost st_pre = stack@;
        let ghost vis_pre = visited@;
        let ghost t_pre = touches;
        let top = stack.pop().unwrap();
        let x = top.0;
        let y = top.1;
        if x == gw - 1 {
            touches = true;
        }
        let ghost st0 = stack@;
        let mut k: usize = 0;
        while k < 8
            invariant
                k <= 8,
                visited@.len() == gw * gh,
                x < gw,
                y < gh,
                forall|t: int|
                    0 <= t < stack@.len() ==> (#[trigger] stack@[t]).0 < gw && stack@[t].1 < gh,
                (stack@, visited@) == flood_push(
                    grid@,
                    gwi,
                    ghi,
                    color,
                    st0,
                    vis_pre,
                    x as int,
                    y as int,
                    k as int,
                ),
            decreases 8 - k,
        {
            let (dx, dy) = neighbor_offset(k);
            let nx: i32 = x as i32 + dx;
            let ny: i32 = y as i32 + dy;
            if 0 <= nx && nx < gw as i32 && 0 <= ny && ny < gh as i32 {
                let idx = cell_index(gw, gh, nx as usize, ny as usize);
                if grid[idx] == color && !visited[idx] {
                    visited.set(idx, true);
                    stack.push((nx as usize, ny as usize));
                }
            }
            k = k + 1;
        }
        proof {
            lemma_flood_push_props(grid@, gwi, ghi, color, st0, vis_pre, x as int, y as int, 8);
            lemma_count_unvisited_nonneg(visited@);
            assert(st_pre.len() > 0 && vis_pre.len() == gwi * ghi);
            assert(st_pre.last() == top);
            assert(st_pre.drop_last() =~= st0);
            assert(flood(grid@, gwi, ghi, color, st_pre, vis_pre, t_pre) == flood(
                grid@,
                gwi,
                ghi,
                color,
                stack@,
                visited@,
                touches,
            ));
        }
    }
    proof {
        assert(flood(grid@, gwi, ghi, color, stack@, visited@, touches) == (visited@, touches));
    }
    touches
}

/// Scan of the column-0 start cells of rows `0..y_end` for one color:
/// every unvisited start of that color seeds a flood, and the flood counts
/// one clear when it reaches the rightmost column.
pub open spec fn scan_starts(
    g: Seq<u8>,
    gw: int,
    gh: int,
    c: u8,
    y_end: int,
    vis: Seq<bool>,
    clears: int,
) -> (Seq<bool>, int)
    decreases y_end,
{
    if y_end <= 0 {
        (vis, clears)
    } else {
        let prev = scan_starts(g, gw, gh, c, y_end - 1, vis, clears);
        let start = (y_end - 1) * gw;
        if g[start] == c && !(prev.0[start]) {
            let vis2 = prev.0.update(start, true);
            let fl = flood(g, gw, gh, c, seq![(0usize, (y_end - 1) as usize)], vis2, false);
            (fl.0, prev.1 + if fl.1 {
                1int
            } else {
                0int
            })
        } else {
            prev
        }
    }
}

/// The scans of colors `1..=c_end`, sharing one visited map.
pub open spec fn scan_colors(
    g: Seq<u8>,
    gw: int,
    gh: int,
    c_end: int,
    vis: Seq<bool>,
    clears: int,
) -> (Seq<bool>, int)
    decreases c_end,
{
    if c_end <= 0 {
        (vis, clears)
    } else {
        let prev = scan_colors(g, gw, gh, c_end - 1, vis, clears);
        scan_starts(g, gw, gh, c_end as u8, gh, prev.0, prev.1)
    }
}

/// Number of spanning clears of the grid: for each color, the number of
/// 8-connected same-color components holding a column-0 cell from which
/// the flood reaches the last column.
pub open spec fn spanning_clears(g: Seq<u8>, gw: int, gh: int) -> int {
    scan_colors(g, gw, gh, 6, Seq::new((gw * gh) as nat, |i: int| false), 0).1
}

proof fn lemma_scan_starts_props(
    g: Seq<u8>,
    gw: int,
    gh: int,
    c: u8,
    y_end: int,
    vis: Seq<bool>,
    cl: int,
)
    requires
        1 <= gw <= MAX_CELLS,
        1 <= gh <= MAX_CELLS,
        vis.len() == gw * gh,
        0 <= y_end <= gh,
        0 <= cl,
        expanded(g, gw, gh, vis, Seq::<(usize, usize)>::empty()),
        edge_counted(gw, gh, vis, cl),
    ensures
        ({
            let r = scan_starts(g, gw, gh, c, y_end, vis, cl);
            &&& r.0.len() == gw * gh
            &&& (forall|i: int| 0 <= i < vis.len() && vis[i] ==> r.0[i])
            &&& expanded(g, gw, gh, r.0, Seq::<(usize, usize)>::empty())
            &&& edge_counted(gw, gh, r.0, r.1)
            &&& cl <= r.1
            &&& (forall|y2: int| 0 <= y2 < y_end && g[y2 * gw] == c ==> #[trigger] r.0[y2 * gw])
        }),
    decreases y_end,
{
    if y_end > 0 {
        lemma_scan_starts_props(g, gw, gh, c, y_end - 1, vis, cl);
        let prev = scan_starts(g, gw, gh, c, y_end - 1, vis, cl);
        let start = (y_end - 1) * gw;
        lemma_cell_index_bound(gw, gh, 0, y_end - 1);
        if g[start] == c && !(prev.0[start]) {
            let vis2 = prev.0.update(start, true);
            let stinit = seq![(0usize, (y_end - 1) as usize)];
            assert(stinit[0] == ((0usize), ((y_end - 1) as usize)));
            assert(stinit[0].1 * gw + stinit[0].0 == start);
            assert(stack_ok(g, gw, gh, c, stinit, vis2));
            assert forall|x: int, y: int, k: int|
                0 <= x < gw && 0 <= y < gh && 0 <= k < 8 && vis2[y * gw + x] && !on_stack(
                    stinit,
                    x,
                    y,
                ) && #[trigger] nbr_same(g, gw, gh, x, y, k) implies vis2[(y + nbr_dy(k)) * gw + (x
                + nbr_dx(k))] by {
                lemma_cell_index_bound(gw, gh, x, y);
                lemma_cell_index_bound(gw, gh, x + nbr_dx(k), y + nbr_dy(k));
                if y * gw + x == start {
                    lemma_cell_index_injective(gw, x, y, 0, y_end - 1);
                    assert(on_stack(stinit, x, y));
                } else {
                    assert(prev.0[y * gw + x]);
                    assert(!on_stack(Seq::<(usize, usize)>::empty(), x, y));
                    assert(prev.0[(y + nbr_dy(k)) * gw + (x + nbr_dx(k))]);
                }
            }
            lemma_flood_expands(g, gw, gh, c, stinit, vis2, false);
            lemma_flood_mono(g, gw, gh, c, stinit, vis2, false);
            lemma_flood_edge_mark(g, gw, gh, c, stinit, vis2, false);
            let fl = flood(g, gw, gh, c, stinit, vis2, false);
            let cl2 = prev.1 + if fl.1 {
                1int
            } else {
                0int
            };
            assert forall|y2: int| 0 <= y2 < gh && #[trigger] fl.0[y2 * gw + (gw - 1)] implies cl2
                >= 1 by {
                let i2 = y2 * gw + (gw - 1);
                lemma_cell_index_bound(gw, gh, gw - 1, y2);
                if !fl.1 {
                    assert(vis2[i2]);
                    if i2 == start {
                        assert(gw == 1) by {
                            lemma_cell_index_injective(gw, gw - 1, y2, 0, y_end - 1);
                        }
                        assert(stinit[0].0 == gw - 1);
                        lemma_flood_stack_edge(g, gw, gh, c, stinit, vis2, false, 0);
                    } else {
                        assert(prev.0[i2]);
                        assert(prev.1 >= 1);
                    }
                }
            }
            let r = scan_starts(g, gw, gh, c, y_end, vis, cl);
            assert(r.0 == fl.0 && r.1 == cl2);
            assert forall|i: int| 0 <= i < vis.len() && vis[i] implies r.0[i] by {
                assert(prev.0[i]);
                assert(vis2[i]);
                assert(fl.0[i]);
            }
            assert forall|y2: int| 0 <= y2 < y_end && g[y2 * gw] == c implies #[trigger] r.0[y2
                * gw] by {
                lemma_cell_index_bound(gw, gh, 0, y2);
                if y2 < y_end - 1 {
                    assert(prev.0[y2 * gw]);
                    assert(vis2[y2 * gw]);
                    assert(fl.0[y2 * gw]);
                } else {
                    assert(vis2[start]);
                    assert(fl.0[start]);
                }
            }
        } else {
            let r = scan_starts(g, gw, gh, c, y_end, vis, cl);
            assert(r == prev);
            assert forall|y2: int| 0 <= y2 < y_end && g[y2 * gw] == c implies #[trigger] r.0[y2
                * gw] by {
                if y2 == y_end - 1 {
                    assert(prev.0[start]);
                }
            }
        }
    }
}

proof fn lemma_scan_colors_props(g: Seq<u8>, gw: int, gh: int, c_end: int, vis: Seq<bool>, cl: int)
    requires
        1 <= gw <= MAX_CELLS,
        1 <= gh <= MAX_CELLS,
        vis.len() == gw * gh,
        0 <= c_end <= 6,
        0 <= cl,
        expanded(g, gw, gh, vis, Seq::<(usize, usize)>::empty()),
        edge_counted(gw, gh, vis, cl),
    ensures
        ({
            let r = scan_colors(g, gw, gh, c_end, vis, cl);
            &&& r.0.len() == gw * gh
            &&& (forall|i: int| 0 <= i < vis.len() && vis[i] ==> r.0[i])
            &&& expanded(g, gw, gh, r.0, Seq::<(usize, usize)>::empty())
            &&& edge_counted(gw, gh, r.0, r.1)
            &&& cl <= r.1
            &&& (forall|y2: int|
                0 <= y2 < gh && 1 <= g[y2 * gw] <= c_end ==> #[trigger] r.0[y2 * gw])
        }),
    decreases c_end,
{
    if c_end > 0 {
        lemma_scan_colors_props(g, gw, gh, c_end - 1, vis, cl);
        let prev = scan_colors(g, gw, gh, c_end - 1, vis, cl);
        lemma_scan_starts_props(g, gw, gh, c_end as u8, gh, prev.0, prev.1);
        let r = scan_colors(g, gw, gh, c_end, vis, cl);
        assert forall|y2: int| 0 <= y2 < gh && 1 <= g[y2 * gw] <= c_end implies #[trigger] r.0[y2
            * gw] by {
            lemma_cell_index_bound(gw, gh, 0, y2);
            if g[y2 * gw] < c_end {
                assert(prev.0[y2 * gw]);
            } else {
                assert(g[y2 * gw] == c_end as u8);
            }
        }
    }
}

proof fn lemma_row_walk(g: Seq<u8>, gw: int, gh: int, vis: Seq<bool>, y0: int, c: u8, x: int)
    requires
        1 <= gw,
        vis.len() == gw * gh,
        expanded(g, gw, gh, vis, Seq::<(usize, usize)>::empty()),
        0 <= y0 < gh,
        0 <= x < gw,
        forall|x2: int| 0 <= x2 < gw ==> #[trigger] g[y0 * gw + x2] == c,
        vis[y0 * gw],
    ensures
        vis[y0 * gw + x],
    decreases x,
{
    if x > 0 {
        lemma_row_walk(g, gw, gh, vis, y0, c, x - 1);
        assert(nbr_dx(6) == 1 && nbr_dy(6) == 0);
        assert(g[y0 * gw + x] == c && g[y0 * gw + (x - 1)] == c);
        assert(nbr_same(g, gw, gh, x - 1, y0, 6));
        assert(!on_stack(Seq::<(usize, usize)>::empty(), x - 1, y0));
        assert(vis[(y0 + nbr_dy(6)) * gw + ((x - 1) + nbr_dx(6))]);
    }
}

/// A flood of occupied color `c` never touches the right edge when the
/// rightmost column is empty.
proof fn lemma_flood_no_edge(
    g: Seq<u8>,
    gw: int,
    gh: int,
    c: u8,
    st: Seq<(usize, usize)>,
    vis: Seq<bool>,
)
    requires
        vis.len() == gw * gh,
        1 <= gw <= MAX_CELLS,
        1 <= gh <= MAX_CELLS,
        c != 0,
        stack_ok(g, gw, gh, c, st, vis),
        forall|y: int| 0 <= y < gh ==> #[trigger] g[y * gw + (gw - 1)] == 0,
    ensures
        !flood(g, gw, gh, c, st, vis, false).1,
    decreases count_unvisited(vis), st.len(),
{
    if st.len() != 0 {
        let top = st.last();
        let st0 = st.drop_last();
        let xt = top.0 as int;
        let yt = top.1 as int;
        lemma_flood_push_props(g, gw, gh, c, st0, vis, xt, yt, 8);
        lemma_flood_push_marks(g, gw, gh, c, st0, vis, xt, yt, 8);
        let pushed = flood_push(g, gw, gh, c, st0, vis, xt, yt, 8);
        lemma_count_unvisited_nonneg(vis);
        lemma_count_unvisited_nonneg(pushed.1);
        assert(st[st.len() - 1] == top);
        assert(g[yt * gw + xt] == c);
        assert(top.0 != gw - 1);
        assert forall|t2: int| 0 <= t2 < pushed.0.len() implies (#[trigger] pushed.0[t2]).0 < gw
            && pushed.0[t2].1 < gh && g[pushed.0[t2].1 * gw + pushed.0[t2].0] == c
            && pushed.1[pushed.0[t2].1 * gw + pushed.0[t2].0] by {
            if t2 < st0.len() {
                assert(pushed.0[t2] == st0[t2]);
                assert(st[t2] == st0[t2]);
                lemma_cell_index_bound(gw, gh, st[t2].0 as int, st[t2].1 as int);
            }
        }
        lemma_flood_no_edge(g, gw, gh, c, pushed.0, pushed.1);
    }
}

proof fn lemma_scan_starts_no_edge(
    g: Seq<u8>,
    gw: int,
    gh: int,
    c: u8,
    y_end: int,
    vis: Seq<bool>,
    cl: int,
)
    requires
        1 <= gw <= MAX_CELLS,
        1 <= gh <= MAX_CELLS,
        vis.len() == gw * gh,
        0 <= y_end <= gh,
        c != 0,
        forall|y: int| 0 <= y < gh ==> #[trigger] g[y * gw + (gw - 1)] == 0,
    ensures
        ({
            let r = scan_starts(g, gw, gh, c, y_end, vis, cl);
            r.0.len() == vis.len() && r.1 == cl
        }),
    decreases y_end,
{
    if y_end > 0 {
        lemma_scan_starts_no_edge(g, gw, gh, c, y_end - 1, vis, cl);
        let prev = scan_starts(g, gw, gh, c, y_end - 1, vis, cl);
        let start = (y_end - 1) * gw;
        lemma_cell_index_bound(gw, gh, 0, y_end - 1);
        if g[start] == c && !(prev.0[start]) {
            let vis2 = prev.0.update(start, true);
            let stinit = seq![(0usize, (y_end - 1) as usize)];
            assert(stinit[0] == ((0usize), ((y_end - 1) as usize)));
            assert(stinit[0].1 * gw + stinit[0].0 == start);
            assert(stack_ok(g, gw, gh, c, stinit, vis2));
            lemma_flood_no_edge(g, gw, gh, c, stinit, vis2);
            lemma_flood_mono(g, gw, gh, c, stinit, vis2, false);
        }
    }
}

proof fn lemma_scan_colors_no_edge(g: Seq<u8>, gw: int, gh: int, c_end: int, vis: Seq<bool>, cl: int)
    requires
        1 <= gw <= MAX_CELLS,
        1 <= gh <= MAX_CELLS,
        vis.len() == gw * gh,
        0 <= c_end <= 6,
        forall|y: int| 0 <= y < gh ==> #[trigger] g[y * gw + (gw - 1)] == 0,
    ensures
        ({
            let r = scan_colors(g, gw, gh, c_end, vis, cl);
            r.0.len() == vis.len() && r.1 == cl
        }),
    decreases c_end,
{
    if c_end > 0 {
        lemma_scan_colors_no_edge(g, gw, gh, c_end - 1, vis, cl);
        let prev = scan_colors(g, gw, gh, c_end - 1, vis, cl);
        lemma_scan_starts_no_edge(g, gw, gh, c_end as u8, gh, prev.0, prev.1);
    }
}

/// A grid whose rightmost column is empty yields no spanning clear at all:
/// in particular a run that stops one cell short of the far edge counts
/// nothing.
pub proof fn lemma_empty_edge_no_clears(g: Seq<u8>, gw: int, gh: int)
    requires
        1 <= gw,
        1 <= gh,
        gw * gh <= MAX_CELLS,
        g.len() == gw * gh,
        forall|y: int| 0 <= y < gh ==> #[trigger] g[y * gw + (gw - 1)] == 0,
    ensures
        spanning_clears(g, gw, gh) == 0,
{
    lemma_dims_bounded(gw, gh);
    let vis0 = Seq::new((gw * gh) as nat, |i: int| false);
    lemma_scan_colors_no_edge(g, gw, gh, 6, vis0, 0);
}

/// A row filled edge to edge with a single color always yields at least
/// one spanning clear.
pub proof fn lemma_full_row_clears(g: Seq<u8>, gw: int, gh: int, y0: int, c: u8)
    requires
        1 <= gw,
        1 <= gh,
        gw * gh <= MAX_CELLS,
        g.len() == gw * gh,
        0 <= y0 < gh,
        1 <= c <= 6,
        forall|x: int| 0 <= x < gw ==> #[trigger] g[y0 * gw + x] == c,
    ensures
        spanning_clears(g, gw, gh) >= 1,
{
    lemma_dims_bounded(gw, gh);
    let vis0 = Seq::new((gw * gh) as nat, |i: int| false);
    assert forall|x: int, y: int, k: int|
        0 <= x < gw && 0 <= y < gh && 0 <= k < 8 && vis0[y * gw + x] && !on_stack(
            Seq::<(usize, usize)>::empty(),
            x,
            y,
        ) && #[trigger] nbr_same(g, gw, gh, x, y, k) implies vis0[(y + nbr_dy(k)) * gw + (x
        + nbr_dx(k))] by {
        lemma_cell_index_bound(gw, gh, x, y);
    }
    assert forall|y: int| 0 <= y < gh && #[trigger] vis0[y * gw + (gw - 1)] implies 0int >= 1 by {
        lemma_cell_index_bound(gw, gh, gw - 1, y);
    }
    lemma_scan_colors_props(g, gw, gh, 6, vis0, 0);
    let r = scan_colors(g, gw, gh, 6, vis0, 0);
    assert(g[y0 * gw + 0] == c);
    assert(r.0[y0 * gw]);
    lemma_row_walk(g, gw, gh, r.0, y0, c, gw - 1);
    assert(r.0[y0 * gw + (gw - 1)]);
    assert(r.1 >= 1);
}

/// Count same-color 8-connected components that span left-to-right.
#[verifier::loop_isolation(false)]
pub fn count_spanning_clears(grid: &Vec<u8>, gw: usize, gh: usize) -> (clears: u32)
    requires
        grid@.len() == gw * gh,
        gw * gh <= MAX_CELLS,
        1 <= gw,
        1 <= gh,
    ensures
        clears == spanning_clears(grid@, gw as int, gh as int),
        clears <= 6 * (gh as int),
{
    proof {
        lemma_dims_bounded(gw as int, gh as int);
    }
    let ghost gwi = gw as int;
    let ghost ghi = gh as int;
    let n: usize = grid.len();
    let ghost vis_init = Seq::new((gwi * ghi) as nat, |i: int| false);
    let mut visited: Vec<bool> = Vec::new();
    let mut i: usize = 0;
    while i < n
        invariant
            i <= n,
            n == gw * gh,
            visited@.len() == i,
            forall|t: int| 0 <= t < i ==> !(#[trigger] visited@[t]),
        decreases n - i,
    {
        visited.push(false);
        i = i + 1;
    }
    proof {
        assert(visited@ =~= vis_init);
    }
    let mut clears: u32 = 0;
    let mut color: u8 = 1;
    while color <= 6
        invariant
            1 <= color <= 7,
            visited@.len() == gw * gh,
            (visited@, clears as int) == scan_colors(grid@, gwi, ghi, color as int - 1, vis_init, 0),
            clears <= (color as int - 1) * ghi,
        decreases 7 - color,
    {
        let ghost base = scan_colors(grid@, gwi, ghi, color as int - 1, vis_init, 0);
        let mut sy: usize = 0;
        while sy < gh
            invariant
                sy <= gh,
                visited@.len() == gw * gh,
                base == scan_colors(grid@, gwi, ghi, color as int - 1, vis_init, 0),
                (visited@, clears as int) == scan_starts(
                    grid@,
                    gwi,
                    ghi,
                    color,
                    sy as int,
                    base.0,
                    base.1,
                ),
                clears <= (color as int - 1) * ghi + sy,
            decreases gh - sy,
        {
            let ghost vis_pre = visited@;
            let ghost cl_pre = clears as int;
            let start = cell_index(gw, gh, 0, sy);
            if grid[start] == color && !visited[start] {
                visited.set(start, true);
                let mut stack: Vec<(usize, usize)> = Vec::new();
                stack.push((0, sy));
                proof {
                    assert(stack@ =~= seq![(0usize, sy)]);
                }
                let t = flood_fill(grid, gw, gh, color, &mut stack, &mut visited);
                if t {
                    proof {
                        assert((color as int - 1) * ghi + sy + 1 <= 6 * (MAX_CELLS as int))
                            by (nonlinear_arith)
                            requires
                                1 <= color <= 6,
                                0 <= sy < ghi,
                                ghi <= MAX_CELLS,
                        ;
                    }
                    clears = clears + 1;
                }
            }
            proof {
                assert((visited@, clears as int) == scan_starts(
                    grid@,
                    gwi,
                    ghi,
                    color,
                    sy as int + 1,
                    base.0,
                    base.1,
                ));
            }
            sy = sy + 1;
        }
        proof {
            assert((visited@, clears as int) == scan_colors(grid@, gwi, ghi, color as int, vis_init, 0));
            assert((color as int) * ghi == (color as int - 1) * ghi + ghi) by (nonlinear_arith);
        }
        color = color + 1;
    }
    clears
}

} // verus!
