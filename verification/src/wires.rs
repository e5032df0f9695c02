//! Routes connection wires through the gutters, on a grid of cells.
//!
//! Rules, in priority order:
//! 1. never under a window — windows plus a clearance are blocked cells;
//! 2. prefer a private lane — wires may cross at right angles but not
//!    run alongside each other in the same cells (PCB rule);
//! 3. share a lane if the channel is too tight;
//! 4. if no route exists at all, say so (the renderer draws stubs).
//!
//! The host turns window rectangles into blocked cell boxes and cell
//! paths back into pixels; the grid, the search, the lane bookkeeping and
//! the path simplification are here.
use vstd::prelude::*;

verus! {

/// Auto-detected or user-drawn.
#[derive(Clone, Copy, Debug, PartialEq, Eq, Structural)]
pub enum WireKind {
    /// Auto-detected relationship (config rule matched).
    Hard,
    /// User-drawn session binding.
    Soft,
}

/// A wire between two windows.
#[derive(Clone, Copy, Debug, PartialEq, Eq)]
pub struct Wire {
    /// Indices into the window list the router is given.
    pub a: usize,
    pub b: usize,
    pub kind: WireKind,
}

/// A grid cell, column first.
pub type Cell = (i32, i32);

/// The flat index of cell `(x, y)` in a grid `gw` cells wide.
pub open spec fn idx(gw: int, x: int, y: int) -> int {
    y * gw + x
}

/// The routing grid: `gw` × `gh` cells, blocked or free.
pub struct Grid {
    gw: i32,
    gh: i32,
    blk: Vec<bool>,
}

/// The grid by its dimensions and blocked flags, row by row.
pub struct GridView {
    pub gw: int,
    pub gh: int,
    pub blk: Seq<bool>,
}

impl View for Grid {
    type V = GridView;

    closed spec fn view(&self) -> GridView {
        GridView { gw: self.gw as int, gh: self.gh as int, blk: self.blk@ }
    }
}

/// A grid whose flags cover exactly its cells.
pub open spec fn grid_wf(g: GridView) -> bool {
    &&& 1 <= g.gw
    &&& 1 <= g.gh
    &&& g.gw * g.gh <= i32::MAX
    &&& g.blk.len() == g.gw * g.gh
}

/// The cell lies on the grid.
pub open spec fn in_grid(g: GridView, x: int, y: int) -> bool {
    0 <= x < g.gw && 0 <= y < g.gh
}

/// The cell lies on the grid and is not blocked.
pub open spec fn passable(g: GridView, x: int, y: int) -> bool {
    in_grid(g, x, y) && !g.blk[idx(g.gw, x, y)]
}

/// A box of cells `(x0, x1, y0, y1)`, bounds inclusive, covers `(x, y)`.
pub open spec fn covers(b: (i32, i32, i32, i32), x: int, y: int) -> bool {
    b.0 <= x <= b.1 && b.2 <= y <= b.3
}

/// A cell on the grid's outer ring, or under one of the boxes, is blocked.
pub open spec fn blocked(gw: int, gh: int, boxes: Seq<(i32, i32, i32, i32)>, x: int, y: int) -> bool {
    x == 0 || y == 0 || x == gw - 1 || y == gh - 1 || exists|i: int|
        0 <= i < boxes.len() && covers(#[trigger] boxes[i], x, y)
}

/// Row and column of a flat index are where `idx` put them.
pub proof fn lemma_idx(gw: int, gh: int, x: int, y: int)
    requires
        1 <= gw,
        0 <= x < gw,
        0 <= y < gh,
    ensures
        0 <= idx(gw, x, y) < gw * gh,
        idx(gw, x, y) % gw == x,
        idx(gw, x, y) / gw == y,
{
    assert(0 <= y * gw + x < gw * gh) by (nonlinear_arith)
        requires
            1 <= gw,
            0 <= x < gw,
            0 <= y < gh,
    ;
    vstd::arithmetic::div_mod::lemma_fundamental_div_mod_converse(y * gw + x, gw, y, x);
}

/// Every flat index below `gw * gh` is some cell's.
pub proof fn lemma_cell_of(gw: int, gh: int, k: int)
    requires
        1 <= gw,
        0 <= k < gw * gh,
    ensures
        0 <= k % gw < gw,
        0 <= k / gw < gh,
        idx(gw, k % gw, k / gw) == k,
{
    vstd::arithmetic::div_mod::lemma_fundamental_div_mod(k, gw);
    assert(k == gw * (k / gw) + k % gw);
    vstd::arithmetic::div_mod::lemma_mod_bound(k, gw);
    assert(0 <= k / gw) by (nonlinear_arith)
        requires
            1 <= gw,
            0 <= k,
            k == gw * (k / gw) + k % gw,
            0 <= k % gw < gw,
    ;
    assert(k / gw < gh) by (nonlinear_arith)
        requires
            1 <= gw,
            k < gw * gh,
            k == gw * (k / gw) + k % gw,
            0 <= k % gw < gw,
    ;
    assert(idx(gw, k % gw, k / gw) == (k / gw) * gw + k % gw);
    assert((k / gw) * gw == gw * (k / gw)) by (nonlinear_arith);
}

/// Two cells on the grid share a flat index only if they are the same.
pub proof fn lemma_idx_inj(gw: int, gh: int, x1: int, y1: int, x2: int, y2: int)
    requires
        1 <= gw,
        0 <= x1 < gw,
        0 <= y1 < gh,
        0 <= x2 < gw,
        0 <= y2 < gh,
        idx(gw, x1, y1) == idx(gw, x2, y2),
    ensures
        x1 == x2,
        y1 == y2,
{
    lemma_idx(gw, gh, x1, y1);
    lemma_idx(gw, gh, x2, y2);
}

/// The flat index of an on-grid cell.
fn cell_index(gw: i32, gh: i32, x: i32, y: i32) -> (k: usize)
    requires
        1 <= gw,
        gw * gh <= i32::MAX,
        0 <= x < gw,
        0 <= y < gh,
    ensures
        k == idx(gw as int, x as int, y as int),
        k < gw * gh,
{
    proof {
        lemma_idx(gw as int, gh as int, x as int, y as int);
    }
    (y * gw + x) as usize
}

impl Grid {
    /// A grid `gw` × `gh` cells whose outer ring is blocked, and every
    /// cell under one of the `boxes` (column range, then row range, bounds
    /// inclusive; parts off the grid are ignored).
    pub fn new(gw: i32, gh: i32, boxes: &Vec<(i32, i32, i32, i32)>) -> (g: Grid)
        requires
            1 <= gw,
            1 <= gh,
            gw * gh <= i32::MAX,
        ensures
            grid_wf(g@),
            g@.gw == gw,
            g@.gh == gh,
            forall|x: int, y: int|
                0 <= x < gw && 0 <= y < gh ==> g@.blk[idx(gw as int, x, y)] == blocked(
                    gw as int,
                    gh as int,
                    boxes@,
                    x,
                    y,
                ),
    {
        let mut blk: Vec<bool> = Vec::new();
        let mut y: i32 = 0;
        while y < gh
            invariant
                1 <= gw,
                1 <= gh,
                gw * gh <= i32::MAX,
                0 <= y <= gh,
                blk@.len() == y * gw,
                forall|k: int|
                    0 <= k < blk@.len() ==> blk@[k] == blocked(
                        gw as int,
                        gh as int,
                        boxes@,
                        k % (gw as int),
                        k / (gw as int),
                    ),
            decreases gh - y,
        {
            let mut x: i32 = 0;
            while x < gw
                invariant
                    1 <= gw,
                    1 <= gh,
                    gw * gh <= i32::MAX,
                    0 <= y < gh,
                    0 <= x <= gw,
                    blk@.len() == y * gw + x,
                    forall|k: int|
                        0 <= k < blk@.len() ==> blk@[k] == blocked(
                            gw as int,
                            gh as int,
                            boxes@,
                            k % (gw as int),
                            k / (gw as int),
                        ),
                decreases gw - x,
            {
                let mut hit = x == 0 || y == 0 || x == gw - 1 || y == gh - 1;
                let mut i: usize = 0;
                while i < boxes.len()
                    invariant
                        0 <= i <= boxes.len(),
                        hit == (x == 0 || y == 0 || x == gw - 1 || y == gh - 1 || exists|j: int|
                            0 <= j < i && covers(#[trigger] boxes@[j], x as int, y as int)),
                    decreases boxes.len() - i,
                {
                    let b = boxes[i];
                    if b.0 <= x && x <= b.1 && b.2 <= y && y <= b.3 {
                        hit = true;
                    }
                    i = i + 1;
                }
                proof {
                    lemma_idx(gw as int, gh as int, x as int, y as int);
                    assert(blk@.len() == idx(gw as int, x as int, y as int));
                }
                blk.push(hit);
                x = x + 1;
            }
            proof {
                assert(y * gw + gw == (y + 1) * gw) by (nonlinear_arith);
            }
            y = y + 1;
        }
        let g = Grid { gw, gh, blk };
        proof {
            assert(blk@.len() == gw * gh) by (nonlinear_arith)
                requires
                    blk@.len() == y * gw,
                    y == gh,
            ;
            assert forall|x: int, y: int| 0 <= x < gw && 0 <= y < gh implies g@.blk[idx(gw as int, x, y)]
                == blocked(gw as int, gh as int, boxes@, x, y) by {
                lemma_idx(gw as int, gh as int, x, y);
                let k = idx(gw as int, x, y);
                assert(blk@[k] == blocked(gw as int, gh as int, boxes@, k % (gw as int), k / (gw as int)));
            }
        }
        g
    }

    /// Width in cells.
    pub fn width(&self) -> (w: i32)
        ensures
            w == self@.gw,
    {
        self.gw
    }

    /// Height in cells.
    pub fn height(&self) -> (h: i32)
        ensures
            h == self@.gh,
    {
        self.gh
    }

    /// True when the cell lies on the grid and is not blocked.
    pub fn free(&self, x: i32, y: i32) -> (b: bool)
        requires
            grid_wf(self@),
        ensures
            b == passable(self@, x as int, y as int),
    {
        if x >= 0 && y >= 0 && x < self.gw && y < self.gh {
            let k = cell_index(self.gw, self.gh, x, y);
            !self.blk[k]
        } else {
            false
        }
    }
}


/// Column step of direction `d`: 0 right, 1 left, 2 down, 3 up.
pub open spec fn dx(d: int) -> int {
    if d == 0 {
        1
    } else if d == 1 {
        -1
    } else {
        0
    }
}

/// Row step of direction `d`: 0 right, 1 left, 2 down, 3 up.
pub open spec fn dy(d: int) -> int {
    if d == 2 {
        1
    } else if d == 3 {
        -1
    } else {
        0
    }
}

/// `(bx, by)` is one of the four neighbours of `(ax, ay)`.
pub open spec fn adjacent(ax: int, ay: int, bx: int, by: int) -> bool {
    ||| (bx == ax + 1 || bx == ax - 1) && by == ay
    ||| bx == ax && (by == ay + 1 || by == ay - 1)
}

/// The lane bit a move uses: 1 when it runs along a row, 2 along a column.
pub open spec fn lane(ay: int, by: int) -> u8 {
    if ay == by {
        1
    } else {
        2
    }
}

/// The lane occupancy as plain bytes, when there is one.
pub open spec fn lanes_of(occ: Option<&[u8]>) -> Option<Seq<u8>> {
    match occ {
        Some(o) => Some(o@),
        None => None,
    }
}

/// Occupancy, when given, has one byte per cell.
pub open spec fn lanes_fit(g: GridView, occ: Option<Seq<u8>>) -> bool {
    match occ {
        Some(o) => o.len() == g.gw * g.gh,
        None => true,
    }
}

/// A move from `(ax, ay)` to `(bx, by)` is allowed: to a free neighbour,
/// and, with occupancy, not along a lane already taken in that cell.
pub open spec fn step_ok(g: GridView, occ: Option<Seq<u8>>, ax: int, ay: int, bx: int, by: int) -> bool {
    &&& adjacent(ax, ay, bx, by)
    &&& passable(g, bx, by)
    &&& match occ {
        Some(o) => o[idx(g.gw, bx, by)] & lane(ay, by) == 0,
        None => true,
    }
}

/// `p` leads from `start` to `goal` by allowed moves through free cells.
pub open spec fn is_route(g: GridView, occ: Option<Seq<u8>>, p: Seq<Cell>, start: Cell, goal: Cell) -> bool {
    &&& p.len() >= 1
    &&& p[0] == start
    &&& p[p.len() - 1] == goal
    &&& passable(g, start.0 as int, start.1 as int)
    &&& forall|i: int|
        #![trigger p[i], p[i + 1]]
        0 <= i < p.len() - 1 ==> step_ok(
            g,
            occ,
            p[i].0 as int,
            p[i].1 as int,
            p[i + 1].0 as int,
            p[i + 1].1 as int,
        )
}

/// The `j`-th direction tried after arriving by direction `d`: straight
/// on first, then the others in their usual order.
pub open spec fn order(d: int, j: int) -> int {
    if d == 0 || d < 0 || d > 3 {
        j
    } else if j == 0 {
        d
    } else if j <= d {
        j - 1
    } else {
        j
    }
}

/// Every direction is tried once.
proof fn lemma_order_covers(d: int, e: int)
    requires
        0 <= e < 4,
    ensures
        exists|j: int| 0 <= j < 4 && order(d, j) == e,
{
    if d == 0 || d < 0 || d > 3 {
        assert(order(d, e) == e);
    } else if e == d {
        assert(order(d, 0) == e);
    } else if e < d {
        assert(order(d, e + 1) == e);
    } else {
        assert(order(d, e) == e);
    }
}

/// The cell at a flat index has been reached.
pub open spec fn seen(prev: Seq<i32>, k: int) -> bool {
    prev[k] >= 0
}

/// Every allowed move out of `(x, y)` leads to a reached cell.
pub open spec fn expanded(g: GridView, occ: Option<Seq<u8>>, prev: Seq<i32>, x: int, y: int) -> bool {
    forall|bx: int, by: int|
        #[trigger] step_ok(g, occ, x, y, bx, by) ==> seen(prev, idx(g.gw, bx, by))
}

/// Every allowed move out of `(x, y)`, a cell `d` moves from the start,
/// leads to a reached cell at most `d + 1` moves from the start.
pub open spec fn near(g: GridView, occ: Option<Seq<u8>>, prev: Seq<i32>, dist: Seq<nat>, x: int, y: int, d: nat) -> bool {
    forall|bx: int, by: int|
        #[trigger] step_ok(g, occ, x, y, bx, by) ==> seen(prev, idx(g.gw, bx, by)) && dist[idx(
            g.gw,
            bx,
            by,
        )] <= d + 1
}

/// Trying direction `e` out of `(x, y)`, `d` moves from the start, left
/// its cell reached at most `d + 1` moves out, if the move is allowed.
pub open spec fn tried(g: GridView, occ: Option<Seq<u8>>, prev: Seq<i32>, dist: Seq<nat>, x: int, y: int, e: int, d: nat) -> bool {
    step_ok(g, occ, x, y, x + dx(e), y + dy(e)) ==> seen(prev, idx(g.gw, x + dx(e), y + dy(e)))
        && dist[idx(g.gw, x + dx(e), y + dy(e))] <= d + 1
}

/// The distance recorded for the cell of queue entry `i`.
pub open spec fn qd(gw: int, dist: Seq<nat>, q: Seq<(i32, i32, i8)>, i: int) -> nat {
    dist[idx(gw, q[i].0 as int, q[i].1 as int)]
}

/// Reaching more cells, with the distances of reached cells unchanged,
/// keeps what a direction tried and what a cell's expansion showed.
proof fn lemma_near_grows(g: GridView, occ: Option<Seq<u8>>, p0: Seq<i32>, p1: Seq<i32>, d0: Seq<nat>, d1: Seq<nat>, x: int, y: int, d: nat)
    requires
        near(g, occ, p0, d0, x, y, d),
        p0.len() == p1.len(),
        forall|k: int| 0 <= k < p0.len() && seen(p0, k) ==> #[trigger] seen(p1, k) && d1[k] == d0[k],
        grid_wf(g),
        p0.len() == g.gw * g.gh,
    ensures
        near(g, occ, p1, d1, x, y, d),
{
    assert forall|bx: int, by: int| #[trigger] step_ok(g, occ, x, y, bx, by) implies seen(p1, idx(g.gw, bx, by))
        && d1[idx(g.gw, bx, by)] <= d + 1 by {
        lemma_idx(g.gw, g.gh, bx, by);
        let kk = idx(g.gw, bx, by);
        assert(seen(p0, kk));
        assert(seen(p1, kk) && d1[kk] == d0[kk]);
    }
}

/// Having tried all four directions, the cell is expanded.
proof fn lemma_tried_all(g: GridView, occ: Option<Seq<u8>>, prev: Seq<i32>, dist: Seq<nat>, x: int, y: int, d: int, dd: nat)
    requires
        forall|jj: int| 0 <= jj < 4 ==> #[trigger] tried(g, occ, prev, dist, x, y, order(d, jj), dd),
    ensures
        near(g, occ, prev, dist, x, y, dd),
{
    assert forall|bx: int, by: int| #[trigger] step_ok(g, occ, x, y, bx, by) implies seen(prev, idx(g.gw, bx, by))
        && dist[idx(g.gw, bx, by)] <= dd + 1 by {
        let e = if bx == x + 1 {
            0int
        } else if bx == x - 1 {
            1int
        } else if by == y + 1 {
            2int
        } else {
            3int
        };
        assert(bx == x + dx(e) && by == y + dy(e));
        lemma_order_covers(d, e);
        let jj = choose|jj: int| 0 <= jj < 4 && order(d, jj) == e;
        assert(tried(g, occ, prev, dist, x, y, order(d, jj), dd));
    }
}

/// The back-pointers form a tree rooted at `s` whose edges are allowed
/// moves, with `dist` counting the edges down to the root.
pub open spec fn tree_ok(g: GridView, occ: Option<Seq<u8>>, prev: Seq<i32>, dist: Seq<nat>, s: int) -> bool {
    &&& prev.len() == g.gw * g.gh
    &&& dist.len() == prev.len()
    &&& 0 <= s < prev.len()
    &&& prev[s] == s
    &&& dist[s] == 0
    &&& forall|k: int| 0 <= k < prev.len() ==> -1 <= #[trigger] prev[k] < prev.len()
    &&& forall|k: int|
        0 <= k < prev.len() && #[trigger] prev[k] >= 0 && k != s ==> {
            &&& prev[prev[k] as int] >= 0
            &&& dist[k] == dist[prev[k] as int] + 1
            &&& step_ok(g, occ, (prev[k] as int) % g.gw, (prev[k] as int) / g.gw, k % g.gw, k / g.gw)
        }
}

/// A route needs a free goal.
proof fn lemma_route_ends_free(g: GridView, occ: Option<Seq<u8>>, p: Seq<Cell>, start: Cell, goal: Cell)
    requires
        is_route(g, occ, p, start, goal),
    ensures
        passable(g, goal.0 as int, goal.1 as int),
{
    if p.len() > 1 {
        let i = p.len() - 2;
        assert(step_ok(g, occ, p[i].0 as int, p[i].1 as int, p[i + 1].0 as int, p[i + 1].1 as int));
    }
}

/// When the reached cells include the start and every reached cell has
/// been expanded, every cell on a route from the start has been reached.
proof fn lemma_closed_reaches(g: GridView, occ: Option<Seq<u8>>, prev: Seq<i32>, p: Seq<Cell>, start: Cell, goal: Cell, i: int)
    requires
        grid_wf(g),
        prev.len() == g.gw * g.gh,
        is_route(g, occ, p, start, goal),
        seen(prev, idx(g.gw, start.0 as int, start.1 as int)),
        forall|x: int, y: int|
            in_grid(g, x, y) && #[trigger] seen(prev, idx(g.gw, x, y)) ==> expanded(g, occ, prev, x, y),
        0 <= i < p.len(),
    ensures
        in_grid(g, p[i].0 as int, p[i].1 as int),
        seen(prev, idx(g.gw, p[i].0 as int, p[i].1 as int)),
    decreases i,
{
    if i > 0 {
        lemma_closed_reaches(g, occ, prev, p, start, goal, i - 1);
        let j = i - 1;
        let a = p[j];
        assert(p[j + 1] == p[i]);
        assert(step_ok(g, occ, a.0 as int, a.1 as int, p[i].0 as int, p[i].1 as int));
        assert(expanded(g, occ, prev, a.0 as int, a.1 as int));
    }
}

/// While the search has expanded, in order of distance, every cell
/// nearer than `lim`, the `i`-th cell of a route (for `i` up to `lim`)
/// has been reached no more than `i` moves from the start.
proof fn lemma_route_dist(
    g: GridView,
    occ: Option<Seq<u8>>,
    prev: Seq<i32>,
    dist: Seq<nat>,
    q: Seq<(i32, i32, i8)>,
    qi: int,
    pos: Seq<int>,
    p: Seq<Cell>,
    start: Cell,
    goal: Cell,
    lim: nat,
    i: int,
)
    requires
        grid_wf(g),
        prev.len() == g.gw * g.gh,
        dist.len() == prev.len(),
        pos.len() == prev.len(),
        is_route(g, occ, p, start, goal),
        seen(prev, idx(g.gw, start.0 as int, start.1 as int)),
        dist[idx(g.gw, start.0 as int, start.1 as int)] == 0,
        0 <= qi < q.len(),
        qd(g.gw, dist, q, qi) == lim,
        forall|a: int, b: int|
            0 <= a <= b < q.len() ==> #[trigger] qd(g.gw, dist, q, a) <= #[trigger] qd(g.gw, dist, q, b),
        forall|j: int| 0 <= j < q.len() ==> in_grid(g, (#[trigger] q[j]).0 as int, q[j].1 as int),
        forall|k: int|
            0 <= k < prev.len() && #[trigger] seen(prev, k) ==> 0 <= pos[k] < q.len() && idx(
                g.gw,
                q[pos[k]].0 as int,
                q[pos[k]].1 as int,
            ) == k,
        forall|j: int|
            0 <= j < qi ==> near(g, occ, prev, dist, (#[trigger] q[j]).0 as int, q[j].1 as int, qd(g.gw, dist, q, j)),
        0 <= i < p.len(),
        i <= lim,
    ensures
        in_grid(g, p[i].0 as int, p[i].1 as int),
        seen(prev, idx(g.gw, p[i].0 as int, p[i].1 as int)),
        dist[idx(g.gw, p[i].0 as int, p[i].1 as int)] <= i,
    decreases i,
{
    if i > 0 {
        lemma_route_dist(g, occ, prev, dist, q, qi, pos, p, start, goal, lim, i - 1);
        let j = i - 1;
        let a = p[j];
        assert(p[j + 1] == p[i]);
        assert(step_ok(g, occ, a.0 as int, a.1 as int, p[i].0 as int, p[i].1 as int));
        lemma_idx(g.gw, g.gh, a.0 as int, a.1 as int);
        let c = idx(g.gw, a.0 as int, a.1 as int);
        let m = pos[c];
        lemma_idx(g.gw, g.gh, q[m].0 as int, q[m].1 as int);
        lemma_idx_inj(g.gw, g.gh, q[m].0 as int, q[m].1 as int, a.0 as int, a.1 as int);
        assert(qd(g.gw, dist, q, m) == dist[c]);
        if m >= qi {
            assert(qd(g.gw, dist, q, qi) <= qd(g.gw, dist, q, m));
        }
        assert(near(g, occ, prev, dist, q[m].0 as int, q[m].1 as int, qd(g.gw, dist, q, m)));
    }
}

/// The step of direction `d`.
fn delta(d: usize) -> (r: (i32, i32))
    requires
        d < 4,
    ensures
        r.0 == dx(d as int),
        r.1 == dy(d as int),
{
    if d == 0 {
        (1, 0)
    } else if d == 1 {
        (-1, 0)
    } else if d == 2 {
        (0, 1)
    } else {
        (0, -1)
    }
}

/// The lane bit of direction `d`: 1 along a row, 2 along a column.
fn orient(d: usize) -> (o: u8)
    requires
        d < 4,
    ensures
        o == lane(0, dy(d as int)),
{
    if d < 2 {
        1
    } else {
        2
    }
}

/// The `j`-th direction to try after arriving by direction `d`.
fn dir_at(d: i8, j: usize) -> (e: usize)
    requires
        j < 4,
    ensures
        e == order(d as int, j as int),
        e < 4,
{
    if d <= 0 || d > 3 {
        j
    } else if j == 0 {
        d as usize
    } else if j <= d as usize {
        j - 1
    } else {
        j
    }
}

/// The cell at a flat index.
fn cell_at(gw: i32, gh: i32, k: usize) -> (c: Cell)
    requires
        1 <= gw,
        gw * gh <= i32::MAX,
        k < gw * gh,
    ensures
        c.0 == (k as int) % (gw as int),
        c.1 == (k as int) / (gw as int),
        0 <= c.0 < gw,
        0 <= c.1 < gh,
{
    proof {
        lemma_cell_of(gw as int, gh as int, k as int);
    }
    let ki = k as i32;
    (ki % gw, ki / gw)
}

/// Breadth-first route from `start` to `goal`, trying straight on first
/// so that routes bend less. With `occ`, lane occupancy per cell (bit 1
/// along a row, bit 2 along a column), a move into a cell whose lane in
/// that orientation is taken is refused; crossings pass. The route lists
/// every cell, both ends included, and no route is shorter; `None` when
/// there is none.
#[verifier::rlimit(60)]
pub fn bfs(grid: &Grid, occ: Option<&[u8]>, start: Cell, goal: Cell) -> (r: Option<Vec<Cell>>)
    requires
        grid_wf(grid@),
        lanes_fit(grid@, lanes_of(occ)),
    ensures
        match r {
            Some(p) => {
                &&& is_route(grid@, lanes_of(occ), p@, start, goal)
                &&& forall|q: Seq<Cell>| #[trigger]
                    is_route(grid@, lanes_of(occ), q, start, goal) ==> p@.len() <= q.len()
            },
            None => forall|p: Seq<Cell>| !is_route(grid@, lanes_of(occ), p, start, goal),
        },
{
    let ghost g = grid@;
    let ghost o = lanes_of(occ);
    if !grid.free(start.0, start.1) || !grid.free(goal.0, goal.1) {
        proof {
            assert forall|p: Seq<Cell>| !is_route(g, o, p, start, goal) by {
                if is_route(g, o, p, start, goal) {
                    lemma_route_ends_free(g, o, p, start, goal);
                }
            }
        }
        return None;
    }
    let gw = grid.gw;
    let gh = grid.gh;
    let n: usize = (gw * gh) as usize;
    let mut prev: Vec<i32> = Vec::new();
    while prev.len() < n
        invariant
            prev@.len() <= n,
            forall|k: int| 0 <= k < prev@.len() ==> prev@[k] == -1,
        decreases n - prev@.len(),
    {
        prev.push(-1);
    }
    let s = cell_index(gw, gh, start.0, start.1);
    prev.set(s, s as i32);
    let ghost mut dist: Seq<nat> = Seq::new(n as nat, |k: int| 0nat);
    let ghost mut pos: Seq<int> = Seq::new(n as nat, |k: int| 0int);
    let ghost mut vis: Set<int> = set![s as int];
    let mut q: Vec<(i32, i32, i8)> = Vec::new();
    q.push((start.0, start.1, -1));
    let mut qi: usize = 0;
    let mut found = false;
    proof {
        lemma_idx(gw as int, gh as int, start.0 as int, start.1 as int);
        vstd::set_lib::lemma_int_range(0, n as int);
        assert(vis =~= Set::new(|k: int| 0 <= k < n && prev@[k] >= 0));
    }
    while qi < q.len() && !found
        invariant
            g == grid@,
            o == lanes_of(occ),
            grid_wf(g),
            lanes_fit(g, o),
            gw == g.gw,
            gh == g.gh,
            n == gw * gh,
            passable(g, goal.0 as int, goal.1 as int),
            s == idx(gw as int, start.0 as int, start.1 as int),
            tree_ok(g, o, prev@, dist, s as int),
            vis == Set::new(|k: int| 0 <= k < n && prev@[k] >= 0),
            vis.finite(),
            vis.len() == q@.len(),
            0 <= qi <= q@.len() <= n,
            pos.len() == n,
            forall|i: int|
                0 <= i < q@.len() ==> in_grid(g, (#[trigger] q@[i]).0 as int, q@[i].1 as int)
                    && seen(prev@, idx(gw as int, q@[i].0 as int, q@[i].1 as int)),
            forall|k: int|
                0 <= k < n && #[trigger] seen(prev@, k) ==> 0 <= pos[k] < q@.len() && idx(
                    gw as int,
                    q@[pos[k]].0 as int,
                    q@[pos[k]].1 as int,
                ) == k,
            forall|a: int, b: int|
                0 <= a <= b < q@.len() ==> #[trigger] qd(gw as int, dist, q@, a) <= #[trigger] qd(
                    gw as int,
                    dist,
                    q@,
                    b,
                ),
            qi < q@.len() ==> forall|b: int|
                qi <= b < q@.len() ==> #[trigger] qd(gw as int, dist, q@, b) <= qd(
                    gw as int,
                    dist,
                    q@,
                    qi as int,
                ) + 1,
            forall|i: int|
                0 <= i < qi ==> near(
                    g,
                    o,
                    prev@,
                    dist,
                    (#[trigger] q@[i]).0 as int,
                    q@[i].1 as int,
                    qd(gw as int, dist, q@, i),
                ),
            forall|i: int|
                0 <= i < qi ==> !((#[trigger] q@[i]).0 == goal.0 && q@[i].1 == goal.1),
            found ==> qi < q@.len() && q@[qi as int].0 == goal.0 && q@[qi as int].1 == goal.1,
        decreases n - qi + (if found { 0int } else { 1int }),
    {
        let (x, y, d) = q[qi];
        if x == goal.0 && y == goal.1 {
            found = true;
        } else {
            let ghost dcur = qd(gw as int, dist, q@, qi as int);
            let mut j: usize = 0;
            while j < 4
                invariant
                    g == grid@,
                    o == lanes_of(occ),
                    grid_wf(g),
                    lanes_fit(g, o),
                    gw == g.gw,
                    gh == g.gh,
                    n == gw * gh,
                    s == idx(gw as int, start.0 as int, start.1 as int),
                    tree_ok(g, o, prev@, dist, s as int),
                    vis == Set::new(|k: int| 0 <= k < n && prev@[k] >= 0),
                    vis.finite(),
                    vis.len() == q@.len(),
                    0 <= qi < q@.len() <= n,
                    q@[qi as int] == (x, y, d),
                    dcur == qd(gw as int, dist, q@, qi as int),
                    pos.len() == n,
                    j <= 4,
                    forall|i: int|
                        0 <= i < q@.len() ==> in_grid(g, (#[trigger] q@[i]).0 as int, q@[i].1 as int)
                            && seen(prev@, idx(gw as int, q@[i].0 as int, q@[i].1 as int)),
                    forall|k: int|
                        0 <= k < n && #[trigger] seen(prev@, k) ==> 0 <= pos[k] < q@.len() && idx(
                            gw as int,
                            q@[pos[k]].0 as int,
                            q@[pos[k]].1 as int,
                        ) == k,
                    forall|a: int, b: int|
                        0 <= a <= b < q@.len() ==> #[trigger] qd(gw as int, dist, q@, a)
                            <= #[trigger] qd(gw as int, dist, q@, b),
                    forall|b: int|
                        qi <= b < q@.len() ==> #[trigger] qd(gw as int, dist, q@, b) <= dcur + 1,
                    forall|i: int|
                        0 <= i < qi ==> near(
                            g,
                            o,
                            prev@,
                            dist,
                            (#[trigger] q@[i]).0 as int,
                            q@[i].1 as int,
                            qd(gw as int, dist, q@, i),
                        ),
                    forall|i: int|
                        0 <= i < qi ==> !((#[trigger] q@[i]).0 == goal.0 && q@[i].1 == goal.1),
                    forall|jj: int|
                        0 <= jj < j ==> #[trigger] tried(
                            g,
                            o,
                            prev@,
                            dist,
                            x as int,
                            y as int,
                            order(d as int, jj),
                            dcur,
                        ),
                decreases 4 - j,
            {
                let nd = dir_at(d, j);
                let (ddx, ddy) = delta(nd);
                let nx = x + ddx;
                let ny = y + ddy;
                if grid.free(nx, ny) {
                    let k = cell_index(gw, gh, nx, ny);
                    if prev[k] < 0 {
                        let taken = match occ {
                            Some(lanes) => lanes[k] & orient(nd) != 0,
                            None => false,
                        };
                        if !taken {
                            let c = cell_index(gw, gh, x, y);
                            proof {
                                lemma_idx(gw as int, gh as int, x as int, y as int);
                                lemma_idx(gw as int, gh as int, nx as int, ny as int);
                            }
                            let ghost p0 = prev@;
                            let ghost pos0 = pos;
                            let ghost d0 = dist;
                            prev.set(k, c as i32);
                            proof {
                                dist = dist.update(k as int, dist[c as int] + 1);
                                pos = pos.update(k as int, q@.len() as int);
                                vis = vis.insert(k as int);
                            }
                            let ghost q0 = q@;
                            q.push((nx, ny, nd as i8));
                            proof {
                                assert(vis =~= Set::new(|k: int| 0 <= k < n && prev@[k] >= 0));
                                vstd::set_lib::lemma_int_range(0, n as int);
                                vstd::set_lib::lemma_len_subset(vis, vstd::set_lib::set_int_range(0, n as int));
                                assert forall|kk: int| 0 <= kk < p0.len() && seen(p0, kk) implies #[trigger] seen(prev@, kk)
                                    && dist[kk] == d0[kk] by {
                                    assert(kk != k);
                                }
                                assert forall|i: int| 0 <= i < q@.len() implies in_grid(g, (#[trigger] q@[i]).0 as int, q@[i].1 as int)
                                    && seen(prev@, idx(gw as int, q@[i].0 as int, q@[i].1 as int)) by {
                                    if i < q0.len() {
                                        assert(q@[i] == q0[i]);
                                        assert(seen(p0, idx(gw as int, q0[i].0 as int, q0[i].1 as int)));
                                        lemma_idx(gw as int, gh as int, q0[i].0 as int, q0[i].1 as int);
                                    } else {
                                        assert(q@[i] == (nx, ny, nd as i8));
                                        assert(prev@[k as int] == c as i32);
                                    }
                                }
                                assert forall|i: int| 0 <= i < q@.len() implies #[trigger] qd(gw as int, dist, q@, i)
                                    == if i < q0.len() {
                                        qd(gw as int, d0, q0, i)
                                    } else {
                                        dcur + 1
                                    } by {
                                    if i < q0.len() {
                                        assert(q@[i] == q0[i]);
                                        assert(seen(p0, idx(gw as int, q0[i].0 as int, q0[i].1 as int)));
                                        lemma_idx(gw as int, gh as int, q0[i].0 as int, q0[i].1 as int);
                                    } else {
                                        assert(q@[i] == (nx, ny, nd as i8));
                                    }
                                }
                                assert(qd(gw as int, d0, q0, qi as int) == d0[c as int]);
                                assert forall|a: int, b: int| 0 <= a <= b < q@.len() implies #[trigger] qd(
                                    gw as int,
                                    dist,
                                    q@,
                                    a,
                                ) <= #[trigger] qd(gw as int, dist, q@, b) by {
                                    if b >= q0.len() && a < q0.len() {
                                        if a < qi {
                                            assert(qd(gw as int, d0, q0, a) <= qd(gw as int, d0, q0, qi as int));
                                        } else {
                                            assert(qd(gw as int, d0, q0, a) <= dcur + 1);
                                        }
                                    }
                                }
                                assert forall|i: int| 0 <= i < qi implies near(
                                    g,
                                    o,
                                    prev@,
                                    dist,
                                    (#[trigger] q@[i]).0 as int,
                                    q@[i].1 as int,
                                    qd(gw as int, dist, q@, i),
                                ) by {
                                    assert(q@[i] == q0[i]);
                                    assert(qd(gw as int, dist, q@, i) == qd(gw as int, d0, q0, i));
                                    lemma_near_grows(g, o, p0, prev@, d0, dist, q0[i].0 as int, q0[i].1 as int, qd(gw as int, d0, q0, i));
                                }
                                assert forall|jj: int| 0 <= jj < j implies #[trigger] tried(
                                    g,
                                    o,
                                    prev@,
                                    dist,
                                    x as int,
                                    y as int,
                                    order(d as int, jj),
                                    dcur,
                                ) by {
                                    let e = order(d as int, jj);
                                    assert(tried(g, o, p0, d0, x as int, y as int, e, dcur));
                                    if step_ok(g, o, x as int, y as int, x + dx(e), y + dy(e)) {
                                        assert(seen(p0, idx(g.gw, x + dx(e), y + dy(e))));
                                        lemma_idx(gw as int, gh as int, x + dx(e), y + dy(e));
                                    }
                                }
                                assert forall|kk: int| 0 <= kk < n && #[trigger] seen(prev@, kk) implies 0 <= pos[kk] < q@.len() && idx(
                                    gw as int,
                                    q@[pos[kk]].0 as int,
                                    q@[pos[kk]].1 as int,
                                ) == kk by {
                                    if kk != k {
                                        assert(seen(p0, kk));
                                        assert(pos[kk] == pos0[kk]);
                                        assert(q@[pos[kk]] == q0[pos0[kk]]);
                                    }
                                }
                            }
                        }
                    } else {
                        proof {
                            assert(seen(prev@, k as int));
                            let m = pos[k as int];
                            assert(in_grid(g, q@[m].0 as int, q@[m].1 as int));
                            lemma_idx(gw as int, gh as int, nx as int, ny as int);
                            lemma_idx(gw as int, gh as int, q@[m].0 as int, q@[m].1 as int);
                            assert(qd(gw as int, dist, q@, m) == dist[k as int]);
                            if m < qi {
                                assert(qd(gw as int, dist, q@, m) <= qd(gw as int, dist, q@, qi as int));
                            }
                        }
                    }
                }
                j = j + 1;
            }
            proof {
                lemma_tried_all(g, o, prev@, dist, x as int, y as int, d as int, dcur);
                assert(qd(gw as int, dist, q@, qi as int) == dcur);
                if qi + 1 < q@.len() {
                    assert(qd(gw as int, dist, q@, qi as int) <= qd(gw as int, dist, q@, qi + 1));
                }
            }
            qi = qi + 1;
        }
    }
    if !found {
        proof {
            assert forall|x: int, y: int| in_grid(g, x, y) && #[trigger] seen(prev@, idx(g.gw, x, y)) implies expanded(g, o, prev@, x, y) by {
                lemma_idx(gw as int, gh as int, x, y);
                let k = idx(g.gw, x, y);
                let i = pos[k];
                lemma_idx_inj(gw as int, gh as int, q@[i].0 as int, q@[i].1 as int, x, y);
                assert(near(g, o, prev@, dist, q@[i].0 as int, q@[i].1 as int, qd(gw as int, dist, q@, i)));
            }
            assert forall|p: Seq<Cell>| !is_route(g, o, p, start, goal) by {
                if is_route(g, o, p, start, goal) {
                    lemma_closed_reaches(g, o, prev@, p, start, goal, p.len() - 1);
                    lemma_idx(gw as int, gh as int, goal.0 as int, goal.1 as int);
                    let k = idx(g.gw, goal.0 as int, goal.1 as int);
                    let i = pos[k];
                    lemma_idx_inj(gw as int, gh as int, q@[i].0 as int, q@[i].1 as int, goal.0 as int, goal.1 as int);
                    assert(!((q@[i]).0 == goal.0 && q@[i].1 == goal.1));
                }
            }
        }
        return None;
    }
    let gi = cell_index(gw, gh, goal.0, goal.1);
    let mut back: Vec<Cell> = Vec::new();
    back.push(goal);
    let mut k: usize = gi;
    proof {
        lemma_idx(gw as int, gh as int, goal.0 as int, goal.1 as int);
        let i = qi as int;
        assert(q@[i].0 == goal.0 && q@[i].1 == goal.1);
        assert(qd(gw as int, dist, q@, i) == dist[gi as int]);
    }
    while prev[k] as usize != k
        invariant
            grid_wf(g),
            gw == g.gw,
            gh == g.gh,
            n == gw * gh,
            tree_ok(g, o, prev@, dist, s as int),
            k < n,
            gi < n,
            seen(prev@, k as int),
            back@.len() >= 1,
            back@.len() + dist[k as int] == dist[gi as int] + 1,
            back@[0] == goal,
            back@[back@.len() - 1].0 == (k as int) % (gw as int),
            back@[back@.len() - 1].1 == (k as int) / (gw as int),
            forall|i: int|
                #![trigger back@[i], back@[i + 1]]
                0 <= i < back@.len() - 1 ==> step_ok(
                    g,
                    o,
                    back@[i + 1].0 as int,
                    back@[i + 1].1 as int,
                    back@[i].0 as int,
                    back@[i].1 as int,
                ),
        decreases dist[k as int],
    {
        let p = prev[k] as usize;
        let c = cell_at(gw, gh, p);
        let ghost b0 = back@;
        back.push(c);
        proof {
            assert forall|i: int|
                #![trigger back@[i], back@[i + 1]]
                0 <= i < back@.len() - 1 implies step_ok(
                    g,
                    o,
                    back@[i + 1].0 as int,
                    back@[i + 1].1 as int,
                    back@[i].0 as int,
                    back@[i].1 as int,
                ) by {
                if i < b0.len() - 1 {
                    assert(back@[i] == b0[i] && back@[i + 1] == b0[i + 1]);
                } else {
                    assert(back@[i] == b0[i]);
                }
            }
        }
        k = p;
    }
    proof {
        lemma_idx(gw as int, gh as int, start.0 as int, start.1 as int);
        if k != s {
            assert(dist[k as int] == dist[prev@[k as int] as int] + 1);
        }
    }
    let m = back.len();
    let mut out: Vec<Cell> = Vec::new();
    let mut i: usize = 0;
    while i < m
        invariant
            m == back@.len(),
            0 <= i <= m,
            out@.len() == i,
            forall|j: int| 0 <= j < i ==> out@[j] == back@[m - 1 - j],
        decreases m - i,
    {
        out.push(back[m - 1 - i]);
        i = i + 1;
    }
    proof {
        assert(out@[0] == start);
        assert forall|j: int|
            #![trigger out@[j], out@[j + 1]]
            0 <= j < out@.len() - 1 implies step_ok(
                g,
                o,
                out@[j].0 as int,
                out@[j].1 as int,
                out@[j + 1].0 as int,
                out@[j + 1].1 as int,
            ) by {
            let b = m - 2 - j;
            assert(out@[j] == back@[b + 1]);
            assert(out@[j + 1] == back@[b]);
        }
        let lim = dist[gi as int];
        assert forall|r: Seq<Cell>| #[trigger] is_route(g, o, r, start, goal) implies out@.len() <= r.len() by {
            if r.len() < out@.len() {
                lemma_route_dist(g, o, prev@, dist, q@, qi as int, pos, r, start, goal, lim, r.len() - 1);
            }
        }
    }
    Some(out)
}

/// Step `i` of `full` (from cell `i - 1` to cell `i`) runs along lane `o`
/// and has the cell at flat index `k` as one of its ends.
pub open spec fn step_uses(full: Seq<Cell>, gw: int, k: int, i: int, o: u8) -> bool {
    &&& lane(full[i - 1].1 as int, full[i].1 as int) == o
    &&& (idx(gw, full[i - 1].0 as int, full[i - 1].1 as int) == k || idx(
        gw,
        full[i].0 as int,
        full[i].1 as int,
    ) == k)
}

/// One of the first `upto - 1` steps of `full` uses lane `o` in cell `k`.
pub open spec fn uses_lane(full: Seq<Cell>, gw: int, k: int, upto: int, o: u8) -> bool {
    exists|i: int| 1 <= i < upto && #[trigger] step_uses(full, gw, k, i, o)
}

/// The lane bits for a cell used along a row (`h`) and along a column (`v`).
pub open spec fn lane_bits(h: bool, v: bool) -> u8 {
    if h && v {
        3
    } else if h {
        1
    } else if v {
        2
    } else {
        0
    }
}

/// What the lanes hold after marking the first `upto - 1` steps of `full`.
pub open spec fn marked(occ: Seq<u8>, full: Seq<Cell>, gw: int, upto: int) -> Seq<u8> {
    Seq::new(
        occ.len(),
        |k: int| occ[k] | lane_bits(uses_lane(full, gw, k, upto, 1), uses_lane(full, gw, k, upto, 2)),
    )
}

/// The cells of `full` lie on a grid `gw` wide whose lanes `occ` covers.
pub open spec fn marks_fit(occ: Seq<u8>, full: Seq<Cell>, gw: int) -> bool {
    &&& 1 <= gw
    &&& occ.len() <= i32::MAX
    &&& forall|i: int|
        0 <= i < full.len() ==> 0 <= (#[trigger] full[i]).0 < gw && 0 <= full[i].1 && idx(
            gw,
            full[i].0 as int,
            full[i].1 as int,
        ) < occ.len()
}

/// Adding lane `o` to a cell's bits.
proof fn lemma_add_lane(x: u8, h: bool, v: bool, o: u8)
    requires
        o == 1 || o == 2,
    ensures
        (x | lane_bits(h, v)) | o == x | lane_bits(h || o == 1, v || o == 2),
{
    if h && v {
        assert((x | 3u8) | 1u8 == x | 3u8) by (bit_vector);
        assert((x | 3u8) | 2u8 == x | 3u8) by (bit_vector);
    } else if h {
        assert((x | 1u8) | 1u8 == x | 1u8) by (bit_vector);
        assert((x | 1u8) | 2u8 == x | 3u8) by (bit_vector);
    } else if v {
        assert((x | 2u8) | 1u8 == x | 3u8) by (bit_vector);
        assert((x | 2u8) | 2u8 == x | 2u8) by (bit_vector);
    } else {
        assert((x | 0u8) | 1u8 == x | 1u8) by (bit_vector);
        assert((x | 0u8) | 2u8 == x | 2u8) by (bit_vector);
    }
}

/// Nothing marked leaves the lanes as they were.
proof fn lemma_marked_none(occ: Seq<u8>, full: Seq<Cell>, gw: int)
    ensures
        marked(occ, full, gw, 1) == occ,
{
    assert forall|k: int| 0 <= k < occ.len() implies #[trigger] marked(occ, full, gw, 1)[k] == occ[k] by {
        assert(occ[k] | 0u8 == occ[k]) by (bit_vector);
    }
    assert(marked(occ, full, gw, 1) =~= occ);
}

/// The flat index of a cell of a path that [`marks_fit`].
fn path_index(gw: i32, c: Cell, len: usize) -> (k: usize)
    requires
        1 <= gw,
        len <= i32::MAX,
        0 <= c.0 < gw,
        0 <= c.1,
        idx(gw as int, c.0 as int, c.1 as int) < len,
    ensures
        k == idx(gw as int, c.0 as int, c.1 as int),
{
    proof {
        assert(c.1 * gw <= c.1 * gw + c.0);
    }
    (c.1 * gw + c.0) as usize
}

/// Record the lanes a routed path uses: each step marks both of its end
/// cells with its orientation (1 along a row, 2 along a column).
pub fn mark(occ: &mut Vec<u8>, full: &[Cell], gw: i32)
    requires
        marks_fit(old(occ)@, full@, gw as int),
    ensures
        final(occ)@ == marked(old(occ)@, full@, gw as int, full@.len() as int),
{
    let ghost occ0 = occ@;
    let len = occ.len();
    proof {
        lemma_marked_none(occ0, full@, gw as int);
    }
    if full.len() == 0 {
        proof {
            assert(marked(occ0, full@, gw as int, 0) =~= marked(occ0, full@, gw as int, 1));
        }
        return;
    }
    let mut i: usize = 1;
    while i < full.len()
        invariant
            1 <= i <= full@.len(),
            len == occ0.len(),
            marks_fit(occ0, full@, gw as int),
            occ@ == marked(occ0, full@, gw as int, i as int),
        decreases full@.len() - i,
    {
        let ay = full[i - 1].1;
        let by = full[i].1;
        let o: u8 = if ay == by {
            1
        } else {
            2
        };
        let ka = path_index(gw, full[i - 1], len);
        let kb = path_index(gw, full[i], len);
        let ghost before = occ@;
        let va = occ[ka] | o;
        occ.set(ka, va);
        let vb = occ[kb] | o;
        occ.set(kb, vb);
        proof {
            let g = gw as int;
            let next = marked(occ0, full@, g, i + 1);
            assert forall|k: int| 0 <= k < len implies #[trigger] occ@[k] == next[k] by {
                let h0 = uses_lane(full@, g, k, i as int, 1);
                let v0 = uses_lane(full@, g, k, i as int, 2);
                let h1 = uses_lane(full@, g, k, i + 1, 1);
                let v1 = uses_lane(full@, g, k, i + 1, 2);
                if k == ka || k == kb {
                    assert(step_uses(full@, g, k, i as int, o));
                    assert(h1 == (h0 || o == 1)) by {
                        if h1 && !h0 {
                            let w = choose|w: int| 1 <= w < i + 1 && #[trigger] step_uses(full@, g, k, w, 1u8);
                            assert(w == i);
                        }
                    }
                    assert(v1 == (v0 || o == 2)) by {
                        if v1 && !v0 {
                            let w = choose|w: int| 1 <= w < i + 1 && #[trigger] step_uses(full@, g, k, w, 2u8);
                            assert(w == i);
                        }
                    }
                    lemma_add_lane(occ0[k], h0, v0, o);
                    lemma_add_lane(occ0[k], h1, v1, o);
                } else {
                    assert(!step_uses(full@, g, k, i as int, 1u8));
                    assert(!step_uses(full@, g, k, i as int, 2u8));
                    assert(h1 == h0) by {
                        if h1 {
                            let w = choose|w: int| 1 <= w < i + 1 && #[trigger] step_uses(full@, g, k, w, 1u8);
                            assert(w < i);
                        }
                    }
                    assert(v1 == v0) by {
                        if v1 {
                            let w = choose|w: int| 1 <= w < i + 1 && #[trigger] step_uses(full@, g, k, w, 2u8);
                            assert(w < i);
                        }
                    }
                }
            }
            assert(occ@ =~= next);
        }
        i = i + 1;
    }
}


/// `a`, `b`, `c` lie on one row or one column.
pub open spec fn in_line(a: Cell, b: Cell, c: Cell) -> bool {
    (a.0 == b.0 && b.0 == c.0) || (a.1 == b.1 && b.1 == c.1)
}

/// The points kept after looking at the interior points `1 .. i` of `pts`:
/// the first point, then each interior point that does not continue the
/// line from the last point kept to the point after it.
pub open spec fn kept(pts: Seq<Cell>, i: int) -> Seq<Cell>
    decreases i,
{
    if i <= 1 {
        seq![pts[0]]
    } else {
        let s = kept(pts, i - 1);
        if in_line(s.last(), pts[i - 1], pts[i]) {
            s
        } else {
            s.push(pts[i - 1])
        }
    }
}

/// `pts` with the points in the middle of straight runs dropped.
pub open spec fn simplified(pts: Seq<Cell>) -> Seq<Cell> {
    if pts.len() < 3 {
        pts
    } else {
        kept(pts, pts.len() - 1).push(pts.last())
    }
}

/// Drop the points in the middle of straight runs, keeping both ends.
pub fn simplify(pts: &[Cell]) -> (r: Vec<Cell>)
    ensures
        r@ == simplified(pts@),
{
    if pts.len() < 3 {
        let mut v: Vec<Cell> = Vec::new();
        let mut i: usize = 0;
        while i < pts.len()
            invariant
                0 <= i <= pts@.len(),
                v@ == pts@.subrange(0, i as int),
            decreases pts@.len() - i,
        {
            v.push(pts[i]);
            i = i + 1;
        }
        proof {
            assert(v@ =~= pts@);
        }
        return v;
    }
    let mut simp: Vec<Cell> = Vec::new();
    simp.push(pts[0]);
    let mut i: usize = 1;
    proof {
        assert(simp@ =~= kept(pts@, 1));
    }
    while i < pts.len() - 1
        invariant
            pts@.len() >= 3,
            1 <= i <= pts@.len() - 1,
            simp@ == kept(pts@, i as int),
            simp@.len() >= 1,
        decreases pts@.len() - i,
    {
        let a = simp[simp.len() - 1];
        let b = pts[i];
        let c = pts[i + 1];
        if !((a.0 == b.0 && b.0 == c.0) || (a.1 == b.1 && b.1 == c.1)) {
            simp.push(b);
        }
        i = i + 1;
    }
    simp.push(pts[pts.len() - 1]);
    simp
}


/// `a` and `b` share a row or a column.
pub open spec fn aligned(a: Cell, b: Cell) -> bool {
    a.0 == b.0 || a.1 == b.1
}

/// Each point of `pts` shares a row or a column with the next.
pub open spec fn rectilinear(pts: Seq<Cell>) -> bool {
    forall|i: int| #![trigger pts[i], pts[i + 1]] 0 <= i < pts.len() - 1 ==> aligned(pts[i], pts[i + 1])
}

/// What [`kept`] builds: a rectilinear start whose last point lines up
/// with the next point to look at, and no longer than the points seen.
proof fn lemma_kept(pts: Seq<Cell>, i: int)
    requires
        rectilinear(pts),
        1 <= i < pts.len(),
    ensures
        rectilinear(kept(pts, i)),
        kept(pts, i).len() >= 1,
        kept(pts, i).len() <= i,
        kept(pts, i)[0] == pts[0],
        aligned(kept(pts, i).last(), pts[i]),
    decreases i,
{
    if i == 1 {
        assert(pts[1] == pts[0int + 1]);
    } else {
        lemma_kept(pts, i - 1);
        let s = kept(pts, i - 1);
        assert(pts[i] == pts[(i - 1) + 1]);
        if !in_line(s.last(), pts[i - 1], pts[i]) {
            let t = s.push(pts[i - 1]);
            assert forall|j: int| #![trigger t[j], t[j + 1]] 0 <= j < t.len() - 1 implies aligned(t[j], t[j + 1]) by {
                if j < s.len() - 1 {
                    assert(t[j] == s[j] && t[j + 1] == s[j + 1]);
                }
            }
        }
    }
}

/// Simplifying keeps both ends, never adds points, and keeps a path whose
/// points each share a row or a column with the next one such a path.
pub proof fn law_simplify_keeps_ends_and_lines(pts: Seq<Cell>)
    requires
        pts.len() >= 1,
        rectilinear(pts),
    ensures
        simplified(pts).len() >= 1,
        simplified(pts).len() <= pts.len(),
        simplified(pts)[0] == pts[0],
        simplified(pts).last() == pts.last(),
        rectilinear(simplified(pts)),
{
    if pts.len() >= 3 {
        let n = pts.len() - 1;
        lemma_kept(pts, n);
        let s = kept(pts, n);
        let t = s.push(pts.last());
        assert forall|j: int| #![trigger t[j], t[j + 1]] 0 <= j < t.len() - 1 implies aligned(t[j], t[j + 1]) by {
            if j < s.len() - 1 {
                assert(t[j] == s[j] && t[j + 1] == s[j + 1]);
            }
        }
    }
}


/// Every cell of a route lies on the grid.
proof fn lemma_route_in_grid(g: GridView, occ: Option<Seq<u8>>, p: Seq<Cell>, start: Cell, goal: Cell, i: int)
    requires
        is_route(g, occ, p, start, goal),
        0 <= i < p.len(),
    ensures
        in_grid(g, p[i].0 as int, p[i].1 as int),
{
    if i > 0 {
        let j = i - 1;
        assert(p[j + 1] == p[i]);
        assert(step_ok(g, occ, p[j].0 as int, p[j].1 as int, p[i].0 as int, p[i].1 as int));
    }
}

/// A route's cells each share a row or a column with the next, so a
/// simplified route still joins its two ends by straight runs.
pub proof fn law_simplified_route(g: GridView, occ: Option<Seq<u8>>, p: Seq<Cell>, start: Cell, goal: Cell)
    requires
        is_route(g, occ, p, start, goal),
    ensures
        simplified(p)[0] == start,
        simplified(p).last() == goal,
        rectilinear(simplified(p)),
{
    assert forall|i: int| #![trigger p[i], p[i + 1]] 0 <= i < p.len() - 1 implies aligned(p[i], p[i + 1]) by {
        assert(step_ok(g, occ, p[i].0 as int, p[i].1 as int, p[i + 1].0 as int, p[i + 1].1 as int));
    }
    law_simplify_keeps_ends_and_lines(p);
}

/// A routed path as plain cells, when there is one.
pub open spec fn path_of(r: Option<Vec<Cell>>) -> Option<Seq<Cell>> {
    match r {
        Some(v) => Some(v@),
        None => None,
    }
}

/// The lanes taken once the first `i` wires of `routes` are marked, on a
/// grid `g`, starting from no lane taken.
pub open spec fn lanes_after(g: GridView, routes: Seq<Option<Seq<Cell>>>, i: int) -> Seq<u8>
    decreases i,
{
    if i <= 0 {
        Seq::new((g.gw * g.gh) as nat, |k: int| 0u8)
    } else {
        let before = lanes_after(g, routes, i - 1);
        match routes[i - 1] {
            Some(p) => marked(before, p, g.gw, p.len() as int),
            None => before,
        }
    }
}

/// What routing wire `i` between port cells `ends` gives, with `lanes`
/// taken by the wires before it: a shortest route on a private lane when
/// there is one, else a shortest route sharing lanes, else none; no route
/// for a wire whose ports have no cell.
pub open spec fn routed_ok(g: GridView, lanes: Seq<u8>, ends: Option<(Cell, Cell)>, r: Option<Seq<Cell>>) -> bool {
    match ends {
        None => r is None,
        Some((a, b)) => match r {
            None => forall|p: Seq<Cell>| !is_route(g, None, p, a, b),
            Some(p) => {
                &&& is_route(g, None, p, a, b)
                &&& (exists|q: Seq<Cell>| is_route(g, Some(lanes), q, a, b)) ==> {
                    &&& is_route(g, Some(lanes), p, a, b)
                    &&& forall|q: Seq<Cell>| #[trigger] is_route(g, Some(lanes), q, a, b) ==> p.len() <= q.len()
                }
                &&& !(exists|q: Seq<Cell>| is_route(g, Some(lanes), q, a, b)) ==> forall|q: Seq<Cell>|
                    #[trigger] is_route(g, None, q, a, b) ==> p.len() <= q.len()
            },
        },
    }
}

/// A route that keeps off taken lanes is a route.
proof fn lemma_lanes_route(g: GridView, lanes: Seq<u8>, p: Seq<Cell>, a: Cell, b: Cell)
    requires
        is_route(g, Some(lanes), p, a, b),
    ensures
        is_route(g, None, p, a, b),
{
    assert forall|i: int| #![trigger p[i], p[i + 1]] 0 <= i < p.len() - 1 implies step_ok(
        g,
        None,
        p[i].0 as int,
        p[i].1 as int,
        p[i + 1].0 as int,
        p[i + 1].1 as int,
    ) by {
        assert(step_ok(g, Some(lanes), p[i].0 as int, p[i].1 as int, p[i + 1].0 as int, p[i + 1].1 as int));
    }
}

/// The lanes after `i` wires depend on those wires only.
proof fn lemma_lanes_prefix(g: GridView, r1: Seq<Option<Seq<Cell>>>, r2: Seq<Option<Seq<Cell>>>, i: int)
    requires
        0 <= i <= r1.len(),
        i <= r2.len(),
        forall|j: int| 0 <= j < i ==> r1[j] == r2[j],
    ensures
        lanes_after(g, r1, i) == lanes_after(g, r2, i),
    decreases i,
{
    if i > 0 {
        lemma_lanes_prefix(g, r1, r2, i - 1);
    }
}

/// A route's cells fit the lanes of its grid.
proof fn lemma_route_marks_fit(g: GridView, occ: Option<Seq<u8>>, lanes: Seq<u8>, p: Seq<Cell>, a: Cell, b: Cell)
    requires
        grid_wf(g),
        lanes.len() == g.gw * g.gh,
        is_route(g, occ, p, a, b),
    ensures
        marks_fit(lanes, p, g.gw),
{
    assert forall|i: int| 0 <= i < p.len() implies 0 <= (#[trigger] p[i]).0 < g.gw && 0 <= p[i].1 && idx(
        g.gw,
        p[i].0 as int,
        p[i].1 as int,
    ) < lanes.len() by {
        lemma_route_in_grid(g, occ, p, a, b, i);
        lemma_idx(g.gw, g.gh, p[i].0 as int, p[i].1 as int);
    }
}

/// Route each wire in turn between its port cells; earlier wires get the
/// straighter, private lanes, so callers keep the order stable. A path
/// lists every cell it passes, both ports included.
pub fn route_cells(grid: &Grid, ends: &Vec<Option<(Cell, Cell)>>) -> (r: Vec<Option<Vec<Cell>>>)
    requires
        grid_wf(grid@),
    ensures
        r@.len() == ends@.len(),
        forall|i: int|
            0 <= i < r@.len() ==> routed_ok(
                grid@,
                lanes_after(grid@, r@.map_values(|o: Option<Vec<Cell>>| path_of(o)), i),
                ends@[i],
                #[trigger] path_of(r@[i]),
            ),
{
    let ghost g = grid@;
    let n: usize = (grid.gw * grid.gh) as usize;
    let mut occ: Vec<u8> = Vec::new();
    while occ.len() < n
        invariant
            occ@.len() <= n,
            forall|k: int| 0 <= k < occ@.len() ==> occ@[k] == 0u8,
        decreases n - occ@.len(),
    {
        occ.push(0);
    }
    let mut out: Vec<Option<Vec<Cell>>> = Vec::new();
    proof {
        assert(occ@ =~= lanes_after(g, out@.map_values(|o: Option<Vec<Cell>>| path_of(o)), 0));
    }
    let mut i: usize = 0;
    while i < ends.len()
        invariant
            g == grid@,
            grid_wf(g),
            n == g.gw * g.gh,
            0 <= i <= ends@.len(),
            out@.len() == i,
            occ@.len() == n,
            occ@ == lanes_after(g, out@.map_values(|o: Option<Vec<Cell>>| path_of(o)), i as int),
            forall|j: int|
                0 <= j < i ==> routed_ok(
                    g,
                    lanes_after(g, out@.map_values(|o: Option<Vec<Cell>>| path_of(o)), j),
                    ends@[j],
                    #[trigger] path_of(out@[j]),
                ),
        decreases ends@.len() - i,
    {
        let ghost routes0 = out@.map_values(|o: Option<Vec<Cell>>| path_of(o));
        let ghost lanes = occ@;
        let found = match ends[i] {
            Some((a, b)) => {
                let first = bfs(grid, Some(occ.as_slice()), a, b);
                match first {
                    Some(p) => {
                        proof {
                            lemma_lanes_route(g, lanes, p@, a, b);
                        }
                        Some(p)
                    },
                    None => bfs(grid, None, a, b),
                }
            },
            None => None,
        };
        proof {
            assert(routed_ok(g, lanes, ends@[i as int], path_of(found)));
        }
        let routed = match found {
            Some(p) => {
                proof {
                    let (a, b) = ends@[i as int].unwrap();
                    lemma_route_marks_fit(g, None, lanes, p@, a, b);
                }
                mark(&mut occ, p.as_slice(), grid.gw);
                Some(p)
            },
            None => None,
        };
        out.push(routed);
        proof {
            let routes1 = out@.map_values(|o: Option<Vec<Cell>>| path_of(o));
            assert forall|j: int| 0 <= j < i + 1 implies routes1[j] == (#[trigger] routes0.push(path_of(routed))[j]) by {
            }
            assert(routes1 =~= routes0.push(path_of(routed)));
            lemma_lanes_prefix(g, routes0, routes1, i as int);
            assert forall|j: int|
                0 <= j < i + 1 implies routed_ok(
                    g,
                    lanes_after(g, routes1, j),
                    ends@[j],
                    #[trigger] path_of(out@[j]),
                ) by {
                lemma_lanes_prefix(g, routes0, routes1, j);
            }
        }
        i = i + 1;
    }
    out
}

} // verus!
