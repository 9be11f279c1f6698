//! Mathematical model of the board: a row-major sequence of cells together
//! with spec functions for bounds, adjacency, mine counting and the region
//! that an open operation reveals.

use vstd::prelude::*;

use crate::field::{Cell, CellState};

verus! {

/// The coordinate lies on a board of the given dimensions.
pub open spec fn in_bounds(w: int, h: int, x: int, y: int) -> bool {
    0 <= x < w && 0 <= y < h
}

/// Row-major index of a coordinate.
pub open spec fn idx(w: int, x: int, y: int) -> int {
    y * w + x
}

/// The cell of a row-major grid at a coordinate.
pub open spec fn at(g: Seq<Cell>, w: int, x: int, y: int) -> Cell {
    g[idx(w, x, y)]
}

/// An in-bounds coordinate indexes into the prefix of the grid holding its
/// first `rows` full rows.
pub proof fn lemma_idx_in_rows(w: int, x: int, y: int, rows: int)
    requires
        0 <= x < w,
        0 <= y < rows,
    ensures
        0 <= idx(w, x, y) < rows * w,
{
    assert(0 <= y * w + x < rows * w) by (nonlinear_arith)
        requires
            0 <= x < w,
            0 <= y < rows,
    ;
}

/// An in-bounds coordinate indexes into a `w * h` grid.
pub proof fn lemma_idx_bounds(w: int, h: int, x: int, y: int)
    requires
        in_bounds(w, h, x, y),
    ensures
        0 <= idx(w, x, y) < w * h,
{
    lemma_idx_in_rows(w, x, y, h);
    assert(h * w == w * h) by (nonlinear_arith);
}

/// A grid whose sides fit in a byte has at most 255 * 255 cells.
pub proof fn lemma_grid_size_bound(w: int, h: int)
    requires
        0 <= w <= 255,
        0 <= h <= 255,
    ensures
        0 <= w * h <= 65025,
{
    assert(0 <= w * h <= 65025) by (nonlinear_arith)
        requires
            0 <= w <= 255,
            0 <= h <= 255,
    ;
}

/// Distinct coordinates of one grid have distinct row-major indices.
pub proof fn lemma_idx_injective(w: int, x1: int, y1: int, x2: int, y2: int)
    requires
        0 <= x1 < w,
        0 <= x2 < w,
        0 <= y1,
        0 <= y2,
        idx(w, x1, y1) == idx(w, x2, y2),
    ensures
        x1 == x2 && y1 == y2,
{
    assert(x1 == x2 && y1 == y2) by (nonlinear_arith)
        requires
            0 <= x1 < w,
            0 <= x2 < w,
            0 <= y1,
            0 <= y2,
            y1 * w + x1 == y2 * w + x2,
    ;
}

/// The two coordinates are distinct and touch, side or corner.
pub open spec fn adjacent(x1: int, y1: int, x2: int, y2: int) -> bool {
    !(x1 == x2 && y1 == y2) && -1 <= x1 - x2 <= 1 && -1 <= y1 - y2 <= 1
}

/// 1 if the coordinate is on the board and holds a mine, else 0.
pub open spec fn mine_at(g: Seq<Cell>, w: int, h: int, x: int, y: int) -> int {
    if in_bounds(w, h, x, y) && at(g, w, x, y).is_mine {
        1
    } else {
        0
    }
}

/// The number of mines among the up-to-8 in-bounds neighbors of a coordinate.
pub open spec fn neighbor_mines(g: Seq<Cell>, w: int, h: int, x: int, y: int) -> int {
    mine_at(g, w, h, x - 1, y - 1) + mine_at(g, w, h, x, y - 1) + mine_at(g, w, h, x + 1, y - 1)
        + mine_at(g, w, h, x - 1, y) + mine_at(g, w, h, x + 1, y) + mine_at(g, w, h, x - 1, y + 1)
        + mine_at(g, w, h, x, y + 1) + mine_at(g, w, h, x + 1, y + 1)
}

/// The number of mine cells among the first `n` cells of the grid.
pub open spec fn count_mines(g: Seq<Cell>, n: int) -> int
    decreases n,
{
    if n <= 0 {
        0
    } else {
        count_mines(g, n - 1) + if g[n - 1].is_mine {
            1int
        } else {
            0int
        }
    }
}

/// The number of mine cells on the whole grid.
pub open spec fn total_mines(g: Seq<Cell>) -> int {
    count_mines(g, g.len() as int)
}

/// The number of not-yet-opened cells among the first `n` cells of the grid.
pub open spec fn count_unopened(g: Seq<Cell>, n: int) -> int
    decreases n,
{
    if n <= 0 {
        0
    } else {
        count_unopened(g, n - 1) + if g[n - 1].state == CellState::Opened {
            0int
        } else {
            1int
        }
    }
}

pub proof fn lemma_count_unopened_nonneg(g: Seq<Cell>, n: int)
    ensures
        count_unopened(g, n) >= 0,
    decreases n,
{
    if n > 0 {
        lemma_count_unopened_nonneg(g, n - 1);
    }
}

/// Updating one cell changes the mine count of a prefix by the difference at
/// that position, and only when the position lies in the prefix.
pub proof fn lemma_count_mines_update(g: Seq<Cell>, n: int, k: int, c: Cell)
    requires
        0 <= k < g.len(),
        n <= g.len(),
    ensures
        count_mines(g.update(k, c), n) == count_mines(g, n) + if k < n {
            (if c.is_mine { 1int } else { 0int }) - (if g[k].is_mine { 1int } else { 0int })
        } else {
            0int
        },
    decreases n,
{
    if n > 0 {
        lemma_count_mines_update(g, n - 1, k, c);
        assert(g.update(k, c)[n - 1] == if k == n - 1 {
            c
        } else {
            g[n - 1]
        });
    }
}

/// The same, for the count of unopened cells.
pub proof fn lemma_count_unopened_update(g: Seq<Cell>, n: int, k: int, c: Cell)
    requires
        0 <= k < g.len(),
        n <= g.len(),
    ensures
        count_unopened(g.update(k, c), n) == count_unopened(g, n) + if k < n {
            (if c.state == CellState::Opened { 0int } else { 1int }) - (if g[k].state
                == CellState::Opened {
                0int
            } else {
                1int
            })
        } else {
            0int
        },
    decreases n,
{
    if n > 0 {
        lemma_count_unopened_update(g, n - 1, k, c);
        assert(g.update(k, c)[n - 1] == if k == n - 1 {
            c
        } else {
            g[n - 1]
        });
    }
}

/// A prefix free of mines counts zero mines.
pub proof fn lemma_count_mines_zero(g: Seq<Cell>, n: int)
    requires
        forall|i: int| 0 <= i < n ==> !(#[trigger] g[i]).is_mine,
    ensures
        count_mines(g, n) == 0,
    decreases n,
{
    if n > 0 {
        lemma_count_mines_zero(g, n - 1);
    }
}

/// The coordinate occurs among the first `n` entries of the coordinate list.
pub open spec fn coord_in_prefix(coords: Seq<(u8, u8)>, n: int, cx: int, cy: int) -> bool {
    exists|m: int|
        0 <= m < n && (#[trigger] coords[m]).0 as int == cx && coords[m].1 as int == cy
}

/// Grids that agree pointwise on `is_mine` have the same mine counts.
pub proof fn lemma_count_mines_pointwise(g1: Seq<Cell>, g2: Seq<Cell>, n: int)
    requires
        n <= g1.len(),
        n <= g2.len(),
        forall|i: int| 0 <= i < n ==> (#[trigger] g1[i]).is_mine == (#[trigger] g2[i]).is_mine,
    ensures
        count_mines(g1, n) == count_mines(g2, n),
    decreases n,
{
    if n > 0 {
        lemma_count_mines_pointwise(g1, g2, n - 1);
    }
}

/// Grids that agree pointwise on `is_mine` give every coordinate the same
/// count of neighboring mines.
pub proof fn lemma_neighbor_mines_congruence(
    g1: Seq<Cell>,
    g2: Seq<Cell>,
    w: int,
    h: int,
    x: int,
    y: int,
)
    requires
        g1.len() == w * h,
        g2.len() == w * h,
        forall|i: int|
            0 <= i < g1.len() ==> (#[trigger] g1[i]).is_mine == (#[trigger] g2[i]).is_mine,
    ensures
        neighbor_mines(g1, w, h, x, y) == neighbor_mines(g2, w, h, x, y),
{
    assert forall|nx: int, ny: int| true implies #[trigger] mine_at(g1, w, h, nx, ny) == mine_at(
        g2,
        w,
        h,
        nx,
        ny,
    ) by {
        if in_bounds(w, h, nx, ny) {
            lemma_idx_bounds(w, h, nx, ny);
        }
    }
}

/// The two cells agree on everything but possibly the state tag.
pub open spec fn cell_eq_but_state(c1: Cell, c2: Cell) -> bool {
    c1.is_mine == c2.is_mine && c1.mines_around == c2.mines_around && c1.x_pos == c2.x_pos
        && c1.y_pos == c2.y_pos
}

/// The two grids agree on everything but possibly the state tags.
pub open spec fn same_but_state(g1: Seq<Cell>, g2: Seq<Cell>) -> bool {
    g1.len() == g2.len() && forall|i: int|
        0 <= i < g1.len() ==> cell_eq_but_state(#[trigger] g1[i], #[trigger] g2[i])
}

/// The coordinate holds an in-bounds cell whose stored hint is zero.
pub open spec fn zero_cell(g: Seq<Cell>, w: int, h: int, x: int, y: int) -> bool {
    in_bounds(w, h, x, y) && at(g, w, x, y).mines_around == 0
}

/// The sequence is a walk that starts at `(sx, sy)`, moves one step of
/// adjacency at a time, and visits zero-hint cells only.
pub open spec fn zero_path_ok(
    g: Seq<Cell>,
    w: int,
    h: int,
    sx: int,
    sy: int,
    path: Seq<(int, int)>,
) -> bool {
    &&& path.len() > 0
    &&& path[0].0 == sx && path[0].1 == sy
    &&& forall|i: int|
        0 <= i < path.len() ==> zero_cell(g, w, h, (#[trigger] path[i]).0, path[i].1)
    &&& forall|i: int|
        0 < i < path.len() ==> adjacent(
            path[i - 1].0,
            path[i - 1].1,
            (#[trigger] path[i]).0,
            path[i].1,
        )
}

/// The coordinate lies in the connected region of zero-hint cells around the
/// start cell (empty unless the start cell itself has hint zero).
pub open spec fn zero_connected(
    g: Seq<Cell>,
    w: int,
    h: int,
    sx: int,
    sy: int,
    x: int,
    y: int,
) -> bool {
    exists|path: Seq<(int, int)>|
        #[trigger] zero_path_ok(g, w, h, sx, sy, path) && path.last() == (x, y)
}

/// The coordinates that an open operation started at `(sx, sy)` reveals: the
/// start cell itself, plus — when the start cell has hint zero — its connected
/// zero-hint region and every in-bounds cell bordering that region.
pub open spec fn opens(g: Seq<Cell>, w: int, h: int, sx: int, sy: int, x: int, y: int) -> bool {
    in_bounds(w, h, x, y) && ((x == sx && y == sy) || exists|px: int, py: int|
        #[trigger] zero_connected(g, w, h, sx, sy, px, py) && adjacent(px, py, x, y))
}

/// A zero-hint start cell is in its own zero-hint region.
pub proof fn lemma_zero_base(g: Seq<Cell>, w: int, h: int, sx: int, sy: int)
    requires
        zero_cell(g, w, h, sx, sy),
    ensures
        zero_connected(g, w, h, sx, sy, sx, sy),
{
    let path: Seq<(int, int)> = seq![(sx, sy)];
    assert(zero_path_ok(g, w, h, sx, sy, path));
    assert(path.last() == (sx, sy));
}

/// A zero-hint cell adjacent to the zero-hint region belongs to it.
pub proof fn lemma_zero_extend(
    g: Seq<Cell>,
    w: int,
    h: int,
    sx: int,
    sy: int,
    qx: int,
    qy: int,
    px: int,
    py: int,
)
    requires
        zero_connected(g, w, h, sx, sy, qx, qy),
        adjacent(qx, qy, px, py),
        zero_cell(g, w, h, px, py),
    ensures
        zero_connected(g, w, h, sx, sy, px, py),
{
    let path = choose|path: Seq<(int, int)>|
        #[trigger] zero_path_ok(g, w, h, sx, sy, path) && path.last() == (qx, qy);
    let path2 = path.push((px, py));
    assert forall|i: int|
        0 <= i < path2.len() implies zero_cell(g, w, h, (#[trigger] path2[i]).0, path2[i].1) by {
        if i < path.len() {
            assert(path2[i] == path[i]);
        } else {
            assert(path2[i] == (px, py));
        }
    }
    assert forall|i: int|
        0 < i < path2.len() implies adjacent(
        path2[i - 1].0,
        path2[i - 1].1,
        (#[trigger] path2[i]).0,
        path2[i].1,
    ) by {
        if i < path.len() {
            assert(path2[i] == path[i]);
            assert(path2[i - 1] == path[i - 1]);
        } else {
            assert(path2[i] == (px, py));
            assert(path2[i - 1] == path[path.len() - 1]);
            assert(path[path.len() - 1] == path.last());
        }
    }
    assert(zero_path_ok(g, w, h, sx, sy, path2));
    assert(path2.last() == (px, py));
}

/// The coordinate occurs in the not-yet-processed part of the work queue,
/// at or beyond position `head`.
pub open spec fn in_pending(queue: Seq<(u8, u8)>, head: int, cx: int, cy: int) -> bool {
    exists|k: int|
        head <= k < queue.len() && (#[trigger] queue[k]).0 as int == cx && queue[k].1 as int == cy
}

/// Every in-bounds neighbor of the coordinate is either already opened on
/// the grid or still pending in the work queue.
pub open spec fn neighbors_covered(
    g: Seq<Cell>,
    queue: Seq<(u8, u8)>,
    head: int,
    w: int,
    h: int,
    x: int,
    y: int,
) -> bool {
    forall|nx: int, ny: int|
        adjacent(x, y, nx, ny) && in_bounds(w, h, nx, ny) ==> ((#[trigger] at(
            g,
            w,
            nx,
            ny,
        )).state == CellState::Opened || in_pending(queue, head, nx, ny))
}

/// A coordinate pending beyond one position is pending beyond any earlier one.
pub proof fn lemma_pending_weaken(queue: Seq<(u8, u8)>, h1: int, h2: int, cx: int, cy: int)
    requires
        in_pending(queue, h1, cx, cy),
        h2 <= h1,
    ensures
        in_pending(queue, h2, cx, cy),
{
    let k = choose|k: int|
        h1 <= k < queue.len() && (#[trigger] queue[k]).0 as int == cx && queue[k].1 as int == cy;
    assert(h2 <= k < queue.len() && queue[k].0 as int == cx && queue[k].1 as int == cy);
}

/// Processing one queue entry keeps every covered neighborhood covered: the
/// dequeued cell is opened now, opened cells stay opened, and the rest of
/// the queue is still pending.
pub proof fn lemma_covered_after_step(
    g1: Seq<Cell>,
    g2: Seq<Cell>,
    q1: Seq<(u8, u8)>,
    q2: Seq<(u8, u8)>,
    oldh: int,
    w: int,
    h: int,
)
    requires
        q1.len() <= q2.len(),
        forall|k: int| 0 <= k < q1.len() ==> #[trigger] q2[k] == q1[k],
        0 <= oldh < q1.len(),
        at(g2, w, q1[oldh].0 as int, q1[oldh].1 as int).state == CellState::Opened,
        forall|ax: int, ay: int|
            in_bounds(w, h, ax, ay) && (#[trigger] at(g1, w, ax, ay)).state == CellState::Opened
                ==> at(g2, w, ax, ay).state == CellState::Opened,
    ensures
        forall|cx: int, cy: int|
            #[trigger] neighbors_covered(g1, q1, oldh, w, h, cx, cy) ==> neighbors_covered(
                g2,
                q2,
                oldh + 1,
                w,
                h,
                cx,
                cy,
            ),
{
    assert forall|cx: int, cy: int|
        #[trigger] neighbors_covered(g1, q1, oldh, w, h, cx, cy) implies neighbors_covered(
        g2,
        q2,
        oldh + 1,
        w,
        h,
        cx,
        cy,
    ) by {
        assert forall|nx: int, ny: int|
            adjacent(cx, cy, nx, ny) && in_bounds(w, h, nx, ny) implies ((#[trigger] at(
            g2,
            w,
            nx,
            ny,
        )).state == CellState::Opened || in_pending(q2, oldh + 1, nx, ny)) by {
            assert(at(g1, w, nx, ny).state == CellState::Opened || in_pending(q1, oldh, nx, ny));
            if at(g1, w, nx, ny).state == CellState::Opened {
                assert(at(g2, w, nx, ny).state == CellState::Opened);
            } else {
                let k = choose|k: int|
                    oldh <= k < q1.len() && (#[trigger] q1[k]).0 as int == nx && q1[k].1 as int
                        == ny;
                if k == oldh {
                    assert(at(g2, w, nx, ny).state == CellState::Opened);
                } else {
                    assert(q2[k] == q1[k]);
                    assert(in_pending(q2, oldh + 1, nx, ny));
                }
            }
        }
    }
}

/// Every in-bounds neighbor of the coordinate is opened on the grid.
pub open spec fn neighbors_all_opened(g: Seq<Cell>, w: int, h: int, x: int, y: int) -> bool {
    forall|nx: int, ny: int|
        adjacent(x, y, nx, ny) && in_bounds(w, h, nx, ny) ==> (#[trigger] at(
            g,
            w,
            nx,
            ny,
        )).state == CellState::Opened
}

/// Every zero-hint cell that the operation newly opened has had all of its
/// in-bounds neighbors opened as well.
pub open spec fn flood_closed(g0: Seq<Cell>, g: Seq<Cell>, w: int, h: int) -> bool {
    forall|x: int, y: int|
        in_bounds(w, h, x, y) && (#[trigger] at(g0, w, x, y)).state != CellState::Opened && at(
            g,
            w,
            x,
            y,
        ).state == CellState::Opened && at(g0, w, x, y).mines_around == 0
            ==> neighbors_all_opened(g, w, h, x, y)
}

/// Once the start cell is opened and the newly opened zero-hint cells are
/// closed under opening their neighbors, every cell on a zero-hint walk from
/// the start — and everything bordering it — is opened, provided no cell of
/// the zero-hint region was already open before the operation.
pub proof fn lemma_flood_completes(
    g0: Seq<Cell>,
    g: Seq<Cell>,
    w: int,
    h: int,
    sx: int,
    sy: int,
    path: Seq<(int, int)>,
)
    requires
        zero_path_ok(g0, w, h, sx, sy, path),
        same_but_state(g0, g),
        g0.len() == w * h,
        at(g, w, sx, sy).state == CellState::Opened,
        flood_closed(g0, g, w, h),
        forall|x1: int, y1: int|
            zero_connected(g0, w, h, sx, sy, x1, y1) ==> (#[trigger] at(g0, w, x1, y1)).state
                != CellState::Opened,
    ensures
        at(g, w, path.last().0, path.last().1).state == CellState::Opened,
        neighbors_all_opened(g, w, h, path.last().0, path.last().1),
    decreases path.len(),
{
    let x = path.last().0;
    let y = path.last().1;
    assert(path[path.len() - 1] == path.last());
    assert(zero_cell(g0, w, h, x, y));
    assert(zero_connected(g0, w, h, sx, sy, x, y));
    lemma_idx_bounds(w, h, x, y);
    if path.len() == 1 {
        assert(x == sx && y == sy);
        assert(at(g0, w, x, y).state != CellState::Opened);
    } else {
        let path0 = path.drop_last();
        assert(zero_path_ok(g0, w, h, sx, sy, path0)) by {
            assert(path0[0] == path[0]);
            assert(forall|i: int|
                0 <= i < path0.len() ==> (#[trigger] path0[i]) == path[i]);
        }
        lemma_flood_completes(g0, g, w, h, sx, sy, path0);
        let prev = path0.last();
        assert(prev == path[path.len() - 2]);
        assert(adjacent(prev.0, prev.1, x, y));
        assert(at(g, w, x, y).state == CellState::Opened);
        assert(at(g0, w, x, y).state != CellState::Opened);
    }
}

} // verus!
