//! The board: construction with randomized mine placement, precomputed
//! adjacency hints, bounds-checked queries, and the open operation with its
//! flood-fill reveal of zero-hint regions.

use vstd::prelude::*;

use crate::model::{
    adjacent, at, cell_eq_but_state, coord_in_prefix, count_mines, count_unopened, flood_closed,
    idx, in_bounds, in_pending, lemma_count_mines_pointwise, lemma_count_mines_update,
    lemma_count_mines_zero, lemma_count_unopened_nonneg, lemma_count_unopened_update,
    lemma_covered_after_step, lemma_flood_completes, lemma_grid_size_bound, lemma_idx_bounds,
    lemma_idx_in_rows, lemma_idx_injective, lemma_neighbor_mines_congruence, lemma_pending_weaken,
    lemma_zero_base, lemma_zero_extend, mine_at, neighbor_mines, neighbors_all_opened,
    neighbors_covered, opens, same_but_state, total_mines, zero_cell, zero_connected, zero_path_ok,
};

use rand::seq::SliceRandom;

verus! {

/// The visibility tag of one cell.
#[derive(Debug, Copy, Clone, PartialEq, Eq, Structural)]
pub enum CellState {
    Opened,
    Closed,
    Flagged,
    Suspected,
    UnderPressing,
}

/// One grid position: its visibility tag, whether it holds a mine, the
/// precomputed count of mines around it, and its own coordinates.
#[derive(Debug, Copy, Clone, PartialEq, Eq, Structural)]
pub struct Cell {
    pub state: CellState,
    pub is_mine: bool,
    pub mines_around: u8,
    pub x_pos: u8,
    pub y_pos: u8,
}

/// Why a construction or a board operation was rejected.
#[derive(Debug, Copy, Clone, PartialEq, Eq, Structural)]
pub enum MinesweeperError {
    /// Construction asked for more mines than the board can hold while
    /// keeping the start cell and one further cell free.
    TooManyMines,
    /// Construction was given a start coordinate beyond the board.
    StartOutOfBounds,
    /// A query or mutation was given a coordinate outside the live grid.
    BoundsError,
    /// Reserved for invariant violations that correct logic never reaches.
    Unexpected,
}

/// What opening a cell reported.
#[derive(Debug, Copy, Clone, PartialEq, Eq, Structural)]
pub enum OpenResult {
    /// The requested cell holds a mine.
    Mine,
    /// The requested cell holds no mine.
    NotMine,
    /// The requested cell was opened before; nothing changed.
    AlreadyOpened,
    /// The requested cell is protected (flagged, suspected or pressed);
    /// nothing changed.
    Flagged,
}

/// The board: a `width x height` grid of cells, exactly `mines_count` of
/// which hold mines, owned exclusively and mutated only through its methods.
pub struct Field {
    cells: Vec<Cell>,
    width: u8,
    height: u8,
    mines_count: u16,
}

/// Relies on rand's `SliceRandom::shuffle` with `thread_rng`: it permutes the
/// vector in place. The order it leaves depends on the random generator, so
/// nothing is said of it; the entries themselves are exactly those that were
/// there before, which the multiset equality states.
#[verifier::external_body]
fn shuffle_coords(v: &mut Vec<(u8, u8)>)
    ensures
        final(v)@.to_multiset() == old(v)@.to_multiset(),
        final(v)@.len() == old(v)@.len(),
{
    v.shuffle(&mut rand::thread_rng());
}

/// A permutation of a duplicate-free list is duplicate-free, and every entry
/// of it was an entry of the list it permutes.
proof fn lemma_permutation_keeps(s1: Seq<(u8, u8)>, s2: Seq<(u8, u8)>)
    requires
        s1.to_multiset() == s2.to_multiset(),
        s1.no_duplicates(),
    ensures
        s2.no_duplicates(),
        forall|k: int| 0 <= k < s2.len() ==> s1.contains(#[trigger] s2[k]),
{
    broadcast use vstd::seq_lib::group_to_multiset_ensures;

    s1.lemma_multiset_has_no_duplicates();
    assert forall|v: (u8, u8)| s2.to_multiset().contains(v) implies s2.to_multiset().count(v)
        == 1 by {
        assert(s1.to_multiset().count(v) == s2.to_multiset().count(v));
    }
    s2.lemma_multiset_has_no_duplicates_conv();
    assert forall|k: int| 0 <= k < s2.len() implies s1.contains(#[trigger] s2[k]) by {
        assert(s2.contains(s2[k]));
        assert(s2.to_multiset().count(s2[k]) > 0);
        assert(s1.to_multiset().count(s2[k]) > 0);
    }
}

/// 1 if the coordinate is on the board and its cell holds a mine, else 0;
/// out-of-bounds probes are answered with 0 rather than rejected, which is
/// what clipping the neighborhood at the grid edge means.
fn mine_flag(cells: &Vec<Cell>, width: u8, height: u8, x: i32, y: i32) -> (r: u8)
    requires
        cells@.len() == width as int * height as int,
    ensures
        r as int == mine_at(cells@, width as int, height as int, x as int, y as int),
{
    if 0 <= x && x < width as i32 && 0 <= y && y < height as i32 {
        proof {
            lemma_idx_bounds(width as int, height as int, x as int, y as int);
            crate::model::lemma_grid_size_bound(width as int, height as int);
        }
        let p: usize = (y as usize) * (width as usize) + (x as usize);
        if cells[p].is_mine {
            1
        } else {
            0
        }
    } else {
        0
    }
}

/// The count of mines among the up-to-8 in-bounds neighbors of a cell.
fn count_around(cells: &Vec<Cell>, width: u8, height: u8, x: u8, y: u8) -> (r: u8)
    requires
        cells@.len() == width as int * height as int,
        x < width,
        y < height,
    ensures
        r as int == neighbor_mines(cells@, width as int, height as int, x as int, y as int),
        r <= 8,
{
    let xi = x as i32;
    let yi = y as i32;
    let mut r: u8 = 0;
    r = r + mine_flag(cells, width, height, xi - 1, yi - 1);
    r = r + mine_flag(cells, width, height, xi, yi - 1);
    r = r + mine_flag(cells, width, height, xi + 1, yi - 1);
    r = r + mine_flag(cells, width, height, xi - 1, yi);
    r = r + mine_flag(cells, width, height, xi + 1, yi);
    r = r + mine_flag(cells, width, height, xi - 1, yi + 1);
    r = r + mine_flag(cells, width, height, xi, yi + 1);
    r = r + mine_flag(cells, width, height, xi + 1, yi + 1);
    r
}

/// Builds the fresh grid of closed, mine-free cells, each knowing its own
/// coordinates, together with the list of every coordinate except the safe
/// start cell — the candidates for mine placement.
fn build_initial(width: u8, height: u8, sx: u8, sy: u8) -> (r: (Vec<Cell>, Vec<(u8, u8)>))
    ensures
        r.0@.len() == width as int * height as int,
        forall|i: int|
            0 <= i < r.0@.len() ==> {
                &&& (#[trigger] r.0@[i]).state == CellState::Closed
                &&& !r.0@[i].is_mine
                &&& r.0@[i].mines_around == 0
            },
        forall|cx: int, cy: int|
            in_bounds(width as int, height as int, cx, cy) ==> {
                &&& (#[trigger] at(r.0@, width as int, cx, cy)).x_pos as int == cx
                &&& at(r.0@, width as int, cx, cy).y_pos as int == cy
            },
        r.1@.no_duplicates(),
        forall|k: int|
            0 <= k < r.1@.len() ==> ((#[trigger] r.1@[k]).0 as int) < width as int
                && (r.1@[k].1 as int) < height as int,
        forall|k: int|
            0 <= k < r.1@.len() ==> !((#[trigger] r.1@[k]).0 == sx && r.1@[k].1 == sy),
        r.1@.len() == width as int * height as int - (if in_bounds(
            width as int,
            height as int,
            sx as int,
            sy as int,
        ) {
            1int
        } else {
            0int
        }),
{
    let ghost w = width as int;
    let ghost h = height as int;
    let mut cells: Vec<Cell> = Vec::new();
    let mut coords: Vec<(u8, u8)> = Vec::new();
    let mut j: u8 = 0;
    while j < height
        invariant
            j <= height,
            w == width as int,
            h == height as int,
            cells@.len() == j as int * w,
            forall|i: int|
                0 <= i < cells@.len() ==> {
                    &&& (#[trigger] cells@[i]).state == CellState::Closed
                    &&& !cells@[i].is_mine
                    &&& cells@[i].mines_around == 0
                },
            forall|cx: int, cy: int|
                0 <= cx < w && 0 <= cy < j as int ==> {
                    &&& (#[trigger] at(cells@, w, cx, cy)).x_pos as int == cx
                    &&& at(cells@, w, cx, cy).y_pos as int == cy
                },
            coords@.no_duplicates(),
            forall|k: int|
                0 <= k < coords@.len() ==> ((#[trigger] coords@[k]).0 as int) < w
                    && (coords@[k].1 as int) < j as int,
            forall|k: int|
                0 <= k < coords@.len() ==> !((#[trigger] coords@[k]).0 == sx && coords@[k].1
                    == sy),
            coords@.len() == j as int * w - (if in_bounds(w, h, sx as int, sy as int)
                && (sy as int) < j as int {
                1int
            } else {
                0int
            }),
        decreases height as int - j as int,
    {
        let mut i: u8 = 0;
        while i < width
            invariant
                i <= width,
                j < height,
                w == width as int,
                h == height as int,
                cells@.len() == j as int * w + i as int,
                forall|p: int|
                    0 <= p < cells@.len() ==> {
                        &&& (#[trigger] cells@[p]).state == CellState::Closed
                        &&& !cells@[p].is_mine
                        &&& cells@[p].mines_around == 0
                    },
                forall|cx: int, cy: int|
                    (0 <= cx < w && 0 <= cy < j as int) || (0 <= cx < i as int && cy
                        == j as int) ==> {
                        &&& (#[trigger] at(cells@, w, cx, cy)).x_pos as int == cx
                        &&& at(cells@, w, cx, cy).y_pos as int == cy
                    },
                coords@.no_duplicates(),
                forall|k: int|
                    0 <= k < coords@.len() ==> ((#[trigger] coords@[k]).0 as int) < w
                        && (coords@[k].1 as int) < h,
                forall|k: int|
                    0 <= k < coords@.len() ==> !((#[trigger] coords@[k]).0 == sx && coords@[k].1
                        == sy),
                forall|k: int|
                    0 <= k < coords@.len() ==> ((#[trigger] coords@[k]).1 as int) < j as int || (
                    (coords@[k].1 as int) == j as int && (coords@[k].0 as int) < i as int),
                coords@.len() == j as int * w + i as int - (if in_bounds(w, h, sx as int, sy as int)
                    && ((sy as int) < j as int || ((sy as int) == j as int && (sx as int)
                    < i as int)) {
                    1int
                } else {
                    0int
                }),
            decreases width as int - i as int,
        {
            let ghost cells_prev = cells@;
            let ghost coords_prev = coords@;
            let c = Cell {
                state: CellState::Closed,
                is_mine: false,
                mines_around: 0,
                x_pos: i,
                y_pos: j,
            };
            cells.push(c);
            if !(i == sx && j == sy) {
                coords.push((i, j));
                proof {
                    assert forall|a: int, b: int|
                        0 <= a < coords@.len() && 0 <= b < coords@.len() && a != b implies coords@[a]
                        != coords@[b] by {
                        if a < coords_prev.len() && b < coords_prev.len() {
                            assert(coords_prev[a] != coords_prev[b]);
                        }
                    }
                }
            }
            proof {
                assert forall|cx: int, cy: int|
                    (0 <= cx < w && 0 <= cy < j as int) || (0 <= cx < i as int + 1 && cy
                        == j as int) implies {
                    &&& (#[trigger] at(cells@, w, cx, cy)).x_pos as int == cx
                    &&& at(cells@, w, cx, cy).y_pos as int == cy
                } by {
                    if cy < j as int {
                        lemma_idx_in_rows(w, cx, cy, j as int);
                        assert(idx(w, cx, cy) < j as int * w);
                        assert(at(cells@, w, cx, cy) == at(cells_prev, w, cx, cy));
                    } else if cx < i as int {
                        assert(idx(w, cx, cy) < cells_prev.len());
                        assert(at(cells@, w, cx, cy) == at(cells_prev, w, cx, cy));
                    } else {
                        assert(idx(w, cx, cy) == cells_prev.len());
                        assert(at(cells@, w, cx, cy) == c);
                    }
                }
            }
            i = i + 1;
        }
        proof {
            assert((j as int + 1) * w == j as int * w + w) by (nonlinear_arith);
        }
        j = j + 1;
    }
    proof {
        assert(j as int * w == w * h) by (nonlinear_arith)
            requires
                j == height,
                w == width as int,
                h == height as int,
        ;
    }
    (cells, coords)
}

/// Marks as mines the cells at the first `mines_count` entries of a
/// duplicate-free list of in-bounds coordinates, touching nothing else.
fn place_mines(cells: &mut Vec<Cell>, width: u8, height: u8, coords: &Vec<(u8, u8)>, mines_count: u16)
    requires
        old(cells)@.len() == width as int * height as int,
        forall|i: int| 0 <= i < old(cells)@.len() ==> !(#[trigger] old(cells)@[i]).is_mine,
        coords@.no_duplicates(),
        forall|k: int|
            0 <= k < coords@.len() ==> ((#[trigger] coords@[k]).0 as int) < width as int
                && (coords@[k].1 as int) < height as int,
        mines_count as int <= coords@.len(),
    ensures
        final(cells)@.len() == old(cells)@.len(),
        forall|i: int|
            0 <= i < old(cells)@.len() ==> {
                &&& (#[trigger] final(cells)@[i]).state == old(cells)@[i].state
                &&& final(cells)@[i].mines_around == old(cells)@[i].mines_around
                &&& final(cells)@[i].x_pos == old(cells)@[i].x_pos
                &&& final(cells)@[i].y_pos == old(cells)@[i].y_pos
            },
        forall|cx: int, cy: int|
            in_bounds(width as int, height as int, cx, cy) ==> ((#[trigger] at(
                final(cells)@,
                width as int,
                cx,
                cy,
            )).is_mine <==> coord_in_prefix(coords@, mines_count as int, cx, cy)),
        count_mines(final(cells)@, final(cells)@.len() as int) == mines_count as int,
{
    let ghost g0 = cells@;
    let ghost w = width as int;
    let ghost h = height as int;
    proof {
        lemma_count_mines_zero(g0, g0.len() as int);
        assert forall|cx: int, cy: int| in_bounds(w, h, cx, cy) implies !(#[trigger] at(
            g0,
            w,
            cx,
            cy,
        )).is_mine by {
            lemma_idx_bounds(w, h, cx, cy);
        }
    }
    let mut k: u16 = 0;
    while k < mines_count
        invariant
            k <= mines_count,
            w == width as int,
            h == height as int,
            cells@.len() == g0.len(),
            g0.len() == w * h,
            coords@.no_duplicates(),
            forall|m: int|
                0 <= m < coords@.len() ==> ((#[trigger] coords@[m]).0 as int) < w
                    && (coords@[m].1 as int) < h,
            mines_count as int <= coords@.len(),
            forall|i: int|
                0 <= i < g0.len() ==> {
                    &&& (#[trigger] cells@[i]).state == g0[i].state
                    &&& cells@[i].mines_around == g0[i].mines_around
                    &&& cells@[i].x_pos == g0[i].x_pos
                    &&& cells@[i].y_pos == g0[i].y_pos
                },
            forall|cx: int, cy: int|
                in_bounds(w, h, cx, cy) ==> ((#[trigger] at(cells@, w, cx, cy)).is_mine
                    <==> coord_in_prefix(coords@, k as int, cx, cy)),
            count_mines(cells@, cells@.len() as int) == k as int,
        decreases mines_count as int - k as int,
    {
        let (cx, cy) = coords[k as usize];
        proof {
            assert(coords@[k as int].0 == cx && coords@[k as int].1 == cy);
            lemma_idx_bounds(w, h, cx as int, cy as int);
            lemma_grid_size_bound(w, h);
        }
        let p: usize = (cy as usize) * (width as usize) + (cx as usize);
        let ghost gprev = cells@;
        let mut c = cells[p];
        proof {
            assert(at(gprev, w, cx as int, cy as int) == gprev[p as int]);
            if c.is_mine {
                assert(coord_in_prefix(coords@, k as int, cx as int, cy as int));
                let m = choose|m: int|
                    0 <= m < k as int && (#[trigger] coords@[m]).0 as int == cx as int
                        && coords@[m].1 as int == cy as int;
                assert(coords@[m] == coords@[k as int]);
                assert(false);
            }
        }
        c.is_mine = true;
        cells[p] = c;
        proof {
            let g = cells@;
            let kidx = idx(w, cx as int, cy as int);
            assert(g == gprev.update(kidx, c));
            lemma_count_mines_update(gprev, gprev.len() as int, kidx, c);
            assert forall|ax: int, ay: int| in_bounds(w, h, ax, ay) implies ((#[trigger] at(
                g,
                w,
                ax,
                ay,
            )).is_mine <==> coord_in_prefix(coords@, k as int + 1, ax, ay)) by {
                lemma_idx_bounds(w, h, ax, ay);
                if ax == cx as int && ay == cy as int {
                    assert(at(g, w, ax, ay) == c);
                    assert((#[trigger] coords@[k as int]).0 as int == ax && coords@[k as int].1
                        as int == ay);
                    assert(coord_in_prefix(coords@, k as int + 1, ax, ay));
                } else {
                    if idx(w, ax, ay) == kidx {
                        lemma_idx_injective(w, ax, ay, cx as int, cy as int);
                    }
                    assert(at(g, w, ax, ay) == at(gprev, w, ax, ay));
                    if coord_in_prefix(coords@, k as int + 1, ax, ay) {
                        let m = choose|m: int|
                            0 <= m < k as int + 1 && (#[trigger] coords@[m]).0 as int == ax
                                && coords@[m].1 as int == ay;
                        assert(m != k as int);
                        assert(coord_in_prefix(coords@, k as int, ax, ay));
                    }
                    if coord_in_prefix(coords@, k as int, ax, ay) {
                        let m = choose|m: int|
                            0 <= m < k as int && (#[trigger] coords@[m]).0 as int == ax
                                && coords@[m].1 as int == ay;
                        assert(coord_in_prefix(coords@, k as int + 1, ax, ay));
                    }
                }
            }
        }
        k = k + 1;
    }
}

/// Stores into every cell the count of mines among its in-bounds neighbors,
/// touching nothing else.
fn compute_hints(cells: &mut Vec<Cell>, width: u8, height: u8)
    requires
        old(cells)@.len() == width as int * height as int,
    ensures
        final(cells)@.len() == old(cells)@.len(),
        forall|i: int|
            0 <= i < old(cells)@.len() ==> {
                &&& (#[trigger] final(cells)@[i]).is_mine == old(cells)@[i].is_mine
                &&& final(cells)@[i].state == old(cells)@[i].state
                &&& final(cells)@[i].x_pos == old(cells)@[i].x_pos
                &&& final(cells)@[i].y_pos == old(cells)@[i].y_pos
            },
        forall|cx: int, cy: int|
            in_bounds(width as int, height as int, cx, cy) ==> (#[trigger] at(
                final(cells)@,
                width as int,
                cx,
                cy,
            )).mines_around == neighbor_mines(final(cells)@, width as int, height as int, cx, cy),
{
    let ghost g0 = cells@;
    let ghost w = width as int;
    let ghost h = height as int;
    let mut y: u8 = 0;
    while y < height
        invariant
            y <= height,
            cells@.len() == g0.len(),
            g0.len() == w * h,
            w == width as int,
            h == height as int,
            forall|i: int|
                0 <= i < g0.len() ==> {
                    &&& (#[trigger] cells@[i]).is_mine == g0[i].is_mine
                    &&& cells@[i].state == g0[i].state
                    &&& cells@[i].x_pos == g0[i].x_pos
                    &&& cells@[i].y_pos == g0[i].y_pos
                },
            forall|cx: int, cy: int|
                in_bounds(w, h, cx, cy) && cy < y as int ==> (#[trigger] at(
                    cells@,
                    w,
                    cx,
                    cy,
                )).mines_around == neighbor_mines(g0, w, h, cx, cy),
        decreases height as int - y as int,
    {
        let mut x: u8 = 0;
        while x < width
            invariant
                x <= width,
                y < height,
                cells@.len() == g0.len(),
                g0.len() == w * h,
                w == width as int,
                h == height as int,
                forall|i: int|
                    0 <= i < g0.len() ==> {
                        &&& (#[trigger] cells@[i]).is_mine == g0[i].is_mine
                        &&& cells@[i].state == g0[i].state
                        &&& cells@[i].x_pos == g0[i].x_pos
                        &&& cells@[i].y_pos == g0[i].y_pos
                    },
                forall|cx: int, cy: int|
                    in_bounds(w, h, cx, cy) && (cy < y as int || (cy == y as int && cx
                        < x as int)) ==> (#[trigger] at(cells@, w, cx, cy)).mines_around
                        == neighbor_mines(g0, w, h, cx, cy),
            decreases width as int - x as int,
        {
            let r = count_around(cells, width, height, x, y);
            proof {
                lemma_idx_bounds(w, h, x as int, y as int);
                crate::model::lemma_grid_size_bound(w, h);
                lemma_neighbor_mines_congruence(cells@, g0, w, h, x as int, y as int);
            }
            let ghost gprev = cells@;
            let p: usize = (y as usize) * (width as usize) + (x as usize);
            let mut c = cells[p];
            c.mines_around = r;
            cells[p] = c;
            proof {
                let g = cells@;
                let k = idx(w, x as int, y as int);
                assert(g == gprev.update(k, c));
                assert forall|cx: int, cy: int|
                    in_bounds(w, h, cx, cy) && (cy < y as int || (cy == y as int && cx <= x as int))
                        implies (#[trigger] at(g, w, cx, cy)).mines_around == neighbor_mines(
                    g0,
                    w,
                    h,
                    cx,
                    cy,
                ) by {
                    lemma_idx_bounds(w, h, cx, cy);
                    if idx(w, cx, cy) == k {
                        lemma_idx_injective(w, cx, cy, x as int, y as int);
                        assert(at(g, w, cx, cy) == c);
                    } else {
                        assert(at(g, w, cx, cy) == at(gprev, w, cx, cy));
                    }
                }
            }
            x = x + 1;
        }
        y = y + 1;
    }
    proof {
        assert forall|cx: int, cy: int| in_bounds(w, h, cx, cy) implies (#[trigger] at(
            cells@,
            w,
            cx,
            cy,
        )).mines_around == neighbor_mines(cells@, w, h, cx, cy) by {
            lemma_neighbor_mines_congruence(cells@, g0, w, h, cx, cy);
        }
    }
}

/// Appends to the work queue every in-bounds neighbor of a cell, leaving the
/// entries before its old length untouched, so that afterwards each neighbor
/// is pending at or beyond that old length.
fn push_neighbors(queue: &mut Vec<(u8, u8)>, width: u8, height: u8, cx: u8, cy: u8)
    requires
        cx < width,
        cy < height,
    ensures
        final(queue)@.len() >= old(queue)@.len(),
        forall|k: int| 0 <= k < old(queue)@.len() ==> #[trigger] final(queue)@[k] == old(queue)@[k],
        forall|k: int|
            old(queue)@.len() <= k < final(queue)@.len() ==> {
                &&& in_bounds(
                    width as int,
                    height as int,
                    (#[trigger] final(queue)@[k]).0 as int,
                    final(queue)@[k].1 as int,
                )
                &&& adjacent(
                    cx as int,
                    cy as int,
                    final(queue)@[k].0 as int,
                    final(queue)@[k].1 as int,
                )
            },
        forall|nx: int, ny: int|
            adjacent(cx as int, cy as int, nx, ny) && in_bounds(width as int, height as int, nx, ny)
                ==> #[trigger] in_pending(final(queue)@, old(queue)@.len() as int, nx, ny),
{
    let ghost q0 = queue@;
    let ghost l0 = queue@.len() as int;
    let ghost w = width as int;
    let ghost h = height as int;
    let mut dy: u8 = 0;
    while dy < 3
        invariant
            dy <= 3,
            cx < width,
            cy < height,
            w == width as int,
            h == height as int,
            l0 == q0.len(),
            queue@.len() >= l0,
            forall|k: int| 0 <= k < l0 ==> #[trigger] queue@[k] == q0[k],
            forall|k: int|
                l0 <= k < queue@.len() ==> {
                    &&& in_bounds(w, h, (#[trigger] queue@[k]).0 as int, queue@[k].1 as int)
                    &&& adjacent(cx as int, cy as int, queue@[k].0 as int, queue@[k].1 as int)
                },
            forall|nx: int, ny: int|
                adjacent(cx as int, cy as int, nx, ny) && in_bounds(w, h, nx, ny) && ny
                    < cy as int + dy as int - 1 ==> #[trigger] in_pending(queue@, l0, nx, ny),
        decreases 3 - dy as int,
    {
        let mut dx: u8 = 0;
        while dx < 3
            invariant
                dx <= 3,
                dy < 3,
                cx < width,
                cy < height,
                w == width as int,
                h == height as int,
                l0 == q0.len(),
                queue@.len() >= l0,
                forall|k: int| 0 <= k < l0 ==> #[trigger] queue@[k] == q0[k],
                forall|k: int|
                    l0 <= k < queue@.len() ==> {
                        &&& in_bounds(w, h, (#[trigger] queue@[k]).0 as int, queue@[k].1 as int)
                        &&& adjacent(cx as int, cy as int, queue@[k].0 as int, queue@[k].1 as int)
                    },
                forall|nx: int, ny: int|
                    adjacent(cx as int, cy as int, nx, ny) && in_bounds(w, h, nx, ny) && (ny
                        < cy as int + dy as int - 1 || (ny == cy as int + dy as int - 1 && nx
                        < cx as int + dx as int - 1)) ==> #[trigger] in_pending(queue@, l0, nx, ny),
            decreases 3 - dx as int,
        {
            let ghost qprev = queue@;
            if !(dx == 1 && dy == 1) {
                let nxi: i32 = cx as i32 + dx as i32 - 1;
                let nyi: i32 = cy as i32 + dy as i32 - 1;
                if 0 <= nxi && nxi < width as i32 && 0 <= nyi && nyi < height as i32 {
                    let v = (nxi as u8, nyi as u8);
                    queue.push(v);
                    proof {
                        assert(queue@[queue@.len() - 1] == v);
                        assert(v.0 as int == nxi as int && v.1 as int == nyi as int);
                        assert(in_pending(queue@, l0, nxi as int, nyi as int));
                    }
                }
            }
            proof {
                assert forall|nx: int, ny: int|
                    adjacent(cx as int, cy as int, nx, ny) && in_bounds(w, h, nx, ny) && (ny
                        < cy as int + dy as int - 1 || (ny == cy as int + dy as int - 1 && nx
                        < cx as int + dx as int)) implies in_pending(queue@, l0, nx, ny) by {
                    if ny < cy as int + dy as int - 1 || (ny == cy as int + dy as int - 1 && nx
                        < cx as int + dx as int - 1) {
                        assert(in_pending(qprev, l0, nx, ny));
                        let k = choose|k: int|
                            l0 <= k < qprev.len() && (#[trigger] qprev[k]).0 as int == nx
                                && qprev[k].1 as int == ny;
                        assert(queue@[k] == qprev[k]);
                        assert(in_pending(queue@, l0, nx, ny));
                    } else {
                        assert(ny == cy as int + dy as int - 1 && nx == cx as int + dx as int - 1);
                        assert(in_pending(queue@, l0, nx, ny));
                    }
                }
            }
            dx = dx + 1;
        }
        dy = dy + 1;
    }
    proof {
        assert forall|nx: int, ny: int|
            adjacent(cx as int, cy as int, nx, ny) && in_bounds(w, h, nx, ny) implies in_pending(
            queue@,
            l0,
            nx,
            ny,
        ) by {
            assert(ny < cy as int + 3 - 1);
        }
    }
}

/// What a successful open of a closed start cell guarantees: the outcome
/// names the ground truth of the start cell; only mine and hint data is
/// untouched everywhere; only cells of the revealed region change state,
/// each of them from unopened to opened; and — whenever no cell of the
/// start's zero-hint region was already open — the whole region and its
/// border are open afterwards.
pub open spec fn open_post(
    pre: Field,
    post: Field,
    x: int,
    y: int,
    r: Result<OpenResult, MinesweeperError>,
) -> bool {
    let w = pre.spec_width();
    let h = pre.spec_height();
    let g0 = pre.grid();
    let g = post.grid();
    &&& r == Ok::<OpenResult, MinesweeperError>(
        if at(g0, w, x, y).is_mine {
            OpenResult::Mine
        } else {
            OpenResult::NotMine
        },
    )
    &&& same_but_state(g0, g)
    &&& at(g, w, x, y).state == CellState::Opened
    &&& forall|cx: int, cy: int|
        in_bounds(w, h, cx, cy) && (#[trigger] at(g, w, cx, cy)).state != at(g0, w, cx, cy).state
            ==> (at(g0, w, cx, cy).state != CellState::Opened && at(g, w, cx, cy).state
            == CellState::Opened && opens(g0, w, h, x, y, cx, cy))
    &&& ((forall|cx: int, cy: int|
        zero_connected(g0, w, h, x, y, cx, cy) ==> (#[trigger] at(g0, w, cx, cy)).state
            != CellState::Opened) ==> (forall|cx: int, cy: int|
        opens(g0, w, h, x, y, cx, cy) ==> (#[trigger] at(g, w, cx, cy)).state
            == CellState::Opened))
}

/// Every stored hint equals the count of mines among the cell's in-bounds
/// neighbors, and every cell records its own coordinates.
pub open spec fn cells_wf(g: Seq<Cell>, w: int, h: int) -> bool {
    forall|x: int, y: int|
        in_bounds(w, h, x, y) ==> {
            &&& (#[trigger] at(g, w, x, y)).x_pos == x
            &&& at(g, w, x, y).y_pos == y
            &&& at(g, w, x, y).mines_around == neighbor_mines(g, w, h, x, y)
        }
}

impl Field {
    /// Builds a board: rejects a mine count that would leave fewer than two
    /// cells free or a start coordinate beyond the board, then places the
    /// mines at random anywhere but the start cell and precomputes every
    /// cell's hint. On success the board is valid, fully closed, carries
    /// exactly `mines_count` mines, and the start cell is mine-free.
    pub fn new(width: u8, height: u8, x: u8, y: u8, mines_count: u16) -> (r: Result<
        Field,
        MinesweeperError,
    >)
        ensures
            match r {
                Ok(f) => {
                    &&& f.wf()
                    &&& f.spec_width() == width as int
                    &&& f.spec_height() == height as int
                    &&& f.spec_mines() == mines_count as int
                    &&& mines_count as int <= width as int * height as int - 2
                    &&& x as int <= width as int && y as int <= height as int
                    &&& (in_bounds(width as int, height as int, x as int, y as int) ==> !at(
                        f.grid(),
                        width as int,
                        x as int,
                        y as int,
                    ).is_mine)
                    &&& forall|cx: int, cy: int|
                        in_bounds(width as int, height as int, cx, cy) ==> (#[trigger] at(
                            f.grid(),
                            width as int,
                            cx,
                            cy,
                        )).state == CellState::Closed
                },
                Err(e) => {
                    &&& (e == MinesweeperError::TooManyMines || e
                        == MinesweeperError::StartOutOfBounds)
                    &&& (e == MinesweeperError::TooManyMines <==> mines_count as int > width as int
                        * height as int - 2)
                    &&& (e == MinesweeperError::StartOutOfBounds <==> (mines_count as int
                        <= width as int * height as int - 2 && (x as int > width as int
                        || y as int > height as int)))
                },
            },
    {
        proof {
            lemma_grid_size_bound(width as int, height as int);
        }
        let total: u32 = (width as u32) * (height as u32);
        if (mines_count as u32) + 2 > total {
            return Err(MinesweeperError::TooManyMines);
        }
        if x > width || y > height {
            return Err(MinesweeperError::StartOutOfBounds);
        }
        let ghost w = width as int;
        let ghost h = height as int;
        let (mut cells, mut coords) = build_initial(width, height, x, y);
        let ghost g1 = cells@;
        let ghost coords0 = coords@;
        shuffle_coords(&mut coords);
        proof {
            lemma_permutation_keeps(coords0, coords@);
            assert forall|k: int| 0 <= k < coords@.len() implies {
                &&& ((#[trigger] coords@[k]).0 as int) < w
                &&& (coords@[k].1 as int) < h
                &&& !(coords@[k].0 == x && coords@[k].1 == y)
            } by {
                let m = choose|m: int| 0 <= m < coords0.len() && coords0[m] == coords@[k];
                assert(coords0[m] == coords@[k]);
            }
        }
        place_mines(&mut cells, width, height, &coords, mines_count);
        let ghost g2 = cells@;
        compute_hints(&mut cells, width, height);
        let ghost g3 = cells@;
        let f = Field { cells, width, height, mines_count };
        proof {
            assert(f.grid() == g3);
            lemma_count_mines_pointwise(g2, g3, g2.len() as int);
            assert(total_mines(g3) == mines_count as int);
            assert forall|cx: int, cy: int| in_bounds(w, h, cx, cy) implies {
                &&& (#[trigger] at(g3, w, cx, cy)).x_pos as int == cx
                &&& at(g3, w, cx, cy).y_pos as int == cy
                &&& at(g3, w, cx, cy).state == CellState::Closed
                &&& (at(g3, w, cx, cy).is_mine <==> at(g2, w, cx, cy).is_mine)
            } by {
                lemma_idx_bounds(w, h, cx, cy);
                let p = idx(w, cx, cy);
                assert(at(g3, w, cx, cy) == g3[p]);
                assert(at(g2, w, cx, cy) == g2[p]);
                assert(at(g1, w, cx, cy) == g1[p]);
                assert(at(g1, w, cx, cy).x_pos as int == cx);
                assert(at(g1, w, cx, cy).y_pos as int == cy);
                assert(g1[p].state == CellState::Closed);
            }
            if in_bounds(w, h, x as int, y as int) {
                if at(g2, w, x as int, y as int).is_mine {
                    let m = choose|m: int|
                        0 <= m < mines_count as int && (#[trigger] coords@[m]).0 as int == x as int
                            && coords@[m].1 as int == y as int;
                    assert(!(coords@[m].0 == x && coords@[m].1 == y));
                    assert(false);
                }
            }
        }
        Ok(f)
    }

    /// The grid as a row-major sequence of cells.
    pub closed spec fn grid(self) -> Seq<Cell> {
        self.cells@
    }

    pub closed spec fn spec_width(self) -> int {
        self.width as int
    }

    pub closed spec fn spec_height(self) -> int {
        self.height as int
    }

    pub closed spec fn spec_mines(self) -> int {
        self.mines_count as int
    }

    /// Validity of a board: the grid has one cell per coordinate, holds
    /// exactly `mines_count` mines, and every hint is correct.
    pub open spec fn wf(self) -> bool {
        &&& self.grid().len() == self.spec_width() * self.spec_height()
        &&& total_mines(self.grid()) == self.spec_mines()
        &&& cells_wf(self.grid(), self.spec_width(), self.spec_height())
    }

    /// The coordinate lies on this board.
    pub open spec fn on_board(self, x: int, y: int) -> bool {
        in_bounds(self.spec_width(), self.spec_height(), x, y)
    }

    /// The board's width.
    pub fn width(&self) -> (r: u8)
        ensures
            r as int == self.spec_width(),
    {
        self.width
    }

    /// The board's height.
    pub fn height(&self) -> (r: u8)
        ensures
            r as int == self.spec_height(),
    {
        self.height
    }

    /// The number of mines the board was built with.
    pub fn mines_count(&self) -> (r: u16)
        ensures
            r as int == self.spec_mines(),
    {
        self.mines_count
    }

    /// A by-value snapshot of one cell; rejects out-of-bounds coordinates.
    pub fn get_cell(&self, x: usize, y: usize) -> (r: Result<Cell, MinesweeperError>)
        requires
            self.wf(),
        ensures
            self.on_board(x as int, y as int) ==> r == Ok::<Cell, MinesweeperError>(
                at(self.grid(), self.spec_width(), x as int, y as int),
            ),
            !self.on_board(x as int, y as int) ==> r == Err::<Cell, MinesweeperError>(
                MinesweeperError::BoundsError,
            ),
    {
        if x < self.width as usize && y < self.height as usize {
            proof {
                lemma_idx_bounds(self.spec_width(), self.spec_height(), x as int, y as int);
                crate::model::lemma_grid_size_bound(self.spec_width(), self.spec_height());
            }
            let p: usize = y * (self.width as usize) + x;
            Ok(self.cells[p])
        } else {
            Err(MinesweeperError::BoundsError)
        }
    }

    /// Whether the cell holds a mine — ground truth, whatever the cell's
    /// visible state; rejects out-of-bounds coordinates.
    pub fn is_mine(&self, x: usize, y: usize) -> (r: Result<bool, MinesweeperError>)
        requires
            self.wf(),
        ensures
            self.on_board(x as int, y as int) ==> r == Ok::<bool, MinesweeperError>(
                at(self.grid(), self.spec_width(), x as int, y as int).is_mine,
            ),
            !self.on_board(x as int, y as int) ==> r == Err::<bool, MinesweeperError>(
                MinesweeperError::BoundsError,
            ),
    {
        match self.get_cell(x, y) {
            Ok(c) => Ok(c.is_mine),
            Err(e) => Err(e),
        }
    }

    /// The stored count of mines around the cell — ground truth, whatever
    /// the cell's visible state; rejects out-of-bounds coordinates.
    pub fn get_mines_around(&self, x: usize, y: usize) -> (r: Result<u8, MinesweeperError>)
        requires
            self.wf(),
        ensures
            self.on_board(x as int, y as int) ==> r == Ok::<u8, MinesweeperError>(
                at(self.grid(), self.spec_width(), x as int, y as int).mines_around,
            ),
            !self.on_board(x as int, y as int) ==> r == Err::<u8, MinesweeperError>(
                MinesweeperError::BoundsError,
            ),
    {
        match self.get_cell(x, y) {
            Ok(c) => Ok(c.mines_around),
            Err(e) => Err(e),
        }
    }

    /// Whether the cell is still in the `Closed` state; rejects
    /// out-of-bounds coordinates.
    pub fn is_closed(&self, x: usize, y: usize) -> (r: Result<bool, MinesweeperError>)
        requires
            self.wf(),
        ensures
            self.on_board(x as int, y as int) ==> r == Ok::<bool, MinesweeperError>(
                at(self.grid(), self.spec_width(), x as int, y as int).state == CellState::Closed,
            ),
            !self.on_board(x as int, y as int) ==> r == Err::<bool, MinesweeperError>(
                MinesweeperError::BoundsError,
            ),
    {
        match self.get_cell(x, y) {
            Ok(c) => Ok(c.state == CellState::Closed),
            Err(e) => Err(e),
        }
    }

    /// Opens a cell. Out-of-bounds coordinates are rejected; a flagged,
    /// suspected or pressed cell reports `Flagged` untouched; an already
    /// opened cell reports `AlreadyOpened` untouched. Opening a closed cell
    /// reports whether it holds a mine and reveals, by a breadth-first
    /// flood, the zero-hint region around it and that region's border, and
    /// changes no cell outside that region.
    pub fn open_cell(&mut self, x: usize, y: usize) -> (r: Result<OpenResult, MinesweeperError>)
        requires
            old(self).wf(),
        ensures
            final(self).wf(),
            final(self).spec_width() == old(self).spec_width(),
            final(self).spec_height() == old(self).spec_height(),
            final(self).spec_mines() == old(self).spec_mines(),
            !old(self).on_board(x as int, y as int) ==> r == Err::<OpenResult, MinesweeperError>(
                MinesweeperError::BoundsError,
            ) && *final(self) == *old(self),
            old(self).on_board(x as int, y as int) ==> match at(
                old(self).grid(),
                old(self).spec_width(),
                x as int,
                y as int,
            ).state {
                CellState::Flagged | CellState::Suspected | CellState::UnderPressing => r == Ok::<
                    OpenResult,
                    MinesweeperError,
                >(OpenResult::Flagged) && *final(self) == *old(self),
                CellState::Opened => r == Ok::<OpenResult, MinesweeperError>(
                    OpenResult::AlreadyOpened,
                ) && *final(self) == *old(self),
                CellState::Closed => open_post(*old(self), *final(self), x as int, y as int, r),
            },
    {
        if !(x < self.width as usize && y < self.height as usize) {
            return Err(MinesweeperError::BoundsError);
        }
        let ghost w = self.spec_width();
        let ghost h = self.spec_height();
        let ghost g0 = self.grid();
        let ghost m0 = self.spec_mines();
        proof {
            lemma_idx_bounds(w, h, x as int, y as int);
            lemma_grid_size_bound(w, h);
        }
        let p: usize = y * (self.width as usize) + x;
        let c = self.cells[p];
        match c.state {
            CellState::Flagged | CellState::Suspected | CellState::UnderPressing => {
                return Ok(OpenResult::Flagged);
            },
            CellState::Opened => {
                return Ok(OpenResult::AlreadyOpened);
            },
            CellState::Closed => {},
        }
        let was_mine = c.is_mine;
        let sx = x as u8;
        let sy = y as u8;
        let mut queue: Vec<(u8, u8)> = Vec::new();
        queue.push((sx, sy));
        let mut head: usize = 0;
        proof {
            lemma_count_unopened_nonneg(self.grid(), self.grid().len() as int);
            assert(queue@[0] == ((sx, sy)));
            assert(in_pending(queue@, 0, sx as int, sy as int));
        }
        while head < queue.len()
            invariant
                self.spec_width() == w,
                self.spec_height() == h,
                self.spec_mines() == m0,
                self.grid().len() == g0.len(),
                g0.len() == w * h,
                in_bounds(w, h, sx as int, sy as int),
                same_but_state(g0, self.grid()),
                head as int <= queue@.len() as int,
                0 <= count_unopened(self.grid(), self.grid().len() as int),
                forall|k: int|
                    0 <= k < queue@.len() ==> {
                        &&& in_bounds(w, h, (#[trigger] queue@[k]).0 as int, queue@[k].1 as int)
                        &&& opens(
                            g0,
                            w,
                            h,
                            sx as int,
                            sy as int,
                            queue@[k].0 as int,
                            queue@[k].1 as int,
                        )
                    },
                forall|cx: int, cy: int|
                    in_bounds(w, h, cx, cy) && (#[trigger] at(self.grid(), w, cx, cy)).state != at(
                        g0,
                        w,
                        cx,
                        cy,
                    ).state ==> {
                        &&& at(g0, w, cx, cy).state != CellState::Opened
                        &&& at(self.grid(), w, cx, cy).state == CellState::Opened
                        &&& opens(g0, w, h, sx as int, sy as int, cx, cy)
                    },
                forall|cx: int, cy: int|
                    in_bounds(w, h, cx, cy) && (#[trigger] at(g0, w, cx, cy)).state
                        != CellState::Opened && at(self.grid(), w, cx, cy).state
                        == CellState::Opened && at(g0, w, cx, cy).mines_around == 0
                        ==> neighbors_covered(self.grid(), queue@, head as int, w, h, cx, cy),
                at(self.grid(), w, sx as int, sy as int).state == CellState::Opened || in_pending(
                    queue@,
                    head as int,
                    sx as int,
                    sy as int,
                ),
            decreases
                    count_unopened(self.grid(), self.grid().len() as int),
                    queue@.len() - head as int,
        {
            let ghost gprev = self.grid();
            let ghost qprev = queue@;
            let ghost oldh = head as int;
            let cq = queue[head];
            let cxx = cq.0;
            let cyy = cq.1;
            head = head + 1;
            proof {
                assert(qprev[oldh] == cq);
                lemma_idx_bounds(w, h, cxx as int, cyy as int);
                lemma_grid_size_bound(w, h);
            }
            let p2: usize = (cyy as usize) * (self.width as usize) + (cxx as usize);
            let cc = self.cells[p2];
            proof {
                assert(at(gprev, w, cxx as int, cyy as int) == gprev[p2 as int]);
                assert(cell_eq_but_state(g0[p2 as int], gprev[p2 as int]));
                assert(at(g0, w, cxx as int, cyy as int) == g0[p2 as int]);
            }
            if cc.state == CellState::Opened {
                proof {
                    lemma_covered_after_step(gprev, gprev, qprev, qprev, oldh, w, h);
                    if at(gprev, w, sx as int, sy as int).state != CellState::Opened {
                        let k = choose|k: int|
                            oldh <= k < qprev.len() && (#[trigger] qprev[k]).0 as int == sx as int
                                && qprev[k].1 as int == sy as int;
                        if k == oldh {
                            assert(at(gprev, w, sx as int, sy as int).state == CellState::Opened);
                        } else {
                            assert(in_pending(queue@, head as int, sx as int, sy as int));
                        }
                    }
                }
            } else {
                let mut c2 = cc;
                c2.state = CellState::Opened;
                self.cells[p2] = c2;
                proof {
                    let g = self.grid();
                    let kidx = idx(w, cxx as int, cyy as int);
                    assert(g == gprev.update(kidx, c2));
                    lemma_count_unopened_update(gprev, gprev.len() as int, kidx, c2);
                    lemma_count_unopened_nonneg(g, g.len() as int);
                    assert forall|i: int|
                        0 <= i < g0.len() implies cell_eq_but_state(
                        #[trigger] g0[i],
                        #[trigger] g[i],
                    ) by {
                        if i != kidx {
                            assert(g[i] == gprev[i]);
                        } else {
                            assert(g[i] == c2);
                        }
                    }
                    assert forall|ax: int, ay: int|
                        in_bounds(w, h, ax, ay) && !(ax == cxx as int && ay
                            == cyy as int) implies #[trigger] at(g, w, ax, ay) == at(
                        gprev,
                        w,
                        ax,
                        ay,
                    ) by {
                        lemma_idx_bounds(w, h, ax, ay);
                        if idx(w, ax, ay) == kidx {
                            lemma_idx_injective(w, ax, ay, cxx as int, cyy as int);
                        }
                    }
                    assert(at(g, w, cxx as int, cyy as int) == c2);
                    assert(at(gprev, w, cxx as int, cyy as int).state == at(
                        g0,
                        w,
                        cxx as int,
                        cyy as int,
                    ).state);
                    assert forall|ax: int, ay: int|
                        in_bounds(w, h, ax, ay) && (#[trigger] at(g, w, ax, ay)).state != at(
                        g0,
                        w,
                        ax,
                        ay,
                    ).state implies {
                        &&& at(g0, w, ax, ay).state != CellState::Opened
                        &&& at(g, w, ax, ay).state == CellState::Opened
                        &&& opens(g0, w, h, sx as int, sy as int, ax, ay)
                    } by {
                        if !(ax == cxx as int && ay == cyy as int) {
                            assert(at(g, w, ax, ay) == at(gprev, w, ax, ay));
                        }
                    }
                    lemma_covered_after_step(gprev, g, qprev, qprev, oldh, w, h);
                    if at(gprev, w, sx as int, sy as int).state != CellState::Opened {
                        let k = choose|k: int|
                            oldh <= k < qprev.len() && (#[trigger] qprev[k]).0 as int == sx as int
                                && qprev[k].1 as int == sy as int;
                        if k == oldh {
                            assert(at(g, w, sx as int, sy as int).state == CellState::Opened);
                        } else {
                            assert(in_pending(queue@, head as int, sx as int, sy as int));
                        }
                    }
                }
                if cc.mines_around == 0 {
                    let ghost gnow = self.grid();
                    proof {
                        assert(at(g0, w, cxx as int, cyy as int).mines_around == 0);
                        assert(zero_cell(g0, w, h, cxx as int, cyy as int));
                        if cxx as int == sx as int && cyy as int == sy as int {
                            lemma_zero_base(g0, w, h, sx as int, sy as int);
                        } else {
                            let (px, py) = choose|px: int, py: int|
                                #[trigger] zero_connected(g0, w, h, sx as int, sy as int, px, py)
                                    && adjacent(px, py, cxx as int, cyy as int);
                            lemma_zero_extend(
                                g0,
                                w,
                                h,
                                sx as int,
                                sy as int,
                                px,
                                py,
                                cxx as int,
                                cyy as int,
                            );
                        }
                        assert(zero_connected(g0, w, h, sx as int, sy as int, cxx as int, cyy as int));
                    }
                    let ghost qbefore = queue@;
                    push_neighbors(&mut queue, self.width, self.height, cxx, cyy);
                    proof {
                        assert forall|k: int| 0 <= k < queue@.len() implies {
                            &&& in_bounds(w, h, (#[trigger] queue@[k]).0 as int, queue@[k].1 as int)
                            &&& opens(
                                g0,
                                w,
                                h,
                                sx as int,
                                sy as int,
                                queue@[k].0 as int,
                                queue@[k].1 as int,
                            )
                        } by {
                            if k < qbefore.len() {
                                assert(queue@[k] == qbefore[k]);
                            } else {
                                assert(adjacent(
                                    cxx as int,
                                    cyy as int,
                                    queue@[k].0 as int,
                                    queue@[k].1 as int,
                                ));
                            }
                        }
                        assert forall|cx: int, cy: int|
                            in_bounds(w, h, cx, cy) && (#[trigger] at(g0, w, cx, cy)).state
                                != CellState::Opened && at(gnow, w, cx, cy).state
                                == CellState::Opened && at(g0, w, cx, cy).mines_around == 0
                                implies neighbors_covered(
                            gnow,
                            queue@,
                            head as int,
                            w,
                            h,
                            cx,
                            cy,
                        ) by {
                            if cx == cxx as int && cy == cyy as int {
                                assert forall|nx: int, ny: int|
                                    adjacent(cx, cy, nx, ny) && in_bounds(w, h, nx, ny) implies ((
                                #[trigger] at(gnow, w, nx, ny)).state == CellState::Opened
                                    || in_pending(queue@, head as int, nx, ny)) by {
                                    assert(in_pending(queue@, qbefore.len() as int, nx, ny));
                                    lemma_pending_weaken(
                                        queue@,
                                        qbefore.len() as int,
                                        head as int,
                                        nx,
                                        ny,
                                    );
                                }
                            } else {
                                assert(neighbors_covered(gnow, qbefore, head as int, w, h, cx, cy));
                                assert forall|nx: int, ny: int|
                                    adjacent(cx, cy, nx, ny) && in_bounds(w, h, nx, ny) implies ((
                                #[trigger] at(gnow, w, nx, ny)).state == CellState::Opened
                                    || in_pending(queue@, head as int, nx, ny)) by {
                                    if at(gnow, w, nx, ny).state != CellState::Opened {
                                        let k = choose|k: int|
                                            head as int <= k < qbefore.len() && (#[trigger] qbefore[k]).0
                                                as int == nx && qbefore[k].1 as int == ny;
                                        assert(queue@[k] == qbefore[k]);
                                        assert(in_pending(queue@, head as int, nx, ny));
                                    }
                                }
                            }
                        }
                        if at(gnow, w, sx as int, sy as int).state != CellState::Opened {
                            assert(in_pending(qbefore, head as int, sx as int, sy as int));
                            let k = choose|k: int|
                                head as int <= k < qbefore.len() && (#[trigger] qbefore[k]).0 as int
                                    == sx as int && qbefore[k].1 as int == sy as int;
                            assert(queue@[k] == qbefore[k]);
                            assert(in_pending(queue@, head as int, sx as int, sy as int));
                        }
                    }
                }
            }
        }
        proof {
            let g = self.grid();
            assert(at(g, w, sx as int, sy as int).state == CellState::Opened) by {
                if in_pending(queue@, head as int, sx as int, sy as int) {
                    let k = choose|k: int|
                        head as int <= k < queue@.len() && (#[trigger] queue@[k]).0 as int
                            == sx as int && queue@[k].1 as int == sy as int;
                    assert(false);
                }
            }
            assert(flood_closed(g0, g, w, h)) by {
                assert forall|cx: int, cy: int|
                    in_bounds(w, h, cx, cy) && (#[trigger] at(g0, w, cx, cy)).state
                        != CellState::Opened && at(g, w, cx, cy).state == CellState::Opened && at(
                        g0,
                        w,
                        cx,
                        cy,
                    ).mines_around == 0 implies neighbors_all_opened(g, w, h, cx, cy) by {
                    assert(neighbors_covered(g, queue@, head as int, w, h, cx, cy));
                    assert forall|nx: int, ny: int|
                        adjacent(cx, cy, nx, ny) && in_bounds(w, h, nx, ny) implies (#[trigger] at(
                        g,
                        w,
                        nx,
                        ny,
                    )).state == CellState::Opened by {
                        if in_pending(queue@, head as int, nx, ny) {
                            let k = choose|k: int|
                                head as int <= k < queue@.len() && (#[trigger] queue@[k]).0 as int
                                    == nx && queue@[k].1 as int == ny;
                            assert(false);
                        }
                    }
                }
            }
            if forall|cx: int, cy: int|
                zero_connected(g0, w, h, x as int, y as int, cx, cy) ==> (#[trigger] at(
                    g0,
                    w,
                    cx,
                    cy,
                )).state != CellState::Opened {
                assert forall|cx: int, cy: int|
                    opens(g0, w, h, x as int, y as int, cx, cy) implies (#[trigger] at(
                    g,
                    w,
                    cx,
                    cy,
                )).state == CellState::Opened by {
                    if !(cx == x as int && cy == y as int) {
                        let (px, py) = choose|px: int, py: int|
                            #[trigger] zero_connected(g0, w, h, x as int, y as int, px, py)
                                && adjacent(px, py, cx, cy);
                        let zpath = choose|zpath: Seq<(int, int)>|
                            #[trigger] zero_path_ok(g0, w, h, x as int, y as int, zpath)
                                && zpath.last() == (px, py);
                        lemma_flood_completes(g0, g, w, h, x as int, y as int, zpath);
                        assert(at(g, w, cx, cy).state == CellState::Opened);
                    }
                }
            }
            assert forall|cx: int, cy: int| in_bounds(w, h, cx, cy) implies {
                &&& (#[trigger] at(g, w, cx, cy)).x_pos as int == cx
                &&& at(g, w, cx, cy).y_pos as int == cy
                &&& at(g, w, cx, cy).mines_around == neighbor_mines(g, w, h, cx, cy)
            } by {
                lemma_idx_bounds(w, h, cx, cy);
                lemma_neighbor_mines_congruence(g0, g, w, h, cx, cy);
                assert(at(g0, w, cx, cy) == g0[idx(w, cx, cy)]);
                assert(at(g, w, cx, cy) == g[idx(w, cx, cy)]);
                assert(at(g0, w, cx, cy).mines_around == neighbor_mines(g0, w, h, cx, cy));
            }
            lemma_count_mines_pointwise(g0, g, g0.len() as int);
        }
        Ok(if was_mine {
            OpenResult::Mine
        } else {
            OpenResult::NotMine
        })
    }

    /// Overwrites one cell's state tag; rejects out-of-bounds coordinates
    /// and mutates nothing on rejection.
    pub fn set_state(&mut self, x: usize, y: usize, state: CellState) -> (r: Result<
        (),
        MinesweeperError,
    >)
        requires
            old(self).wf(),
        ensures
            final(self).wf(),
            final(self).spec_width() == old(self).spec_width(),
            final(self).spec_height() == old(self).spec_height(),
            final(self).spec_mines() == old(self).spec_mines(),
            old(self).on_board(x as int, y as int) ==> {
                &&& r == Ok::<(), MinesweeperError>(())
                &&& at(final(self).grid(), final(self).spec_width(), x as int, y as int).state
                    == state
                &&& cell_eq_but_state(
                    at(final(self).grid(), final(self).spec_width(), x as int, y as int),
                    at(old(self).grid(), old(self).spec_width(), x as int, y as int),
                )
                &&& forall|cx: int, cy: int|
                    old(self).on_board(cx, cy) && !(cx == x as int && cy == y as int)
                        ==> #[trigger] at(final(self).grid(), final(self).spec_width(), cx, cy)
                        == at(old(self).grid(), old(self).spec_width(), cx, cy)
            },
            !old(self).on_board(x as int, y as int) ==> r == Err::<(), MinesweeperError>(
                MinesweeperError::BoundsError,
            ) && *final(self) == *old(self),
    {
        if x < self.width as usize && y < self.height as usize {
            let ghost g0 = self.cells@;
            let ghost w = self.spec_width();
            let ghost h = self.spec_height();
            proof {
                lemma_idx_bounds(w, h, x as int, y as int);
                crate::model::lemma_grid_size_bound(w, h);
            }
            let p: usize = y * (self.width as usize) + x;
            let mut c = self.cells[p];
            c.state = state;
            self.cells[p] = c;
            proof {
                let g = self.cells@;
                let k = idx(w, x as int, y as int);
                assert(g == g0.update(k, c));
                lemma_count_mines_update(g0, g0.len() as int, k, c);
                assert(forall|i: int|
                    0 <= i < g0.len() ==> (#[trigger] g0[i]).is_mine == (#[trigger] g[i]).is_mine);
                assert forall|cx: int, cy: int|
                    in_bounds(w, h, cx, cy) && !(cx == x as int && cy == y as int) implies #[trigger] at(
                    g,
                    w,
                    cx,
                    cy,
                ) == at(g0, w, cx, cy) by {
                    lemma_idx_bounds(w, h, cx, cy);
                    if idx(w, cx, cy) == k {
                        lemma_idx_injective(w, cx, cy, x as int, y as int);
                    }
                }
                assert forall|cx: int, cy: int| in_bounds(w, h, cx, cy) implies {
                    &&& (#[trigger] at(g, w, cx, cy)).x_pos == cx
                    &&& at(g, w, cx, cy).y_pos == cy
                    &&& at(g, w, cx, cy).mines_around == neighbor_mines(g, w, h, cx, cy)
                } by {
                    lemma_idx_bounds(w, h, cx, cy);
                    lemma_neighbor_mines_congruence(g0, g, w, h, cx, cy);
                    assert(at(g0, w, cx, cy).mines_around == neighbor_mines(g0, w, h, cx, cy));
                    if !(cx == x as int && cy == y as int) {
                        assert(at(g, w, cx, cy) == at(g0, w, cx, cy));
                    }
                }
            }
            Ok(())
        } else {
            Err(MinesweeperError::BoundsError)
        }
    }
}

} // verus!
