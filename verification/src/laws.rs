//! Laws of every valid board, stated over the model and proved once.

use vstd::prelude::*;

use crate::field::Field;
use crate::model::{at, in_bounds, neighbor_mines, total_mines};

verus! {

/// Every valid board holds exactly the number of mines it was built with.
pub proof fn lemma_mine_total_exact(f: Field)
    requires
        f.wf(),
    ensures
        total_mines(f.grid()) == f.spec_mines(),
{
}

/// On every valid board, the stored hint of every cell equals a brute-force
/// recount of the mines among its in-bounds neighbors.
pub proof fn lemma_hint_matches_recount(f: Field, x: int, y: int)
    requires
        f.wf(),
        f.on_board(x, y),
    ensures
        at(f.grid(), f.spec_width(), x, y).mines_around == neighbor_mines(
            f.grid(),
            f.spec_width(),
            f.spec_height(),
            x,
            y,
        ),
{
}

} // verus!
