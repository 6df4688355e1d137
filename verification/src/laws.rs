use vstd::prelude::*;

use crate::cell::Cell;
use crate::cell::MINE_SENTINEL;
use crate::field::MineField;
use crate::field::adjacent_mines;
use crate::field::lemma_flat_coords;

verus! {

/// The content values of the first `n` cells, counting non-mine cells
/// only.
pub open spec fn sum_content_prefix(g: Seq<Cell>, n: int) -> int
    decreases n,
{
    if n <= 0 {
        0
    } else {
        sum_content_prefix(g, n - 1) + (if g[n - 1].content is Mine {
            0int
        } else {
            g[n - 1].spec_content_value() as int
        })
    }
}

/// The number of (non-mine cell, adjacent mine) incidences among the
/// first `n` cells: each such cell contributes one per mine it
/// touches.
pub open spec fn sum_adjacency_prefix(g: Seq<Cell>, w: int, h: int, n: int) -> int
    decreases n,
{
    if n <= 0 {
        0
    } else {
        sum_adjacency_prefix(g, w, h, n - 1) + (if g[n - 1].content is Mine {
            0int
        } else {
            adjacent_mines(g, w, h, (n - 1) / w, (n - 1) % w)
        })
    }
}

proof fn lemma_adjacency_sum_prefix(f: MineField, n: int)
    requires
        f.wf(),
        0 <= n <= f.total(),
    ensures
        sum_content_prefix(f.grid@, n) == sum_adjacency_prefix(
            f.grid@,
            f.width as int,
            f.height as int,
            n,
        ),
    decreases n,
{
    if n > 0 {
        lemma_adjacency_sum_prefix(f, n - 1);
        let w = f.width as int;
        let h = f.height as int;
        let p = n - 1;
        lemma_flat_coords(w, h, p);
        let r = p / w;
        let c = p % w;
        assert(f.cell_at(r, c) == f.grid@[r * w + c]);
        assert(r * w + c == p);
    }
}

/// Sanity law of the adjacency counting: over the whole grid, the sum
/// of content values of non-mine cells equals the number of incidences
/// between a non-mine cell and a mine next to it — every stored count
/// accounts for exactly the mines it touches. And no non-mine cell's
/// content can ever coincide with the mine sentinel.
pub proof fn lemma_adjacency_sum(f: MineField)
    requires
        f.wf(),
    ensures
        sum_content_prefix(f.grid@, f.total()) == sum_adjacency_prefix(
            f.grid@,
            f.width as int,
            f.height as int,
            f.total(),
        ),
        forall|r: int, c: int|
            f.in_bounds(r, c) && !(#[trigger] f.cell_at(r, c)).spec_is_mine() ==> f.cell_at(
                r,
                c,
            ).spec_content_value() != MINE_SENTINEL,
{
    lemma_adjacency_sum_prefix(f, f.total());
}

/// Outcome law: a well-formed field never carries both terminal flags,
/// and whenever success is set, the opened count plus the mine target
/// exactly equals the cell count. The converse — reaching that
/// equality raises the success flag — is what each activation
/// guarantees in its own contract.
pub proof fn lemma_outcome_flags(f: MineField)
    requires
        f.wf(),
    ensures
        !(f.succeeded && f.exploded),
        f.succeeded ==> f.opened_count + f.mine_count == f.total(),
{
}

} // verus!
