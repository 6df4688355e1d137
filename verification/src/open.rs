use vstd::prelude::*;

use crate::cell::Cell;
use crate::field::MineField;
use crate::field::adjacent_mines;
use crate::field::count_opened;
use crate::field::lemma_adjacent_mines_same_content;
use crate::field::lemma_count_mines_same_content;
use crate::field::lemma_count_opened_le_len;
use crate::field::lemma_count_opened_update;
use crate::field::lemma_dims_fit;
use crate::field::lemma_rc_index;
use crate::field::lemma_zero_cell_neighbor_not_mine;
use crate::field::lemma_rc_index_injective;
use crate::field::neighbors;

verus! {

/// Some pending work item names position `(r, c)`.
pub open spec fn work_has(wk: Seq<(i32, i32)>, r: int, c: int) -> bool {
    exists|k: int| 0 <= k < wk.len() && #[trigger] wk[k] == (r as i32, c as i32)
}

/// The cell as the end-of-game reveal leaves it: opened, and marked as
/// force-opened when the player had not opened it personally.
pub open spec fn spec_force_opened(cell: Cell) -> Cell {
    Cell { opened: true, force_open_at_ending: cell.force_open_at_ending || !cell.opened, ..cell }
}

/// Position `(r, c)` can be reached from `(tr, tc)` in at most `fuel`
/// expansion steps, each step crossing a still-closed cell with no
/// adjacent mines: the region the flood fill is allowed to sweep.
pub open spec fn flood_reach(a: MineField, tr: int, tc: int, r: int, c: int, fuel: nat) -> bool
    decreases fuel,
{
    (r == tr && c == tc) || (fuel > 0 && exists|r2: int, c2: int|
        a.in_bounds(r2, c2) && flood_reach(a, tr, tc, r2, c2, (fuel - 1) as nat) && !(
        #[trigger] a.cell_at(r2, c2)).opened && a.cell_at(r2, c2).content is Empty && neighbors(
            r2,
            c2,
            r,
            c,
        ))
}

/// `(r, c)` lies in the connected zero region of `(tr, tc)`: reachable
/// in some number of expansion steps.
pub open spec fn flood_connected(a: MineField, tr: int, tc: int, r: int, c: int) -> bool {
    exists|n: nat| flood_reach(a, tr, tc, r, c, n)
}

/// Whatever order the sweep visited cells in, everything connected to
/// an opened cell through closed zero-content cells is open once the
/// state satisfies the zero-region closure again: together with the
/// reach bound in `open`'s contract, the revealed cells are exactly
/// the requested cell and its connected zero region.
pub proof fn lemma_flood_connected_is_open(
    b: MineField,
    a: MineField,
    tr: int,
    tc: int,
    r: int,
    c: int,
)
    requires
        b.zero_regions_closed(),
        b.opens_monotonically_from(a),
        b.width == a.width,
        b.height == a.height,
        b.grid@.len() == b.width * b.height,
        b.in_bounds(tr, tc),
        b.in_bounds(r, c),
        b.cell_at(tr, tc).opened,
        flood_connected(a, tr, tc, r, c),
    ensures
        b.cell_at(r, c).opened,
{
    let n = choose|n: nat| flood_reach(a, tr, tc, r, c, n);
    lemma_flood_reach_is_open(b, a, tr, tc, r, c, n);
}

proof fn lemma_flood_reach_is_open(
    b: MineField,
    a: MineField,
    tr: int,
    tc: int,
    r: int,
    c: int,
    n: nat,
)
    requires
        b.zero_regions_closed(),
        b.opens_monotonically_from(a),
        b.width == a.width,
        b.height == a.height,
        b.grid@.len() == b.width * b.height,
        b.in_bounds(tr, tc),
        b.in_bounds(r, c),
        b.cell_at(tr, tc).opened,
        flood_reach(a, tr, tc, r, c, n),
    ensures
        b.cell_at(r, c).opened,
    decreases n,
{
    if !(r == tr && c == tc) {
        let (r2, c2) = choose|r2: int, c2: int|
            a.in_bounds(r2, c2) && flood_reach(a, tr, tc, r2, c2, (n - 1) as nat) && !(
            #[trigger] a.cell_at(r2, c2)).opened && a.cell_at(r2, c2).content is Empty
                && neighbors(r2, c2, r, c);
        lemma_flood_reach_is_open(b, a, tr, tc, r2, c2, (n - 1) as nat);
        lemma_rc_index(b.width as int, b.height as int, r2, c2);
        assert(b.cell_at(r2, c2) == b.grid@[r2 * b.width + c2]);
        assert(a.cell_at(r2, c2) == a.grid@[r2 * a.width + c2]);
        assert(b.cell_at(r2, c2).content is Empty);
    }
}

/// One expansion step: from a reachable, still-closed, zero-content
/// cell the region extends to each of its neighbors.
proof fn lemma_flood_step(a: MineField, tr: int, tc: int, r: int, c: int, nr: int, nc: int)
    requires
        flood_connected(a, tr, tc, r, c),
        a.in_bounds(r, c),
        !a.cell_at(r, c).opened,
        a.cell_at(r, c).content is Empty,
        neighbors(r, c, nr, nc),
    ensures
        flood_connected(a, tr, tc, nr, nc),
{
    let n = choose|n: nat| flood_reach(a, tr, tc, r, c, n);
    assert(flood_reach(a, tr, tc, nr, nc, n + 1)) by {
        assert(a.in_bounds(r, c) && flood_reach(a, tr, tc, r, c, n) && !a.cell_at(r, c).opened
            && a.cell_at(r, c).content is Empty && neighbors(r, c, nr, nc));
    }
}

impl MineField {
    /// `(r, c)` touches some opened cell with no adjacent mines: the
    /// justification for a cell being swept up by the flood fill.
    pub open spec fn touches_open_zero(self, r: int, c: int) -> bool {
        exists|r2: int, c2: int|
            self.in_bounds(r2, c2) && neighbors(r, c, r2, c2) && (#[trigger] self.cell_at(
                r2,
                c2,
            )).opened && self.cell_at(r2, c2).content is Empty
    }

    /// Cell fields other than `opened` are as they were, and `opened`
    /// only ever grows.
    pub open spec fn opens_monotonically_from(self, a: MineField) -> bool {
        &&& self.grid@.len() == a.grid@.len()
        &&& forall|p: int|
            0 <= p < self.grid@.len() ==> ((#[trigger] self.grid@[p]).content == a.grid@[p].content
                && self.grid@[p].force_open_at_ending == a.grid@[p].force_open_at_ending
                && self.grid@[p].flagged == a.grid@[p].flagged && self.grid@[p].questioned
                == a.grid@[p].questioned && (a.grid@[p].opened ==> self.grid@[p].opened))
    }

    /// Reveal the cell at `(row, col)`. A mine returns failure and
    /// changes nothing; an already-open cell is left alone; any other
    /// cell is opened, and a cell with no adjacent mines drags its
    /// whole connected zero region open with it, clamped at the grid
    /// edges. The expansion can never hit a mine, because a
    /// zero-content cell has no mine neighbors.
    pub fn open(&mut self, row: u16, col: u16) -> (ok: bool)
        requires
            old(self).wf(),
            old(self).started,
            !old(self).revealed,
            !old(self).succeeded,
            (row as int) < old(self).height as int,
            (col as int) < old(self).width as int,
        ensures
            final(self).wf(),
            ok == !old(self).cell_at(row as int, col as int).spec_is_mine(),
            !ok ==> *final(self) == *old(self),
            old(self).cell_at(row as int, col as int).opened ==> *final(self) == *old(self),
            ok ==> final(self).cell_at(row as int, col as int).opened,
            final(self).opens_monotonically_from(*old(self)),
            // the flood reaches no further than the requested cell and
            // its connected zero region: each newly opened cell is no
            // mine, lies in that region, and touches an opened
            // zero-content cell unless it is the requested cell itself
            final(self).opens_justified(*old(self), row, col),
            *final(self) == (MineField {
                grid: final(self).grid,
                opened_count: final(self).opened_count,
                ..*old(self)
            }),
    {
        let ghost a = *old(self);
        let target = self.get_cell(row, col);
        if target.is_mine() {
            return false;
        }
        if target.is_opened() {
            return true;
        }
        let mut work: Vec<(i32, i32)> = Vec::new();
        work.push((row as i32, col as i32));
        proof {
            assert(work@[0] == (row as i32, col as i32));
            assert(flood_reach(a, row as int, col as int, row as int, col as int, 0));
        }
        while work.len() > 0
            invariant
                a.wf(),
                a.started,
                !a.revealed,
                !a.succeeded,
                !a.cell_at(row as int, col as int).spec_is_mine(),
                !a.cell_at(row as int, col as int).opened,
                (row as int) < a.height as int,
                (col as int) < a.width as int,
                *self == (MineField {
                    grid: self.grid,
                    opened_count: self.opened_count,
                    ..a
                }),
                self.opens_monotonically_from(a),
                self.opened_count == count_opened(self.grid@),
                count_opened(self.grid@) <= self.grid@.len(),
                self.work_valid(a, work@, row, col),
                self.cell_at(row as int, col as int).opened || work_has(
                    work@,
                    row as int,
                    col as int,
                ),
                self.closure_pending(work@),
                self.opens_justified(a, row, col),
            decreases self.grid@.len() - count_opened(self.grid@), work@.len(),
        {
            let ghost w0 = work@;
            let ghost s0 = *self;
            let item = match work.pop() {
                Some(it) => it,
                None => (0, 0),
            };
            proof {
                assert(item == w0[w0.len() - 1]);
            }
            let in_range = item.0 >= 0 && item.1 >= 0 && (item.0 as u32)
                < (self.height as u32) && (item.1 as u32) < (self.width as u32);
            if in_range {
                let r = item.0 as u16;
                let c = item.1 as u16;
                let cellv = self.get_cell(r, c);
                if !cellv.is_opened() {
                    proof {
                        // the popped item is in range, hence valid work
                        assert(!self.cell_at(r as int, c as int).spec_is_mine());
                    }
                    let mut opened_cell = cellv;
                    opened_cell.mark_opened(false);
                    proof {
                        lemma_rc_index(a.width as int, a.height as int, r as int, c as int);
                    }
                    self.set_cell(r, c, opened_cell);
                    proof {
                        lemma_count_opened_update(
                            s0.grid@,
                            r as int * a.width as int + c as int,
                            opened_cell,
                        );
                        lemma_count_opened_le_len(self.grid@);
                        vstd::std_specs::vec::axiom_spec_len(&self.grid);
                        assert(self.grid@.len() <= usize::MAX);
                        assert(self.opened_count < self.grid@.len());
                    }
                    self.opened_count = self.opened_count + 1;
                    let is_zero = match cellv.content {
                        crate::cell::Content::Empty => true,
                        _ => false,
                    };
                    if is_zero {
                        work.push((item.0 - 1, item.1 - 1));
                        work.push((item.0 - 1, item.1));
                        work.push((item.0 - 1, item.1 + 1));
                        work.push((item.0, item.1 - 1));
                        work.push((item.0, item.1 + 1));
                        work.push((item.0 + 1, item.1 - 1));
                        work.push((item.0 + 1, item.1));
                        work.push((item.0 + 1, item.1 + 1));
                    }
                    proof {
                        self.lemma_open_step(a, s0, w0, work@, row, col, r, c, opened_cell, is_zero);
                    }
                } else {
                    proof {
                        self.lemma_skip_step(a, s0, w0, work@, row, col);
                    }
                }
            } else {
                proof {
                    self.lemma_skip_step(a, s0, w0, work@, row, col);
                }
            }
        }
        proof {
            assert forall|r: int, c: int, r2: int, c2: int|
                self.in_bounds(r, c) && self.in_bounds(r2, c2) && neighbors(r, c, r2, c2) && (
                #[trigger] self.cell_at(r, c)).opened && self.cell_at(r, c).content is Empty
                implies (#[trigger] self.cell_at(r2, c2)).opened by {
                assert(!work_has(work@, r2, c2));
            }
            assert(self.cell_at(row as int, col as int).opened) by {
                assert(!work_has(work@, row as int, col as int));
            }
            self.lemma_open_exit(a, row, col);
        }
        true
    }

    /// Mark every still-closed cell opened with `force_open_at_ending`
    /// set, so rendering can use the end-of-game palette for cells the
    /// player never chose. Content, the opened-during-play counter and
    /// the outcome flags stay untouched. Runs only once a terminal
    /// outcome is set, and signals the caller to redraw everything.
    pub fn reveal_all(&mut self)
        requires
            old(self).wf(),
            old(self).exploded || old(self).succeeded,
        ensures
            final(self).wf(),
            final(self).revealed,
            forall|r: int, c: int|
                final(self).in_bounds(r, c) ==> #[trigger] final(self).cell_at(r, c)
                    == spec_force_opened(old(self).cell_at(r, c)),
            *final(self) == (MineField {
                grid: final(self).grid,
                revealed: true,
                ..*old(self)
            }),
    {
        let ghost a = *old(self);
        proof {
            lemma_dims_fit(self.width as int, self.height as int);
        }
        let total: usize = (self.width as usize) * (self.height as usize);
        let mut p: usize = 0;
        while p < total
            invariant
                a.wf(),
                a.exploded || a.succeeded,
                p <= total,
                total == a.total(),
                *self == (MineField { grid: self.grid, ..a }),
                self.grid@.len() == a.grid@.len(),
                forall|q: int|
                    0 <= q < p ==> #[trigger] self.grid@[q] == spec_force_opened(a.grid@[q]),
                forall|q: int| p <= q < total ==> #[trigger] self.grid@[q] == a.grid@[q],
            decreases total - p,
        {
            let cellv = self.grid[p];
            let mut forced = cellv;
            forced.mark_opened(true);
            self.grid[p] = forced;
            p = p + 1;
        }
        self.revealed = true;
        proof {
            self.lemma_reveal_exit(a);
        }
    }

    /// With every cell force-opened, the state is well-formed again.
    proof fn lemma_reveal_exit(&self, a: MineField)
        requires
            a.wf(),
            a.exploded || a.succeeded,
            *self == (MineField { grid: self.grid, revealed: true, ..a }),
            self.grid@.len() == a.grid@.len(),
            forall|q: int|
                0 <= q < self.grid@.len() ==> #[trigger] self.grid@[q] == spec_force_opened(
                    a.grid@[q],
                ),
        ensures
            self.wf(),
            forall|r: int, c: int|
                self.in_bounds(r, c) ==> #[trigger] self.cell_at(r, c) == spec_force_opened(
                    a.cell_at(r, c),
                ),
    {
        let w = a.width as int;
        let h = a.height as int;
        assert forall|r: int, c: int| self.in_bounds(r, c) implies #[trigger] self.cell_at(r, c)
            == spec_force_opened(a.cell_at(r, c)) by {
            lemma_rc_index(w, h, r, c);
            assert(self.cell_at(r, c) == self.grid@[r * w + c]);
            assert(a.cell_at(r, c) == a.grid@[r * w + c]);
        }
        assert forall|p: int| 0 <= p < self.grid@.len() implies (#[trigger] self.grid@[p]).content
            == a.grid@[p].content by {}
        assert forall|r: int, c: int|
            self.in_bounds(r, c) && !(#[trigger] self.cell_at(r, c)).spec_is_mine()
            implies self.cell_at(r, c).spec_content_value() == adjacent_mines(
            self.grid@,
            w,
            h,
            r,
            c,
        ) by {
            lemma_adjacent_mines_same_content(a.grid@, self.grid@, w, h, r, c);
        }
        lemma_count_mines_same_content(a.grid@, self.grid@);
    }

    /// Valid pending work: an in-range item is no mine, lies in the
    /// requested cell's connected zero region, and is either the
    /// requested cell or touches an opened zero-content cell.
    pub open spec fn work_valid(self, a: MineField, wk: Seq<(i32, i32)>, row: u16, col: u16) -> bool {
        forall|k: int|
            0 <= k < wk.len() ==> (self.in_bounds((#[trigger] wk[k]).0 as int, wk[k].1 as int)
                ==> !self.cell_at(wk[k].0 as int, wk[k].1 as int).spec_is_mine()
                && flood_connected(a, row as int, col as int, wk[k].0 as int, wk[k].1 as int) && ((
            wk[k].0 == row as i32 && wk[k].1 == col as i32) || self.touches_open_zero(
                wk[k].0 as int,
                wk[k].1 as int,
            )))
    }

    /// Every neighbor of an opened zero-content cell is opened or still
    /// pending.
    pub open spec fn closure_pending(self, wk: Seq<(i32, i32)>) -> bool {
        forall|r: int, c: int, r2: int, c2: int|
            self.in_bounds(r, c) && self.in_bounds(r2, c2) && neighbors(r, c, r2, c2) && (
            #[trigger] self.cell_at(r, c)).opened && self.cell_at(r, c).content is Empty ==> ((
            #[trigger] self.cell_at(r2, c2)).opened || work_has(wk, r2, c2))
    }

    /// Each opened-but-not-originally-opened cell is no mine, lies in
    /// the requested cell's connected zero region, and is the
    /// requested cell or touches an opened zero-content cell.
    pub open spec fn opens_justified(self, a: MineField, row: u16, col: u16) -> bool {
        forall|r: int, c: int|
            self.in_bounds(r, c) && (#[trigger] self.cell_at(r, c)).opened && !a.cell_at(
                r,
                c,
            ).opened ==> !self.cell_at(r, c).spec_is_mine() && flood_connected(
                a,
                row as int,
                col as int,
                r,
                c,
            ) && ((r == row as int && c == col as int) || self.touches_open_zero(r, c))
    }

    /// An opened-zero witness survives any step that only opens more
    /// cells and changes no contents.
    proof fn lemma_touches_persists(self, b: MineField, r: int, c: int)
        requires
            b.touches_open_zero(r, c),
            self.width == b.width,
            self.height == b.height,
            self.grid@.len() == b.grid@.len(),
            self.grid@.len() == b.width * b.height,
            forall|p: int|
                0 <= p < self.grid@.len() ==> ((#[trigger] self.grid@[p]).content
                    == b.grid@[p].content && (b.grid@[p].opened ==> self.grid@[p].opened)),
        ensures
            self.touches_open_zero(r, c),
    {
        let (r2, c2) = choose|r2: int, c2: int|
            b.in_bounds(r2, c2) && neighbors(r, c, r2, c2) && (#[trigger] b.cell_at(
                r2,
                c2,
            )).opened && b.cell_at(r2, c2).content is Empty;
        lemma_rc_index(b.width as int, b.height as int, r2, c2);
        assert(b.cell_at(r2, c2) == b.grid@[r2 * b.width + c2]);
        assert(self.cell_at(r2, c2) == self.grid@[r2 * b.width + c2]);
        assert(self.in_bounds(r2, c2) && neighbors(r, c, r2, c2) && self.cell_at(r2, c2).opened
            && self.cell_at(r2, c2).content is Empty);
    }

    /// Popping an item that is out of range or already opened keeps
    /// every loop fact.
    proof fn lemma_skip_step(
        &self,
        a: MineField,
        s0: MineField,
        w0: Seq<(i32, i32)>,
        w1: Seq<(i32, i32)>,
        row: u16,
        col: u16,
    )
        requires
            *self == s0,
            w0.len() > 0,
            w1 == w0.subrange(0, w0.len() - 1),
            (row as int) < self.height as int,
            (col as int) < self.width as int,
            self.work_valid(a, w0, row, col),
            self.cell_at(row as int, col as int).opened || work_has(w0, row as int, col as int),
            self.closure_pending(w0),
            // the popped item was skipped: not in range, or already open
            self.in_bounds(w0.last().0 as int, w0.last().1 as int) ==> self.cell_at(
                w0.last().0 as int,
                w0.last().1 as int,
            ).opened,
        ensures
            self.work_valid(a, w1, row, col),
            self.cell_at(row as int, col as int).opened || work_has(w1, row as int, col as int),
            self.closure_pending(w1),
    {
        let it = w0.last();
        assert forall|k: int| 0 <= k < w1.len() implies w1[k] == w0[k] by {}
        if !self.cell_at(row as int, col as int).opened {
            let k = choose|k: int|
                0 <= k < w0.len() && #[trigger] w0[k] == (row as i32, col as i32);
            if k == w0.len() - 1 {
                assert(self.in_bounds(it.0 as int, it.1 as int));
                assert(false);
            } else {
                assert(w1[k] == (row as i32, col as i32));
            }
        }
        assert forall|r: int, c: int, r2: int, c2: int|
            self.in_bounds(r, c) && self.in_bounds(r2, c2) && neighbors(r, c, r2, c2) && (
            #[trigger] self.cell_at(r, c)).opened && self.cell_at(r, c).content is Empty implies ((
        #[trigger] self.cell_at(r2, c2)).opened || work_has(w1, r2, c2)) by {
            if !self.cell_at(r2, c2).opened {
                assert(work_has(w0, r2, c2));
                let k = choose|k: int|
                    0 <= k < w0.len() && #[trigger] w0[k] == (r2 as i32, c2 as i32);
                if k == w0.len() - 1 {
                    assert(self.in_bounds(it.0 as int, it.1 as int));
                    assert(false);
                } else {
                    assert(w1[k] == (r2 as i32, c2 as i32));
                }
            }
        }
    }

    /// Opening the popped cell, and queueing its neighborhood when it
    /// has no adjacent mines, re-establishes every loop fact.
    #[verifier::rlimit(100)]
    proof fn lemma_open_step(
        &self,
        a: MineField,
        s0: MineField,
        w0: Seq<(i32, i32)>,
        w1: Seq<(i32, i32)>,
        row: u16,
        col: u16,
        r: u16,
        c: u16,
        opened_cell: Cell,
        is_zero: bool,
    )
        requires
            a.wf(),
            a.started,
            !a.revealed,
            !a.succeeded,
            (row as int) < a.height as int,
            (col as int) < a.width as int,
            s0 == (MineField { grid: s0.grid, opened_count: s0.opened_count, ..a }),
            s0.opens_monotonically_from(a),
            s0.opened_count == count_opened(s0.grid@),
            s0.work_valid(a, w0, row, col),
            s0.cell_at(row as int, col as int).opened || work_has(w0, row as int, col as int),
            s0.closure_pending(w0),
            s0.opens_justified(a, row, col),
            w0.len() > 0,
            w0.last() == (r as i32, c as i32),
            (r as int) < s0.height as int,
            (c as int) < s0.width as int,
            !s0.cell_at(r as int, c as int).opened,
            opened_cell == (Cell { opened: true, ..s0.cell_at(r as int, c as int) }),
            self.grid@ == s0.grid@.update(r as int * s0.width as int + c as int, opened_cell),
            *self == (MineField { grid: self.grid, opened_count: self.opened_count, ..s0 }),
            self.opened_count == s0.opened_count + 1,
            is_zero == (s0.cell_at(r as int, c as int).content is Empty),
            is_zero ==> w1 == w0.subrange(0, w0.len() - 1).push(
                ((r - 1) as i32, (c - 1) as i32),
            ).push(((r - 1) as i32, c as i32)).push(((r - 1) as i32, (c + 1) as i32)).push(
                (r as i32, (c - 1) as i32),
            ).push((r as i32, (c + 1) as i32)).push(((r + 1) as i32, (c - 1) as i32)).push(
                ((r + 1) as i32, c as i32),
            ).push(((r + 1) as i32, (c + 1) as i32)),
            !is_zero ==> w1 == w0.subrange(0, w0.len() - 1),
        ensures
            self.opens_monotonically_from(a),
            self.opened_count == count_opened(self.grid@),
            count_opened(self.grid@) <= self.grid@.len(),
            count_opened(self.grid@) == count_opened(s0.grid@) + 1,
            self.work_valid(a, w1, row, col),
            self.cell_at(row as int, col as int).opened || work_has(w1, row as int, col as int),
            self.closure_pending(w1),
            self.opens_justified(a, row, col),
    {
        let w = s0.width as int;
        let h = s0.height as int;
        let idx = r as int * w + c as int;
        lemma_rc_index(w, h, r as int, c as int);
        lemma_count_opened_update(s0.grid@, idx, opened_cell);
        lemma_count_opened_le_len(self.grid@);
        let base = w0.len() - 1;

        // pointwise relation between the new grid and the old one
        assert(self.cell_at(r as int, c as int) == opened_cell);
        assert forall|r2: int, c2: int|
            self.in_bounds(r2, c2) && !(r2 == r as int && c2 == c as int)
            implies #[trigger] self.cell_at(r2, c2) == s0.cell_at(r2, c2) by {
            lemma_rc_index(w, h, r2, c2);
            lemma_rc_index_injective(w, h, r as int, c as int, r2, c2);
        }

        // witnesses for flood justification survive the step
        assert forall|rr: int, cc: int| s0.touches_open_zero(rr, cc)
            implies self.touches_open_zero(rr, cc) by {
            self.lemma_touches_persists(s0, rr, cc);
        }

        // the cell just opened had no adjacent mines when it is zero
        if is_zero {
            assert(a.cell_at(r as int, c as int).content == s0.cell_at(
                r as int,
                c as int,
            ).content) by {
                assert(a.cell_at(r as int, c as int) == a.grid@[idx]);
            }
            assert(adjacent_mines(a.grid@, w, h, r as int, c as int) == 0);
            lemma_adjacent_mines_same_content(a.grid@, self.grid@, w, h, r as int, c as int);
            assert(adjacent_mines(self.grid@, w, h, r as int, c as int) == 0);
        }

        // the newly opened cell justifies itself and lies in the region
        assert(!self.cell_at(r as int, c as int).spec_is_mine() && ((r == row && c == col)
            || self.touches_open_zero(r as int, c as int))) by {
            assert(s0.in_bounds(r as int, c as int));
            assert(w0[base] == (r as i32, c as i32));
        }
        assert(flood_connected(a, row as int, col as int, r as int, c as int)) by {
            assert(s0.in_bounds(r as int, c as int));
            assert(w0[base] == (r as i32, c as i32));
        }
        // the cell was closed from the start, so expansion may cross it
        assert(!a.cell_at(r as int, c as int).opened) by {
            assert(a.cell_at(r as int, c as int) == a.grid@[idx]);
            assert(s0.cell_at(r as int, c as int) == s0.grid@[idx]);
        }
        if is_zero {
            assert(a.cell_at(r as int, c as int).content is Empty) by {
                assert(a.cell_at(r as int, c as int) == a.grid@[idx]);
            }
        }

        // pending work stays valid
        assert forall|k: int| 0 <= k < w1.len() implies (self.in_bounds(
            (#[trigger] w1[k]).0 as int,
            w1[k].1 as int,
        ) ==> !self.cell_at(w1[k].0 as int, w1[k].1 as int).spec_is_mine() && flood_connected(
            a,
            row as int,
            col as int,
            w1[k].0 as int,
            w1[k].1 as int,
        ) && ((w1[k].0 == row as i32 && w1[k].1 == col as i32) || self.touches_open_zero(
            w1[k].0 as int,
            w1[k].1 as int,
        ))) by {
            if k < base {
                assert(w1[k] == w0[k]);
                if self.in_bounds(w1[k].0 as int, w1[k].1 as int) {
                    assert(self.cell_at(w1[k].0 as int, w1[k].1 as int).content == s0.cell_at(
                        w1[k].0 as int,
                        w1[k].1 as int,
                    ).content);
                }
            } else {
                // one of the eight freshly queued neighbors
                let nr = w1[k].0 as int;
                let nc = w1[k].1 as int;
                assert(is_zero);
                assert(neighbors(r as int, c as int, nr, nc));
                lemma_flood_step(a, row as int, col as int, r as int, c as int, nr, nc);
                if self.in_bounds(nr, nc) {
                    lemma_rc_index(w, h, nr, nc);
                    lemma_zero_cell_neighbor_not_mine(
                        self.grid@,
                        w,
                        h,
                        r as int,
                        c as int,
                        nr,
                        nc,
                    );
                    assert(self.cell_at(nr, nc) == self.grid@[nr * w + nc]);
                    assert(self.in_bounds(r as int, c as int) && neighbors(
                        nr,
                        nc,
                        r as int,
                        c as int,
                    ) && self.cell_at(r as int, c as int).opened && self.cell_at(
                        r as int,
                        c as int,
                    ).content is Empty);
                }
            }
        }

        // the requested cell is opened or still pending
        if !self.cell_at(row as int, col as int).opened {
            assert(!s0.cell_at(row as int, col as int).opened);
            let k = choose|k: int|
                0 <= k < w0.len() && #[trigger] w0[k] == (row as i32, col as i32);
            if k == base {
                assert(self.cell_at(row as int, col as int) == opened_cell);
                assert(false);
            } else {
                assert(w1[k] == (row as i32, col as i32));
            }
        }

        // every neighbor of an opened zero cell is opened or pending
        assert forall|r1: int, c1: int, r2: int, c2: int|
            self.in_bounds(r1, c1) && self.in_bounds(r2, c2) && neighbors(r1, c1, r2, c2) && (
            #[trigger] self.cell_at(r1, c1)).opened && self.cell_at(r1, c1).content is Empty
            implies ((#[trigger] self.cell_at(r2, c2)).opened || work_has(w1, r2, c2)) by {
            if !self.cell_at(r2, c2).opened {
                if r1 == r as int && c1 == c as int {
                    // all eight neighbors were just queued
                    assert(is_zero);
                    if r2 == r as int - 1 && c2 == c as int - 1 {
                        assert(w1[base + 0] == (r2 as i32, c2 as i32));
                    } else if r2 == r as int - 1 && c2 == c as int {
                        assert(w1[base + 1] == (r2 as i32, c2 as i32));
                    } else if r2 == r as int - 1 && c2 == c as int + 1 {
                        assert(w1[base + 2] == (r2 as i32, c2 as i32));
                    } else if r2 == r as int && c2 == c as int - 1 {
                        assert(w1[base + 3] == (r2 as i32, c2 as i32));
                    } else if r2 == r as int && c2 == c as int + 1 {
                        assert(w1[base + 4] == (r2 as i32, c2 as i32));
                    } else if r2 == r as int + 1 && c2 == c as int - 1 {
                        assert(w1[base + 5] == (r2 as i32, c2 as i32));
                    } else if r2 == r as int + 1 && c2 == c as int {
                        assert(w1[base + 6] == (r2 as i32, c2 as i32));
                    } else {
                        assert(r2 == r as int + 1 && c2 == c as int + 1);
                        assert(w1[base + 7] == (r2 as i32, c2 as i32));
                    }
                } else {
                    assert(self.cell_at(r1, c1) == s0.cell_at(r1, c1));
                    assert(s0.cell_at(r2, c2).opened || work_has(w0, r2, c2));
                    assert(!s0.cell_at(r2, c2).opened);
                    let k = choose|k: int|
                        0 <= k < w0.len() && #[trigger] w0[k] == (r2 as i32, c2 as i32);
                    if k == base {
                        assert(r2 == r as int && c2 == c as int);
                        assert(false);
                    } else {
                        assert(w1[k] == (r2 as i32, c2 as i32));
                    }
                }
            }
        }

        // every newly opened cell is justified and lies in the region
        assert forall|r1: int, c1: int|
            self.in_bounds(r1, c1) && (#[trigger] self.cell_at(r1, c1)).opened && !a.cell_at(
                r1,
                c1,
            ).opened implies !self.cell_at(r1, c1).spec_is_mine() && flood_connected(
            a,
            row as int,
            col as int,
            r1,
            c1,
        ) && ((r1 == row as int && c1 == col as int) || self.touches_open_zero(r1, c1)) by {
            if !(r1 == r as int && c1 == c as int) {
                assert(self.cell_at(r1, c1) == s0.cell_at(r1, c1));
            }
        }
    }

    /// With the work list drained, the state is well-formed again.
    proof fn lemma_open_exit(&self, a: MineField, row: u16, col: u16)
        requires
            a.wf(),
            a.started,
            !a.revealed,
            !a.succeeded,
            *self == (MineField { grid: self.grid, opened_count: self.opened_count, ..a }),
            self.opens_monotonically_from(a),
            self.opened_count == count_opened(self.grid@),
            count_opened(self.grid@) <= self.grid@.len(),
            self.zero_regions_closed(),
            self.opens_justified(a, row, col),
        ensures
            self.wf(),
    {
        let w = a.width as int;
        let h = a.height as int;
        assert forall|r: int, c: int| self.in_bounds(r, c) implies (#[trigger] self.cell_at(
            r,
            c,
        )).content == a.cell_at(r, c).content && self.cell_at(r, c).force_open_at_ending
            == a.cell_at(r, c).force_open_at_ending && self.cell_at(r, c).flagged == a.cell_at(
            r,
            c,
        ).flagged && self.cell_at(r, c).questioned == a.cell_at(r, c).questioned && (a.cell_at(
            r,
            c,
        ).opened ==> self.cell_at(r, c).opened) by {
            lemma_rc_index(w, h, r, c);
            assert(self.cell_at(r, c) == self.grid@[r * w + c]);
            assert(a.cell_at(r, c) == a.grid@[r * w + c]);
        }
        assert forall|r: int, c: int|
            self.in_bounds(r, c) && !(#[trigger] self.cell_at(r, c)).spec_is_mine()
            implies self.cell_at(r, c).spec_content_value() == adjacent_mines(
            self.grid@,
            w,
            h,
            r,
            c,
        ) by {
            lemma_adjacent_mines_same_content(a.grid@, self.grid@, w, h, r, c);
        }
        lemma_count_mines_same_content(a.grid@, self.grid@);
    }
}

} // verus!
