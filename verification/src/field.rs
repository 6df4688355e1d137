use vstd::prelude::*;

use crate::cell::Cell;
use crate::cell::Content;

verus! {

/// Ticks that make one full blink cycle of the cursor glyph.
pub const DEFAULT_BLINK_PERIOD: u16 = 80;

/// Milliseconds the caller should wait for input before delivering one
/// tick pulse. The engine itself never blocks; this is only the cadence
/// it asks of its driver.
pub const DEFAULT_IDLE_TIMEOUT_MS: u64 = 10;

/// Number of opened cells in a row-major grid.
pub open spec fn count_opened(s: Seq<Cell>) -> int
    decreases s.len(),
{
    if s.len() == 0 {
        0
    } else {
        count_opened(s.drop_last()) + if s.last().opened {
            1int
        } else {
            0int
        }
    }
}

/// Number of mine cells in a row-major grid.
pub open spec fn count_mines(s: Seq<Cell>) -> int
    decreases s.len(),
{
    if s.len() == 0 {
        0
    } else {
        count_mines(s.drop_last()) + if s.last().content is Mine {
            1int
        } else {
            0int
        }
    }
}

/// `1` when position `(r, c)` is on the grid and holds a mine, else `0`.
/// Out-of-range positions count as no mine: the grid has hard edges, no
/// wraparound.
pub open spec fn mine_at(grid: Seq<Cell>, w: int, h: int, r: int, c: int) -> int {
    if 0 <= r < h && 0 <= c < w && grid[r * w + c].content is Mine {
        1
    } else {
        0
    }
}

/// Number of mines among the up-to-8 neighbors of `(r, c)`, clamped at
/// the grid edges.
pub open spec fn adjacent_mines(grid: Seq<Cell>, w: int, h: int, r: int, c: int) -> int {
    mine_at(grid, w, h, r - 1, c - 1) + mine_at(grid, w, h, r - 1, c) + mine_at(
        grid,
        w,
        h,
        r - 1,
        c + 1,
    ) + mine_at(grid, w, h, r, c - 1) + mine_at(grid, w, h, r, c + 1) + mine_at(
        grid,
        w,
        h,
        r + 1,
        c - 1,
    ) + mine_at(grid, w, h, r + 1, c) + mine_at(grid, w, h, r + 1, c + 1)
}

/// The two positions are distinct and touch, row and column each
/// differing by at most one.
pub open spec fn neighbors(r1: int, c1: int, r2: int, c2: int) -> bool {
    &&& !(r1 == r2 && c1 == c2)
    &&& -1 <= r1 - r2 <= 1
    &&& -1 <= c1 - c2 <= 1
}

/// The mine-sweeping engine: grid, mine placement, flood-fill reveal,
/// win/loss flags, cursor, and the blink clock. All fields are plain
/// values; the caller drives the engine one decoded action or tick at a
/// time.
pub struct MineField {
    /// grid width, fixed for the field's lifetime
    pub width: u16,
    /// grid height, fixed for the field's lifetime
    pub height: u16,
    /// target number of mines; `>= width*height` makes every cell a mine
    pub mine_count: u16,
    /// `width*height` cells, row-major
    pub grid: Vec<Cell>,
    /// cells opened during play; the end-of-game reveal does not touch it
    pub opened_count: usize,
    /// the player opened a mine: terminal loss
    pub exploded: bool,
    /// every non-mine cell is open: terminal win
    pub succeeded: bool,
    /// mines have been placed (happens at the first activation)
    pub started: bool,
    /// the end-of-game reveal has run
    pub revealed: bool,
    /// cursor row, always in bounds
    pub cursor_row: u16,
    /// cursor column, always in bounds
    pub cursor_col: u16,
    /// cadence the caller should deliver ticks at, in milliseconds
    pub idle_timeout_ms: u64,
    /// ticks per full blink cycle
    pub blink_period: u16,
    /// ticks since the last reset, wraps to 0 at `blink_period`
    pub tick_count: u16,
}

impl MineField {
    pub open spec fn total(self) -> int {
        self.width * self.height
    }

    pub open spec fn in_bounds(self, r: int, c: int) -> bool {
        0 <= r < self.height && 0 <= c < self.width
    }

    pub open spec fn cell_at(self, r: int, c: int) -> Cell {
        self.grid@[r * self.width + c]
    }

    /// Number of mines the grid must hold: none before placement; after
    /// placement the full target, capped by the cell count.
    pub open spec fn placed_mines(self) -> int {
        if !self.started {
            0
        } else if self.mine_count >= self.total() {
            self.total()
        } else {
            self.mine_count as int
        }
    }

    /// The cursor's position in the row-major grid.
    pub open spec fn spec_cursor_index(self) -> usize {
        (self.cursor_row * self.width + self.cursor_col) as usize
    }

    /// Whether the blink phase currently shows the overlay glyph.
    pub open spec fn spec_blink_on(self) -> bool {
        self.tick_count < self.blink_period / 2
    }

    /// Every opened zero-content cell has all its neighbors opened:
    /// the state the flood fill leaves behind, and keeps.
    pub open spec fn zero_regions_closed(self) -> bool {
        forall|r: int, c: int, r2: int, c2: int|
            self.in_bounds(r, c) && self.in_bounds(r2, c2) && neighbors(r, c, r2, c2) && (
            #[trigger] self.cell_at(r, c)).opened && self.cell_at(r, c).content is Empty ==> (
            #[trigger] self.cell_at(r2, c2)).opened
    }

    /// The engine's invariant: every operation requires and preserves it.
    pub open spec fn wf(self) -> bool {
        &&& 1 <= self.width
        &&& 1 <= self.height
        &&& self.grid@.len() == self.total()
        &&& (self.cursor_row as int) < self.height as int
        &&& (self.cursor_col as int) < self.width as int
        // cells are valid and reserved flags stay clear
        &&& forall|r: int, c: int|
            self.in_bounds(r, c) ==> (#[trigger] self.cell_at(r, c)).wf()
                && !self.cell_at(r, c).flagged && !self.cell_at(r, c).questioned
        // a non-mine cell's content is the exact count of its mine
        // neighbors, computed once at placement and never recomputed
        &&& forall|r: int, c: int|
            self.in_bounds(r, c) && !(#[trigger] self.cell_at(r, c)).spec_is_mine()
                ==> self.cell_at(r, c).spec_content_value() == adjacent_mines(
                self.grid@,
                self.width as int,
                self.height as int,
                r,
                c,
            )
        &&& count_mines(self.grid@) == self.placed_mines()
        // before the first activation nothing is open and no outcome is set
        &&& !self.started ==> count_opened(self.grid@) == 0 && self.opened_count == 0
            && !self.exploded && !self.succeeded && !self.revealed
        // during play the counter matches the grid, force-open bits are
        // clear, and no mine is open
        &&& !self.revealed ==> self.opened_count == count_opened(self.grid@)
        &&& !self.revealed ==> forall|r: int, c: int|
            self.in_bounds(r, c) ==> !(#[trigger] self.cell_at(r, c)).force_open_at_ending
        &&& !self.revealed ==> forall|r: int, c: int|
            self.in_bounds(r, c) && (#[trigger] self.cell_at(r, c)).opened ==> !self.cell_at(
                r,
                c,
            ).spec_is_mine()
        // the reveal is reachable only from a terminal outcome and opens
        // everything
        &&& self.revealed ==> (self.exploded || self.succeeded) && forall|r: int, c: int|
            self.in_bounds(r, c) ==> (#[trigger] self.cell_at(r, c)).opened
        &&& (self.exploded || self.succeeded) ==> self.started
        &&& !(self.exploded && self.succeeded)
        &&& self.succeeded ==> self.opened_count + self.mine_count == self.total()
        &&& self.opened_count <= self.total()
        &&& self.zero_regions_closed()
        &&& self.tick_count < self.blink_period || self.tick_count == 0
    }

    /// A fresh field: all cells closed and empty, mines not yet placed,
    /// cursor at the origin, blink clock at rest.
    pub fn new(width: u16, height: u16, mine_count: u16) -> (f: MineField)
        requires
            1 <= width,
            1 <= height,
        ensures
            f.wf(),
            f.width == width,
            f.height == height,
            f.mine_count == mine_count,
            !f.started,
            !f.exploded,
            !f.succeeded,
            !f.revealed,
            f.opened_count == 0,
            f.cursor_row == 0,
            f.cursor_col == 0,
            f.tick_count == 0,
            f.blink_period == DEFAULT_BLINK_PERIOD,
            f.idle_timeout_ms == DEFAULT_IDLE_TIMEOUT_MS,
            forall|r: int, c: int|
                f.in_bounds(r, c) ==> #[trigger] f.cell_at(r, c) == Cell::spec_closed(
                    Content::Empty,
                ),
    {
        proof {
            lemma_dims_fit(width as int, height as int);
        }
        let total: usize = (width as usize) * (height as usize);
        let mut grid: Vec<Cell> = Vec::new();
        let mut i: usize = 0;
        while i < total
            invariant
                i <= total,
                grid@.len() == i,
                forall|p: int|
                    0 <= p < i ==> grid@[p] == Cell::spec_closed(Content::Empty),
            decreases total - i,
        {
            grid.push(Cell::closed_empty());
            i = i + 1;
        }
        let f = MineField {
            width,
            height,
            mine_count,
            grid,
            opened_count: 0,
            exploded: false,
            succeeded: false,
            started: false,
            revealed: false,
            cursor_row: 0,
            cursor_col: 0,
            idle_timeout_ms: DEFAULT_IDLE_TIMEOUT_MS,
            blink_period: DEFAULT_BLINK_PERIOD,
            tick_count: 0,
        };
        proof {
            assert forall|r: int, c: int| f.in_bounds(r, c) implies #[trigger] f.cell_at(r, c)
                == Cell::spec_closed(Content::Empty) by {
                lemma_rc_index(width as int, height as int, r, c);
            }
            assert forall|r: int, c: int|
                f.in_bounds(r, c) && !(#[trigger] f.cell_at(r, c)).spec_is_mine()
                implies f.cell_at(r, c).spec_content_value() == adjacent_mines(
                f.grid@,
                width as int,
                height as int,
                r,
                c,
            ) by {
                lemma_no_mines_no_neighbors(f.grid@, width as int, height as int, r, c);
            }
            lemma_count_opened_all_closed(f.grid@);
            lemma_count_mines_none(f.grid@);
        }
        f
    }

    /// The cell at `(r, c)`.
    pub fn get_cell(&self, r: u16, c: u16) -> (cell: Cell)
        requires
            self.grid@.len() == self.total(),
            1 <= self.width,
            (r as int) < self.height as int,
            (c as int) < self.width as int,
        ensures
            cell == self.cell_at(r as int, c as int),
    {
        proof {
            lemma_dims_fit(self.width as int, self.height as int);
            lemma_rc_index(self.width as int, self.height as int, r as int, c as int);
        }
        self.grid[(r as usize) * (self.width as usize) + (c as usize)]
    }

    /// Replace the cell at `(r, c)`, leaving every other cell and every
    /// other field as it was.
    pub(crate) fn set_cell(&mut self, r: u16, c: u16, v: Cell)
        requires
            old(self).grid@.len() == old(self).total(),
            1 <= old(self).width,
            (r as int) < old(self).height as int,
            (c as int) < old(self).width as int,
        ensures
            final(self).grid@ == old(self).grid@.update(
                r as int * old(self).width as int + c as int,
                v,
            ),
            final(self).grid@.len() == old(self).grid@.len(),
            final(self).cell_at(r as int, c as int) == v,
            forall|r2: int, c2: int|
                final(self).in_bounds(r2, c2) && !(r2 == r as int && c2 == c as int)
                    ==> #[trigger] final(self).cell_at(r2, c2) == old(self).cell_at(r2, c2),
            *final(self) == (MineField { grid: final(self).grid, ..*old(self) }),
    {
        proof {
            lemma_dims_fit(self.width as int, self.height as int);
            lemma_rc_index(self.width as int, self.height as int, r as int, c as int);
        }
        let i: usize = (r as usize) * (self.width as usize) + (c as usize);
        self.grid[i] = v;
        proof {
            assert forall|r2: int, c2: int|
                final(self).in_bounds(r2, c2) && !(r2 == r as int && c2 == c as int)
                implies #[trigger] final(self).cell_at(r2, c2) == old(self).cell_at(r2, c2) by {
                lemma_rc_index(self.width as int, self.height as int, r2, c2);
                lemma_rc_index_injective(
                    self.width as int,
                    self.height as int,
                    r as int,
                    c as int,
                    r2,
                    c2,
                );
            }
        }
    }

    /// Move the cursor one row up; at the top edge this is a no-op, not
    /// a wraparound.
    pub fn up(&mut self)
        requires
            old(self).wf(),
        ensures
            final(self).wf(),
            old(self).cursor_row > 0 ==> *final(self) == (MineField {
                cursor_row: (old(self).cursor_row - 1) as u16,
                ..*old(self)
            }),
            old(self).cursor_row == 0 ==> *final(self) == *old(self),
    {
        if self.cursor_row > 0 {
            self.cursor_row = self.cursor_row - 1;
        }
        proof {
            lemma_wf_cursor_clock(*old(self), *self);
        }
    }

    /// Move the cursor one row down, clamped at the bottom edge.
    pub fn down(&mut self)
        requires
            old(self).wf(),
        ensures
            final(self).wf(),
            (old(self).cursor_row as int) < old(self).height - 1 ==> *final(self) == (MineField {
                cursor_row: (old(self).cursor_row + 1) as u16,
                ..*old(self)
            }),
            (old(self).cursor_row as int) >= old(self).height - 1 ==> *final(self) == *old(self),
    {
        if self.cursor_row < self.height - 1 {
            self.cursor_row = self.cursor_row + 1;
        }
        proof {
            lemma_wf_cursor_clock(*old(self), *self);
        }
    }

    /// Move the cursor one column left, clamped at the edge.
    pub fn left(&mut self)
        requires
            old(self).wf(),
        ensures
            final(self).wf(),
            old(self).cursor_col > 0 ==> *final(self) == (MineField {
                cursor_col: (old(self).cursor_col - 1) as u16,
                ..*old(self)
            }),
            old(self).cursor_col == 0 ==> *final(self) == *old(self),
    {
        if self.cursor_col > 0 {
            self.cursor_col = self.cursor_col - 1;
        }
        proof {
            lemma_wf_cursor_clock(*old(self), *self);
        }
    }

    /// Move the cursor one column right, clamped at the edge.
    pub fn right(&mut self)
        requires
            old(self).wf(),
        ensures
            final(self).wf(),
            (old(self).cursor_col as int) < old(self).width - 1 ==> *final(self) == (MineField {
                cursor_col: (old(self).cursor_col + 1) as u16,
                ..*old(self)
            }),
            (old(self).cursor_col as int) >= old(self).width - 1 ==> *final(self) == *old(self),
    {
        if self.cursor_col < self.width - 1 {
            self.cursor_col = self.cursor_col + 1;
        }
        proof {
            lemma_wf_cursor_clock(*old(self), *self);
        }
    }

    /// Reposition the cursor from pointer coordinates (`x` column, `y`
    /// row, the same coordinate system the renderer draws in). Returns
    /// whether the cursor actually changed cell; out-of-range
    /// coordinates are rejected and change nothing.
    pub fn update_by_pointer(&mut self, x: u16, y: u16) -> (moved: bool)
        requires
            old(self).wf(),
        ensures
            final(self).wf(),
            moved == ((x as int) < old(self).width as int && (y as int) < old(self).height as int
                && !(x == old(self).cursor_col && y == old(self).cursor_row)),
            moved ==> *final(self) == (MineField {
                cursor_col: x,
                cursor_row: y,
                ..*old(self)
            }),
            !moved ==> *final(self) == *old(self),
    {
        let moved = if x < self.width && y < self.height && !(x == self.cursor_col && y
            == self.cursor_row) {
            self.cursor_col = x;
            self.cursor_row = y;
            true
        } else {
            false
        };
        proof {
            lemma_wf_cursor_clock(*old(self), *self);
        }
        moved
    }

    /// One idle pulse of the blink clock. At exactly half of
    /// `blink_period` it signals a redraw without resetting the counter;
    /// at `blink_period` or beyond it resets the counter to 0 and
    /// signals a redraw; otherwise it signals nothing.
    pub fn tick(&mut self) -> (redraw: bool)
        requires
            old(self).wf(),
        ensures
            final(self).wf(),
            redraw == (old(self).tick_count + 1 == old(self).blink_period / 2 || old(
                self,
            ).tick_count + 1 >= old(self).blink_period),
            old(self).tick_count + 1 == old(self).blink_period / 2 ==> final(self).tick_count
                == old(self).tick_count + 1,
            old(self).tick_count + 1 != old(self).blink_period / 2 && old(self).tick_count + 1
                >= old(self).blink_period ==> final(self).tick_count == 0,
            old(self).tick_count + 1 != old(self).blink_period / 2 && old(self).tick_count + 1
                < old(self).blink_period ==> final(self).tick_count == old(self).tick_count + 1,
            *final(self) == (MineField { tick_count: final(self).tick_count, ..*old(self) }),
    {
        self.tick_count = self.tick_count + 1;
        let redraw = if self.tick_count == self.blink_period / 2 {
            true
        } else if self.tick_count >= self.blink_period {
            self.tick_count = 0;
            true
        } else {
            false
        };
        proof {
            lemma_wf_cursor_clock(*old(self), *self);
        }
        redraw
    }

    /// Restart the blink phase: called by the driver after any input
    /// that changed state, so the blink stays synchronized to "idle
    /// since last input". The caller redraws immediately afterwards.
    pub fn reset_tick(&mut self)
        requires
            old(self).wf(),
        ensures
            final(self).wf(),
            *final(self) == (MineField { tick_count: 0, ..*old(self) }),
    {
        self.tick_count = 0;
        proof {
            lemma_wf_cursor_clock(*old(self), *self);
        }
    }

    /// The game has reached a terminal outcome: loss or win.
    pub fn is_end(&self) -> (r: bool)
        ensures
            r == (self.exploded || self.succeeded),
    {
        self.exploded || self.succeeded
    }
}

/// `width * height` fits in `usize`, whatever the platform.
pub proof fn lemma_dims_fit(w: int, h: int) by (nonlinear_arith)
    requires
        0 <= w <= u16::MAX,
        0 <= h <= u16::MAX,
    ensures
        w * h <= u16::MAX * u16::MAX < usize::MAX,
{
}

/// Row-major position of an in-bounds `(r, c)` lies inside the grid.
pub proof fn lemma_rc_index(w: int, h: int, r: int, c: int) by (nonlinear_arith)
    requires
        0 <= r < h,
        0 <= c < w,
    ensures
        0 <= r * w + c < w * h,
{
}

/// Distinct in-bounds coordinates have distinct row-major positions.
pub proof fn lemma_rc_index_injective(w: int, h: int, r1: int, c1: int, r2: int, c2: int) by (nonlinear_arith)
    requires
        0 <= r1 < h,
        0 <= c1 < w,
        0 <= r2 < h,
        0 <= c2 < w,
        !(r1 == r2 && c1 == c2),
    ensures
        r1 * w + c1 != r2 * w + c2,
{
}

/// In a grid without mines every adjacency count is zero.
pub proof fn lemma_no_mines_no_neighbors(grid: Seq<Cell>, w: int, h: int, r: int, c: int)
    requires
        grid.len() == w * h,
        forall|p: int| 0 <= p < grid.len() ==> !((#[trigger] grid[p]).content is Mine),
    ensures
        adjacent_mines(grid, w, h, r, c) == 0,
{
    assert forall|r2: int, c2: int| #[trigger] mine_at(grid, w, h, r2, c2) == 0 by {
        if 0 <= r2 < h && 0 <= c2 < w {
            lemma_rc_index(w, h, r2, c2);
            assert(!(grid[r2 * w + c2].content is Mine));
        }
    }
}

/// A state that differs from a well-formed one only in cursor position
/// and blink clock is well-formed again, provided those stay in range.
pub proof fn lemma_wf_cursor_clock(a: MineField, b: MineField)
    requires
        a.wf(),
        b.grid@ == a.grid@,
        b.width == a.width,
        b.height == a.height,
        b.mine_count == a.mine_count,
        b.opened_count == a.opened_count,
        b.exploded == a.exploded,
        b.succeeded == a.succeeded,
        b.started == a.started,
        b.revealed == a.revealed,
        (b.cursor_row as int) < b.height as int,
        (b.cursor_col as int) < b.width as int,
        b.tick_count < b.blink_period || b.tick_count == 0,
    ensures
        b.wf(),
{
    assert forall|r: int, c: int| b.in_bounds(r, c) implies #[trigger] b.cell_at(r, c)
        == a.cell_at(r, c) by {
        assert(b.grid@[r * b.width + c] == a.grid@[r * a.width + c]);
    }
    assert forall|r: int, c: int| a.in_bounds(r, c) implies #[trigger] a.cell_at(r, c)
        == b.cell_at(r, c) by {
        assert(b.grid@[r * b.width + c] == a.grid@[r * a.width + c]);
    }
}

/// A grid whose cells are all closed has zero opened count.
pub proof fn lemma_count_opened_all_closed(s: Seq<Cell>)
    requires
        forall|p: int| 0 <= p < s.len() ==> !(#[trigger] s[p]).opened,
    ensures
        count_opened(s) == 0,
    decreases s.len(),
{
    if s.len() > 0 {
        lemma_count_opened_all_closed(s.drop_last());
    }
}

/// A grid without mine cells has zero mine count.
pub proof fn lemma_count_mines_none(s: Seq<Cell>)
    requires
        forall|p: int| 0 <= p < s.len() ==> !((#[trigger] s[p]).content is Mine),
    ensures
        count_mines(s) == 0,
    decreases s.len(),
{
    if s.len() > 0 {
        lemma_count_mines_none(s.drop_last());
    }
}

/// Replacing one cell changes the opened count by the difference the
/// two cells contribute.
pub proof fn lemma_count_opened_update(s: Seq<Cell>, i: int, v: Cell)
    requires
        0 <= i < s.len(),
    ensures
        count_opened(s.update(i, v)) == count_opened(s) - (if s[i].opened {
            1int
        } else {
            0int
        }) + (if v.opened {
            1int
        } else {
            0int
        }),
    decreases s.len(),
{
    let t = s.update(i, v);
    if i == s.len() - 1 {
        assert(t.drop_last() =~= s.drop_last());
    } else {
        assert(t.drop_last() =~= s.drop_last().update(i, v));
        lemma_count_opened_update(s.drop_last(), i, v);
    }
}

/// Replacing one cell changes the mine count by the difference the two
/// cells contribute.
pub proof fn lemma_count_mines_update(s: Seq<Cell>, i: int, v: Cell)
    requires
        0 <= i < s.len(),
    ensures
        count_mines(s.update(i, v)) == count_mines(s) - (if s[i].content is Mine {
            1int
        } else {
            0int
        }) + (if v.content is Mine {
            1int
        } else {
            0int
        }),
    decreases s.len(),
{
    let t = s.update(i, v);
    if i == s.len() - 1 {
        assert(t.drop_last() =~= s.drop_last());
    } else {
        assert(t.drop_last() =~= s.drop_last().update(i, v));
        lemma_count_mines_update(s.drop_last(), i, v);
    }
}

/// A grid with zero opened count has every cell closed.
pub proof fn lemma_count_opened_zero_pointwise(s: Seq<Cell>)
    requires
        count_opened(s) == 0,
    ensures
        forall|p: int| 0 <= p < s.len() ==> !(#[trigger] s[p]).opened,
    decreases s.len(),
{
    if s.len() > 0 {
        lemma_count_opened_le_len(s.drop_last());
        lemma_count_opened_zero_pointwise(s.drop_last());
        assert forall|p: int| 0 <= p < s.len() implies !(#[trigger] s[p]).opened by {
            if p < s.len() - 1 {
                assert(s.drop_last()[p] == s[p]);
            }
        }
    }
}

/// A grid with zero mine count has no mine cell.
pub proof fn lemma_count_mines_zero_pointwise(s: Seq<Cell>)
    requires
        count_mines(s) == 0,
    ensures
        forall|p: int| 0 <= p < s.len() ==> !((#[trigger] s[p]).content is Mine),
    decreases s.len(),
{
    if s.len() > 0 {
        lemma_count_mines_le_len(s.drop_last());
        lemma_count_mines_zero_pointwise(s.drop_last());
        assert forall|p: int| 0 <= p < s.len() implies !((#[trigger] s[p]).content is Mine) by {
            if p < s.len() - 1 {
                assert(s.drop_last()[p] == s[p]);
            }
        }
    }
}

/// The row and column a flat row-major position decodes to.
pub proof fn lemma_flat_coords(w: int, h: int, q: int)
    requires
        1 <= w,
        0 <= q < w * h,
    ensures
        0 <= q / w < h,
        0 <= q % w < w,
        (q / w) * w + (q % w) == q,
{
    vstd::arithmetic::div_mod::lemma_fundamental_div_mod(q, w);
    vstd::arithmetic::div_mod::lemma_mod_bound(q, w);
    vstd::arithmetic::div_mod::lemma_div_pos_is_pos(q, w);
    vstd::arithmetic::mul::lemma_mul_is_commutative(w, q / w);
    if q / w >= h {
        vstd::arithmetic::mul::lemma_mul_inequality(h, q / w, w);
        vstd::arithmetic::mul::lemma_mul_is_commutative(w, h);
        assert(false);
    }
}

/// Decoding a row-major position built from `(r, c)` gives `(r, c)`
/// back.
pub proof fn lemma_rc_roundtrip(w: int, r: int, c: int)
    requires
        1 <= w,
        0 <= r,
        0 <= c < w,
    ensures
        (r * w + c) / w == r,
        (r * w + c) % w == c,
{
    vstd::arithmetic::div_mod::lemma_fundamental_div_mod_converse_div(r * w + c, w, r, c);
    vstd::arithmetic::div_mod::lemma_fundamental_div_mod_converse_mod(r * w + c, w, r, c);
}

/// The mine count depends only on which cells hold mines.
pub proof fn lemma_count_mines_same_mines(g1: Seq<Cell>, g2: Seq<Cell>)
    requires
        g1.len() == g2.len(),
        forall|p: int|
            0 <= p < g1.len() ==> (((#[trigger] g2[p]).content is Mine) == (g1[p].content
                is Mine)),
    ensures
        count_mines(g2) == count_mines(g1),
    decreases g1.len(),
{
    if g1.len() > 0 {
        assert forall|p: int| 0 <= p < g1.len() - 1 implies (((#[trigger] g2.drop_last()[p]).content
            is Mine) == (g1.drop_last()[p].content is Mine)) by {
            assert(g2.drop_last()[p] == g2[p]);
            assert(g1.drop_last()[p] == g1[p]);
        }
        lemma_count_mines_same_mines(g1.drop_last(), g2.drop_last());
        assert((g2.last().content is Mine) == (g1.last().content is Mine));
    }
}

/// Setting an outcome flag on a well-formed state keeps it well-formed,
/// provided the flags stay consistent with the counters.
pub proof fn lemma_wf_outcome(a: MineField, b: MineField)
    requires
        a.wf(),
        b.grid == a.grid,
        b == (MineField { grid: b.grid, exploded: b.exploded, succeeded: b.succeeded, ..a }),
        b.started,
        !(b.exploded && b.succeeded),
        !b.revealed,
        b.succeeded ==> b.opened_count + b.mine_count == b.total(),
    ensures
        b.wf(),
{
    assert forall|r: int, c: int| b.in_bounds(r, c) implies #[trigger] b.cell_at(r, c)
        == a.cell_at(r, c) by {
        assert(b.grid@[r * b.width + c] == a.grid@[r * a.width + c]);
    }
    assert forall|r: int, c: int| a.in_bounds(r, c) implies #[trigger] a.cell_at(r, c)
        == b.cell_at(r, c) by {
        assert(b.grid@[r * b.width + c] == a.grid@[r * a.width + c]);
    }
}

/// Adjacency counts depend only on which cells hold mines.
pub proof fn lemma_adjacent_mines_same_mines(
    g1: Seq<Cell>,
    g2: Seq<Cell>,
    w: int,
    h: int,
    r: int,
    c: int,
)
    requires
        g1.len() == w * h,
        g2.len() == g1.len(),
        forall|p: int|
            0 <= p < g1.len() ==> (((#[trigger] g2[p]).content is Mine) == (g1[p].content
                is Mine)),
    ensures
        adjacent_mines(g2, w, h, r, c) == adjacent_mines(g1, w, h, r, c),
{
    assert forall|r2: int, c2: int| #[trigger] mine_at(g2, w, h, r2, c2) == mine_at(
        g1,
        w,
        h,
        r2,
        c2,
    ) by {
        if 0 <= r2 < h && 0 <= c2 < w {
            lemma_rc_index(w, h, r2, c2);
            assert((g2[r2 * w + c2].content is Mine) == (g1[r2 * w + c2].content is Mine));
        }
    }
}

/// Before the first activation every cell is closed and empty.
pub proof fn lemma_fresh_cells(a: MineField)
    requires
        a.wf(),
        !a.started,
    ensures
        forall|q: int|
            0 <= q < a.grid@.len() ==> #[trigger] a.grid@[q] == Cell::spec_closed(Content::Empty),
{
    lemma_count_mines_zero_pointwise(a.grid@);
    lemma_count_opened_zero_pointwise(a.grid@);
    let w = a.width as int;
    let h = a.height as int;
    assert forall|q: int| 0 <= q < a.grid@.len() implies #[trigger] a.grid@[q]
        == Cell::spec_closed(Content::Empty) by {
        lemma_flat_coords(w, h, q);
        let r = q / w;
        let c = q % w;
        assert(a.cell_at(r, c) == a.grid@[r * w + c]);
        assert(r * w + c == q);
        lemma_no_mines_no_neighbors(a.grid@, w, h, r, c);
    }
}

/// Adjacency counts depend only on cell contents, not on status flags.
pub proof fn lemma_adjacent_mines_same_content(
    g1: Seq<Cell>,
    g2: Seq<Cell>,
    w: int,
    h: int,
    r: int,
    c: int,
)
    requires
        g1.len() == w * h,
        g2.len() == g1.len(),
        forall|p: int| 0 <= p < g1.len() ==> (#[trigger] g2[p]).content == g1[p].content,
    ensures
        adjacent_mines(g2, w, h, r, c) == adjacent_mines(g1, w, h, r, c),
{
    assert forall|r2: int, c2: int| #[trigger] mine_at(g2, w, h, r2, c2) == mine_at(
        g1,
        w,
        h,
        r2,
        c2,
    ) by {
        if 0 <= r2 < h && 0 <= c2 < w {
            lemma_rc_index(w, h, r2, c2);
            assert(g2[r2 * w + c2].content == g1[r2 * w + c2].content);
        }
    }
}

/// The mine count depends only on cell contents, not on status flags.
pub proof fn lemma_count_mines_same_content(g1: Seq<Cell>, g2: Seq<Cell>)
    requires
        g1.len() == g2.len(),
        forall|p: int| 0 <= p < g1.len() ==> (#[trigger] g2[p]).content == g1[p].content,
    ensures
        count_mines(g2) == count_mines(g1),
    decreases g1.len(),
{
    if g1.len() > 0 {
        assert forall|p: int| 0 <= p < g1.len() - 1 implies (#[trigger] g2.drop_last()[p]).content
            == g1.drop_last()[p].content by {
            assert(g2.drop_last()[p] == g2[p]);
            assert(g1.drop_last()[p] == g1[p]);
        }
        lemma_count_mines_same_content(g1.drop_last(), g2.drop_last());
        assert(g2.last().content == g1.last().content);
    }
}

/// A neighbor of a cell with no adjacent mines is itself no mine.
pub proof fn lemma_zero_cell_neighbor_not_mine(
    g: Seq<Cell>,
    w: int,
    h: int,
    r: int,
    c: int,
    r2: int,
    c2: int,
)
    requires
        g.len() == w * h,
        0 <= r < h,
        0 <= c < w,
        adjacent_mines(g, w, h, r, c) == 0,
        0 <= r2 < h,
        0 <= c2 < w,
        neighbors(r, c, r2, c2),
    ensures
        !(g[r2 * w + c2].content is Mine),
{
    lemma_rc_index(w, h, r2, c2);
    assert(mine_at(g, w, h, r - 1, c - 1) >= 0);
    assert(mine_at(g, w, h, r - 1, c) >= 0);
    assert(mine_at(g, w, h, r - 1, c + 1) >= 0);
    assert(mine_at(g, w, h, r, c - 1) >= 0);
    assert(mine_at(g, w, h, r, c + 1) >= 0);
    assert(mine_at(g, w, h, r + 1, c - 1) >= 0);
    assert(mine_at(g, w, h, r + 1, c) >= 0);
    assert(mine_at(g, w, h, r + 1, c + 1) >= 0);
    assert(mine_at(g, w, h, r2, c2) == 0);
}

/// The opened count never exceeds the number of cells.
pub proof fn lemma_count_opened_le_len(s: Seq<Cell>)
    ensures
        0 <= count_opened(s) <= s.len(),
    decreases s.len(),
{
    if s.len() > 0 {
        lemma_count_opened_le_len(s.drop_last());
    }
}

/// The mine count never exceeds the number of cells.
pub proof fn lemma_count_mines_le_len(s: Seq<Cell>)
    ensures
        0 <= count_mines(s) <= s.len(),
    decreases s.len(),
{
    if s.len() > 0 {
        lemma_count_mines_le_len(s.drop_last());
    }
}

} // verus!
