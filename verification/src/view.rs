use vstd::prelude::*;

use crate::cell::Cell;
use crate::cell::Content;
use crate::field::MineField;

verus! {

/// The glyph a count of adjacent mines renders as.
pub open spec fn spec_count_glyph(n: u8) -> char {
    if n == 1 {
        '1'
    } else if n == 2 {
        '2'
    } else if n == 3 {
        '3'
    } else if n == 4 {
        '4'
    } else if n == 5 {
        '5'
    } else if n == 6 {
        '6'
    } else if n == 7 {
        '7'
    } else {
        '8'
    }
}

/// The glyph a cell renders as on its own: `'L'` while closed, `'_'`
/// for an opened empty cell, the digit for an opened count, `'@'` for
/// a revealed mine.
pub open spec fn spec_base_glyph(cell: Cell) -> char {
    if !cell.opened {
        'L'
    } else {
        match cell.content {
            Content::Empty => '_',
            Content::Count(n) => spec_count_glyph(n),
            Content::Mine => '@',
        }
    }
}

/// The palette slots a cell's colors come from: one pair for
/// end-of-game reveals, one for player-opened cells, one for closed
/// cells. Purely cosmetic; the slots index the palette the caller
/// registered with its renderer.
pub open spec fn spec_cell_colors(cell: Cell) -> (u16, u16) {
    if cell.force_open_at_ending {
        (4u16, 5u16)
    } else if cell.opened {
        (2u16, 3u16)
    } else {
        (0u16, 1u16)
    }
}

impl MineField {
    /// What the cell at `(r, c)` shows: its glyph and the background
    /// and foreground palette slots. The focused cell alternates, every
    /// half blink cycle, between its own glyph and an overlay — `'*'`
    /// over the fatal mine once the game exploded, else `'@'` as the
    /// aim point; after a win the overlay is suppressed and the true
    /// glyph shows even under the cursor.
    pub open spec fn spec_cell_view(self, r: int, c: int) -> (char, u16, u16) {
        let cell = self.cell_at(r, c);
        let base = spec_base_glyph(cell);
        let is_cursor = r == self.cursor_row as int && c == self.cursor_col as int;
        let glyph = if !is_cursor || self.succeeded {
            base
        } else if self.exploded && cell.content is Mine {
            '*'
        } else if self.spec_blink_on() {
            '@'
        } else {
            base
        };
        (glyph, spec_cell_colors(cell).0, spec_cell_colors(cell).1)
    }

    /// Pure render query: the glyph and color pair for one cell, as a
    /// function of the cell's state, whether it is the focused cell,
    /// and the global game state. Mutates nothing.
    pub fn cell_view(&self, r: u16, c: u16) -> (v: (char, u16, u16))
        requires
            self.wf(),
            (r as int) < self.height as int,
            (c as int) < self.width as int,
        ensures
            v == self.spec_cell_view(r as int, c as int),
    {
        let cell = self.get_cell(r, c);
        let base: char = if !cell.is_opened() {
            'L'
        } else {
            match cell.content {
                Content::Empty => '_',
                Content::Count(n) => {
                    if n == 1 {
                        '1'
                    } else if n == 2 {
                        '2'
                    } else if n == 3 {
                        '3'
                    } else if n == 4 {
                        '4'
                    } else if n == 5 {
                        '5'
                    } else if n == 6 {
                        '6'
                    } else if n == 7 {
                        '7'
                    } else {
                        '8'
                    }
                },
                Content::Mine => '@',
            }
        };
        let is_cursor = r == self.cursor_row && c == self.cursor_col;
        let glyph: char = if !is_cursor || self.succeeded {
            base
        } else if self.exploded && cell.is_mine() {
            '*'
        } else if self.is_blink() {
            '@'
        } else {
            base
        };
        let (bgc, fgc): (u16, u16) = if cell.force_open_at_ending {
            (4, 5)
        } else if cell.is_opened() {
            (2, 3)
        } else {
            (0, 1)
        };
        (glyph, bgc, fgc)
    }

    /// Whether the blink phase currently shows the overlay glyph: the
    /// first half of each blink cycle.
    pub fn is_blink(&self) -> (b: bool)
        ensures
            b == self.spec_blink_on(),
    {
        self.tick_count < self.blink_period / 2
    }
}

} // verus!
