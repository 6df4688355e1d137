use vstd::prelude::*;

verus! {

/// Content value reported for a cell that holds a mine; counts of
/// adjacent mines use `1..=8`, an empty cell reports `0`.
pub const MINE_SENTINEL: u8 = 15;

/// What one grid position holds. A mine and an adjacency count are
/// mutually exclusive states of this single tagged field: a cell can
/// never be both "mine" and "has a count".
#[derive(Clone, Copy, PartialEq, Eq, Structural, Debug)]
pub enum Content {
    /// no adjacent mines
    Empty,
    /// `1..=8` adjacent mines
    Count(u8),
    /// the cell itself is a mine
    Mine,
}

/// One grid position: four status flags plus the content tag.
/// `flagged` and `questioned` are reserved extension points: the bits
/// exist in the encoding but no exposed operation sets them.
#[derive(Clone, Copy, PartialEq, Eq, Structural, Debug)]
pub struct Cell {
    /// set only by the end-of-game reveal, never during play
    pub force_open_at_ending: bool,
    /// reserved; never set by any exposed operation
    pub flagged: bool,
    /// reserved; never set by any exposed operation
    pub questioned: bool,
    /// the cell has been revealed (by the player, the flood fill, or
    /// the end-of-game reveal)
    pub opened: bool,
    /// mine or adjacency count
    pub content: Content,
}

impl Cell {
    /// An adjacency count, when present, lies in `1..=8`.
    pub open spec fn wf(self) -> bool {
        self.content matches Content::Count(n) ==> 1 <= n && n <= 8
    }

    pub open spec fn spec_is_mine(self) -> bool {
        self.content is Mine
    }

    /// The numeric value of the content field: `0` empty, `1..=8` a
    /// count, `15` the mine sentinel.
    pub open spec fn spec_content_value(self) -> u8 {
        match self.content {
            Content::Empty => 0,
            Content::Count(n) => n,
            Content::Mine => MINE_SENTINEL,
        }
    }

    /// A closed cell with all flags clear and the given content.
    pub open spec fn spec_closed(content: Content) -> Cell {
        Cell {
            force_open_at_ending: false,
            flagged: false,
            questioned: false,
            opened: false,
            content,
        }
    }

    pub fn closed_empty() -> (c: Cell)
        ensures
            c == Cell::spec_closed(Content::Empty),
    {
        Cell {
            force_open_at_ending: false,
            flagged: false,
            questioned: false,
            opened: false,
            content: Content::Empty,
        }
    }

    pub fn is_mine(&self) -> (r: bool)
        ensures
            r == self.spec_is_mine(),
    {
        match self.content {
            Content::Mine => true,
            _ => false,
        }
    }

    pub fn is_opened(&self) -> (r: bool)
        ensures
            r == self.opened,
    {
        self.opened
    }

    pub fn content_value(&self) -> (v: u8)
        ensures
            v == self.spec_content_value(),
    {
        match self.content {
            Content::Empty => 0,
            Content::Count(n) => n,
            Content::Mine => MINE_SENTINEL,
        }
    }

    /// Reveal the cell. With `force` set (the end-of-game reveal), a
    /// cell that was still closed is additionally marked
    /// `force_open_at_ending`, so that rendering can distinguish an
    /// end-of-game reveal from a cell the player opened.
    pub fn mark_opened(&mut self, force: bool)
        ensures
            final(self).opened,
            final(self).force_open_at_ending == (old(self).force_open_at_ending || (force
                && !old(self).opened)),
            final(self).content == old(self).content,
            final(self).flagged == old(self).flagged,
            final(self).questioned == old(self).questioned,
    {
        if force && !self.opened {
            self.force_open_at_ending = true;
        }
        self.opened = true;
    }

    /// Turn the cell into a mine; any adjacency count is replaced by
    /// the mine state, never combined with it.
    pub fn mark_mine(&mut self)
        ensures
            final(self).content == Content::Mine,
            final(self).opened == old(self).opened,
            final(self).force_open_at_ending == old(self).force_open_at_ending,
            final(self).flagged == old(self).flagged,
            final(self).questioned == old(self).questioned,
    {
        self.content = Content::Mine;
    }
}

} // verus!
