//! What borderless fullscreen keeps of the windowed state, and how the
//! window is put back where it was.

use vstd::prelude::*;

verus! {

/// Windowed position/size to restore on exit.
pub struct Saved {
    pos: (isize, isize),
    size: (usize, usize),
}

impl Saved {
    /// The saved window position.
    pub closed spec fn saved_pos(&self) -> (isize, isize) {
        self.pos
    }

    /// The saved window size.
    pub closed spec fn saved_size(&self) -> (usize, usize) {
        self.size
    }

    /// Remembers a windowed position and size.
    pub fn new(pos: (isize, isize), size: (usize, usize)) -> (s: Saved)
        ensures
            s.saved_pos() == pos,
            s.saved_size() == size,
    {
        Saved { pos, size }
    }

    /// The saved position.
    pub fn pos(&self) -> (p: (isize, isize))
        ensures
            p == self.saved_pos(),
    {
        self.pos
    }

    /// The saved size.
    pub fn size(&self) -> (s: (usize, usize))
        ensures
            s == self.saved_size(),
    {
        self.size
    }

    /// Where to put the window so that it lands on the saved position, given
    /// that asking for the saved position put its top at `got_y`: setting
    /// and reading a position disagree by the title-bar height, so the
    /// vertical error is measured once and compensated.
    pub fn corrected_position(&self, got_y: isize) -> (p: (isize, isize))
        requires
            isize::MIN <= self.saved_pos().1 - got_y <= isize::MAX,
            isize::MIN <= self.saved_pos().1 + (self.saved_pos().1 - got_y) <= isize::MAX,
        ensures
            p.0 == self.saved_pos().0,
            p.1 == corrected_y(self.saved_pos().1 as int, got_y as int),
    {
        (self.pos.0, self.pos.1 + (self.pos.1 - got_y))
    }
}

/// The `y` to ask for so that the window lands on `saved_y`, when asking
/// for `saved_y` put it at `got_y`.
pub open spec fn corrected_y(saved_y: int, got_y: int) -> int {
    saved_y + (saved_y - got_y)
}

/// If the window system places a window `d` below where it was asked to
/// (so asking for the saved `y` gave `y + d`), asking for the corrected `y`
/// lands it exactly on the saved `y`.
pub proof fn lemma_correction_restores(saved_y: int, d: int)
    ensures
        corrected_y(saved_y, saved_y + d) + d == saved_y,
{
}

} // verus!
