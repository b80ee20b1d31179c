//! Core editing model for a text input widget.
//!
//! The crate centres on [`state::InputState`], which owns a UTF-8 text
//! buffer together with its selection, IME composition state, undo/redo
//! history and optional mask pattern, and exposes the editing operations
//! that a rendering layer calls in response to input events.  Everything
//! that can be stated over plain values is verified; Unicode segmentation
//! is obtained from an outside crate through a small trusted boundary.

pub mod chat;
pub mod focus;
pub mod history;
pub mod layout;
pub mod mask;
pub mod segment;
pub mod state;
pub mod theme;
pub mod utf8;

use vstd::prelude::*;

verus! {

/// Half-open byte range `[start, end)` into a text buffer.
#[derive(Clone, Copy, Debug, PartialEq, Eq, Structural)]
pub struct ByteRange {
    pub start: usize,
    pub end: usize,
}

impl ByteRange {
    pub open spec fn wf(self) -> bool {
        self.start <= self.end
    }

    pub open spec fn spec_len(self) -> int {
        self.end - self.start
    }

    /// Number of bytes the range covers.
    pub fn len(&self) -> (n: usize)
        requires
            self.wf(),
        ensures
            n == self.spec_len(),
    {
        self.end - self.start
    }

    /// True when the range covers no bytes.
    pub fn is_empty(&self) -> (r: bool)
        ensures
            r == (self.start == self.end),
    {
        self.start == self.end
    }
}

} // verus!
