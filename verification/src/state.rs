//! The editing engine of a text input widget: one owned UTF-8 buffer with
//! its selection, IME composition state, undo/redo history and optional
//! mask pattern, and the operations a rendering layer calls on input
//! events.
//!
//! Every offset stored or returned is a byte offset on a scalar boundary
//! of the buffer, an invariant every operation here preserves.  Rendering,
//! pixel hit-testing and clipboard access live outside; they hand this
//! type plain offsets and bytes and get plain offsets and bytes back.

use vstd::prelude::*;
use crate::ByteRange;
use crate::utf8::{
    is_utf8, is_boundary, is_cont_byte, utf8_from, valid_scalar_at, utf8_seq_len, spliced,
    utf16_count,
    offset_of_utf16, lemma_spliced_utf8, lemma_subrange_utf8, lemma_boundary_on_chain,
    bytes_of_range, splice_bytes, snap_to_boundary, snap_offset, lemma_snap_to_boundary,
};
use crate::mask::{MaskPattern, MaskToken, mask_spec, unmask_spec, pattern_accepts, pattern_wf};
use crate::history::{
    History, Change, change_wf, undo_change, redo_change, undo_group, redo_group, group_wf_undo,
    group_wf_redo, undo_stack_wf, redo_stack_wf,
};
use crate::segment::{
    grapheme_starts, first_start_after, last_start_before, next_grapheme_boundary,
    previous_grapheme_boundary,
};

verus! {

/// Tab settings for multi-line and code-editor fields.
#[derive(Clone, Copy, Debug, PartialEq, Eq, Structural)]
pub struct TabSize {
    /// Spaces per indent step when soft tabs are used.
    pub tab_size: usize,
    /// Indent with a hard tab character instead of spaces.
    pub hard_tabs: bool,
}

impl TabSize {
    pub fn new() -> (r: TabSize)
        ensures
            r.tab_size == 2,
            !r.hard_tabs,
    {
        TabSize { tab_size: 2, hard_tabs: false }
    }
}

/// What kind of field the state drives; it governs whether newlines,
/// vertical movement and indentation are active.
pub enum InputMode {
    /// One line; Enter is left to the host.
    SingleLine,
    /// A fixed number of visual rows.
    MultiLine { rows: usize, tab: TabSize },
    /// Grows with its content between two row counts.
    AutoGrow { rows: usize, min_rows: usize, max_rows: usize },
    /// Multi-line with indentation helpers and line numbers.
    CodeEditor { rows: usize, tab: TabSize, line_number: bool },
}

/// The caret the edit leaves behind: just after the inserted text plus any
/// mask literals the mask added before it, clamped into the result and
/// snapped back onto a scalar boundary.
pub open spec fn edit_caret(p: Seq<MaskToken>, t: Seq<u8>, a: int, b: int, ins: Seq<u8>) -> int {
    let pending = spliced(t, a, b, ins);
    let m = mask_spec(p, pending);
    let extra = if ins.len() + m.len() >= pending.len() {
        ins.len() + m.len() - pending.len()
    } else {
        0
    };
    let pos = if a + extra > m.len() {
        m.len() as int
    } else {
        a + extra
    };
    snap_to_boundary(m, pos)
}

/// A range lies inside `t` with both ends on scalar boundaries.
pub open spec fn range_in_text(r: ByteRange, t: Seq<u8>) -> bool {
    &&& r.wf()
    &&& r.end <= t.len()
    &&& is_boundary(t, r.start as int)
    &&& is_boundary(t, r.end as int)
}

/// Editing state of a text input widget.
pub struct InputState {
    pub text: Vec<u8>,
    pub mode: InputMode,
    pub selected_range: ByteRange,
    pub selection_reversed: bool,
    pub selected_word_range: Option<ByteRange>,
    pub marked_range: Option<ByteRange>,
    pub disabled: bool,
    pub masked: bool,
    pub clean_on_escape: bool,
    pub loading: bool,
    pub placeholder: Vec<u8>,
    pub mask_pattern: MaskPattern,
    pub history: History,
}

impl InputState {
    /// Well-formedness: the buffer is UTF-8; selection, word selection and
    /// IME composition all lie on scalar boundaries; outside a composition
    /// the buffer is a fixed point of the mask (composed text is shown as
    /// the IME sent it and is only formatted on commit); and both history
    /// stacks replay cleanly.
    pub open spec fn wf(&self) -> bool {
        &&& is_utf8(self.text@)
        &&& range_in_text(self.selected_range, self.text@)
        &&& match self.marked_range {
            Some(m) => range_in_text(m, self.text@),
            None => true,
        }
        &&& match self.selected_word_range {
            Some(w) => range_in_text(w, self.text@),
            None => true,
        }
        &&& self.mask_pattern.wf()
        &&& (self.marked_range is None ==> mask_spec(self.mask_pattern.tokens@, self.text@)
            == self.text@)
        &&& undo_stack_wf(self.text@, self.history.undo_view(), self.mask_pattern.tokens@)
        &&& redo_stack_wf(self.text@, self.history.redo_view(), self.mask_pattern.tokens@)
    }

    /// An edit starting from this state can extend the undo chain: the
    /// buffer is known to be a fixed point of the mask, either because no
    /// composition is in progress or because there is no mask.  Starting
    /// from a masked composition, recording is skipped and the history is
    /// reset instead.
    pub open spec fn spec_can_record(pre: InputState) -> bool {
        pre.marked_range is None || pre.mask_pattern.tokens@.len() == 0
    }

    /// The buffer as a sequence of bytes.
    pub open spec fn text_view(&self) -> Seq<u8> {
        self.text@
    }

    /// Where the caret is: the end of an IME composition when one is in
    /// progress, else the active end of the selection.
    pub open spec fn spec_cursor_offset(&self) -> int {
        match self.marked_range {
            Some(m) => m.end as int,
            None => if self.selection_reversed {
                self.selected_range.start as int
            } else {
                self.selected_range.end as int
            },
        }
    }

    /// A fresh single-line state: empty text, collapsed selection, no
    /// composition, no mask, empty history.
    pub fn new() -> (r: InputState)
        ensures
            r.wf(),
            r.text@.len() == 0,
            r.selected_range.start == 0 && r.selected_range.end == 0,
            r.marked_range is None,
            !r.disabled,
            r.history.undo_view().len() == 0,
            r.history.redo_view().len() == 0,
            !r.history.ignore,
            r.mask_pattern.is_unset(),
            r.spec_is_single_line(),
    {
        let r = InputState {
            text: Vec::new(),
            mode: InputMode::SingleLine,
            selected_range: ByteRange { start: 0, end: 0 },
            selection_reversed: false,
            selected_word_range: None,
            marked_range: None,
            disabled: false,
            masked: false,
            clean_on_escape: false,
            loading: false,
            placeholder: Vec::new(),
            mask_pattern: MaskPattern::empty(),
            history: History::new(1000),
        };
        proof {
            assert(is_utf8(r.text@));
            assert(mask_spec(r.mask_pattern.tokens@, r.text@) =~= r.text@);
            assert(undo_stack_wf(r.text@, r.history.undo_view(), r.mask_pattern.tokens@));
            assert(redo_stack_wf(r.text@, r.history.redo_view(), r.mask_pattern.tokens@));
        }
        r
    }

    /// True in the single-line mode.
    pub open spec fn spec_is_single_line(&self) -> bool {
        self.mode is SingleLine
    }

    pub fn is_single_line(&self) -> (r: bool)
        ensures
            r == self.spec_is_single_line(),
    {
        matches!(self.mode, InputMode::SingleLine)
    }

    pub fn is_multi_line(&self) -> (r: bool)
        ensures
            r == !self.spec_is_single_line(),
    {
        !self.is_single_line()
    }

    pub fn is_auto_grow(&self) -> (r: bool)
        ensures
            r == (self.mode is AutoGrow),
    {
        matches!(self.mode, InputMode::AutoGrow { .. })
    }

    /// Switches to the multi-line mode, two rows by default.
    pub fn multi_line(self) -> (r: InputState)
        requires
            self.wf(),
        ensures
            r.wf(),
            !r.spec_is_single_line(),
            r.text@ == self.text@,
    {
        InputState { mode: InputMode::MultiLine { rows: 2, tab: TabSize::new() }, ..self }
    }

    /// Switches to the auto-grow mode with the given row bounds.
    pub fn auto_grow(self, min_rows: usize, max_rows: usize) -> (r: InputState)
        requires
            self.wf(),
        ensures
            r.wf(),
            r.mode is AutoGrow,
            r.text@ == self.text@,
    {
        InputState {
            mode: InputMode::AutoGrow { rows: min_rows, min_rows, max_rows },
            ..self
        }
    }

    /// Switches to the code-editor mode: line numbers and indentation on.
    pub fn code_editor(self) -> (r: InputState)
        requires
            self.wf(),
        ensures
            r.wf(),
            r.mode is CodeEditor,
            r.text@ == self.text@,
    {
        InputState {
            mode: InputMode::CodeEditor { rows: 2, tab: TabSize::new(), line_number: true },
            ..self
        }
    }

    /// Sets the number of rows of a multi-line or auto-grow field.
    pub fn rows(self, rows: usize) -> (r: InputState)
        requires
            self.wf(),
        ensures
            r.wf(),
            r.text@ == self.text@,
    {
        let mode = match self.mode {
            InputMode::MultiLine { tab, .. } => InputMode::MultiLine { rows, tab },
            InputMode::AutoGrow { min_rows, .. } => InputMode::AutoGrow {
                rows,
                min_rows,
                max_rows: rows,
            },
            other => other,
        };
        InputState { mode, ..self }
    }

    /// Sets the tab settings of a multi-line or code-editor field.
    pub fn tab_size(self, tab: TabSize) -> (r: InputState)
        requires
            self.wf(),
        ensures
            r.wf(),
            r.text@ == self.text@,
    {
        let mode = match self.mode {
            InputMode::MultiLine { rows, .. } => InputMode::MultiLine { rows, tab },
            InputMode::CodeEditor { rows, line_number, .. } => InputMode::CodeEditor {
                rows,
                tab,
                line_number,
            },
            other => other,
        };
        InputState { mode, ..self }
    }

    /// Switches line numbers on or off in the code-editor mode.
    pub fn line_number(self, line_number: bool) -> (r: InputState)
        requires
            self.wf(),
        ensures
            r.wf(),
            r.text@ == self.text@,
    {
        let mode = match self.mode {
            InputMode::CodeEditor { rows, tab, .. } => InputMode::CodeEditor {
                rows,
                tab,
                line_number,
            },
            other => other,
        };
        InputState { mode, ..self }
    }

    /// Switches line numbers on or off in the code-editor mode, in place.
    pub fn set_line_number(&mut self, line_number: bool)
        requires
            old(self).wf(),
        ensures
            final(self).wf(),
            final(self).text@ == old(self).text@,
    {
        if let InputMode::CodeEditor { rows, tab, .. } = &self.mode {
            self.mode = InputMode::CodeEditor { rows: *rows, tab: *tab, line_number };
        }
    }

    /// Sets the placeholder shown while the field is empty.
    pub fn placeholder(self, placeholder: Vec<u8>) -> (r: InputState)
        requires
            self.wf(),
        ensures
            r.wf(),
            r.placeholder@ == placeholder@,
            r.text@ == self.text@,
    {
        InputState { placeholder, ..self }
    }

    /// Sets the placeholder in place.
    pub fn set_placeholder(&mut self, placeholder: Vec<u8>)
        requires
            old(self).wf(),
        ensures
            final(self).wf(),
            final(self).placeholder@ == placeholder@,
            final(self).text@ == old(self).text@,
    {
        self.placeholder = placeholder;
    }

    /// Sets the disabled flag as a builder.
    pub fn disabled(self, disabled: bool) -> (r: InputState)
        requires
            self.wf(),
        ensures
            r.wf(),
            r.disabled == disabled,
            r.text@ == self.text@,
    {
        InputState { disabled, ..self }
    }

    /// Sets the disabled flag in place: while set, every mutating
    /// operation is a no-op.
    pub fn set_disabled(&mut self, disabled: bool)
        requires
            old(self).wf(),
        ensures
            final(self).wf(),
            final(self).disabled == disabled,
            final(self).text@ == old(self).text@,
    {
        self.disabled = disabled;
    }

    pub fn is_disabled(&self) -> (r: bool)
        ensures
            r == self.disabled,
    {
        self.disabled
    }

    /// Sets password masking (a rendering concern; the buffer is not
    /// changed).
    pub fn masked(self, masked: bool) -> (r: InputState)
        requires
            self.wf(),
        ensures
            r.wf(),
            r.masked == masked,
            r.text@ == self.text@,
    {
        InputState { masked, ..self }
    }

    /// Sets password masking in place.
    pub fn set_masked(&mut self, masked: bool)
        requires
            old(self).wf(),
        ensures
            final(self).wf(),
            final(self).masked == masked,
            final(self).text@ == old(self).text@,
    {
        self.masked = masked;
    }

    /// After this, Escape clears the field instead of only signalling.
    pub fn clean_on_escape(self) -> (r: InputState)
        requires
            self.wf(),
        ensures
            r.wf(),
            r.clean_on_escape,
            r.text@ == self.text@,
    {
        InputState { clean_on_escape: true, ..self }
    }

    /// Shows or hides the loading indicator (a rendering concern).
    pub fn set_loading(&mut self, loading: bool)
        requires
            old(self).wf(),
        ensures
            final(self).wf(),
            final(self).loading == loading,
            final(self).text@ == old(self).text@,
    {
        self.loading = loading;
    }

    /// The current buffer.
    pub fn value(&self) -> (r: &Vec<u8>)
        ensures
            r@ == self.text@,
    {
        &self.text
    }

    /// The buffer with the mask pattern's literals stripped: exactly what
    /// the user typed.
    pub fn unmask_value(&self) -> (r: Vec<u8>)
        ensures
            r@ == unmask_spec(self.mask_pattern.tokens@, self.text@),
    {
        self.mask_pattern.unmask(self.text.as_slice())
    }

    /// Exec mirror of [`Self::spec_cursor_offset`].
    pub fn cursor_offset(&self) -> (r: usize)
        requires
            self.wf(),
        ensures
            r as int == self.spec_cursor_offset(),
            r <= self.text@.len(),
            is_boundary(self.text@, r as int),
    {
        match &self.marked_range {
            Some(m) => m.end,
            None => if self.selection_reversed {
                self.selected_range.start
            } else {
                self.selected_range.end
            },
        }
    }

    /// Everything a caret move to `offset` does: the offset clamped into
    /// the buffer and snapped back onto a scalar boundary, the selection
    /// collapsed there, the reversed flag cleared, and nothing else
    /// touched.
    pub open spec fn caret_moved_to(pre: InputState, post: InputState, offset: int) -> bool {
        let len = pre.text@.len() as int;
        let clamped = if offset > len {
            len
        } else {
            offset
        };
        let o = snap_to_boundary(pre.text@, clamped);
        &&& post.selected_range.start as int == o
        &&& post.selected_range.end as int == o
        &&& !post.selection_reversed
        &&& post.text@ == pre.text@
        &&& post.marked_range == pre.marked_range
        &&& post.history == pre.history
        &&& post.disabled == pre.disabled
        &&& post.mode == pre.mode
        &&& post.mask_pattern == pre.mask_pattern
        &&& post.selected_word_range == pre.selected_word_range
        &&& post.clean_on_escape == pre.clean_on_escape
        &&& post.masked == pre.masked
        &&& post.loading == pre.loading
        &&& post.placeholder@ == pre.placeholder@
    }

    /// Everything extending the selection to `offset` does: the active end
    /// moves to the clamped, snapped offset, the ends swap (flipping the
    /// reversed flag) when they cross, the result never shrinks below a
    /// remembered word selection, and nothing else is touched.
    pub open spec fn selection_extended_to(pre: InputState, post: InputState, offset: int) -> bool {
        let len = pre.text@.len() as int;
        let clamped = if offset > len {
            len
        } else {
            offset
        };
        let o = snap_to_boundary(pre.text@, clamped);
        let sel = pre.selected_range;
        let moved_start = if pre.selection_reversed {
            o
        } else {
            sel.start as int
        };
        let moved_end = if pre.selection_reversed {
            sel.end as int
        } else {
            o
        };
        let ns = if moved_end < moved_start {
            moved_end
        } else {
            moved_start
        };
        let ne = if moved_end < moved_start {
            moved_start
        } else {
            moved_end
        };
        let rev = if moved_end < moved_start {
            !pre.selection_reversed
        } else {
            pre.selection_reversed
        };
        let fs = match pre.selected_word_range {
            Some(w) => if ns > w.start as int {
                w.start as int
            } else {
                ns
            },
            None => ns,
        };
        let fe = match pre.selected_word_range {
            Some(w) => if ne < w.end as int {
                w.end as int
            } else {
                ne
            },
            None => ne,
        };
        &&& post.selected_range.start as int == fs
        &&& post.selected_range.end as int == fe
        &&& post.selection_reversed == rev
        &&& post.text@ == pre.text@
        &&& post.marked_range == pre.marked_range
        &&& post.history == pre.history
        &&& post.disabled == pre.disabled
        &&& post.mode == pre.mode
        &&& post.mask_pattern == pre.mask_pattern
        &&& post.selected_word_range == pre.selected_word_range
        &&& post.clean_on_escape == pre.clean_on_escape
        &&& post.masked == pre.masked
        &&& post.loading == pre.loading
        &&& post.placeholder@ == pre.placeholder@
    }

    /// Start of the last word before the selection start, as a spec value.
    pub open spec fn spec_previous_start_of_word(&self) -> int {
        let pfx = self.text@.subrange(0, self.selected_range.start as int);
        crate::segment::last_nonblank_start(pfx, crate::segment::word_segment_starts(pfx), 0, 0)
    }

    /// End of the first word after the caret, as a spec value.
    pub open spec fn spec_next_end_of_word(&self) -> int {
        let cur = self.spec_cursor_offset();
        let sfx = self.text@.subrange(cur, self.text@.len() as int);
        cur + crate::segment::first_nonblank_end(
            sfx,
            crate::segment::word_segment_starts(sfx),
            0,
        )
    }

    /// Collapses the selection to a caret at `offset`, clamped into the
    /// buffer and snapped back onto a scalar boundary; clears the
    /// reversed flag.
    pub fn move_to(&mut self, offset: usize)
        requires
            old(self).wf(),
        ensures
            final(self).wf(),
            Self::caret_moved_to(*old(self), *final(self), offset as int),
    {
        let len = self.text.len();
        let clamped = if offset > len {
            len
        } else {
            offset
        };
        let o = snap_offset(self.text.as_slice(), clamped);
        self.selected_range = ByteRange { start: o, end: o };
        self.selection_reversed = false;
    }

    /// Extends the active end of the selection to `offset` (clamped and
    /// snapped), swapping the ends and flipping the reversed flag when
    /// they cross, and never shrinking below a remembered word selection.
    /// Whatever the calls, `start <= end` always holds afterwards.
    pub fn select_to(&mut self, offset: usize)
        requires
            old(self).wf(),
        ensures
            final(self).wf(),
            final(self).selected_range.start <= final(self).selected_range.end,
            Self::selection_extended_to(*old(self), *final(self), offset as int),
    {
        let len = self.text.len();
        let clamped = if offset > len {
            len
        } else {
            offset
        };
        let o = snap_offset(self.text.as_slice(), clamped);
        if self.selection_reversed {
            self.selected_range = ByteRange { start: o, end: self.selected_range.end };
        } else {
            self.selected_range = ByteRange { start: self.selected_range.start, end: o };
        }
        if self.selected_range.end < self.selected_range.start {
            self.selection_reversed = !self.selection_reversed;
            self.selected_range = ByteRange {
                start: self.selected_range.end,
                end: self.selected_range.start,
            };
        }
        let word = self.selected_word_range;
        if let Some(w) = word {
            if self.selected_range.start > w.start {
                self.selected_range = ByteRange { start: w.start, end: self.selected_range.end };
            }
            if self.selected_range.end < w.end {
                self.selected_range = ByteRange { start: self.selected_range.start, end: w.end };
            }
        }
    }

    /// Selects the whole buffer.
    pub fn select_all(&mut self)
        requires
            old(self).wf(),
        ensures
            final(self).wf(),
            final(self).selected_range.start == 0,
            final(self).selected_range.end == old(self).text@.len(),
            final(self).text@ == old(self).text@,
    {
        self.selected_word_range = None;
        self.move_to(0);
        self.select_to(self.text.len());
        proof {
            lemma_snap_to_boundary(self.text@, self.text@.len() as int);
            assert(is_boundary(self.text@, self.text@.len() as int));
        }
    }

    /// Whether the mask lets the edit `[a, b) <- ins` go through: pure
    /// deletions always do, anything else must leave a conforming text.
    pub open spec fn spec_edit_accepted(p: Seq<MaskToken>, t: Seq<u8>, a: int, b: int, ins: Seq<u8>) -> bool {
        ins.len() == 0 || pattern_accepts(p, spliced(t, a, b, ins))
    }

    /// The change an accepted edit records: the local diff when no mask is
    /// set; the whole buffer when one is, since masking can reshape the
    /// text away from the edit and only the whole-text form restores it
    /// exactly.
    pub open spec fn change_describes(
        c: Change,
        p: Seq<MaskToken>,
        t: Seq<u8>,
        a: int,
        b: int,
        ins: Seq<u8>,
        now: u64,
    ) -> bool {
        let m = mask_spec(p, spliced(t, a, b, ins));
        &&& c.caret_after as int == edit_caret(p, t, a, b, ins)
        &&& c.timestamp_ms == now
        &&& if p.len() == 0 {
            &&& c.old_range.start == a && c.old_range.end == b
            &&& c.old_text@ == t.subrange(a, b)
            &&& c.new_range.start == a && c.new_range.end as int == a + ins.len()
            &&& c.new_text@ == ins
        } else {
            &&& c.old_range.start == 0 && c.old_range.end == t.len()
            &&& c.old_text@ == t
            &&& c.new_range.start == 0 && c.new_range.end == m.len()
            &&& c.new_text@ == m
        }
    }



    /// Everything an accepted edit does to the state: the masked result in
    /// the buffer, the caret collapsed after the insertion, composition
    /// and word selection cleared, the edit recorded (or the history reset
    /// when recording is off), and nothing else touched.
    pub open spec fn edit_post(
        pre: InputState,
        post: InputState,
        a: int,
        b: int,
        ins: Seq<u8>,
        now: u64,
        record: bool,
    ) -> bool {
        let p = pre.mask_pattern.tokens@;
        let t = pre.text@;
        let m = mask_spec(p, spliced(t, a, b, ins));
        let caret = edit_caret(p, t, a, b, ins);
        &&& post.text@ == m
        &&& post.selected_range.start as int == caret
        &&& post.selected_range.end as int == caret
        &&& post.marked_range is None
        &&& post.selected_word_range is None
        &&& post.mode == pre.mode
        &&& post.disabled == pre.disabled
        &&& post.masked == pre.masked
        &&& post.clean_on_escape == pre.clean_on_escape
        &&& post.loading == pre.loading
        &&& post.mask_pattern == pre.mask_pattern
        &&& post.placeholder@ == pre.placeholder@
        &&& post.selection_reversed == pre.selection_reversed
        &&& post.history.ignore == pre.history.ignore
        &&& post.history.group_interval_ms == pre.history.group_interval_ms
        &&& (record && !pre.history.ignore && Self::spec_can_record(pre) ==> {
            let ov = pre.history.undo_view();
            let uv = post.history.undo_view();
            &&& post.history.redo_view().len() == 0
            &&& uv.len() > 0
            &&& post.history.has_changes
            &&& post.history.last_change_ms == now
            &&& exists|c: Change|
                #[trigger] Self::change_describes(c, p, t, a, b, ins, now)
                    && if pre.history.spec_would_coalesce(now) {
                    uv =~= ov.drop_last().push(ov.last().push(c))
                } else {
                    uv =~= ov.push(seq![c])
                }
        })
        &&& (!(record && !pre.history.ignore && Self::spec_can_record(pre))
            ==> post.history.undo_view().len() == 0 && post.history.redo_view().len() == 0
            && !post.history.has_changes)
    }

    /// An accepted edit's recorded change fits the text the edit produces:
    /// undoing it restores the old text exactly, with every offset it
    /// stores on a scalar boundary.
    pub proof fn lemma_edit_establishes_chain(
        p: Seq<MaskToken>,
        t: Seq<u8>,
        a: int,
        b: int,
        ins: Seq<u8>,
        c: Change,
        now: u64,
    )
        requires
            pattern_wf(p),
            is_utf8(t),
            mask_spec(p, t) == t,
            is_utf8(ins),
            0 <= a <= b <= t.len(),
            is_boundary(t, a),
            is_boundary(t, b),
            Self::change_describes(c, p, t, a, b, ins, now),
        ensures
            ({
                let tn = mask_spec(p, spliced(t, a, b, ins));
                &&& change_wf(c)
                &&& c.new_range.end <= tn.len()
                &&& is_boundary(tn, c.new_range.start as int)
                &&& is_boundary(tn, c.new_range.end as int)
                &&& tn.subrange(c.new_range.start as int, c.new_range.end as int) == c.new_text@
                &&& is_utf8(c.old_text@)
                &&& undo_change(tn, c) == t
                &&& mask_spec(p, undo_change(tn, c)) == undo_change(tn, c)
                &&& c.caret_after <= tn.len()
                &&& is_boundary(tn, c.caret_after as int)
            }),
    {
        let pnd = spliced(t, a, b, ins);
        let tn = mask_spec(p, pnd);
        lemma_spliced_utf8(t, a, b, ins);
        if p.len() == 0 {
            assert(tn =~= pnd);
            assert(tn.subrange(c.new_range.start as int, c.new_range.end as int) =~= c.new_text@);
            crate::utf8::lemma_splice_inverse(t, a, b, ins);
            assert(spliced(pnd, a, a + ins.len(), t.subrange(a, b)) == t);
            assert(undo_change(tn, c) == t);
            lemma_subrange_utf8(t, a, b);
        } else {
            crate::mask::lemma_mask_utf8(p, pnd);
            assert(tn.subrange(c.new_range.start as int, c.new_range.end as int) =~= tn);
            assert(undo_change(tn, c) =~= t);
            if tn.len() > 0 {
                assert(valid_scalar_at(tn, 0));
            }
            assert(is_boundary(tn, 0));
        }
        crate::mask::lemma_mask_utf8(p, pnd);
        lemma_snap_to_boundary(
            tn,
            ({
                let extra = if ins.len() + tn.len() >= pnd.len() {
                    ins.len() + tn.len() - pnd.len()
                } else {
                    0
                };
                if a + extra > tn.len() {
                    tn.len() as int
                } else {
                    a + extra
                }
            }),
        );
    }

    /// One edit transaction over a byte range: the bytes `[a, b)` are
    /// replaced by `ins`, the mask is applied to the whole result, the
    /// caret lands just after the inserted text (past any literals the
    /// mask added before it), and the edit is recorded for undo.  All or
    /// nothing: when the mask rejects the result, no part of the state
    /// changes.  With `record` false (programmatic replacement) the edit
    /// is not recorded and the history is reset.
    #[verifier::rlimit(100)]
    pub fn apply_edit_in_byte_range(
        &mut self,
        a: usize,
        b: usize,
        ins: &[u8],
        now_ms: u64,
        record: bool,
    ) -> (applied: bool)
        requires
            old(self).wf(),
            !old(self).disabled,
            is_utf8(ins@),
            a <= b <= old(self).text@.len(),
            is_boundary(old(self).text@, a as int),
            is_boundary(old(self).text@, b as int),
        ensures
            final(self).wf(),
            applied == Self::spec_edit_accepted(
                old(self).mask_pattern.tokens@,
                old(self).text@,
                a as int,
                b as int,
                ins@,
            ),
            !applied ==> *final(self) == *old(self),
            applied ==> Self::edit_post(
                *old(self),
                *final(self),
                a as int,
                b as int,
                ins@,
                now_ms,
                record,
            ),
    {
        let ghost p = self.mask_pattern.tokens@;
        let ghost t = self.text@;
        let pending = splice_bytes(self.text.as_slice(), a, b, ins);
        proof {
            lemma_spliced_utf8(t, a as int, b as int, ins@);
        }
        let accepted = if ins.len() == 0 {
            true
        } else {
            self.mask_pattern.is_valid(pending.as_slice())
        };
        if !accepted {
            return false;
        }
        let masked_text = self.mask_pattern.mask(pending.as_slice());
        proof {
            crate::mask::lemma_mask_utf8(p, pending@);
            crate::mask::lemma_mask_idempotent(p, pending@);
        }
        // caret: after the insert plus whatever the mask added before it
        let sum: u128 = ins.len() as u128 + masked_text.len() as u128;
        let plen: u128 = pending.len() as u128;
        let extra: u128 = if sum >= plen {
            sum - plen
        } else {
            0
        };
        let pos128: u128 = a as u128 + extra;
        let mlen: u128 = masked_text.len() as u128;
        let pos: usize = if pos128 > mlen {
            masked_text.len()
        } else {
            pos128 as usize
        };
        let caret = snap_offset(masked_text.as_slice(), pos);
        proof {
            assert(caret as int == edit_caret(p, t, a as int, b as int, ins@));
        }
        let can_chain = self.marked_range.is_none() || self.mask_pattern.tokens.len() == 0;
        proof {
            if can_chain && p.len() == 0 {
                assert(mask_spec(p, t) =~= t);
            }
            if can_chain {
                assert(mask_spec(p, t) == t);
            }
        }
        let record_now = record && !self.history.ignore && can_chain;
        let ghost ov = self.history.undo_view();
        let ghost coalesce = self.history.spec_would_coalesce(now_ms);
        let ghost gc: Change;
        if record_now {
            let c: Change = if self.mask_pattern.tokens.len() == 0 {
                Change {
                    old_range: ByteRange { start: a, end: b },
                    old_text: bytes_of_range(self.text.as_slice(), a, b),
                    new_range: ByteRange { start: a, end: a + ins.len() },
                    new_text: bytes_of_range(ins, 0, ins.len()),
                    caret_after: caret,
                    timestamp_ms: now_ms,
                }
            } else {
                Change {
                    old_range: ByteRange { start: 0, end: self.text.len() },
                    old_text: bytes_of_range(self.text.as_slice(), 0, self.text.len()),
                    new_range: ByteRange { start: 0, end: masked_text.len() },
                    new_text: bytes_of_range(masked_text.as_slice(), 0, masked_text.len()),
                    caret_after: caret,
                    timestamp_ms: now_ms,
                }
            };
            proof {
                gc = c;
                if p.len() == 0 {
                    assert(mask_spec(p, pending@) =~= pending@);
                    assert(c.old_text@ =~= t.subrange(a as int, b as int));
                    assert(c.new_text@ =~= ins@);
                } else {
                    assert(c.old_text@ =~= t);
                    assert(c.new_text@ =~= mask_spec(p, pending@));
                }
                assert(Self::change_describes(gc, p, t, a as int, b as int, ins@, now_ms));
            }
            self.history.push(c);
        } else {
            proof {
                gc = arbitrary();
            }
            self.history.clear_history();
        }
        self.text = masked_text;
        self.selected_range = ByteRange { start: caret, end: caret };
        self.marked_range = None;
        self.selected_word_range = None;
        proof {
            let tn = self.text@;
            let pnd = pending@;
            assert(is_utf8(tn));
            assert(mask_spec(p, tn) == tn);
            // the new top change fits the new text and restores the old one
            if record_now {
                let c = gc;
                Self::lemma_edit_establishes_chain(p, t, a as int, b as int, ins@, c, now_ms);
                let uv = self.history.undo_view();
                if coalesce {
                    assert(ov.last().len() > 0);
                    assert(uv =~= ov.drop_last().push(ov.last().push(c)));
                } else {
                    assert(uv =~= ov.push(seq![c]));
                }
                crate::history::lemma_stack_wf_after_record(t, tn, c, ov, uv, p, coalesce);
                assert(redo_stack_wf(tn, self.history.redo_view(), p));
            } else {
                assert(undo_stack_wf(tn, self.history.undo_view(), p));
                assert(redo_stack_wf(tn, self.history.redo_view(), p));
            }
        }
        true
    }

    /// Byte range an edit resolves to: an explicit UTF-16 range when one
    /// is given, else the IME composition range, else the selection.
    pub open spec fn spec_resolved_range(&self, range_utf16: Option<ByteRange>) -> (int, int) {
        match range_utf16 {
            Some(u) => (
                offset_of_utf16(self.text@, u.start as int, 0),
                offset_of_utf16(self.text@, u.end as int, 0),
            ),
            None => match self.marked_range {
                Some(m) => (m.start as int, m.end as int),
                None => (self.selected_range.start as int, self.selected_range.end as int),
            },
        }
    }

    /// Exec mirror of [`Self::spec_resolved_range`].
    fn resolve_range(&self, range_utf16: Option<ByteRange>) -> (r: (usize, usize))
        requires
            self.wf(),
            range_utf16 matches Some(u) ==> u.wf(),
        ensures
            (r.0 as int, r.1 as int) == self.spec_resolved_range(range_utf16),
            r.0 <= r.1 <= self.text@.len(),
            is_boundary(self.text@, r.0 as int),
            is_boundary(self.text@, r.1 as int),
    {
        match range_utf16 {
            Some(u) => {
                let a = crate::utf8::offset_from_utf16(self.text.as_slice(), u.start);
                let b = crate::utf8::offset_from_utf16(self.text.as_slice(), u.end);
                proof {
                    crate::utf8::lemma_offset_of_utf16_monotone(
                        self.text@,
                        u.start as int,
                        u.end as int,
                        0,
                    );
                }
                (a, b)
            },
            None => match &self.marked_range {
                Some(m) => (m.start, m.end),
                None => (self.selected_range.start, self.selected_range.end),
            },
        }
    }

    /// The full text the edit would produce, before masking: what a host
    /// with its own validator checks before committing the edit.
    pub fn pending_text_in_range(&self, range_utf16: Option<ByteRange>, new_text: &[u8]) -> (r:
        Vec<u8>)
        requires
            self.wf(),
            range_utf16 matches Some(u) ==> u.wf(),
        ensures
            ({
                let (a, b) = self.spec_resolved_range(range_utf16);
                r@ == spliced(self.text@, a, b, new_text@)
            }),
    {
        let (a, b) = self.resolve_range(range_utf16);
        splice_bytes(self.text.as_slice(), a, b, new_text)
    }

    /// Replaces the resolved range by `new_text` as one all-or-nothing
    /// transaction: the edit is dropped entirely when the field is
    /// disabled or the mask rejects the resulting text; otherwise the mask
    /// formats the result, the caret lands after the inserted text, any
    /// IME composition ends, observers see the new value, and the edit is
    /// recorded for undo (grouped with neighbours typed within the
    /// grouping interval).
    pub fn replace_text_in_range(
        &mut self,
        range_utf16: Option<ByteRange>,
        new_text: &[u8],
        now_ms: u64,
    ) -> (applied: bool)
        requires
            old(self).wf(),
            is_utf8(new_text@),
            range_utf16 matches Some(u) ==> u.wf(),
        ensures
            final(self).wf(),
            old(self).disabled ==> !applied && *final(self) == *old(self),
            !old(self).disabled ==> ({
                let (a, b) = old(self).spec_resolved_range(range_utf16);
                &&& applied == Self::spec_edit_accepted(
                    old(self).mask_pattern.tokens@,
                    old(self).text@,
                    a,
                    b,
                    new_text@,
                )
                &&& (!applied ==> *final(self) == *old(self))
                &&& (applied ==> Self::edit_post(
                    *old(self),
                    *final(self),
                    a,
                    b,
                    new_text@,
                    now_ms,
                    true,
                ))
            }),
    {
        if self.disabled {
            return false;
        }
        let (a, b) = self.resolve_range(range_utf16);
        self.apply_edit_in_byte_range(a, b, new_text, now_ms, true)
    }

    /// Inserts text at the caret, leaving the caret after it (and after
    /// any literals the mask added before it).
    pub fn insert(&mut self, new_text: &[u8], now_ms: u64) -> (applied: bool)
        requires
            old(self).wf(),
            is_utf8(new_text@),
        ensures
            final(self).wf(),
            old(self).disabled ==> !applied && *final(self) == *old(self),
            !old(self).disabled ==> ({
                let cur = old(self).spec_cursor_offset();
                &&& applied == Self::spec_edit_accepted(
                    old(self).mask_pattern.tokens@,
                    old(self).text@,
                    cur,
                    cur,
                    new_text@,
                )
                &&& (!applied ==> *final(self) == *old(self))
                &&& (applied ==> Self::edit_post(
                    *old(self),
                    *final(self),
                    cur,
                    cur,
                    new_text@,
                    now_ms,
                    true,
                ))
            }),
    {
        if self.disabled {
            return false;
        }
        let cur = self.cursor_offset();
        self.apply_edit_in_byte_range(cur, cur, new_text, now_ms, true)
    }

    /// Replaces the composition or selection by `new_text`, leaving the
    /// caret after it.
    pub fn replace(&mut self, new_text: &[u8], now_ms: u64) -> (applied: bool)
        requires
            old(self).wf(),
            is_utf8(new_text@),
        ensures
            final(self).wf(),
            old(self).disabled ==> !applied && *final(self) == *old(self),
            !old(self).disabled ==> ({
                let (a, b) = old(self).spec_resolved_range(None);
                &&& applied == Self::spec_edit_accepted(
                    old(self).mask_pattern.tokens@,
                    old(self).text@,
                    a,
                    b,
                    new_text@,
                )
                &&& (!applied ==> *final(self) == *old(self))
                &&& (applied ==> Self::edit_post(
                    *old(self),
                    *final(self),
                    a,
                    b,
                    new_text@,
                    now_ms,
                    true,
                ))
            }),
    {
        self.replace_text_in_range(None, new_text, now_ms)
    }

    /// Programmatic replacement of the whole value: the mask still
    /// formats and may still reject the text, nothing is recorded and the
    /// history is reset, and the caret goes to the end in the single-line
    /// mode and to the start otherwise.
    pub fn set_value(&mut self, value: &[u8]) -> (applied: bool)
        requires
            old(self).wf(),
            is_utf8(value@),
        ensures
            final(self).wf(),
            old(self).disabled ==> !applied && *final(self) == *old(self),
            !old(self).disabled ==> applied == Self::spec_edit_accepted(
                old(self).mask_pattern.tokens@,
                old(self).text@,
                0,
                old(self).text@.len() as int,
                value@,
            ),
            !old(self).disabled && !applied ==> *final(self) == *old(self),
            !old(self).disabled && applied ==> ({
                let p = old(self).mask_pattern.tokens@;
                let m = mask_spec(p, value@);
                &&& final(self).text@ == m
                &&& final(self).history.undo_view().len() == 0
                &&& final(self).history.redo_view().len() == 0
                &&& !final(self).history.has_changes
                &&& final(self).marked_range is None
                &&& final(self).selected_word_range is None
                &&& !final(self).selection_reversed
                &&& (old(self).spec_is_single_line() ==> final(self).selected_range.start as int
                    == snap_to_boundary(m, m.len() as int) && final(self).selected_range.end
                    == final(self).selected_range.start)
                &&& (!old(self).spec_is_single_line() ==> final(self).selected_range.start == 0
                    && final(self).selected_range.end == 0)
                &&& final(self).mode == old(self).mode
                &&& final(self).disabled == old(self).disabled
                &&& final(self).masked == old(self).masked
                &&& final(self).clean_on_escape == old(self).clean_on_escape
                &&& final(self).loading == old(self).loading
                &&& final(self).mask_pattern == old(self).mask_pattern
                &&& final(self).placeholder@ == old(self).placeholder@
            }),
    {
        if self.disabled {
            return false;
        }
        let ghost t = self.text@;
        let len = self.text.len();
        proof {
            assert(spliced(t, 0, t.len() as int, value@) =~= value@);
        }
        let applied = self.apply_edit_in_byte_range(0, len, value, 0, false);
        if applied {
            if self.is_single_line() {
                self.move_to(self.text.len());
            } else {
                self.move_to(0);
            }
        }
        applied
    }

    /// Clears the field programmatically.
    pub fn clean(&mut self)
        requires
            old(self).wf(),
        ensures
            final(self).wf(),
            old(self).disabled ==> *final(self) == *old(self),
            !old(self).disabled ==> final(self).text@ == mask_spec(
                old(self).mask_pattern.tokens@,
                Seq::<u8>::empty(),
            ) && final(self).text@.len() == 0 && final(self).marked_range is None,
    {
        let empty: Vec<u8> = Vec::new();
        proof {
            assert(is_utf8(empty@));
        }
        let applied = self.set_value(empty.as_slice());
        proof {
            if !old(self).disabled {
                assert(mask_spec(old(self).mask_pattern.tokens@, Seq::<u8>::empty())
                    =~= Seq::<u8>::empty());
            }
        }
    }

    /// Undoes the most recent edit group: every change of the group is
    /// reversed, most recent first, restoring the earlier text byte for
    /// byte with the caret at the end of the restored bytes; the group
    /// becomes redoable.  Without history (or disabled) nothing changes.
    pub fn undo(&mut self)
        requires
            old(self).wf(),
        ensures
            final(self).wf(),
            old(self).disabled ==> *final(self) == *old(self),
            !old(self).disabled && old(self).marked_range is Some && !old(self).mask_pattern.is_unset() ==> *final(self) == *old(self),
            !old(self).disabled && Self::spec_can_record(*old(self)) && old(self).history.undo_view().len() == 0 ==> final(self).text@ == old(self).text@ && final(self).selected_range == old(self).selected_range && final(self).history.undo_view() == old(self).history.undo_view() && final(self).history.redo_view() == old(self).history.redo_view(),
            !old(self).disabled && Self::spec_can_record(*old(self)) && old(self).history.undo_view().len() > 0 ==> ({
                let g = old(self).history.undo_view().last();
                &&& final(self).text@ == undo_group(old(self).text@, g)
                &&& final(self).history.undo_view() =~= old(self).history.undo_view().drop_last()
                &&& final(self).history.redo_view() =~= old(self).history.redo_view().push(g)
                &&& final(self).selected_range.start as int == g[0].old_range.end as int
                &&& final(self).selected_range.end == final(self).selected_range.start
                &&& final(self).marked_range is None
                &&& final(self).mode == old(self).mode
                &&& final(self).mask_pattern == old(self).mask_pattern
                &&& final(self).disabled == old(self).disabled
            }),
    {
        if self.disabled {
            return ;
        }
        if self.marked_range.is_some() && self.mask_pattern.tokens.len() > 0 {
            // a composition under a mask is still unformatted text; history
            // stays put until it ends
            return ;
        }
        let ghost p = self.mask_pattern.tokens@;
        let ghost t0 = self.text@;
        proof {
            if p.len() == 0 {
                assert(mask_spec(p, t0) =~= t0);
            }
            assert(mask_spec(p, t0) == t0);
        }
        let ghost ov = self.history.undo_view();
        let g = match self.history.pop_undo_group() {
            None => {
                return ;
            },
            Some(g) => g,
        };
        proof {
            assert(group_wf_undo(t0, g@, p));
            assert(g@.len() > 0);
            crate::history::lemma_group_round_trip(t0, g@, p);
        }
        let ghost hist1 = self.history;
        let mut j: usize = g.len();
        proof {
            assert(g@.take(j as int) =~= g@);
        }
        while j > 0
            invariant
                self.history == hist1,
                self.mask_pattern == old(self).mask_pattern,
                self.mode == old(self).mode,
                self.disabled == old(self).disabled,
                self.mask_pattern.tokens@ == p,
                pattern_wf(p),
                j <= g@.len(),
                is_utf8(self.text@),
                mask_spec(p, self.text@) == self.text@,
                group_wf_undo(self.text@, g@.take(j as int), p),
                undo_group(t0, g@) == undo_group(self.text@, g@.take(j as int)),
                j < g@.len() ==> self.selected_range.start as int == g@[j as int].old_range.end
                    as int && self.selected_range.end == self.selected_range.start
                    && range_in_text(self.selected_range, self.text@),
            decreases j,
        {
            j = j - 1;
            let ghost t_cur = self.text@;
            let ghost rem = g@.take(j as int + 1);
            proof {
                assert(rem.last() == g@[j as int]);
                assert(rem.drop_last() =~= g@.take(j as int));
                assert(group_wf_undo(t_cur, rem, p));
            }
            let c = &g[j];
            proof {
                lemma_spliced_utf8(
                    t_cur,
                    c.new_range.start as int,
                    c.new_range.end as int,
                    c.old_text@,
                );
            }
            let new_text = splice_bytes(
                self.text.as_slice(),
                c.new_range.start,
                c.new_range.end,
                c.old_text.as_slice(),
            );
            let caret = c.old_range.start + c.old_text.len();
            self.text = new_text;
            self.selected_range = ByteRange { start: caret, end: caret };
            proof {
                assert(self.text@ == undo_change(t_cur, g@[j as int]));
                assert(undo_group(t_cur, rem) == undo_group(self.text@, g@.take(j as int)));
                assert(caret as int == c.new_range.start + c.old_text@.len());
                assert(is_boundary(self.text@, caret as int));
            }
        }
        proof {
            assert(g@.take(0) =~= Seq::<Change>::empty());
            assert(self.text@ == undo_group(t0, g@));
        }
        self.marked_range = None;
        self.selected_word_range = None;
        let ghost gv = g@;
        self.history.push_redo_group(g);
        proof {
            let tn = self.text@;
            assert(undo_stack_wf(t0, ov, p));
            assert(undo_stack_wf(tn, ov.drop_last(), p));
            assert(self.history.undo_view() == ov.drop_last());
            let rv = self.history.redo_view();
            assert(rv =~= old(self).history.redo_view().push(gv));
            assert(rv.last() == gv);
            assert(rv.drop_last() =~= old(self).history.redo_view());
            assert(group_wf_redo(tn, gv, p));
            assert(redo_group(tn, gv) == t0);
            assert(redo_stack_wf(t0, old(self).history.redo_view(), p));
            assert(redo_stack_wf(tn, rv, p));
        }
    }

    /// Redoes the most recently undone group: every change of the group
    /// is replayed, oldest first, restoring the later text byte for byte
    /// with the caret where the original edit left it; the group becomes
    /// undoable again.  Without a redo stack (or disabled) nothing
    /// changes.
    pub fn redo(&mut self)
        requires
            old(self).wf(),
        ensures
            final(self).wf(),
            old(self).disabled ==> *final(self) == *old(self),
            !old(self).disabled && old(self).marked_range is Some && !old(self).mask_pattern.is_unset() ==> *final(self) == *old(self),
            !old(self).disabled && Self::spec_can_record(*old(self)) && old(self).history.redo_view().len() == 0 ==> final(self).text@ == old(self).text@ && final(self).selected_range == old(self).selected_range && final(self).history.undo_view() == old(self).history.undo_view() && final(self).history.redo_view() == old(self).history.redo_view(),
            !old(self).disabled && Self::spec_can_record(*old(self)) && old(self).history.redo_view().len() > 0 ==> ({
                let g = old(self).history.redo_view().last();
                &&& final(self).text@ == redo_group(old(self).text@, g)
                &&& final(self).history.redo_view() =~= old(self).history.redo_view().drop_last()
                &&& final(self).history.undo_view() =~= old(self).history.undo_view().push(g)
                &&& final(self).selected_range.start == g.last().caret_after
                &&& final(self).selected_range.end == final(self).selected_range.start
                &&& final(self).marked_range is None
                &&& final(self).mode == old(self).mode
                &&& final(self).mask_pattern == old(self).mask_pattern
                &&& final(self).disabled == old(self).disabled
            }),
    {
        if self.disabled {
            return ;
        }
        if self.marked_range.is_some() && self.mask_pattern.tokens.len() > 0 {
            // a composition under a mask is still unformatted text; history
            // stays put until it ends
            return ;
        }
        let ghost p = self.mask_pattern.tokens@;
        let ghost t0 = self.text@;
        proof {
            if p.len() == 0 {
                assert(mask_spec(p, t0) =~= t0);
            }
            assert(mask_spec(p, t0) == t0);
        }
        let ghost orv = self.history.redo_view();
        let g = match self.history.pop_redo_group() {
            None => {
                return ;
            },
            Some(g) => g,
        };
        proof {
            assert(group_wf_redo(t0, g@, p));
            assert(g@.len() > 0);
            crate::history::lemma_group_redo_round_trip(t0, g@, p);
            assert(g@.skip(0) =~= g@);
        }
        let ghost hist1 = self.history;
        let mut j: usize = 0;
        while j < g.len()
            invariant
                self.history == hist1,
                self.mask_pattern == old(self).mask_pattern,
                self.mode == old(self).mode,
                self.disabled == old(self).disabled,
                self.mask_pattern.tokens@ == p,
                pattern_wf(p),
                j <= g@.len(),
                is_utf8(self.text@),
                mask_spec(p, self.text@) == self.text@,
                group_wf_redo(self.text@, g@.skip(j as int), p),
                redo_group(t0, g@) == redo_group(self.text@, g@.skip(j as int)),
                j > 0 ==> self.selected_range.start == g@[j as int - 1].caret_after
                    && self.selected_range.end == self.selected_range.start && range_in_text(
                    self.selected_range,
                    self.text@,
                ),
            decreases g@.len() - j,
        {
            let ghost t_cur = self.text@;
            let ghost rem = g@.skip(j as int);
            proof {
                assert(rem[0] == g@[j as int]);
                assert(rem.skip(1) =~= g@.skip(j as int + 1));
                assert(group_wf_redo(t_cur, rem, p));
            }
            let c = &g[j];
            proof {
                lemma_spliced_utf8(
                    t_cur,
                    c.old_range.start as int,
                    c.old_range.end as int,
                    c.new_text@,
                );
            }
            let new_text = splice_bytes(
                self.text.as_slice(),
                c.old_range.start,
                c.old_range.end,
                c.new_text.as_slice(),
            );
            let caret = c.caret_after;
            self.text = new_text;
            self.selected_range = ByteRange { start: caret, end: caret };
            j = j + 1;
            proof {
                assert(self.text@ == redo_change(t_cur, g@[j as int - 1]));
                assert(redo_group(t_cur, rem) == redo_group(self.text@, g@.skip(j as int)));
            }
        }
        proof {
            assert(g@.skip(g@.len() as int).len() == 0);
            assert(self.text@ == redo_group(t0, g@));
            assert(g@[g@.len() - 1] == g@.last());
        }
        self.marked_range = None;
        self.selected_word_range = None;
        let ghost gv = g@;
        self.history.push_undo_group(g);
        proof {
            let tn = self.text@;
            assert(redo_stack_wf(t0, orv, p));
            assert(redo_stack_wf(tn, orv.drop_last(), p));
            assert(self.history.redo_view() == orv.drop_last());
            let uv = self.history.undo_view();
            assert(uv =~= old(self).history.undo_view().push(gv));
            assert(uv.last() == gv);
            assert(uv.drop_last() =~= old(self).history.undo_view());
            assert(group_wf_undo(tn, gv, p));
            assert(undo_group(tn, gv) == t0);
            assert(undo_stack_wf(t0, old(self).history.undo_view(), p));
            assert(undo_stack_wf(tn, uv, p));
        }
    }

    /// Selection an IME composition asks for: a sub-range of the marked
    /// text in UTF-16 units, or the end of the marked text.
    pub open spec fn mark_selection(a: int, ins: Seq<u8>, sub: Option<ByteRange>) -> (int, int) {
        match sub {
            None => (a + ins.len(), a + ins.len()),
            Some(u) => (
                a + offset_of_utf16(ins, u.start as int, 0),
                a + offset_of_utf16(ins, u.end as int, 0),
            ),
        }
    }

    /// Starts or updates an IME composition: the resolved range is
    /// replaced by `new_text`, which stays marked (not yet committed), and
    /// the selection follows the composition's requested sub-range.  The
    /// same gate as a committed edit applies; a composition the mask would
    /// reformat is rejected outright, so the buffer is never left in a
    /// shape the mask did not produce.  An empty `new_text` abandons the
    /// composition.
    /// Starts or updates an IME composition: the resolved range is
    /// replaced by `new_text`, which stays marked (not yet committed) and
    /// is shown exactly as the IME sent it, and the selection follows the
    /// composition's requested sub-range.  The same validity gate as a
    /// committed edit applies; the mask formats the text only when the
    /// composition ends.  An empty `new_text` abandons the composition,
    /// upon which the mask reformats what remains.
    #[verifier::rlimit(60)]
    pub fn replace_and_mark_text_in_range(
        &mut self,
        range_utf16: Option<ByteRange>,
        new_text: &[u8],
        new_selected_range_utf16: Option<ByteRange>,
        now_ms: u64,
    ) -> (applied: bool)
        requires
            old(self).wf(),
            is_utf8(new_text@),
            range_utf16 matches Some(u) ==> u.wf(),
            new_selected_range_utf16 matches Some(u) ==> u.wf(),
        ensures
            final(self).wf(),
            old(self).disabled ==> !applied && *final(self) == *old(self),
            !old(self).disabled ==> ({
                let (a, b) = old(self).spec_resolved_range(range_utf16);
                let p = old(self).mask_pattern.tokens@;
                let t = old(self).text@;
                let pending = spliced(t, a, b, new_text@);
                &&& applied == Self::spec_edit_accepted(p, t, a, b, new_text@)
                &&& (!applied ==> *final(self) == *old(self))
                &&& (applied ==> {
                    &&& (new_text@.len() > 0 ==> {
                        let (sa, sb) = Self::mark_selection(
                            a,
                            new_text@,
                            new_selected_range_utf16,
                        );
                        &&& final(self).text@ == pending
                        &&& final(self).marked_range matches Some(m) && m.start as int == a
                            && m.end as int == a + new_text@.len()
                        &&& final(self).selected_range.start as int == sa
                        &&& final(self).selected_range.end as int == sb
                    })
                    &&& (new_text@.len() == 0 ==> {
                        let m = mask_spec(p, pending);
                        let pos = if a > m.len() {
                            m.len() as int
                        } else {
                            a as int
                        };
                        &&& final(self).text@ == m
                        &&& final(self).marked_range is None
                        &&& final(self).selected_range.start as int == snap_to_boundary(m, pos)
                        &&& final(self).selected_range.end == final(self).selected_range.start
                    })
                    &&& final(self).mode == old(self).mode
                    &&& final(self).mask_pattern == old(self).mask_pattern
                    &&& final(self).disabled == old(self).disabled
                })
            }),
    {
        if self.disabled {
            return false;
        }
        let ghost p = self.mask_pattern.tokens@;
        let ghost t = self.text@;
        let (a, b) = self.resolve_range(range_utf16);
        let pending = splice_bytes(self.text.as_slice(), a, b, new_text);
        proof {
            lemma_spliced_utf8(t, a as int, b as int, new_text@);
        }
        let accepted = if new_text.len() == 0 {
            true
        } else {
            self.mask_pattern.is_valid(pending.as_slice())
        };
        if !accepted {
            return false;
        }
        let pending_len = pending.len();
        proof {
            assert(pending@.len() == t.len() - (b - a) + new_text@.len());
            assert(a + new_text@.len() <= pending_len);
        }
        // abandoning the composition: the mask takes over again
        if new_text.len() == 0 {
            let masked = self.mask_pattern.mask(pending.as_slice());
            proof {
                crate::mask::lemma_mask_utf8(p, pending@);
                crate::mask::lemma_mask_idempotent(p, pending@);
            }
            let masked_eq = crate::utf8::eq_bytes(masked.as_slice(), pending.as_slice());
            let pos = if a > masked.len() {
                masked.len()
            } else {
                a
            };
            let caret = snap_offset(masked.as_slice(), pos);
            let can_chain = self.marked_range.is_none() || self.mask_pattern.tokens.len() == 0;
            proof {
                if can_chain && p.len() == 0 {
                    assert(mask_spec(p, t) =~= t);
                }
            }
            let record_now = !self.history.ignore && can_chain && masked_eq;
            let ghost ov = self.history.undo_view();
            let ghost coalesce = self.history.spec_would_coalesce(now_ms);
            let ghost gc: Change;
            if record_now {
                let c = Change {
                    old_range: ByteRange { start: a, end: b },
                    old_text: bytes_of_range(self.text.as_slice(), a, b),
                    new_range: ByteRange { start: a, end: a },
                    new_text: Vec::new(),
                    caret_after: caret,
                    timestamp_ms: now_ms,
                };
                proof {
                    gc = c;
                    assert(c.old_text@ =~= t.subrange(a as int, b as int));
                }
                self.history.push(c);
            } else {
                proof {
                    gc = arbitrary();
                }
                self.history.clear_history();
            }
            self.text = masked;
            self.marked_range = None;
            self.selected_range = ByteRange { start: caret, end: caret };
            self.selected_word_range = None;
            proof {
                let tn = self.text@;
                assert(mask_spec(p, tn) == tn);
                if record_now {
                    let c = gc;
                    assert(tn == pending@);
                    assert(tn.subrange(c.new_range.start as int, c.new_range.end as int)
                        =~= c.new_text@);
                    crate::utf8::lemma_splice_inverse(t, a as int, b as int, new_text@);
                    assert(undo_change(tn, c) == t);
                    lemma_subrange_utf8(t, a as int, b as int);
                    crate::history::lemma_stack_wf_after_record(
                        t,
                        tn,
                        c,
                        ov,
                        self.history.undo_view(),
                        p,
                        coalesce,
                    );
                }
            }
            return true;
        }
        // the selection the composition asks for, resolved inside the
        // marked text and shifted to its place in the buffer
        let (sa, sb): (usize, usize) = match new_selected_range_utf16 {
            None => (a + new_text.len(), a + new_text.len()),
            Some(u) => {
                let x = crate::utf8::offset_from_utf16(new_text, u.start);
                let y = crate::utf8::offset_from_utf16(new_text, u.end);
                proof {
                    crate::utf8::lemma_offset_of_utf16_monotone(
                        new_text@,
                        u.start as int,
                        u.end as int,
                        0,
                    );
                }
                (a + x, a + y)
            },
        };
        proof {
            assert(sa <= sb <= a + new_text@.len());
            assert forall|k: int|
                0 <= k <= new_text@.len() && is_boundary(new_text@, k) implies is_boundary(
                pending@,
                a + k,
            ) by {
                if k < new_text@.len() {
                    assert(pending@[a + k] == new_text@[k]);
                }
            }
        }
        let can_chain = self.marked_range.is_none() || self.mask_pattern.tokens.len() == 0;
        proof {
            if can_chain && p.len() == 0 {
                assert(mask_spec(p, t) =~= t);
            }
        }
        let record_now = !self.history.ignore && can_chain;
        let ghost ov = self.history.undo_view();
        let ghost coalesce = self.history.spec_would_coalesce(now_ms);
        let ghost gc: Change;
        if record_now {
            let c = Change {
                old_range: ByteRange { start: a, end: b },
                old_text: bytes_of_range(self.text.as_slice(), a, b),
                new_range: ByteRange { start: a, end: a + new_text.len() },
                new_text: bytes_of_range(new_text, 0, new_text.len()),
                caret_after: sb,
                timestamp_ms: now_ms,
            };
            proof {
                gc = c;
                assert(c.old_text@ =~= t.subrange(a as int, b as int));
                assert(c.new_text@ =~= new_text@);
            }
            self.history.push(c);
        } else {
            proof {
                gc = arbitrary();
            }
            self.history.clear_history();
        }
        self.text = pending;
        self.marked_range = Some(ByteRange { start: a, end: a + new_text.len() });
        self.selected_range = ByteRange { start: sa, end: sb };
        self.selected_word_range = None;
        proof {
            let tn = self.text@;
            if record_now {
                let c = gc;
                assert(tn.subrange(c.new_range.start as int, c.new_range.end as int)
                    =~= c.new_text@);
                crate::utf8::lemma_splice_inverse(t, a as int, b as int, new_text@);
                assert(undo_change(tn, c) == t);
                assert(mask_spec(p, t) == t);
                lemma_subrange_utf8(t, a as int, b as int);
                crate::history::lemma_stack_wf_after_record(
                    t,
                    tn,
                    c,
                    ov,
                    self.history.undo_view(),
                    p,
                    coalesce,
                );
            }
        }
        true
    }

    /// Ends any IME composition.  The buffer is untouched when it is
    /// already in the mask's shape (always so without a mask); otherwise
    /// the mask reformats it, the caret snaps near the old selection
    /// start, and the history starts afresh.
    pub fn unmark_text(&mut self)
        requires
            old(self).wf(),
        ensures
            final(self).wf(),
            final(self).marked_range is None,
            final(self).text@ == mask_spec(old(self).mask_pattern.tokens@, old(self).text@),
            old(self).marked_range is None ==> *final(self) == *old(self),
            mask_spec(old(self).mask_pattern.tokens@, old(self).text@) == old(self).text@
                ==> final(self).text@ == old(self).text@ && final(self).selected_range == old(self).selected_range && final(self).history == old(self).history,
    {
        let ghost p = self.mask_pattern.tokens@;
        if self.marked_range.is_none() {
            return ;
        }
        if self.mask_pattern.tokens.len() == 0 {
            proof {
                assert(mask_spec(p, self.text@) =~= self.text@);
            }
            self.marked_range = None;
            return ;
        }
        let masked = self.mask_pattern.mask(self.text.as_slice());
        if crate::utf8::eq_bytes(masked.as_slice(), self.text.as_slice()) {
            self.marked_range = None;
            return ;
        }
        // the composed text is not in the mask's shape: formatting it ends
        // the composition, and recorded edits no longer replay exactly
        proof {
            crate::mask::lemma_mask_utf8(p, self.text@);
            crate::mask::lemma_mask_idempotent(p, self.text@);
        }
        let pos = if self.selected_range.start > masked.len() {
            masked.len()
        } else {
            self.selected_range.start
        };
        let caret = snap_offset(masked.as_slice(), pos);
        self.text = masked;
        self.marked_range = None;
        self.selected_range = ByteRange { start: caret, end: caret };
        self.selected_word_range = None;
        self.history.clear_history();
    }

    /// The composition range in UTF-16 units, when one is in progress.
    pub fn marked_text_range(&self) -> (r: Option<ByteRange>)
        requires
            self.wf(),
        ensures
            self.marked_range is None <==> r is None,
            self.marked_range matches Some(m) ==> r matches Some(u) && u.start as int
                == utf16_count(self.text@, 0, m.start as int) && u.end as int == utf16_count(
                self.text@,
                0,
                m.end as int,
            ),
    {
        match &self.marked_range {
            Some(m) => {
                proof {
                    lemma_boundary_on_chain(self.text@, 0, m.start as int);
                }
                let s = crate::utf8::offset_to_utf16(self.text.as_slice(), m.start);
                let e = crate::utf8::offset_to_utf16(self.text.as_slice(), m.end);
                Some(ByteRange { start: s, end: e })
            },
            None => None,
        }
    }

    /// The selection in UTF-16 units.
    pub fn selected_text_range(&self) -> (r: ByteRange)
        requires
            self.wf(),
        ensures
            r.start as int == utf16_count(self.text@, 0, self.selected_range.start as int),
            r.end as int == utf16_count(self.text@, 0, self.selected_range.end as int),
    {
        let s = crate::utf8::offset_to_utf16(self.text.as_slice(), self.selected_range.start);
        let e = crate::utf8::offset_to_utf16(self.text.as_slice(), self.selected_range.end);
        ByteRange { start: s, end: e }
    }

    /// The bytes of the resolved UTF-16 range.
    pub fn text_for_range(&self, range_utf16: ByteRange) -> (r: Vec<u8>)
        requires
            self.wf(),
            range_utf16.wf(),
        ensures
            ({
                let (a, b) = self.spec_resolved_range(Some(range_utf16));
                r@ == self.text@.subrange(a, b)
            }),
    {
        let (a, b) = self.resolve_range(Some(range_utf16));
        bytes_of_range(self.text.as_slice(), a, b)
    }

    /// Largest grapheme-cluster boundary strictly before `offset`, or 0.
    pub fn previous_boundary(&self, offset: usize) -> (r: usize)
        requires
            self.wf(),
        ensures
            r as int == last_start_before(grapheme_starts(self.text@), offset as int, 0),
            r <= offset,
            r <= self.text@.len(),
            offset > 0 ==> r < offset,
            is_boundary(self.text@, r as int),
    {
        previous_grapheme_boundary(self.text.as_slice(), offset)
    }

    /// Smallest grapheme-cluster boundary strictly after `offset`, or the
    /// text length.  Applied to any boundary short of the end this
    /// strictly advances: it returns the next boundary, never the same
    /// one, unless the text end is already reached.
    pub fn next_boundary(&self, offset: usize) -> (r: usize)
        requires
            self.wf(),
        ensures
            r as int == first_start_after(
                grapheme_starts(self.text@),
                offset as int,
                self.text@.len() as int,
            ),
            r <= self.text@.len(),
            offset < self.text@.len() ==> r > offset,
            offset >= self.text@.len() ==> r == self.text@.len(),
            is_boundary(self.text@, r as int),
    {
        next_grapheme_boundary(self.text.as_slice(), offset)
    }

    /// One step left: collapses a selection to its start, or moves the
    /// caret to the previous grapheme boundary.
    pub fn left(&mut self)
        requires
            old(self).wf(),
        ensures
            final(self).wf(),
            old(self).selected_range.start != old(self).selected_range.end
                ==> Self::caret_moved_to(
                *old(self),
                *final(self),
                old(self).selected_range.start as int,
            ),
            old(self).selected_range.start == old(self).selected_range.end
                ==> Self::caret_moved_to(
                *old(self),
                *final(self),
                last_start_before(
                    grapheme_starts(old(self).text@),
                    old(self).spec_cursor_offset(),
                    0,
                ),
            ),
    {
        if self.selected_range.is_empty() {
            let cur = self.cursor_offset();
            let o = self.previous_boundary(cur);
            proof {
                assert(snap_to_boundary(self.text@, o as int) == o);
            }
            self.move_to(o);
        } else {
            let o = self.selected_range.start;
            proof {
                assert(snap_to_boundary(self.text@, o as int) == o);
            }
            self.move_to(o);
        }
    }

    /// One step right: collapses a selection to its end, or moves the
    /// caret to the next grapheme boundary.
    pub fn right(&mut self)
        requires
            old(self).wf(),
        ensures
            final(self).wf(),
            old(self).selected_range.start != old(self).selected_range.end
                ==> Self::caret_moved_to(
                *old(self),
                *final(self),
                old(self).selected_range.end as int,
            ),
            old(self).selected_range.start == old(self).selected_range.end
                ==> Self::caret_moved_to(
                *old(self),
                *final(self),
                first_start_after(
                    grapheme_starts(old(self).text@),
                    old(self).selected_range.end as int,
                    old(self).text@.len() as int,
                ),
            ),
    {
        if self.selected_range.is_empty() {
            let o = self.next_boundary(self.selected_range.end);
            proof {
                assert(snap_to_boundary(self.text@, o as int) == o);
            }
            self.move_to(o);
        } else {
            let o = self.selected_range.end;
            proof {
                assert(snap_to_boundary(self.text@, o as int) == o);
            }
            self.move_to(o);
        }
    }

    /// Extends the selection one grapheme boundary to the left.
    pub fn select_left(&mut self)
        requires
            old(self).wf(),
        ensures
            final(self).wf(),
            final(self).selected_range.start <= final(self).selected_range.end,
            Self::selection_extended_to(
                *old(self),
                *final(self),
                last_start_before(
                    grapheme_starts(old(self).text@),
                    old(self).spec_cursor_offset(),
                    0,
                ),
            ),
    {
        let cur = self.cursor_offset();
        let o = self.previous_boundary(cur);
        self.select_to(o);
    }

    /// Extends the selection one grapheme boundary to the right.
    pub fn select_right(&mut self)
        requires
            old(self).wf(),
        ensures
            final(self).wf(),
            final(self).selected_range.start <= final(self).selected_range.end,
            Self::selection_extended_to(
                *old(self),
                *final(self),
                first_start_after(
                    grapheme_starts(old(self).text@),
                    old(self).spec_cursor_offset(),
                    old(self).text@.len() as int,
                ),
            ),
    {
        let cur = self.cursor_offset();
        let o = self.next_boundary(cur);
        self.select_to(o);
    }

    /// Collapses the selection to the grapheme boundary after the caret.
    pub fn unselect(&mut self)
        requires
            old(self).wf(),
        ensures
            final(self).wf(),
            final(self).text@ == old(self).text@,
            final(self).selected_range.start as int == first_start_after(
                grapheme_starts(old(self).text@),
                old(self).spec_cursor_offset(),
                old(self).text@.len() as int,
            ),
            final(self).selected_range.end == final(self).selected_range.start,
            final(self).marked_range == old(self).marked_range,
            final(self).history == old(self).history,
            final(self).selection_reversed == old(self).selection_reversed,
            final(self).disabled == old(self).disabled,
            final(self).clean_on_escape == old(self).clean_on_escape,
            final(self).mode == old(self).mode,
    {
        let cur = self.cursor_offset();
        let o = self.next_boundary(cur);
        self.selected_range = ByteRange { start: o, end: o };
    }

    /// Moves the caret to the start of the buffer.
    pub fn move_to_start(&mut self)
        requires
            old(self).wf(),
        ensures
            final(self).wf(),
            final(self).text@ == old(self).text@,
            final(self).selected_range.start == 0 && final(self).selected_range.end == 0,
    {
        proof {
            assert(snap_to_boundary(self.text@, 0) == 0);
        }
        self.move_to(0);
    }

    /// Moves the caret to the end of the buffer.
    pub fn move_to_end(&mut self)
        requires
            old(self).wf(),
        ensures
            final(self).wf(),
            final(self).text@ == old(self).text@,
            final(self).selected_range.start == old(self).text@.len(),
            final(self).selected_range.end == old(self).text@.len(),
    {
        let len = self.text.len();
        proof {
            assert(is_boundary(self.text@, len as int));
            assert(snap_to_boundary(self.text@, len as int) == len);
        }
        self.move_to(len);
    }

    /// Moves the caret to the end of the buffer.
    pub fn move_cursor_to_end(&mut self)
        requires
            old(self).wf(),
        ensures
            final(self).wf(),
            final(self).text@ == old(self).text@,
            final(self).selected_range.start == old(self).text@.len(),
            final(self).selected_range.end == old(self).text@.len(),
    {
        self.move_to_end();
    }

    /// Extends the selection to the start of the buffer.
    pub fn select_to_start(&mut self)
        requires
            old(self).wf(),
        ensures
            final(self).wf(),
            final(self).selected_range.start <= final(self).selected_range.end,
            Self::selection_extended_to(*old(self), *final(self), 0),
    {
        self.select_to(0);
    }

    /// Extends the selection to the end of the buffer.
    pub fn select_to_end(&mut self)
        requires
            old(self).wf(),
        ensures
            final(self).wf(),
            final(self).selected_range.start <= final(self).selected_range.end,
            Self::selection_extended_to(*old(self), *final(self), old(self).text@.len() as int),
    {
        let len = self.text.len();
        self.select_to(len);
    }

    /// What pressing Escape did: ended a composition or a selection,
    /// cleared the field, or left everything for the host to handle.
    pub fn escape(&mut self) -> (r: EscapeOutcome)
        requires
            old(self).wf(),
        ensures
            final(self).wf(),
            final(self).marked_range is None,
            old(self).marked_range is None ==> ({
                let sel = old(self).selected_range;
                &&& (sel.start != sel.end ==> r is Unselected && final(self).text@ == old(
                    self,
                ).text@ && final(self).selected_range.start as int == first_start_after(
                    grapheme_starts(old(self).text@),
                    old(self).spec_cursor_offset(),
                    old(self).text@.len() as int,
                ) && final(self).selected_range.end == final(self).selected_range.start)
                &&& (sel.start == sel.end && old(self).clean_on_escape && !old(self).disabled
                    ==> r is Cleaned && final(self).text@.len() == 0)
                &&& (sel.start == sel.end && !(old(self).clean_on_escape && !old(self).disabled)
                    ==> r is Signal && *final(self) == *old(self))
            }),
    {
        if self.marked_range.is_some() {
            self.unmark_text();
            if self.selected_range.is_empty() {
                if self.clean_on_escape && !self.disabled {
                    self.clean();
                    return EscapeOutcome::Cleaned;
                }
                return EscapeOutcome::Signal;
            }
        }
        if !self.selected_range.is_empty() {
            self.unselect();
            return EscapeOutcome::Unselected;
        }
        if self.clean_on_escape && !self.disabled {
            self.clean();
            return EscapeOutcome::Cleaned;
        }
        EscapeOutcome::Signal
    }

    /// Sets the mask pattern as a builder: the current text is reformatted
    /// under the new template, the caret moves to its end, and the history
    /// starts afresh (recorded edits no longer replay under the new
    /// template).  The template doubles as the placeholder.
    pub fn mask_pattern(self, pattern: &[u8]) -> (r: InputState)
        requires
            self.wf(),
            is_utf8(pattern@),
        ensures
            r.wf(),
            r.text@ == mask_spec(r.mask_pattern.tokens@, self.text@),
            crate::mask::tokens_match(r.mask_pattern.tokens@, pattern@),
            r.mask_pattern.raw@ == pattern@,
            r.history.undo_view().len() == 0,
            r.history.redo_view().len() == 0,
            r.marked_range is None,
            r.selected_range.start == r.text@.len(),
            r.selected_range.end == r.selected_range.start,
    {
        let mut s = self;
        s.set_mask_pattern(pattern);
        s
    }

    /// Sets the mask pattern in place; see [`Self::mask_pattern`].
    pub fn set_mask_pattern(&mut self, pattern: &[u8])
        requires
            old(self).wf(),
            is_utf8(pattern@),
        ensures
            final(self).wf(),
            final(self).text@ == mask_spec(final(self).mask_pattern.tokens@, old(self).text@),
            crate::mask::tokens_match(final(self).mask_pattern.tokens@, pattern@),
            final(self).mask_pattern.raw@ == pattern@,
            final(self).history.undo_view().len() == 0,
            final(self).history.redo_view().len() == 0,
            final(self).marked_range is None,
            final(self).selected_range.start == final(self).text@.len(),
            final(self).selected_range.end == final(self).selected_range.start,
            !final(self).mask_pattern.is_unset() ==> final(self).placeholder@ == pattern@,
    {
        let mp = MaskPattern::parse(pattern);
        let ghost p = mp.tokens@;
        let masked = mp.mask(self.text.as_slice());
        proof {
            crate::mask::lemma_mask_utf8(p, self.text@);
            crate::mask::lemma_mask_idempotent(p, self.text@);
        }
        if mp.tokens.len() > 0 {
            if let Some(ph) = mp.placeholder() {
                self.placeholder = ph;
            }
        }
        self.mask_pattern = mp;
        self.text = masked;
        self.history.clear_history();
        self.marked_range = None;
        self.selected_word_range = None;
        let len = self.text.len();
        proof {
            assert(is_boundary(self.text@, len as int));
        }
        self.selected_range = ByteRange { start: len, end: len };
    }

    /// UTF-16 offset of the scalar boundary `offset` of the buffer.
    pub fn offset_to_utf16(&self, offset: usize) -> (r: usize)
        requires
            self.wf(),
            offset <= self.text@.len(),
            is_boundary(self.text@, offset as int),
        ensures
            r as int == utf16_count(self.text@, 0, offset as int),
    {
        crate::utf8::offset_to_utf16(self.text.as_slice(), offset)
    }

    /// Byte offset of the buffer for a UTF-16 offset.
    pub fn offset_from_utf16(&self, offset: usize) -> (r: usize)
        requires
            self.wf(),
        ensures
            r as int == offset_of_utf16(self.text@, offset as int, 0),
            is_boundary(self.text@, r as int),
            r <= self.text@.len(),
    {
        crate::utf8::offset_from_utf16(self.text.as_slice(), offset)
    }

    /// A byte range of the buffer in UTF-16 units.
    pub fn range_to_utf16(&self, range: ByteRange) -> (r: ByteRange)
        requires
            self.wf(),
            range.wf(),
            range.end <= self.text@.len(),
            is_boundary(self.text@, range.start as int),
            is_boundary(self.text@, range.end as int),
        ensures
            r.start as int == utf16_count(self.text@, 0, range.start as int),
            r.end as int == utf16_count(self.text@, 0, range.end as int),
    {
        ByteRange {
            start: self.offset_to_utf16(range.start),
            end: self.offset_to_utf16(range.end),
        }
    }

    /// A UTF-16 range as a byte range of the buffer.
    pub fn range_from_utf16(&self, range_utf16: ByteRange) -> (r: ByteRange)
        requires
            self.wf(),
        ensures
            r.start as int == offset_of_utf16(self.text@, range_utf16.start as int, 0),
            r.end as int == offset_of_utf16(self.text@, range_utf16.end as int, 0),
    {
        ByteRange {
            start: self.offset_from_utf16(range_utf16.start),
            end: self.offset_from_utf16(range_utf16.end),
        }
    }

    /// Deletes the selection, or the grapheme cluster before the caret
    /// when the selection is empty.
    pub fn backspace(&mut self, now_ms: u64)
        requires
            old(self).wf(),
        ensures
            final(self).wf(),
            old(self).disabled ==> *final(self) == *old(self),
            !old(self).disabled && old(self).marked_range is None && old(self).selected_word_range is None ==> ({
                let t = old(self).text@;
                let p = old(self).mask_pattern.tokens@;
                let sel = old(self).selected_range;
                let a = if sel.start == sel.end {
                    last_start_before(grapheme_starts(t), old(self).spec_cursor_offset(), 0)
                } else {
                    sel.start as int
                };
                let caret = edit_caret(p, t, a, sel.end as int, Seq::empty());
                &&& final(self).text@ == mask_spec(p, spliced(t, a, sel.end as int, Seq::empty()))
                &&& final(self).selected_range.start as int == caret
                &&& final(self).selected_range.end as int == caret
                &&& final(self).marked_range is None
            }),
    {
        if self.disabled {
            return ;
        }
        if self.selected_range.is_empty() {
            let cur = self.cursor_offset();
            let o = self.previous_boundary(cur);
            self.select_to(o);
        }
        let empty: Vec<u8> = Vec::new();
        let a = self.selected_range.start;
        let b = self.selected_range.end;
        self.apply_edit_in_byte_range(a, b, empty.as_slice(), now_ms, true);
    }

    /// Deletes the selection, or the grapheme cluster after the caret when
    /// the selection is empty.
    pub fn delete(&mut self, now_ms: u64)
        requires
            old(self).wf(),
        ensures
            final(self).wf(),
            old(self).disabled ==> *final(self) == *old(self),
            !old(self).disabled && old(self).marked_range is None && old(self).selected_word_range is None ==> ({
                let t = old(self).text@;
                let p = old(self).mask_pattern.tokens@;
                let sel = old(self).selected_range;
                let b = if sel.start == sel.end {
                    first_start_after(
                        grapheme_starts(t),
                        old(self).spec_cursor_offset(),
                        t.len() as int,
                    )
                } else {
                    sel.end as int
                };
                let caret = edit_caret(p, t, sel.start as int, b, Seq::empty());
                &&& final(self).text@ == mask_spec(p, spliced(t, sel.start as int, b, Seq::empty()))
                &&& final(self).selected_range.start as int == caret
                &&& final(self).selected_range.end as int == caret
                &&& final(self).marked_range is None
            }),
    {
        if self.disabled {
            return ;
        }
        if self.selected_range.is_empty() {
            let cur = self.cursor_offset();
            let o = self.next_boundary(cur);
            self.select_to(o);
        }
        let empty: Vec<u8> = Vec::new();
        let a = self.selected_range.start;
        let b = self.selected_range.end;
        self.apply_edit_in_byte_range(a, b, empty.as_slice(), now_ms, true);
    }

    /// Start of the logical, newline-delimited line holding the caret (0
    /// in the single-line mode).  Deletion and indentation work on logical
    /// lines; the Home key goes through [`Self::home`], which follows the
    /// visual rows when a layout is at hand.
    pub fn start_of_line(&self) -> (r: usize)
        requires
            self.wf(),
        ensures
            self.spec_is_single_line() ==> r == 0,
            !self.spec_is_single_line() ==> r as int == crate::utf8::line_start(
                self.text@,
                self.spec_cursor_offset(),
            ),
            r <= self.text@.len(),
            is_boundary(self.text@, r as int),
    {
        if self.is_single_line() {
            return 0;
        }
        let cur = self.cursor_offset();
        crate::utf8::find_line_start(self.text.as_slice(), cur)
    }

    /// End of the logical, newline-delimited line holding the caret (the
    /// text length in the single-line mode).  Deletion and indentation work
    /// on logical lines; the End key goes through [`Self::end`], which
    /// follows the visual rows when a layout is at hand.
    pub fn end_of_line(&self) -> (r: usize)
        requires
            self.wf(),
        ensures
            self.spec_is_single_line() ==> r == self.text@.len(),
            !self.spec_is_single_line() ==> r as int == crate::utf8::line_end(
                self.text@,
                self.spec_cursor_offset(),
            ),
            r <= self.text@.len(),
            is_boundary(self.text@, r as int),
    {
        if self.is_single_line() {
            return self.text.len();
        }
        let cur = self.cursor_offset();
        crate::utf8::find_line_end(self.text.as_slice(), cur)
    }

    /// Moves the caret to the start of the current line: of the visual
    /// (wrap-aware) row when a layout is at hand in a multi-line mode, of
    /// the logical line otherwise (also the harmless fallback before the
    /// first layout pass).
    pub fn home(&mut self, layout: Option<&crate::layout::LineLayout>)
        requires
            old(self).wf(),
            layout matches Some(l) ==> l.wf() && l.lines@.len() > 0
                && crate::layout::line_offset_spec(l.lines@, l.lines@.len() as int) <= usize::MAX,
        ensures
            final(self).wf(),
            old(self).spec_is_single_line() || layout is None ==> Self::caret_moved_to(
                *old(self),
                *final(self),
                old(self).start_of_line_spec(),
            ),
            !old(self).spec_is_single_line() ==> (layout matches Some(l)
                ==> Self::caret_moved_to(
                *old(self),
                *final(self),
                crate::layout::visual_row_bounds_spec(l.lines@, old(self).spec_cursor_offset()).0,
            )),
    {
        if !self.is_single_line() {
            if let Some(l) = layout {
                let cur = self.cursor_offset();
                let (row_start, _) = l.visual_row_range(cur);
                self.move_to(row_start);
                return ;
            }
        }
        let o = self.start_of_line();
        self.move_to(o);
    }

    /// Moves the caret to the end of the current line: of the visual
    /// (wrap-aware) row when a layout is at hand in a multi-line mode, of
    /// the logical line otherwise.
    pub fn end(&mut self, layout: Option<&crate::layout::LineLayout>)
        requires
            old(self).wf(),
            layout matches Some(l) ==> l.wf() && l.lines@.len() > 0
                && crate::layout::line_offset_spec(l.lines@, l.lines@.len() as int) <= usize::MAX,
        ensures
            final(self).wf(),
            old(self).spec_is_single_line() || layout is None ==> Self::caret_moved_to(
                *old(self),
                *final(self),
                old(self).end_of_line_spec(),
            ),
            !old(self).spec_is_single_line() ==> (layout matches Some(l)
                ==> Self::caret_moved_to(
                *old(self),
                *final(self),
                crate::layout::visual_row_bounds_spec(l.lines@, old(self).spec_cursor_offset()).1,
            )),
    {
        if !self.is_single_line() {
            if let Some(l) = layout {
                let cur = self.cursor_offset();
                let (_, row_end) = l.visual_row_range(cur);
                self.move_to(row_end);
                return ;
            }
        }
        let o = self.end_of_line();
        self.move_to(o);
    }

    /// Spec twin of [`Self::start_of_line`].
    pub open spec fn start_of_line_spec(&self) -> int {
        if self.spec_is_single_line() {
            0
        } else {
            crate::utf8::line_start(self.text@, self.spec_cursor_offset())
        }
    }

    /// Spec twin of [`Self::end_of_line`].
    pub open spec fn end_of_line_spec(&self) -> int {
        if self.spec_is_single_line() {
            self.text@.len() as int
        } else {
            crate::utf8::line_end(self.text@, self.spec_cursor_offset())
        }
    }

    /// Extends the selection to the start of the current line.
    pub fn select_to_start_of_line(&mut self)
        requires
            old(self).wf(),
        ensures
            final(self).wf(),
            final(self).selected_range.start <= final(self).selected_range.end,
            Self::selection_extended_to(*old(self), *final(self), old(self).start_of_line_spec()),
    {
        let o = self.start_of_line();
        self.select_to(o);
    }

    /// Extends the selection to the end of the current line.
    pub fn select_to_end_of_line(&mut self)
        requires
            old(self).wf(),
        ensures
            final(self).wf(),
            final(self).selected_range.start <= final(self).selected_range.end,
            Self::selection_extended_to(*old(self), *final(self), old(self).end_of_line_spec()),
    {
        let o = self.end_of_line();
        self.select_to(o);
    }

    /// Deletes from the start of the line to the caret; at a line start it
    /// deletes the newline joining the previous line instead.
    pub fn delete_to_beginning_of_line(&mut self, now_ms: u64)
        requires
            old(self).wf(),
        ensures
            final(self).wf(),
            old(self).disabled ==> *final(self) == *old(self),
            !old(self).disabled ==> ({
                let cur = old(self).spec_cursor_offset();
                let ls = old(self).start_of_line_spec();
                let a = if ls == cur && ls > 0 && !old(self).spec_is_single_line() {
                    ls - 1
                } else {
                    ls
                };
                Self::edit_post(*old(self), *final(self), a, cur, Seq::empty(), now_ms, true)
            }),
    {
        if self.disabled {
            return ;
        }
        let cur = self.cursor_offset();
        let mut offset = self.start_of_line();
        proof {
            crate::utf8::lemma_line_start_bounds(self.text@, self.spec_cursor_offset());
        }
        if offset == cur && offset > 0 && self.is_multi_line() {
            proof {
                assert(self.text@[offset - 1] == 0x0A);
            }
            offset = offset - 1;
            proof {
                assert(!is_cont_byte(self.text@[offset as int]));
            }
        }
        let empty: Vec<u8> = Vec::new();
        self.apply_edit_in_byte_range(offset, cur, empty.as_slice(), now_ms, true);
    }

    /// Deletes from the caret to the end of the line; at a line end it
    /// deletes the newline joining the next line instead.
    pub fn delete_to_end_of_line(&mut self, now_ms: u64)
        requires
            old(self).wf(),
        ensures
            final(self).wf(),
            old(self).disabled ==> *final(self) == *old(self),
            !old(self).disabled ==> ({
                let cur = old(self).spec_cursor_offset();
                let le = old(self).end_of_line_spec();
                let b = if le == cur && le < old(self).text@.len() && !old(
                    self,
                ).spec_is_single_line() {
                    le + 1
                } else {
                    le
                };
                Self::edit_post(*old(self), *final(self), cur, b, Seq::empty(), now_ms, true)
            }),
    {
        if self.disabled {
            return ;
        }
        let cur = self.cursor_offset();
        let mut offset = self.end_of_line();
        proof {
            crate::utf8::lemma_line_end_bounds(self.text@, self.spec_cursor_offset());
        }
        if offset == cur && offset < self.text.len() && self.is_multi_line() {
            proof {
                assert(self.text@[offset as int] == 0x0A);
                crate::utf8::lemma_ascii_successor_boundary(self.text@, offset + 1);
            }
            offset = offset + 1;
        }
        let empty: Vec<u8> = Vec::new();
        self.apply_edit_in_byte_range(cur, offset, empty.as_slice(), now_ms, true);
    }

    /// Selects the maximal run of word characters (alphanumeric or
    /// underscore) around `offset` and remembers it, so that a following
    /// drag never shrinks the selection below the word.  On a non-word
    /// character nothing changes.
    pub fn select_word(&mut self, offset: usize)
        requires
            old(self).wf(),
        ensures
            final(self).wf(),
            final(self).text@ == old(self).text@,
            ({
                let t = old(self).text@;
                let len = t.len() as int;
                let o = snap_to_boundary(
                    t,
                    if offset > len {
                        len
                    } else {
                        offset as int
                    },
                );
                let ws = crate::segment::word_run_start(t, o);
                let we = crate::segment::word_run_end(t, o);
                if ws == we {
                    final(self).selected_range == old(self).selected_range
                        && final(self).selected_word_range == old(self).selected_word_range
                } else {
                    &&& final(self).selected_range.start as int == ws
                    &&& final(self).selected_range.end as int == we
                    &&& (final(self).selected_word_range matches Some(w) && w.start as int == ws
                        && w.end as int == we)
                }
            }),
    {
        let len = self.text.len();
        let clamped = if offset > len {
            len
        } else {
            offset
        };
        let o = snap_offset(self.text.as_slice(), clamped);
        let (ws, we) = crate::segment::word_range_at(self.text.as_slice(), o);
        if ws == we {
            return ;
        }
        self.selected_range = ByteRange { start: ws, end: we };
        self.selected_word_range = Some(ByteRange { start: ws, end: we });
    }

    /// Start of the last word before the selection start.
    pub fn previous_start_of_word(&self) -> (r: usize)
        requires
            self.wf(),
        ensures
            r <= self.selected_range.start,
            r <= self.text@.len(),
            is_boundary(self.text@, r as int),
            ({
                let pfx = self.text@.subrange(0, self.selected_range.start as int);
                r as int == crate::segment::last_nonblank_start(
                    pfx,
                    crate::segment::word_segment_starts(pfx),
                    0,
                    0,
                )
            }),
    {
        crate::segment::previous_word_start(self.text.as_slice(), self.selected_range.start)
    }

    /// End of the first word after the caret.
    pub fn next_end_of_word(&self) -> (r: usize)
        requires
            self.wf(),
        ensures
            self.spec_cursor_offset() <= r,
            r <= self.text@.len(),
            is_boundary(self.text@, r as int),
            ({
                let cur = self.spec_cursor_offset();
                let sfx = self.text@.subrange(cur, self.text@.len() as int);
                r == cur + crate::segment::first_nonblank_end(
                    sfx,
                    crate::segment::word_segment_starts(sfx),
                    0,
                )
            }),
    {
        let cur = self.cursor_offset();
        crate::segment::next_word_end(self.text.as_slice(), cur)
    }

    /// Moves the caret to the start of the previous word.
    pub fn move_to_previous_word(&mut self)
        requires
            old(self).wf(),
        ensures
            final(self).wf(),
            Self::caret_moved_to(*old(self), *final(self), old(self).spec_previous_start_of_word()),
    {
        let o = self.previous_start_of_word();
        self.move_to(o);
    }

    /// Moves the caret to the end of the next word.
    pub fn move_to_next_word(&mut self)
        requires
            old(self).wf(),
        ensures
            final(self).wf(),
            Self::caret_moved_to(*old(self), *final(self), old(self).spec_next_end_of_word()),
    {
        let o = self.next_end_of_word();
        self.move_to(o);
    }

    /// Extends the selection to the start of the previous word.
    pub fn select_to_previous_word(&mut self)
        requires
            old(self).wf(),
        ensures
            final(self).wf(),
            final(self).selected_range.start <= final(self).selected_range.end,
            Self::selection_extended_to(
                *old(self),
                *final(self),
                old(self).spec_previous_start_of_word(),
            ),
    {
        let o = self.previous_start_of_word();
        self.select_to(o);
    }

    /// Extends the selection to the end of the next word.
    pub fn select_to_next_word(&mut self)
        requires
            old(self).wf(),
        ensures
            final(self).wf(),
            final(self).selected_range.start <= final(self).selected_range.end,
            Self::selection_extended_to(*old(self), *final(self), old(self).spec_next_end_of_word()),
    {
        let o = self.next_end_of_word();
        self.select_to(o);
    }

    /// Deletes from the start of the previous word to the caret.
    pub fn delete_previous_word(&mut self, now_ms: u64)
        requires
            old(self).wf(),
        ensures
            final(self).wf(),
            old(self).disabled ==> *final(self) == *old(self),
            !old(self).disabled && old(self).marked_range is None ==> Self::edit_post(
                *old(self),
                *final(self),
                old(self).spec_previous_start_of_word(),
                old(self).spec_cursor_offset(),
                Seq::empty(),
                now_ms,
                true,
            ),
    {
        if self.disabled {
            return ;
        }
        let o = self.previous_start_of_word();
        let cur = self.cursor_offset();
        if o <= cur {
            let empty: Vec<u8> = Vec::new();
            self.apply_edit_in_byte_range(o, cur, empty.as_slice(), now_ms, true);
        }
    }

    /// Deletes from the caret to the end of the next word.
    pub fn delete_next_word(&mut self, now_ms: u64)
        requires
            old(self).wf(),
        ensures
            final(self).wf(),
            old(self).disabled ==> *final(self) == *old(self),
            !old(self).disabled ==> Self::edit_post(
                *old(self),
                *final(self),
                old(self).spec_cursor_offset(),
                old(self).spec_next_end_of_word(),
                Seq::empty(),
                now_ms,
                true,
            ),
    {
        if self.disabled {
            return ;
        }
        let o = self.next_end_of_word();
        let cur = self.cursor_offset();
        if cur <= o {
            let empty: Vec<u8> = Vec::new();
            self.apply_edit_in_byte_range(cur, o, empty.as_slice(), now_ms, true);
        }
    }


    /// The text a paste inserts: unchanged in the multi-line modes, with
    /// every newline stripped in the single-line mode.  The host feeds the
    /// result to [`Self::replace`].
    pub fn sanitize_paste(&self, bytes: &[u8]) -> (r: Vec<u8>)
        requires
            self.wf(),
            is_utf8(bytes@),
        ensures
            is_utf8(r@),
            self.spec_is_single_line() ==> r@ == without_newlines(bytes@),
            !self.spec_is_single_line() ==> r@ == bytes@,
    {
        if self.is_single_line() {
            let mut out: Vec<u8> = Vec::new();
            proof {
                assert(bytes@.skip(0) =~= bytes@);
            }
            without_newlines_into(bytes, 0, &mut out);
            proof {
                assert(out@ == without_newlines(bytes@));
                lemma_without_newlines_utf8(bytes@);
            }
            out
        } else {
            let out = bytes_of_range(bytes, 0, bytes.len());
            proof {
                assert(out@ =~= bytes@);
            }
            out
        }
    }

    /// Bytes of the current selection (what copy and cut put on the
    /// clipboard; the clipboard itself is the host's affair).
    pub fn selected_text(&self) -> (r: Vec<u8>)
        requires
            self.wf(),
        ensures
            r@ == self.text@.subrange(
                self.selected_range.start as int,
                self.selected_range.end as int,
            ),
    {
        bytes_of_range(self.text.as_slice(), self.selected_range.start, self.selected_range.end)
    }

    /// Deletes the selection: the editing half of cut, after the host has
    /// copied the selected bytes out.
    pub fn delete_selection(&mut self, now_ms: u64)
        requires
            old(self).wf(),
        ensures
            final(self).wf(),
            old(self).disabled ==> *final(self) == *old(self),
            !old(self).disabled && old(self).marked_range is None ==> final(self).text@
                == mask_spec(
                old(self).mask_pattern.tokens@,
                spliced(
                    old(self).text@,
                    old(self).selected_range.start as int,
                    old(self).selected_range.end as int,
                    Seq::empty(),
                ),
            ),
    {
        if self.disabled {
            return ;
        }
        let a = self.selected_range.start;
        let b = self.selected_range.end;
        let empty: Vec<u8> = Vec::new();
        self.apply_edit_in_byte_range(a, b, empty.as_slice(), now_ms, true);
    }


    /// The byte form of one indent step of `tab`.
    pub open spec fn tab_bytes_spec(tab: TabSize) -> Seq<u8> {
        if tab.hard_tabs {
            seq![0x09u8]
        } else {
            Seq::new(tab.tab_size as nat, |i: int| 0x20u8)
        }
    }

    /// Tab settings of the current mode, as a spec value.
    pub open spec fn spec_mode_tab(&self) -> Option<TabSize> {
        match self.mode {
            InputMode::MultiLine { tab, .. } => Some(tab),
            InputMode::CodeEditor { tab, .. } => Some(tab),
            _ => None,
        }
    }

    /// Tab settings of the current mode, when indentation is active.
    pub fn mode_tab(&self) -> (r: Option<TabSize>)
        ensures
            r == self.spec_mode_tab(),
    {
        match &self.mode {
            InputMode::MultiLine { tab, .. } => Some(*tab),
            InputMode::CodeEditor { tab, .. } => Some(*tab),
            _ => None,
        }
    }

    /// The indentation a newline on the caret's line carries along: the
    /// caret line's or the next line's leading whitespace, whichever is
    /// deeper.
    pub open spec fn spec_indent_of_next_line(&self) -> Seq<u8> {
        let t = self.text@;
        let ls = self.start_of_line_spec();
        let ce = crate::segment::indent_run_end(t, ls);
        let le = self.end_of_line_spec();
        let cur = t.subrange(ls, ce);
        if self.spec_is_single_line() {
            Seq::empty()
        } else if le < t.len() {
            let ne = crate::segment::indent_run_end(t, le + 1);
            let nxt = t.subrange(le + 1, ne);
            if nxt.len() > cur.len() {
                nxt
            } else {
                cur
            }
        } else {
            cur
        }
    }

    /// The indentation of the caret's line or of the next line, whichever
    /// is deeper: what a newline in the code-editor mode inserts after
    /// itself.
    pub fn indent_of_next_line(&self) -> (r: Vec<u8>)
        requires
            self.wf(),
        ensures
            is_utf8(r@),
            r@ == self.spec_indent_of_next_line(),
    {
        if self.is_single_line() {
            let r: Vec<u8> = Vec::new();
            return r;
        }
        let ls = self.start_of_line();
        let ce = crate::segment::indent_run_end_rec(self.text.as_slice(), ls);
        proof {
            lemma_subrange_utf8(self.text@, ls as int, ce as int);
        }
        let le = self.end_of_line();
        if le < self.text.len() {
            proof {
                crate::utf8::lemma_line_end_bounds(self.text@, self.spec_cursor_offset());
                assert(self.text@[le as int] == 0x0A);
                crate::utf8::lemma_ascii_successor_boundary(self.text@, le + 1);
            }
            let ne = crate::segment::indent_run_end_rec(self.text.as_slice(), le + 1);
            if ne - (le + 1) > ce - ls {
                proof {
                    lemma_subrange_utf8(self.text@, le + 1, ne as int);
                }
                return bytes_of_range(self.text.as_slice(), le + 1, ne);
            }
        }
        bytes_of_range(self.text.as_slice(), ls, ce)
    }

    /// A newline press: in the multi-line modes (without the secondary
    /// modifier) a line break is inserted at the resolved range, in the
    /// code-editor mode together with the carried indentation; the host
    /// then emits its enter signal either way.
    pub fn enter(&mut self, secondary: bool, now_ms: u64)
        requires
            old(self).wf(),
        ensures
            final(self).wf(),
            old(self).spec_is_single_line() || secondary ==> *final(self) == *old(self),
            !old(self).spec_is_single_line() && !secondary && old(self).disabled ==> *final(self)
                == *old(self),
            !old(self).spec_is_single_line() && !secondary && !old(self).disabled ==> ({
                let ind = if old(self).mode is CodeEditor {
                    old(self).spec_indent_of_next_line()
                } else {
                    Seq::empty()
                };
                let ins = seq![0x0Au8] + ind;
                let (a, b) = old(self).spec_resolved_range(None);
                if Self::spec_edit_accepted(
                    old(self).mask_pattern.tokens@,
                    old(self).text@,
                    a,
                    b,
                    ins,
                ) {
                    Self::edit_post(*old(self), *final(self), a, b, ins, now_ms, true)
                } else {
                    *final(self) == *old(self)
                }
            }),
    {
        if !self.is_multi_line() || secondary {
            return ;
        }
        {
            let indent: Vec<u8> = match &self.mode {
                InputMode::CodeEditor { .. } => self.indent_of_next_line(),
                _ => Vec::new(),
            };
            let mut ins: Vec<u8> = Vec::new();
            ins.push(0x0A);
            let ghost nl = ins@;
            ins.extend_from_slice(indent.as_slice());
            proof {
                assert forall|i: int, j: int|
                    0 <= i && 0 <= j && cloned::<u8>(ins@[i], ins@[j]) implies ins@[i]
                    == ins@[j] by {}
                assert(ins@ =~= nl + indent@);
                assert(is_utf8(nl)) by {
                    assert(valid_scalar_at(nl, 0));
                    assert(utf8_from(nl, 1));
                }
                crate::utf8::lemma_concat_utf8(nl, indent@, 0);
            }
            self.replace(ins.as_slice(), now_ms);
        }
    }

    /// Builds the byte form of one indent step.
    fn tab_insert_bytes(tab: TabSize) -> (r: Vec<u8>)
        ensures
            is_utf8(r@),
            r@ == Self::tab_bytes_spec(tab),
            forall|k: int| 0 <= k < r@.len() ==> r@[k] < 0x80,
    {
        let mut v: Vec<u8> = Vec::new();
        if tab.hard_tabs {
            v.push(0x09);
            proof {
                assert(valid_scalar_at(v@, 0));
                assert(utf8_from(v@, 1));
                assert(v@ =~= Self::tab_bytes_spec(tab));
            }
            return v;
        }
        let mut k: usize = 0;
        while k < tab.tab_size
            invariant
                k <= tab.tab_size,
                v@.len() == k,
                is_utf8(v@),
                forall|i: int| 0 <= i < v@.len() ==> v@[i] == 0x20,
            decreases tab.tab_size - k,
        {
            let ghost before = v@;
            v.push(0x20);
            proof {
                assert(v@ =~= before + seq![0x20u8]);
                assert(is_utf8(seq![0x20u8])) by {
                    assert(valid_scalar_at(seq![0x20u8], 0));
                    assert(utf8_from(seq![0x20u8], 1));
                }
                crate::utf8::lemma_concat_utf8(before, seq![0x20u8], 0);
            }
            k = k + 1;
        }
        proof {
            assert(v@ =~= Self::tab_bytes_spec(tab));
        }
        v
    }

    /// Indents by one tab step: at the caret when nothing is selected,
    /// else at the start of every line the selection touches, the indented
    /// block staying selected.  Active only in the modes that have a tab
    /// setting; the mask (never set on such fields in practice) may still
    /// reject or reformat the result like any other edit.
    pub fn indent(&mut self, now_ms: u64)
        requires
            old(self).wf(),
        ensures
            final(self).wf(),
            old(self).disabled ==> *final(self) == *old(self),
            old(self).spec_mode_tab() is None ==> *final(self) == *old(self),
            ({
                let p = old(self).mask_pattern.tokens@;
                let t = old(self).text@;
                let sel = old(self).selected_range;
                match old(self).spec_mode_tab() {
                    None => true,
                    Some(tab) => {
                        let tb = Self::tab_bytes_spec(tab);
                        if tb.len() == 0 || old(self).disabled {
                            true
                        } else if sel.start == sel.end {
                            let a = sel.start as int;
                            if Self::spec_edit_accepted(p, t, a, a, tb) {
                                Self::edit_post(*old(self), *final(self), a, a, tb, now_ms, true)
                            } else {
                                *final(self) == *old(self)
                            }
                        } else {
                            let bs = crate::utf8::line_start(t, sel.start as int);
                            let block = t.subrange(bs, sel.end as int);
                            let nb = indent_lines(block, tb);
                            let pend = spliced(t, bs, sel.end as int, nb);
                            if Self::spec_edit_accepted(p, t, bs, sel.end as int, nb) {
                                &&& final(self).text@ == mask_spec(p, pend)
                                &&& (p.len() == 0 ==> final(self).text@ == pend && final(self).selected_range.start as int == bs && final(self).selected_range.end as int == bs + nb.len())
                            } else {
                                *final(self) == *old(self)
                            }
                        }
                    },
                }
            }),
    {
        if self.disabled {
            return ;
        }
        let tab = match self.mode_tab() {
            None => {
                return ;
            },
            Some(t) => t,
        };
        let tabv = Self::tab_insert_bytes(tab);
        if tabv.len() == 0 {
            return ;
        }
        let ghost p = self.mask_pattern.tokens@;
        let ghost t = self.text@;
        let sel = self.selected_range;
        if sel.start == sel.end {
            let off = sel.start;
            self.apply_edit_in_byte_range(off, off, tabv.as_slice(), now_ms, true);
            return ;
        }
        // transform the whole touched block in one recorded edit
        let bs = crate::utf8::find_line_start(self.text.as_slice(), sel.start);
        let block = bytes_of_range(self.text.as_slice(), bs, sel.end);
        let mut nb: Vec<u8> = Vec::new();
        nb.extend_from_slice(tabv.as_slice());
        proof {
            assert forall|i: int, j: int|
                0 <= i && 0 <= j && cloned::<u8>(nb@[i], nb@[j]) implies nb@[i] == nb@[j] by {}
            assert(nb@ =~= tabv@);
            assert(block@.skip(0) =~= block@);
        }
        indent_rest_into(block.as_slice(), 0, tabv.as_slice(), &mut nb);
        proof {
            assert(nb@ == indent_lines(block@, tabv@));
            lemma_subrange_utf8(t, bs as int, sel.end as int);
            lemma_indent_rest_utf8(block@, tabv@);
            crate::utf8::lemma_concat_utf8(tabv@, indent_rest(block@, tabv@), 0);
            assert(is_utf8(nb@));
        }
        let applied = self.apply_edit_in_byte_range(bs, sel.end, nb.as_slice(), now_ms, true);
        if applied {
            // the indented block stays selected
            let len_now = self.text.len();
            let s0 = if bs > len_now {
                len_now
            } else {
                bs
            };
            let start_c = snap_offset(self.text.as_slice(), s0);
            let e0 = if bs <= len_now && nb.len() <= len_now - bs {
                bs + nb.len()
            } else {
                len_now
            };
            let mut end_c = snap_offset(self.text.as_slice(), e0);
            if end_c < start_c {
                end_c = start_c;
            }
            self.selected_range = ByteRange { start: start_c, end: end_c };
            proof {
                if p.len() == 0 {
                    let pend = spliced(t, bs as int, sel.end as int, nb@);
                    assert(mask_spec(p, pend) =~= pend);
                    assert(self.text@ == pend);
                    lemma_spliced_utf8(t, bs as int, sel.end as int, nb@);
                    assert(is_boundary(self.text@, bs as int));
                    assert(is_boundary(self.text@, bs + nb@.len()));
                    assert(snap_to_boundary(self.text@, bs as int) == bs);
                    assert(snap_to_boundary(self.text@, bs + nb@.len()) == bs + nb@.len());
                }
            }
        }
    }

    /// Removes one leading tab step: from the caret's line when nothing is
    /// selected (the caret shifting left by the removed step), else from
    /// every line the selection touches that starts with one, the block
    /// staying selected.  Lines without the leading step are untouched.
    pub fn outdent(&mut self, now_ms: u64)
        requires
            old(self).wf(),
        ensures
            final(self).wf(),
            old(self).disabled ==> *final(self) == *old(self),
            old(self).spec_mode_tab() is None ==> *final(self) == *old(self),
            ({
                let p = old(self).mask_pattern.tokens@;
                let t = old(self).text@;
                let sel = old(self).selected_range;
                match old(self).spec_mode_tab() {
                    None => true,
                    Some(tab) => {
                        let tb = Self::tab_bytes_spec(tab);
                        if tb.len() == 0 || old(self).disabled {
                            true
                        } else if sel.start == sel.end {
                            let ls = crate::utf8::line_start(t, sel.start as int);
                            if ls + tb.len() <= t.len() && t.subrange(ls, ls + tb.len()) == tb {
                                let pend = spliced(t, ls, ls + tb.len(), Seq::empty());
                                let back = if sel.start >= tb.len() {
                                    sel.start - tb.len()
                                } else {
                                    0
                                };
                                let tn = mask_spec(p, pend);
                                let pos = if back > tn.len() {
                                    tn.len() as int
                                } else {
                                    back
                                };
                                &&& final(self).text@ == tn
                                &&& final(self).selected_range.start as int == snap_to_boundary(
                                    tn,
                                    pos,
                                )
                                &&& final(self).selected_range.end == final(self).selected_range.start
                            } else {
                                *final(self) == *old(self)
                            }
                        } else {
                            let bs = crate::utf8::line_start(t, sel.start as int);
                            let block = t.subrange(bs, sel.end as int);
                            let nb = outdent_lines(block, tb);
                            let pend = spliced(t, bs, sel.end as int, nb);
                            if Self::spec_edit_accepted(p, t, bs, sel.end as int, nb) {
                                &&& final(self).text@ == mask_spec(p, pend)
                                &&& (p.len() == 0 ==> final(self).text@ == pend && final(self).selected_range.start as int == bs && final(self).selected_range.end as int == bs + nb.len())
                            } else {
                                *final(self) == *old(self)
                            }
                        }
                    },
                }
            }),
    {
        if self.disabled {
            return ;
        }
        let tab = match self.mode_tab() {
            None => {
                return ;
            },
            Some(t) => t,
        };
        let tabv = Self::tab_insert_bytes(tab);
        let tl = tabv.len();
        if tl == 0 {
            return ;
        }
        let ghost p = self.mask_pattern.tokens@;
        let ghost t = self.text@;
        let sel = self.selected_range;
        if sel.start == sel.end {
            let ls = crate::utf8::find_line_start(self.text.as_slice(), sel.start);
            if tl <= self.text.len() - ls {
                let here = bytes_of_range(self.text.as_slice(), ls, ls + tl);
                if crate::utf8::eq_bytes(here.as_slice(), tabv.as_slice()) {
                    proof {
                        assert(here@[tl - 1] == self.text@[ls + tl - 1]);
                        assert(self.text@[ls + tl - 1] == tabv@[tl - 1]);
                        assert(tabv@[tl - 1] < 0x80);
                        crate::utf8::lemma_ascii_successor_boundary(self.text@, ls + tl);
                    }
                    let empty: Vec<u8> = Vec::new();
                    self.apply_edit_in_byte_range(ls, ls + tl, empty.as_slice(), now_ms, true);
                    let back = if sel.start >= tl {
                        sel.start - tl
                    } else {
                        0
                    };
                    self.move_to(back);
                    proof {
                        assert(spliced(t, ls as int, ls + tl, Seq::<u8>::empty())
                            =~= spliced(t, ls as int, ls + tl, empty@));
                    }
                }
            }
            return ;
        }
        // transform the whole touched block in one recorded edit
        let bs = crate::utf8::find_line_start(self.text.as_slice(), sel.start);
        let block = bytes_of_range(self.text.as_slice(), bs, sel.end);
        let mut nb: Vec<u8> = Vec::new();
        proof {
            assert(block@.skip(0) =~= block@);
        }
        outdent_rest_into(block.as_slice(), 0, tabv.as_slice(), true, &mut nb);
        proof {
            assert(nb@ =~= outdent_lines(block@, tabv@));
            lemma_subrange_utf8(t, bs as int, sel.end as int);
            lemma_outdent_rest_utf8(block@, tabv@, true);
            assert(is_utf8(nb@));
        }
        let applied = self.apply_edit_in_byte_range(bs, sel.end, nb.as_slice(), now_ms, true);
        if applied {
            // the outdented block stays selected
            let len_now = self.text.len();
            let s0 = if bs > len_now {
                len_now
            } else {
                bs
            };
            let start_c = snap_offset(self.text.as_slice(), s0);
            let e0 = if bs <= len_now && nb.len() <= len_now - bs {
                bs + nb.len()
            } else {
                len_now
            };
            let mut end_c = snap_offset(self.text.as_slice(), e0);
            if end_c < start_c {
                end_c = start_c;
            }
            self.selected_range = ByteRange { start: start_c, end: end_c };
            proof {
                if p.len() == 0 {
                    let pend = spliced(t, bs as int, sel.end as int, nb@);
                    assert(mask_spec(p, pend) =~= pend);
                    assert(self.text@ == pend);
                    lemma_spliced_utf8(t, bs as int, sel.end as int, nb@);
                    assert(is_boundary(self.text@, bs as int));
                    assert(is_boundary(self.text@, bs + nb@.len()));
                    assert(snap_to_boundary(self.text@, bs as int) == bs);
                    assert(snap_to_boundary(self.text@, bs + nb@.len()) == bs + nb@.len());
                }
            }
        }
    }

    /// An Up key press, before any vertical movement: in an empty field it
    /// asks the host to recall its previous entry (the returned flag); a
    /// selection collapses to just before its start.  The vertical step
    /// itself needs the visual layout: the host takes a plan from
    /// [`crate::layout::LineLayout::plan_vertical`], picks the byte offset
    /// in the target row nearest its preferred horizontal position, and
    /// hands it to [`Self::move_to`].
    pub fn up(&mut self) -> (recall: bool)
        requires
            old(self).wf(),
        ensures
            final(self).wf(),
            recall == (old(self).text@.len() == 0),
            old(self).spec_is_single_line() ==> *final(self) == *old(self),
            !old(self).spec_is_single_line() && old(self).selected_range.start == old(
                self,
            ).selected_range.end ==> *final(self) == *old(self),
            !old(self).spec_is_single_line() && old(self).selected_range.start != old(
                self,
            ).selected_range.end ==> ({
                let back = if old(self).selected_range.start > 0 {
                    old(self).selected_range.start - 1
                } else {
                    0int
                };
                Self::caret_moved_to(
                    *old(self),
                    *final(self),
                    last_start_before(grapheme_starts(old(self).text@), back, 0),
                )
            }),
    {
        let recall = self.text.len() == 0;
        if self.is_single_line() {
            return recall;
        }
        if !self.selected_range.is_empty() {
            let s = self.selected_range.start;
            let back = if s > 0 {
                s - 1
            } else {
                0
            };
            let o = self.previous_boundary(back);
            proof {
                assert(snap_to_boundary(self.text@, o as int) == o);
            }
            self.move_to(o);
        }
        recall
    }

    /// A Down key press, before any vertical movement: a selection
    /// collapses to just after its end.  The vertical step itself follows
    /// the same host flow as [`Self::up`].
    pub fn down(&mut self)
        requires
            old(self).wf(),
        ensures
            final(self).wf(),
            old(self).spec_is_single_line() ==> *final(self) == *old(self),
            !old(self).spec_is_single_line() && old(self).selected_range.start == old(
                self,
            ).selected_range.end ==> *final(self) == *old(self),
            !old(self).spec_is_single_line() && old(self).selected_range.start != old(
                self,
            ).selected_range.end ==> ({
                let back = if old(self).selected_range.end > 0 {
                    old(self).selected_range.end - 1
                } else {
                    0int
                };
                Self::caret_moved_to(
                    *old(self),
                    *final(self),
                    first_start_after(
                        grapheme_starts(old(self).text@),
                        back,
                        old(self).text@.len() as int,
                    ),
                )
            }),
    {
        if self.is_single_line() {
            return ;
        }
        if !self.selected_range.is_empty() {
            let e = self.selected_range.end;
            let back = if e > 0 {
                e - 1
            } else {
                0
            };
            let o = self.next_boundary(back);
            proof {
                assert(snap_to_boundary(self.text@, o as int) == o);
            }
            self.move_to(o);
        }
    }

    /// Extends the selection one logical line up: to the boundary before
    /// the current line's start.
    pub fn select_up(&mut self)
        requires
            old(self).wf(),
        ensures
            final(self).wf(),
            final(self).selected_range.start <= final(self).selected_range.end,
            old(self).spec_is_single_line() ==> *final(self) == *old(self),
            !old(self).spec_is_single_line() ==> ({
                let ls = old(self).start_of_line_spec();
                let back = if ls > 0 {
                    ls - 1
                } else {
                    0
                };
                Self::selection_extended_to(
                    *old(self),
                    *final(self),
                    last_start_before(grapheme_starts(old(self).text@), back, 0),
                )
            }),
    {
        if self.is_single_line() {
            return ;
        }
        let ls = self.start_of_line();
        let back = if ls > 0 {
            ls - 1
        } else {
            0
        };
        let o = self.previous_boundary(back);
        self.select_to(o);
    }

    /// Extends the selection one logical line down: to the boundary after
    /// the current line's end.
    pub fn select_down(&mut self)
        requires
            old(self).wf(),
        ensures
            final(self).wf(),
            final(self).selected_range.start <= final(self).selected_range.end,
            old(self).spec_is_single_line() ==> *final(self) == *old(self),
            !old(self).spec_is_single_line() ==> ({
                let le = old(self).end_of_line_spec();
                let fwd = if le < old(self).text@.len() {
                    le + 1
                } else {
                    le
                };
                Self::selection_extended_to(
                    *old(self),
                    *final(self),
                    first_start_after(
                        grapheme_starts(old(self).text@),
                        fwd,
                        old(self).text@.len() as int,
                    ),
                )
            }),
    {
        if self.is_single_line() {
            return ;
        }
        let le = self.end_of_line();
        let fwd = if le < self.text.len() {
            le + 1
        } else {
            le
        };
        let o = self.next_boundary(fwd);
        self.select_to(o);
    }

    /// Sets the starting value as a builder: the mask formats it, the
    /// caret stays at the start.
    pub fn default_value(self, value: &[u8]) -> (r: InputState)
        requires
            self.wf(),
            is_utf8(value@),
        ensures
            r.wf(),
            r.text@ == mask_spec(self.mask_pattern.tokens@, value@),
            r.selected_range.start == 0 && r.selected_range.end == 0,
            r.marked_range is None,
            r.history.undo_view().len() == 0,
            r.history.redo_view().len() == 0,
    {
        let mut s = self;
        let masked = s.mask_pattern.mask(value);
        proof {
            crate::mask::lemma_mask_utf8(s.mask_pattern.tokens@, value@);
            crate::mask::lemma_mask_idempotent(s.mask_pattern.tokens@, value@);
        }
        s.text = masked;
        s.selected_range = ByteRange { start: 0, end: 0 };
        s.selection_reversed = false;
        s.marked_range = None;
        s.selected_word_range = None;
        s.history.clear_history();
        s
    }

    /// Follows the wrapped-line count after a layout pass: an auto-grow
    /// field shows as many rows as its content takes, held between its
    /// two bounds.
    pub fn update_auto_grow(&mut self, visual_lines: usize)
        requires
            old(self).wf(),
        ensures
            final(self).wf(),
            final(self).text@ == old(self).text@,
            old(self).mode matches InputMode::AutoGrow { min_rows, max_rows, .. }
                ==> final(self).mode == (InputMode::AutoGrow {
                rows: if visual_lines < min_rows {
                    min_rows
                } else if visual_lines > max_rows {
                    max_rows
                } else {
                    visual_lines
                },
                min_rows,
                max_rows,
            }),
            !(old(self).mode is AutoGrow) ==> *final(self) == *old(self),
    {
        if let InputMode::AutoGrow { min_rows, max_rows, .. } = self.mode {
            let rows = if visual_lines < min_rows {
                min_rows
            } else if visual_lines > max_rows {
                max_rows
            } else {
                visual_lines
            };
            self.mode = InputMode::AutoGrow { rows, min_rows, max_rows };
        }
    }
}


/// `s` with one tab step inserted after every newline (the step before the
/// first line is added by [`indent_lines`]).
pub open spec fn indent_rest(s: Seq<u8>, tab: Seq<u8>) -> Seq<u8>
    decreases s.len(),
{
    if s.len() == 0 {
        Seq::empty()
    } else if s[0] == 0x0A {
        seq![0x0Au8] + tab + indent_rest(s.skip(1), tab)
    } else {
        let n = crate::mask::front_step(s);
        s.take(n) + indent_rest(s.skip(n), tab)
    }
}

/// A block of lines indented by one tab step: the step at the block start
/// and after every newline.
pub open spec fn indent_lines(s: Seq<u8>, tab: Seq<u8>) -> Seq<u8> {
    tab + indent_rest(s, tab)
}

/// `s` with one leading tab step removed from every line that starts with
/// one; `at_start` says whether the walk stands at a line start.
pub open spec fn outdent_rest(s: Seq<u8>, tab: Seq<u8>, at_start: bool) -> Seq<u8>
    decreases s.len(), (if at_start { 1int } else { 0int }),
{
    if s.len() == 0 {
        Seq::empty()
    } else if at_start && crate::mask::has_prefix(s, tab) {
        outdent_rest(s.skip(tab.len() as int), tab, false)
    } else if s[0] == 0x0A {
        seq![0x0Au8] + outdent_rest(s.skip(1), tab, true)
    } else {
        let n = crate::mask::front_step(s);
        s.take(n) + outdent_rest(s.skip(n), tab, false)
    }
}

/// A block of lines outdented by one tab step where one is present.
pub open spec fn outdent_lines(s: Seq<u8>, tab: Seq<u8>) -> Seq<u8> {
    outdent_rest(s, tab, true)
}

/// Indenting well-formed text with a well-formed tab step stays well
/// formed.
proof fn lemma_indent_rest_utf8(s: Seq<u8>, tab: Seq<u8>)
    requires
        is_utf8(s),
        is_utf8(tab),
    ensures
        is_utf8(indent_rest(s, tab)),
    decreases s.len(),
{
    if s.len() > 0 {
        assert(valid_scalar_at(s, 0));
        if s[0] == 0x0A {
            assert(utf8_seq_len(s[0]) == 1);
            assert(utf8_from(s, 1));
            crate::utf8::lemma_skip_utf8(s, 1, 0);
            lemma_indent_rest_utf8(s.skip(1), tab);
            assert(is_utf8(seq![0x0Au8])) by {
                assert(valid_scalar_at(seq![0x0Au8], 0));
                assert(utf8_from(seq![0x0Au8], 1));
            }
            crate::utf8::lemma_concat_utf8(tab, indent_rest(s.skip(1), tab), 0);
            crate::utf8::lemma_concat_utf8(seq![0x0Au8], tab + indent_rest(s.skip(1), tab), 0);
            assert(seq![0x0Au8] + tab + indent_rest(s.skip(1), tab) =~= seq![0x0Au8] + (tab
                + indent_rest(s.skip(1), tab)));
        } else {
            let n = crate::mask::front_step(s);
            assert(n == utf8_seq_len(s[0]));
            assert(utf8_from(s, n));
            assert(is_boundary(s, n)) by {
                if n < s.len() {
                    assert(valid_scalar_at(s, n));
                }
            }
            crate::utf8::lemma_take_utf8(s, 0, n);
            crate::utf8::lemma_skip_utf8(s, n, 0);
            lemma_indent_rest_utf8(s.skip(n), tab);
            crate::utf8::lemma_concat_utf8(s.take(n), indent_rest(s.skip(n), tab), 0);
        }
    }
}

/// Outdenting well-formed text by an all-ASCII tab step stays well formed.
proof fn lemma_outdent_rest_utf8(s: Seq<u8>, tab: Seq<u8>, at_start: bool)
    requires
        is_utf8(s),
        forall|k: int| 0 <= k < tab.len() ==> tab[k] < 0x80,
    ensures
        is_utf8(outdent_rest(s, tab, at_start)),
    decreases s.len(), (if at_start { 1int } else { 0int }),
{
    if s.len() > 0 {
        assert(valid_scalar_at(s, 0));
        if at_start && crate::mask::has_prefix(s, tab) {
            if tab.len() > 0 {
                assert(s[tab.len() - 1] == s.take(tab.len() as int)[tab.len() - 1]);
                assert(s[tab.len() - 1] == tab[tab.len() - 1]);
                crate::utf8::lemma_ascii_successor_boundary(s, tab.len() as int);
                crate::utf8::lemma_boundary_on_chain(s, 0, tab.len() as int);
                crate::utf8::lemma_skip_utf8(s, tab.len() as int, 0);
            } else {
                assert(s.skip(0) =~= s);
            }
            lemma_outdent_rest_utf8(s.skip(tab.len() as int), tab, false);
        } else if s[0] == 0x0A {
            assert(utf8_seq_len(s[0]) == 1);
            assert(utf8_from(s, 1));
            crate::utf8::lemma_skip_utf8(s, 1, 0);
            lemma_outdent_rest_utf8(s.skip(1), tab, true);
            assert(is_utf8(seq![0x0Au8])) by {
                assert(valid_scalar_at(seq![0x0Au8], 0));
                assert(utf8_from(seq![0x0Au8], 1));
            }
            crate::utf8::lemma_concat_utf8(seq![0x0Au8], outdent_rest(s.skip(1), tab, true), 0);
        } else {
            let n = crate::mask::front_step(s);
            assert(n == utf8_seq_len(s[0]));
            assert(utf8_from(s, n));
            assert(is_boundary(s, n)) by {
                if n < s.len() {
                    assert(valid_scalar_at(s, n));
                }
            }
            crate::utf8::lemma_take_utf8(s, 0, n);
            crate::utf8::lemma_skip_utf8(s, n, 0);
            lemma_outdent_rest_utf8(s.skip(n), tab, false);
            crate::utf8::lemma_concat_utf8(s.take(n), outdent_rest(s.skip(n), tab, false), 0);
        }
    }
}

/// Appends [`indent_rest`] of `text[si..]` to `out`.
fn indent_rest_into(text: &[u8], si: usize, tab: &[u8], out: &mut Vec<u8>)
    requires
        si <= text@.len(),
    ensures
        final(out)@ == old(out)@ + indent_rest(text@.skip(si as int), tab@),
    decreases text@.len() - si,
{
    let ghost s = text@.skip(si as int);
    if si >= text.len() {
        proof {
            assert(out@ =~= out@ + indent_rest(s, tab@));
        }
        return ;
    }
    proof {
        assert(s[0] == text@[si as int]);
    }
    if text[si] == 0x0A {
        out.push(0x0A);
        out.extend_from_slice(tab);
        proof {
            assert forall|i: int, j: int|
                0 <= i && 0 <= j && cloned::<u8>(out@[i], out@[j]) implies out@[i]
                == out@[j] by {}
            assert(out@ =~= old(out)@ + (seq![0x0Au8] + tab@));
            assert(s.skip(1) =~= text@.skip(si + 1));
        }
        indent_rest_into(text, si + 1, tab, out);
        proof {
            assert(out@ =~= old(out)@ + indent_rest(s, tab@));
        }
    } else {
        let n = crate::mask::front_step_at(text, si);
        out.extend_from_slice(&text[si..si + n]);
        proof {
            assert forall|i: int, j: int|
                0 <= i && 0 <= j && cloned::<u8>(out@[i], out@[j]) implies out@[i]
                == out@[j] by {}
            assert(text@.subrange(si as int, si + n) =~= s.take(n as int));
            assert(out@ =~= old(out)@ + s.take(n as int));
            assert(s.skip(n as int) =~= text@.skip(si + n));
        }
        indent_rest_into(text, si + n, tab, out);
        proof {
            assert(out@ =~= old(out)@ + indent_rest(s, tab@));
        }
    }
}

/// Appends [`outdent_rest`] of `text[si..]` to `out`.
fn outdent_rest_into(text: &[u8], si: usize, tab: &[u8], at_start: bool, out: &mut Vec<u8>)
    requires
        si <= text@.len(),
        tab@.len() >= 1,
    ensures
        final(out)@ == old(out)@ + outdent_rest(text@.skip(si as int), tab@, at_start),
    decreases text@.len() - si,
{
    let ghost s = text@.skip(si as int);
    if si >= text.len() {
        proof {
            assert(out@ =~= out@ + outdent_rest(s, tab@, at_start));
        }
        return ;
    }
    proof {
        assert(s[0] == text@[si as int]);
    }
    if at_start && crate::mask::prefix_matches(text, si, tab) {
        proof {
            assert(s.skip(tab@.len() as int) =~= text@.skip(si + tab@.len()));
        }
        outdent_rest_into(text, si + tab.len(), tab, false, out);
        proof {
            assert(out@ =~= old(out)@ + outdent_rest(s, tab@, at_start));
        }
        return ;
    }
    if text[si] == 0x0A {
        out.push(0x0A);
        proof {
            assert(out@ =~= old(out)@ + seq![0x0Au8]);
            assert(s.skip(1) =~= text@.skip(si + 1));
        }
        outdent_rest_into(text, si + 1, tab, true, out);
        proof {
            assert(out@ =~= old(out)@ + outdent_rest(s, tab@, at_start));
        }
    } else {
        let n = crate::mask::front_step_at(text, si);
        out.extend_from_slice(&text[si..si + n]);
        proof {
            assert forall|i: int, j: int|
                0 <= i && 0 <= j && cloned::<u8>(out@[i], out@[j]) implies out@[i]
                == out@[j] by {}
            assert(text@.subrange(si as int, si + n) =~= s.take(n as int));
            assert(out@ =~= old(out)@ + s.take(n as int));
            assert(s.skip(n as int) =~= text@.skip(si + n));
        }
        outdent_rest_into(text, si + n, tab, false, out);
        proof {
            assert(out@ =~= old(out)@ + outdent_rest(s, tab@, at_start));
        }
    }
}


/// `s` with every newline removed: what pasting into a single-line field
/// keeps of multi-line clipboard content.
pub open spec fn without_newlines(s: Seq<u8>) -> Seq<u8>
    decreases s.len(),
{
    if s.len() == 0 {
        Seq::empty()
    } else if s[0] == 0x0A {
        without_newlines(s.skip(1))
    } else {
        let n = crate::mask::front_step(s);
        s.take(n) + without_newlines(s.skip(n))
    }
}

/// Stripping newlines from well-formed text stays well formed.
proof fn lemma_without_newlines_utf8(s: Seq<u8>)
    requires
        is_utf8(s),
    ensures
        is_utf8(without_newlines(s)),
    decreases s.len(),
{
    if s.len() > 0 {
        assert(valid_scalar_at(s, 0));
        if s[0] == 0x0A {
            assert(utf8_seq_len(s[0]) == 1);
            assert(utf8_from(s, 1));
            crate::utf8::lemma_skip_utf8(s, 1, 0);
            lemma_without_newlines_utf8(s.skip(1));
        } else {
            let n = crate::mask::front_step(s);
            assert(n == utf8_seq_len(s[0]));
            assert(utf8_from(s, n));
            assert(is_boundary(s, n)) by {
                if n < s.len() {
                    assert(valid_scalar_at(s, n));
                }
            }
            crate::utf8::lemma_take_utf8(s, 0, n);
            crate::utf8::lemma_skip_utf8(s, n, 0);
            lemma_without_newlines_utf8(s.skip(n));
            crate::utf8::lemma_concat_utf8(s.take(n), without_newlines(s.skip(n)), 0);
        }
    }
}

/// Appends [`without_newlines`] of `text[si..]` to `out`.
fn without_newlines_into(text: &[u8], si: usize, out: &mut Vec<u8>)
    requires
        si <= text@.len(),
    ensures
        final(out)@ == old(out)@ + without_newlines(text@.skip(si as int)),
    decreases text@.len() - si,
{
    let ghost s = text@.skip(si as int);
    if si >= text.len() {
        proof {
            assert(out@ =~= out@ + without_newlines(s));
        }
        return ;
    }
    proof {
        assert(s[0] == text@[si as int]);
    }
    if text[si] == 0x0A {
        proof {
            assert(s.skip(1) =~= text@.skip(si + 1));
        }
        without_newlines_into(text, si + 1, out);
        proof {
            assert(out@ =~= old(out)@ + without_newlines(s));
        }
    } else {
        let n = crate::mask::front_step_at(text, si);
        out.extend_from_slice(&text[si..si + n]);
        proof {
            assert forall|i: int, j: int|
                0 <= i && 0 <= j && cloned::<u8>(out@[i], out@[j]) implies out@[i]
                == out@[j] by {}
            assert(text@.subrange(si as int, si + n) =~= s.take(n as int));
            assert(out@ =~= old(out)@ + s.take(n as int));
            assert(s.skip(n as int) =~= text@.skip(si + n));
        }
        without_newlines_into(text, si + n, out);
        proof {
            assert(out@ =~= old(out)@ + without_newlines(s));
        }
    }
}

/// What pressing Escape did to the state.
pub enum EscapeOutcome {
    /// An in-progress selection was collapsed.
    Unselected,
    /// The field was cleared.
    Cleaned,
    /// Nothing was left to do here: the host decides (it usually emits
    /// its own escape signal).
    Signal,
}

} // verus!
