//! Undo/redo history: reversible edits, grouped so that edits typed in
//! quick succession undo as one step.
//!
//! A [`Change`] captures one edit: the bytes it removed, the bytes it
//! inserted, where, and the caret it left behind.  Undoing a change puts
//! the removed bytes back in place of the inserted ones; redoing is the
//! mirror image.  The laws proved here show that the two walks are exact
//! inverses over whole groups and over the whole stack: any number of
//! undos followed by as many redos restores the text byte for byte.

use vstd::prelude::*;
use crate::ByteRange;
use crate::utf8::{is_utf8, is_boundary, spliced, lemma_spliced_utf8};
use crate::mask::{MaskToken, mask_spec};

verus! {

/// One reversible edit: `old_text` stood at `old_range` before the edit,
/// `new_text` stands at `new_range` (same start) after it, and the caret
/// was left at `caret_after`.
pub struct Change {
    pub old_range: ByteRange,
    pub old_text: Vec<u8>,
    pub new_range: ByteRange,
    pub new_text: Vec<u8>,
    /// Caret position the edit left behind, restored by redo.
    pub caret_after: usize,
    /// Milliseconds timestamp of the edit, used for grouping.
    pub timestamp_ms: u64,
}

/// The two ranges share their start and measure their own text.
pub open spec fn change_wf(c: Change) -> bool {
    &&& c.old_range.wf()
    &&& c.new_range.wf()
    &&& c.old_range.start == c.new_range.start
    &&& c.old_range.spec_len() == c.old_text@.len()
    &&& c.new_range.spec_len() == c.new_text@.len()
}

/// The text after undoing `c` in `t`: the old bytes put back in place of
/// the new ones.
pub open spec fn undo_change(t: Seq<u8>, c: Change) -> Seq<u8> {
    spliced(t, c.new_range.start as int, c.new_range.end as int, c.old_text@)
}

/// The text after redoing `c` in `t`: the new bytes put back in place of
/// the old ones.
pub open spec fn redo_change(t: Seq<u8>, c: Change) -> Seq<u8> {
    spliced(t, c.old_range.start as int, c.old_range.end as int, c.new_text@)
}

/// The text after undoing a whole group, most recent change first.
pub open spec fn undo_group(t: Seq<u8>, g: Seq<Change>) -> Seq<u8>
    decreases g.len(),
{
    if g.len() == 0 {
        t
    } else {
        undo_group(undo_change(t, g.last()), g.drop_last())
    }
}

/// The text after redoing a whole group, oldest change first.
pub open spec fn redo_group(t: Seq<u8>, g: Seq<Change>) -> Seq<u8>
    decreases g.len(),
{
    if g.len() == 0 {
        t
    } else {
        redo_group(redo_change(t, g[0]), g.skip(1))
    }
}

/// The group can be undone from `t`: walking from the most recent change
/// inward, each change finds its inserted bytes in place on scalar
/// boundaries, and each restored text is a fixed point of the mask.
pub open spec fn group_wf_undo(t: Seq<u8>, g: Seq<Change>, p: Seq<MaskToken>) -> bool
    decreases g.len(),
{
    if g.len() == 0 {
        true
    } else {
        let c = g.last();
        let t1 = undo_change(t, c);
        &&& change_wf(c)
        &&& c.new_range.end <= t.len()
        &&& is_boundary(t, c.new_range.start as int)
        &&& is_boundary(t, c.new_range.end as int)
        &&& t.subrange(c.new_range.start as int, c.new_range.end as int) == c.new_text@
        &&& is_utf8(c.old_text@)
        &&& mask_spec(p, t1) == t1
        &&& c.caret_after <= t.len()
        &&& is_boundary(t, c.caret_after as int)
        &&& group_wf_undo(t1, g.drop_last(), p)
    }
}

/// The group can be redone from `t`: walking from the oldest change
/// forward, each change finds its removed bytes in place on scalar
/// boundaries, and each produced text is a fixed point of the mask with
/// the recorded caret on a boundary.
pub open spec fn group_wf_redo(t: Seq<u8>, g: Seq<Change>, p: Seq<MaskToken>) -> bool
    decreases g.len(),
{
    if g.len() == 0 {
        true
    } else {
        let c = g[0];
        let t2 = redo_change(t, c);
        &&& change_wf(c)
        &&& c.old_range.end <= t.len()
        &&& is_boundary(t, c.old_range.start as int)
        &&& is_boundary(t, c.old_range.end as int)
        &&& t.subrange(c.old_range.start as int, c.old_range.end as int) == c.old_text@
        &&& is_utf8(c.new_text@)
        &&& mask_spec(p, t2) == t2
        &&& c.caret_after <= t2.len()
        &&& is_boundary(t2, c.caret_after as int)
        &&& group_wf_redo(t2, g.skip(1), p)
    }
}

/// A redoable group stays redoable when one more change is appended after
/// it, provided that change fits the text the group produces.
proof fn lemma_redo_wf_snoc(t: Seq<u8>, a: Seq<Change>, c: Change, p: Seq<MaskToken>)
    requires
        group_wf_redo(t, a, p),
        ({
            let ta = redo_group(t, a);
            let t2 = redo_change(ta, c);
            &&& change_wf(c)
            &&& c.old_range.end <= ta.len()
            &&& is_boundary(ta, c.old_range.start as int)
            &&& is_boundary(ta, c.old_range.end as int)
            &&& ta.subrange(c.old_range.start as int, c.old_range.end as int) == c.old_text@
            &&& is_utf8(c.new_text@)
            &&& mask_spec(p, t2) == t2
            &&& c.caret_after <= t2.len()
            &&& is_boundary(t2, c.caret_after as int)
        }),
    ensures
        group_wf_redo(t, a.push(c), p),
        redo_group(t, a.push(c)) == redo_change(redo_group(t, a), c),
    decreases a.len(),
{
    let g = a.push(c);
    if a.len() == 0 {
        assert(g[0] == c);
        assert(g.skip(1) =~= Seq::<Change>::empty());
        assert(redo_group(t, a) == t);
        assert(redo_group(redo_change(t, c), g.skip(1)) == redo_change(t, c));
        assert(group_wf_redo(redo_change(t, c), g.skip(1), p));
        assert(group_wf_redo(t, g, p));
        assert(redo_group(t, g) == redo_change(t, c));
    } else {
        assert(g[0] == a[0]);
        assert(g.skip(1) =~= a.skip(1).push(c));
        assert(redo_group(t, a) == redo_group(redo_change(t, a[0]), a.skip(1)));
        lemma_redo_wf_snoc(redo_change(t, a[0]), a.skip(1), c, p);
        assert(group_wf_redo(redo_change(t, g[0]), g.skip(1), p));
        assert(group_wf_redo(t, g, p));
        assert(redo_group(t, g) == redo_group(redo_change(t, g[0]), g.skip(1)));
    }
}

/// An undoable group stays undoable when one more change is prepended
/// before it, provided that change fits the text the group restores.
proof fn lemma_undo_wf_cons(t: Seq<u8>, c: Change, a: Seq<Change>, p: Seq<MaskToken>)
    requires
        group_wf_undo(t, a, p),
        ({
            let ta = undo_group(t, a);
            let t1 = undo_change(ta, c);
            &&& change_wf(c)
            &&& c.new_range.end <= ta.len()
            &&& is_boundary(ta, c.new_range.start as int)
            &&& is_boundary(ta, c.new_range.end as int)
            &&& ta.subrange(c.new_range.start as int, c.new_range.end as int) == c.new_text@
            &&& is_utf8(c.old_text@)
            &&& mask_spec(p, t1) == t1
            &&& c.caret_after <= ta.len()
            &&& is_boundary(ta, c.caret_after as int)
        }),
    ensures
        group_wf_undo(t, seq![c] + a, p),
        undo_group(t, seq![c] + a) == undo_change(undo_group(t, a), c),
    decreases a.len(),
{
    let g = seq![c] + a;
    if a.len() == 0 {
        assert(g.len() == 1);
        assert(g.last() == c);
        assert(g.drop_last() =~= Seq::<Change>::empty());
        assert(undo_group(t, a) == t);
        assert(undo_group(undo_change(t, c), g.drop_last()) == undo_change(t, c));
        assert(group_wf_undo(undo_change(t, c), g.drop_last(), p));
        assert(group_wf_undo(t, g, p));
        assert(undo_group(t, g) == undo_change(t, c));
    } else {
        assert(g.last() == a.last());
        assert(g.drop_last() =~= seq![c] + a.drop_last());
        assert(undo_group(t, a) == undo_group(undo_change(t, a.last()), a.drop_last()));
        lemma_undo_wf_cons(undo_change(t, a.last()), c, a.drop_last(), p);
        assert(group_wf_undo(undo_change(t, g.last()), g.drop_last(), p));
        assert(group_wf_undo(t, g, p));
        assert(undo_group(t, g) == undo_group(undo_change(t, g.last()), g.drop_last()));
    }
}

/// Undoing a group and redoing it restores the starting text exactly, and
/// the undone text is itself ready to be redone.
pub proof fn lemma_group_round_trip(t: Seq<u8>, g: Seq<Change>, p: Seq<MaskToken>)
    requires
        is_utf8(t),
        mask_spec(p, t) == t,
        group_wf_undo(t, g, p),
    ensures
        ({
            let t1 = undo_group(t, g);
            &&& is_utf8(t1)
            &&& mask_spec(p, t1) == t1
            &&& group_wf_redo(t1, g, p)
            &&& redo_group(t1, g) == t
        }),
    decreases g.len(),
{
    if g.len() > 0 {
        let c = g.last();
        let tc = undo_change(t, c);
        let ns = c.new_range.start as int;
        let ne = c.new_range.end as int;
        lemma_spliced_utf8(t, ns, ne, c.old_text@);
        lemma_group_round_trip(tc, g.drop_last(), p);
        let t1 = undo_group(tc, g.drop_last());
        assert(t1 == undo_group(t, g));
        // `c` fits the text the inner group restores to: its old bytes
        // stand at `old_range`, and redoing it rebuilds `t` exactly.
        let oe = ns + c.old_text@.len();
        assert(tc.subrange(ns, oe) =~= c.old_text@);
        assert(redo_change(tc, c) =~= t);
        crate::utf8::lemma_subrange_utf8(t, ns, ne);
        assert(is_utf8(c.new_text@));
        lemma_redo_wf_snoc(t1, g.drop_last(), c, p);
        assert(g.drop_last().push(c) =~= g);
        assert(group_wf_redo(undo_group(t, g), g, p));
    }
}

/// Redoing a group and undoing it restores the starting text exactly, and
/// the redone text is itself ready to be undone.
pub proof fn lemma_group_redo_round_trip(t: Seq<u8>, g: Seq<Change>, p: Seq<MaskToken>)
    requires
        is_utf8(t),
        mask_spec(p, t) == t,
        group_wf_redo(t, g, p),
    ensures
        ({
            let t2 = redo_group(t, g);
            &&& is_utf8(t2)
            &&& mask_spec(p, t2) == t2
            &&& group_wf_undo(t2, g, p)
            &&& undo_group(t2, g) == t
        }),
    decreases g.len(),
{
    if g.len() > 0 {
        let c = g[0];
        let tc = redo_change(t, c);
        let os = c.old_range.start as int;
        let oe = c.old_range.end as int;
        lemma_spliced_utf8(t, os, oe, c.new_text@);
        lemma_group_redo_round_trip(tc, g.skip(1), p);
        let t2 = redo_group(tc, g.skip(1));
        assert(t2 == redo_group(t, g));
        let ne = os + c.new_text@.len();
        assert(tc.subrange(os, ne) =~= c.new_text@);
        assert(undo_change(tc, c) =~= t);
        crate::utf8::lemma_subrange_utf8(t, os, oe);
        assert(is_utf8(c.old_text@));
        lemma_undo_wf_cons(t2, c, g.skip(1), p);
        assert(seq![c] + g.skip(1) =~= g);
        assert(group_wf_undo(redo_group(t, g), g, p));
    }
}

/// The text after undoing every group of the stack, most recent first.
pub open spec fn undo_all(t: Seq<u8>, us: Seq<Seq<Change>>) -> Seq<u8>
    decreases us.len(),
{
    if us.len() == 0 {
        t
    } else {
        undo_all(undo_group(t, us.last()), us.drop_last())
    }
}

/// The text after redoing the groups of `us` in the order they were first
/// made, oldest first: the order in which they come back off the redo
/// stack after being undone.
pub open spec fn redo_pending(t: Seq<u8>, us: Seq<Seq<Change>>) -> Seq<u8>
    decreases us.len(),
{
    if us.len() == 0 {
        t
    } else {
        redo_pending(redo_group(t, us[0]), us.skip(1))
    }
}

/// Every group of the undo stack can be undone in turn from `t`.
pub open spec fn undo_stack_wf(t: Seq<u8>, us: Seq<Seq<Change>>, p: Seq<MaskToken>) -> bool
    decreases us.len(),
{
    if us.len() == 0 {
        true
    } else {
        &&& us.last().len() > 0
        &&& group_wf_undo(t, us.last(), p)
        &&& undo_stack_wf(undo_group(t, us.last()), us.drop_last(), p)
    }
}

/// Every group of the redo stack can be redone in turn from `t`.
pub open spec fn redo_stack_wf(t: Seq<u8>, rs: Seq<Seq<Change>>, p: Seq<MaskToken>) -> bool
    decreases rs.len(),
{
    if rs.len() == 0 {
        true
    } else {
        &&& rs.last().len() > 0
        &&& group_wf_redo(t, rs.last(), p)
        &&& redo_stack_wf(redo_group(t, rs.last()), rs.drop_last(), p)
    }
}

/// Redoing one more group after a pending run redoes it last.
proof fn lemma_redo_pending_snoc(t: Seq<u8>, a: Seq<Seq<Change>>, b: Seq<Change>)
    ensures
        redo_pending(t, a.push(b)) == redo_group(redo_pending(t, a), b),
    decreases a.len(),
{
    let g = a.push(b);
    if a.len() == 0 {
        assert(g[0] == b);
        assert(g.skip(1) =~= Seq::<Seq<Change>>::empty());
        assert(redo_pending(redo_group(t, b), g.skip(1)) == redo_group(t, b));
    } else {
        assert(g[0] == a[0]);
        assert(g.skip(1) =~= a.skip(1).push(b));
        lemma_redo_pending_snoc(redo_group(t, a[0]), a.skip(1), b);
    }
}

/// Undoing every group of the stack and then redoing them all restores
/// the text exactly, whatever edits the stack holds.
pub proof fn lemma_history_round_trip(t: Seq<u8>, us: Seq<Seq<Change>>, p: Seq<MaskToken>)
    requires
        is_utf8(t),
        mask_spec(p, t) == t,
        undo_stack_wf(t, us, p),
    ensures
        redo_pending(undo_all(t, us), us) == t,
    decreases us.len(),
{
    if us.len() > 0 {
        let last = us.last();
        let t1 = undo_group(t, last);
        lemma_group_round_trip(t, last, p);
        lemma_history_round_trip(t1, us.drop_last(), p);
        let tn = undo_all(t1, us.drop_last());
        assert(tn == undo_all(t, us));
        lemma_redo_pending_snoc(tn, us.drop_last(), last);
        assert(us.drop_last().push(last) =~= us);
    }
}


/// A change that fits the current text extends the group it coalesces
/// into: the group, with the change appended, can be undone from the new
/// text.
pub proof fn lemma_group_wf_undo_snoc(
    t_new: Seq<u8>,
    g0: Seq<Change>,
    c: Change,
    p: Seq<MaskToken>,
)
    requires
        change_wf(c),
        c.new_range.end <= t_new.len(),
        is_boundary(t_new, c.new_range.start as int),
        is_boundary(t_new, c.new_range.end as int),
        t_new.subrange(c.new_range.start as int, c.new_range.end as int) == c.new_text@,
        is_utf8(c.old_text@),
        mask_spec(p, undo_change(t_new, c)) == undo_change(t_new, c),
        c.caret_after <= t_new.len(),
        is_boundary(t_new, c.caret_after as int),
        group_wf_undo(undo_change(t_new, c), g0, p),
    ensures
        group_wf_undo(t_new, g0.push(c), p),
        undo_group(t_new, g0.push(c)) == undo_group(undo_change(t_new, c), g0),
{
    let g1 = g0.push(c);
    assert(g1.last() == c);
    assert(g1.drop_last() =~= g0);
}


/// Recording a change that fits the new text keeps the whole undo stack
/// well formed, whether the change joins the top group or opens its own.
pub proof fn lemma_stack_wf_after_record(
    t: Seq<u8>,
    tn: Seq<u8>,
    c: Change,
    ov: Seq<Seq<Change>>,
    uv: Seq<Seq<Change>>,
    p: Seq<MaskToken>,
    coalesce: bool,
)
    requires
        change_wf(c),
        c.new_range.end <= tn.len(),
        is_boundary(tn, c.new_range.start as int),
        is_boundary(tn, c.new_range.end as int),
        tn.subrange(c.new_range.start as int, c.new_range.end as int) == c.new_text@,
        is_utf8(c.old_text@),
        mask_spec(p, undo_change(tn, c)) == undo_change(tn, c),
        c.caret_after <= tn.len(),
        is_boundary(tn, c.caret_after as int),
        undo_change(tn, c) == t,
        undo_stack_wf(t, ov, p),
        coalesce ==> ov.len() > 0 && ov.last().len() > 0 && uv =~= ov.drop_last().push(
            ov.last().push(c),
        ),
        !coalesce ==> uv =~= ov.push(seq![c]),
    ensures
        undo_stack_wf(tn, uv, p),
{
    if coalesce {
        let g0 = ov.last();
        let g1 = g0.push(c);
        assert(group_wf_undo(t, g0, p));
        lemma_group_wf_undo_snoc(tn, g0, c, p);
        assert(uv.last() == g1);
        assert(uv.drop_last() =~= ov.drop_last());
        assert(undo_group(tn, g1) == undo_group(t, g0));
        assert(undo_stack_wf(undo_group(t, g0), ov.drop_last(), p));
        assert(undo_stack_wf(tn, uv, p));
    } else {
        let g1 = Seq::<Change>::empty().push(c);
        lemma_group_wf_undo_snoc(tn, Seq::<Change>::empty(), c, p);
        assert(undo_group(undo_change(tn, c), Seq::<Change>::empty()) == undo_change(tn, c));
        assert(undo_group(tn, g1) == t);
        assert(g1 =~= seq![c]);
        assert(uv.last() == seq![c]);
        assert(uv.drop_last() =~= ov);
        assert(undo_stack_wf(tn, uv, p));
    }
}

/// View of a stack of groups as a sequence of change sequences.
pub open spec fn stack_view(v: Vec<Vec<Change>>) -> Seq<Seq<Change>> {
    v@.map_values(|g: Vec<Change>| g@)
}

/// Bounded grouping state for undo/redo: two stacks of change groups and
/// the timestamp of the last recorded change, so that edits arriving
/// within the grouping interval coalesce into one undo step.
pub struct History {
    pub undo_stack: Vec<Vec<Change>>,
    pub redo_stack: Vec<Vec<Change>>,
    /// When set, edits are not recorded: during undo and redo themselves,
    /// and during programmatic replacement.
    pub ignore: bool,
    /// Changes this close (in milliseconds) to the previous one join its
    /// group.
    pub group_interval_ms: u64,
    /// Timestamp of the most recently recorded change.
    pub last_change_ms: u64,
    /// Whether any change was recorded yet.
    pub has_changes: bool,
}

impl History {
    pub open spec fn undo_view(&self) -> Seq<Seq<Change>> {
        stack_view(self.undo_stack)
    }

    pub open spec fn redo_view(&self) -> Seq<Seq<Change>> {
        stack_view(self.redo_stack)
    }

    /// A fresh change at `ts` joins the current group rather than opening
    /// a new one.
    pub open spec fn spec_would_coalesce(&self, ts: u64) -> bool {
        &&& self.undo_stack@.len() > 0
        &&& self.has_changes
        &&& self.last_change_ms <= ts
        &&& ts - self.last_change_ms <= self.group_interval_ms
    }

    pub fn new(group_interval_ms: u64) -> (r: History)
        ensures
            r.undo_view() =~= Seq::<Seq<Change>>::empty(),
            r.redo_view() =~= Seq::<Seq<Change>>::empty(),
            !r.ignore,
            !r.has_changes,
            r.group_interval_ms == group_interval_ms,
    {
        History {
            undo_stack: Vec::new(),
            redo_stack: Vec::new(),
            ignore: false,
            group_interval_ms,
            last_change_ms: 0,
            has_changes: false,
        }
    }

    /// Whether a change at `ts` would coalesce into the current group.
    pub fn would_coalesce(&self, ts: u64) -> (r: bool)
        ensures
            r == self.spec_would_coalesce(ts),
    {
        self.undo_stack.len() > 0 && self.has_changes && self.last_change_ms <= ts && ts
            - self.last_change_ms <= self.group_interval_ms
    }

    /// Records a change: it clears the redo stack, and either joins the
    /// current group (when within the grouping interval) or opens a new
    /// one.
    pub fn push(&mut self, c: Change)
        ensures
            final(self).redo_view() =~= Seq::<Seq<Change>>::empty(),
            final(self).ignore == old(self).ignore,
            final(self).group_interval_ms == old(self).group_interval_ms,
            final(self).has_changes,
            final(self).last_change_ms == c.timestamp_ms,
            old(self).spec_would_coalesce(c.timestamp_ms) ==> final(self).undo_view()
                =~= old(self).undo_view().drop_last().push(
                old(self).undo_view().last().push(c),
            ),
            !old(self).spec_would_coalesce(c.timestamp_ms) ==> final(self).undo_view()
                =~= old(self).undo_view().push(seq![c]),
    {
        self.redo_stack.clear();
        let ts = c.timestamp_ms;
        let coalesce = self.would_coalesce(ts);
        if coalesce {
            let k = self.undo_stack.len() - 1;
            let group = &mut self.undo_stack[k];
            group.push(c);
            proof {
                assert(self.undo_stack@.len() == old(self).undo_stack@.len());
                assert forall|i: int|
                    0 <= i < self.undo_stack@.len() - 1 implies self.undo_view()[i] == old(
                    self,
                ).undo_view()[i] by {
                    assert(self.undo_stack@[i] == old(self).undo_stack@[i]);
                }
                assert(self.undo_view().last() == old(self).undo_view().last().push(c));
            }
        } else {
            let mut g: Vec<Change> = Vec::new();
            g.push(c);
            let ghost gv = g@;
            self.undo_stack.push(g);
            proof {
                assert(gv =~= seq![c]);
                assert forall|i: int|
                    0 <= i < old(self).undo_stack@.len() implies self.undo_view()[i] == old(
                    self,
                ).undo_view()[i] by {
                    assert(self.undo_stack@[i] == old(self).undo_stack@[i]);
                }
                assert(self.undo_view().last() == gv);
            }
        }
        self.last_change_ms = ts;
        self.has_changes = true;
    }

    /// Takes the most recent undo group off the stack, if any.
    pub fn pop_undo_group(&mut self) -> (r: Option<Vec<Change>>)
        ensures
            old(self).undo_view().len() == 0 ==> r is None && final(self).undo_view() == old(
                self,
            ).undo_view(),
            old(self).undo_view().len() > 0 ==> r is Some && r->0@ == old(
                self,
            ).undo_view().last() && final(self).undo_view() =~= old(self).undo_view().drop_last(),
            final(self).redo_view() == old(self).redo_view(),
            final(self).ignore == old(self).ignore,
            final(self).group_interval_ms == old(self).group_interval_ms,
            final(self).last_change_ms == old(self).last_change_ms,
            final(self).has_changes == old(self).has_changes,
    {
        let r = self.undo_stack.pop();
        proof {
            if old(self).undo_stack@.len() > 0 {
                assert forall|i: int|
                    0 <= i < self.undo_stack@.len() implies self.undo_view()[i] == old(
                    self,
                ).undo_view()[i] by {
                    assert(self.undo_stack@[i] == old(self).undo_stack@[i]);
                }
            }
        }
        r
    }

    /// Takes the most recent redo group off the stack, if any.
    pub fn pop_redo_group(&mut self) -> (r: Option<Vec<Change>>)
        ensures
            old(self).redo_view().len() == 0 ==> r is None && final(self).redo_view() == old(
                self,
            ).redo_view(),
            old(self).redo_view().len() > 0 ==> r is Some && r->0@ == old(
                self,
            ).redo_view().last() && final(self).redo_view() =~= old(self).redo_view().drop_last(),
            final(self).undo_view() == old(self).undo_view(),
            final(self).ignore == old(self).ignore,
            final(self).group_interval_ms == old(self).group_interval_ms,
            final(self).last_change_ms == old(self).last_change_ms,
            final(self).has_changes == old(self).has_changes,
    {
        let r = self.redo_stack.pop();
        proof {
            if old(self).redo_stack@.len() > 0 {
                assert forall|i: int|
                    0 <= i < self.redo_stack@.len() implies self.redo_view()[i] == old(
                    self,
                ).redo_view()[i] by {
                    assert(self.redo_stack@[i] == old(self).redo_stack@[i]);
                }
            }
        }
        r
    }

    /// Puts an undone group onto the redo stack.
    pub fn push_redo_group(&mut self, g: Vec<Change>)
        ensures
            final(self).redo_view() =~= old(self).redo_view().push(g@),
            final(self).undo_view() == old(self).undo_view(),
            final(self).ignore == old(self).ignore,
            final(self).group_interval_ms == old(self).group_interval_ms,
            final(self).last_change_ms == old(self).last_change_ms,
            final(self).has_changes == old(self).has_changes,
    {
        let ghost gv = g@;
        self.redo_stack.push(g);
        proof {
            assert forall|i: int|
                0 <= i < old(self).redo_stack@.len() implies self.redo_view()[i] == old(
                self,
            ).redo_view()[i] by {
                assert(self.redo_stack@[i] == old(self).redo_stack@[i]);
            }
            assert(self.redo_view().last() == gv);
        }
    }

    /// Puts a redone group back onto the undo stack.
    pub fn push_undo_group(&mut self, g: Vec<Change>)
        ensures
            final(self).undo_view() =~= old(self).undo_view().push(g@),
            final(self).redo_view() == old(self).redo_view(),
            final(self).ignore == old(self).ignore,
            final(self).group_interval_ms == old(self).group_interval_ms,
            final(self).last_change_ms == old(self).last_change_ms,
            final(self).has_changes == old(self).has_changes,
    {
        let ghost gv = g@;
        self.undo_stack.push(g);
        proof {
            assert forall|i: int|
                0 <= i < old(self).undo_stack@.len() implies self.undo_view()[i] == old(
                self,
            ).undo_view()[i] by {
                assert(self.undo_stack@[i] == old(self).undo_stack@[i]);
            }
            assert(self.undo_view().last() == gv);
        }
    }

    /// Forgets all recorded changes.
    pub fn clear_history(&mut self)
        ensures
            final(self).undo_view() =~= Seq::<Seq<Change>>::empty(),
            final(self).redo_view() =~= Seq::<Seq<Change>>::empty(),
            final(self).ignore == old(self).ignore,
            final(self).group_interval_ms == old(self).group_interval_ms,
            !final(self).has_changes,
    {
        self.undo_stack.clear();
        self.redo_stack.clear();
        self.has_changes = false;
        self.last_change_ms = 0;
    }
}

} // verus!
