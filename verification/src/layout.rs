//! Wrapped-line geometry, as the layout service reports it: per logical
//! line its byte length and the offsets where soft wrapping starts new
//! visual rows.  The engine consumes this read-only to plan vertical caret
//! movement; pixel positions never enter here — the host queries its text
//! layout for the horizontal position and hands back a byte offset.

use vstd::prelude::*;

verus! {

/// One logical line: its byte length (newline excluded) and the offsets
/// within the line where each later visual row starts.
pub struct LineInfo {
    pub len: usize,
    pub wrap_starts: Vec<usize>,
}

impl LineInfo {
    /// Wrap offsets increase strictly and lie inside the line.
    pub open spec fn wf(&self) -> bool {
        &&& forall|k: int|
            0 <= k < self.wrap_starts@.len() ==> 0 < #[trigger] self.wrap_starts@[k]
                && self.wrap_starts@[k] <= self.len
        &&& forall|k1: int, k2: int|
            0 <= k1 < k2 < self.wrap_starts@.len() ==> self.wrap_starts@[k1]
                < self.wrap_starts@[k2]
    }
}

/// The visual geometry of a whole buffer.
pub struct LineLayout {
    pub lines: Vec<LineInfo>,
}

impl LineLayout {
    pub open spec fn wf(&self) -> bool {
        forall|k: int| 0 <= k < self.lines@.len() ==> (#[trigger] self.lines@[k]).wf()
    }
}

/// Byte offset at which logical line `k` starts: every earlier line plus
/// its newline.
pub open spec fn line_offset_spec(lines: Seq<LineInfo>, k: int) -> int
    decreases k,
{
    if k <= 0 {
        0
    } else {
        line_offset_spec(lines, k - 1) + lines[k - 1].len + 1
    }
}

/// Line index and offset within the line for a buffer offset, walking from
/// line `k`: past the last line it clamps to the last line's end.
pub open spec fn locate_spec(lines: Seq<LineInfo>, offset: int, k: int) -> (int, int)
    decreases lines.len() - k,
{
    if k < 0 || k >= lines.len() {
        if lines.len() > 0 {
            (lines.len() - 1, lines.last().len as int)
        } else {
            (0, 0)
        }
    } else if offset <= lines[k].len {
        (k, offset)
    } else {
        locate_spec(lines, offset - lines[k].len - 1, k + 1)
    }
}

/// Visual row of a position within its line: how many wrap starts lie at
/// or before it.
pub open spec fn sub_index_spec(ws: Seq<usize>, local: int, k: int) -> int
    decreases ws.len() - k,
{
    if k < 0 || k >= ws.len() {
        0
    } else if ws[k] <= local {
        1 + sub_index_spec(ws, local, k + 1)
    } else {
        0
    }
}

/// Where a vertical caret move goes.
pub enum VerticalMove {
    /// Moving up from the very first visual row: the caret goes to the
    /// buffer start.
    ToStart,
    /// Moving down from the last visual row: nothing happens.
    Stay,
    /// The caret moves to this visual row; the host picks the byte offset
    /// within it nearest its preferred horizontal position and adds
    /// `line_offset`.
    To { line: usize, sub_line: usize, line_offset: usize },
}

impl LineLayout {
    /// Exec mirror of [`line_offset_spec`].
    pub fn line_offset(&self, k: usize) -> (r: usize)
        requires
            self.wf(),
            k <= self.lines@.len(),
            line_offset_spec(self.lines@, k as int) <= usize::MAX,
        ensures
            r as int == line_offset_spec(self.lines@, k as int),
    {
        let mut acc: usize = 0;
        let mut i: usize = 0;
        while i < k
            invariant
                self.wf(),
                i <= k <= self.lines@.len(),
                acc as int == line_offset_spec(self.lines@, i as int),
                line_offset_spec(self.lines@, k as int) <= usize::MAX,
            decreases k - i,
        {
            proof {
                lemma_line_offset_monotone(self.lines@, i as int + 1, k as int);
            }
            acc = acc + self.lines[i].len + 1;
            i = i + 1;
        }
        acc
    }

    /// Line index and local offset for a buffer offset.
    pub fn locate(&self, offset: usize) -> (r: (usize, usize))
        requires
            self.wf(),
            self.lines@.len() > 0,
        ensures
            (r.0 as int, r.1 as int) == locate_spec(self.lines@, offset as int, 0),
            r.0 < self.lines@.len(),
            r.1 <= self.lines@[r.0 as int].len,
    {
        let ghost lines = self.lines@;
        let mut rest: usize = offset;
        let mut k: usize = 0;
        while k < self.lines.len() - 1 && rest > self.lines[k].len
            invariant
                self.wf(),
                self.lines@ == lines,
                lines.len() > 0,
                k < lines.len(),
                locate_spec(lines, offset as int, 0) == locate_spec(lines, rest as int, k as int),
            decreases lines.len() - k,
        {
            rest = rest - self.lines[k].len - 1;
            k = k + 1;
        }
        if rest > self.lines[k].len {
            proof {
                assert(k == lines.len() - 1);
                lemma_locate_clamps(lines, rest as int, k as int);
            }
            (k, self.lines[k].len)
        } else {
            (k, rest)
        }
    }

    /// Visual row of a local offset within line `k`.
    pub fn sub_index(&self, k: usize, local: usize) -> (r: usize)
        requires
            self.wf(),
            k < self.lines@.len(),
        ensures
            r as int == sub_index_spec(self.lines@[k as int].wrap_starts@, local as int, 0),
            r <= self.lines@[k as int].wrap_starts@.len(),
    {
        let ghost ws = self.lines@[k as int].wrap_starts@;
        let line = &self.lines[k];
        let mut j: usize = 0;
        while j < line.wrap_starts.len() && line.wrap_starts[j] <= local
            invariant
                line.wrap_starts@ == ws,
                j <= ws.len(),
                sub_index_spec(ws, local as int, 0) == j + sub_index_spec(
                    ws,
                    local as int,
                    j as int,
                ),
            decreases ws.len() - j,
        {
            j = j + 1;
        }
        j
    }

    /// Local byte range of visual row `sub` of line `k`: from the previous
    /// wrap start (or the line start) to the next one (or the line end).
    pub fn sub_line_range(&self, k: usize, sub: usize) -> (r: (usize, usize))
        requires
            self.wf(),
            k < self.lines@.len(),
            sub <= self.lines@[k as int].wrap_starts@.len(),
        ensures
            r.0 as int == (if sub == 0 {
                0int
            } else {
                self.lines@[k as int].wrap_starts@[sub as int - 1] as int
            }),
            r.1 as int == (if (sub as int) < self.lines@[k as int].wrap_starts@.len() {
                self.lines@[k as int].wrap_starts@[sub as int] as int
            } else {
                self.lines@[k as int].len as int
            }),
            r.0 <= r.1 <= self.lines@[k as int].len,
    {
        let line = &self.lines[k];
        let start: usize = if sub == 0 {
            0
        } else {
            line.wrap_starts[sub - 1]
        };
        let end: usize = if sub < line.wrap_starts.len() {
            line.wrap_starts[sub]
        } else {
            line.len
        };
        (start, end)
    }


    /// Buffer-offset edges of the visual row containing `offset`: what the
    /// Home and End keys move to in the wrap-aware multi-line modes.
    pub fn visual_row_range(&self, offset: usize) -> (r: (usize, usize))
        requires
            self.wf(),
            self.lines@.len() > 0,
            line_offset_spec(self.lines@, self.lines@.len() as int) <= usize::MAX,
        ensures
            (r.0 as int, r.1 as int) == visual_row_bounds_spec(self.lines@, offset as int),
            r.0 <= r.1,
    {
        let (li, local) = self.locate(offset);
        let sub = self.sub_index(li, local);
        proof {
            lemma_line_offset_monotone(self.lines@, li as int, self.lines@.len() as int);
        }
        let lo = self.line_offset(li);
        let (s, e) = self.sub_line_range(li, sub);
        proof {
            lemma_line_offset_monotone(self.lines@, li as int + 1, self.lines@.len() as int);
            assert(line_offset_spec(self.lines@, li as int + 1) == line_offset_spec(
                self.lines@,
                li as int,
            ) + self.lines@[li as int].len + 1);
        }
        (lo + s, lo + e)
    }

    /// Plans a vertical caret move from `offset`: one visual row up or
    /// down, moving across logical lines at their edges, to the buffer
    /// start above the first row, and staying put below the last.
    pub fn plan_vertical(&self, offset: usize, up: bool) -> (r: VerticalMove)
        requires
            self.wf(),
            self.lines@.len() > 0,
            line_offset_spec(self.lines@, self.lines@.len() as int) <= usize::MAX,
        ensures
            ({
                let (li, local) = locate_spec(self.lines@, offset as int, 0);
                let sub = sub_index_spec(self.lines@[li].wrap_starts@, local, 0);
                match r {
                    VerticalMove::ToStart => up && li == 0 && sub == 0,
                    VerticalMove::Stay => !up && li == self.lines@.len() - 1 && sub
                        == self.lines@[li].wrap_starts@.len(),
                    VerticalMove::To { line, sub_line, line_offset } => {
                        &&& line < self.lines@.len()
                        &&& sub_line <= self.lines@[line as int].wrap_starts@.len()
                        &&& line_offset as int == line_offset_spec(self.lines@, line as int)
                        &&& (up ==> (li, sub) != (0int, 0int))
                        &&& (up && sub > 0 ==> line == li && sub_line == sub - 1)
                        &&& (up && sub == 0 ==> line == li - 1 && sub_line == self.lines@[line
                            as int].wrap_starts@.len())
                        &&& (!up && sub < self.lines@[li].wrap_starts@.len() ==> line == li
                            && sub_line == sub + 1)
                        &&& (!up && sub == self.lines@[li].wrap_starts@.len() ==> line == li + 1
                            && sub_line == 0)
                    },
                }
            }),
    {
        let (li, local) = self.locate(offset);
        let sub = self.sub_index(li, local);
        if up {
            if li == 0 && sub == 0 {
                return VerticalMove::ToStart;
            }
            if sub > 0 {
                proof {
                    lemma_line_offset_monotone(self.lines@, li as int, self.lines@.len() as int);
                }
                let lo = self.line_offset(li);
                return VerticalMove::To { line: li, sub_line: sub - 1, line_offset: lo };
            }
            let target = li - 1;
            proof {
                lemma_line_offset_monotone(self.lines@, target as int, self.lines@.len() as int);
            }
            let lo = self.line_offset(target);
            let nsub = self.lines[target].wrap_starts.len();
            return VerticalMove::To { line: target, sub_line: nsub, line_offset: lo };
        }
        let max_sub = self.lines[li].wrap_starts.len();
        if sub < max_sub {
            proof {
                lemma_line_offset_monotone(self.lines@, li as int, self.lines@.len() as int);
            }
            let lo = self.line_offset(li);
            return VerticalMove::To { line: li, sub_line: sub + 1, line_offset: lo };
        }
        if li < self.lines.len() - 1 {
            let target = li + 1;
            proof {
                lemma_line_offset_monotone(self.lines@, target as int, self.lines@.len() as int);
            }
            let lo = self.line_offset(target);
            return VerticalMove::To { line: target, sub_line: 0, line_offset: lo };
        }
        VerticalMove::Stay
    }
}


/// Buffer-offset edges of the visual row containing `offset`.
pub open spec fn visual_row_bounds_spec(lines: Seq<LineInfo>, offset: int) -> (int, int) {
    let (li, local) = locate_spec(lines, offset, 0);
    let ws = lines[li].wrap_starts@;
    let sub = sub_index_spec(ws, local, 0);
    let lo = line_offset_spec(lines, li);
    let s = if sub == 0 {
        0int
    } else {
        ws[sub - 1] as int
    };
    let e = if sub < ws.len() {
        ws[sub] as int
    } else {
        lines[li].len as int
    };
    (lo + s, lo + e)
}

/// Line offsets grow with the line index.
proof fn lemma_line_offset_monotone(lines: Seq<LineInfo>, i: int, j: int)
    requires
        0 <= i <= j,
    ensures
        line_offset_spec(lines, i) <= line_offset_spec(lines, j),
    decreases j - i,
{
    if i < j {
        lemma_line_offset_monotone(lines, i, j - 1);
        assert(line_offset_spec(lines, j) == line_offset_spec(lines, j - 1) + lines[j - 1].len
            + 1);
    }
}

/// Past the last line the locator clamps to its end.
proof fn lemma_locate_clamps(lines: Seq<LineInfo>, rest: int, k: int)
    requires
        lines.len() > 0,
        k == lines.len() - 1,
        rest > lines[k].len,
    ensures
        locate_spec(lines, rest, k) == (k, lines[k].len as int),
{
    assert(locate_spec(lines, rest - lines[k].len - 1, k + 1) == (
        lines.len() - 1,
        lines.last().len as int,
    ));
}

} // verus!
