//! Byte-level model of UTF-8 text.
//!
//! The editing engine stores its buffer as a `Vec<u8>` holding well-formed
//! UTF-8, and every offset it keeps is a byte offset on a scalar boundary.
//! This module defines well-formedness (`is_utf8`), scalar boundaries,
//! UTF-16 code-unit counting, and the splice operation that every edit is
//! built from, together with the lemmas the rest of the crate needs.

use vstd::prelude::*;

verus! {

/// True of UTF-8 continuation bytes (`0b10xxxxxx`).
pub open spec fn is_cont_byte(b: u8) -> bool {
    0x80 <= b < 0xC0
}

/// Length of the encoded scalar whose leading byte is `b0`, or 0 when no
/// well-formed sequence starts with `b0`.
pub open spec fn utf8_seq_len(b0: u8) -> int {
    if b0 < 0x80 {
        1
    } else if b0 < 0xC2 {
        0
    } else if b0 < 0xE0 {
        2
    } else if b0 < 0xF0 {
        3
    } else if b0 < 0xF5 {
        4
    } else {
        0
    }
}

/// A well-formed scalar encoding starts at byte `i` of `s`: the sequence
/// fits, its tail bytes are continuations, and overlong forms and
/// surrogate values are excluded.
pub open spec fn valid_scalar_at(s: Seq<u8>, i: int) -> bool {
    let n = utf8_seq_len(s[i]);
    &&& 1 <= n
    &&& i + n <= s.len()
    &&& (n >= 2 ==> is_cont_byte(s[i + 1]))
    &&& (n >= 3 ==> is_cont_byte(s[i + 2]))
    &&& (n == 4 ==> is_cont_byte(s[i + 3]))
    &&& (s[i] == 0xE0 ==> s[i + 1] >= 0xA0)
    &&& (s[i] == 0xED ==> s[i + 1] < 0xA0)
    &&& (s[i] == 0xF0 ==> s[i + 1] >= 0x90)
    &&& (s[i] == 0xF4 ==> s[i + 1] < 0x90)
}

/// The bytes of `s` from position `i` to the end decode as a sequence of
/// scalars.
pub open spec fn utf8_from(s: Seq<u8>, i: int) -> bool
    decreases s.len() - i,
{
    if i < 0 {
        false
    } else if i >= s.len() {
        i == s.len()
    } else if valid_scalar_at(s, i) {
        utf8_from(s, i + utf8_seq_len(s[i]))
    } else {
        false
    }
}

/// `s` is well-formed UTF-8.
pub open spec fn is_utf8(s: Seq<u8>) -> bool {
    utf8_from(s, 0)
}

/// `i` is a scalar boundary of `s`: the end of the text, or a position
/// holding something other than a continuation byte.  In well-formed text
/// these are exactly the positions where a scalar starts, plus the end.
pub open spec fn is_boundary(s: Seq<u8>, i: int) -> bool {
    0 <= i <= s.len() && (i == s.len() || !is_cont_byte(s[i]))
}

/// `s` with bytes `[start, end)` replaced by `insert`.
pub open spec fn spliced(s: Seq<u8>, start: int, end: int, insert: Seq<u8>) -> Seq<u8> {
    s.subrange(0, start) + insert + s.subrange(end, s.len() as int)
}

/// Number of UTF-16 code units the scalar with leading byte `b0` takes:
/// 2 for the supplementary planes (4-byte sequences), 1 otherwise.
pub open spec fn utf16_weight(b0: u8) -> int {
    if utf8_seq_len(b0) == 4 {
        2
    } else {
        1
    }
}

/// UTF-16 code units used by the scalars encoded in `s[i..j)`, walking the
/// decode chain from `i`.
pub open spec fn utf16_count(s: Seq<u8>, i: int, j: int) -> int
    decreases j - i,
{
    if i < j && 0 <= i < s.len() {
        let n = utf8_seq_len(s[i]);
        let step = if n <= 0 {
            1int
        } else {
            n
        };
        let step_c = if i + step > j {
            j - i
        } else {
            step
        };
        utf16_weight(s[i]) + utf16_count(s, i + step_c, j)
    } else {
        0
    }
}

/// Byte offset reached by consuming `u` UTF-16 code units of `s`, walking
/// the decode chain from `i`: the first chain position at or past which
/// `u` units have been consumed, or the end of the text.
pub open spec fn offset_of_utf16(s: Seq<u8>, u: int, i: int) -> int
    decreases s.len() - i,
{
    if u <= 0 || i >= s.len() || i < 0 {
        i
    } else {
        let n = utf8_seq_len(s[i]);
        let step = if n <= 0 {
            1int
        } else {
            n
        };
        let step_c = if i + step > s.len() {
            s.len() - i
        } else {
            step
        };
        offset_of_utf16(s, u - utf16_weight(s[i]), i + step_c)
    }
}

/// From a decode-chain position `i` strictly before a boundary `j`, the
/// whole scalar at `i` still lies at or before `j`.
pub proof fn lemma_step_within(s: Seq<u8>, i: int, j: int)
    requires
        utf8_from(s, i),
        is_boundary(s, j),
        i < j,
    ensures
        valid_scalar_at(s, i),
        i + utf8_seq_len(s[i]) <= j,
{
    let n = utf8_seq_len(s[i]);
    if j < i + n {
        assert(is_cont_byte(s[j]));
    }
}

/// Every boundary at or past a decode-chain position is itself on the chain.
pub proof fn lemma_boundary_on_chain(s: Seq<u8>, i: int, j: int)
    requires
        utf8_from(s, i),
        is_boundary(s, j),
        i <= j,
    ensures
        utf8_from(s, j),
    decreases j - i,
{
    if i < j {
        lemma_step_within(s, i, j);
        lemma_boundary_on_chain(s, i + utf8_seq_len(s[i]), j);
    }
}

/// A prefix of well-formed text cut at a boundary is well-formed.
pub proof fn lemma_take_utf8(s: Seq<u8>, i: int, j: int)
    requires
        utf8_from(s, i),
        is_boundary(s, j),
        i <= j,
    ensures
        utf8_from(s.take(j), i),
    decreases j - i,
{
    if i == j {
        assert(s.take(j).len() == j);
    } else {
        lemma_step_within(s, i, j);
        let n = utf8_seq_len(s[i]);
        assert(valid_scalar_at(s.take(j), i));
        lemma_take_utf8(s, i + n, j);
    }
}

/// A suffix of well-formed text cut at a chain position is well-formed.
pub proof fn lemma_skip_utf8(s: Seq<u8>, j: int, k: int)
    requires
        utf8_from(s, j + k),
        0 <= j,
        0 <= k,
    ensures
        utf8_from(s.skip(j), k),
    decreases s.len() - (j + k),
{
    if j + k < s.len() {
        let n = utf8_seq_len(s[j + k]);
        assert(valid_scalar_at(s.skip(j), k));
        lemma_skip_utf8(s, j, k + n);
    } else {
        assert(s.skip(j).len() == s.len() - j);
    }
}

/// Well-formed text stays on its decode chain when more well-formed text
/// is appended after it.
pub proof fn lemma_append_chain(x: Seq<u8>, y: Seq<u8>, k: int)
    requires
        utf8_from(y, k),
        0 <= k,
    ensures
        utf8_from(x + y, x.len() + k),
    decreases y.len() - k,
{
    if k < y.len() {
        let n = utf8_seq_len(y[k]);
        assert(valid_scalar_at(x + y, x.len() + k));
        lemma_append_chain(x, y, k + n);
    } else {
        assert((x + y).len() == x.len() + y.len());
    }
}

/// Concatenating well-formed texts gives well-formed text.
pub proof fn lemma_concat_utf8(x: Seq<u8>, y: Seq<u8>, i: int)
    requires
        utf8_from(x, i),
        is_utf8(y),
    ensures
        utf8_from(x + y, i),
    decreases x.len() - i,
{
    if i < x.len() {
        let n = utf8_seq_len(x[i]);
        assert(valid_scalar_at(x + y, i));
        lemma_concat_utf8(x, y, i + n);
    } else {
        lemma_append_chain(x, y, 0);
    }
}

/// The bytes between two boundaries of well-formed text are well-formed.
pub proof fn lemma_subrange_utf8(s: Seq<u8>, a: int, b: int)
    requires
        is_utf8(s),
        is_boundary(s, a),
        is_boundary(s, b),
        a <= b,
    ensures
        is_utf8(s.subrange(a, b)),
{
    lemma_boundary_on_chain(s, 0, a);
    lemma_take_utf8(s, a, b);
    lemma_skip_utf8(s.take(b), a, 0);
    assert(s.subrange(a, b) =~= s.take(b).skip(a));
}

/// Replacing the bytes between two boundaries of well-formed text by
/// well-formed text yields well-formed text, and the edges of the insert
/// are boundaries of the result.
pub proof fn lemma_spliced_utf8(s: Seq<u8>, start: int, end: int, insert: Seq<u8>)
    requires
        is_utf8(s),
        is_utf8(insert),
        is_boundary(s, start),
        is_boundary(s, end),
        start <= end,
    ensures
        is_utf8(spliced(s, start, end, insert)),
        spliced(s, start, end, insert).len() == s.len() - (end - start) + insert.len(),
        is_boundary(spliced(s, start, end, insert), start),
        is_boundary(spliced(s, start, end, insert), start + insert.len()),
{
    let t = spliced(s, start, end, insert);
    let a = s.subrange(0, start);
    let c = s.subrange(end, s.len() as int);
    assert(a == s.take(start));
    assert(c == s.skip(end));
    lemma_take_utf8(s, 0, start);
    lemma_boundary_on_chain(s, 0, end);
    lemma_skip_utf8(s, end, 0);
    lemma_concat_utf8(insert, c, 0);
    assert(is_utf8(insert + c));
    lemma_concat_utf8(a, insert + c, 0);
    assert(t =~= a + (insert + c));
    // boundary at `start`: the first byte after the prefix is either a byte
    // of `insert` (whose start is a boundary) or the byte at `end` of `s`.
    if start < t.len() {
        if insert.len() > 0 {
            assert(t[start] == insert[0]);
            assert(!is_cont_byte(insert[0]));
        } else {
            assert(t[start] == s[end]);
        }
    }
    if start + insert.len() < t.len() {
        assert(t[start + insert.len()] == s[end]);
    }
}

/// Unicode scalar value encoded at position `i` of `s` (meaningful when
/// `valid_scalar_at(s, i)` holds).
pub open spec fn scalar_at(s: Seq<u8>, i: int) -> int {
    let n = utf8_seq_len(s[i]);
    if n == 1 {
        s[i] as int
    } else if n == 2 {
        (s[i] - 0xC0) * 0x40 + (s[i + 1] - 0x80)
    } else if n == 3 {
        (s[i] - 0xE0) * 0x1000 + (s[i + 1] - 0x80) * 0x40 + (s[i + 2] - 0x80)
    } else {
        (s[i] - 0xF0) * 0x40000 + (s[i + 1] - 0x80) * 0x1000 + (s[i + 2] - 0x80) * 0x40 + (s[i + 3]
            - 0x80)
    }
}

/// A well-formed encoding holds a scalar value: below 0x110000 and outside
/// the surrogate range.
pub proof fn lemma_scalar_at_range(s: Seq<u8>, i: int)
    requires
        valid_scalar_at(s, i),
    ensures
        0 <= scalar_at(s, i) < 0x110000,
        !(0xD800 <= scalar_at(s, i) < 0xE000),
{
}

/// Decodes the scalar starting at byte `i`.
pub fn scalar_value_at(text: &[u8], i: usize) -> (cp: u32)
    requires
        valid_scalar_at(text@, i as int),
        i < text@.len(),
    ensures
        cp == scalar_at(text@, i as int),
        0 <= cp < 0x110000,
        !(0xD800 <= cp < 0xE000),
{
    proof {
        lemma_scalar_at_range(text@, i as int);
    }
    let b0 = text[i];
    let n = seq_len_of_byte(b0);
    if n == 1 {
        b0 as u32
    } else if n == 2 {
        (b0 as u32 - 0xC0) * 0x40 + (text[i + 1] as u32 - 0x80)
    } else if n == 3 {
        (b0 as u32 - 0xE0) * 0x1000 + (text[i + 1] as u32 - 0x80) * 0x40 + (text[i + 2] as u32
            - 0x80)
    } else {
        (b0 as u32 - 0xF0) * 0x40000 + (text[i + 1] as u32 - 0x80) * 0x1000 + (text[i + 2] as u32
            - 0x80) * 0x40 + (text[i + 3] as u32 - 0x80)
    }
}

/// Exec mirror of [`utf8_seq_len`].
pub fn seq_len_of_byte(b0: u8) -> (n: usize)
    ensures
        n == utf8_seq_len(b0),
{
    if b0 < 0x80 {
        1
    } else if b0 < 0xC2 {
        0
    } else if b0 < 0xE0 {
        2
    } else if b0 < 0xF0 {
        3
    } else if b0 < 0xF5 {
        4
    } else {
        0
    }
}

/// Exec mirror of [`utf16_weight`].
pub fn weight_of_byte(b0: u8) -> (w: usize)
    ensures
        w == utf16_weight(b0),
{
    if 0xF0 <= b0 && b0 < 0xF5 {
        2
    } else {
        1
    }
}

/// Along a decode chain the UTF-16 count of a range never exceeds its byte
/// length, and is positive for a non-empty range.
pub proof fn lemma_utf16_count_bounds(s: Seq<u8>, i: int, j: int)
    requires
        utf8_from(s, i),
        is_boundary(s, j),
        i <= j,
    ensures
        0 <= utf16_count(s, i, j) <= j - i,
        i < j ==> 1 <= utf16_count(s, i, j),
    decreases j - i,
{
    if i < j {
        lemma_step_within(s, i, j);
        lemma_utf16_count_bounds(s, i + utf8_seq_len(s[i]), j);
    }
}

/// UTF-16 offset of the scalar boundary `offset`: the number of UTF-16
/// code units taken by the text before it.
pub fn offset_to_utf16(text: &[u8], offset: usize) -> (r: usize)
    requires
        is_utf8(text@),
        is_boundary(text@, offset as int),
    ensures
        r == utf16_count(text@, 0, offset as int),
{
    let ghost s = text@;
    proof {
        lemma_utf16_count_bounds(s, 0, offset as int);
    }
    let mut i: usize = 0;
    let mut r: usize = 0;
    while i < offset
        invariant
            is_utf8(s),
            utf8_from(s, i as int),
            is_boundary(s, offset as int),
            i <= offset <= s.len(),
            text@ == s,
            r + utf16_count(s, i as int, offset as int) == utf16_count(s, 0, offset as int),
            utf16_count(s, 0, offset as int) <= offset,
        decreases offset - i,
    {
        proof {
            lemma_step_within(s, i as int, offset as int);
            lemma_utf16_count_bounds(s, i as int, offset as int);
            lemma_utf16_count_bounds(s, i + utf8_seq_len(s[i as int]), offset as int);
        }
        let b0 = text[i];
        let n = seq_len_of_byte(b0);
        let w = weight_of_byte(b0);
        r = r + w;
        i = i + n;
    }
    proof {
        lemma_utf16_count_bounds(s, offset as int, offset as int);
    }
    r
}

/// Byte offset for the UTF-16 offset `u`: the first scalar boundary at or
/// past which `u` code units have been consumed, or the end of the text.
pub fn offset_from_utf16(text: &[u8], u: usize) -> (r: usize)
    requires
        is_utf8(text@),
    ensures
        r == offset_of_utf16(text@, u as int, 0),
        is_boundary(text@, r as int),
        utf8_from(text@, r as int),
        r <= text@.len(),
{
    let ghost s = text@;
    let mut i: usize = 0;
    let mut cnt: usize = 0;
    while i < text.len() && cnt < u
        invariant
            is_utf8(s),
            utf8_from(s, i as int),
            i <= s.len(),
            cnt <= i,
            text@ == s,
            offset_of_utf16(s, u as int, 0) == offset_of_utf16(s, u as int - cnt, i as int),
        decreases s.len() - i,
    {
        let b0 = text[i];
        let n = seq_len_of_byte(b0);
        let w = weight_of_byte(b0);
        cnt = cnt + w;
        i = i + n;
    }
    i
}

/// The walk never moves backwards from its starting position.
pub proof fn lemma_offset_of_utf16_ge(s: Seq<u8>, u: int, i: int)
    requires
        0 <= i,
    ensures
        offset_of_utf16(s, u, i) >= i,
    decreases s.len() - i,
{
    if !(u <= 0 || i >= s.len()) {
        let n = utf8_seq_len(s[i]);
        let step = if n <= 0 {
            1int
        } else {
            n
        };
        let step_c = if i + step > s.len() {
            s.len() - i
        } else {
            step
        };
        lemma_offset_of_utf16_ge(s, u - utf16_weight(s[i]), i + step_c);
    }
}

/// Consuming more UTF-16 units never lands earlier in the text.
pub proof fn lemma_offset_of_utf16_monotone(s: Seq<u8>, u1: int, u2: int, i: int)
    requires
        u1 <= u2,
        0 <= i,
    ensures
        offset_of_utf16(s, u1, i) <= offset_of_utf16(s, u2, i),
    decreases s.len() - i,
{
    if u1 <= 0 || i >= s.len() {
        lemma_offset_of_utf16_ge(s, u2, i);
    } else {
        let n = utf8_seq_len(s[i]);
        let step = if n <= 0 {
            1int
        } else {
            n
        };
        let step_c = if i + step > s.len() {
            s.len() - i
        } else {
            step
        };
        lemma_offset_of_utf16_monotone(
            s,
            u1 - utf16_weight(s[i]),
            u2 - utf16_weight(s[i]),
            i + step_c,
        );
    }
}

/// Translating a boundary offset to UTF-16 and back returns the same
/// offset: the two walks consume the same scalars.
pub proof fn lemma_utf16_round_trip_from(s: Seq<u8>, i: int, o: int)
    requires
        utf8_from(s, i),
        is_boundary(s, o),
        i <= o,
    ensures
        offset_of_utf16(s, utf16_count(s, i, o), i) == o,
    decreases o - i,
{
    if i < o {
        lemma_step_within(s, i, o);
        let n = utf8_seq_len(s[i]);
        lemma_utf16_round_trip_from(s, i + n, o);
    }
}

/// For every valid byte offset `o` of well-formed text, converting to a
/// UTF-16 offset and back yields `o` again.
pub proof fn lemma_utf16_round_trip(s: Seq<u8>, o: int)
    requires
        is_utf8(s),
        is_boundary(s, o),
    ensures
        offset_of_utf16(s, utf16_count(s, 0, o), 0) == o,
{
    lemma_utf16_round_trip_from(s, 0, o);
}

/// Splicing the removed bytes back over the inserted ones undoes a splice
/// exactly.
pub proof fn lemma_splice_inverse(t: Seq<u8>, a: int, b: int, ins: Seq<u8>)
    requires
        0 <= a <= b <= t.len(),
    ensures
        spliced(spliced(t, a, b, ins), a, a + ins.len(), t.subrange(a, b)) == t,
{
    let pnd = spliced(t, a, b, ins);
    assert(spliced(pnd, a, a + ins.len(), t.subrange(a, b)) =~= t);
}

/// Copies the bytes `[start, end)` of `text` into a fresh vector.
pub fn bytes_of_range(text: &[u8], start: usize, end: usize) -> (r: Vec<u8>)
    requires
        start <= end <= text@.len(),
    ensures
        r@ == text@.subrange(start as int, end as int),
{
    let mut out: Vec<u8> = Vec::new();
    out.extend_from_slice(&text[start..end]);
    proof {
        assert forall|i: int, j: int| 0 <= i && 0 <= j && cloned::<u8>(out@[i], out@[j]) implies out@[i]
            == out@[j] by {}
        assert(out@ =~= text@.subrange(start as int, end as int));
    }
    out
}

/// Builds `text` with bytes `[start, end)` replaced by `insert`.
pub fn splice_bytes(text: &[u8], start: usize, end: usize, insert: &[u8]) -> (r: Vec<u8>)
    requires
        start <= end <= text@.len(),
    ensures
        r@ == spliced(text@, start as int, end as int, insert@),
{
    let mut out: Vec<u8> = Vec::new();
    out.extend_from_slice(&text[0..start]);
    out.extend_from_slice(insert);
    out.extend_from_slice(&text[end..text.len()]);
    proof {
        assert forall|i: int, j: int| 0 <= i && 0 <= j && cloned::<u8>(out@[i], out@[j]) implies out@[i]
            == out@[j] by {}
        assert(out@ =~= spliced(text@, start as int, end as int, insert@));
    }
    out
}


/// Byte-for-byte equality of two slices.
pub fn eq_bytes(a: &[u8], b: &[u8]) -> (r: bool)
    ensures
        r == (a@ == b@),
{
    if a.len() != b.len() {
        proof {
            assert(a@ != b@);
        }
        return false;
    }
    let mut j: usize = 0;
    while j < a.len()
        invariant
            a@.len() == b@.len(),
            j <= a@.len(),
            forall|k: int| 0 <= k < j ==> a@[k] == b@[k],
        decreases a@.len() - j,
    {
        if a[j] != b[j] {
            return false;
        }
        j = j + 1;
    }
    proof {
        assert(a@ =~= b@);
    }
    true
}


/// The position after an ASCII byte is a scalar boundary.
pub proof fn lemma_ascii_successor_boundary(s: Seq<u8>, i: int)
    requires
        is_utf8(s),
        0 < i <= s.len(),
        s[i - 1] < 0x80,
    ensures
        is_boundary(s, i),
{
    assert(is_boundary(s, i - 1));
    lemma_boundary_on_chain(s, 0, i - 1);
    assert(valid_scalar_at(s, i - 1));
    assert(utf8_seq_len(s[i - 1]) == 1);
    assert(utf8_from(s, i));
    if i < s.len() {
        assert(valid_scalar_at(s, i));
    }
}

/// Start of the logical line holding `o`: the position after the last
/// newline before `o`, or 0.
pub open spec fn line_start(t: Seq<u8>, o: int) -> int
    decreases o,
{
    if o <= 0 {
        0
    } else if t[o - 1] == 0x0A {
        o
    } else {
        line_start(t, o - 1)
    }
}

/// End of the logical line holding `o`: the first newline at or after `o`,
/// or the end of the text.
pub open spec fn line_end(t: Seq<u8>, o: int) -> int
    decreases t.len() - o,
{
    if o < 0 || o >= t.len() {
        t.len() as int
    } else if t[o] == 0x0A {
        o
    } else {
        line_end(t, o + 1)
    }
}

/// Both line edges are scalar boundaries enclosing `o`.
pub proof fn lemma_line_edges(t: Seq<u8>, o: int)
    requires
        is_utf8(t),
        0 <= o <= t.len(),
    ensures
        0 <= line_start(t, o) <= o,
        o <= line_end(t, o) <= t.len(),
        is_boundary(t, line_start(t, o)),
        is_boundary(t, line_end(t, o)),
    decreases t.len() + o,
{
    lemma_line_start_bounds(t, o);
    lemma_line_end_bounds(t, o);
    let ls = line_start(t, o);
    if ls > 0 {
        lemma_ascii_successor_boundary(t, ls);
    }
    let le = line_end(t, o);
    if le < t.len() {
        assert(t[le] == 0x0A);
        assert(!is_cont_byte(t[le]));
    }
}

/// The line start never passes `o` and sits after a newline when positive.
pub proof fn lemma_line_start_bounds(t: Seq<u8>, o: int)
    requires
        0 <= o <= t.len(),
    ensures
        0 <= line_start(t, o) <= o,
        line_start(t, o) > 0 ==> t[line_start(t, o) - 1] == 0x0A,
    decreases o,
{
    if o > 0 && t[o - 1] != 0x0A {
        lemma_line_start_bounds(t, o - 1);
    }
}

/// The line end never precedes `o` and sits on a newline when short of the
/// text end.
pub proof fn lemma_line_end_bounds(t: Seq<u8>, o: int)
    requires
        0 <= o <= t.len(),
    ensures
        o <= line_end(t, o) <= t.len(),
        line_end(t, o) < t.len() ==> t[line_end(t, o)] == 0x0A,
    decreases t.len() - o,
{
    if o < t.len() && t[o] != 0x0A {
        lemma_line_end_bounds(t, o + 1);
    }
}

/// Exec mirror of [`line_start`].
pub fn find_line_start(text: &[u8], o: usize) -> (r: usize)
    requires
        is_utf8(text@),
        o <= text@.len(),
    ensures
        r as int == line_start(text@, o as int),
        r <= o,
        is_boundary(text@, r as int),
{
    proof {
        lemma_line_edges(text@, o as int);
    }
    let mut i: usize = o;
    while i > 0 && text[i - 1] != 0x0A
        invariant
            i <= o <= text@.len(),
            text@.len() >= o,
            line_start(text@, o as int) == line_start(text@, i as int),
        decreases i,
    {
        i = i - 1;
    }
    i
}

/// Exec mirror of [`line_end`].
pub fn find_line_end(text: &[u8], o: usize) -> (r: usize)
    requires
        is_utf8(text@),
        o <= text@.len(),
    ensures
        r as int == line_end(text@, o as int),
        o <= r <= text@.len(),
        is_boundary(text@, r as int),
{
    proof {
        lemma_line_edges(text@, o as int);
    }
    let mut i: usize = o;
    while i < text.len() && text[i] != 0x0A
        invariant
            o <= i <= text@.len(),
            line_end(text@, o as int) == line_end(text@, i as int),
        decreases text@.len() - i,
    {
        i = i + 1;
    }
    i
}


/// Greatest scalar boundary of `m` at or before `pos`.
pub open spec fn snap_to_boundary(m: Seq<u8>, pos: int) -> int
    decreases pos,
{
    if pos <= 0 {
        0
    } else if is_boundary(m, pos) {
        pos
    } else {
        snap_to_boundary(m, pos - 1)
    }
}

/// Snapping lands on a boundary without moving past `pos`.
pub proof fn lemma_snap_to_boundary(m: Seq<u8>, pos: int)
    requires
        is_utf8(m),
        0 <= pos <= m.len(),
    ensures
        is_boundary(m, snap_to_boundary(m, pos)),
        0 <= snap_to_boundary(m, pos) <= pos,
    decreases pos,
{
    if pos <= 0 {
        assert(is_boundary(m, 0));
    } else if !is_boundary(m, pos) {
        lemma_snap_to_boundary(m, pos - 1);
    }
}

/// Exec mirror of [`snap_to_boundary`].
pub fn snap_offset(text: &[u8], pos: usize) -> (r: usize)
    requires
        is_utf8(text@),
        pos <= text@.len(),
    ensures
        r as int == snap_to_boundary(text@, pos as int),
        is_boundary(text@, r as int),
        r <= pos,
{
    proof {
        lemma_snap_to_boundary(text@, pos as int);
    }
    let mut i: usize = pos;
    while i > 0 && i < text.len() && 0x80 <= text[i] && text[i] < 0xC0
        invariant
            is_utf8(text@),
            i <= pos <= text@.len(),
            snap_to_boundary(text@, pos as int) == snap_to_boundary(text@, i as int),
        decreases i,
    {
        i = i - 1;
    }
    i
}


/// Snapping never moves forward nor below zero, whatever the bytes.
pub proof fn lemma_snap_le(m: Seq<u8>, pos: int)
    requires
        0 <= pos,
    ensures
        0 <= snap_to_boundary(m, pos) <= pos,
    decreases pos,
{
    if pos > 0 && !is_boundary(m, pos) {
        lemma_snap_le(m, pos - 1);
    }
}

} // verus!
