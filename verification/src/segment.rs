//! Unicode segmentation and character classes.
//!
//! Grapheme-cluster and word segmentation come from the
//! `unicode_segmentation` crate, and the Unicode character classes from
//! `char`'s methods, through the trusted items below.  Everything that can
//! be said over the returned offset lists — boundary search, snapping,
//! ordering — is verified here.

use vstd::prelude::*;
use unicode_segmentation::UnicodeSegmentation;
use crate::utf8::{
    is_utf8, is_boundary, utf8_from, valid_scalar_at, utf8_seq_len, is_cont_byte,
    snap_to_boundary, snap_offset, lemma_boundary_on_chain,
};

verus! {

/// Byte offsets at which the extended grapheme clusters of `s` start.
pub uninterp spec fn grapheme_starts(s: Seq<u8>) -> Seq<int>;

/// Byte offsets at which the UAX#29 word-bound segments of `s` start.
pub uninterp spec fn word_segment_starts(s: Seq<u8>) -> Seq<int>;

/// The code point is in Unicode's Alphabetic class.
pub uninterp spec fn alphabetic(cp: u32) -> bool;

/// The code point is alphanumeric (Alphabetic or a number category).
pub uninterp spec fn alphanumeric(cp: u32) -> bool;

/// The code point has the White_Space property.
pub uninterp spec fn white_space(cp: u32) -> bool;

/// Relies on `unicode_segmentation`'s `grapheme_indices` (extended
/// clusters): the clusters partition the text in order, so their byte
/// offsets start at 0, increase strictly, stay below the length, and each
/// lies on a scalar boundary.
#[verifier::external_body]
pub(crate) fn grapheme_start_indices(text: &[u8]) -> (r: Vec<usize>)
    requires
        is_utf8(text@),
    ensures
        r@.map_values(|v: usize| v as int) == grapheme_starts(text@),
        r@.len() > 0 <==> text@.len() > 0,
        r@.len() > 0 ==> r@[0] == 0,
        forall|k: int| 0 <= k < r@.len() ==> is_boundary(text@, #[trigger] r@[k] as int) && (r@[k]
            as int) < text@.len(),
        forall|k1: int, k2: int| 0 <= k1 < k2 < r@.len() ==> r@[k1] < r@[k2],
{
    core::str::from_utf8(text).unwrap().grapheme_indices(true).map(|(i, _)| i).collect()
}

/// Relies on `unicode_segmentation`'s `split_word_bound_indices`: the
/// word-bound segments partition the text in order, with the same shape of
/// offsets as the grapheme clusters.
#[verifier::external_body]
pub(crate) fn word_segment_start_indices(text: &[u8]) -> (r: Vec<usize>)
    requires
        is_utf8(text@),
    ensures
        r@.map_values(|v: usize| v as int) == word_segment_starts(text@),
        r@.len() > 0 <==> text@.len() > 0,
        r@.len() > 0 ==> r@[0] == 0,
        forall|k: int| 0 <= k < r@.len() ==> is_boundary(text@, #[trigger] r@[k] as int) && (r@[k]
            as int) < text@.len(),
        forall|k1: int, k2: int| 0 <= k1 < k2 < r@.len() ==> r@[k1] < r@[k2],
{
    core::str::from_utf8(text).unwrap().split_word_bound_indices().map(|(i, _)| i).collect()
}

/// Relies on `char::from_u32`: `Some` exactly for scalar values (below
/// 0x110000 and not a surrogate), and the returned `char` is that value.
#[verifier::external_body]
pub(crate) fn char_of_code_point(cp: u32) -> (r: Option<char>)
    ensures
        r is Some <==> (cp < 0x110000 && !(0xD800 <= cp < 0xE000)),
        r is Some ==> r->0 as u32 == cp,
{
    char::from_u32(cp)
}

/// Relies on `char::is_alphabetic`: a class of the character alone.
#[verifier::external_body]
pub(crate) fn char_is_alphabetic(c: char) -> (r: bool)
    ensures
        r == alphabetic(c as u32),
{
    c.is_alphabetic()
}

/// Relies on `char::is_alphanumeric`: a class of the character alone.
#[verifier::external_body]
pub(crate) fn char_is_alphanumeric(c: char) -> (r: bool)
    ensures
        r == alphanumeric(c as u32),
{
    c.is_alphanumeric()
}

/// Relies on `char::is_whitespace`: a class of the character alone.
#[verifier::external_body]
pub(crate) fn char_is_whitespace(c: char) -> (r: bool)
    ensures
        r == white_space(c as u32),
{
    c.is_whitespace()
}

/// The code point at a scalar boundary is alphanumeric or an underscore:
/// the class of characters a double click selects.
pub open spec fn word_char_at(s: Seq<u8>, i: int) -> bool {
    alphanumeric(crate::utf8::scalar_at(s, i) as u32) || s[i] == 0x5F
}

/// Exec test of [`word_char_at`].
pub(crate) fn is_word_char_at(text: &[u8], i: usize) -> (r: bool)
    requires
        valid_scalar_at(text@, i as int),
        i < text@.len(),
    ensures
        r == word_char_at(text@, i as int),
{
    if text[i] == 0x5F {
        return true;
    }
    let cp = crate::utf8::scalar_value_at(text, i);
    match char_of_code_point(cp) {
        Some(c) => char_is_alphanumeric(c),
        None => {
            proof {
                crate::utf8::lemma_scalar_at_range(text@, i as int);
            }
            false
        },
    }
}

/// The code point at a scalar boundary has the White_Space property.
pub open spec fn white_space_at(s: Seq<u8>, i: int) -> bool {
    white_space(crate::utf8::scalar_at(s, i) as u32)
}

/// Exec test of [`white_space_at`].
pub(crate) fn is_white_space_at(text: &[u8], i: usize) -> (r: bool)
    requires
        valid_scalar_at(text@, i as int),
        i < text@.len(),
    ensures
        r == white_space_at(text@, i as int),
{
    let cp = crate::utf8::scalar_value_at(text, i);
    match char_of_code_point(cp) {
        Some(c) => char_is_whitespace(c),
        None => {
            proof {
                crate::utf8::lemma_scalar_at_range(text@, i as int);
            }
            false
        },
    }
}

/// First element of `g` strictly greater than `offset`, or `len`.
pub open spec fn first_start_after(g: Seq<int>, offset: int, len: int) -> int
    decreases g.len(),
{
    if g.len() == 0 {
        len
    } else if g[0] > offset {
        g[0]
    } else {
        first_start_after(g.skip(1), offset, len)
    }
}

/// Last element of `g` strictly less than `offset`, or 0.
pub open spec fn last_start_before(g: Seq<int>, offset: int, acc: int) -> int
    decreases g.len(),
{
    if g.len() == 0 {
        acc
    } else if g[0] < offset {
        last_start_before(g.skip(1), offset, g[0])
    } else {
        acc
    }
}

/// Smallest grapheme-cluster start strictly after `offset`, or the text
/// length when `offset` lies in the last cluster or past the end.  Applied
/// at any offset short of the end it strictly advances, so repeated calls
/// walk the boundaries one cluster at a time.
pub fn next_grapheme_boundary(text: &[u8], offset: usize) -> (r: usize)
    requires
        is_utf8(text@),
    ensures
        r as int == first_start_after(grapheme_starts(text@), offset as int, text@.len() as int),
        r <= text@.len(),
        offset < text@.len() ==> r > offset,
        offset >= text@.len() ==> r == text@.len(),
        is_boundary(text@, r as int),
{
    let starts = grapheme_start_indices(text);
    let ghost g = grapheme_starts(text@);
    let mut k: usize = 0;
    proof {
        assert(g.skip(0) =~= g);
    }
    while k < starts.len()
        invariant
            is_utf8(text@),
            g == grapheme_starts(text@),
            starts@.map_values(|v: usize| v as int) == g,
            k <= starts@.len(),
            starts@.len() > 0 <==> text@.len() > 0,
            forall|j: int| 0 <= j < starts@.len() ==> is_boundary(text@, #[trigger] starts@[j]
                as int) && (starts@[j] as int) < text@.len(),
            forall|j1: int, j2: int| 0 <= j1 < j2 < starts@.len() ==> starts@[j1] < starts@[j2],
            forall|j: int| 0 <= j < k ==> starts@[j] <= offset,
            first_start_after(g, offset as int, text@.len() as int) == first_start_after(
                g.skip(k as int),
                offset as int,
                text@.len() as int,
            ),
        decreases starts@.len() - k,
    {
        proof {
            assert(g.skip(k as int)[0] == starts@[k as int] as int);
        }
        if starts[k] > offset {
            proof {
                assert(g.skip(k as int).len() > 0);
                assert(first_start_after(g.skip(k as int), offset as int, text@.len() as int)
                    == g.skip(k as int)[0]);
            }
            return starts[k];
        }
        proof {
            assert(g.skip(k as int).skip(1) =~= g.skip(k as int + 1));
        }
        k = k + 1;
    }
    proof {
        assert(g.skip(starts@.len() as int).len() == 0);
        if (offset as int) < text@.len() {
            assert(starts@.len() > 0);
        }
    }
    text.len()
}

/// Largest grapheme-cluster start strictly before `offset`, or 0.
pub fn previous_grapheme_boundary(text: &[u8], offset: usize) -> (r: usize)
    requires
        is_utf8(text@),
    ensures
        r as int == last_start_before(grapheme_starts(text@), offset as int, 0),
        r <= offset,
        r <= text@.len(),
        offset > 0 ==> r < offset,
        is_boundary(text@, r as int),
{
    let starts = grapheme_start_indices(text);
    let ghost g = grapheme_starts(text@);
    let mut best: usize = 0;
    let mut k: usize = 0;
    proof {
        assert(g.skip(0) =~= g);
        if text@.len() > 0 {
            assert(valid_scalar_at(text@, 0));
            assert(!is_cont_byte(text@[0]));
        }
    }
    while k < starts.len()
        invariant
            is_utf8(text@),
            g == grapheme_starts(text@),
            starts@.map_values(|v: usize| v as int) == g,
            k <= starts@.len(),
            best <= text@.len(),
            best < offset || (best == 0 && offset == 0),
            is_boundary(text@, best as int),
            forall|j: int| 0 <= j < starts@.len() ==> is_boundary(text@, #[trigger] starts@[j]
                as int) && (starts@[j] as int) < text@.len(),
            last_start_before(g, offset as int, 0) == last_start_before(
                g.skip(k as int),
                offset as int,
                best as int,
            ),
        decreases starts@.len() - k,
    {
        proof {
            assert(g.skip(k as int)[0] == starts@[k as int] as int);
            assert(g.skip(k as int).skip(1) =~= g.skip(k as int + 1));
        }
        if starts[k] >= offset {
            proof {
                assert(g.skip(k as int).len() > 0);
                assert(last_start_before(g.skip(k as int), offset as int, best as int) == best);
            }
            return best;
        }
        best = starts[k];
        k = k + 1;
    }
    proof {
        assert(g.skip(starts@.len() as int).len() == 0);
    }
    best
}


/// Start of the run of word characters (alphanumeric or underscore)
/// containing the boundary `o`: walking one scalar back while it is a word
/// character.
pub open spec fn word_run_start(t: Seq<u8>, o: int) -> int
    decreases o,
    via word_run_start_decreases
{
    if o <= 0 {
        0
    } else {
        let pc = snap_to_boundary(t, o - 1);
        if word_char_at(t, pc) {
            word_run_start(t, pc)
        } else {
            o
        }
    }
}

#[via_fn]
proof fn word_run_start_decreases(t: Seq<u8>, o: int) {
    if o > 0 {
        crate::utf8::lemma_snap_le(t, o - 1);
    }
}

/// End of the run of word characters containing the boundary `o`: walking
/// one scalar forward while it is a word character.
pub open spec fn word_run_end(t: Seq<u8>, o: int) -> int
    decreases t.len() - o,
{
    if o < 0 || o >= t.len() {
        t.len() as int
    } else if word_char_at(t, o) {
        let n = utf8_seq_len(t[o]);
        let step = if n <= 0 {
            1int
        } else if o + n > t.len() {
            t.len() - o
        } else {
            n
        };
        word_run_end(t, o + step)
    } else {
        o as int
    }
}

/// Exec mirror of [`word_run_start`].
fn word_start_rec(text: &[u8], i: usize) -> (r: usize)
    requires
        is_utf8(text@),
        i <= text@.len(),
        is_boundary(text@, i as int),
    ensures
        r as int == word_run_start(text@, i as int),
        r <= i,
        is_boundary(text@, r as int),
    decreases i,
{
    if i == 0 {
        return 0;
    }
    let pc = snap_offset(text, i - 1);
    proof {
        lemma_boundary_on_chain(text@, 0, pc as int);
    }
    if is_word_char_at(text, pc) {
        word_start_rec(text, pc)
    } else {
        i
    }
}

/// Exec mirror of [`word_run_end`].
fn word_end_rec(text: &[u8], j: usize) -> (r: usize)
    requires
        is_utf8(text@),
        j <= text@.len(),
        is_boundary(text@, j as int),
    ensures
        r as int == word_run_end(text@, j as int),
        j <= r <= text@.len(),
        is_boundary(text@, r as int),
    decreases text@.len() - j,
{
    if j >= text.len() {
        return text.len();
    }
    proof {
        lemma_boundary_on_chain(text@, 0, j as int);
        assert(valid_scalar_at(text@, j as int));
    }
    if is_word_char_at(text, j) {
        let n = crate::utf8::seq_len_of_byte(text[j]);
        proof {
            assert(utf8_from(text@, j + n));
            if j + n < text@.len() {
                assert(valid_scalar_at(text@, j + n));
            }
        }
        word_end_rec(text, j + n)
    } else {
        j
    }
}

/// The maximal run of word characters around the boundary `offset`: what a
/// double click selects.  The two ends are equal exactly when the
/// characters at and before `offset` are no word characters.
pub fn word_range_at(text: &[u8], offset: usize) -> (r: (usize, usize))
    requires
        is_utf8(text@),
        offset <= text@.len(),
        is_boundary(text@, offset as int),
    ensures
        r.0 as int == word_run_start(text@, offset as int),
        r.1 as int == word_run_end(text@, offset as int),
        r.0 <= offset <= r.1 <= text@.len(),
        is_boundary(text@, r.0 as int),
        is_boundary(text@, r.1 as int),
{
    let i = word_start_rec(text, offset);
    let j = word_end_rec(text, offset);
    (i, j)
}


/// All scalars in `[i, j)` have the White_Space property.
pub open spec fn seg_all_white(t: Seq<u8>, i: int, j: int) -> bool
    decreases j - i,
{
    if i < 0 || i >= j || i >= t.len() {
        true
    } else {
        let n = utf8_seq_len(t[i]);
        let step = if n <= 0 {
            1int
        } else if i + n > j {
            j - i
        } else {
            n
        };
        white_space_at(t, i) && seg_all_white(t, i + step, j)
    }
}

/// Exec mirror of [`seg_all_white`].
fn blank_rec(text: &[u8], i: usize, j: usize) -> (r: bool)
    requires
        is_utf8(text@),
        i <= text@.len(),
        j <= text@.len(),
        is_boundary(text@, i as int),
    ensures
        r == seg_all_white(text@, i as int, j as int),
    decreases j - i,
{
    if i >= j {
        return true;
    }
    proof {
        lemma_boundary_on_chain(text@, 0, i as int);
        assert(valid_scalar_at(text@, i as int));
    }
    if !is_white_space_at(text, i) {
        return false;
    }
    let n = crate::utf8::seq_len_of_byte(text[i]);
    let step: usize = if i + n > j {
        j - i
    } else {
        n
    };
    proof {
        assert(utf8_from(text@, i + n));
        if i + n <= j {
            if i + n < text@.len() {
                assert(valid_scalar_at(text@, i + n));
            }
            assert(is_boundary(text@, i + n));
        }
    }
    if i + n > j {
        // the clipped tail is past `j`; the recursion stops right away
        proof {
            assert(seg_all_white(text@, j as int, j as int));
        }
        return true;
    }
    blank_rec(text, i + step, j)
}

/// Start of the last word-bound segment of `g` (ending where the next
/// segment starts, or at the text end) that holds a non-white character;
/// `acc` when none does.
pub open spec fn last_nonblank_start(t: Seq<u8>, g: Seq<int>, k: int, acc: int) -> int
    decreases g.len() - k,
{
    if k < 0 || k >= g.len() {
        acc
    } else {
        let e = if k + 1 < g.len() {
            g[k + 1]
        } else {
            t.len() as int
        };
        last_nonblank_start(
            t,
            g,
            k + 1,
            if seg_all_white(t, g[k], e) {
                acc
            } else {
                g[k]
            },
        )
    }
}

/// End of the first word-bound segment of `g` that holds a non-white
/// character; the text end when none does.
pub open spec fn first_nonblank_end(t: Seq<u8>, g: Seq<int>, k: int) -> int
    decreases g.len() - k,
{
    if k < 0 || k >= g.len() {
        t.len() as int
    } else {
        let e = if k + 1 < g.len() {
            g[k + 1]
        } else {
            t.len() as int
        };
        if seg_all_white(t, g[k], e) {
            first_nonblank_end(t, g, k + 1)
        } else {
            e
        }
    }
}

/// Start of the last word before `cursor`: the last word-bound segment of
/// the text up to `cursor` that holds a non-white character, or 0.
pub fn previous_word_start(text: &[u8], cursor: usize) -> (r: usize)
    requires
        is_utf8(text@),
        cursor <= text@.len(),
        is_boundary(text@, cursor as int),
    ensures
        ({
            let pfx = text@.subrange(0, cursor as int);
            r as int == last_nonblank_start(pfx, word_segment_starts(pfx), 0, 0)
        }),
        r <= cursor,
        is_boundary(text@, r as int),
{
    let prefix = &text[0..cursor];
    proof {
        assert(prefix@ =~= text@.subrange(0, cursor as int));
        crate::utf8::lemma_subrange_utf8(text@, 0, cursor as int);
    }
    let ghost pfx = prefix@;
    let starts = word_segment_start_indices(prefix);
    let ghost g = word_segment_starts(pfx);
    let mut best: usize = 0;
    let mut k: usize = 0;
    while k < starts.len()
        invariant
            is_utf8(text@),
            is_utf8(pfx),
            prefix@ == pfx,
            pfx == text@.subrange(0, cursor as int),
            cursor <= text@.len(),
            is_boundary(text@, cursor as int),
            g == word_segment_starts(pfx),
            starts@.map_values(|v: usize| v as int) == g,
            k <= starts@.len(),
            best <= cursor,
            is_boundary(text@, best as int),
            forall|j: int| 0 <= j < starts@.len() ==> is_boundary(pfx, #[trigger] starts@[j]
                as int) && (starts@[j] as int) < pfx.len(),
            forall|j1: int, j2: int| 0 <= j1 < j2 < starts@.len() ==> starts@[j1] < starts@[j2],
            last_nonblank_start(pfx, g, 0, 0) == last_nonblank_start(pfx, g, k as int, best as int),
        decreases starts@.len() - k,
    {
        let st = starts[k];
        let e: usize = if k + 1 < starts.len() {
            starts[k + 1]
        } else {
            prefix.len()
        };
        proof {
            assert(g[k as int] == st as int);
            if k + 1 < starts@.len() {
                assert(g[k as int + 1] == starts@[k as int + 1] as int);
            }
        }
        let is_blank = blank_rec(prefix, st, e);
        proof {
            let ghost nb: int = if seg_all_white(pfx, st as int, e as int) {
                best as int
            } else {
                st as int
            };
            assert(last_nonblank_start(pfx, g, k as int, best as int) == last_nonblank_start(
                pfx,
                g,
                k as int + 1,
                nb,
            ));
        }
        if !is_blank {
            proof {
                assert(st < pfx.len());
                assert(!crate::utf8::is_cont_byte(pfx[st as int]));
                assert(text@[st as int] == pfx[st as int]);
            }
            best = st;
        }
        k = k + 1;
    }
    best
}

/// End of the first word at or after `cursor`: the end of the first
/// word-bound segment of the text from `cursor` on that holds a non-white
/// character, or the text end.
pub fn next_word_end(text: &[u8], cursor: usize) -> (r: usize)
    requires
        is_utf8(text@),
        cursor <= text@.len(),
        is_boundary(text@, cursor as int),
    ensures
        ({
            let sfx = text@.subrange(cursor as int, text@.len() as int);
            r as int == cursor + first_nonblank_end(sfx, word_segment_starts(sfx), 0)
        }),
        cursor <= r <= text@.len(),
        is_boundary(text@, r as int),
{
    let suffix = &text[cursor..text.len()];
    proof {
        assert(suffix@ =~= text@.subrange(cursor as int, text@.len() as int));
        crate::utf8::lemma_subrange_utf8(text@, cursor as int, text@.len() as int);
    }
    let ghost sfx = suffix@;
    let starts = word_segment_start_indices(suffix);
    let ghost g = word_segment_starts(sfx);
    let mut k: usize = 0;
    while k < starts.len()
        invariant
            is_utf8(text@),
            is_utf8(sfx),
            suffix@ == sfx,
            sfx == text@.subrange(cursor as int, text@.len() as int),
            cursor <= text@.len(),
            is_boundary(text@, cursor as int),
            g == word_segment_starts(sfx),
            starts@.map_values(|v: usize| v as int) == g,
            k <= starts@.len(),
            forall|j: int| 0 <= j < starts@.len() ==> is_boundary(sfx, #[trigger] starts@[j]
                as int) && (starts@[j] as int) < sfx.len(),
            forall|j1: int, j2: int| 0 <= j1 < j2 < starts@.len() ==> starts@[j1] < starts@[j2],
            first_nonblank_end(sfx, g, 0) == first_nonblank_end(sfx, g, k as int),
        decreases starts@.len() - k,
    {
        let st = starts[k];
        let e: usize = if k + 1 < starts.len() {
            starts[k + 1]
        } else {
            suffix.len()
        };
        proof {
            assert(g[k as int] == st as int);
            if k + 1 < starts@.len() {
                assert(g[k as int + 1] == starts@[k as int + 1] as int);
            }
            assert(e <= sfx.len());
        }
        let is_blank = blank_rec(suffix, st, e);
        proof {
            if seg_all_white(sfx, st as int, e as int) {
                assert(first_nonblank_end(sfx, g, k as int) == first_nonblank_end(
                    sfx,
                    g,
                    k as int + 1,
                ));
            } else {
                assert(first_nonblank_end(sfx, g, k as int) == e as int);
            }
        }
        if !is_blank {
            let total = text.len();
            proof {
                assert(e <= sfx.len());
                assert(sfx.len() == total - cursor);
                if (e as int) < sfx.len() {
                    assert(!crate::utf8::is_cont_byte(sfx[e as int]));
                    assert(text@[cursor + e] == sfx[e as int]);
                }
            }
            return cursor + e;
        }
        k = k + 1;
    }
    text.len()
}


/// End of the run of indentation characters from `i` on: whitespace other
/// than the line breaks themselves.
pub open spec fn indent_run_end(t: Seq<u8>, i: int) -> int
    decreases t.len() - i,
{
    if i < 0 || i >= t.len() {
        t.len() as int
    } else if t[i] == 0x0A || t[i] == 0x0D {
        i
    } else if white_space_at(t, i) {
        let n = utf8_seq_len(t[i]);
        let step = if n <= 0 {
            1int
        } else if i + n > t.len() {
            t.len() - i
        } else {
            n
        };
        indent_run_end(t, i + step)
    } else {
        i
    }
}

/// Exec mirror of [`indent_run_end`].
pub fn indent_run_end_rec(text: &[u8], i: usize) -> (r: usize)
    requires
        is_utf8(text@),
        i <= text@.len(),
        is_boundary(text@, i as int),
    ensures
        r as int == indent_run_end(text@, i as int),
        i <= r <= text@.len(),
        is_boundary(text@, r as int),
    decreases text@.len() - i,
{
    if i >= text.len() {
        return text.len();
    }
    proof {
        lemma_boundary_on_chain(text@, 0, i as int);
        assert(valid_scalar_at(text@, i as int));
    }
    let b = text[i];
    if b == 0x0A || b == 0x0D {
        return i;
    }
    if is_white_space_at(text, i) {
        let n = crate::utf8::seq_len_of_byte(text[i]);
        proof {
            assert(utf8_from(text@, i + n));
            if i + n < text@.len() {
                assert(valid_scalar_at(text@, i + n));
            }
        }
        indent_run_end_rec(text, i + n)
    } else {
        i
    }
}

} // verus!
