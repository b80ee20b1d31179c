//! Mask patterns: templates of placeholder and literal tokens that
//! constrain what a field accepts and insert fixed formatting characters
//! (for example `(999)999-9999` for phone numbers).
//!
//! A pattern is parsed from a template string: `9` accepts a digit or dot,
//! `A` a letter, `*` any character, and every other character is a literal
//! that `mask` inserts on its own as typing reaches its position.
//! `is_valid` accepts exactly the texts that conform token by token up to
//! their own length, so typing can approach the template one character at
//! a time.

use vstd::prelude::*;
use crate::utf8::{
    is_utf8, utf8_from, utf8_seq_len, valid_scalar_at, scalar_at, is_boundary, lemma_skip_utf8,
    lemma_take_utf8, lemma_concat_utf8, seq_len_of_byte, scalar_value_at,
};
use crate::segment::{alphabetic, char_of_code_point, char_is_alphabetic};

verus! {

/// One token of a mask pattern.
pub enum MaskToken {
    /// `9`: an ASCII digit or a dot.
    Digit,
    /// `A`: an alphabetic character.
    Letter,
    /// `*`: any character.
    AnyChar,
    /// Any other template character, inserted by `mask` itself; the bytes
    /// of exactly one scalar.
    Literal(Vec<u8>),
}

/// A literal token holds exactly one well-formed scalar.
pub open spec fn token_wf(t: MaskToken) -> bool {
    match t {
        MaskToken::Literal(bs) => valid_scalar_at(bs@, 0) && utf8_seq_len(bs@[0]) == bs@.len(),
        _ => true,
    }
}

pub open spec fn pattern_wf(p: Seq<MaskToken>) -> bool {
    forall|i: int| 0 <= i < p.len() ==> token_wf(#[trigger] p[i])
}

/// Bytes taken by the scalar at the front of `s`, clamped so it is always
/// at least 1 and never runs past the end.
pub open spec fn front_step(s: Seq<u8>) -> int {
    let n = utf8_seq_len(s[0]);
    if n <= 0 {
        1
    } else if n > s.len() {
        s.len() as int
    } else {
        n
    }
}

/// `s` begins with the bytes `bs`.
pub open spec fn has_prefix(s: Seq<u8>, bs: Seq<u8>) -> bool {
    bs.len() <= s.len() && s.take(bs.len() as int) == bs
}

/// The masked form of `s` under pattern `p`: literals are emitted at their
/// own positions (consuming a matching input character when one is there),
/// placeholders consume one input character, and the walk stops as soon as
/// the input is exhausted.  Input left over past the end of the pattern is
/// kept as it is.
pub open spec fn mask_spec(p: Seq<MaskToken>, s: Seq<u8>) -> Seq<u8>
    decreases p.len(),
{
    if s.len() == 0 {
        Seq::empty()
    } else if p.len() == 0 {
        s
    } else {
        match p[0] {
            MaskToken::Literal(bs) => if has_prefix(s, bs@) {
                bs@ + mask_spec(p.skip(1), s.skip(bs@.len() as int))
            } else {
                bs@ + mask_spec(p.skip(1), s)
            },
            _ => {
                let n = front_step(s);
                s.take(n) + mask_spec(p.skip(1), s.skip(n))
            },
        }
    }
}

/// `s` conforms to the pattern token by token up to its own length:
/// missing literals are treated as auto-insertable, every placeholder
/// consumed matches its class, and `s` does not outrun the pattern.
pub open spec fn conforms_spec(p: Seq<MaskToken>, s: Seq<u8>) -> bool
    decreases p.len(),
{
    if s.len() == 0 {
        true
    } else if p.len() == 0 {
        false
    } else {
        match p[0] {
            MaskToken::Literal(bs) => if has_prefix(s, bs@) {
                conforms_spec(p.skip(1), s.skip(bs@.len() as int))
            } else {
                conforms_spec(p.skip(1), s)
            },
            MaskToken::Digit => (0x30 <= s[0] <= 0x39 || s[0] == 0x2E) && conforms_spec(
                p.skip(1),
                s.skip(1),
            ),
            MaskToken::Letter => alphabetic(scalar_at(s, 0) as u32) && conforms_spec(
                p.skip(1),
                s.skip(front_step(s)),
            ),
            MaskToken::AnyChar => conforms_spec(p.skip(1), s.skip(front_step(s))),
        }
    }
}

/// The user-entered characters of `s`: pattern literals found at their own
/// positions are stripped, everything else is kept.
pub open spec fn unmask_spec(p: Seq<MaskToken>, s: Seq<u8>) -> Seq<u8>
    decreases p.len(),
{
    if s.len() == 0 {
        Seq::empty()
    } else if p.len() == 0 {
        s
    } else {
        match p[0] {
            MaskToken::Literal(bs) => if has_prefix(s, bs@) {
                unmask_spec(p.skip(1), s.skip(bs@.len() as int))
            } else {
                unmask_spec(p.skip(1), s)
            },
            _ => {
                let n = front_step(s);
                s.take(n) + unmask_spec(p.skip(1), s.skip(n))
            },
        }
    }
}

/// Exec mirror of [`front_step`] at position `si`.
pub(crate) fn front_step_at(text: &[u8], si: usize) -> (n: usize)
    requires
        si < text@.len(),
    ensures
        n as int == front_step(text@.skip(si as int)),
        1 <= n <= text@.len() - si,
{
    let n0 = seq_len_of_byte(text[si]);
    let n1: usize = if n0 == 0 {
        1
    } else {
        n0
    };
    let rest = text.len() - si;
    proof {
        assert(text@.skip(si as int)[0] == text@[si as int]);
        assert(text@.skip(si as int).len() == text@.len() - si);
    }
    if n1 > rest {
        rest
    } else {
        n1
    }
}

/// Whether `text[si..]` begins with `bs`.
pub(crate) fn prefix_matches(text: &[u8], si: usize, bs: &[u8]) -> (r: bool)
    requires
        si <= text@.len(),
    ensures
        r == has_prefix(text@.skip(si as int), bs@),
{
    if bs.len() > text.len() - si {
        return false;
    }
    let mut j: usize = 0;
    while j < bs.len()
        invariant
            si + bs@.len() <= text@.len(),
            si + bs@.len() <= usize::MAX,
            j <= bs@.len(),
            forall|k: int| 0 <= k < j ==> text@[si + k] == bs@[k],
        decreases bs@.len() - j,
    {
        if text[si + j] != bs[j] {
            proof {
                assert(text@.skip(si as int)[j as int] == text@[si + j]);
                assert(!has_prefix(text@.skip(si as int), bs@)) by {
                    if has_prefix(text@.skip(si as int), bs@) {
                        let jj = j as int;
                        assert(text@.skip(si as int).take(bs@.len() as int)[jj] == bs@[jj]);
                    }
                }
            }
            return false;
        }
        j = j + 1;
    }
    proof {
        assert(text@.skip(si as int).take(bs@.len() as int) =~= bs@);
    }
    true
}

/// Appends the masked form of `text[si..]` under `tokens[ti..]` to `out`.
fn mask_into(tokens: &[MaskToken], ti: usize, text: &[u8], si: usize, out: &mut Vec<u8>)
    requires
        ti <= tokens@.len(),
        si <= text@.len(),
    ensures
        final(out)@ == old(out)@ + mask_spec(tokens@.skip(ti as int), text@.skip(si as int)),
    decreases tokens@.len() - ti,
{
    let ghost p = tokens@.skip(ti as int);
    let ghost s = text@.skip(si as int);
    if si >= text.len() {
        proof {
            assert(out@ =~= out@ + mask_spec(p, s));
        }
        return ;
    }
    if ti >= tokens.len() {
        out.extend_from_slice(&text[si..text.len()]);
        proof {
            assert(text@.subrange(si as int, text@.len() as int) == s);
            assert forall|i: int, j: int|
                0 <= i && 0 <= j && cloned::<u8>(out@[i], out@[j]) implies out@[i] == out@[j] by {}
            assert(out@ =~= old(out)@ + mask_spec(p, s));
        }
        return ;
    }
    proof {
        assert(p[0] == tokens@[ti as int]);
        assert(p.skip(1) =~= tokens@.skip(ti as int + 1));
    }
    match &tokens[ti] {
        MaskToken::Literal(bs) => {
            let matched = prefix_matches(text, si, bs.as_slice());
            out.extend_from_slice(bs.as_slice());
            proof {
                assert forall|i: int, j: int|
                    0 <= i && 0 <= j && cloned::<u8>(out@[i], out@[j]) implies out@[i]
                    == out@[j] by {}
                assert(out@ =~= old(out)@ + bs@);
            }
            if matched {
                proof {
                    assert(s.skip(bs@.len() as int) =~= text@.skip(si + bs@.len()));
                }
                mask_into(tokens, ti + 1, text, si + bs.len(), out);
            } else {
                mask_into(tokens, ti + 1, text, si, out);
            }
            proof {
                assert(out@ =~= old(out)@ + mask_spec(p, s));
            }
        },
        _ => {
            let n = front_step_at(text, si);
            out.extend_from_slice(&text[si..si + n]);
            proof {
                assert forall|i: int, j: int|
                    0 <= i && 0 <= j && cloned::<u8>(out@[i], out@[j]) implies out@[i]
                    == out@[j] by {}
                assert(text@.subrange(si as int, si + n) =~= s.take(n as int));
                assert(out@ =~= old(out)@ + s.take(n as int));
                assert(s.skip(n as int) =~= text@.skip(si + n));
            }
            mask_into(tokens, ti + 1, text, si + n, out);
            proof {
                assert(out@ =~= old(out)@ + mask_spec(p, s));
            }
        },
    }
}

/// Appends the unmasked form of `text[si..]` under `tokens[ti..]` to `out`.
fn unmask_into(tokens: &[MaskToken], ti: usize, text: &[u8], si: usize, out: &mut Vec<u8>)
    requires
        ti <= tokens@.len(),
        si <= text@.len(),
    ensures
        final(out)@ == old(out)@ + unmask_spec(tokens@.skip(ti as int), text@.skip(si as int)),
    decreases tokens@.len() - ti,
{
    let ghost p = tokens@.skip(ti as int);
    let ghost s = text@.skip(si as int);
    if si >= text.len() {
        proof {
            assert(out@ =~= out@ + unmask_spec(p, s));
        }
        return ;
    }
    if ti >= tokens.len() {
        out.extend_from_slice(&text[si..text.len()]);
        proof {
            assert(text@.subrange(si as int, text@.len() as int) == s);
            assert forall|i: int, j: int|
                0 <= i && 0 <= j && cloned::<u8>(out@[i], out@[j]) implies out@[i] == out@[j] by {}
            assert(out@ =~= old(out)@ + unmask_spec(p, s));
        }
        return ;
    }
    proof {
        assert(p[0] == tokens@[ti as int]);
        assert(p.skip(1) =~= tokens@.skip(ti as int + 1));
    }
    match &tokens[ti] {
        MaskToken::Literal(bs) => {
            let matched = prefix_matches(text, si, bs.as_slice());
            if matched {
                proof {
                    assert(s.skip(bs@.len() as int) =~= text@.skip(si + bs@.len()));
                }
                unmask_into(tokens, ti + 1, text, si + bs.len(), out);
            } else {
                unmask_into(tokens, ti + 1, text, si, out);
            }
            proof {
                assert(out@ =~= old(out)@ + unmask_spec(p, s));
            }
        },
        _ => {
            let n = front_step_at(text, si);
            out.extend_from_slice(&text[si..si + n]);
            proof {
                assert forall|i: int, j: int|
                    0 <= i && 0 <= j && cloned::<u8>(out@[i], out@[j]) implies out@[i]
                    == out@[j] by {}
                assert(text@.subrange(si as int, si + n) =~= s.take(n as int));
                assert(out@ =~= old(out)@ + s.take(n as int));
                assert(s.skip(n as int) =~= text@.skip(si + n));
            }
            unmask_into(tokens, ti + 1, text, si + n, out);
            proof {
                assert(out@ =~= old(out)@ + unmask_spec(p, s));
            }
        },
    }
}

/// Whether `text[si..]` conforms to `tokens[ti..]`.
fn conforms_from(tokens: &[MaskToken], ti: usize, text: &[u8], si: usize) -> (r: bool)
    requires
        ti <= tokens@.len(),
        si <= text@.len(),
        utf8_from(text@, si as int),
        pattern_wf(tokens@),
    ensures
        r == conforms_spec(tokens@.skip(ti as int), text@.skip(si as int)),
    decreases tokens@.len() - ti,
{
    let ghost p = tokens@.skip(ti as int);
    let ghost s = text@.skip(si as int);
    if si >= text.len() {
        return true;
    }
    if ti >= tokens.len() {
        return false;
    }
    proof {
        assert(p[0] == tokens@[ti as int]);
        assert(p.skip(1) =~= tokens@.skip(ti as int + 1));
        assert(s[0] == text@[si as int]);
        assert(valid_scalar_at(text@, si as int));
        assert(token_wf(tokens@[ti as int]));
    }
    match &tokens[ti] {
        MaskToken::Literal(bs) => {
            let matched = prefix_matches(text, si, bs.as_slice());
            if matched {
                // the literal is one whole scalar, and its bytes equal the
                // front of the text, so skipping it stays on the chain
                proof {
                    assert(s.skip(bs@.len() as int) =~= text@.skip(si + bs@.len()));
                    assert(text@[si as int] == s[0]);
                    assert(s[0] == s.take(bs@.len() as int)[0]);
                    assert(s[0] == bs@[0]);
                    assert(utf8_seq_len(text@[si as int]) == bs@.len());
                    assert(utf8_from(text@, si + bs@.len()));
                }
                conforms_from(tokens, ti + 1, text, si + bs.len())
            } else {
                conforms_from(tokens, ti + 1, text, si)
            }
        },
        MaskToken::Digit => {
            let b = text[si];
            if (0x30 <= b && b <= 0x39) || b == 0x2E {
                proof {
                    assert(utf8_seq_len(text@[si as int]) == 1);
                    assert(s.skip(1) =~= text@.skip(si + 1));
                }
                conforms_from(tokens, ti + 1, text, si + 1)
            } else {
                false
            }
        },
        MaskToken::Letter => {
            proof {
                assert(scalar_at(s, 0) == scalar_at(text@, si as int));
            }
            let cp = scalar_value_at(text, si);
            let is_alpha = match char_of_code_point(cp) {
                Some(c) => char_is_alphabetic(c),
                None => {
                    proof {
                        crate::utf8::lemma_scalar_at_range(text@, si as int);
                    }
                    false
                },
            };
            if is_alpha {
                let n = front_step_at(text, si);
                proof {
                    assert(s.skip(n as int) =~= text@.skip(si + n));
                }
                conforms_from(tokens, ti + 1, text, si + n)
            } else {
                false
            }
        },
        MaskToken::AnyChar => {
            let n = front_step_at(text, si);
            proof {
                assert(s.skip(n as int) =~= text@.skip(si + n));
            }
            conforms_from(tokens, ti + 1, text, si + n)
        },
    }
}

/// Dropping the head token keeps a pattern well formed.
proof fn lemma_wf_skip(p: Seq<MaskToken>)
    requires
        pattern_wf(p),
        p.len() > 0,
    ensures
        pattern_wf(p.skip(1)),
{
    assert forall|i: int| 0 <= i < p.skip(1).len() implies token_wf(#[trigger] p.skip(1)[i]) by {
        assert(p.skip(1)[i] == p[i + 1]);
    }
}

/// Shape of the masked form when the head token is a placeholder: it
/// begins with the same scalar as the input, and what follows is the
/// masked tail.
proof fn lemma_mask_char_shape(p1: Seq<MaskToken>, s: Seq<u8>)
    requires
        s.len() > 0,
    ensures
        ({
            let n = front_step(s);
            let out = s.take(n) + mask_spec(p1, s.skip(n));
            &&& out.len() > 0
            &&& front_step(out) == n
            &&& out.take(n) == s.take(n)
            &&& out.skip(n) == mask_spec(p1, s.skip(n))
        }),
{
    let n = front_step(s);
    let m = mask_spec(p1, s.skip(n));
    let out = s.take(n) + m;
    assert(1 <= n <= s.len());
    assert(out[0] == s[0]);
    let nl = utf8_seq_len(s[0]);
    if nl <= 0 {
        assert(front_step(out) == 1);
    } else if nl > s.len() {
        assert(n == s.len());
        assert(s.skip(n).len() == 0);
        assert(m =~= Seq::<u8>::empty());
        assert(out.len() == n);
        assert(front_step(out) == n);
    } else {
        assert(n == nl);
        assert(out.len() >= n);
        assert(front_step(out) == nl);
    }
    assert(out.take(n) =~= s.take(n));
    assert(out.skip(n) =~= m);
}

/// Masking is idempotent: masking an already-masked text changes nothing.
pub proof fn lemma_mask_idempotent(p: Seq<MaskToken>, s: Seq<u8>)
    requires
        pattern_wf(p),
    ensures
        mask_spec(p, mask_spec(p, s)) == mask_spec(p, s),
    decreases p.len(),
{
    let out = mask_spec(p, s);
    if s.len() == 0 {
    } else if p.len() == 0 {
    } else {
        let p1 = p.skip(1);
        lemma_wf_skip(p);
        assert(token_wf(p[0]));
        match p[0] {
            MaskToken::Literal(bs) => {
                let b = bs@;
                assert(b.len() >= 1);
                if has_prefix(s, b) {
                    let s1 = s.skip(b.len() as int);
                    let m = mask_spec(p1, s1);
                    assert(out == b + m);
                    assert(out.take(b.len() as int) =~= b);
                    assert(has_prefix(out, b));
                    assert(out.skip(b.len() as int) =~= m);
                    lemma_mask_idempotent(p1, s1);
                } else {
                    let m = mask_spec(p1, s);
                    assert(out == b + m);
                    assert(out.take(b.len() as int) =~= b);
                    assert(has_prefix(out, b));
                    assert(out.skip(b.len() as int) =~= m);
                    lemma_mask_idempotent(p1, s);
                }
            },
            _ => {
                let n = front_step(s);
                let s1 = s.skip(n);
                lemma_mask_char_shape(p1, s);
                lemma_mask_idempotent(p1, s1);
            },
        }
    }
}

/// Unmasking sees through masking: the user-entered characters of a masked
/// text are the user-entered characters of the raw text.
pub proof fn lemma_unmask_of_mask(p: Seq<MaskToken>, s: Seq<u8>)
    requires
        pattern_wf(p),
    ensures
        unmask_spec(p, mask_spec(p, s)) == unmask_spec(p, s),
    decreases p.len(),
{
    let out = mask_spec(p, s);
    if s.len() == 0 {
    } else if p.len() == 0 {
    } else {
        let p1 = p.skip(1);
        lemma_wf_skip(p);
        assert(token_wf(p[0]));
        match p[0] {
            MaskToken::Literal(bs) => {
                let b = bs@;
                assert(b.len() >= 1);
                if has_prefix(s, b) {
                    let s1 = s.skip(b.len() as int);
                    let m = mask_spec(p1, s1);
                    assert(out == b + m);
                    assert(out.take(b.len() as int) =~= b);
                    assert(has_prefix(out, b));
                    assert(out.skip(b.len() as int) =~= m);
                    lemma_unmask_of_mask(p1, s1);
                } else {
                    let m = mask_spec(p1, s);
                    assert(out == b + m);
                    assert(out.take(b.len() as int) =~= b);
                    assert(has_prefix(out, b));
                    assert(out.skip(b.len() as int) =~= m);
                    lemma_unmask_of_mask(p1, s);
                }
            },
            _ => {
                let n = front_step(s);
                let s1 = s.skip(n);
                lemma_mask_char_shape(p1, s);
                lemma_unmask_of_mask(p1, s1);
            },
        }
    }
}

/// Masking well-formed text yields well-formed text.
pub proof fn lemma_mask_utf8(p: Seq<MaskToken>, s: Seq<u8>)
    requires
        pattern_wf(p),
        is_utf8(s),
    ensures
        is_utf8(mask_spec(p, s)),
    decreases p.len(),
{
    if s.len() == 0 {
        assert(is_utf8(mask_spec(p, s)));
    } else if p.len() == 0 {
    } else {
        let p1 = p.skip(1);
        lemma_wf_skip(p);
        assert(token_wf(p[0]));
        assert(valid_scalar_at(s, 0));
        match p[0] {
            MaskToken::Literal(bs) => {
                let b = bs@;
                assert(is_utf8(b)) by {
                    assert(utf8_from(b, utf8_seq_len(b[0])));
                }
                if has_prefix(s, b) {
                    let s1 = s.skip(b.len() as int);
                    assert(s[0] == s.take(b.len() as int)[0]);
                    assert(s[0] == b[0]);
                    assert(utf8_seq_len(s[0]) == b.len());
                    assert(utf8_from(s, b.len() as int));
                    lemma_skip_utf8(s, b.len() as int, 0);
                    lemma_mask_utf8(p1, s1);
                    lemma_concat_utf8(b, mask_spec(p1, s1), 0);
                } else {
                    lemma_mask_utf8(p1, s);
                    lemma_concat_utf8(b, mask_spec(p1, s), 0);
                }
            },
            _ => {
                let n = front_step(s);
                assert(n == utf8_seq_len(s[0]));
                assert(utf8_from(s, n));
                assert(is_boundary(s, n)) by {
                    if n < s.len() {
                        assert(valid_scalar_at(s, n));
                    }
                }
                lemma_take_utf8(s, 0, n);
                lemma_skip_utf8(s, n, 0);
                lemma_mask_utf8(p1, s.skip(n));
                lemma_concat_utf8(s.take(n), mask_spec(p1, s.skip(n)), 0);
            },
        }
    }
}

/// `p` is exactly the token list that the template `s` denotes: `9`, `A`
/// and `*` become their placeholder tokens, every other scalar a literal.
pub open spec fn tokens_match(p: Seq<MaskToken>, s: Seq<u8>) -> bool
    decreases s.len(),
{
    if s.len() == 0 {
        p.len() == 0
    } else {
        let n = front_step(s);
        &&& p.len() > 0
        &&& match p[0] {
            MaskToken::Digit => s[0] == 0x39,
            MaskToken::Letter => s[0] == 0x41,
            MaskToken::AnyChar => s[0] == 0x2A,
            MaskToken::Literal(bs) => s[0] != 0x39 && s[0] != 0x41 && s[0] != 0x2A && bs@ == s.take(
                n,
            ),
        }
        &&& tokens_match(p.skip(1), s.skip(n))
    }
}

/// Parses the template from byte `si` on into its token list.
fn parse_from(pattern: &[u8], si: usize) -> (r: Vec<MaskToken>)
    requires
        si <= pattern@.len(),
        utf8_from(pattern@, si as int),
    ensures
        tokens_match(r@, pattern@.skip(si as int)),
        pattern_wf(r@),
    decreases pattern@.len() - si,
{
    let ghost s = pattern@.skip(si as int);
    if si >= pattern.len() {
        let r: Vec<MaskToken> = Vec::new();
        return r;
    }
    proof {
        assert(valid_scalar_at(pattern@, si as int));
        assert(s[0] == pattern@[si as int]);
    }
    let n = front_step_at(pattern, si);
    proof {
        assert(n == utf8_seq_len(pattern@[si as int]));
        assert(utf8_from(pattern@, si + n));
        assert(s.skip(n as int) =~= pattern@.skip(si + n));
    }
    let b0 = pattern[si];
    let tok: MaskToken = if b0 == 0x39 {
        MaskToken::Digit
    } else if b0 == 0x41 {
        MaskToken::Letter
    } else if b0 == 0x2A {
        MaskToken::AnyChar
    } else {
        let bs = crate::utf8::bytes_of_range(pattern, si, si + n);
        proof {
            assert(bs@ =~= s.take(n as int));
            assert(bs@[0] == pattern@[si as int]);
            assert forall|k: int| 0 <= k < n implies bs@[k] == pattern@[si + k] by {}
            assert(valid_scalar_at(bs@, 0));
        }
        MaskToken::Literal(bs)
    };
    let mut rest = parse_from(pattern, si + n);
    let ghost rest_view = rest@;
    let mut r: Vec<MaskToken> = Vec::new();
    r.push(tok);
    r.append(&mut rest);
    proof {
        assert(r@ =~= seq![tok] + rest_view);
        assert(r@.skip(1) =~= rest_view);
        assert(token_wf(tok));
        assert forall|i: int| 0 <= i < r@.len() implies token_wf(#[trigger] r@[i]) by {
            if i > 0 {
                assert(r@[i] == rest_view[i - 1]);
            }
        }
        assert(tokens_match(r@, s));
    }
    r
}

/// The pattern accepts `s`: there is no pattern, or `s` conforms to it.
pub open spec fn pattern_accepts(p: Seq<MaskToken>, s: Seq<u8>) -> bool {
    p.len() == 0 || conforms_spec(p, s)
}

/// An optional input template: empty means the field is unconstrained.
pub struct MaskPattern {
    /// Parsed token list; empty when no mask is set.
    pub tokens: Vec<MaskToken>,
    /// The template text the tokens were parsed from.
    pub raw: Vec<u8>,
}

impl MaskPattern {
    /// The tokens are well formed and denote exactly the stored template.
    pub open spec fn wf(&self) -> bool {
        &&& pattern_wf(self.tokens@)
        &&& is_utf8(self.raw@)
        &&& tokens_match(self.tokens@, self.raw@)
    }

    /// No mask is set.
    pub open spec fn is_unset(&self) -> bool {
        self.tokens@.len() == 0
    }

    /// A pattern that constrains nothing.
    pub fn empty() -> (r: MaskPattern)
        ensures
            r.wf(),
            r.is_unset(),
            r.raw@.len() == 0,
    {
        MaskPattern { tokens: Vec::new(), raw: Vec::new() }
    }

    /// Parses a template string.
    pub fn parse(pattern: &[u8]) -> (r: MaskPattern)
        requires
            is_utf8(pattern@),
        ensures
            r.wf(),
            r.raw@ == pattern@,
            tokens_match(r.tokens@, pattern@),
    {
        let tokens = parse_from(pattern, 0);
        let raw = crate::utf8::bytes_of_range(pattern, 0, pattern.len());
        proof {
            assert(pattern@.skip(0) =~= pattern@);
            assert(raw@ =~= pattern@);
        }
        MaskPattern { tokens, raw }
    }

    /// Whether the pattern accepts `text`: no pattern is set, or `text`
    /// conforms token by token up to its own length.
    pub fn is_valid(&self, text: &[u8]) -> (r: bool)
        requires
            self.wf(),
            is_utf8(text@),
        ensures
            r == pattern_accepts(self.tokens@, text@),
    {
        if self.tokens.len() == 0 {
            return true;
        }
        proof {
            assert(self.tokens@.skip(0) =~= self.tokens@);
            assert(text@.skip(0) =~= text@);
        }
        conforms_from(self.tokens.as_slice(), 0, text, 0)
    }

    /// The masked form of `text`; the identity when no pattern is set.
    pub fn mask(&self, text: &[u8]) -> (r: Vec<u8>)
        ensures
            r@ == mask_spec(self.tokens@, text@),
    {
        let mut out: Vec<u8> = Vec::new();
        mask_into(self.tokens.as_slice(), 0, text, 0, &mut out);
        proof {
            assert(self.tokens@.skip(0) =~= self.tokens@);
            assert(text@.skip(0) =~= text@);
            assert(out@ =~= mask_spec(self.tokens@, text@));
        }
        out
    }

    /// The user-entered characters of `text`, with the pattern's literals
    /// stripped; the identity when no pattern is set.
    pub fn unmask(&self, text: &[u8]) -> (r: Vec<u8>)
        ensures
            r@ == unmask_spec(self.tokens@, text@),
    {
        let mut out: Vec<u8> = Vec::new();
        unmask_into(self.tokens.as_slice(), 0, text, 0, &mut out);
        proof {
            assert(self.tokens@.skip(0) =~= self.tokens@);
            assert(text@.skip(0) =~= text@);
            assert(out@ =~= unmask_spec(self.tokens@, text@));
        }
        out
    }

    /// The template text, shown as the field placeholder while a mask is
    /// set.
    pub fn placeholder(&self) -> (r: Option<Vec<u8>>)
        ensures
            self.is_unset() ==> r is None,
            !self.is_unset() ==> r is Some && r->0@ == self.raw@,
    {
        if self.tokens.len() == 0 {
            None
        } else {
            Some(crate::utf8::bytes_of_range(self.raw.as_slice(), 0, self.raw.len()))
        }
    }
}

} // verus!
