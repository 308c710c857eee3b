//! Replacing what LaTeX would misread, a few characters at a time.
//!
//! [`escape_str`] writes a text so that it can stand in LaTeX code: control
//! characters such as `$` and `^` are escaped, and a few characters and
//! character sequences get the LaTeX command that typesets them. The rules
//! are best effort: they do not make untrusted text safe.

use vstd::prelude::*;
use vstd::string::StringSliceAdditionalSpecFns;
use vstd::utf8::*;

use crate::encoding::{lemma_ascii_is_utf8, lemma_first_scalar_apart};
use crate::format::SPACE;
use crate::preprocess::DOLLAR;

verus! {

/// The byte `&`.
pub const AMPERSAND: u8 = 0x26;

/// The byte `%`.
pub const PERCENT: u8 = 0x25;

/// The byte `#`.
pub const HASH: u8 = 0x23;

/// The byte `_`.
pub const UNDERSCORE: u8 = 0x5f;

/// The byte `{`.
pub const OPEN_BRACE: u8 = 0x7b;

/// The byte `}`.
pub const CLOSE_BRACE: u8 = 0x7d;

/// The byte `~`.
pub const TILDE: u8 = 0x7e;

/// The byte `^`.
pub const CARET: u8 = 0x5e;

/// The byte `\`.
pub const BACKSLASH: u8 = 0x5c;

/// The byte `.`.
pub const DOT: u8 = 0x2e;

/// The bytes of a string.
pub open spec fn lit(s: &str) -> Seq<u8> {
    s.spec_bytes()
}

/// Whether LaTeX reads the byte as a control character.
pub open spec fn is_special(b: u8) -> bool {
    b == AMPERSAND || b == PERCENT || b == DOLLAR || b == HASH || b == UNDERSCORE || b
        == OPEN_BRACE || b == CLOSE_BRACE || b == TILDE || b == CARET || b == BACKSLASH
}

/// What stands for the bytes that begin at offset `i` of `s`, and how many
/// bytes of `s` it stands for. The rules are tried in this order:
///
/// - a control character gets a backslash before it, or its command;
/// - three dots become `\ldots{}`;
/// - a space is dropped if another space follows;
/// - a no-break space (U+00A0) becomes `~`;
/// - an en dash (U+2013) becomes `--`, an em dash (U+2014) `---` and an
///   ellipsis (U+2026) `\ldots{}`;
/// - any other byte stays as it is.
pub open spec fn escape_step(s: Seq<u8>, i: int) -> (Seq<u8>, int) {
    let b = s[i];
    if b == AMPERSAND {
        (lit("\\&"), 1)
    } else if b == PERCENT {
        (lit("\\%"), 1)
    } else if b == DOLLAR {
        (lit("\\$"), 1)
    } else if b == HASH {
        (lit("\\#"), 1)
    } else if b == UNDERSCORE {
        (lit("\\_"), 1)
    } else if b == OPEN_BRACE {
        (lit("\\{"), 1)
    } else if b == CLOSE_BRACE {
        (lit("\\}"), 1)
    } else if b == TILDE {
        (lit("\\textasciitilde{}"), 1)
    } else if b == CARET {
        (lit("\\textasciicircum{}"), 1)
    } else if b == BACKSLASH {
        (lit("\\textbackslash{}"), 1)
    } else if b == DOT && i + 2 < s.len() && s[i + 1] == DOT && s[i + 2] == DOT {
        (lit("\\ldots{}"), 3)
    } else if b == SPACE && i + 1 < s.len() && s[i + 1] == SPACE {
        (Seq::empty(), 1)
    } else if b == 0xC2 && i + 1 < s.len() && s[i + 1] == 0xA0 {
        (lit("~"), 2)
    } else if b == 0xE2 && i + 2 < s.len() && s[i + 1] == 0x80 && s[i + 2] == 0x93 {
        (lit("--"), 3)
    } else if b == 0xE2 && i + 2 < s.len() && s[i + 1] == 0x80 && s[i + 2] == 0x94 {
        (lit("---"), 3)
    } else if b == 0xE2 && i + 2 < s.len() && s[i + 1] == 0x80 && s[i + 2] == 0xA6 {
        (lit("\\ldots{}"), 3)
    } else {
        (seq![b], 1)
    }
}

/// The escaped form of the bytes of `s` from offset `i` on.
pub open spec fn escaped_from(s: Seq<u8>, i: int) -> Seq<u8>
    decreases s.len() - i,
{
    if 0 <= i < s.len() {
        escape_step(s, i).0 + escaped_from(s, i + escape_step(s, i).1)
    } else {
        Seq::empty()
    }
}

/// The escaped form of `s`.
pub open spec fn escaped(s: Seq<u8>) -> Seq<u8> {
    escaped_from(s, 0)
}

/// Whether `piece` may stand in escaped text: a substitution of the table,
/// or a single byte that is no control character.
pub open spec fn is_safe_piece(piece: Seq<u8>) -> bool {
    ||| piece == lit("\\&")
    ||| piece == lit("\\%")
    ||| piece == lit("\\$")
    ||| piece == lit("\\#")
    ||| piece == lit("\\_")
    ||| piece == lit("\\{")
    ||| piece == lit("\\}")
    ||| piece == lit("\\textasciitilde{}")
    ||| piece == lit("\\textasciicircum{}")
    ||| piece == lit("\\textbackslash{}")
    ||| piece == lit("\\ldots{}")
    ||| piece == lit("~")
    ||| piece == lit("--")
    ||| piece == lit("---")
    ||| (piece.len() == 1 && !is_special(piece[0]))
}

/// The pieces that the step at offset `i` of `s` writes: one, or none where
/// a space is dropped.
pub open spec fn step_pieces(s: Seq<u8>, i: int) -> Seq<Seq<u8>> {
    if s[i] == SPACE && i + 1 < s.len() && s[i + 1] == SPACE {
        Seq::empty()
    } else {
        seq![escape_step(s, i).0]
    }
}

/// The pieces that the escaped form of `s` from offset `i` on is made of.
pub open spec fn escaped_pieces(s: Seq<u8>, i: int) -> Seq<Seq<u8>>
    decreases s.len() - i,
{
    if 0 <= i < s.len() {
        step_pieces(s, i) + escaped_pieces(s, i + escape_step(s, i).1)
    } else {
        Seq::empty()
    }
}

/// Escaped text is made of safe pieces, whatever the text: a control
/// character of LaTeX stands in it only as part of a substitution of the
/// table, never bare.
pub proof fn lemma_escaped_is_safe(s: Seq<u8>)
    ensures
        escaped_pieces(s, 0).flatten() == escaped(s),
        forall|k: int|
            0 <= k < escaped_pieces(s, 0).len() ==> is_safe_piece(
                #[trigger] escaped_pieces(s, 0)[k],
            ),
{
    lemma_escaped_pieces(s, 0);
}

proof fn lemma_escaped_pieces(s: Seq<u8>, i: int)
    ensures
        escaped_pieces(s, i).flatten() == escaped_from(s, i),
        forall|k: int|
            0 <= k < escaped_pieces(s, i).len() ==> is_safe_piece(
                #[trigger] escaped_pieces(s, i)[k],
            ),
    decreases s.len() - i,
{
    if 0 <= i < s.len() {
        let next = i + escape_step(s, i).1;
        let head = step_pieces(s, i);
        let tail = escaped_pieces(s, next);
        let all = escaped_pieces(s, i);
        lemma_escaped_pieces(s, next);
        assert(all == head + tail);
        assert forall|k: int| 0 <= k < all.len() implies is_safe_piece(#[trigger] all[k]) by {
            if k >= head.len() {
                assert(all[k] == tail[k - head.len()]);
            } else {
                assert(all[k] == escape_step(s, i).0);
            }
        }
        if head.len() == 0 {
            assert(all =~= tail);
            assert(escape_step(s, i).0 + escaped_from(s, next) =~= escaped_from(s, next));
        } else {
            assert(all.drop_first() =~= tail);
        }
    } else {
        assert(escaped_pieces(s, i).flatten() =~= Seq::<u8>::empty());
    }
}

proof fn lemma_escape_shift(s: Seq<u8>, i: int, j: int)
    requires
        0 <= i,
        0 <= j,
        i + j <= s.len(),
    ensures
        escaped_from(s, i + j) == escaped_from(s.skip(i), j),
    decreases s.len() - i - j,
{
    let t = s.skip(i);
    if i + j < s.len() {
        assert(t[j] == s[i + j]);
        if i + j + 1 < s.len() {
            assert(t[j + 1] == s[i + j + 1]);
        }
        if i + j + 2 < s.len() {
            assert(t[j + 2] == s[i + j + 2]);
        }
        assert(escape_step(s, i + j) == escape_step(t, j));
        lemma_escape_shift(s, i, j + escape_step(t, j).1);
    }
}

/// The step at a byte of 128 or more that begins none of the characters of
/// the table passes the byte on.
proof fn lemma_step_passes(s: Seq<u8>, i: int)
    requires
        0 <= i < s.len(),
        s[i] >= 0x80,
        !(s[i] == 0xC2 && i + 1 < s.len() && s[i + 1] == 0xA0),
        !(s[i] == 0xE2 && i + 2 < s.len() && s[i + 1] == 0x80 && (s[i + 2] == 0x93 || s[i + 2]
            == 0x94 || s[i + 2] == 0xA6)),
    ensures
        escape_step(s, i) == (seq![s[i]], 1int),
{
}

/// What stands for a character of one byte, or for the two or three of
/// them that are taken together, is valid UTF-8, and so is the text behind
/// them.
pub proof fn lemma_short_step_keeps_utf8(s: Seq<u8>)
    requires
        valid_utf8(s),
        s.len() > 0,
        s[0] < 0x80,
    ensures
        1 <= escape_step(s, 0).1 <= s.len(),
        valid_utf8(escape_step(s, 0).0),
        valid_utf8(s.skip(escape_step(s, 0).1)),
{
    broadcast use encode_utf8_valid_utf8;

    lemma_first_scalar_apart(s);
    let step = escape_step(s, 0);
    assert(valid_first_scalar(s));
    if step.1 == 3 {
        lemma_first_scalar_apart(s.skip(1));
        assert(s.skip(1)[0] == s[1]);
        assert(s.skip(1).skip(1) =~= s.skip(2));
        lemma_first_scalar_apart(s.skip(2));
        assert(s.skip(2)[0] == s[2]);
        assert(s.skip(2).skip(1) =~= s.skip(3));
    }
    if step.0 == seq![s[0]] {
        lemma_ascii_is_utf8(step.0);
    }
}

/// Escaping keeps valid UTF-8 valid.
pub proof fn lemma_escaped_keeps_utf8(s: Seq<u8>)
    requires
        valid_utf8(s),
    ensures
        valid_utf8(escaped(s)),
    decreases s.len(),
{
    broadcast use encode_utf8_valid_utf8;

    if s.len() > 0 {
        lemma_first_scalar_apart(s);
        let width = length_of_first_scalar(s);
        let step = escape_step(s, 0);
        assert(valid_first_scalar(s));
        if s[0] < 0x80 {
            lemma_short_step_keeps_utf8(s);
            let rest = s.skip(step.1);
            lemma_escaped_keeps_utf8(rest);
            lemma_escape_shift(s, step.1, 0);
            valid_utf8_concat(step.0, escaped(rest));
        } else {
            let rest = s.skip(width);
            lemma_escaped_keeps_utf8(rest);
            lemma_escape_shift(s, width, 0);
            if step.1 == width && step.1 > 1 {
                valid_utf8_concat(step.0, escaped(rest));
            } else {
                lemma_step_passes(s, 0);
                lemma_step_passes(s, 1);
                if width >= 3 {
                    lemma_step_passes(s, 2);
                }
                if width >= 4 {
                    lemma_step_passes(s, 3);
                }
                assert(escaped_from(s, 0) == seq![s[0]] + escaped_from(s, 1));
                assert(escaped_from(s, 1) == seq![s[1]] + escaped_from(s, 2));
                if width >= 3 {
                    assert(escaped_from(s, 2) == seq![s[2]] + escaped_from(s, 3));
                }
                if width >= 4 {
                    assert(escaped_from(s, 3) == seq![s[3]] + escaped_from(s, 4));
                }
                assert(escaped(s) =~= s.take(width) + escaped(rest));
                valid_utf8_concat(s.take(width), escaped(rest));
            }
        }
    }
}

/// Appends the bytes of `text` to `writer`.
pub(crate) fn put(writer: &mut Vec<u8>, text: &str)
    ensures
        final(writer)@ == old(writer)@ + lit(text),
        valid_utf8(old(writer)@) ==> valid_utf8(final(writer)@),
{
    let ghost start = writer@;
    writer.extend_from_slice(text.as_bytes());
    assert(writer@ =~= start + lit(text));
    proof {
        encode_utf8_valid_utf8(text@);
        if valid_utf8(start) {
            valid_utf8_concat(start, lit(text));
        }
    }
}

/// Writes what stands for the bytes that begin at offset `i` of `bytes`,
/// and tells how many bytes that is.
pub(crate) fn write_step(bytes: &[u8], i: usize, writer: &mut Vec<u8>) -> (consumed: usize)
    requires
        i < bytes@.len(),
    ensures
        final(writer)@ == old(writer)@ + escape_step(bytes@, i as int).0,
        consumed == escape_step(bytes@, i as int).1,
        1 <= consumed <= bytes@.len() - i,
{
    let ghost before = writer@;
    let n = bytes.len();
    let b = bytes[i];
    let mut consumed: usize = 1;
    if b == AMPERSAND {
        put(writer, "\\&");
    } else if b == PERCENT {
        put(writer, "\\%");
    } else if b == DOLLAR {
        put(writer, "\\$");
    } else if b == HASH {
        put(writer, "\\#");
    } else if b == UNDERSCORE {
        put(writer, "\\_");
    } else if b == OPEN_BRACE {
        put(writer, "\\{");
    } else if b == CLOSE_BRACE {
        put(writer, "\\}");
    } else if b == TILDE {
        put(writer, "\\textasciitilde{}");
    } else if b == CARET {
        put(writer, "\\textasciicircum{}");
    } else if b == BACKSLASH {
        put(writer, "\\textbackslash{}");
    } else if b == DOT && n - i > 2 && bytes[i + 1] == DOT && bytes[i + 2] == DOT {
        put(writer, "\\ldots{}");
        consumed = 3;
    } else if b == SPACE && n - i > 1 && bytes[i + 1] == SPACE {
        assert(before + Seq::<u8>::empty() =~= before);
    } else if b == 0xC2 && n - i > 1 && bytes[i + 1] == 0xA0 {
        put(writer, "~");
        consumed = 2;
    } else if b == 0xE2 && n - i > 2 && bytes[i + 1] == 0x80 && bytes[i + 2] == 0x93 {
        put(writer, "--");
        consumed = 3;
    } else if b == 0xE2 && n - i > 2 && bytes[i + 1] == 0x80 && bytes[i + 2] == 0x94 {
        put(writer, "---");
        consumed = 3;
    } else if b == 0xE2 && n - i > 2 && bytes[i + 1] == 0x80 && bytes[i + 2] == 0xA6 {
        put(writer, "\\ldots{}");
        consumed = 3;
    } else {
        writer.push(b);
        assert(writer@ =~= before + seq![b]);
    }
    consumed
}

/// Writes `s` to `writer` so that it can stand in LaTeX code.
///
/// Control characters of LaTeX such as `\`, `$`, `^` and `~` are escaped, so
/// that they appear as text. An en dash, an em dash, an ellipsis (also
/// written as three dots) and a no-break space get their LaTeX form. A run
/// of spaces becomes one space.
pub fn escape_str(s: &str, writer: &mut Vec<u8>)
    ensures
        final(writer)@ == old(writer)@ + escaped(lit(s)),
        valid_utf8(old(writer)@) ==> valid_utf8(final(writer)@),
{
    proof {
        encode_utf8_valid_utf8(s@);
        lemma_escaped_keeps_utf8(lit(s));
        if valid_utf8(old(writer)@) {
            valid_utf8_concat(old(writer)@, escaped(lit(s)));
        }
    }
    let bytes = s.as_bytes();
    let n = bytes.len();
    let mut i: usize = 0;
    while i < n
        invariant
            bytes@ == lit(s),
            n == bytes@.len(),
            i <= n,
            writer@ + escaped_from(bytes@, i as int) == old(writer)@ + escaped(bytes@),
        decreases n - i,
    {
        let ghost before = writer@;
        let ghost step = escape_step(bytes@, i as int);
        let consumed = write_step(bytes, i, writer);
        proof {
            assert(escaped_from(bytes@, i as int) == step.0 + escaped_from(bytes@, i + step.1));
            assert(writer@ + escaped_from(bytes@, i + step.1) =~= before + escaped_from(
                bytes@,
                i as int,
            ));
        }
        i += consumed;
    }
    assert(writer@ + Seq::<u8>::empty() =~= writer@);
}

} // verus!
