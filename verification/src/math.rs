//! Escaping that leaves inline math alone.
//!
//! A text may hold LaTeX math between pairs of `$$`. The escaping of this
//! module writes such math as inline math and escapes the rest. It expects
//! texts in which the `$$` pair up, but gives up on no text: a lone dollar
//! sign inside math is kept apart, and the end of a line ends the math that
//! is open.

use vstd::prelude::*;
use vstd::string::StringSliceAdditionalSpecFns;
use vstd::utf8::*;

use crate::encoding::{lemma_ascii_is_utf8, lemma_first_scalar_apart};
use crate::format::{
    lemma_wrote_keeps_utf8, Layout, WhitespaceFormatter, DEFAULT_INDENT_WIDTH, NEWLINE,
};
use crate::latex_escape::{
    escape_step, escaped_from, lemma_short_step_keeps_utf8, lit, put, write_step, BACKSLASH, HASH,
};
use crate::preprocess::DOLLAR;

verus! {

/// What stands for the bytes that begin at offset `i` of `s`, how many bytes
/// of `s` it stands for, and whether math is open afterwards.
///
/// Outside math, `$$` opens math and is written as `$`; everything else is
/// escaped as usual. Inside math:
///
/// - a backslash and the byte after it stay as they are;
/// - `#` gets a backslash before it;
/// - `$$` closes the math and is written as `$`;
/// - a lone `$` is written with a space before it;
/// - a line feed closes the math: `$` is written before it;
/// - any other byte stays as it is.
pub open spec fn math_step(s: Seq<u8>, i: int, math: bool) -> (Seq<u8>, int, bool) {
    let b = s[i];
    if math {
        if b == BACKSLASH && i + 1 < s.len() {
            (s.subrange(i, i + 2), 2, true)
        } else if b == HASH {
            (lit("\\#"), 1, true)
        } else if b == DOLLAR && i + 1 < s.len() && s[i + 1] == DOLLAR {
            (lit("$"), 2, false)
        } else if b == DOLLAR {
            (lit(" $"), 1, true)
        } else if b == NEWLINE {
            (lit("$") + seq![NEWLINE], 1, false)
        } else {
            (seq![b], 1, true)
        }
    } else if b == DOLLAR && i + 1 < s.len() && s[i + 1] == DOLLAR {
        (lit("$"), 2, true)
    } else {
        (escape_step(s, i).0, escape_step(s, i).1, false)
    }
}

/// The escaped form of the bytes of `s` from offset `i` on, with math left
/// alone, and whether math is open at the end.
pub open spec fn math_escaped_from(s: Seq<u8>, i: int, math: bool) -> (Seq<u8>, bool)
    decreases s.len() - i,
{
    if 0 <= i < s.len() {
        let step = math_step(s, i, math);
        let rest = math_escaped_from(s, i + step.1, step.2);
        (step.0 + rest.0, rest.1)
    } else {
        (Seq::empty(), math)
    }
}

/// The escaped form of `s`, with math left alone, and whether math is open
/// at the end. `math` tells whether math is open at the beginning.
pub open spec fn math_escaped(s: Seq<u8>, math: bool) -> (Seq<u8>, bool) {
    math_escaped_from(s, 0, math)
}

/// Whether the byte at offset `i` of `s` is malformed math that is
/// repaired: inside math, a lone `$` or a line feed.
pub open spec fn is_repair(s: Seq<u8>, i: int, math: bool) -> bool {
    math && (s[i] == NEWLINE || (s[i] == DOLLAR && !(i + 1 < s.len() && s[i + 1] == DOLLAR)))
}

/// Whether malformed math is repaired in the bytes of `s` from offset `i`
/// on.
pub open spec fn math_repaired_from(s: Seq<u8>, i: int, math: bool) -> bool
    decreases s.len() - i,
{
    if 0 <= i < s.len() {
        let step = math_step(s, i, math);
        is_repair(s, i, math) || math_repaired_from(s, i + step.1, step.2)
    } else {
        false
    }
}

/// Whether malformed math is repaired somewhere in `s`. `math` tells
/// whether math is open at the beginning.
pub open spec fn math_repaired(s: Seq<u8>, math: bool) -> bool {
    math_repaired_from(s, 0, math)
}

/// How an escaping that leaves math alone has ended.
#[derive(Debug, Clone, Copy, PartialEq, Eq)]
pub struct MathEnd {
    /// Whether math is open.
    pub open: bool,
    /// Whether malformed math was met and repaired: a lone dollar sign
    /// inside math, or a line that ended with math open.
    pub repaired: bool,
}

/// A text without a dollar sign, written outside math, is escaped as usual
/// and leaves math closed.
pub proof fn lemma_without_math(s: Seq<u8>, i: int)
    requires
        forall|j: int| 0 <= j < s.len() ==> s[j] != DOLLAR,
    ensures
        math_escaped_from(s, i, false) == (escaped_from(s, i), false),
    decreases s.len() - i,
{
    if 0 <= i < s.len() {
        lemma_without_math(s, i + escape_step(s, i).1);
    }
}

/// A text without a dollar sign or a line feed needs no repair, whether
/// math is open or not.
pub proof fn lemma_nothing_to_repair(s: Seq<u8>, i: int, math: bool)
    requires
        forall|j: int| 0 <= j < s.len() ==> s[j] != DOLLAR && s[j] != NEWLINE,
    ensures
        !math_repaired_from(s, i, math),
    decreases s.len() - i,
{
    if 0 <= i < s.len() {
        let step = math_step(s, i, math);
        lemma_nothing_to_repair(s, i + step.1, step.2);
    }
}

proof fn lemma_line_end_from(s: Seq<u8>, i: int, math: bool)
    requires
        0 <= i < s.len(),
        s.last() == NEWLINE,
        s.len() >= 2 ==> s[s.len() - 2] != BACKSLASH,
    ensures
        !math_escaped_from(s, i, math).1,
    decreases s.len() - i,
{
    let step = math_step(s, i, math);
    if i == s.len() - 1 {
        assert(math_escaped_from(s, i + 1, step.2) == (Seq::<u8>::empty(), step.2));
    } else {
        lemma_line_end_from(s, i + step.1, step.2);
    }
}

/// At the end of a line no math is open: a text that ends with a line feed
/// before which no backslash stands leaves math closed, however it began.
pub proof fn lemma_line_end_closes_math(s: Seq<u8>, math: bool)
    requires
        s.len() > 0,
        s.last() == NEWLINE,
        s.len() >= 2 ==> s[s.len() - 2] != BACKSLASH,
    ensures
        !math_escaped(s, math).1,
{
    lemma_line_end_from(s, 0, math);
}

/// The escaping of a text from an offset on is the escaping of what is left
/// of the text when the bytes before the offset are dropped.
proof fn lemma_math_shift(s: Seq<u8>, i: int, j: int, math: bool)
    requires
        0 <= i,
        0 <= j,
        i + j <= s.len(),
    ensures
        math_escaped_from(s, i + j, math) == math_escaped_from(s.skip(i), j, math),
    decreases s.len() - i - j,
{
    let t = s.skip(i);
    if i + j < s.len() {
        assert(t[j] == s[i + j]);
        if i + j + 1 < s.len() {
            assert(t[j + 1] == s[i + j + 1]);
            assert(s.subrange(i + j, i + j + 2) =~= t.subrange(j, j + 2));
        }
        if i + j + 2 < s.len() {
            assert(t[j + 2] == s[i + j + 2]);
        }
        assert(escape_step(s, i + j) == escape_step(t, j));
        assert(math_step(s, i + j, math) == math_step(t, j, math));
        let step = math_step(t, j, math);
        lemma_math_shift(s, i, j + step.1, step.2);
    }
}

/// Where each of `count` bytes from offset `i` on is passed on as it is,
/// and math stays as it is, the bytes stand in the output as in the text.
proof fn lemma_bytes_pass(s: Seq<u8>, i: int, count: int, math: bool)
    requires
        0 <= i,
        0 <= count,
        i + count <= s.len(),
        forall|k: int|
            i <= k < i + count ==> #[trigger] math_step(s, k, math) == (seq![s[k]], 1int, math),
    ensures
        math_escaped_from(s, i, math).0 == s.subrange(i, i + count) + math_escaped_from(
            s,
            i + count,
            math,
        ).0,
        math_escaped_from(s, i, math).1 == math_escaped_from(s, i + count, math).1,
    decreases count,
{
    if count > 0 {
        assert(math_step(s, i, math) == (seq![s[i]], 1int, math));
        lemma_bytes_pass(s, i + 1, count - 1, math);
        assert(s.subrange(i, i + count) =~= seq![s[i]] + s.subrange(i + 1, i + count));
        assert(math_escaped_from(s, i, math).0 =~= s.subrange(i, i + count) + math_escaped_from(
            s,
            i + count,
            math,
        ).0);
    } else {
        assert(s.subrange(i, i) + math_escaped_from(s, i, math).0 =~= math_escaped_from(
            s,
            i,
            math,
        ).0);
    }
}

/// Whether the escaping of `s` begins with `head`, which stands for the
/// first `count` bytes of `s`, and goes on behind them with math open or not
/// as `math_after` says; `head` and what is left of `s` are valid UTF-8.
spec fn begins_with(s: Seq<u8>, math: bool, head: Seq<u8>, count: int, math_after: bool) -> bool {
    &&& 0 < count <= s.len()
    &&& valid_utf8(head)
    &&& valid_utf8(s.skip(count))
    &&& math_escaped(s, math).0 == head + math_escaped(s.skip(count), math_after).0
}

/// A character of more than one byte is written whole: as it is, or in
/// its LaTeX form.
proof fn lemma_long_character(s: Seq<u8>, math: bool) -> (cut: (Seq<u8>, int, bool))
    requires
        valid_utf8(s),
        s.len() > 0,
        s[0] >= 0x80,
    ensures
        begins_with(s, math, cut.0, cut.1, cut.2),
{
    broadcast use encode_utf8_valid_utf8;

    lemma_first_scalar_apart(s);
    let width = length_of_first_scalar(s);
    let step = math_step(s, 0, math);
    assert(valid_first_scalar(s));
    lemma_math_shift(s, width, 0, math);
    if !math && step.1 == width && step.1 > 1 {
        (step.0, width, math)
    } else {
        assert forall|k: int| 0 <= k < width implies #[trigger] math_step(s, k, math) == (
            seq![s[k]],
            1int,
            math,
        ) by {}
        lemma_bytes_pass(s, 0, width, math);
        assert(s.subrange(0, width) =~= s.take(width));
        (s.take(width), width, math)
    }
}

/// Inside math, a backslash and the character of more than one byte behind
/// it are written as they are.
proof fn lemma_shielded_character(s: Seq<u8>) -> (cut: (Seq<u8>, int, bool))
    requires
        valid_utf8(s),
        s.len() > 1,
        s[0] == BACKSLASH,
        s[1] >= 0x80,
    ensures
        begins_with(s, true, cut.0, cut.1, cut.2),
{
    lemma_first_scalar_apart(s);
    assert(valid_first_scalar(s));
    let t = s.skip(1);
    assert(t[0] == s[1]);
    lemma_first_scalar_apart(t);
    assert(valid_first_scalar(t));
    let shielded = length_of_first_scalar(t);
    assert(t.skip(shielded) =~= s.skip(1 + shielded));
    assert forall|k: int| 2 <= k < 1 + shielded implies #[trigger] math_step(s, k, true) == (
        seq![s[k]],
        1int,
        true,
    ) by {
        assert(s[k] == t[k - 1]);
    }
    lemma_bytes_pass(s, 2, shielded - 1, true);
    lemma_math_shift(s, 1 + shielded, 0, true);
    assert(t.take(shielded) =~= s.subrange(1, 1 + shielded));
    lemma_ascii_is_utf8(seq![s[0]]);
    valid_utf8_concat(seq![s[0]], t.take(shielded));
    let head = seq![s[0]] + t.take(shielded);
    assert(s.subrange(0, 2) + s.subrange(2, 1 + shielded) =~= head);
    assert(math_escaped(s, true).0 =~= head + math_escaped(s.skip(1 + shielded), true).0);
    (head, 1 + shielded, true)
}

/// Outside math, a character of one byte that begins no `$$` is written
/// in a form of such characters, and so are the three dots that are taken
/// together.
proof fn lemma_short_character(s: Seq<u8>) -> (cut: (Seq<u8>, int, bool))
    requires
        valid_utf8(s),
        s.len() > 0,
        s[0] < 0x80,
        !(s[0] == DOLLAR && s.len() > 1 && s[1] == DOLLAR),
    ensures
        begins_with(s, false, cut.0, cut.1, cut.2),
{
    lemma_short_step_keeps_utf8(s);
    let step = escape_step(s, 0);
    assert(math_step(s, 0, false) == (step.0, step.1, false));
    lemma_math_shift(s, step.1, 0, false);
    (step.0, step.1, false)
}

/// A `$$` is written as `$`, and math is open behind it if it was not
/// before.
proof fn lemma_delimiter(s: Seq<u8>, math: bool) -> (cut: (Seq<u8>, int, bool))
    requires
        valid_utf8(s),
        s.len() > 1,
        s[0] == DOLLAR,
        s[1] == DOLLAR,
    ensures
        begins_with(s, math, cut.0, cut.1, cut.2),
{
    broadcast use encode_utf8_valid_utf8;

    lemma_first_scalar_apart(s);
    assert(valid_first_scalar(s));
    lemma_first_scalar_apart(s.skip(1));
    assert(valid_first_scalar(s.skip(1)));
    assert(s.skip(1)[0] == s[1]);
    assert(s.skip(1).skip(1) =~= s.skip(2));
    assert(math_step(s, 0, math) == (lit("$"), 2int, !math));
    lemma_math_shift(s, 2, 0, !math);
    (lit("$"), 2, !math)
}

/// Inside math, a character of one byte that begins no `$$` is written in
/// a form of such characters, and so is the other such character behind a
/// backslash.
proof fn lemma_short_math_character(s: Seq<u8>) -> (cut: (Seq<u8>, int, bool))
    requires
        valid_utf8(s),
        s.len() > 0,
        s[0] < 0x80,
        !(s[0] == DOLLAR && s.len() > 1 && s[1] == DOLLAR),
        !(s[0] == BACKSLASH && s.len() > 1 && s[1] >= 0x80),
    ensures
        begins_with(s, true, cut.0, cut.1, cut.2),
{
    broadcast use encode_utf8_valid_utf8;

    lemma_first_scalar_apart(s);
    assert(valid_first_scalar(s));
    let b = s[0];
    if b == BACKSLASH && s.len() > 1 {
        lemma_first_scalar_apart(s.skip(1));
        assert(valid_first_scalar(s.skip(1)));
        assert(s.skip(1)[0] == s[1]);
        assert(s.skip(1).skip(1) =~= s.skip(2));
        lemma_ascii_is_utf8(s.subrange(0, 2));
        lemma_math_shift(s, 2, 0, true);
        (s.subrange(0, 2), 2, true)
    } else if b == HASH {
        lemma_math_shift(s, 1, 0, true);
        (lit("\\#"), 1, true)
    } else if b == DOLLAR {
        lemma_math_shift(s, 1, 0, true);
        (lit(" $"), 1, true)
    } else if b == NEWLINE {
        lemma_ascii_is_utf8(seq![NEWLINE]);
        valid_utf8_concat(lit("$"), seq![NEWLINE]);
        lemma_math_shift(s, 1, 0, false);
        (lit("$") + seq![NEWLINE], 1, false)
    } else {
        lemma_ascii_is_utf8(seq![b]);
        lemma_math_shift(s, 1, 0, true);
        (seq![b], 1, true)
    }
}

/// Escaping that leaves math alone keeps valid UTF-8 valid: what it adds,
/// drops or replaces are whole characters, also where a backslash inside
/// math shields the first byte of a longer character.
pub proof fn lemma_math_escaped_keeps_utf8(s: Seq<u8>, math: bool)
    requires
        valid_utf8(s),
    ensures
        valid_utf8(math_escaped(s, math).0),
    decreases s.len(),
{
    if s.len() > 0 {
        let cut = if s[0] >= 0x80 {
            lemma_long_character(s, math)
        } else if math && s[0] == BACKSLASH && s.len() > 1 && s[1] >= 0x80 {
            lemma_shielded_character(s)
        } else if s[0] == DOLLAR && s.len() > 1 && s[1] == DOLLAR {
            lemma_delimiter(s, math)
        } else if math {
            lemma_short_math_character(s)
        } else {
            lemma_short_character(s)
        };
        let rest = s.skip(cut.1);
        lemma_math_escaped_keeps_utf8(rest, cut.2);
        valid_utf8_concat(cut.0, math_escaped(rest, cut.2).0);
    }
}

/// Writes `s` to `writer` so that it can stand in LaTeX code, with the math
/// between `$$` left alone. `math_mode` tells whether math is open at the
/// beginning; the result tells whether it is open at the end, and whether
/// malformed math was repaired on the way.
pub fn escape_str_with_math(s: &str, writer: &mut Vec<u8>, math_mode: bool) -> (end: MathEnd)
    ensures
        final(writer)@ == old(writer)@ + math_escaped(lit(s), math_mode).0,
        end.open == math_escaped(lit(s), math_mode).1,
        end.repaired == math_repaired(lit(s), math_mode),
        valid_utf8(old(writer)@) ==> valid_utf8(final(writer)@),
{
    proof {
        encode_utf8_valid_utf8(s@);
        lemma_math_escaped_keeps_utf8(lit(s), math_mode);
        if valid_utf8(old(writer)@) {
            valid_utf8_concat(old(writer)@, math_escaped(lit(s), math_mode).0);
        }
    }
    let bytes = s.as_bytes();
    let n = bytes.len();
    let mut math = math_mode;
    let mut repaired = false;
    let mut i: usize = 0;
    while i < n
        invariant
            bytes@ == lit(s),
            n == bytes@.len(),
            i <= n,
            (repaired || math_repaired_from(bytes@, i as int, math)) == math_repaired(
                bytes@,
                math_mode,
            ),
            writer@ + math_escaped_from(bytes@, i as int, math).0 == old(writer)@ + math_escaped(
                bytes@,
                math_mode,
            ).0,
            math_escaped_from(bytes@, i as int, math).1 == math_escaped(bytes@, math_mode).1,
        decreases n - i,
    {
        let ghost before = writer@;
        let ghost step = math_step(bytes@, i as int, math);
        let b = bytes[i];
        let mut consumed: usize = 1;
        if math {
            if b == BACKSLASH && n - i > 1 {
                writer.push(b);
                writer.push(bytes[i + 1]);
                consumed = 2;
                assert(writer@ =~= before + bytes@.subrange(i as int, i + 2));
            } else if b == HASH {
                put(writer, "\\#");
            } else if b == DOLLAR && n - i > 1 && bytes[i + 1] == DOLLAR {
                put(writer, "$");
                consumed = 2;
                math = false;
            } else if b == DOLLAR {
                put(writer, " $");
                repaired = true;
            } else if b == NEWLINE {
                put(writer, "$");
                writer.push(NEWLINE);
                math = false;
                repaired = true;
                assert(writer@ =~= before + (lit("$") + seq![NEWLINE]));
            } else {
                writer.push(b);
                assert(writer@ =~= before + seq![b]);
            }
        } else if b == DOLLAR && n - i > 1 && bytes[i + 1] == DOLLAR {
            put(writer, "$");
            consumed = 2;
            math = true;
        } else {
            consumed = write_step(bytes, i, writer);
        }
        proof {
            assert(writer@ == before + step.0);
            assert(consumed == step.1);
            assert(math == step.2);
            let rest = math_escaped_from(bytes@, i + step.1, step.2);
            assert(writer@ + rest.0 =~= before + (step.0 + rest.0));
        }
        i += consumed;
    }
    assert(writer@ + Seq::<u8>::empty() =~= writer@);
    MathEnd { open: math, repaired }
}

/// What a [`MathFormatter`] stands for.
pub struct MathLayout {
    /// The output and what is due before the next piece of it.
    pub layout: Layout,
    /// Whether math is open.
    pub math_mode: bool,
}

impl MathLayout {
    /// After `bytes` were written escaped, with math left alone.
    pub open spec fn wrote_escaped(self, bytes: Seq<u8>) -> MathLayout {
        MathLayout {
            layout: self.layout.wrote(math_escaped(bytes, self.math_mode).0),
            math_mode: math_escaped(bytes, self.math_mode).1,
        }
    }
}

/// A formatter that escapes what it writes and keeps track of whether math
/// is open.
pub struct MathFormatter {
    formatter: WhitespaceFormatter,
    math_mode: bool,
}

impl View for MathFormatter {
    type V = MathLayout;

    closed spec fn view(&self) -> MathLayout {
        MathLayout { layout: self.formatter@, math_mode: self.math_mode }
    }
}

impl MathFormatter {
    /// Creates a formatter that writes to `inner` with an indentation width
    /// of two spaces. No math is open.
    pub fn new(inner: Vec<u8>) -> (formatter: Self)
        ensures
            formatter@ == (MathLayout {
                layout: Layout::fresh(inner@, DEFAULT_INDENT_WIDTH as nat),
                math_mode: false,
            }),
    {
        Self { formatter: WhitespaceFormatter::new(inner), math_mode: false }
    }

    /// A formatter that goes on where a plain formatter has come to. No math
    /// is open.
    pub fn from_formatter(formatter: WhitespaceFormatter) -> (escaping: Self)
        ensures
            escaping@ == (MathLayout { layout: formatter@, math_mode: false }),
    {
        Self { formatter, math_mode: false }
    }

    /// Tells whether math is open.
    pub fn in_math_mode(&self) -> (open: bool)
        ensures
            open == self@.math_mode,
    {
        self.math_mode
    }

    /// Gives access to the formatter, to indent, to ask for newlines or to
    /// write what is not to be escaped. Whether math is open stays as it is.
    pub fn formatter_mut(&mut self) -> (formatter: &mut WhitespaceFormatter)
        ensures
            formatter@ == old(self)@.layout,
            final(self)@ == (MathLayout {
                layout: final(formatter)@,
                math_mode: old(self)@.math_mode,
            }),
    {
        &mut self.formatter
    }

    /// Shows the buffer as it is.
    pub fn get_ref(&self) -> (inner: &Vec<u8>)
        ensures
            inner@ == self@.layout.written,
    {
        self.formatter.get_ref()
    }

    /// Hands out the buffer, after writing the newlines and indentation that
    /// are due.
    pub fn into_inner(self) -> (inner: Vec<u8>)
        ensures
            inner@ == self@.layout.prepared().written,
    {
        self.formatter.into_inner()
    }

    /// Writes the newlines and indentation that are due, then `s` escaped,
    /// with the math between `$$` left alone. Tells whether malformed math
    /// was repaired on the way.
    pub fn write_escaped(&mut self, s: &str) -> (repaired: bool)
        ensures
            final(self)@ == old(self)@.wrote_escaped(lit(s)),
            repaired == math_repaired(lit(s), old(self)@.math_mode),
            valid_utf8(old(self)@.layout.written) ==> valid_utf8(final(self)@.layout.written),
    {
        proof {
            if valid_utf8(self.formatter@.written) {
                lemma_wrote_keeps_utf8(self.formatter@, Seq::empty());
            }
        }
        let math = self.math_mode;
        let inner = self.formatter.get_mut();
        let end = escape_str_with_math(s, inner, math);
        self.math_mode = end.open;
        end.repaired
    }
}

} // verus!
