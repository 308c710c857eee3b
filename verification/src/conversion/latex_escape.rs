//! A formatter that escapes as it writes.

use vstd::prelude::*;
use vstd::string::StringSliceAdditionalSpecFns;
use vstd::utf8::*;

use crate::format::{lemma_wrote_keeps_utf8, Layout, WhitespaceFormatter, DEFAULT_INDENT_WIDTH};
use crate::latex_escape::{escape_str, escaped, lit};

verus! {

/// A buffer of LaTeX code with methods to indent lines, to ask for newlines
/// lazily, and to write text either as it stands or escaped.
pub struct LatexEscaper {
    formatter: WhitespaceFormatter,
}

impl View for LatexEscaper {
    type V = Layout;

    closed spec fn view(&self) -> Layout {
        self.formatter@
    }
}

impl LatexEscaper {
    /// Creates an escaper that writes to `inner` with an indentation width
    /// of two spaces.
    pub fn new(inner: Vec<u8>) -> (escaper: Self)
        ensures
            escaper@ == Layout::fresh(inner@, DEFAULT_INDENT_WIDTH as nat),
    {
        Self::with_indent_width(DEFAULT_INDENT_WIDTH, inner)
    }

    /// Creates an escaper that writes to `inner` and indents by
    /// `indent_width` spaces per level.
    pub fn with_indent_width(indent_width: u32, inner: Vec<u8>) -> (escaper: Self)
        ensures
            escaper@ == Layout::fresh(inner@, indent_width as nat),
    {
        Self { formatter: WhitespaceFormatter::with_indent_width(indent_width, inner) }
    }

    /// An escaper that goes on where a formatter has come to.
    pub fn from_formatter(formatter: WhitespaceFormatter) -> (escaper: Self)
        ensures
            escaper@ == formatter@,
    {
        Self { formatter }
    }

    /// The formatter that the escaper writes through, as it is.
    pub fn into_formatter(self) -> (formatter: WhitespaceFormatter)
        ensures
            formatter@ == self@,
    {
        self.formatter
    }

    /// Shows the buffer as it is.
    pub fn get_ref(&self) -> (inner: &Vec<u8>)
        ensures
            inner@ == self@.written,
    {
        self.formatter.get_ref()
    }

    /// Gives direct access to the buffer, after writing the newlines and
    /// indentation that are due, so that text can be written to it at once.
    /// What the caller does to the buffer is what the escaper holds
    /// afterwards.
    pub fn get_mut(&mut self) -> (inner: &mut Vec<u8>)
        ensures
            inner@ == old(self)@.prepared().written,
            final(self)@ == (Layout { written: final(inner)@, ..old(self)@.prepared() }),
    {
        self.formatter.get_mut()
    }

    /// Hands out the buffer, after writing the newlines and indentation that
    /// are due.
    pub fn into_inner(self) -> (inner: Vec<u8>)
        ensures
            inner@ == self@.prepared().written,
    {
        self.formatter.into_inner()
    }

    /// Asks for at least `num` newlines before the next piece of text.
    pub fn add_newlines(&mut self, num: u32)
        ensures
            final(self)@ == old(self)@.add_newlines(num as nat),
    {
        self.formatter.add_newlines(num);
    }

    /// Allows at most `num` newlines before the next piece of text.
    pub fn limit_newlines(&mut self, num: u32)
        ensures
            final(self)@ == old(self)@.limit_newlines(num as nat),
    {
        self.formatter.limit_newlines(num);
    }

    /// Writes the newlines and indentation that are due, then `s` as it
    /// stands.
    pub fn write_str(&mut self, s: &str)
        ensures
            final(self)@ == old(self)@.wrote(lit(s)),
            valid_utf8(old(self)@.written) ==> valid_utf8(final(self)@.written),
    {
        proof {
            encode_utf8_valid_utf8(s@);
            if valid_utf8(self@.written) {
                lemma_wrote_keeps_utf8(self@, lit(s));
            }
        }
        self.formatter.write_all(s.as_bytes());
    }

    /// Writes the newlines and indentation that are due, then `s` with what
    /// LaTeX would misread escaped.
    pub fn write_escaped(&mut self, s: &str)
        ensures
            final(self)@ == old(self)@.wrote(escaped(lit(s))),
            valid_utf8(old(self)@.written) ==> valid_utf8(final(self)@.written),
    {
        proof {
            if valid_utf8(self@.written) {
                lemma_wrote_keeps_utf8(self@, Seq::empty());
            }
        }
        let inner = self.formatter.get_mut();
        escape_str(s, inner);
    }

    /// Writes `s` on a line of its own: at least one newline before it and
    /// one after.
    pub fn write_on_single_line(&mut self, s: &str)
        ensures
            final(self)@ == old(self)@.wrote_on_single_line(lit(s)),
            valid_utf8(old(self)@.written) ==> valid_utf8(final(self)@.written),
    {
        self.add_newlines(1);
        self.write_str(s);
        self.add_newlines(1);
    }

    /// Moves one level of indentation deeper.
    pub fn increase_indent(&mut self)
        ensures
            final(self)@ == old(self)@.increase_indent(),
    {
        self.formatter.increase_indent();
    }

    /// Moves one level of indentation higher, unless the level is zero.
    pub fn decrease_indent(&mut self)
        ensures
            final(self)@ == old(self)@.decrease_indent(),
    {
        self.formatter.decrease_indent();
    }
}

} // verus!
