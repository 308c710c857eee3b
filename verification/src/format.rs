//! Writing cleanly formatted text: indentation and fused newlines.
//!
//! A [`WhitespaceFormatter`] collects text in a buffer. Newlines are not
//! written when they are asked for but just before the next piece of text, so
//! that the wishes of consecutive blocks can be fused: a paragraph may ask
//! for two newlines after it and a heading for three before it, and three are
//! written, not five.

use vstd::prelude::*;
use vstd::string::StringSliceAdditionalSpecFns;
use vstd::utf8::*;

use crate::encoding::lemma_ascii_is_utf8;

verus! {

/// The most newlines that are ever written in a row.
pub const MAX_NEWLINES: u32 = 4;

/// The most spaces that a line is ever indented by.
pub const MAX_INDENT: u32 = 32;

/// The indentation width of a formatter that was not given one.
pub const DEFAULT_INDENT_WIDTH: u32 = 2;

/// The byte of a line feed.
pub const NEWLINE: u8 = 0x0a;

/// The byte of a space.
pub const SPACE: u8 = 0x20;

/// `count` times the byte `byte`.
pub open spec fn repeated(byte: u8, count: nat) -> Seq<u8> {
    Seq::new(count, |i: int| byte)
}

/// The smaller of two numbers.
pub open spec fn least(a: nat, b: nat) -> nat {
    if a <= b {
        a
    } else {
        b
    }
}

/// The larger of two numbers.
pub open spec fn most(a: nat, b: nat) -> nat {
    if a >= b {
        a
    } else {
        b
    }
}

/// What a [`WhitespaceFormatter`] stands for: the text written so far and
/// what is to happen before the next piece of text.
pub struct Layout {
    /// The bytes written so far.
    pub written: Seq<u8>,
    /// Spaces per level of indentation.
    pub indent_width: nat,
    /// The current level of indentation.
    pub indent_level: nat,
    /// The largest number of newlines asked for since the last write.
    pub pending: nat,
    /// The smallest limit on newlines set since the last write.
    pub limit: nat,
}

impl Layout {
    /// The layout of a new formatter over a buffer that holds `written`. Its
    /// limit is zero: whatever is asked for, nothing is put between what the
    /// buffer already holds and the first piece of text.
    pub open spec fn fresh(written: Seq<u8>, indent_width: nat) -> Layout {
        Layout { written, indent_width, indent_level: 0, pending: 0, limit: 0 }
    }

    /// The number of newlines that the next write puts first: as many as
    /// were asked for, but no more than the limit allows, and never more than
    /// `MAX_NEWLINES`.
    pub open spec fn newlines_due(self) -> nat {
        least(least(self.pending, self.limit), MAX_NEWLINES as nat)
    }

    /// The number of spaces that a new line starts with: never more than
    /// `MAX_INDENT`, however deep the nesting.
    pub open spec fn indentation(self) -> nat {
        least(self.indent_width * self.indent_level, MAX_INDENT as nat)
    }

    /// What the next write puts before its text: the newlines that are due
    /// and the indentation of the new line, or nothing if no newline is due.
    pub open spec fn lead(self) -> Seq<u8> {
        if self.newlines_due() == 0 {
            Seq::empty()
        } else {
            repeated(NEWLINE, self.newlines_due()) + repeated(SPACE, self.indentation())
        }
    }

    /// The layout after the lead was written: nothing is pending, and the
    /// limit is back at `MAX_NEWLINES`.
    pub open spec fn prepared(self) -> Layout {
        Layout {
            written: self.written + self.lead(),
            pending: 0,
            limit: MAX_NEWLINES as nat,
            ..self
        }
    }

    /// The layout after `bytes` were written.
    pub open spec fn wrote(self, bytes: Seq<u8>) -> Layout {
        Layout { written: self.written + self.lead() + bytes, ..self.prepared() }
    }

    /// The layout after `num` newlines were asked for.
    pub open spec fn add_newlines(self, num: nat) -> Layout {
        Layout { pending: most(self.pending, num), ..self }
    }

    /// The layout after newlines were limited to `num`.
    pub open spec fn limit_newlines(self, num: nat) -> Layout {
        Layout { limit: least(self.limit, num), ..self }
    }

    /// The layout one level deeper. The level stops at the largest number
    /// that the formatter can hold.
    pub open spec fn increase_indent(self) -> Layout {
        Layout { indent_level: least(self.indent_level + 1, u32::MAX as nat), ..self }
    }

    /// The layout one level higher, or the same layout at level zero.
    pub open spec fn decrease_indent(self) -> Layout {
        Layout {
            indent_level: if self.indent_level > 0 {
                (self.indent_level - 1) as nat
            } else {
                0
            },
            ..self
        }
    }

    /// The layout after `bytes` were written on a line of their own: at
    /// least one newline before them and one after.
    pub open spec fn wrote_on_single_line(self, bytes: Seq<u8>) -> Layout {
        self.add_newlines(1).wrote(bytes).add_newlines(1)
    }
}

/// A wish about the newlines before the next piece of text.
pub enum Request {
    /// At least this many newlines.
    Add(nat),
    /// At most this many newlines.
    Limit(nat),
}

/// The layout after a sequence of wishes.
pub open spec fn after_requests(layout: Layout, requests: Seq<Request>) -> Layout
    decreases requests.len(),
{
    if requests.len() == 0 {
        layout
    } else {
        let earlier = after_requests(layout, requests.drop_last());
        match requests.last() {
            Request::Add(num) => earlier.add_newlines(num),
            Request::Limit(num) => earlier.limit_newlines(num),
        }
    }
}

/// The largest number of newlines that the wishes ask for; zero if none
/// asks for any.
pub open spec fn most_asked(requests: Seq<Request>) -> nat
    decreases requests.len(),
{
    if requests.len() == 0 {
        0
    } else {
        match requests.last() {
            Request::Add(num) => most(most_asked(requests.drop_last()), num),
            Request::Limit(_) => most_asked(requests.drop_last()),
        }
    }
}

/// The smallest limit that the wishes set; `MAX_NEWLINES` if none sets a
/// smaller one.
pub open spec fn least_limit(requests: Seq<Request>) -> nat
    decreases requests.len(),
{
    if requests.len() == 0 {
        MAX_NEWLINES as nat
    } else {
        match requests.last() {
            Request::Add(_) => least_limit(requests.drop_last()),
            Request::Limit(num) => least(least_limit(requests.drop_last()), num),
        }
    }
}

/// Between two writes, wishes fuse: whatever is asked for and limited after
/// one write, in whatever order, the next write puts as many newlines first
/// as the largest wish asks for, cut down to the smallest limit and to
/// `MAX_NEWLINES`. After that write nothing is pending and the limit is back
/// at `MAX_NEWLINES`.
pub proof fn lemma_requests_fuse(
    before: Layout,
    first: Seq<u8>,
    requests: Seq<Request>,
    second: Seq<u8>,
)
    ensures
        after_requests(before.wrote(first), requests).newlines_due() == least(
            most_asked(requests),
            least_limit(requests),
        ),
        after_requests(before.wrote(first), requests).wrote(second).pending == 0,
        after_requests(before.wrote(first), requests).wrote(second).limit == MAX_NEWLINES,
{
    lemma_requests(before.wrote(first), requests);
}

proof fn lemma_requests(start: Layout, requests: Seq<Request>)
    requires
        start.pending == 0,
        start.limit == MAX_NEWLINES,
    ensures
        after_requests(start, requests).pending == most_asked(requests),
        after_requests(start, requests).limit == least_limit(requests),
        least_limit(requests) <= MAX_NEWLINES,
        after_requests(start, requests).written == start.written,
        after_requests(start, requests).indent_width == start.indent_width,
        after_requests(start, requests).indent_level == start.indent_level,
    decreases requests.len(),
{
    if requests.len() > 0 {
        lemma_requests(start, requests.drop_last());
    }
}

/// What is written before a piece of text is at most `MAX_NEWLINES`
/// newlines followed by at most `MAX_INDENT` spaces, whatever the
/// indentation level and width.
pub proof fn lemma_lead_is_bounded(layout: Layout)
    ensures
        layout.newlines_due() <= MAX_NEWLINES,
        layout.indentation() <= MAX_INDENT,
        layout.lead().len() <= MAX_NEWLINES + MAX_INDENT,
        forall|i: int|
            0 <= i < layout.lead().len() ==> layout.lead()[i] == if i < layout.newlines_due() {
                NEWLINE
            } else {
                SPACE
            },
{
}

/// Writing valid UTF-8 to an output that is valid UTF-8 leaves it so: what
/// the formatter adds of its own is newlines and spaces.
pub proof fn lemma_wrote_keeps_utf8(layout: Layout, bytes: Seq<u8>)
    requires
        valid_utf8(layout.written),
        valid_utf8(bytes),
    ensures
        valid_utf8(layout.prepared().written),
        valid_utf8(layout.wrote(bytes).written),
{
    lemma_ascii_is_utf8(layout.lead());
    valid_utf8_concat(layout.written, layout.lead());
    valid_utf8_concat(layout.written + layout.lead(), bytes);
}

/// A buffer of text with methods to indent lines and to ask for newlines
/// lazily.
pub struct WhitespaceFormatter {
    inner: Vec<u8>,
    indent_width: u32,
    indent_level: u32,
    current_newlines: u32,
    current_newline_limit: u32,
}

impl View for WhitespaceFormatter {
    type V = Layout;

    closed spec fn view(&self) -> Layout {
        Layout {
            written: self.inner@,
            indent_width: self.indent_width as nat,
            indent_level: self.indent_level as nat,
            pending: self.current_newlines as nat,
            limit: self.current_newline_limit as nat,
        }
    }
}

impl WhitespaceFormatter {
    /// Creates a formatter that writes to `inner` with an indentation width
    /// of two spaces.
    pub fn new(inner: Vec<u8>) -> (formatter: Self)
        ensures
            formatter@ == Layout::fresh(inner@, DEFAULT_INDENT_WIDTH as nat),
    {
        Self::with_indent_width(DEFAULT_INDENT_WIDTH, inner)
    }

    /// Creates a formatter that writes to `inner` and indents by
    /// `indent_width` spaces per level.
    pub fn with_indent_width(indent_width: u32, inner: Vec<u8>) -> (formatter: Self)
        ensures
            formatter@ == Layout::fresh(inner@, indent_width as nat),
    {
        Self { inner, indent_width, indent_level: 0, current_newlines: 0, current_newline_limit: 0 }
    }

    /// Hands out the buffer, after writing the newlines and indentation that
    /// are due. To get the buffer without them, call `limit_newlines(0)`
    /// first.
    pub fn into_inner(self) -> (inner: Vec<u8>)
        ensures
            inner@ == self@.prepared().written,
    {
        let mut formatter = self;
        formatter.prepare_writing();
        formatter.inner
    }

    /// Gives direct access to the buffer, after writing the newlines and
    /// indentation that are due, so that text can be written to it at once.
    /// Many small writes are cheaper this way than through the formatter.
    /// What the caller does to the buffer is what the formatter holds
    /// afterwards.
    pub fn get_mut(&mut self) -> (inner: &mut Vec<u8>)
        ensures
            inner@ == old(self)@.prepared().written,
            final(self)@ == (Layout { written: final(inner)@, ..old(self)@.prepared() }),
    {
        self.prepare_writing();
        &mut self.inner
    }

    /// Shows the buffer as it is. Newlines that are due are not written:
    /// nothing can be written through the shared reference, and later wishes
    /// may still fuse with them.
    pub fn get_ref(&self) -> (inner: &Vec<u8>)
        ensures
            inner@ == self@.written,
    {
        &self.inner
    }

    /// Asks for at least `num` newlines before the next piece of text.
    /// Nothing is written yet. Of several wishes the largest counts, as far
    /// as the limit allows.
    pub fn add_newlines(&mut self, num: u32)
        ensures
            final(self)@ == old(self)@.add_newlines(num as nat),
    {
        if num > self.current_newlines {
            self.current_newlines = num;
        }
    }

    /// Allows at most `num` newlines before the next piece of text, whatever
    /// is asked for before or after this call. More than `MAX_NEWLINES` are
    /// never written.
    pub fn limit_newlines(&mut self, num: u32)
        ensures
            final(self)@ == old(self)@.limit_newlines(num as nat),
    {
        if num < self.current_newline_limit {
            self.current_newline_limit = num;
        }
    }

    /// Writes `s` on a line of its own: at least one newline before it and
    /// one after.
    pub fn write_on_single_line(&mut self, s: &str)
        ensures
            final(self)@ == old(self)@.wrote_on_single_line(s.spec_bytes()),
    {
        self.add_newlines(1);
        self.write_all(s.as_bytes());
        self.add_newlines(1);
    }

    /// Moves one level of indentation deeper. Indentation is written after
    /// lazily written newlines only, not after a line feed inside a piece of
    /// text, and not into blank lines.
    pub fn increase_indent(&mut self)
        ensures
            final(self)@ == old(self)@.increase_indent(),
    {
        if self.indent_level < u32::MAX {
            self.indent_level += 1;
        }
    }

    /// Moves one level of indentation higher, unless the level is zero.
    pub fn decrease_indent(&mut self)
        ensures
            final(self)@ == old(self)@.decrease_indent(),
    {
        if self.indent_level > 0 {
            self.indent_level -= 1;
        }
    }

    /// Writes the newlines and indentation that are due.
    fn prepare_writing(&mut self)
        ensures
            final(self)@ == old(self)@.prepared(),
    {
        let asked = if self.current_newlines < self.current_newline_limit {
            self.current_newlines
        } else {
            self.current_newline_limit
        };
        let newlines = if asked < MAX_NEWLINES {
            asked
        } else {
            MAX_NEWLINES
        };
        if newlines != 0 {
            assert(self.indent_width * self.indent_level <= 0xffff_ffff * 0xffff_ffff)
                by (nonlinear_arith)
                requires
                    self.indent_width <= 0xffff_ffff,
                    self.indent_level <= 0xffff_ffff,
            ;
            let wide: u64 = (self.indent_width as u64) * (self.indent_level as u64);
            let indentation: u64 = if wide < MAX_INDENT as u64 {
                wide
            } else {
                MAX_INDENT as u64
            };
            let ghost start = self.inner@;
            let mut count: u32 = 0;
            while count < newlines
                invariant
                    count <= newlines,
                    self.inner@ == start + repeated(NEWLINE, count as nat),
                    self.indent_width == old(self).indent_width,
                    self.indent_level == old(self).indent_level,
                decreases newlines - count,
            {
                self.inner.push(NEWLINE);
                count += 1;
                assert(self.inner@ =~= start + repeated(NEWLINE, count as nat));
            }
            let ghost middle = self.inner@;
            let mut spaces: u64 = 0;
            while spaces < indentation
                invariant
                    spaces <= indentation,
                    self.inner@ == middle + repeated(SPACE, spaces as nat),
                    self.indent_width == old(self).indent_width,
                    self.indent_level == old(self).indent_level,
                decreases indentation - spaces,
            {
                self.inner.push(SPACE);
                spaces += 1;
                assert(self.inner@ =~= middle + repeated(SPACE, spaces as nat));
            }
            assert(self.inner@ =~= old(self)@.written + old(self)@.lead());
        } else {
            assert(self.inner@ =~= old(self)@.written + old(self)@.lead());
        }
        self.current_newlines = 0;
        self.current_newline_limit = MAX_NEWLINES;
    }

    /// Writes the newlines and indentation that are due, then all of `buf`.
    /// Returns the number of bytes of `buf` that were written, which is all
    /// of them.
    pub fn write(&mut self, buf: &[u8]) -> (count: usize)
        ensures
            final(self)@ == old(self)@.wrote(buf@),
            count == buf@.len(),
    {
        self.write_all(buf);
        buf.len()
    }

    /// Writes the newlines and indentation that are due, then all of `buf`.
    ///
    /// For many small writes with no wish for newlines between them, take
    /// the buffer with `get_mut` once and write to it.
    pub fn write_all(&mut self, buf: &[u8])
        ensures
            final(self)@ == old(self)@.wrote(buf@),
    {
        self.prepare_writing();
        let ghost start = self.inner@;
        self.inner.extend_from_slice(buf);
        assert(self.inner@ =~= start + buf@);
    }

    /// Does nothing: the text is in the buffer already. Newlines and
    /// indentation that are due stay due.
    pub fn flush(&mut self)
        ensures
            final(self)@ == old(self)@,
    {
    }
}

} // verus!
