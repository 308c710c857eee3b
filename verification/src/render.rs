//! Writing LaTeX for the events of a markdown document.
//!
//! [`render`] walks the events of a preprocessed document from first to last
//! and writes LaTeX for each. What it keeps between events is little: the
//! formatter with its indentation and pending newlines, the replacer with
//! its cursor, and how deeply numbered lists are nested. The events are
//! taken as they come: that elements begin and end in pairs is the parser's
//! business and is not checked.

use vstd::prelude::*;
use vstd::string::StringSliceAdditionalSpecFns;
use vstd::utf8::*;

use crate::event::{Element, LinkKind, Spanned, Token};
use crate::encoding::lemma_ascii_is_utf8;
use crate::format::{lemma_wrote_keeps_utf8, Layout, WhitespaceFormatter, DEFAULT_INDENT_WIDTH};
use crate::latex_escape::{escape_str, escaped, lit, put};
use crate::preprocess::{
    disguised, holds, lemma_cursor_moves_forward, lemma_recorded_wf, lemma_round_trip_of_a_piece,
    lemma_seek, recorded, MarkerMismatch, Replacer, Restored, Table,
};

verus! {

/// The text that every document begins with: the document class, the
/// packages and commands that the generated code relies on, and the start of
/// the document body.
pub const PREAMBLE: &'static str =
    "\\documentclass{article}\n\n\\usepackage[utf8]{inputenc}\n\\usepackage[T1]{fontenc}\n\\usepackage{amsmath}\n\\usepackage{amssymb}\n\\usepackage{graphicx}\n\\usepackage{hyperref}\n\\usepackage[normalem]{ulem}\n\n\\newcommand{\\checkedbox}{$\\boxtimes$}\n\\newcommand{\\uncheckedbox}{$\\square$}\n\n\\begin{document}\n\n";

/// The text that every document ends with.
pub const POSTAMBLE: &'static str = "\\end{document}\n";

/// Numbered lists nested deeper than this get no counter of their own set.
pub const MAX_ENUMERATE_NESTING: usize = 4;

/// Something in the document that the conversion could not do justice to.
/// The conversion goes on; the output may be less than was meant.
#[derive(Debug, Clone, Copy, PartialEq, Eq)]
pub enum Diagnostic {
    /// A piece of text was changed by the parser, so that disguised math
    /// delimiters in it could not be found again. The output may hold
    /// backticks where dollar signs were meant.
    AmbiguousMath,
    /// A footnote definition was met. Footnotes are not converted.
    FootnoteDefinition,
    /// A footnote reference was met. Footnotes are not converted.
    FootnoteReference,
    /// A table was met. Tables are not converted.
    Table,
    /// A link that is not inline was met. Only its text is written.
    NonInlineLink,
    /// An image that is not inline was met. It is left out.
    NonInlineImage,
    /// A piece of HTML was met. It is written as it stands, in typewriter
    /// type.
    Html,
}

impl Diagnostic {
    /// What the diagnostic says, in words.
    pub open spec fn text(self) -> Seq<char> {
        match self {
            Diagnostic::AmbiguousMath =>
                "Ambiguous use of \"$$\". Some generated text may contain spurious \"`\" characters instead of \"$\"."@,
            Diagnostic::FootnoteDefinition => "Ignoring footnote definition (not yet implemented)."@,
            Diagnostic::FootnoteReference => "Ignoring footnote reference (not yet implemented)."@,
            Diagnostic::Table => "Ignoring table (not yet implemented)."@,
            Diagnostic::NonInlineLink => "Ignoring non-inline link (not yet implemented)."@,
            Diagnostic::NonInlineImage => "Ignoring non-inline image (not yet implemented)."@,
            Diagnostic::Html => "Found an HTML tag. Including it verbatim in LaTeX writer."@,
        }
    }

    /// What the diagnostic says, in words, for a log or a message to the
    /// user.
    pub fn message(&self) -> (text: &'static str)
        ensures
            text@ == self.text(),
    {
        match self {
            Diagnostic::AmbiguousMath =>
                "Ambiguous use of \"$$\". Some generated text may contain spurious \"`\" characters instead of \"$\".",
            Diagnostic::FootnoteDefinition => "Ignoring footnote definition (not yet implemented).",
            Diagnostic::FootnoteReference => "Ignoring footnote reference (not yet implemented).",
            Diagnostic::Table => "Ignoring table (not yet implemented).",
            Diagnostic::NonInlineLink => "Ignoring non-inline link (not yet implemented).",
            Diagnostic::NonInlineImage => "Ignoring non-inline image (not yet implemented).",
            Diagnostic::Html => "Found an HTML tag. Including it verbatim in LaTeX writer.",
        }
    }
}

/// Why a conversion was given up.
#[derive(Debug, Clone, Copy, PartialEq, Eq)]
pub enum ConversionError {
    /// The replacer and a piece of text do not belong to the same document.
    MarkerMismatch(MarkerMismatch),
    /// An inline image began and the next event was not its end.
    UnclosedImage,
    /// An inline image ended that had not just begun.
    UnexpectedImageEnd,
}

/// The bytes of a string.
pub open spec fn text_bytes(s: String) -> Seq<u8> {
    encode_utf8(s@)
}

/// The digits of a number in base ten.
pub open spec fn decimal(n: nat) -> Seq<u8>
    decreases n,
{
    if n < 10 {
        seq![(0x30 + n) as u8]
    } else {
        decimal(n / 10).push((0x30 + n % 10) as u8)
    }
}

/// The command that opens a heading of the given level. Levels beyond the
/// fourth are set like the fourth.
pub open spec fn heading_command(level: u32) -> Seq<u8> {
    if level <= 1 {
        lit("\\section{")
    } else if level == 2 {
        lit("\\subsection{")
    } else if level == 3 {
        lit("\\subsubsection{")
    } else {
        lit("\\paragraph{")
    }
}

/// The number of newlines asked for after a heading of the given level.
pub open spec fn heading_gap(level: u32) -> nat {
    if level <= 3 {
        2
    } else {
        1
    }
}

/// The name of the counter of a numbered list inside `nesting` others.
pub open spec fn counter_name(nesting: nat) -> Seq<u8> {
    if nesting == 0 {
        lit("enumi")
    } else if nesting == 1 {
        lit("enumii")
    } else if nesting == 2 {
        lit("enumiii")
    } else {
        lit("enumiv")
    }
}

/// The line that makes a numbered list inside `nesting` others begin with
/// the number `first`: it sets the list's counter to the number before.
pub open spec fn counter_line(nesting: nat, first: u64) -> Seq<u8> {
    lit("\\setcounter{") + counter_name(nesting) + lit("}{") + (if first == 0 {
        lit("-1")
    } else {
        decimal((first - 1) as nat)
    }) + lit("}")
}

/// The command that includes the image file `name`.
pub open spec fn image_command(name: Seq<u8>) -> Seq<u8> {
    lit("\\includegraphics[width=\\textwidth]{") + name + lit("}")
}

/// How far a conversion has come.
pub struct Progress {
    /// The output and what is due before the next piece of it.
    pub layout: Layout,
    /// The disguised delimiters and the cursor into them.
    pub table: Table,
    /// The number of numbered lists that are open.
    pub nesting: nat,
    /// The number of inline images met.
    pub images: nat,
    /// Whether an inline image has just begun, so that its end must follow.
    pub awaiting_image_end: bool,
    /// What was found wanting so far.
    pub notes: Seq<Diagnostic>,
}

impl Progress {
    /// After `bytes` were written.
    pub open spec fn wrote(self, bytes: Seq<u8>) -> Progress {
        Progress { layout: self.layout.wrote(bytes), ..self }
    }

    /// After `bytes` were written on a line of their own.
    pub open spec fn line(self, bytes: Seq<u8>) -> Progress {
        Progress { layout: self.layout.wrote_on_single_line(bytes), ..self }
    }

    /// After `num` newlines were asked for.
    pub open spec fn ask(self, num: nat) -> Progress {
        Progress { layout: self.layout.add_newlines(num), ..self }
    }

    /// After newlines were limited to `num`.
    pub open spec fn limit(self, num: nat) -> Progress {
        Progress { layout: self.layout.limit_newlines(num), ..self }
    }

    /// One level of indentation deeper.
    pub open spec fn deeper(self) -> Progress {
        Progress { layout: self.layout.increase_indent(), ..self }
    }

    /// One level of indentation higher.
    pub open spec fn higher(self) -> Progress {
        Progress { layout: self.layout.decrease_indent(), ..self }
    }

    /// With one more thing found wanting.
    pub open spec fn note(self, diagnostic: Diagnostic) -> Progress {
        Progress { notes: self.notes.push(diagnostic), ..self }
    }

    /// With a note of ambiguous math if a fragment of `len` bytes cannot be
    /// matched with the span from `start` to `end`.
    pub open spec fn note_if_ambiguous(self, len: int, start: int, end: int) -> Progress {
        if Table::correlates(len, start, end) {
            self
        } else {
            self.note(Diagnostic::AmbiguousMath)
        }
    }

    /// The resolved file of the next inline image: the entry of `paths` for
    /// it, or none if `paths` has no entry for it.
    pub open spec fn next_path(self, paths: Seq<Option<String>>) -> Option<String> {
        if self.images < paths.len() {
            paths[self.images as int]
        } else {
            None
        }
    }

    /// The source of the inline image that begins with `token` and takes
    /// the next path, if `token` is the beginning of one and is in order.
    pub open spec fn image_wanted(self, token: Spanned) -> Option<String> {
        match token.event {
            Token::Start(Element::Image { kind: LinkKind::Inline, url }) => if self.awaiting_image_end {
                None
            } else {
                Some(url)
            },
            _ => None,
        }
    }

    /// The state before the first event: no list is open, no image was met
    /// and nothing was found wanting.
    pub open spec fn beginning(layout: Layout, table: Table) -> Progress {
        Progress {
            layout,
            table,
            nesting: 0,
            images: 0,
            awaiting_image_end: false,
            notes: Seq::empty(),
        }
    }

    /// The state in which the conversion of a whole document begins: the
    /// preamble is written after what `writer` holds already, and nothing is
    /// to stand between the preamble and the first output.
    pub open spec fn opening(writer: Seq<u8>, table: Table) -> Progress {
        Self::beginning(
            Layout::fresh(writer + lit(PREAMBLE), DEFAULT_INDENT_WIDTH as nat).limit_newlines(
                2,
            ).add_newlines(2),
            table,
        )
    }

    /// The output and what was found wanting, once the last event is dealt
    /// with. The events cannot end directly after the beginning of an inline
    /// image.
    pub open spec fn finished(self) -> Result<(Layout, Seq<Diagnostic>), ConversionError> {
        if self.awaiting_image_end {
            Err(ConversionError::UnclosedImage)
        } else {
            Ok((self.layout, self.notes))
        }
    }

    /// After an element began.
    #[verifier::opaque]
    pub open spec fn started(self, element: Element, paths: Seq<Option<String>>) -> Progress {
        match element {
            Element::Paragraph => self.ask(2),
            Element::Heading(level) => self.ask(heading_gap(level) + 1).wrote(
                heading_command(level),
            ),
            Element::BlockQuote => self.line(lit("\\begin{quote}")),
            Element::CodeBlock => self.line(lit("\\begin{verbatim}")).limit(1),
            Element::List(None) => self.line(lit("\\begin{itemize}")).deeper().deeper(),
            Element::List(Some(first)) => {
                let opened = self.line(lit("\\begin{enumerate}")).deeper();
                let numbered = if first != 1 && self.nesting < MAX_ENUMERATE_NESTING {
                    opened.line(counter_line(self.nesting, first))
                } else {
                    opened
                };
                Progress { nesting: self.nesting + 1, ..numbered.deeper() }
            },
            Element::Item => self.ask(1).higher().wrote(lit("\\item ")).deeper().limit(0),
            Element::FootnoteDefinition => self.note(Diagnostic::FootnoteDefinition),
            Element::Table => self.note(Diagnostic::Table),
            Element::TableHead => self,
            Element::TableRow => self,
            Element::TableCell => self,
            Element::Emphasis => self.wrote(lit("\\emph{")),
            Element::Strong => self.wrote(lit("\\textbf{")),
            Element::Strikethrough => self.wrote(lit("\\sout{")),
            Element::Link { kind, url } => if kind == LinkKind::Inline {
                self.wrote(lit("\\href{")).wrote(text_bytes(url)).wrote(lit("}{"))
            } else {
                self.note(Diagnostic::NonInlineLink)
            },
            Element::Image { kind, url } => if kind == LinkKind::Inline {
                let included = match self.next_path(paths) {
                    Some(file) => self.ask(1).wrote(image_command(text_bytes(file))),
                    None => self.ask(1).wrote(lit("%") + image_command(text_bytes(url))),
                };
                Progress {
                    images: self.images + 1,
                    awaiting_image_end: true,
                    ..included.ask(1)
                }
            } else {
                self.note(Diagnostic::NonInlineImage)
            },
        }
    }

    /// After an element ended. The end of an inline image is in order only
    /// directly after its beginning, where [`Progress::after`] deals with
    /// it; here it is an error.
    #[verifier::opaque]
    pub open spec fn ended(self, element: Element) -> Result<Progress, ConversionError> {
        match element {
            Element::Paragraph => Ok(self.ask(2)),
            Element::Heading(level) => Ok(self.wrote(lit("}")).ask(heading_gap(level)).limit(2)),
            Element::BlockQuote => Ok(self.line(lit("\\end{quote}"))),
            Element::CodeBlock => Ok(self.wrote(lit("\\end{verbatim}")).ask(1)),
            Element::List(None) => Ok(self.higher().higher().line(lit("\\end{itemize}"))),
            Element::List(Some(_)) => Ok(
                Progress {
                    nesting: if self.nesting > 0 {
                        (self.nesting - 1) as nat
                    } else {
                        0
                    },
                    ..self.higher().higher().line(lit("\\end{enumerate}"))
                },
            ),
            Element::Item => Ok(self),
            Element::FootnoteDefinition => Ok(self),
            Element::Table => Ok(self),
            Element::TableHead => Ok(self),
            Element::TableRow => Ok(self),
            Element::TableCell => Ok(self),
            Element::Emphasis => Ok(self.wrote(lit("}"))),
            Element::Strong => Ok(self.wrote(lit("}"))),
            Element::Strikethrough => Ok(self.wrote(lit("}"))),
            Element::Link { kind, url } => if kind == LinkKind::Inline {
                Ok(self.wrote(lit("}")))
            } else {
                Ok(self)
            },
            Element::Image { kind, url } => if kind == LinkKind::Inline {
                Err(ConversionError::UnexpectedImageEnd)
            } else {
                Ok(self)
            },
        }
    }

    /// After a piece of text that covers the span from `start` to `end`:
    /// its delimiters are restored, and it is written escaped.
    #[verifier::opaque]
    pub open spec fn after_text(self, text: Seq<u8>, start: int, end: int) -> Result<
        Progress,
        ConversionError,
    > {
        let table = self.table.after_restore(text, start, end);
        match self.table.restored(text, start, end) {
            Some(restored) => Ok(
                Progress { table, ..self.note_if_ambiguous(text.len() as int, start, end) }.wrote(
                    escaped(restored),
                ),
            ),
            None => Err(
                ConversionError::MarkerMismatch(MarkerMismatch { offset: table.current() as usize }),
            ),
        }
    }

    /// Whether a code span from `start` to `end` is disguised math: a
    /// delimiter was disguised at its first two bytes and at its last two.
    pub open spec fn is_math(self, start: int, end: int) -> bool {
        self.table.is_point(start) && end > 2 && self.table.seek(start).is_point(end - 2)
    }

    /// The table after a code span from `start` to `end` was examined.
    pub open spec fn examined(self, start: int, end: int) -> Table {
        if self.table.is_point(start) && end > 2 {
            self.table.seek(start).seek(end - 2)
        } else {
            self.table.seek(start)
        }
    }

    /// After an inline code span that covers the span from `start` to
    /// `end`. Disguised math is written as inline math, with the delimiters
    /// in it restored and nothing escaped. A genuine code span is written
    /// escaped and in typewriter type.
    #[verifier::opaque]
    pub open spec fn after_code(self, text: Seq<u8>, start: int, end: int) -> Result<
        Progress,
        ConversionError,
    > {
        let examined = self.examined(start, end);
        if self.is_math(start, end) {
            let table = examined.after_restore(text, start + 2, end - 2);
            match examined.restored(text, start + 2, end - 2) {
                Some(math) => Ok(
                    Progress {
                        table,
                        ..self.note_if_ambiguous(text.len() as int, start + 2, end - 2)
                    }.wrote(lit("$")).wrote(math).wrote(lit("$")),
                ),
                None => Err(
                    ConversionError::MarkerMismatch(
                        MarkerMismatch { offset: table.current() as usize },
                    ),
                ),
            }
        } else {
            Ok(
                Progress { table: examined, ..self }.wrote(
                    lit("\\texttt{") + escaped(text) + lit("}"),
                ),
            )
        }
    }

    /// After a piece of HTML that covers the span from `start` to `end`: it
    /// is noted, its delimiters are restored, and it is written escaped and
    /// in typewriter type.
    #[verifier::opaque]
    pub open spec fn after_html(self, html: Seq<u8>, start: int, end: int) -> Result<
        Progress,
        ConversionError,
    > {
        let table = self.table.after_restore(html, start, end);
        match self.table.restored(html, start, end) {
            Some(restored) => Ok(
                Progress {
                    table,
                    ..self.note(Diagnostic::Html).note_if_ambiguous(html.len() as int, start, end)
                }.wrote(lit("\\texttt{") + escaped(restored) + lit("}")),
            ),
            None => Err(
                ConversionError::MarkerMismatch(MarkerMismatch { offset: table.current() as usize }),
            ),
        }
    }

    /// After one event. Directly after the beginning of an inline image
    /// only its end is in order, which writes nothing.
    pub open spec fn after(self, token: Spanned, paths: Seq<Option<String>>) -> Result<
        Progress,
        ConversionError,
    > {
        if self.awaiting_image_end {
            match token.event {
                Token::End(Element::Image { kind: LinkKind::Inline, url }) => Ok(
                    Progress { awaiting_image_end: false, ..self },
                ),
                _ => Err(ConversionError::UnclosedImage),
            }
        } else {
            match token.event {
                Token::Start(element) => Ok(self.started(element, paths)),
                Token::End(element) => self.ended(element),
                Token::Text(text) => self.after_text(
                    text_bytes(text),
                    token.start as int,
                    token.end as int,
                ),
                Token::Code(text) => self.after_code(
                    text_bytes(text),
                    token.start as int,
                    token.end as int,
                ),
                Token::Html(html) => self.after_html(
                    text_bytes(html),
                    token.start as int,
                    token.end as int,
                ),
                Token::FootnoteReference => Ok(self.note(Diagnostic::FootnoteReference)),
                Token::SoftBreak => Ok(self.wrote(lit(" \\\\")).ask(1)),
                Token::HardBreak => Ok(self.wrote(lit(" \\\\")).ask(1)),
                Token::Rule => Ok(self.wrote(lit("\\par\\noindent\\hrulefill\\par"))),
                Token::TaskListMarker(checked) => Ok(
                    self.wrote(
                        if checked {
                            lit("[\\checkedbox] ")
                        } else {
                            lit("[\\uncheckedbox] ")
                        },
                    ).limit(0),
                ),
            }
        }
    }

    /// After a sequence of events, or the error of the first event that
    /// fails.
    pub open spec fn after_all(self, tokens: Seq<Spanned>, paths: Seq<Option<String>>) -> Result<
        Progress,
        ConversionError,
    >
        decreases tokens.len(),
    {
        if tokens.len() == 0 {
            Ok(self)
        } else {
            match self.after_all(tokens.drop_last(), paths) {
                Ok(earlier) => earlier.after(tokens.last(), paths),
                Err(error) => Err(error),
            }
        }
    }

}

/// The finished document: up to three newlines after the body, then the end
/// of the document.
pub open spec fn closed(body: Layout) -> Seq<u8> {
    body.limit_newlines(3).add_newlines(3).wrote(lit(POSTAMBLE)).prepared().written
}

/// What the events of a preprocessed text add to an output that is under
/// way, and what was found wanting, or the error of the first event that
/// fails.
pub open spec fn rendered_events(
    tokens: Seq<Spanned>,
    table: Table,
    layout: Layout,
    paths: Seq<Option<String>>,
) -> Result<(Layout, Seq<Diagnostic>), ConversionError> {
    match Progress::beginning(layout, table).after_all(tokens, paths) {
        Ok(progress) => progress.finished(),
        Err(error) => Err(error),
    }
}

/// The digits of `n` in base ten.
fn decimal_bytes(n: u64) -> (digits: Vec<u8>)
    ensures
        digits@ == decimal(n as nat),
        forall|i: int| 0 <= i < digits@.len() ==> digits@[i] < 0x80,
    decreases n,
{
    if n < 10 {
        let mut digits: Vec<u8> = Vec::new();
        digits.push(0x30 + n as u8);
        assert(digits@ =~= decimal(n as nat));
        digits
    } else {
        let mut digits = decimal_bytes(n / 10);
        digits.push(0x30 + (n % 10) as u8);
        digits
    }
}

/// The line that sets the counter of a numbered list.
fn counter_line_bytes(nesting: usize, first: u64) -> (line: Vec<u8>)
    ensures
        line@ == counter_line(nesting as nat, first),
        valid_utf8(line@),
{
    let mut line: Vec<u8> = Vec::new();
    put(&mut line, "\\setcounter{");
    if nesting == 0 {
        put(&mut line, "enumi");
    } else if nesting == 1 {
        put(&mut line, "enumii");
    } else if nesting == 2 {
        put(&mut line, "enumiii");
    } else {
        put(&mut line, "enumiv");
    }
    put(&mut line, "}{");
    if first == 0 {
        put(&mut line, "-1");
    } else {
        let mut digits = decimal_bytes(first - 1);
        proof {
            lemma_ascii_is_utf8(digits@);
            valid_utf8_concat(line@, digits@);
        }
        line.append(&mut digits);
    }
    put(&mut line, "}");
    assert(line@ =~= counter_line(nesting as nat, first));
    line
}

/// A conversion under way. It takes the events of a preprocessed text one
/// by one, so that its caller can look at the output as it grows, and can
/// put off finding the file of an image until the image is met.
pub struct Renderer {
    out: WhitespaceFormatter,
    replacer: Replacer,
    nesting: usize,
    images: usize,
    awaiting_image_end: bool,
    notes: Vec<Diagnostic>,
}

impl View for Renderer {
    type V = Progress;

    closed spec fn view(&self) -> Progress {
        Progress {
            layout: self.out@,
            table: self.replacer@,
            nesting: self.nesting as nat,
            images: self.images as nat,
            awaiting_image_end: self.awaiting_image_end,
            notes: self.notes@,
        }
    }
}

impl Renderer {
    /// Whether the output is valid UTF-8.
    spec fn sound(&self) -> bool {
        valid_utf8(self.out@.written)
    }

    fn write(&mut self, text: &str)
        ensures
            final(self)@ == old(self)@.wrote(lit(text)),
            old(self).sound() ==> final(self).sound(),
    {
        proof {
            encode_utf8_valid_utf8(text@);
            if self.sound() {
                lemma_wrote_keeps_utf8(self.out@, lit(text));
                lemma_wrote_keeps_utf8(self.out@.add_newlines(1), lit(text));
            }
        }
        self.out.write_all(text.as_bytes());
    }

    fn line(&mut self, text: &str)
        ensures
            final(self)@ == old(self)@.line(lit(text)),
            old(self).sound() ==> final(self).sound(),
    {
        proof {
            encode_utf8_valid_utf8(text@);
            if self.sound() {
                lemma_wrote_keeps_utf8(self.out@, lit(text));
                lemma_wrote_keeps_utf8(self.out@.add_newlines(1), lit(text));
            }
        }
        self.out.write_on_single_line(text);
    }

    fn ask(&mut self, num: u32)
        ensures
            final(self)@ == old(self)@.ask(num as nat),
            old(self).sound() ==> final(self).sound(),
    {
        self.out.add_newlines(num);
    }

    fn limit(&mut self, num: u32)
        ensures
            final(self)@ == old(self)@.limit(num as nat),
            old(self).sound() ==> final(self).sound(),
    {
        self.out.limit_newlines(num);
    }

    fn deeper(&mut self)
        ensures
            final(self)@ == old(self)@.deeper(),
            old(self).sound() ==> final(self).sound(),
    {
        self.out.increase_indent();
    }

    fn higher(&mut self)
        ensures
            final(self)@ == old(self)@.higher(),
            old(self).sound() ==> final(self).sound(),
    {
        self.out.decrease_indent();
    }

    fn note(&mut self, diagnostic: Diagnostic)
        ensures
            final(self)@ == old(self)@.note(diagnostic),
            old(self).sound() ==> final(self).sound(),
    {
        self.notes.push(diagnostic);
    }

    fn write_bytes(&mut self, bytes: &[u8])
        ensures
            final(self)@ == old(self)@.wrote(bytes@),
            old(self).sound() && valid_utf8(bytes@) ==> final(self).sound(),
    {
        proof {
            if self.sound() && valid_utf8(bytes@) {
                lemma_wrote_keeps_utf8(self.out@, bytes@);
            }
        }
        self.out.write_all(bytes);
    }

    /// Writes what belongs at the beginning of an element.
    fn start(&mut self, element: &Element, paths: &Vec<Option<String>>)
        requires
            old(self).nesting < usize::MAX,
            old(self).images < usize::MAX,
        ensures
            final(self)@ == old(self)@.started(*element, paths@),
            final(self)@.table == old(self)@.table,
            final(self).nesting <= old(self).nesting + 1,
            final(self).images <= old(self).images + 1,
            old(self).sound() ==> final(self).sound(),
    {
        proof {
            reveal(Progress::started);
        }
        match element {
            Element::Paragraph => {
                self.ask(2);
            },
            Element::Heading(level) => {
                if *level <= 1 {
                    self.ask(3);
                    self.write("\\section{");
                } else if *level == 2 {
                    self.ask(3);
                    self.write("\\subsection{");
                } else if *level == 3 {
                    self.ask(3);
                    self.write("\\subsubsection{");
                } else {
                    self.ask(2);
                    self.write("\\paragraph{");
                }
            },
            Element::BlockQuote => {
                self.line("\\begin{quote}");
            },
            Element::CodeBlock => {
                self.line("\\begin{verbatim}");
                self.limit(1);
            },
            Element::List(None) => {
                self.line("\\begin{itemize}");
                self.deeper();
                self.deeper();
            },
            Element::List(Some(first)) => {
                self.line("\\begin{enumerate}");
                self.deeper();
                if *first != 1 && self.nesting < MAX_ENUMERATE_NESTING {
                    let line = counter_line_bytes(self.nesting, *first);
                    self.ask(1);
                    self.write_bytes(line.as_slice());
                    self.ask(1);
                }
                self.deeper();
                self.nesting = self.nesting + 1;
            },
            Element::Item => {
                self.ask(1);
                self.higher();
                self.write("\\item ");
                self.deeper();
                self.limit(0);
            },
            Element::FootnoteDefinition => {
                self.note(Diagnostic::FootnoteDefinition);
            },
            Element::Table => {
                self.note(Diagnostic::Table);
            },
            Element::TableHead => {},
            Element::TableRow => {},
            Element::TableCell => {},
            Element::Emphasis => {
                self.write("\\emph{");
            },
            Element::Strong => {
                self.write("\\textbf{");
            },
            Element::Strikethrough => {
                self.write("\\sout{");
            },
            Element::Link { kind, url } => {
                if kind.is_inline() {
                    self.write("\\href{");
                    self.write(url.as_str());
                    self.write("}{");
                } else {
                    self.note(Diagnostic::NonInlineLink);
                }
            },
            Element::Image { kind, url } => {
                if kind.is_inline() {
                    let mut command: Vec<u8> = Vec::new();
                    let resolved = self.images < paths.len() && paths[self.images].is_some();
                    if !resolved {
                        put(&mut command, "%");
                    }
                    put(&mut command, "\\includegraphics[width=\\textwidth]{");
                    if self.images < paths.len() {
                        match &paths[self.images] {
                            Some(file) => put(&mut command, file.as_str()),
                            None => put(&mut command, url.as_str()),
                        }
                    } else {
                        put(&mut command, url.as_str());
                    }
                    put(&mut command, "}");
                    proof {
                        let name = match old(self)@.next_path(paths@) {
                            Some(file) => text_bytes(file),
                            None => text_bytes(*url),
                        };
                        if resolved {
                            assert(command@ =~= image_command(name));
                        } else {
                            assert(command@ =~= lit("%") + image_command(name));
                        }
                    }
                    self.ask(1);
                    self.write_bytes(command.as_slice());
                    self.ask(1);
                    self.images = self.images + 1;
                    self.awaiting_image_end = true;
                } else {
                    self.note(Diagnostic::NonInlineImage);
                }
            },
        }
    }

    /// Writes what belongs at the end of an element.
    fn end(&mut self, element: &Element) -> (done: Result<(), ConversionError>)
        ensures
            match old(self)@.ended(*element) {
                Ok(progress) => done is Ok && final(self)@ == progress,
                Err(error) => done == Err::<(), ConversionError>(error),
            },
            final(self)@.table == old(self)@.table,
            final(self).nesting <= old(self).nesting,
            final(self).images == old(self).images,
            old(self).sound() ==> final(self).sound(),
    {
        proof {
            reveal(Progress::ended);
        }
        match element {
            Element::Paragraph => {
                self.ask(2);
            },
            Element::Heading(level) => {
                self.write("}");
                if *level <= 3 {
                    self.ask(2);
                } else {
                    self.ask(1);
                }
                self.limit(2);
            },
            Element::BlockQuote => {
                self.line("\\end{quote}");
            },
            Element::CodeBlock => {
                self.write("\\end{verbatim}");
                self.ask(1);
            },
            Element::List(None) => {
                self.higher();
                self.higher();
                self.line("\\end{itemize}");
            },
            Element::List(Some(_)) => {
                self.higher();
                self.higher();
                self.line("\\end{enumerate}");
                if self.nesting > 0 {
                    self.nesting = self.nesting - 1;
                }
            },
            Element::Item => {},
            Element::FootnoteDefinition => {},
            Element::Table => {},
            Element::TableHead => {},
            Element::TableRow => {},
            Element::TableCell => {},
            Element::Emphasis => {
                self.write("}");
            },
            Element::Strong => {
                self.write("}");
            },
            Element::Strikethrough => {
                self.write("}");
            },
            Element::Link { kind, url } => {
                if kind.is_inline() {
                    self.write("}");
                }
            },
            Element::Image { kind, url } => {
                if kind.is_inline() {
                    return Err(ConversionError::UnexpectedImageEnd);
                }
            },
        }
        Ok(())
    }

    /// Notes ambiguous math for a fragment that came back marked so.
    fn note_if_ambiguous(&mut self, restored: &Restored)
        ensures
            final(self)@ == (if restored.ambiguous {
                old(self)@.note(Diagnostic::AmbiguousMath)
            } else {
                old(self)@
            }),
            final(self).nesting == old(self).nesting,
            final(self).images == old(self).images,
            old(self).sound() ==> final(self).sound(),
    {
        if restored.ambiguous {
            self.note(Diagnostic::AmbiguousMath);
        }
    }

    /// Writes a piece of text.
    fn text(&mut self, text: &String, start: usize, end: usize) -> (done: Result<
        (),
        ConversionError,
    >)
        ensures
            match old(self)@.after_text(text_bytes(*text), start as int, end as int) {
                Ok(progress) => done is Ok && final(self)@ == progress,
                Err(error) => done == Err::<(), ConversionError>(error),
            },
            final(self).nesting == old(self).nesting,
            final(self).images == old(self).images,
            old(self).sound() ==> final(self).sound(),
    {
        proof {
            reveal(Progress::after_text);
        }
        match self.replacer.un_replace(text.clone(), start..end) {
            Ok(restored) => {
                self.note_if_ambiguous(&restored);
                proof {
                    if valid_utf8(self.out@.written) {
                        lemma_wrote_keeps_utf8(self.out@, Seq::empty());
                    }
                }
                let inner = self.out.get_mut();
                escape_str(restored.text.as_str(), inner);
                Ok(())
            },
            Err(mismatch) => Err(ConversionError::MarkerMismatch(mismatch)),
        }
    }

    /// Writes a piece of HTML.
    fn html(&mut self, html: &String, start: usize, end: usize) -> (done: Result<
        (),
        ConversionError,
    >)
        ensures
            match old(self)@.after_html(text_bytes(*html), start as int, end as int) {
                Ok(progress) => done is Ok && final(self)@ == progress,
                Err(error) => done == Err::<(), ConversionError>(error),
            },
            final(self).nesting == old(self).nesting,
            final(self).images == old(self).images,
            old(self).sound() ==> final(self).sound(),
    {
        proof {
            reveal(Progress::after_html);
        }
        self.note(Diagnostic::Html);
        match self.replacer.un_replace(html.clone(), start..end) {
            Ok(restored) => {
                self.note_if_ambiguous(&restored);
                proof {
                    if valid_utf8(self.out@.written) {
                        lemma_wrote_keeps_utf8(self.out@, Seq::empty());
                    }
                }
                let ghost before = self.out@.prepared().written;
                let inner = self.out.get_mut();
                put(inner, "\\texttt{");
                escape_str(restored.text.as_str(), inner);
                put(inner, "}");
                assert(inner@ =~= before + (lit("\\texttt{") + escaped(text_bytes(restored.text))
                    + lit("}")));
                Ok(())
            },
            Err(mismatch) => Err(ConversionError::MarkerMismatch(mismatch)),
        }
    }

    /// Writes an inline code span, which may be disguised math.
    fn code(&mut self, text: &String, start: usize, end: usize) -> (done: Result<
        (),
        ConversionError,
    >)
        ensures
            match old(self)@.after_code(text_bytes(*text), start as int, end as int) {
                Ok(progress) => done is Ok && final(self)@ == progress,
                Err(error) => done == Err::<(), ConversionError>(error),
            },
            final(self).nesting == old(self).nesting,
            final(self).images == old(self).images,
            old(self).sound() ==> final(self).sound(),
    {
        proof {
            reveal(Progress::after_code);
        }
        let ghost table = self.replacer@;
        proof {
            use_type_invariant(&self.replacer);
            lemma_seek(table, table.cursor, start as int);
            lemma_cursor_moves_forward(table, start as int, Seq::empty(), 0, 0);
        }
        let first = self.replacer.check_if_replacement_point(start);
        let ghost sought = self.replacer@;
        let mut math = false;
        if first && end > 2 {
            proof {
                lemma_seek(sought, sought.cursor, end - 2);
                lemma_cursor_moves_forward(sought, end - 2, Seq::empty(), 0, 0);
            }
            math = self.replacer.check_if_replacement_point(end - 2);
        }
        if math {
            proof {
                assert(sought.offsets[sought.cursor as int] == start);
                assert(self.replacer@.offsets[self.replacer@.cursor as int] == end - 2);
                if sought.cursor < self.replacer@.cursor {
                    assert(sought.offsets[sought.cursor as int]
                        < sought.offsets[self.replacer@.cursor as int]);
                }
                assert(start <= end - 2);
            }
            match self.replacer.un_replace(text.clone(), (start + 2)..(end - 2)) {
                Ok(restored) => {
                    self.note_if_ambiguous(&restored);
                    self.write("$");
                    self.write(restored.text.as_str());
                    self.write("$");
                    Ok(())
                },
                Err(mismatch) => Err(ConversionError::MarkerMismatch(mismatch)),
            }
        } else {
            proof {
                if valid_utf8(self.out@.written) {
                    lemma_wrote_keeps_utf8(self.out@, Seq::empty());
                }
            }
            let ghost before = self.out@.prepared().written;
            let inner = self.out.get_mut();
            put(inner, "\\texttt{");
            escape_str(text.as_str(), inner);
            put(inner, "}");
            assert(inner@ =~= before + (lit("\\texttt{") + escaped(text_bytes(*text)) + lit("}")));
            Ok(())
        }
    }

    /// Writes what belongs to one event.
    fn token(&mut self, token: &Spanned, paths: &Vec<Option<String>>) -> (done: Result<
        (),
        ConversionError,
    >)
        requires
            old(self).nesting < usize::MAX,
            old(self).images < usize::MAX,
        ensures
            match old(self)@.after(*token, paths@) {
                Ok(progress) => done is Ok && final(self)@ == progress,
                Err(error) => done == Err::<(), ConversionError>(error),
            },
            final(self).nesting <= old(self).nesting + 1,
            final(self).images <= old(self).images + 1,
            old(self).sound() ==> final(self).sound(),
    {
        if self.awaiting_image_end {
            match &token.event {
                Token::End(Element::Image { kind: LinkKind::Inline, url }) => {
                    self.awaiting_image_end = false;
                    Ok(())
                },
                _ => Err(ConversionError::UnclosedImage),
            }
        } else {
            match &token.event {
                Token::Start(element) => {
                    self.start(element, paths);
                    Ok(())
                },
                Token::End(element) => self.end(element),
                Token::Text(text) => self.text(text, token.start, token.end),
                Token::Code(text) => self.code(text, token.start, token.end),
                Token::Html(html) => self.html(html, token.start, token.end),
                Token::FootnoteReference => {
                    self.note(Diagnostic::FootnoteReference);
                    Ok(())
                },
                Token::SoftBreak => {
                    self.write(" \\\\");
                    self.ask(1);
                    Ok(())
                },
                Token::HardBreak => {
                    self.write(" \\\\");
                    self.ask(1);
                    Ok(())
                },
                Token::Rule => {
                    self.write("\\par\\noindent\\hrulefill\\par");
                    Ok(())
                },
                Token::TaskListMarker(checked) => {
                    if *checked {
                        self.write("[\\checkedbox] ");
                    } else {
                        self.write("[\\uncheckedbox] ");
                    }
                    self.limit(0);
                    Ok(())
                },
            }
        }
    }

    /// Whether the conversion can take another event: its counts of open
    /// lists and of images can still grow.
    pub closed spec fn has_room(&self) -> bool {
        self.nesting < usize::MAX && self.images < usize::MAX
    }

    /// Begins the conversion of a document: writes the preamble after what
    /// `writer` holds. `replacer` is the replacer of the text that the
    /// events will be read from.
    pub fn begin(replacer: Replacer, writer: Vec<u8>) -> (renderer: Self)
        ensures
            renderer@ == Progress::opening(writer@, replacer@),
            renderer.has_room(),
            valid_utf8(writer@) ==> valid_utf8(renderer@.layout.written),
    {
        let mut buffer = writer;
        put(&mut buffer, PREAMBLE);
        let mut out = WhitespaceFormatter::new(buffer);
        out.limit_newlines(2);
        out.add_newlines(2);
        Renderer {
            out,
            replacer,
            nesting: 0,
            images: 0,
            awaiting_image_end: false,
            notes: Vec::new(),
        }
    }

    /// Tells whether the conversion can take another event.
    pub fn can_take_more(&self) -> (room: bool)
        ensures
            room == self.has_room(),
    {
        self.nesting < usize::MAX && self.images < usize::MAX
    }

    /// Tells for which image `token` asks a path, if for any: gives the
    /// source of the image. The path is the entry of `paths` that
    /// [`Renderer::feed`] reads when it is called with `token` next.
    pub fn image_wanted(&self, token: &Spanned) -> (source: Option<String>)
        ensures
            source == self@.image_wanted(*token),
    {
        match &token.event {
            Token::Start(Element::Image { kind: LinkKind::Inline, url }) => {
                if self.awaiting_image_end {
                    None
                } else {
                    Some(url.clone())
                }
            },
            _ => None,
        }
    }

    /// Shows the output as far as it is written. Newlines and indentation
    /// that are due are not written yet.
    pub fn output(&self) -> (written: &Vec<u8>)
        ensures
            written@ == self@.layout.written,
    {
        self.out.get_ref()
    }

    /// Shows what was found wanting so far, in the order in which it was
    /// met.
    pub fn notes(&self) -> (notes: &Vec<Diagnostic>)
        ensures
            notes@ == self@.notes,
    {
        &self.notes
    }

    /// Takes the next event and writes what belongs to it. An inline image
    /// is included from the file that `paths` names for it: the entry at
    /// the number of inline images that were met before.
    ///
    /// The conversion must have room for the event, which
    /// [`Renderer::can_take_more`] tells: it has none only after as many
    /// events as a `usize` can count.
    pub fn feed(&mut self, token: &Spanned, paths: &Vec<Option<String>>) -> (done: Result<
        (),
        ConversionError,
    >)
        requires
            old(self).has_room(),
        ensures
            match old(self)@.after(*token, paths@) {
                Ok(progress) => done is Ok && final(self)@ == progress,
                Err(error) => done == Err::<(), ConversionError>(error),
            },
            valid_utf8(old(self)@.layout.written) ==> valid_utf8(final(self)@.layout.written),
    {
        self.token(token, paths)
    }

    /// Takes the events of `tokens` one by one, up to the first that fails.
    fn feed_all(&mut self, tokens: &Vec<Spanned>, paths: &Vec<Option<String>>) -> (done: Result<
        (),
        ConversionError,
    >)
        requires
            old(self).nesting == 0,
            old(self).images == 0,
        ensures
            match old(self)@.after_all(tokens@, paths@) {
                Ok(progress) => done is Ok && final(self)@ == progress,
                Err(error) => done == Err::<(), ConversionError>(error),
            },
            old(self).sound() ==> final(self).sound(),
    {
        let ghost beginning = self@;
        let mut i: usize = 0;
        while i < tokens.len()
            invariant
                i <= tokens.len(),
                beginning == old(self)@,
                beginning.after_all(tokens@.take(i as int), paths@) == Ok::<
                    Progress,
                    ConversionError,
                >(self@),
                old(self).sound() ==> self.sound(),
                self.nesting <= i,
                self.images <= i,
            decreases tokens.len() - i,
        {
            proof {
                assert(tokens@.take(i + 1).drop_last() =~= tokens@.take(i as int));
            }
            match self.token(&tokens[i], paths) {
                Ok(()) => {},
                Err(error) => {
                    proof {
                        lemma_failure_is_final(beginning, tokens@, paths@, i + 1);
                    }
                    return Err(error);
                },
            }
            i += 1;
        }
        assert(tokens@.take(i as int) =~= tokens@);
        Ok(())
    }

    /// Ends the conversion: writes the end of the document and hands out
    /// the document with what was found wanting. Fails if the last event
    /// was the beginning of an inline image.
    pub fn finish(self) -> (result: Result<Rendered, ConversionError>)
        ensures
            match self@.finished() {
                Ok((body, notes)) => result is Ok && result->Ok_0.latex@ == closed(body)
                    && result->Ok_0.notes@ == notes,
                Err(error) => result is Err && result->Err_0 == error,
            },
            valid_utf8(self@.layout.written) && result is Ok ==> valid_utf8(result->Ok_0.latex@),
    {
        if self.awaiting_image_end {
            return Err(ConversionError::UnclosedImage);
        }
        let mut body = self.out;
        body.limit_newlines(3);
        body.add_newlines(3);
        proof {
            encode_utf8_valid_utf8(POSTAMBLE@);
            if valid_utf8(body@.written) {
                lemma_wrote_keeps_utf8(body@, lit(POSTAMBLE));
                lemma_wrote_keeps_utf8(body@.wrote(lit(POSTAMBLE)), Seq::empty());
            }
        }
        body.write_all(POSTAMBLE.as_bytes());
        Ok(Rendered { latex: body.into_inner(), notes: self.notes })
    }
}

/// A finished conversion.
pub struct Rendered {
    /// The LaTeX document, after what the writer held before.
    pub latex: Vec<u8>,
    /// What was found wanting on the way, in the order in which it was met.
    pub notes: Vec<Diagnostic>,
}

/// The document that the events of a preprocessed text amount to, and what
/// was found wanting: the preamble, then what each event writes, in order,
/// then the end of the document. The `k`-th inline image is included from
/// the file `paths[k]`; where that is `None` or missing, the image is
/// commented out. Fails with the error of the first event that fails.
pub open spec fn rendered(
    tokens: Seq<Spanned>,
    table: Table,
    writer: Seq<u8>,
    paths: Seq<Option<String>>,
) -> Result<(Seq<u8>, Seq<Diagnostic>), ConversionError> {
    match rendered_events(tokens, table, Progress::opening(writer, table).layout, paths) {
        Ok((body, notes)) => Ok((closed(body), notes)),
        Err(error) => Err(error),
    }
}

/// The sources of the inline images among the events, in order.
pub open spec fn inline_images(tokens: Seq<Spanned>) -> Seq<String>
    decreases tokens.len(),
{
    if tokens.len() == 0 {
        Seq::empty()
    } else {
        match tokens.last().event {
            Token::Start(Element::Image { kind: LinkKind::Inline, url }) => inline_images(
                tokens.drop_last(),
            ).push(url),
            _ => inline_images(tokens.drop_last()),
        }
    }
}

/// The first `n + 1` of some events are the first `n` and the one after.
pub proof fn lemma_take_step<A>(items: Seq<A>, n: int)
    requires
        0 <= n < items.len(),
    ensures
        items.take(n + 1).drop_last() == items.take(n),
        items.take(n + 1).last() == items[n],
{
    assert(items.take(n + 1).drop_last() =~= items.take(n));
}

/// Once an event has failed, the events after it change nothing.
pub proof fn lemma_failure_is_final(
    progress: Progress,
    tokens: Seq<Spanned>,
    paths: Seq<Option<String>>,
    n: int,
)
    requires
        0 <= n <= tokens.len(),
        progress.after_all(tokens.take(n), paths) is Err,
    ensures
        progress.after_all(tokens, paths) == progress.after_all(tokens.take(n), paths),
    decreases tokens.len() - n,
{
    if n == tokens.len() {
        assert(tokens.take(n) =~= tokens);
    } else {
        assert(tokens.take(n + 1).drop_last() =~= tokens.take(n));
        lemma_failure_is_final(progress, tokens, paths, n + 1);
    }
}

/// A piece of text that comes back from the parser as it stands in the
/// preprocessed text, as it does where a `$$` has no partner, is written as
/// the escaped form of what it was before the delimiters were disguised:
/// each of them stands in the output as two escaped dollar signs, no
/// backtick stands for one, and nothing is noted. This holds of every text
/// and every piece of it that cuts no delimiter in two, if the cursor of the
/// table has not gone beyond the piece.
pub proof fn lemma_unpaired_delimiters_come_back(
    progress: Progress,
    bytes: Seq<u8>,
    start: int,
    end: int,
)
    requires
        bytes.len() <= usize::MAX,
        0 <= start <= end <= bytes.len(),
        progress.table.offsets == recorded(bytes),
        progress.table.cursor < recorded(bytes).len(),
        forall|k: int| 0 <= k < progress.table.cursor ==> recorded(bytes)[k] < start,
        !holds(recorded(bytes), start - 1),
        !holds(recorded(bytes), end - 1),
    ensures
        progress.after_text(disguised(bytes).subrange(start, end), start, end) is Ok,
        progress.after_text(disguised(bytes).subrange(start, end), start, end)->Ok_0.layout
            == progress.layout.wrote(escaped(bytes.subrange(start, end))),
        progress.after_text(disguised(bytes).subrange(start, end), start, end)->Ok_0.notes
            == progress.notes,
{
    reveal(Progress::after_text);
    lemma_round_trip_of_a_piece(bytes, progress.table.cursor, start, end);
    lemma_recorded_wf(bytes);
    assert(progress.table == Table { offsets: recorded(bytes), cursor: progress.table.cursor });
}

/// A piece of text whose length the parser has changed is written escaped
/// as it came, the table stays as it is, and ambiguous math is noted.
pub proof fn lemma_changed_text_is_noted(progress: Progress, text: Seq<u8>, start: int, end: int)
    requires
        !Table::correlates(text.len() as int, start, end),
    ensures
        progress.after_text(text, start, end) == Ok::<Progress, ConversionError>(
            progress.note(Diagnostic::AmbiguousMath).wrote(escaped(text)),
        ),
{
    reveal(Progress::after_text);
}

/// Lists the sources of the inline images among the events, in order: these
/// are the images for which [`render`] takes a path.
pub fn image_urls(tokens: &Vec<Spanned>) -> (urls: Vec<String>)
    ensures
        urls@ == inline_images(tokens@),
{
    let mut urls: Vec<String> = Vec::new();
    let mut i: usize = 0;
    while i < tokens.len()
        invariant
            i <= tokens.len(),
            urls@ == inline_images(tokens@.take(i as int)),
        decreases tokens.len() - i,
    {
        proof {
            assert(tokens@.take(i + 1).drop_last() =~= tokens@.take(i as int));
        }
        match &tokens[i].event {
            Token::Start(Element::Image { kind: LinkKind::Inline, url }) => {
                urls.push(url.clone());
            },
            _ => {},
        }
        i += 1;
    }
    assert(tokens@.take(i as int) =~= tokens@);
    urls
}

/// Writes the LaTeX for the events of a preprocessed text to an output that
/// is under way: no preamble before it and no end of the document after it.
/// Hands back the output together with what was found wanting.
///
/// `replacer` and `paths` are as for [`render`], and so are the errors.
pub fn render_events(
    tokens: &Vec<Spanned>,
    replacer: Replacer,
    out: WhitespaceFormatter,
    paths: &Vec<Option<String>>,
) -> (result: Result<(WhitespaceFormatter, Vec<Diagnostic>), ConversionError>)
    ensures
        match rendered_events(tokens@, replacer@, out@, paths@) {
            Ok((layout, notes)) => result is Ok && result->Ok_0.0@ == layout && result->Ok_0.1@
                == notes,
            Err(error) => result is Err && result->Err_0 == error,
        },
        valid_utf8(out@.written) && result is Ok ==> valid_utf8(result->Ok_0.0@.written),
{
    let mut renderer = Renderer {
        out,
        replacer,
        nesting: 0,
        images: 0,
        awaiting_image_end: false,
        notes: Vec::new(),
    };
    match renderer.feed_all(tokens, paths) {
        Ok(()) => {},
        Err(error) => {
            return Err(error);
        },
    }
    if renderer.awaiting_image_end {
        return Err(ConversionError::UnclosedImage);
    }
    Ok((renderer.out, renderer.notes))
}

/// Writes the LaTeX document for the events of a preprocessed text after
/// what `writer` holds.
///
/// `replacer` is the replacer of the text that the events were read from.
/// `paths` names the files of the inline images, in the order of
/// [`image_urls`]: an image with a path is included from it, an image
/// without one is written as a comment that names its source, so that the
/// document can be typeset and the image is not forgotten.
///
/// Fails if an inline image is not closed by the event after its beginning,
/// if an inline image ends that has not just begun, or if `replacer` points
/// into a piece of text at something else than a disguised delimiter.
pub fn render(
    tokens: &Vec<Spanned>,
    replacer: Replacer,
    writer: Vec<u8>,
    paths: &Vec<Option<String>>,
) -> (result: Result<Rendered, ConversionError>)
    ensures
        match rendered(tokens@, replacer@, writer@, paths@) {
            Ok((latex, notes)) => result is Ok && result->Ok_0.latex@ == latex
                && result->Ok_0.notes@ == notes,
            Err(error) => result is Err && result->Err_0 == error,
        },
        valid_utf8(writer@) && result is Ok ==> valid_utf8(result->Ok_0.latex@),
{
    let mut renderer = Renderer::begin(replacer, writer);
    match renderer.feed_all(tokens, paths) {
        Ok(()) => renderer.finish(),
        Err(error) => Err(error),
    }
}

} // verus!
