//! Writing with newlines that are written at once.
//!
//! The functions here keep count of the newlines that the output ends with,
//! so that a line break or a blank line is not written twice. They are the
//! plain alternative to the [`WhitespaceFormatter`](crate::format::WhitespaceFormatter),
//! which holds newlines back instead: nothing is indented and nothing is
//! fused beyond a blank line.

use vstd::prelude::*;
use vstd::string::StringSliceAdditionalSpecFns;
use vstd::utf8::*;

use crate::encoding::lemma_ascii_is_utf8;
use crate::event::{Element, LinkKind, Spanned, Token};
use crate::format::{repeated, NEWLINE};
use crate::latex_escape::lit;
use crate::render::{heading_command, lemma_take_step, text_bytes};

verus! {

/// The newlines that are missing for the output to end with `wanted` of
/// them, given that it ends with `existing`.
pub open spec fn missing_newlines(existing: nat, wanted: nat) -> Seq<u8> {
    if existing < wanted {
        repeated(NEWLINE, (wanted - existing) as nat)
    } else {
        Seq::empty()
    }
}

/// Newlines after valid UTF-8 leave it valid.
proof fn lemma_newlines_keep_utf8(output: Seq<u8>, num: nat)
    ensures
        valid_utf8(output) ==> valid_utf8(output + repeated(NEWLINE, num)),
{
    if valid_utf8(output) {
        lemma_ascii_is_utf8(repeated(NEWLINE, num));
        valid_utf8_concat(output, repeated(NEWLINE, num));
    }
}

/// Writes text in the middle of a line, as it stands.
pub fn write_escaped_inline(output: &mut Vec<u8>, text: &str, existing_newlines: &mut u32)
    ensures
        final(output)@ == old(output)@ + lit(text),
        *final(existing_newlines) == 0,
        valid_utf8(old(output)@) ==> valid_utf8(final(output)@),
{
    proof {
        encode_utf8_valid_utf8(text@);
    }
    write_inline(output, text.as_bytes(), existing_newlines);
}

/// Ends the line, unless the output ends with a newline already.
pub fn write_soft_line_break(output: &mut Vec<u8>, existing_newlines: &mut u32)
    ensures
        final(output)@ == old(output)@ + missing_newlines(*old(existing_newlines) as nat, 1),
        *final(existing_newlines) == if *old(existing_newlines) == 0 {
            1
        } else {
            *old(existing_newlines)
        },
        valid_utf8(old(output)@) ==> valid_utf8(final(output)@),
{
    proof {
        lemma_newlines_keep_utf8(old(output)@, 1);
    }
    if *existing_newlines == 0 {
        output.push(NEWLINE);
        *existing_newlines = 1;
        assert(output@ =~= old(output)@ + repeated(NEWLINE, 1));
    } else {
        assert(output@ =~= old(output)@ + Seq::<u8>::empty());
    }
}

/// Makes the output end with a blank line: writes the newlines that are
/// missing for two.
pub fn write_paragraph_break(output: &mut Vec<u8>, existing_newlines: &mut u32)
    ensures
        final(output)@ == old(output)@ + missing_newlines(*old(existing_newlines) as nat, 2),
        *final(existing_newlines) == if *old(existing_newlines) < 2 {
            2
        } else {
            *old(existing_newlines)
        },
        valid_utf8(old(output)@) ==> valid_utf8(final(output)@),
{
    proof {
        lemma_newlines_keep_utf8(old(output)@, 1);
        lemma_newlines_keep_utf8(old(output)@, 2);
    }
    if *existing_newlines == 0 {
        output.push(NEWLINE);
        output.push(NEWLINE);
        *existing_newlines = 2;
        assert(output@ =~= old(output)@ + repeated(NEWLINE, 2));
    } else if *existing_newlines == 1 {
        output.push(NEWLINE);
        *existing_newlines = 2;
        assert(output@ =~= old(output)@ + repeated(NEWLINE, 1));
    } else {
        assert(output@ =~= old(output)@ + Seq::<u8>::empty());
    }
}

/// Writes bytes in the middle of a line.
pub fn write_inline(output: &mut Vec<u8>, buf: &[u8], existing_newlines: &mut u32)
    ensures
        final(output)@ == old(output)@ + buf@,
        *final(existing_newlines) == 0,
        valid_utf8(old(output)@) && valid_utf8(buf@) ==> valid_utf8(final(output)@),
{
    output.extend_from_slice(buf);
    *existing_newlines = 0;
    assert(output@ =~= old(output)@ + buf@);
    proof {
        if valid_utf8(old(output)@) && valid_utf8(buf@) {
            valid_utf8_concat(old(output)@, buf@);
        }
    }
}

/// Writes bytes on a line of their own: after a newline, unless the output
/// ends with one already, and with a newline after them.
pub fn write_on_single_line(output: &mut Vec<u8>, buf: &[u8], existing_newlines: &mut u32)
    ensures
        final(output)@ == old(output)@ + missing_newlines(*old(existing_newlines) as nat, 1) + buf@
            + repeated(NEWLINE, 1),
        *final(existing_newlines) == 1,
        valid_utf8(old(output)@) && valid_utf8(buf@) ==> valid_utf8(final(output)@),
{
    if *existing_newlines == 0 {
        output.push(NEWLINE);
    }
    let ghost begun = output@;
    output.extend_from_slice(buf);
    let ghost written = output@;
    output.push(NEWLINE);
    *existing_newlines = 1;
    assert(begun =~= old(output)@ + missing_newlines(*old(existing_newlines) as nat, 1));
    assert(output@ =~= old(output)@ + missing_newlines(*old(existing_newlines) as nat, 1) + buf@
        + repeated(NEWLINE, 1));
    proof {
        if valid_utf8(old(output)@) && valid_utf8(buf@) {
            lemma_newlines_keep_utf8(old(output)@, 1);
            assert(old(output)@ + Seq::<u8>::empty() =~= old(output)@);
            valid_utf8_concat(begun, buf@);
            assert(written =~= begun + buf@);
            lemma_newlines_keep_utf8(written, 1);
            assert(output@ =~= written + repeated(NEWLINE, 1));
        }
    }
}

/// Why a plain rendering was given up.
#[derive(Debug, Clone, Copy, PartialEq, Eq)]
pub enum PlainError {
    /// An event was met that the plain rendering has nothing for: a
    /// footnote, a table, a task list marker, a piece of HTML, a link or
    /// image that is not inline, or the end of an image that had not just
    /// begun.
    Unsupported,
    /// An inline image began and the next event was not its end.
    UnclosedImage,
}

/// How far a plain rendering has come.
pub struct Plain {
    /// The output so far.
    pub out: Seq<u8>,
    /// The number of newlines that the output ends with, as far as the
    /// rendering has kept count.
    pub newlines: nat,
    /// The source of the inline image that has just begun, if one has.
    pub awaiting: Option<String>,
}

impl Plain {
    /// After bytes were written in the middle of a line.
    pub open spec fn inline(self, bytes: Seq<u8>) -> Plain {
        Plain { out: self.out + bytes, newlines: 0, ..self }
    }

    /// After the line was ended.
    pub open spec fn soft_break(self) -> Plain {
        Plain {
            out: self.out + missing_newlines(self.newlines, 1),
            newlines: if self.newlines == 0 {
                1
            } else {
                self.newlines
            },
            ..self
        }
    }

    /// After a blank line was made sure of.
    pub open spec fn paragraph_break(self) -> Plain {
        Plain {
            out: self.out + missing_newlines(self.newlines, 2),
            newlines: if self.newlines < 2 {
                2
            } else {
                self.newlines
            },
            ..self
        }
    }

    /// After bytes were written on a line of their own.
    pub open spec fn single_line(self, bytes: Seq<u8>) -> Plain {
        Plain {
            out: self.out + missing_newlines(self.newlines, 1) + bytes + repeated(NEWLINE, 1),
            newlines: 1,
            ..self
        }
    }

    /// After an element began.
    pub open spec fn started(self, element: Element) -> Result<Plain, PlainError> {
        match element {
            Element::Paragraph => Ok(self),
            Element::Heading(level) => Ok(self.paragraph_break().inline(heading_command(level))),
            Element::BlockQuote => Ok(self.single_line(lit("\\begin{quote}"))),
            Element::CodeBlock => Ok(self.single_line(lit("\\begin{verbatim}"))),
            Element::List(None) => Ok(self.single_line(lit("\\begin{itemize}"))),
            Element::List(Some(_)) => Ok(self.single_line(lit("\\begin{enumerate}"))),
            Element::Item => Ok(self.single_line(lit("\\item"))),
            Element::Emphasis => Ok(self.inline(lit("\\emph{"))),
            Element::Strong => Ok(self.inline(lit("\\textbf{"))),
            Element::Strikethrough => Ok(self.inline(lit("\\sout{"))),
            Element::Link { kind: LinkKind::Inline, url } => Ok(
                self.inline(lit("\\href{")).inline(text_bytes(url)),
            ),
            Element::Image { kind: LinkKind::Inline, url } => Ok(
                Plain {
                    awaiting: Some(url),
                    ..self.soft_break().inline(lit("\\includegraphics[\\textwidth]{")).inline(
                        text_bytes(url),
                    ).inline(lit("}")).soft_break()
                },
            ),
            _ => Err(PlainError::Unsupported),
        }
    }

    /// After an element ended.
    pub open spec fn ended(self, element: Element) -> Result<Plain, PlainError> {
        match element {
            Element::Paragraph => Ok(self),
            Element::Heading(level) => Ok(
                if level <= 3 {
                    self.inline(lit("}")).paragraph_break()
                } else {
                    self.inline(lit("}")).soft_break()
                },
            ),
            Element::BlockQuote => Ok(self.single_line(lit("\\end{quote}"))),
            Element::CodeBlock => Ok(self.single_line(lit("\\end{verbatim}"))),
            Element::List(None) => Ok(self.single_line(lit("\\end{itemize}"))),
            Element::List(Some(_)) => Ok(self.single_line(lit("\\end{enumerate}"))),
            Element::Item => Ok(self),
            Element::Emphasis => Ok(self.inline(lit("}"))),
            Element::Strong => Ok(self.inline(lit("}"))),
            Element::Strikethrough => Ok(self.inline(lit("}"))),
            Element::Link { kind: LinkKind::Inline, url } => Ok(self.inline(lit("}"))),
            _ => Err(PlainError::Unsupported),
        }
    }

    /// After one event. Directly after the beginning of an inline image
    /// only the end of an inline image with the same source is in order,
    /// which writes nothing.
    pub open spec fn after(self, token: Token) -> Result<Plain, PlainError> {
        match self.awaiting {
            Some(source) => match token {
                Token::End(Element::Image { kind: LinkKind::Inline, url }) => if url@ == source@ {
                    Ok(Plain { awaiting: None, ..self })
                } else {
                    Err(PlainError::UnclosedImage)
                },
                _ => Err(PlainError::UnclosedImage),
            },
            None => match token {
                Token::Start(element) => self.started(element),
                Token::End(element) => self.ended(element),
                Token::Text(text) => Ok(self.inline(text_bytes(text))),
                Token::Code(text) => Ok(
                    self.inline(lit("\\texttt{")).inline(text_bytes(text)).inline(lit("}")),
                ),
                Token::SoftBreak => Ok(self.soft_break()),
                Token::HardBreak => Ok(self.inline(lit(" \\")).soft_break()),
                Token::Rule => Ok(self.single_line(lit("\\par\\noindent\\hrulefill\\par"))),
                _ => Err(PlainError::Unsupported),
            },
        }
    }

    /// After a sequence of events, or the error of the first that fails.
    pub open spec fn after_all(self, tokens: Seq<Spanned>) -> Result<Plain, PlainError>
        decreases tokens.len(),
    {
        if tokens.len() == 0 {
            Ok(self)
        } else {
            match self.after_all(tokens.drop_last()) {
                Ok(earlier) => earlier.after(tokens.last().event),
                Err(error) => Err(error),
            }
        }
    }
}

/// The plain rendering of a sequence of events: the structure of the
/// document in LaTeX commands, with text as it stands and nothing indented.
pub open spec fn plain_rendered(tokens: Seq<Spanned>) -> Result<Seq<u8>, PlainError> {
    match (Plain { out: Seq::empty(), newlines: 0, awaiting: None }).after_all(tokens) {
        Ok(plain) => if plain.awaiting is Some {
            Err(PlainError::UnclosedImage)
        } else {
            Ok(plain.out)
        },
        Err(error) => Err(error),
    }
}

/// Once an event has failed, the events after it change nothing.
proof fn lemma_plain_failure_is_final(start: Plain, tokens: Seq<Spanned>, n: int)
    requires
        0 <= n <= tokens.len(),
        start.after_all(tokens.take(n)) is Err,
    ensures
        start.after_all(tokens) == start.after_all(tokens.take(n)),
    decreases tokens.len() - n,
{
    if n == tokens.len() {
        assert(tokens.take(n) =~= tokens);
    } else {
        lemma_take_step(tokens, n);
        lemma_plain_failure_is_final(start, tokens, n + 1);
    }
}

/// Writes what belongs to one event.
fn write_token(
    output: &mut Vec<u8>,
    existing_newlines: &mut u32,
    awaiting: &mut Option<String>,
    token: &Token,
) -> (done: Result<(), PlainError>)
    ensures
        match (Plain {
            out: old(output)@,
            newlines: *old(existing_newlines) as nat,
            awaiting: *old(awaiting),
        }).after(*token) {
            Ok(plain) => done is Ok && final(output)@ == plain.out && *final(existing_newlines)
                == plain.newlines && *final(awaiting) == plain.awaiting,
            Err(error) => done == Err::<(), PlainError>(error),
        },
        valid_utf8(old(output)@) ==> valid_utf8(final(output)@),
{
    broadcast use encode_utf8_valid_utf8;

    match awaiting {
        Some(source) => {
            match token {
                Token::End(Element::Image { kind: LinkKind::Inline, url }) => {
                    if *url == *source {
                        *awaiting = None;
                        Ok(())
                    } else {
                        Err(PlainError::UnclosedImage)
                    }
                },
                _ => Err(PlainError::UnclosedImage),
            }
        },
        None => {
            match token {
                Token::Start(element) => match element {
                    Element::Paragraph => Ok(()),
                    Element::Heading(level) => {
                        write_paragraph_break(output, existing_newlines);
                        let command = if *level <= 1 {
                            "\\section{"
                        } else if *level == 2 {
                            "\\subsection{"
                        } else if *level == 3 {
                            "\\subsubsection{"
                        } else {
                            "\\paragraph{"
                        };
                        write_inline(output, command.as_bytes(), existing_newlines);
                        Ok(())
                    },
                    Element::BlockQuote => {
                        write_on_single_line(
                            output,
                            "\\begin{quote}".as_bytes(),
                            existing_newlines,
                        );
                        Ok(())
                    },
                    Element::CodeBlock => {
                        write_on_single_line(
                            output,
                            "\\begin{verbatim}".as_bytes(),
                            existing_newlines,
                        );
                        Ok(())
                    },
                    Element::List(None) => {
                        write_on_single_line(
                            output,
                            "\\begin{itemize}".as_bytes(),
                            existing_newlines,
                        );
                        Ok(())
                    },
                    Element::List(Some(_)) => {
                        write_on_single_line(
                            output,
                            "\\begin{enumerate}".as_bytes(),
                            existing_newlines,
                        );
                        Ok(())
                    },
                    Element::Item => {
                        write_on_single_line(output, "\\item".as_bytes(), existing_newlines);
                        Ok(())
                    },
                    Element::Emphasis => {
                        write_inline(output, "\\emph{".as_bytes(), existing_newlines);
                        Ok(())
                    },
                    Element::Strong => {
                        write_inline(output, "\\textbf{".as_bytes(), existing_newlines);
                        Ok(())
                    },
                    Element::Strikethrough => {
                        write_inline(output, "\\sout{".as_bytes(), existing_newlines);
                        Ok(())
                    },
                    Element::Link { kind: LinkKind::Inline, url } => {
                        write_inline(output, "\\href{".as_bytes(), existing_newlines);
                        write_inline(output, url.as_str().as_bytes(), existing_newlines);
                        Ok(())
                    },
                    Element::Image { kind: LinkKind::Inline, url } => {
                        write_soft_line_break(output, existing_newlines);
                        write_inline(
                            output,
                            "\\includegraphics[\\textwidth]{".as_bytes(),
                            existing_newlines,
                        );
                        write_inline(output, url.as_str().as_bytes(), existing_newlines);
                        write_inline(output, "}".as_bytes(), existing_newlines);
                        write_soft_line_break(output, existing_newlines);
                        *awaiting = Some(url.clone());
                        Ok(())
                    },
                    _ => Err(PlainError::Unsupported),
                },
                Token::End(element) => match element {
                    Element::Paragraph => Ok(()),
                    Element::Heading(level) => {
                        write_inline(output, "}".as_bytes(), existing_newlines);
                        if *level <= 3 {
                            write_paragraph_break(output, existing_newlines);
                        } else {
                            write_soft_line_break(output, existing_newlines);
                        }
                        Ok(())
                    },
                    Element::BlockQuote => {
                        write_on_single_line(output, "\\end{quote}".as_bytes(), existing_newlines);
                        Ok(())
                    },
                    Element::CodeBlock => {
                        write_on_single_line(
                            output,
                            "\\end{verbatim}".as_bytes(),
                            existing_newlines,
                        );
                        Ok(())
                    },
                    Element::List(None) => {
                        write_on_single_line(
                            output,
                            "\\end{itemize}".as_bytes(),
                            existing_newlines,
                        );
                        Ok(())
                    },
                    Element::List(Some(_)) => {
                        write_on_single_line(
                            output,
                            "\\end{enumerate}".as_bytes(),
                            existing_newlines,
                        );
                        Ok(())
                    },
                    Element::Item => Ok(()),
                    Element::Emphasis => {
                        write_inline(output, "}".as_bytes(), existing_newlines);
                        Ok(())
                    },
                    Element::Strong => {
                        write_inline(output, "}".as_bytes(), existing_newlines);
                        Ok(())
                    },
                    Element::Strikethrough => {
                        write_inline(output, "}".as_bytes(), existing_newlines);
                        Ok(())
                    },
                    Element::Link { kind: LinkKind::Inline, url } => {
                        write_inline(output, "}".as_bytes(), existing_newlines);
                        Ok(())
                    },
                    _ => Err(PlainError::Unsupported),
                },
                Token::Text(text) => {
                    write_escaped_inline(output, text.as_str(), existing_newlines);
                    Ok(())
                },
                Token::Code(text) => {
                    write_inline(output, "\\texttt{".as_bytes(), existing_newlines);
                    write_escaped_inline(output, text.as_str(), existing_newlines);
                    write_inline(output, "}".as_bytes(), existing_newlines);
                    Ok(())
                },
                Token::SoftBreak => {
                    write_soft_line_break(output, existing_newlines);
                    Ok(())
                },
                Token::HardBreak => {
                    write_inline(output, " \\".as_bytes(), existing_newlines);
                    write_soft_line_break(output, existing_newlines);
                    Ok(())
                },
                Token::Rule => {
                    write_on_single_line(
                        output,
                        "\\par\\noindent\\hrulefill\\par".as_bytes(),
                        existing_newlines,
                    );
                    Ok(())
                },
                _ => Err(PlainError::Unsupported),
            }
        },
    }
}

/// Renders events plainly: the structure of the document in LaTeX commands,
/// with text as it stands, nothing indented and no document around it.
///
/// Fails on the first event that the plain rendering has nothing for, and
/// if an inline image is not closed by the event after its beginning.
pub fn render_plain(tokens: &Vec<Spanned>) -> (result: Result<Vec<u8>, PlainError>)
    ensures
        match plain_rendered(tokens@) {
            Ok(out) => result is Ok && result->Ok_0@ == out,
            Err(error) => result is Err && result->Err_0 == error,
        },
        result is Ok ==> valid_utf8(result->Ok_0@),
{
    let ghost start = Plain { out: Seq::empty(), newlines: 0, awaiting: None };
    let mut output: Vec<u8> = Vec::new();
    let mut existing_newlines: u32 = 0;
    let mut awaiting: Option<String> = None;
    let mut i: usize = 0;
    proof {
        lemma_ascii_is_utf8(output@);
    }
    while i < tokens.len()
        invariant
            i <= tokens.len(),
            start == (Plain { out: Seq::empty(), newlines: 0, awaiting: None }),
            start.after_all(tokens@.take(i as int)) == Ok::<Plain, PlainError>(
                Plain { out: output@, newlines: existing_newlines as nat, awaiting },
            ),
            valid_utf8(output@),
        decreases tokens.len() - i,
    {
        proof {
            lemma_take_step(tokens@, i as int);
        }
        match write_token(&mut output, &mut existing_newlines, &mut awaiting, &tokens[i].event) {
            Ok(()) => {},
            Err(error) => {
                proof {
                    lemma_plain_failure_is_final(start, tokens@, i + 1);
                }
                return Err(error);
            },
        }
        i += 1;
    }
    assert(tokens@.take(i as int) =~= tokens@);
    if awaiting.is_some() {
        return Err(PlainError::UnclosedImage);
    }
    Ok(output)
}

} // verus!
