//! Conversion in one call, with every image included from where the
//! document says it is.

use vstd::prelude::*;
use vstd::utf8::*;

pub mod latex_escape;

use crate::conversion::latex_escape::LatexEscaper;
use crate::format::{lemma_wrote_keeps_utf8, Layout, DEFAULT_INDENT_WIDTH};
use crate::latex_escape::lit;
use crate::parser::{parse, parsed};
use crate::preprocess::{disguised_text, Replacer, Table};
use crate::render::{
    image_urls, inline_images, render_events, rendered_events, ConversionError, Diagnostic,
    Rendered, PREAMBLE,
};

verus! {

/// For each source of an image, that source as the file to include.
pub open spec fn included_as_they_are(urls: Seq<String>) -> Seq<Option<String>> {
    urls.map_values(|url: String| Some(url))
}

/// The document that a markdown text amounts to, written after what
/// `output` holds, and what was found wanting. The document is the
/// preamble, two newlines, what the events of the preprocessed text write
/// with each inline image included from its source, and the end of the
/// document on a line of its own.
pub open spec fn converted(input: Seq<char>, output: Seq<u8>) -> Result<
    (Seq<u8>, Seq<Diagnostic>),
    ConversionError,
> {
    let tokens = parsed(disguised_text(input));
    let framed = Layout::fresh(output, DEFAULT_INDENT_WIDTH as nat).wrote(
        lit(PREAMBLE),
    ).limit_newlines(2).add_newlines(2);
    match rendered_events(
        tokens,
        Table::of_text(encode_utf8(input)),
        framed,
        included_as_they_are(inline_images(tokens)),
    ) {
        Ok((body, notes)) => Ok(
            (
                body.limit_newlines(3).add_newlines(3).wrote_on_single_line(
                    lit("\\end{document}"),
                ).prepared().written,
                notes,
            ),
        ),
        Err(error) => Err(error),
    }
}

/// Converts a markdown text to a LaTeX document and writes it after what
/// `output` holds. Each inline image is included from the source that the
/// document names.
pub fn markdown_to_latex(input: String, output: Vec<u8>) -> (result: Result<
    Rendered,
    ConversionError,
>)
    ensures
        match converted(input@, output@) {
            Ok((latex, notes)) => result is Ok && result->Ok_0.latex@ == latex
                && result->Ok_0.notes@ == notes,
            Err(error) => result is Err && result->Err_0 == error,
        },
        valid_utf8(output@) && result is Ok ==> valid_utf8(result->Ok_0.latex@),
{
    let mut text = input;
    let replacer = Replacer::replace(&mut text);
    let tokens = parse(text.as_str());
    let urls = image_urls(&tokens);
    let mut paths: Vec<Option<String>> = Vec::new();
    let mut i: usize = 0;
    while i < urls.len()
        invariant
            i <= urls.len(),
            paths@ == included_as_they_are(urls@.take(i as int)),
        decreases urls.len() - i,
    {
        paths.push(Some(urls[i].clone()));
        assert(paths@ =~= included_as_they_are(urls@.take(i + 1)));
        i += 1;
    }
    assert(urls@.take(i as int) =~= urls@);
    let mut out = LatexEscaper::new(output);
    out.write_str(PREAMBLE);
    out.limit_newlines(2);
    out.add_newlines(2);
    match render_events(&tokens, replacer, out.into_formatter(), &paths) {
        Ok((body, notes)) => {
            let mut out = LatexEscaper::from_formatter(body);
            out.limit_newlines(3);
            out.add_newlines(3);
            out.write_on_single_line("\\end{document}");
            proof {
                if valid_utf8(out@.written) {
                    lemma_wrote_keeps_utf8(out@, Seq::empty());
                }
            }
            Ok(Rendered { latex: out.into_inner(), notes })
        },
        Err(error) => Err(error),
    }
}

} // verus!
