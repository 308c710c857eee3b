//! Conversion of markdown with `$$...$$` inline math into LaTeX source.
//!
//! The conversion has three parts. [`preprocess`] disguises the math
//! delimiters as code span delimiters, so that a markdown parser leaves the
//! math alone, and remembers where it did so. [`format`] and
//! [`latex_escape`] produce cleanly spaced and properly escaped output.
//! [`render`] ties them together: it walks the events that [`parser`] reads
//! from the preprocessed text and writes the corresponding LaTeX.
//!
//! The main type is [`MarkdownToLatex`]. It converts a document in one
//! call, or hands out a [`render::Renderer`] that takes the events one by
//! one, for a caller that wants the output as it grows. [`conversion`]
//! offers the whole conversion in one call, [`eager`] a plain rendering that
//! does without the formatter, and [`math`] an escaping for texts whose math
//! delimiters were not disguised.

use vstd::prelude::*;
use vstd::utf8::*;

pub mod conversion;
pub mod eager;
pub mod encoding;
pub mod event;
pub mod format;
pub mod latex_escape;
pub mod math;
pub mod parser;
pub mod preprocess;
pub mod render;

use crate::encoding::string_from_utf8;
use crate::parser::{parse, parsed};
use crate::preprocess::{disguised_text, Replacer, Table};
use crate::event::Spanned;
use crate::render::{
    image_urls, inline_images, render, rendered, ConversionError, Diagnostic, Progress, Rendered,
    Renderer,
};

verus! {

/// Whether `path` is an answer of `callback` to the source `url`.
pub open spec fn answered<F: Fn(&str) -> Option<String>>(
    callback: F,
    url: String,
    path: Option<String>,
) -> bool {
    exists|asked: &str| asked@ == url@ && #[trigger] callback.ensures((asked,), path)
}

/// Whether `paths` holds an answer of `callback` to each of `urls`, in order.
pub open spec fn all_answered<F: Fn(&str) -> Option<String>>(
    callback: F,
    urls: Seq<String>,
    paths: Seq<Option<String>>,
) -> bool {
    &&& paths.len() == urls.len()
    &&& forall|k: int| 0 <= k < urls.len() ==> answered(callback, urls[k], #[trigger] paths[k])
}

/// Asks `callback` for the file of each image, in order.
fn ask_for_images<F: Fn(&str) -> Option<String>>(urls: &Vec<String>, callback: &F) -> (paths: Vec<
    Option<String>,
>)
    requires
        forall|url: &str| callback.requires((url,)),
    ensures
        all_answered(*callback, urls@, paths@),
{
    let mut paths: Vec<Option<String>> = Vec::new();
    let mut i: usize = 0;
    while i < urls.len()
        invariant
            i <= urls.len(),
            forall|url: &str| callback.requires((url,)),
            all_answered(*callback, urls@.take(i as int), paths@),
        decreases urls.len() - i,
    {
        let path = callback(urls[i].as_str());
        assert(answered(*callback, urls@[i as int], path));
        paths.push(path);
        i += 1;
    }
    assert(urls@.take(i as int) =~= urls@);
    paths
}

/// A converter from markdown with inline math to LaTeX.
///
/// It is made from the markdown text and consumed by the conversion, which
/// writes a whole LaTeX document: preamble, body and end.
pub struct MarkdownToLatex {
    preprocessed: String,
    replacer: Replacer,
}

impl MarkdownToLatex {
    /// The text with its math delimiters disguised, which is what the
    /// parser gets to read.
    pub closed spec fn text(&self) -> Seq<char> {
        self.preprocessed@
    }

    /// The places at which the delimiters were disguised.
    pub closed spec fn table(&self) -> Table {
        self.replacer@
    }

    /// Where the conversion ends: with the document, written after what
    /// `writer` holds, and what was found wanting, or with an error. The
    /// events are those that the parser reads from the preprocessed text.
    pub open spec fn converted(&self, writer: Seq<u8>, paths: Seq<Option<String>>) -> Result<
        (Seq<u8>, Seq<Diagnostic>),
        ConversionError,
    > {
        rendered(parsed(self.text()), self.table(), writer, paths)
    }

    /// Creates a converter from a text of markdown. The math delimiters of
    /// the text are disguised at once.
    pub fn from_string(markdown: String) -> (converter: Self)
        ensures
            converter.text() == disguised_text(markdown@),
            converter.table() == Table::of_text(encode_utf8(markdown@)),
    {
        let mut preprocessed = markdown;
        let replacer = Replacer::replace(&mut preprocessed);
        Self { preprocessed, replacer }
    }

    /// Lists the sources of the inline images of the document, in order.
    /// The conversions that take `paths` take one entry for each of them.
    pub fn image_urls(&self) -> (urls: Vec<String>)
        ensures
            urls@ == inline_images(parsed(self.text())),
    {
        let tokens = parse(self.preprocessed.as_str());
        image_urls(&tokens)
    }

    /// Begins the conversion for a caller that wants the output as it
    /// grows: reads the events of the document, and writes the preamble
    /// after what `writer` holds. It is for the caller to feed the events to
    /// the renderer, one by one, and to finish it.
    pub fn begin(self, writer: Vec<u8>) -> (parts: (Vec<Spanned>, Renderer))
        ensures
            parts.0@ == parsed(self.text()),
            parts.1@ == Progress::opening(writer@, self.table()),
            parts.1.has_room(),
            valid_utf8(writer@) ==> valid_utf8(parts.1@.layout.written),
    {
        let tokens = parse(self.preprocessed.as_str());
        (tokens, Renderer::begin(self.replacer, writer))
    }

    /// Converts the document and writes it after what `writer` holds.
    /// Besides the document, the result holds what was found wanting.
    ///
    /// The `k`-th inline image is included from the file `paths[k]`. Where
    /// that is `None` or missing, the image is written as a comment.
    pub fn convert(self, writer: Vec<u8>, paths: &Vec<Option<String>>) -> (result: Result<
        Rendered,
        ConversionError,
    >)
        ensures
            match self.converted(writer@, paths@) {
                Ok((latex, notes)) => result is Ok && result->Ok_0.latex@ == latex
                    && result->Ok_0.notes@ == notes,
                Err(error) => result is Err && result->Err_0 == error,
            },
            valid_utf8(writer@) && result is Ok ==> valid_utf8(result->Ok_0.latex@),
    {
        let tokens = parse(self.preprocessed.as_str());
        render(&tokens, self.replacer, writer, paths)
    }

    /// Converts the document and writes it after what `writer` holds, with
    /// every image commented out. Hands the writer back.
    pub fn write_to(self, writer: Vec<u8>) -> (result: Result<Vec<u8>, ConversionError>)
        ensures
            match self.converted(writer@, Seq::empty()) {
                Ok((latex, notes)) => result is Ok && result->Ok_0@ == latex,
                Err(error) => result is Err && result->Err_0 == error,
            },
            valid_utf8(writer@) && result is Ok ==> valid_utf8(result->Ok_0@),
    {
        let paths: Vec<Option<String>> = Vec::new();
        self.write_to_with_images(writer, &paths)
    }

    /// Converts the document and writes it after what `writer` holds, with
    /// the inline images included from `paths`. Hands the writer back.
    pub fn write_to_with_images(self, writer: Vec<u8>, paths: &Vec<Option<String>>) -> (result:
        Result<Vec<u8>, ConversionError>)
        ensures
            match self.converted(writer@, paths@) {
                Ok((latex, notes)) => result is Ok && result->Ok_0@ == latex,
                Err(error) => result is Err && result->Err_0 == error,
            },
            valid_utf8(writer@) && result is Ok ==> valid_utf8(result->Ok_0@),
    {
        match self.convert(writer, paths) {
            Ok(done) => Ok(done.latex),
            Err(error) => Err(error),
        }
    }

    /// Converts the document and writes it after what `writer` holds.
    /// `image_callback` is asked once for each inline image, in the order of
    /// the document, for the file to include; an image for which it answers
    /// `None` is commented out. Hands the writer back.
    pub fn write_to_with_image_callback<F: Fn(&str) -> Option<String>>(
        self,
        writer: Vec<u8>,
        image_callback: F,
    ) -> (result: Result<Vec<u8>, ConversionError>)
        requires
            forall|url: &str| image_callback.requires((url,)),
        ensures
            exists|paths: Seq<Option<String>>|
                all_answered(image_callback, inline_images(parsed(self.text())), paths)
                    && match #[trigger] self.converted(writer@, paths) {
                    Ok((latex, notes)) => result is Ok && result->Ok_0@ == latex,
                    Err(error) => result is Err && result->Err_0 == error,
                },
            valid_utf8(writer@) && result is Ok ==> valid_utf8(result->Ok_0@),
    {
        let urls = self.image_urls();
        let paths = ask_for_images(&urls, &image_callback);
        self.write_to_with_images(writer, &paths)
    }

    /// Converts the document to a string. `f` is asked once for each inline
    /// image, in the order of the document, for the file to include; an
    /// image for which it answers `None` is commented out.
    pub fn into_string_with_image_callback<F: Fn(&str) -> Option<String>>(self, f: F) -> (result:
        Result<String, ConversionError>)
        requires
            forall|url: &str| f.requires((url,)),
        ensures
            exists|paths: Seq<Option<String>>|
                all_answered(f, inline_images(parsed(self.text())), paths)
                    && match #[trigger] self.converted(Seq::empty(), paths) {
                    Ok((latex, notes)) => result is Ok && encode_utf8(result->Ok_0@) == latex,
                    Err(error) => result is Err && result->Err_0 == error,
                },
    {
        let urls = self.image_urls();
        let paths = ask_for_images(&urls, &f);
        self.into_string_with_images(&paths)
    }

    /// Converts the document to a string, with every image commented out.
    pub fn into_string(self) -> (result: Result<String, ConversionError>)
        ensures
            match self.converted(Seq::empty(), Seq::empty()) {
                Ok((latex, notes)) => result is Ok && encode_utf8(result->Ok_0@) == latex,
                Err(error) => result is Err && result->Err_0 == error,
            },
    {
        let paths: Vec<Option<String>> = Vec::new();
        self.into_string_with_images(&paths)
    }

    /// Converts the document to a string, with the inline images included
    /// from `paths`.
    pub fn into_string_with_images(self, paths: &Vec<Option<String>>) -> (result: Result<
        String,
        ConversionError,
    >)
        ensures
            match self.converted(Seq::empty(), paths@) {
                Ok((latex, notes)) => result is Ok && encode_utf8(result->Ok_0@) == latex,
                Err(error) => result is Err && result->Err_0 == error,
            },
    {
        match self.convert(Vec::new(), paths) {
            Ok(done) => match string_from_utf8(done.latex) {
                Some(latex) => Ok(latex),
                None => unreached(),
            },
            Err(error) => Err(error),
        }
    }
}

} // verus!
