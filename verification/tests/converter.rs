use bluepaper_core::render::{ConversionError, Diagnostic, PREAMBLE};
use bluepaper_core::MarkdownToLatex;
use std::cell::RefCell;

fn body(markdown: &str) -> String {
    let latex = MarkdownToLatex::from_string(markdown.to_string()).into_string().unwrap();
    assert!(latex.starts_with(PREAMBLE));
    assert!(latex.ends_with("\\end{document}\n"));
    latex[PREAMBLE.len()..latex.len() - "\\end{document}\n".len()].to_string()
}

#[test]
fn heading_emphasis_and_math() {
    let markdown = "# Title\n\nText with *emphasis* and $$m_a^{th}$$.".to_string();
    let latex = MarkdownToLatex::from_string(markdown).into_string().unwrap();

    assert_eq!(&latex[..24], "\\documentclass{article}\n");
    assert!(latex
        .find("\\section{Title}\n\nText with \\emph{emphasis} and $m_a^{th}$.")
        .is_some());
    assert_eq!(&latex[latex.len() - 15..], "\\end{document}\n");
}

#[test]
fn whole_document_for_heading_and_math() {
    let markdown = "# Title\n\nText with *emphasis* and $$m_a^{th}$$.".to_string();
    let latex = MarkdownToLatex::from_string(markdown).into_string().unwrap();
    let expected = format!(
        "{}\\section{{Title}}\n\nText with \\emph{{emphasis}} and $m_a^{{th}}$.\n\n\n\\end{{document}}\n",
        PREAMBLE
    );
    assert_eq!(latex, expected);
}

#[test]
fn write_to_a_buffer() {
    let markdown = "# Title\n\nText with a `code span`.".to_string();
    let converter = MarkdownToLatex::from_string(markdown);
    let writer = Vec::<u8>::new();
    let writer = converter.write_to(writer).unwrap();

    let latex = String::from_utf8(writer).unwrap();
    assert_eq!(&latex[..24], "\\documentclass{article}\n");
    assert!(latex
        .find("\\section{Title}\n\nText with a \\texttt{code span}.")
        .is_some());
    assert_eq!(&latex[latex.len() - 15..], "\\end{document}\n");
}

#[test]
fn write_to_keeps_what_the_buffer_holds() {
    let writer = MarkdownToLatex::from_string("x".to_string())
        .write_to(b"% head\n".to_vec())
        .unwrap();
    let latex = String::from_utf8(writer).unwrap();
    assert_eq!(latex, format!("% head\n{}x\n\n\n\\end{{document}}\n", PREAMBLE));
}

#[test]
fn genuine_code_span_is_typewriter_text() {
    assert_eq!(body("Use `code span` here"), "Use \\texttt{code span} here\n\n\n");
    assert_eq!(body("Use `a_b & c` here"), "Use \\texttt{a\\_b \\& c} here\n\n\n");
}

#[test]
fn ordered_list_with_start_number() {
    assert_eq!(
        body("5. first\n6. second\n"),
        "\\begin{enumerate}\n  \\setcounter{enumi}{4}\n  \\item first\n  \\item second\n\\end{enumerate}\n\n\n"
    );
}

#[test]
fn ordered_list_from_one_sets_no_counter() {
    assert_eq!(
        body("1. first\n2. second\n"),
        "\\begin{enumerate}\n  \\item first\n  \\item second\n\\end{enumerate}\n\n\n"
    );
}

#[test]
fn nested_lists_are_indented() {
    assert_eq!(
        body("- a\n  - b\n- c\n"),
        "\\begin{itemize}\n  \\item a\n    \\begin{itemize}\n      \\item b\n    \\end{itemize}\n  \\item c\n\\end{itemize}\n\n\n"
    );
}

#[test]
fn nested_ordered_lists_use_their_own_counters() {
    let latex = body("3. a\n   7. b\n");
    assert!(latex.contains("\\setcounter{enumi}{2}"));
    assert!(latex.contains("\\setcounter{enumii}{6}"));
}

#[test]
fn ordered_list_from_zero_counts_from_minus_one() {
    assert!(body("0. a\n").contains("\\setcounter{enumi}{-1}"));
}

#[test]
fn task_list_markers() {
    assert_eq!(
        body("- [x] done\n- [ ] open\n"),
        "\\begin{itemize}\n  \\item [\\checkedbox] done\n  \\item [\\uncheckedbox] open\n\\end{itemize}\n\n\n"
    );
}

#[test]
fn headings_of_all_levels() {
    assert_eq!(
        body("# a\n## b\n### c\n#### d\n##### e\n"),
        "\\section{a}\n\n\\subsection{b}\n\n\\subsubsection{c}\n\n\\paragraph{d}\n\n\\paragraph{e}\n\n"
    );
}

#[test]
fn paragraphs_before_headings_get_two_blank_lines() {
    assert_eq!(body("text\n\n# a\n\nmore"), "text\n\n\n\\section{a}\n\nmore\n\n\n");
}

#[test]
fn inline_markup() {
    assert_eq!(
        body("**b** ~~s~~ [t](http://u.v/w_x)"),
        "\\textbf{b} \\sout{s} \\href{http://u.v/w_x}{t}\n\n\n"
    );
}

#[test]
fn breaks_and_rules() {
    assert_eq!(body("a\nb"), "a \\\\\nb\n\n\n");
    assert_eq!(body("a  \nb"), "a \\\\\nb\n\n\n");
    assert_eq!(body("a\n\n---\n\nb"), "a\n\n\\par\\noindent\\hrulefill\\par\n\nb\n\n\n");
}

#[test]
fn block_quote_and_code_block() {
    assert_eq!(body("> q\n"), "\\begin{quote}\n\nq\n\n\\end{quote}\n\n\n");
    assert_eq!(
        body("```\nlet x = 1;\n```\n"),
        "\\begin{verbatim}\nlet x = 1;\n\\end{verbatim}\n\n\n"
    );
}

#[test]
fn text_is_escaped_and_stray_delimiters_are_restored() {
    assert_eq!(body("50% of $$"), "50\\% of \\$\\$\n\n\n");
    assert_eq!(body("cost $$ 5 & more"), "cost \\$\\$ 5 \\& more\n\n\n");
}

#[test]
fn unterminated_math_does_not_stop_the_conversion() {
    let converter = MarkdownToLatex::from_string("This $$x_1 is open".to_string());
    let done = converter.convert(Vec::new(), &Vec::new()).unwrap();
    let latex = String::from_utf8(done.latex).unwrap();
    assert!(latex.contains("This \\$\\$x\\_1 is open"));
    assert!(latex.ends_with("\\end{document}\n"));
    assert!(done.notes.is_empty());

    let converter = MarkdownToLatex::from_string("An open $$ x\n\nand a new paragraph".to_string());
    let latex = converter.into_string().unwrap();
    assert!(latex.contains("An open \\$\\$ x\n\nand a new paragraph"));
}

#[test]
fn images_without_a_path_are_commented_out() {
    let converter = MarkdownToLatex::from_string("![](http://a.b/c.png)".to_string());
    assert_eq!(converter.image_urls(), vec!["http://a.b/c.png".to_string()]);
    let latex = converter.into_string().unwrap();
    assert!(latex.contains("\n%\\includegraphics[width=\\textwidth]{http://a.b/c.png}\n"));
}

#[test]
fn images_with_a_path_are_included() {
    let converter = MarkdownToLatex::from_string("a\n\n![](u1)\n\n![](u2)".to_string());
    assert_eq!(converter.image_urls(), vec!["u1".to_string(), "u2".to_string()]);
    let latex = converter
        .into_string_with_images(&vec![None, Some("figures/two.png".to_string())])
        .unwrap();
    assert!(latex.contains("%\\includegraphics[width=\\textwidth]{u1}"));
    assert!(latex.contains("\n\\includegraphics[width=\\textwidth]{figures/two.png}\n"));
}

#[test]
fn image_with_a_description_is_not_closed_at_once() {
    let converter = MarkdownToLatex::from_string("![alt](u)".to_string());
    assert_eq!(converter.into_string(), Err(ConversionError::UnclosedImage));
}

#[test]
fn what_is_not_converted_is_noted() {
    let converter =
        MarkdownToLatex::from_string("<b>x</b> and [l][r] and <http://a.b>\n\n[r]: http://c.d\n".to_string());
    let done = converter.convert(Vec::new(), &Vec::new()).unwrap();
    assert!(done.notes.contains(&Diagnostic::Html));
    assert!(done.notes.contains(&Diagnostic::NonInlineLink));
    let latex = String::from_utf8(done.latex).unwrap();
    assert!(latex.contains("\\texttt{<b>}x\\texttt{</b>}"));
}

#[test]
fn a_document_without_trouble_has_no_notes() {
    let converter = MarkdownToLatex::from_string("# a\n\nb $$c$$ d".to_string());
    let done = converter.convert(Vec::new(), &Vec::new()).unwrap();
    assert!(done.notes.is_empty());
}

#[test]
fn empty_document() {
    assert_eq!(body(""), "");
}

#[test]
fn image_callback_is_asked_in_order() {
    let asked = RefCell::new(Vec::new());
    let converter = MarkdownToLatex::from_string("![](u1)\n\n![](u2)\n\n![](u3)".to_string());
    let latex = converter
        .into_string_with_image_callback(|url: &str| {
            asked.borrow_mut().push(url.to_string());
            if url == "u2" {
                None
            } else {
                Some(format!("figures/{}.png", url))
            }
        })
        .unwrap();
    assert_eq!(asked.into_inner(), vec!["u1".to_string(), "u2".to_string(), "u3".to_string()]);
    assert!(latex.contains("\n\\includegraphics[width=\\textwidth]{figures/u1.png}\n"));
    assert!(latex.contains("\n%\\includegraphics[width=\\textwidth]{u2}\n"));
    assert!(latex.contains("\n\\includegraphics[width=\\textwidth]{figures/u3.png}\n"));
}

#[test]
fn write_to_with_image_callback_appends() {
    let converter = MarkdownToLatex::from_string("![](u1)".to_string());
    let writer = converter
        .write_to_with_image_callback(b"% ".to_vec(), |_: &str| Some("one.png".to_string()))
        .unwrap();
    assert_eq!(
        String::from_utf8(writer).unwrap(),
        format!("% {}\\includegraphics[width=\\textwidth]{{one.png}}\n\n\n\\end{{document}}\n", PREAMBLE)
    );
}

#[test]
fn output_is_text_whatever_the_input_holds() {
    let markdown = "# Ünïcödé – «$$α_β$$» … `ça` ![](ß.png) \u{a0}\u{1f600}".to_string();
    let latex = MarkdownToLatex::from_string(markdown).into_string().unwrap();
    assert!(latex.contains("\\section{Ünïcödé -- «$α_β$» \\ldots{} \\texttt{ça}"));
    assert!(latex.contains("%\\includegraphics[width=\\textwidth]{ß.png}"));
    assert!(latex.contains("~\u{1f600}}"));
}

#[test]
fn math_with_spaces_around_it_is_noted_as_ambiguous() {
    let converter = MarkdownToLatex::from_string("a $$ x_1 $$ b".to_string());
    let done = converter.convert(Vec::new(), &Vec::new()).unwrap();
    let latex = String::from_utf8(done.latex).unwrap();
    assert!(latex.contains("a $x_1$ b"));
    assert_eq!(done.notes, vec![Diagnostic::AmbiguousMath]);
}

#[test]
fn diagnostics_say_what_they_are_about() {
    assert_eq!(Diagnostic::Table.message(), "Ignoring table (not yet implemented).");
    assert_eq!(
        Diagnostic::Html.message(),
        "Found an HTML tag. Including it verbatim in LaTeX writer."
    );
    assert!(Diagnostic::AmbiguousMath.message().starts_with("Ambiguous use of \"$$\"."));
    assert_eq!(
        Diagnostic::FootnoteDefinition.message(),
        "Ignoring footnote definition (not yet implemented)."
    );
    assert_eq!(
        Diagnostic::FootnoteReference.message(),
        "Ignoring footnote reference (not yet implemented)."
    );
    assert_eq!(
        Diagnostic::NonInlineLink.message(),
        "Ignoring non-inline link (not yet implemented)."
    );
    assert_eq!(
        Diagnostic::NonInlineImage.message(),
        "Ignoring non-inline image (not yet implemented)."
    );
}
