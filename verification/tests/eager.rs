use bluepaper_core::eager::{
    render_plain, write_escaped_inline, write_inline, write_on_single_line,
    write_paragraph_break, write_soft_line_break, PlainError,
};
use bluepaper_core::event::{Element, LinkKind, Spanned, Token};
use bluepaper_core::parser::parse;

#[test]
fn eager_newlines_are_not_written_twice() {
    let mut output = Vec::new();
    let mut newlines = 0u32;

    write_inline(&mut output, b"a", &mut newlines);
    assert_eq!(newlines, 0);
    write_soft_line_break(&mut output, &mut newlines);
    assert_eq!(newlines, 1);
    write_soft_line_break(&mut output, &mut newlines);
    assert_eq!(newlines, 1);
    write_paragraph_break(&mut output, &mut newlines);
    assert_eq!(newlines, 2);
    write_paragraph_break(&mut output, &mut newlines);
    write_soft_line_break(&mut output, &mut newlines);
    assert_eq!(newlines, 2);
    write_escaped_inline(&mut output, "b_c", &mut newlines);
    assert_eq!(newlines, 0);
    write_paragraph_break(&mut output, &mut newlines);
    write_on_single_line(&mut output, b"d", &mut newlines);
    assert_eq!(newlines, 1);
    write_on_single_line(&mut output, b"e", &mut newlines);
    write_inline(&mut output, b"f", &mut newlines);
    write_on_single_line(&mut output, b"g", &mut newlines);
    assert_eq!(newlines, 1);

    assert_eq!(output, b"a\n\nb_c\n\nd\ne\nf\ng\n".to_vec());
}

#[test]
fn plain_rendering_of_a_document() {
    let tokens = parse("# Title\n\nText *with* `code`\nand  \n**more**.\n\n- a\n- b\n\n![](pic.png)\n\n#### end\n---\n");
    assert_eq!(
        String::from_utf8(render_plain(&tokens).unwrap()).unwrap(),
        "\n\n\\section{Title}\n\nText \\emph{with} \\texttt{code}\nand \\\n\\textbf{more}.\n\
         \\begin{itemize}\n\\item\na\n\\item\nb\n\\end{itemize}\n\
         \\includegraphics[\\textwidth]{pic.png}\n\n\\paragraph{end}\n\\par\\noindent\\hrulefill\\par\n"
    );
}

#[test]
fn plain_rendering_gives_up_on_what_it_has_nothing_for() {
    assert_eq!(render_plain(&parse("a <b>c</b>")), Err(PlainError::Unsupported));
    assert_eq!(render_plain(&parse("- [ ] a")), Err(PlainError::Unsupported));
    assert_eq!(render_plain(&parse("<http://a.b>")), Err(PlainError::Unsupported));
    assert_eq!(render_plain(&parse("![alt](u)")), Err(PlainError::UnclosedImage));
    let image = |url: &str| Element::Image { kind: LinkKind::Inline, url: url.to_string() };
    let at = |event: Token| Spanned { event, start: 0, end: 0 };
    assert_eq!(
        render_plain(&vec![at(Token::Start(image("a"))), at(Token::End(image("b")))]),
        Err(PlainError::UnclosedImage)
    );
    assert_eq!(render_plain(&vec![at(Token::Start(image("a")))]), Err(PlainError::UnclosedImage));
    assert_eq!(render_plain(&vec![at(Token::End(image("a")))]), Err(PlainError::Unsupported));
    assert_eq!(render_plain(&Vec::new()), Ok(Vec::new()));
}
