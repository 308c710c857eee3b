use bluepaper_core::conversion::latex_escape::LatexEscaper;
use bluepaper_core::conversion::markdown_to_latex;
use bluepaper_core::render::PREAMBLE;

#[test]
fn escaper_unicode() {
    let dest = Vec::new();
    let mut escaper = LatexEscaper::new(dest);
    let src = "test … ellipsis ..., 2 dots .., hyphenation‧point, —em dash and–en dash";
    escaper.write_escaped(src);

    assert_eq!(
        std::str::from_utf8(escaper.get_ref()).unwrap(),
        "test \\ldots{} ellipsis \\ldots{}, 2 dots .., \
         hyphenation\u{2027}point, ---em dash and--en dash"
    );
}

#[test]
fn escaper_escape() {
    let dest = Vec::new();
    let mut escaper = LatexEscaper::new(dest);
    let src = r"   test   escaping $ and # and also & and % and_under{score}~or^caret \  ";
    escaper.write_escaped(src);

    assert_eq!(
        std::str::from_utf8(escaper.get_ref()).unwrap(),
        " test escaping \\$ and \\# and also \\& and \\% \
         and\\_under\\{score\\}\\textasciitilde{}or\\textasciicircum{}caret \\textbackslash{} "
    );
}

#[test]
fn escaper_formats_like_the_formatter() {
    let mut escaper = LatexEscaper::with_indent_width(4, Vec::new());
    escaper.write_str("a_b");
    escaper.increase_indent();
    escaper.add_newlines(3);
    escaper.limit_newlines(2);
    escaper.write_escaped("a_b");
    escaper.decrease_indent();
    escaper.decrease_indent();
    escaper.write_on_single_line("c");
    assert_eq!(escaper.get_ref(), &b"a_b\n\n    a\\_b\nc".to_vec());
    assert_eq!(escaper.into_inner(), b"a_b\n\n    a\\_b\nc\n".to_vec());
}

#[test]
fn escaper_get_mut_writes_what_is_due_first() {
    let mut escaper = LatexEscaper::new(Vec::new());
    escaper.write_str("a");
    escaper.add_newlines(1);
    escaper.get_mut().push(b'b');
    escaper.write_str("c");
    assert_eq!(escaper.get_ref(), &b"a\nbc".to_vec());

    let mut escaper = LatexEscaper::new(Vec::new());
    escaper.write_str("a");
    escaper.add_newlines(2);
    escaper.get_mut().extend_from_slice(b"b");
    escaper.get_mut().extend_from_slice(b"c");
    assert_eq!(escaper.get_ref(), &b"a\n\nbc".to_vec());
}

#[test]
fn one_call_conversion() {
    let done = markdown_to_latex("# T\n\nsee ![](pic.png)\n".to_string(), b"% ".to_vec()).unwrap();
    let latex = String::from_utf8(done.latex).unwrap();
    assert_eq!(
        latex,
        format!(
            "% {}\n\n\\section{{T}}\n\nsee \n\\includegraphics[width=\\textwidth]{{pic.png}}\n\n\n\\end{{document}}\n",
            PREAMBLE
        )
    );
    assert!(done.notes.is_empty());
}
