use bluepaper_core::event::{Element, LinkKind, Spanned, Token};
use bluepaper_core::format::WhitespaceFormatter;
use bluepaper_core::preprocess::{MarkerMismatch, Replacer};
use bluepaper_core::render::{
    image_urls, render, render_events, ConversionError, Diagnostic, Renderer, PREAMBLE,
};
use bluepaper_core::MarkdownToLatex;

fn at(event: Token, start: usize, end: usize) -> Spanned {
    Spanned { event, start, end }
}

fn replacer_of(text: &str) -> Replacer {
    let mut text = text.to_string();
    Replacer::replace(&mut text)
}

fn events_to_string(tokens: Vec<Spanned>, text: &str) -> (String, Vec<Diagnostic>) {
    let mut out = WhitespaceFormatter::new(Vec::new());
    out.write_all(b"|");
    let (out, notes) = render_events(&tokens, replacer_of(text), out, &Vec::new()).unwrap();
    (String::from_utf8(out.get_ref().clone()).unwrap(), notes)
}

#[test]
fn render_frames_the_document() {
    let done = render(&Vec::new(), replacer_of(""), b"%\n".to_vec(), &Vec::new()).unwrap();
    assert_eq!(String::from_utf8(done.latex).unwrap(), format!("%\n{}\\end{{document}}\n", PREAMBLE));
    assert!(done.notes.is_empty());
}

#[test]
fn math_span_is_written_unescaped() {
    let text = "a $$x_1$$ b";
    let tokens = vec![
        at(Token::Text("a ".to_string()), 0, 2),
        at(Token::Code("x_1".to_string()), 2, 9),
        at(Token::Text(" b".to_string()), 9, 11),
    ];
    assert_eq!(events_to_string(tokens, text), ("|a $x_1$ b".to_string(), vec![]));
}

#[test]
fn code_span_with_one_disguised_end_is_code() {
    let text = "a $$x`` b $$";
    let tokens = vec![at(Token::Code("x".to_string()), 2, 7)];
    assert_eq!(events_to_string(tokens, text), ("|\\texttt{x}".to_string(), vec![]));
}

#[test]
fn math_changed_by_the_parser_is_noted() {
    let text = "a $$ x $$ b";
    let tokens = vec![at(Token::Code("x".to_string()), 2, 9)];
    assert_eq!(
        events_to_string(tokens, text),
        ("|$x$".to_string(), vec![Diagnostic::AmbiguousMath])
    );
}

#[test]
fn text_changed_by_the_parser_is_noted() {
    let text = "a &amp; $$b";
    let tokens = vec![at(Token::Text("a & ``b".to_string()), 0, 11)];
    assert_eq!(
        events_to_string(tokens, text),
        ("|a \\& ``b".to_string(), vec![Diagnostic::AmbiguousMath])
    );
}

#[test]
fn html_is_noted_and_written_verbatim() {
    let tokens = vec![at(Token::Html("<br/>".to_string()), 0, 5)];
    assert_eq!(
        events_to_string(tokens, "<br/>"),
        ("|\\texttt{<br/>}".to_string(), vec![Diagnostic::Html])
    );
}

#[test]
fn unsupported_elements_are_noted_and_skipped() {
    let tokens = vec![
        at(Token::Start(Element::FootnoteDefinition), 0, 0),
        at(Token::End(Element::FootnoteDefinition), 0, 0),
        at(Token::FootnoteReference, 0, 0),
        at(Token::Start(Element::Table), 0, 0),
        at(Token::Start(Element::TableHead), 0, 0),
        at(Token::Start(Element::TableRow), 0, 0),
        at(Token::Start(Element::TableCell), 0, 0),
        at(Token::End(Element::TableCell), 0, 0),
        at(Token::End(Element::TableRow), 0, 0),
        at(Token::End(Element::TableHead), 0, 0),
        at(Token::End(Element::Table), 0, 0),
        at(Token::Start(Element::Link { kind: LinkKind::Reference, url: "u".to_string() }), 0, 0),
        at(Token::End(Element::Link { kind: LinkKind::Reference, url: "u".to_string() }), 0, 0),
        at(Token::Start(Element::Image { kind: LinkKind::Shortcut, url: "u".to_string() }), 0, 0),
        at(Token::End(Element::Image { kind: LinkKind::Shortcut, url: "u".to_string() }), 0, 0),
    ];
    assert_eq!(
        events_to_string(tokens, ""),
        (
            "|".to_string(),
            vec![
                Diagnostic::FootnoteDefinition,
                Diagnostic::FootnoteReference,
                Diagnostic::Table,
                Diagnostic::NonInlineLink,
                Diagnostic::NonInlineImage,
            ]
        )
    );
}

#[test]
fn counters_are_set_down_to_the_fourth_level() {
    let mut tokens = Vec::new();
    for _ in 0..5 {
        tokens.push(at(Token::Start(Element::List(Some(3))), 0, 0));
    }
    for _ in 0..5 {
        tokens.push(at(Token::End(Element::List(Some(3))), 0, 0));
    }
    tokens.push(at(Token::Start(Element::List(Some(12345678901234567890))), 0, 0));
    let (latex, _) = events_to_string(tokens, "");
    for name in ["enumi", "enumii", "enumiii", "enumiv"] {
        assert_eq!(latex.matches(&format!("\\setcounter{{{}}}{{2}}", name)).count(), 1);
    }
    assert_eq!(latex.matches("\\setcounter").count(), 5);
    assert!(latex.ends_with("\\begin{enumerate}\n  \\setcounter{enumi}{12345678901234567889}"));
}

#[test]
fn list_ends_without_beginnings_are_harmless() {
    let tokens = vec![
        at(Token::End(Element::List(Some(1))), 0, 0),
        at(Token::End(Element::List(None)), 0, 0),
        at(Token::Start(Element::List(Some(2))), 0, 0),
    ];
    let (latex, _) = events_to_string(tokens, "");
    assert_eq!(
        latex,
        "|\n\\end{enumerate}\n\\end{itemize}\n\\begin{enumerate}\n  \\setcounter{enumi}{1}"
    );
}

#[test]
fn image_paths_are_taken_in_order() {
    let image = |url: &str| Element::Image { kind: LinkKind::Inline, url: url.to_string() };
    let tokens = vec![
        at(Token::Start(image("one")), 0, 0),
        at(Token::End(image("one")), 0, 0),
        at(Token::Start(Element::Image { kind: LinkKind::Collapsed, url: "other".to_string() }), 0, 0),
        at(Token::Start(image("two")), 0, 0),
        at(Token::End(image("two")), 0, 0),
        at(Token::Start(image("three")), 0, 0),
        at(Token::End(image("three")), 0, 0),
    ];
    assert_eq!(image_urls(&tokens), vec!["one".to_string(), "two".to_string(), "three".to_string()]);
    let paths = vec![Some("1.png".to_string()), None];
    let done = render(&tokens, replacer_of(""), Vec::new(), &paths).unwrap();
    let latex = String::from_utf8(done.latex).unwrap();
    assert_eq!(
        &latex[PREAMBLE.len()..],
        "\\includegraphics[width=\\textwidth]{1.png}\n\
         %\\includegraphics[width=\\textwidth]{two}\n\
         %\\includegraphics[width=\\textwidth]{three}\n\n\n\\end{document}\n"
    );
    assert_eq!(done.notes, vec![Diagnostic::NonInlineImage]);
}

#[test]
fn image_must_end_at_once() {
    let image = Element::Image { kind: LinkKind::Inline, url: "u".to_string() };
    let unclosed = vec![at(Token::Start(image.clone()), 0, 0)];
    assert_eq!(
        render(&unclosed, replacer_of(""), Vec::new(), &Vec::new()).err(),
        Some(ConversionError::UnclosedImage)
    );
    let interrupted = vec![
        at(Token::Start(image.clone()), 0, 0),
        at(Token::Text("alt".to_string()), 0, 3),
        at(Token::End(image.clone()), 0, 0),
    ];
    assert_eq!(
        render(&interrupted, replacer_of(""), Vec::new(), &Vec::new()).err(),
        Some(ConversionError::UnclosedImage)
    );
    let stray = vec![at(Token::End(image), 0, 0)];
    assert_eq!(
        render(&stray, replacer_of(""), Vec::new(), &Vec::new()).err(),
        Some(ConversionError::UnexpectedImageEnd)
    );
}

#[test]
fn text_that_does_not_match_the_replacer_is_an_error() {
    let tokens = vec![at(Token::Text("a xxbxx c".to_string()), 0, 9)];
    assert_eq!(
        render(&tokens, replacer_of("a $$b$$ c"), Vec::new(), &Vec::new()).err(),
        Some(ConversionError::MarkerMismatch(MarkerMismatch { offset: 2 }))
    );
}

fn stream(markdown: &str, answers: &[Option<&str>]) -> (Vec<u8>, Vec<String>, Vec<usize>) {
    let (tokens, mut renderer) = MarkdownToLatex::from_string(markdown.to_string()).begin(b"%\n".to_vec());
    let mut paths: Vec<Option<String>> = Vec::new();
    let mut asked = Vec::new();
    let mut lengths = vec![renderer.output().len()];
    for token in &tokens {
        if let Some(url) = renderer.image_wanted(token) {
            paths.push(answers[asked.len()].map(|path| path.to_string()));
            asked.push(url);
        }
        assert!(renderer.can_take_more());
        renderer.feed(token, &paths).unwrap();
        lengths.push(renderer.output().len());
    }
    (renderer.finish().unwrap().latex, asked, lengths)
}

#[test]
fn feeding_event_by_event_gives_the_same_document() {
    let markdown = "# T\n\n![](a.png) and $$x$$\n\n1. one\n2. two ![](b.png)\n\n<b>x</b>";
    let (latex, asked, lengths) = stream(markdown, &[Some("A"), None]);
    assert_eq!(asked, vec!["a.png".to_string(), "b.png".to_string()]);
    assert!(lengths.windows(2).all(|pair| pair[0] <= pair[1]));
    assert_eq!(lengths[0], 2 + PREAMBLE.len());

    let paths = vec![Some("A".to_string()), None];
    let whole = MarkdownToLatex::from_string(markdown.to_string())
        .convert(b"%\n".to_vec(), &paths)
        .unwrap();
    assert_eq!(latex, whole.latex);
    let text = String::from_utf8(latex).unwrap();
    assert!(text.contains("\\includegraphics[width=\\textwidth]{A}"));
    assert!(text.ends_with("\\end{document}\n"));
}

#[test]
fn a_renderer_shows_its_notes_and_stops_at_an_unclosed_image() {
    let (tokens, mut renderer) =
        MarkdownToLatex::from_string("<b>x</b> ![d](c.png)".to_string()).begin(Vec::new());
    let mut fed = 0;
    let mut failure = None;
    for token in &tokens {
        if let Err(error) = renderer.feed(token, &Vec::new()) {
            failure = Some(error);
            break;
        }
        fed += 1;
    }
    assert_eq!(failure, Some(ConversionError::UnclosedImage));
    assert!(fed > 0 && fed < tokens.len());
    assert!(renderer.notes().contains(&Diagnostic::Html));
    assert_eq!(renderer.image_wanted(&tokens[fed - 1]), None);

    let image = Element::Image { kind: LinkKind::Inline, url: "u".to_string() };
    let mut renderer = Renderer::begin(replacer_of(""), Vec::new());
    assert_eq!(renderer.image_wanted(&at(Token::Start(image.clone()), 0, 0)), Some("u".to_string()));
    assert_eq!(renderer.image_wanted(&at(Token::End(image.clone()), 0, 0)), None);
    renderer.feed(&at(Token::Start(image.clone()), 0, 0), &Vec::new()).unwrap();
    assert_eq!(renderer.image_wanted(&at(Token::Start(image), 0, 0)), None);
    assert_eq!(renderer.finish().err(), Some(ConversionError::UnclosedImage));
}
