use bluepaper_core::event::{Element, LinkKind, Spanned, Token};
use bluepaper_core::parser::parse;

#[test]
fn range_mapping() {
    let events = parse("text `` math  `` text");
    for spanned in events {
        println!("{:?}", spanned.event);
        println!("{}..{}", spanned.start, spanned.end);
    }
}

#[test]
fn parse_reports_events_with_their_spans() {
    let events = parse("a `b` c");
    assert_eq!(
        events,
        vec![
            Spanned { event: Token::Start(Element::Paragraph), start: 0, end: 7 },
            Spanned { event: Token::Text("a ".to_string()), start: 0, end: 2 },
            Spanned { event: Token::Code("b".to_string()), start: 2, end: 5 },
            Spanned { event: Token::Text(" c".to_string()), start: 5, end: 7 },
            Spanned { event: Token::End(Element::Paragraph), start: 0, end: 7 },
        ]
    );
}

#[test]
fn parse_tells_elements_apart() {
    let kinds: Vec<Token> = parse("# h\n\n> q\n\n- [x] i\n\n3. n\n\n~~s~~ **b** *e* [l](u) <http://a.b>\n\n---\n")
        .into_iter()
        .map(|spanned| spanned.event)
        .collect();
    assert!(kinds.contains(&Token::Start(Element::Heading(1))));
    assert!(kinds.contains(&Token::Start(Element::BlockQuote)));
    assert!(kinds.contains(&Token::Start(Element::List(None))));
    assert!(kinds.contains(&Token::Start(Element::Item)));
    assert!(kinds.contains(&Token::TaskListMarker(true)));
    assert!(kinds.contains(&Token::Start(Element::List(Some(3)))));
    assert!(kinds.contains(&Token::Start(Element::Strikethrough)));
    assert!(kinds.contains(&Token::Start(Element::Strong)));
    assert!(kinds.contains(&Token::Start(Element::Emphasis)));
    assert!(kinds.contains(&Token::Start(Element::Link { kind: LinkKind::Inline, url: "u".to_string() })));
    assert!(kinds
        .contains(&Token::Start(Element::Link { kind: LinkKind::Autolink, url: "http://a.b".to_string() })));
    assert!(kinds.contains(&Token::Rule));
}

fn link_kinds(text: &str) -> Vec<LinkKind> {
    let mut kinds = Vec::new();
    for spanned in parse(text) {
        match spanned.event {
            Token::Start(Element::Link { kind, .. }) => kinds.push(kind),
            Token::Start(Element::Image { kind, .. }) => kinds.push(kind),
            _ => {}
        }
    }
    kinds
}

#[test]
fn links_keep_their_kind() {
    assert_eq!(link_kinds("[t](u)"), vec![LinkKind::Inline]);
    assert_eq!(link_kinds("![t](u)"), vec![LinkKind::Inline]);
    assert_eq!(link_kinds("[t][l]\n\n[l]: u"), vec![LinkKind::Reference]);
    assert_eq!(link_kinds("![t][l]\n\n[l]: u"), vec![LinkKind::Reference]);
    assert_eq!(link_kinds("[l][]\n\n[l]: u"), vec![LinkKind::Collapsed]);
    assert_eq!(link_kinds("[l]\n\n[l]: u"), vec![LinkKind::Shortcut]);
    assert_eq!(link_kinds("<http://a.b>"), vec![LinkKind::Autolink]);
    assert_eq!(link_kinds("<john@example.org>"), vec![LinkKind::Email]);
    assert_eq!(link_kinds("[l]"), Vec::<LinkKind>::new());
    assert!(LinkKind::Inline.is_inline());
    assert!(!LinkKind::Autolink.is_inline());
    assert!(!LinkKind::Reference.is_inline());
}
