use bluepaper_core::format::WhitespaceFormatter;

fn started() -> WhitespaceFormatter {
    let mut formatter = WhitespaceFormatter::new(Vec::new());
    formatter.write_all(b"x");
    formatter
}

#[test]
fn newlines_of_consecutive_blocks_fuse() {
    let buf = Vec::<u8>::new();
    let mut formatter = WhitespaceFormatter::new(buf);

    formatter.write_all(b"Some paragraph of text.");
    formatter.add_newlines(2);
    formatter.add_newlines(3);
    formatter.write_all(b"## Section Header");

    let s = std::str::from_utf8(formatter.get_ref()).unwrap();
    assert_eq!(s, "Some paragraph of text.\n\n\n## Section Header");
}

fn write_paragraph(text: &str, formatter: &mut WhitespaceFormatter) {
    formatter.write_all(text.as_bytes());
    formatter.add_newlines(2);
}

fn write_header(text: &str, formatter: &mut WhitespaceFormatter) {
    formatter.add_newlines(3);
    formatter.write_all(text.as_bytes());
    formatter.add_newlines(2);
    formatter.limit_newlines(2);
}

#[test]
fn limit_keeps_consecutive_headers_close() {
    let buf = Vec::<u8>::new();
    let mut formatter = WhitespaceFormatter::new(buf);

    write_paragraph("Some paragraph of text.", &mut formatter);
    write_paragraph("Another paragraph of text.", &mut formatter);
    write_header("# Section Header", &mut formatter);
    write_header("# Subsection Header", &mut formatter);

    let s = std::str::from_utf8(formatter.get_ref()).unwrap();
    assert_eq!(
        s,
        "Some paragraph of text.\n\nAnother paragraph of text.\n\n\n# Section Header\n\n# Subsection Header"
    );
}

#[test]
fn nothing_is_put_before_the_first_write() {
    let mut formatter = WhitespaceFormatter::new(b"head".to_vec());
    formatter.add_newlines(3);
    formatter.write_all(b"x");
    assert_eq!(formatter.get_ref(), &b"headx".to_vec());
}

#[test]
fn never_more_than_four_newlines() {
    let mut formatter = started();
    formatter.add_newlines(9);
    formatter.write_all(b"y");
    assert_eq!(formatter.get_ref(), &b"x\n\n\n\ny".to_vec());
}

#[test]
fn newlines_are_largest_wish_cut_to_smallest_limit() {
    let mut formatter = started();
    formatter.add_newlines(1);
    formatter.limit_newlines(3);
    formatter.add_newlines(4);
    formatter.limit_newlines(2);
    formatter.add_newlines(2);
    formatter.limit_newlines(3);
    formatter.write_all(b"y");
    assert_eq!(formatter.get_ref(), &b"x\n\ny".to_vec());

    formatter.add_newlines(4);
    formatter.write_all(b"z");
    assert_eq!(formatter.get_ref(), &b"x\n\ny\n\n\n\nz".to_vec());
}

#[test]
fn limit_zero_suppresses_newlines_and_indentation() {
    let mut formatter = started();
    formatter.increase_indent();
    formatter.add_newlines(2);
    formatter.limit_newlines(0);
    formatter.write_all(b"y");
    assert_eq!(formatter.get_ref(), &b"xy".to_vec());
}

#[test]
fn indentation_follows_newlines() {
    let mut formatter = started();
    formatter.increase_indent();
    formatter.increase_indent();
    formatter.add_newlines(2);
    formatter.write_all(b"y");
    formatter.write_all(b"z");
    formatter.decrease_indent();
    formatter.add_newlines(1);
    formatter.write_all(b"w");
    assert_eq!(formatter.get_ref(), &b"x\n\n    yz\n  w".to_vec());
}

#[test]
fn indentation_width_can_be_chosen() {
    let mut formatter = WhitespaceFormatter::with_indent_width(3, Vec::new());
    formatter.write_all(b"x");
    formatter.increase_indent();
    formatter.add_newlines(1);
    formatter.write_all(b"y");
    assert_eq!(formatter.get_ref(), &b"x\n   y".to_vec());
}

#[test]
fn indentation_never_exceeds_thirty_two_spaces() {
    let mut formatter = started();
    for _ in 0..40 {
        formatter.increase_indent();
    }
    formatter.add_newlines(1);
    formatter.write_all(b"y");
    let mut expected = b"x\n".to_vec();
    expected.extend_from_slice(&[b' '; 32]);
    expected.push(b'y');
    assert_eq!(formatter.get_ref(), &expected);

    let mut wide = WhitespaceFormatter::with_indent_width(u32::MAX, Vec::new());
    wide.write_all(b"x");
    wide.increase_indent();
    wide.increase_indent();
    wide.add_newlines(1);
    wide.write_all(b"y");
    assert_eq!(wide.get_ref(), &expected);
}

#[test]
fn decrease_indent_stops_at_zero() {
    let mut formatter = started();
    formatter.decrease_indent();
    formatter.increase_indent();
    formatter.add_newlines(1);
    formatter.write_all(b"y");
    assert_eq!(formatter.get_ref(), &b"x\n  y".to_vec());
}

#[test]
fn write_on_single_line_puts_newlines_around() {
    let mut formatter = started();
    formatter.write_on_single_line("a");
    formatter.write_on_single_line("b");
    formatter.write_all(b"c");
    assert_eq!(formatter.get_ref(), &b"x\na\nb\nc".to_vec());
}

#[test]
fn get_mut_writes_what_is_due_first() {
    let mut formatter = started();
    formatter.add_newlines(2);
    formatter.get_mut().extend_from_slice(b"y");
    formatter.get_mut().extend_from_slice(b"z");
    assert_eq!(formatter.get_ref(), &b"x\n\nyz".to_vec());
}

#[test]
fn get_ref_writes_nothing() {
    let mut formatter = started();
    formatter.add_newlines(2);
    assert_eq!(formatter.get_ref(), &b"x".to_vec());
    formatter.flush();
    assert_eq!(formatter.get_ref(), &b"x".to_vec());
}

#[test]
fn into_inner_writes_what_is_due() {
    let mut formatter = started();
    formatter.add_newlines(2);
    assert_eq!(formatter.into_inner(), b"x\n\n".to_vec());

    let mut formatter = started();
    formatter.add_newlines(2);
    formatter.limit_newlines(0);
    assert_eq!(formatter.into_inner(), b"x".to_vec());
}

#[test]
fn write_reports_the_bytes_written() {
    let mut formatter = started();
    formatter.add_newlines(1);
    assert_eq!(formatter.write(b"abc"), 3);
    assert_eq!(formatter.get_ref(), &b"x\nabc".to_vec());
}
