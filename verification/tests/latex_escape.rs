use bluepaper_core::format::WhitespaceFormatter;
use bluepaper_core::latex_escape::escape_str;
use bluepaper_core::math::{escape_str_with_math, MathFormatter};

fn escape_to_string(src: &str) -> String {
    let mut result = Vec::new();
    escape_str(src, &mut result);
    String::from_utf8(result).unwrap()
}

#[test]
fn latex_escape_unicode() {
    let src = "test … ellipsis ..., 2 dots .., hyphenation‧point, —em dash and–en dash";

    assert_eq!(
        &escape_to_string(src),
        "test \\ldots{} ellipsis \\ldots{}, 2 dots .., \
         hyphenation\u{2027}point, ---em dash and--en dash"
    );
}

#[test]
fn latex_escape_escape() {
    let src = r"   test   escaping $ and # and also & and % and_under{score}~or^caret \  ";

    assert_eq!(
        &escape_to_string(src),
        " test escaping \\$ and \\# and also \\& and \\% \
         and\\_under\\{score\\}\\textasciitilde{}or\\textasciicircum{}caret \\textbackslash{} "
    );
}

#[test]
fn escape_appends_to_what_the_writer_holds() {
    let mut writer = b"kept: ".to_vec();
    escape_str("50%", &mut writer);
    assert_eq!(writer, b"kept: 50\\%".to_vec());
}

#[test]
fn escape_each_control_character() {
    assert_eq!(escape_to_string("&"), "\\&");
    assert_eq!(escape_to_string("%"), "\\%");
    assert_eq!(escape_to_string("$"), "\\$");
    assert_eq!(escape_to_string("#"), "\\#");
    assert_eq!(escape_to_string("_"), "\\_");
    assert_eq!(escape_to_string("{"), "\\{");
    assert_eq!(escape_to_string("}"), "\\}");
    assert_eq!(escape_to_string("~"), "\\textasciitilde{}");
    assert_eq!(escape_to_string("^"), "\\textasciicircum{}");
    assert_eq!(escape_to_string("\\"), "\\textbackslash{}");
}

#[test]
fn escape_dots_and_spaces() {
    assert_eq!(escape_to_string("..."), "\\ldots{}");
    assert_eq!(escape_to_string(".."), "..");
    assert_eq!(escape_to_string("...."), "\\ldots{}.");
    assert_eq!(escape_to_string("a  b"), "a b");
    assert_eq!(escape_to_string("a     b "), "a b ");
    assert_eq!(escape_to_string(""), "");
}

#[test]
fn escape_special_characters_beyond_ascii() {
    assert_eq!(escape_to_string("a\u{a0}b"), "a~b");
    assert_eq!(escape_to_string("\u{2013}"), "--");
    assert_eq!(escape_to_string("\u{2014}"), "---");
    assert_eq!(escape_to_string("\u{2026}"), "\\ldots{}");
    assert_eq!(escape_to_string("\u{2018}quoted\u{2019}"), "\u{2018}quoted\u{2019}");
    assert_eq!(escape_to_string("\u{c2}\u{e9}\u{1f600}"), "\u{c2}\u{e9}\u{1f600}");
}

fn escape_with_math(src: &str, math: bool) -> (String, bool) {
    let mut result = Vec::new();
    let end = escape_str_with_math(src, &mut result, math);
    (String::from_utf8(result).unwrap(), end.open)
}

#[test]
fn math_between_delimiters_is_left_alone() {
    assert_eq!(
        escape_with_math("50% of $$m_a^{th}$$ & more", false),
        ("50\\% of $m_a^{th}$ \\& more".to_string(), false)
    );
    assert_eq!(escape_with_math("a_b", false), ("a\\_b".to_string(), false));
    assert_eq!(escape_with_math("a_b", true), ("a_b".to_string(), true));
    assert_eq!(escape_with_math("x$$ y_z", true), ("x$ y\\_z".to_string(), false));
    assert_eq!(escape_with_math("a $$x", false), ("a $x".to_string(), true));
}

#[test]
fn math_is_repaired_where_it_is_malformed() {
    assert_eq!(escape_with_math("$$a\\$b\\\\c#d$$", false), ("$a\\$b\\\\c\\#d$".to_string(), false));
    assert_eq!(escape_with_math("$$a$b$$", false), ("$a $b$".to_string(), false));
    assert_eq!(escape_with_math("$$a\nb_c", false), ("$a$\nb\\_c".to_string(), false));
    assert_eq!(escape_with_math("$$a\\", false), ("$a\\".to_string(), true));
    assert_eq!(escape_with_math("$", false), ("\\$".to_string(), false));
    assert_eq!(escape_with_math("$", true), (" $".to_string(), true));
}

fn repaired(src: &str, math: bool) -> bool {
    escape_str_with_math(src, &mut Vec::new(), math).repaired
}

#[test]
fn repairs_of_math_are_reported() {
    assert!(!repaired("50% of $$m_a^{th}$$ & more", false));
    assert!(!repaired("$$a\\$b\\\\c#d$$", false));
    assert!(repaired("$$a$b$$", false));
    assert!(repaired("$$a\nb_c", false));
    assert!(!repaired("a\nb $ c", false));
    assert!(repaired("$", true));
    assert!(!repaired("$", false));
    assert!(!repaired("a\\\nb", true));
    assert!(repaired("a\nb", true));
    assert!(!repaired("", true));

    let mut formatter = MathFormatter::new(Vec::new());
    assert!(!formatter.write_escaped("a $$x"));
    assert!(formatter.write_escaped("y\nz"));
    assert!(!formatter.in_math_mode());
    assert_eq!(formatter.get_ref(), &b"a $xy$\nz".to_vec());
}

#[test]
fn a_line_end_closes_math() {
    for text in ["$$a\n", "a\n", "$$\n", "$$a$$\n", "\n", "$$a\\\\\n", "$$$\n"] {
        assert!(!escape_with_math(text, false).1);
        assert!(!escape_with_math(text, true).1);
    }
    assert!(escape_with_math("a\\\n", true).1);
}

#[test]
fn math_escaping_keeps_characters_whole() {
    for text in ["$$\\\u{e9}x$$ \u{2014}", "\u{1f600}$$\u{1f600}\\\u{1f600}", "\\\u{e9}"] {
        for math in [false, true] {
            let mut result = Vec::new();
            escape_str_with_math(text, &mut result, math);
            assert!(String::from_utf8(result).is_ok());
        }
    }
    assert_eq!(escape_with_math("\\\u{e9}$$", true), ("\\\u{e9}$".to_string(), false));
}

#[test]
fn math_formatter_keeps_track_of_open_math() {
    let mut formatter = MathFormatter::new(Vec::new());
    formatter.write_escaped("a & $$x_1");
    assert!(formatter.in_math_mode());
    formatter.formatter_mut().add_newlines(2);
    formatter.write_escaped("+ y_2$$ & b");
    assert!(!formatter.in_math_mode());
    assert_eq!(formatter.get_ref(), &b"a \\& $x_1\n\n+ y_2$ \\& b".to_vec());
    formatter.formatter_mut().add_newlines(1);
    assert_eq!(formatter.into_inner(), b"a \\& $x_1\n\n+ y_2$ \\& b\n".to_vec());

    let mut plain = WhitespaceFormatter::new(Vec::new());
    plain.write_all(b"x_");
    let mut formatter = MathFormatter::from_formatter(plain);
    assert!(!formatter.in_math_mode());
    formatter.write_escaped("y_");
    assert_eq!(formatter.get_ref(), &b"x_y\\_".to_vec());
}
