use bluepaper_core::preprocess::{MarkerMismatch, Replacer, Restored};

fn matched(text: &str) -> Result<Restored, MarkerMismatch> {
    Ok(Restored { text: text.to_string(), ambiguous: false })
}

fn unmatched(text: &str) -> Result<Restored, MarkerMismatch> {
    Ok(Restored { text: text.to_string(), ambiguous: true })
}

fn disguise(text: &str) -> (String, Replacer) {
    let mut text = text.to_string();
    let replacer = Replacer::replace(&mut text);
    (text, replacer)
}

#[test]
fn short_texts_are_left_alone() {
    assert_eq!(disguise("").0, "");
    assert_eq!(disguise("$$").0, "$$");
    assert_eq!(disguise("$$$$").0, "$$$$");
    assert_eq!(disguise("$$x$$").0, "``x``");
}

#[test]
fn delimiters_next_to_backticks_are_left_alone() {
    assert_eq!(disguise("a `$$ b $$` c").0, "a `$$ b $$` c");
    assert_eq!(disguise("a $$` b $$ c").0, "a $$` b `` c");
}

#[test]
fn delimiters_at_both_ends_and_beyond_ascii() {
    assert_eq!(disguise("$$é$$").0, "``é``");
    assert_eq!(disguise("–$$x$$–").0, "–``x``–");
    assert_eq!(disguise("ab $$").0, "ab ``");
}

#[test]
fn runs_of_dollar_signs() {
    assert_eq!(disguise("a $$$ b").0, "a ``$ b");
    assert_eq!(disguise("a $$$$ b").0, "a ``$$ b");
    assert_eq!(disguise("a $$$$$ b").0, "a ``$`` b");
}

#[test]
fn round_trip_restores_the_text() {
    for text in ["Text $$math$$ and $$more$$.", "$$$$$ x", "no math at all", "$$a$$", "a $$ b"] {
        let (disguised, mut replacer) = disguise(text);
        let len = disguised.len();
        assert_eq!(replacer.un_replace(disguised, 0..len), matched(text));
    }
}

#[test]
fn questions_in_increasing_order_are_answered_exactly() {
    let (_, mut replacer) = disguise("a $$b$$ c $$d$$ e");
    let answers: Vec<bool> = (0..=18).map(|pos| replacer.check_if_replacement_point(pos)).collect();
    let points: Vec<usize> = (0..=18).filter(|&pos| answers[pos]).collect();
    assert_eq!(points, vec![2, 5, 10, 13, 17]);
}

#[test]
fn a_lower_position_is_no_point_any_more() {
    let (_, mut replacer) = disguise("a $$b$$ c");
    assert!(replacer.check_if_replacement_point(5));
    assert!(!replacer.check_if_replacement_point(2));
    assert!(replacer.check_if_replacement_point(5));
}

#[test]
fn positions_beyond_the_text_are_no_points() {
    let (_, mut replacer) = disguise("a $$b$$ c");
    assert!(!replacer.check_if_replacement_point(100));
    assert!(!replacer.check_if_replacement_point(usize::MAX));
}

#[test]
fn un_replace_restores_only_inside_the_range() {
    let (disguised, mut replacer) = disguise("a $$b$$ c $$d$$ e");
    assert_eq!(disguised, "a ``b`` c ``d`` e");
    assert_eq!(replacer.un_replace(disguised[0..5].to_string(), 0..5), matched("a $$b"));
    assert_eq!(replacer.un_replace(disguised[5..9].to_string(), 5..9), matched("$$ c"));
    assert_eq!(replacer.un_replace(disguised[9..11].to_string(), 9..11), matched(" `"));
    assert_eq!(replacer.un_replace(disguised[11..].to_string(), 11..17), matched("`d$$ e"));
}

#[test]
fn un_replace_leaves_fragments_of_other_length_alone() {
    let (_, mut replacer) = disguise("a $$b$$ c");
    assert_eq!(replacer.un_replace("``b``".to_string(), 2..6), unmatched("``b``"));
    assert!(replacer.check_if_replacement_point(2));
    assert_eq!(replacer.un_replace("x".to_string(), 6..5), unmatched("x"));
    assert_eq!(replacer.un_replace("".to_string(), 6..5), matched(""));
}

#[test]
fn un_replace_fails_where_the_marker_is_missing() {
    let (_, mut replacer) = disguise("a $$b$$ c");
    assert_eq!(
        replacer.un_replace("a xxb`` c".to_string(), 0..9),
        Err(MarkerMismatch { offset: 2 })
    );
    let (_, mut replacer) = disguise("a $$b$$ c");
    assert_eq!(
        replacer.un_replace("a ``b`x c".to_string(), 0..9),
        Err(MarkerMismatch { offset: 5 })
    );
}

#[test]
fn un_replace_beyond_the_text_restores_nothing() {
    let (_, mut replacer) = disguise("a $$b$$ c");
    assert_eq!(replacer.un_replace("````".to_string(), 9..13), matched("````"));
    assert_eq!(replacer.un_replace("````".to_string(), 20..24), matched("````"));
}
