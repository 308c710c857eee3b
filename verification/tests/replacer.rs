use bluepaper_core::preprocess::{Replacer, Restored};

#[test]
fn replacer() {
    let mut markdown = "Text $$math$$ text ``code in double carets`` text.\n\
                        A costs $1 and B costs $3 and ``it's all $$ expensive''."
        .to_string();
    let mut replacer = Replacer::replace(&mut markdown);

    assert_eq!(
        markdown,
        "Text ``math`` text ``code in double carets`` text.\n\
         A costs $1 and B costs $3 and ``it's all `` expensive''."
    );

    assert!(replacer.check_if_replacement_point(5));
    assert!(replacer.check_if_replacement_point(11));
    assert!(!replacer.check_if_replacement_point(5));
    assert!(!replacer.check_if_replacement_point(19));

    assert_eq!(
        replacer.un_replace(markdown[51..].to_string(), 51..markdown.len()),
        Ok(Restored {
            text: "A costs $1 and B costs $3 and ``it's all $$ expensive''.".to_string(),
            ambiguous: false,
        })
    );
}
