use json2arkdown::text::{chars_of, collapse_hash_runs, is_space, split_at_period};

#[test]
fn abbreviation_after_dr_and_home() {
    assert_eq!(
        split_at_period("Dr. Smith went home. He was tired.", ""),
        Some("Dr\n\nSmith went home\n\nHe was tired.\n\n".to_string())
    );
}

#[test]
fn initials_are_not_split() {
    assert_eq!(
        split_at_period("Born in the U. S. A. long ago. Then left.", ""),
        Some("Born in the U. S. A\n\nlong ago\n\nThen left.\n\n".to_string())
    );
}

#[test]
fn initial_after_several_spaces_is_not_split() {
    assert_eq!(split_at_period("x.  B.", ""), None);
    assert_eq!(split_at_period("x. \t B. y", ""), Some("x. \t B\n\ny\n\n".to_string()));
    assert_eq!(split_at_period("x.  Bo.", ""), Some("x\n\nBo.\n\n".to_string()));
}

#[test]
fn reflow_without_break_is_none() {
    assert_eq!(split_at_period("no sentence breaks here", "  "), None);
    assert_eq!(split_at_period("ends with a period.", "  "), None);
    assert_eq!(split_at_period("", ""), None);
}

#[test]
fn reflow_indents_and_trims_each_paragraph() {
    assert_eq!(split_at_period("One.   Two.\tThree", " "), Some(" One\n\n Two\n\n Three\n\n".to_string()));
}

#[test]
fn collapse_cuts_runs_to_six() {
    assert_eq!(collapse_hash_runs("#######"), "######");
    assert_eq!(collapse_hash_runs("a##############b###"), "a######b###");
    assert_eq!(collapse_hash_runs("######"), "######");
    assert_eq!(collapse_hash_runs(""), "");
}

#[test]
fn whitespace_matches_std() {
    for c in ['\t', '\n', ' ', '\u{a0}', '\u{2003}', '\u{3000}', 'a', '.', '\u{200b}'] {
        assert_eq!(is_space(c), c.is_whitespace());
    }
}

#[test]
fn chars_of_keeps_every_char() {
    assert_eq!(chars_of("héllo"), vec!['h', 'é', 'l', 'l', 'o']);
}
