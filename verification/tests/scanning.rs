use crate_manager::matcher::Matcher;
use crate_manager::scanner::{MatcherSet, Scanner};
use crate_manager::text::{chars_of, string_of};

fn digits_and_words() -> MatcherSet {
    MatcherSet::new()
        .with_matcher("number", Matcher::repeat_max(Matcher::range('0', '9')))
        .with_matcher("word", Matcher::repeat_max(Matcher::range('a', 'z')))
}

fn found(set: &MatcherSet, text: &str) -> Vec<(usize, String, String)> {
    set.find_matches(&chars_of(text))
        .iter()
        .map(|(at, r)| (*at, string_of(&r.name), string_of(&r.contents)))
        .collect()
}

#[test]
fn a_scan_classifies_from_left_to_right() {
    let set = digits_and_words();
    assert_eq!(
        found(&set, "ab 12-c"),
        vec![
            (0, "word".to_string(), "ab".to_string()),
            (3, "number".to_string(), "12".to_string()),
            (6, "word".to_string(), "c".to_string()),
        ]
    );
    assert_eq!(found(&set, ""), vec![]);
    assert_eq!(found(&set, " -- "), vec![]);
}

#[test]
fn the_first_entry_that_matches_wins() {
    let set = MatcherSet::new()
        .with_matcher("short", Matcher::new("a"))
        .with_matcher("long", Matcher::new("ab"));
    assert_eq!(
        found(&set, "ab"),
        vec![(0, "short".to_string(), "a".to_string())]
    );
    let set = MatcherSet::new()
        .with_matcher("long", Matcher::new("ab"))
        .with_matcher("short", Matcher::new("a"));
    assert_eq!(
        found(&set, "aba"),
        vec![(0, "long".to_string(), "ab".to_string()), (2, "short".to_string(), "a".to_string())]
    );
}

#[test]
fn comments_before_scopes() {
    let comment = || {
        Matcher::new("//")
            .followed_by(Matcher::optional_repeat_max(Matcher::new("\n").not()))
            .followed_by(Matcher::new("\n"))
    };
    let scope = || Matcher::Scope {
        open: chars_of("{"),
        close: chars_of("}"),
        skip: Box::new(Matcher::new("").not()),
    };
    let right = MatcherSet::new().with_matcher("comment", comment()).with_matcher("scope", scope());
    assert_eq!(
        found(&right, "// {\n{}"),
        vec![
            (0, "comment".to_string(), "// {\n".to_string()),
            (5, "scope".to_string(), "{}".to_string()),
        ]
    );
}

#[test]
fn an_empty_match_is_handed_out_and_stepped_over() {
    let set = MatcherSet::new().with_matcher("maybe", Matcher::optional(Matcher::new("a")));
    assert_eq!(
        found(&set, "ba"),
        vec![(0, "maybe".to_string(), "".to_string()), (1, "maybe".to_string(), "a".to_string())]
    );
}

#[test]
fn a_scan_can_be_taken_up_again() {
    let set = digits_and_words();
    let text = chars_of("ab 12 cd");
    let mut scanner = Scanner::new();
    let (at, first) = scanner.next(&set, &text).unwrap();
    assert_eq!((at, string_of(&first.contents)), (0, "ab".to_string()));
    assert_eq!(scanner.cursor, 2);
    let mut later = Scanner::at(scanner.cursor);
    let (at, second) = later.next(&set, &text).unwrap();
    assert_eq!((at, string_of(&second.contents)), (3, "12".to_string()));
    let (at, third) = later.next(&set, &text).unwrap();
    assert_eq!((at, string_of(&third.contents)), (6, "cd".to_string()));
    assert!(later.next(&set, &text).is_none());
    assert_eq!(later.cursor, 8);
    assert!(later.next(&set, &text).is_none());
    // The first scanner still stands where it stood.
    let (at, _) = scanner.next(&set, &text).unwrap();
    assert_eq!(at, 3);
}

#[test]
fn match_at_tells_which_entry_won() {
    let set = digits_and_words();
    let text = chars_of("a1");
    let (index, node) = set.match_at(&text, 0).unwrap();
    assert_eq!((index, string_of(&node.name)), (1, "word".to_string()));
    let (index, node) = set.match_at(&text, 1).unwrap();
    assert_eq!((index, string_of(&node.name)), (0, "number".to_string()));
    assert!(set.match_at(&text, 2).is_none());
}

#[test]
fn a_scan_from_behind_the_text_finds_nothing() {
    let set = digits_and_words();
    let text = chars_of("ab");
    assert!(set.match_at(&text, 3).is_none());
    let mut scanner = Scanner::at(9);
    assert!(scanner.next(&set, &text).is_none());
    assert_eq!(scanner.cursor, 9);
}
