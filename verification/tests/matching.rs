use crate_manager::matcher::{CharClass, MatchResult, Matcher};
use crate_manager::text::{chars_of, string_of};

fn len_at(m: &Matcher, text: &str, pos: usize) -> Option<usize> {
    m.match_at(&chars_of(text), pos).map(|(n, _)| n)
}

fn spans(m: &Matcher, text: &str) -> Vec<(String, String)> {
    let (_, found) = m.match_text(&chars_of(text)).unwrap();
    found.iter().map(|r| (string_of(&r.name), string_of(&r.contents))).collect()
}

#[test]
fn a_literal_matches_its_text() {
    let m = Matcher::new("pub");
    assert_eq!(len_at(&m, "pub fn", 0), Some(3));
    assert_eq!(len_at(&m, "a pub", 2), Some(3));
    assert_eq!(len_at(&m, "pu", 0), None);
    assert_eq!(len_at(&m, "pxb", 0), None);
    assert_eq!(len_at(&m, "pub", 3), None);
}

#[test]
fn the_empty_literal_matches_everywhere() {
    let m = Matcher::new("");
    assert_eq!(len_at(&m, "abc", 0), Some(0));
    assert_eq!(len_at(&m, "abc", 3), Some(0));
}

#[test]
fn a_class_consumes_one_character() {
    let ws = Matcher::whitespace();
    assert_eq!(len_at(&ws, "  a", 0), Some(1));
    assert_eq!(len_at(&ws, "\u{2003}a", 0), Some(1));
    assert_eq!(len_at(&ws, "a  ", 0), None);
    assert_eq!(len_at(&ws, "", 0), None);
    let digit = Matcher::range('0', '9');
    assert_eq!(len_at(&digit, "0", 0), Some(1));
    assert_eq!(len_at(&digit, "9", 0), Some(1));
    assert_eq!(len_at(&digit, "/", 0), None);
    assert_eq!(len_at(&digit, ":", 0), None);
    let any = Matcher::Class(CharClass::Any);
    assert_eq!(len_at(&any, "é", 0), Some(1));
    assert_eq!(len_at(&any, "", 0), None);
}

#[test]
fn a_sequence_needs_every_part() {
    let m = Matcher::new("ab").followed_by(Matcher::new("cd"));
    assert_eq!(len_at(&m, "abcd", 0), Some(4));
    assert_eq!(len_at(&m, "abce", 0), None);
    assert_eq!(len_at(&m, "xabcd", 1), Some(4));
}

#[test]
fn a_choice_commits_to_the_first_branch_that_matches() {
    let choice = Matcher::new("a").or(Matcher::new("ab"));
    assert_eq!(len_at(&choice, "ab", 0), Some(1));
    // The second branch would let the sequence match; it is never tried.
    let m = Matcher::new("a").or(Matcher::new("ab")).followed_by(Matcher::new("c"));
    assert_eq!(len_at(&m, "abc", 0), None);
    assert_eq!(len_at(&m, "ac", 0), Some(2));
}

#[test]
fn negation_consumes_one_character_where_the_inner_does_not_match() {
    let m = Matcher::new("*/").not();
    assert_eq!(len_at(&m, "a*/", 0), Some(1));
    assert_eq!(len_at(&m, "*a", 0), Some(1));
    assert_eq!(len_at(&m, "*/", 0), None);
    assert_eq!(len_at(&m, "", 0), None);
}

#[test]
fn optional_matches_nothing_where_the_inner_fails() {
    let m = Matcher::optional(Matcher::new("ab"));
    assert_eq!(len_at(&m, "abab", 0), Some(2));
    assert_eq!(len_at(&m, "ba", 0), Some(0));
}

#[test]
fn repetition_is_greedy() {
    let m = Matcher::optional_repeat_max(Matcher::new("ab"));
    assert_eq!(len_at(&m, "ababa", 0), Some(4));
    assert_eq!(len_at(&m, "x", 0), Some(0));
    // Greedy and without backtracking: the repetition takes every `a`, and
    // none is left for what follows.
    let stuck = Matcher::optional_repeat_max(Matcher::new("a")).followed_by(Matcher::new("a"));
    assert_eq!(len_at(&stuck, "aaa", 0), None);
}

#[test]
fn repetition_keeps_to_its_bounds() {
    let at_least_one = Matcher::repeat_max(Matcher::new("a"));
    assert_eq!(len_at(&at_least_one, "aaab", 0), Some(3));
    assert_eq!(len_at(&at_least_one, "b", 0), None);
    let at_most_two =
        Matcher::Repeat { inner: Box::new(Matcher::new("a")), min: 0, max: Some(2) };
    assert_eq!(len_at(&at_most_two, "aaaa", 0), Some(2));
    let two_to_three =
        Matcher::Repeat { inner: Box::new(Matcher::new("a")), min: 2, max: Some(3) };
    assert_eq!(len_at(&two_to_three, "a", 0), None);
    assert_eq!(len_at(&two_to_three, "aa", 0), Some(2));
    assert_eq!(len_at(&two_to_three, "aaaaa", 0), Some(3));
}

#[test]
fn a_round_that_consumes_nothing_ends_the_repetition() {
    let m = Matcher::optional_repeat_max(Matcher::optional(Matcher::new("a")));
    assert_eq!(len_at(&m, "aab", 0), Some(2));
    assert_eq!(len_at(&m, "b", 0), Some(0));
}

#[test]
fn named_spans_are_kept_in_order_and_nested() {
    let word = |name: &str, text: &str| Matcher::named(name, Matcher::new(text));
    let m = Matcher::named(
        "outer",
        word("first", "ab").followed_by(Matcher::new("-")).followed_by(word("second", "cd")),
    )
    .followed_by(word("after", "!"));
    assert_eq!(
        spans(&m, "ab-cd!"),
        vec![("outer".to_string(), "ab-cd".to_string()), ("after".to_string(), "!".to_string())]
    );
    let (n, found) = m.match_text(&chars_of("ab-cd!")).unwrap();
    assert_eq!(n, 6);
    let outer: &MatchResult = &found[0];
    assert_eq!(outer.length(), 5);
    let inner: Vec<String> = outer.children.iter().map(|r| string_of(&r.name)).collect();
    assert_eq!(inner, vec!["first", "second"]);
    let second = outer.find_child_by_type_path(&[chars_of("second")]).unwrap();
    assert_eq!(string_of(&second.contents), "cd");
    assert!(outer.find_child_by_type_path(&[chars_of("third")]).is_none());
    assert!(outer.find_child_by_type_path(&[chars_of("first"), chars_of("x")]).is_none());
    assert_eq!(string_of(&outer.find_child_by_type_path(&[]).unwrap().contents), "ab-cd");
}

#[test]
fn spans_of_a_branch_that_failed_are_dropped() {
    let m = Matcher::named("a", Matcher::new("x"))
        .followed_by(Matcher::new("1"))
        .or(Matcher::named("b", Matcher::new("x")).followed_by(Matcher::new("2")));
    assert_eq!(spans(&m, "x2"), vec![("b".to_string(), "x".to_string())]);
}

fn braces(skip: Matcher) -> Matcher {
    Matcher::Scope { open: chars_of("{"), close: chars_of("}"), skip: Box::new(skip) }
}

#[test]
fn a_scope_is_balanced() {
    let m = braces(Matcher::new("").not());
    assert_eq!(len_at(&m, "{}", 0), Some(2));
    assert_eq!(len_at(&m, "{a{b}c}d}", 0), Some(7));
    assert_eq!(len_at(&m, "x{a}", 1), Some(3));
    assert_eq!(len_at(&m, "a{}", 0), None);
    assert_eq!(len_at(&m, "{a{b}c", 0), None);
    assert_eq!(len_at(&m, "{", 0), None);
}

#[test]
fn a_scope_passes_over_what_it_is_told_to_skip() {
    let string = Matcher::new("\"")
        .followed_by(Matcher::optional_repeat_max(Matcher::new("\"").not()))
        .followed_by(Matcher::new("\""));
    let m = braces(string);
    assert_eq!(len_at(&m, "{ \"}\" }x", 0), Some(7));
    assert_eq!(len_at(&m, "{ \"{\" }x", 0), Some(7));
    // A string that never ends is no string: its characters count.
    assert_eq!(len_at(&m, "{ \" }x", 0), Some(5));
}

#[test]
fn a_scope_with_longer_delimiters() {
    let m = Matcher::Scope {
        open: chars_of("begin"),
        close: chars_of("end"),
        skip: Box::new(Matcher::new("").not()),
    };
    assert_eq!(len_at(&m, "begin a begin b end c end d", 0), Some(25));
    assert_eq!(len_at(&m, "begin a", 0), None);
}

#[test]
fn a_copy_matches_as_the_matcher_it_was_made_from() {
    let m = Matcher::named("n", Matcher::repeat_max(Matcher::range('a', 'c')))
        .followed_by(Matcher::optional(Matcher::new("!")));
    let copy = m.copy();
    for text in ["abc!", "abcd", "", "!", "cab"] {
        assert_eq!(len_at(&m, text, 0), len_at(&copy, text, 0));
    }
    assert_eq!(len_at(&copy, "abc!", 0), Some(4));
}

#[test]
fn nothing_matches_behind_the_text() {
    let m = Matcher::optional(Matcher::new("a"));
    assert_eq!(len_at(&m, "a", 1), Some(0));
    assert_eq!(len_at(&m, "a", 2), None);
    assert_eq!(len_at(&Matcher::new(""), "a", 2), None);
}
