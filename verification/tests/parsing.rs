use crate_manager::grammar::contents_parser;
use crate_manager::parser::ParseError;
use crate_manager::pub_type::PubType;
use crate_manager::segment::Segment;
use crate_manager::text::{chars_of, string_of};

fn parsed(text: &str) -> Segment {
    contents_parser().parse_str(text).unwrap()
}

fn children_of(tree: &Segment) -> &Vec<Segment> {
    match tree {
        Segment::Node { children, .. } => children,
        _ => panic!("no node"),
    }
}

#[test]
fn round_trip_of_a_source_file() {
    let text = "//! docs\nuse std::fmt;\n\n/// A thing.\npub struct Thing { a: u8 }\n\nimpl Thing {\n    pub fn new() -> Thing { Thing { a: 0 } } // trailing\n}\n/* block { */\nconst S: &str = \"a \\\" { b\";\n";
    let tree = parsed(text);
    assert_eq!(tree.to_string(), text);
    assert_eq!(string_of(&tree.serialize()), text);
}

#[test]
fn round_trip_of_the_empty_text() {
    let tree = parsed("");
    assert_eq!(tree.to_string(), "");
    assert_eq!(children_of(&tree).len(), 0);
}

#[test]
fn root_is_a_node_without_delimiters() {
    let tree = parsed("abc");
    match &tree {
        Segment::Node { name, open, children, close } => {
            assert_eq!(string_of(name), "root");
            assert!(open.is_empty());
            assert!(close.is_empty());
            assert_eq!(children.len(), 1);
            match &children[0] {
                Segment::Raw { text } => assert_eq!(string_of(text), "abc"),
                _ => panic!("no raw text"),
            }
        }
        _ => panic!("no node"),
    }
}

#[test]
fn strings_in_a_scope_do_not_count() {
    let text = "fn f() { let s = \"// not a comment\"; let t = \"{ not a brace }\"; }\nfn g() {}";
    let tree = parsed(text);
    let children = children_of(&tree);
    assert_eq!(children.len(), 4);
    assert_eq!(children[0].to_string(), "fn f() ");
    assert_eq!(
        children[1].to_string(),
        "{ let s = \"// not a comment\"; let t = \"{ not a brace }\"; }"
    );
    assert_eq!(children[2].to_string(), "\nfn g() ");
    assert_eq!(children[3].to_string(), "{}");
    // Inside the scope the two strings are leaves of their own.
    let inner = children_of(&children[1]);
    let quotes: Vec<String> = inner
        .iter()
        .filter(|s| s.is_named(&chars_of("quote")))
        .map(|s| s.to_string())
        .collect();
    assert_eq!(quotes, vec!["\"// not a comment\"", "\"{ not a brace }\""]);
    assert_eq!(tree.to_string(), text);
}

#[test]
fn comments_in_a_scope_do_not_count() {
    let text = "mod a { // }\n /* } */ }x";
    let tree = parsed(text);
    let children = children_of(&tree);
    assert_eq!(children.len(), 3);
    assert_eq!(children[1].to_string(), "{ // }\n /* } */ }");
    assert_eq!(children[2].to_string(), "x");
}

#[test]
fn nested_scopes_become_nested_nodes() {
    let tree = parsed("a{b{c}d}e");
    let children = children_of(&tree);
    assert_eq!(children.len(), 3);
    let outer = children_of(&children[1]);
    assert_eq!(outer.len(), 3);
    assert_eq!(outer[0].to_string(), "b");
    assert_eq!(outer[1].to_string(), "{c}");
    assert_eq!(outer[2].to_string(), "d");
    let flat = tree.flatten();
    let depths: Vec<usize> = flat.iter().map(|(d, _)| *d).collect();
    assert_eq!(depths, vec![0, 1, 1, 2, 2, 3, 2, 1]);
}

#[test]
fn declarations_leave_marks() {
    let text = "pub fn Foo() {}\npub(crate) const BAR: u8 = 1;\npub(super) struct Baz;\nfn hidden() {}\n";
    let tree = parsed(text);
    let marks: Vec<(PubType, String)> = children_of(&tree)
        .iter()
        .filter_map(|s| match s {
            Segment::Marker { tier, identifiers, .. } => {
                Some((*tier, identifiers.iter().map(|i| string_of(i)).collect::<Vec<_>>().join(",")))
            }
            _ => None,
        })
        .collect();
    assert_eq!(
        marks,
        vec![
            (PubType::Pub, "Foo".to_string()),
            (PubType::Crate, "BAR".to_string()),
            (PubType::Super, "Baz".to_string()),
        ]
    );
    assert_eq!(tree.to_string(), text);
}

#[test]
fn marks_have_no_text() {
    let tree = parsed("pub fn a() {}");
    let children = children_of(&tree);
    assert!(matches!(children[0], Segment::Marker { .. }));
    assert_eq!(children[0].to_string(), "");
    assert_eq!(children[1].to_string(), "pub fn a() ");
}

#[test]
fn an_open_scope_is_an_error() {
    let r = contents_parser().parse_str("fn f() { let a = 1;");
    assert_eq!(r.err(), Some(ParseError::Unterminated { at: 7 }));
}

#[test]
fn an_open_string_is_an_error() {
    let r = contents_parser().parse_str("let a = \"abc;\n");
    assert_eq!(r.err(), Some(ParseError::Unterminated { at: 8 }));
}

#[test]
fn an_open_comment_is_an_error() {
    let r = contents_parser().parse_str("a /* b");
    assert_eq!(r.err(), Some(ParseError::Unterminated { at: 2 }));
    let r = contents_parser().parse_str("a // b");
    assert_eq!(r.err(), Some(ParseError::Unterminated { at: 2 }));
}

#[test]
fn an_error_inside_a_scope_has_its_offset_in_the_whole_text() {
    // The string opens at offset 1 of the scope's inside, which is offset 4
    // of the text.
    let r = contents_parser().parse_str("ab{ \"x }");
    assert_eq!(r.err(), Some(ParseError::Unterminated { at: 4 }));
}

#[test]
fn path_lookup_takes_the_first_child_of_each_name() {
    let tree = parsed("{a{b}}{c}");
    let scope = chars_of("scope");
    let found = tree.find_descendant_by_type_path(&[scope.clone(), scope.clone()]).unwrap();
    assert_eq!(found.to_string(), "{b}");
    assert!(tree
        .find_descendant_by_type_path(&[scope.clone(), scope.clone(), scope.clone()])
        .is_none());
    let first = tree.find_descendant_by_type_path(&[scope]).unwrap();
    assert_eq!(first.to_string(), "{a{b}}");
}

fn marks_of(text: &str) -> Vec<(PubType, Vec<String>)> {
    let tree = parsed(text);
    children_of(&tree)
        .iter()
        .filter_map(|s| match s {
            Segment::Marker { tier, identifiers, .. } => {
                Some((*tier, identifiers.iter().map(|i| string_of(i)).collect()))
            }
            _ => None,
        })
        .collect()
}

#[test]
fn re_exports_declare_what_stands_at_the_end_of_their_path() {
    assert_eq!(marks_of("pub use a::b::C;\n"), vec![(PubType::Pub, vec!["C".to_string()])]);
    assert_eq!(marks_of("pub use d;\n"), vec![(PubType::Pub, vec!["d".to_string()])]);
    assert_eq!(
        marks_of("pub(crate) use a::{B, c ,D,};\n"),
        vec![(PubType::Crate, vec!["B".to_string(), "c".to_string(), "D".to_string()])]
    );
    assert_eq!(
        marks_of("pub(super) use leaf::{K};\n"),
        vec![(PubType::Super, vec!["K".to_string()])]
    );
}

#[test]
fn re_exports_that_name_nothing_leave_no_mark() {
    assert_eq!(marks_of("pub use a::*;\n"), vec![]);
    assert_eq!(marks_of("pub use a::{b::C};\n"), vec![]);
    assert_eq!(marks_of("pub use a::{};\n"), vec![]);
    assert_eq!(marks_of("use a::B;\n"), vec![]);
    // The text is kept all the same.
    let text = "pub use a::*;\npub use a::{b::C};\n";
    assert_eq!(parsed(text).to_string(), text);
}

#[test]
fn every_keyword_starts_a_declaration() {
    for keyword in
        ["struct", "enum", "fn", "trait", "impl", "mod", "const", "static", "type", "crate", "macro"]
    {
        let text = format!("pub {} Name rest", keyword);
        assert_eq!(marks_of(&text), vec![(PubType::Pub, vec!["Name".to_string()])], "{}", keyword);
    }
    assert_eq!(marks_of("pub union Name"), vec![]);
    assert_eq!(marks_of("pub fnName"), vec![]);
    assert_eq!(marks_of("pubfn Name"), vec![]);
    assert_eq!(marks_of("pub fn 9name"), vec![]);
}
