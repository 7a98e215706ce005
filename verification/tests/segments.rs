use crate_manager::grammar::contents_parser;
use crate_manager::matcher::Matcher;
use crate_manager::parser::{Descriptor, NestedParser, ParseError};
use crate_manager::segment::{same_list, Segment};
use crate_manager::text::{chars_of, string_of};
use crate_manager::PubType;

fn raw(text: &str) -> Segment {
    Segment::raw(chars_of(text))
}

fn node(name: &str, open: &str, children: Vec<Segment>, close: &str) -> Segment {
    Segment::new_code(chars_of(name), chars_of(open), children, chars_of(close))
}

fn sample() -> Segment {
    node(
        "root",
        "",
        vec![
            raw("a"),
            node("scope", "{", vec![raw("b"), Segment::leaf(chars_of("quote"), chars_of("\"c\""))], "}"),
            Segment::marker(chars_of("export"), PubType::Crate, vec![chars_of("X")]),
            raw("d"),
        ],
        "",
    )
}

#[test]
fn a_tree_is_written_out_in_document_order() {
    let tree = sample();
    assert_eq!(tree.to_string(), "a{b\"c\"}d");
    assert_eq!(string_of(&tree.serialize()), "a{b\"c\"}d");
    let mut out = chars_of("> ");
    tree.write_to(&mut out);
    assert_eq!(string_of(&out), "> a{b\"c\"}d");
}

#[test]
fn segments_have_the_names_of_their_types() {
    let tree = sample();
    assert_eq!(string_of(&tree.name()), "root");
    match &tree {
        Segment::Node { children, .. } => {
            assert_eq!(string_of(&children[0].name()), "");
            assert_eq!(string_of(&children[1].name()), "scope");
            assert_eq!(string_of(&children[2].name()), "export");
            assert!(children[0].is_named(&[]));
            assert!(children[1].is_named(&chars_of("scope")));
            assert!(!children[1].is_named(&chars_of("scop")));
        }
        _ => panic!("no node"),
    }
}

#[test]
fn flattening_gives_every_segment_with_its_depth() {
    let tree = sample();
    let flat: Vec<(usize, String)> =
        tree.flatten().iter().map(|(d, s)| (*d, s.to_string())).collect();
    assert_eq!(
        flat,
        vec![
            (0, "a{b\"c\"}d".to_string()),
            (1, "a".to_string()),
            (1, "{b\"c\"}".to_string()),
            (2, "b".to_string()),
            (2, "\"c\"".to_string()),
            (1, "".to_string()),
            (1, "d".to_string()),
        ]
    );
    assert_eq!(raw("x").flatten().len(), 1);
}

#[test]
fn filtering_keeps_what_the_predicate_holds_of() {
    let tree = sample();
    let marks = tree.filter(|depth, segment| {
        depth == 1 && matches!(segment, Segment::Marker { tier: PubType::Crate, .. })
    });
    assert_eq!(marks.len(), 1);
    assert_eq!(marks[0].0, 1);
    let deep: Vec<String> =
        tree.filter(|depth, _| depth == 2).iter().map(|(_, s)| s.to_string()).collect();
    assert_eq!(deep, vec!["b", "\"c\""]);
    assert!(tree.filter(|_, _| false).is_empty());
    assert_eq!(tree.filter(|_, _| true).len(), 7);
}

#[test]
fn a_file_exports_something_where_a_mark_stands_at_its_surface() {
    let parser = contents_parser();
    let public = |text: &str| {
        let tree = parser.parse_str(text).unwrap();
        !tree
            .filter(|depth, segment| {
                depth == 1 && matches!(segment, Segment::Marker { tier: PubType::Pub, .. })
            })
            .is_empty()
    };
    assert!(public("fn a() {}\npub fn b() {}\n"));
    assert!(!public("fn a() {}\nimpl A { pub fn b() {} }\n"));
    assert!(!public("pub(crate) fn a() {}\n"));
}

#[test]
fn children_are_replaced_by_range() {
    let mut tree = sample();
    assert!(tree.replace_children(1, 3, vec![raw("-"), raw("+")]));
    assert_eq!(tree.to_string(), "a-+d");
    assert!(tree.replace_children(4, 4, vec![raw("!")]));
    assert_eq!(tree.to_string(), "a-+d!");
    assert!(tree.replace_children(0, 5, vec![]));
    assert_eq!(tree.to_string(), "");
    let mut tree = sample();
    assert!(!tree.replace_children(3, 2, vec![raw("x")]));
    assert!(!tree.replace_children(0, 5, vec![raw("x")]));
    assert_eq!(tree.to_string(), "a{b\"c\"}d");
    let mut leaf = raw("x");
    assert!(!leaf.replace_children(0, 0, vec![raw("y")]));
    assert_eq!(leaf.to_string(), "x");
}

#[test]
fn trees_are_compared_by_structure() {
    let tree = sample();
    assert!(tree.same_as(&sample()));
    assert!(tree.same_as(&tree.copy()));
    // The same text in other segments is another tree.
    let other = node("root", "", vec![raw("a{b\"c\"}d")], "");
    assert_eq!(other.to_string(), tree.to_string());
    assert!(!tree.same_as(&other));
    assert!(!raw("a").same_as(&Segment::leaf(chars_of(""), chars_of("a"))));
    assert!(!Segment::marker(chars_of("m"), PubType::Pub, vec![chars_of("a")])
        .same_as(&Segment::marker(chars_of("m"), PubType::Super, vec![chars_of("a")])));
    assert!(!Segment::marker(chars_of("m"), PubType::Pub, vec![chars_of("a")])
        .same_as(&Segment::marker(chars_of("m"), PubType::Pub, vec![chars_of("a"), chars_of("b")])));
    assert!(same_list(&[raw("a"), raw("b")], &[raw("a"), raw("b")]));
    assert!(!same_list(&[raw("a"), raw("b")], &[raw("ab")]));
    assert!(!same_list(&[raw("a")], &[raw("a"), raw("")]));
    assert!(same_list(&[], &[]));
}

fn lisp() -> Vec<Descriptor> {
    vec![
        Descriptor::Verbatim {
            name: chars_of("comment"),
            open: chars_of(";"),
            close: chars_of("\n"),
            escape: None,
        },
        Descriptor::Verbatim {
            name: chars_of("string"),
            open: chars_of("'"),
            close: chars_of("'"),
            escape: Some('\\'),
        },
        Descriptor::Nested { name: chars_of("list"), open: chars_of("("), close: chars_of(")") },
    ]
}

#[test]
fn a_parser_works_with_the_descriptors_it_is_given() {
    let parser = NestedParser::new(&lisp(), 8);
    let text = "(a 'it\\'s )' (b) ; )\n)x";
    let tree = parser.parse(&chars_of(text)).unwrap();
    assert_eq!(tree.to_string(), text);
    let list = chars_of("list");
    let inner = tree.find_descendant_by_type_path(&[list.clone(), list.clone()]).unwrap();
    assert_eq!(inner.to_string(), "(b)");
    let string = tree.find_descendant_by_type_path(&[list, chars_of("string")]).unwrap();
    assert_eq!(string.to_string(), "'it\\'s )'");
}

#[test]
fn nesting_deeper_than_allowed_is_an_error() {
    let parser = NestedParser::new(&lisp(), 2);
    assert!(parser.parse(&chars_of("(())")).is_ok());
    assert_eq!(parser.parse(&chars_of("a((()))")).err(), Some(ParseError::TooDeep { at: 3 }));
    let flat = NestedParser::new(&lisp(), 0);
    assert!(flat.parse(&chars_of("no lists")).is_ok());
    assert_eq!(flat.parse(&chars_of(" ()")).err(), Some(ParseError::TooDeep { at: 1 }));
}

#[test]
fn a_declaration_without_identifier_is_an_error() {
    let descriptors = vec![Descriptor::Trigger {
        name: chars_of("export"),
        pattern: Matcher::named("pub_type", Matcher::new("pub")),
    }];
    let parser = NestedParser::new(&descriptors, 4);
    assert_eq!(
        parser.parse(&chars_of("x pub y")).err(),
        Some(ParseError::MissingCapture { at: 2 })
    );
    let descriptors = vec![Descriptor::Trigger {
        name: chars_of("export"),
        pattern: Matcher::named("identifier", Matcher::new("y")),
    }];
    let parser = NestedParser::new(&descriptors, 4);
    assert_eq!(
        parser.parse(&chars_of("x pub y")).err(),
        Some(ParseError::MissingCapture { at: 6 })
    );
}

#[test]
fn a_parser_without_descriptors_keeps_the_text_raw() {
    let parser = NestedParser::new(&vec![], 4);
    let tree = parser.parse(&chars_of("{ \" /*")).unwrap();
    assert!(tree.same_as(&node("root", "", vec![raw("{ \" /*")], "")));
}

#[test]
fn the_tree_of_a_text_is_no_higher_than_allowed() {
    let parser = NestedParser::new(&lisp(), 3);
    let tree = parser.parse(&chars_of("((()))")).unwrap();
    let deepest = tree.flatten().iter().map(|(d, _)| *d).max().unwrap();
    assert_eq!(deepest, 3);
}
