use crate_manager::grammar::contents_parser;
use crate_manager::segment::Segment;
use crate_manager::synthesizer::{synthesize, Candidate};
use crate_manager::text::{chars_of, string_of};

fn tree_of(text: &str) -> Segment {
    contents_parser().parse_str(text).unwrap()
}

fn sibling(name: &str, text: &str) -> Candidate {
    Candidate { name: chars_of(name), tree: tree_of(text) }
}

#[test]
fn end_to_end_example() {
    let parser = contents_parser();
    let mut module = tree_of("//! The root.\nfn main() {}\n\n// auto-exports\n");
    let siblings = vec![
        sibling("sibling_file", "pub fn Foo() {}\npub(crate) const BAR: u8 = 0;\n"),
        sibling("sibling_dir", "fn private() {}\n"),
    ];
    let block = synthesize(&mut module, &siblings, true, &parser).unwrap();
    assert_eq!(
        string_of(&block),
        "mod sibling_file;\nmod sibling_dir;\npub use sibling_file::{Foo};\npub(crate) use sibling_file::{BAR};\n"
    );
    assert_eq!(
        module.to_string(),
        "//! The root.\nfn main() {}\n\n// auto-exports\nmod sibling_file;\nmod sibling_dir;\npub use sibling_file::{Foo};\npub(crate) use sibling_file::{BAR};\n"
    );
}

#[test]
fn longer_names_come_first() {
    let parser = contents_parser();
    let mut module = tree_of("// auto-exports\n");
    let siblings = vec![sibling("a", ""), sibling("ab", ""), sibling("abc", "")];
    let block = synthesize(&mut module, &siblings, false, &parser).unwrap();
    assert_eq!(string_of(&block), "mod abc;\nmod ab;\nmod a;\n");
}

#[test]
fn names_of_one_length_keep_their_order() {
    let parser = contents_parser();
    let mut module = tree_of("// auto-exports\n");
    let siblings = vec![sibling("bb", ""), sibling("c", ""), sibling("aa", ""), sibling("ddd", "")];
    let block = synthesize(&mut module, &siblings, false, &parser).unwrap();
    assert_eq!(string_of(&block), "mod ddd;\nmod bb;\nmod aa;\nmod c;\n");
}

#[test]
fn a_root_file_does_not_export_for_the_parent() {
    let parser = contents_parser();
    let mut module = tree_of("// auto-exports\n");
    let siblings = vec![sibling("inner", "pub(super) fn only_for_parent() {}\n")];
    let block = synthesize(&mut module, &siblings, true, &parser).unwrap();
    assert_eq!(string_of(&block), "mod inner;\n");
}

#[test]
fn another_file_exports_for_the_parent() {
    let parser = contents_parser();
    let mut module = tree_of("// auto-exports\n");
    let siblings = vec![sibling("inner", "pub(super) fn only_for_parent() {}\n")];
    let block = synthesize(&mut module, &siblings, false, &parser).unwrap();
    assert_eq!(string_of(&block), "mod inner;\npub(super) use inner::{only_for_parent};\n");
}

#[test]
fn a_second_run_changes_nothing() {
    let parser = contents_parser();
    let mut module = tree_of("fn a() {}\n// auto-exports\nmod old;\n");
    let siblings = vec![sibling("one", "pub struct A;\npub trait B {}\n")];
    let first = synthesize(&mut module, &siblings, false, &parser);
    assert_eq!(
        first.map(|b| string_of(&b)),
        Some("mod one;\npub use one::{A, B};\n".to_string())
    );
    let text = module.to_string();
    assert_eq!(text, "fn a() {}\n// auto-exports\nmod one;\npub use one::{A, B};\n");
    assert!(synthesize(&mut module, &siblings, false, &parser).is_none());
    assert_eq!(module.to_string(), text);
    // Nor does a run on the text as it is read back.
    let mut again = tree_of(&text);
    assert!(synthesize(&mut again, &siblings, false, &parser).is_none());
}

#[test]
fn a_file_without_the_marker_is_left_alone() {
    let parser = contents_parser();
    let text = "fn a() {}\n// not the marker\n/// auto-exports\n";
    let mut module = tree_of(text);
    let siblings = vec![sibling("one", "pub struct A;\n")];
    assert!(synthesize(&mut module, &siblings, false, &parser).is_none());
    assert_eq!(module.to_string(), text);
    assert!(module.same_as(&tree_of(text)));
}

#[test]
fn a_marker_inside_a_scope_does_not_count() {
    let parser = contents_parser();
    let text = "mod m {\n// auto-exports\n}\n";
    let mut module = tree_of(text);
    assert!(synthesize(&mut module, &vec![sibling("one", "")], false, &parser).is_none());
    assert_eq!(module.to_string(), text);
}

#[test]
fn what_stands_before_the_marker_is_kept() {
    let parser = contents_parser();
    let head = "/* by hand */\npub fn kept() { let s = \"{\"; }\n//auto-exports   \n";
    let mut module = tree_of(&format!("{}mod gone;\npub use gone::{{X}};\n", head));
    let block = synthesize(&mut module, &vec![], false, &parser).unwrap();
    assert_eq!(string_of(&block), "");
    assert_eq!(module.to_string(), head);
}

#[test]
fn an_identifier_is_exported_once() {
    let parser = contents_parser();
    let mut module = tree_of("// auto-exports\n");
    let siblings = vec![sibling("twice", "pub fn f() {}\npub fn g() {}\npub fn f() {}\n")];
    let block = synthesize(&mut module, &siblings, false, &parser).unwrap();
    assert_eq!(string_of(&block), "mod twice;\npub use twice::{f, g};\n");
}

#[test]
fn declarations_inside_scopes_are_not_exported() {
    let parser = contents_parser();
    let mut module = tree_of("// auto-exports\n");
    let siblings = vec![sibling("deep", "impl A {\n    pub fn inner() {}\n}\npub struct A;\n")];
    let block = synthesize(&mut module, &siblings, false, &parser).unwrap();
    assert_eq!(string_of(&block), "mod deep;\npub use deep::{A};\n");
}

#[test]
fn re_exports_of_a_sibling_are_passed_on() {
    let parser = contents_parser();
    let mut module = tree_of("// auto-exports\n");
    let siblings = vec![sibling(
        "inner",
        "// auto-exports\nmod leaf;\npub use leaf::{A, B};\npub(crate) use leaf::{C};\n",
    )];
    let block = synthesize(&mut module, &siblings, false, &parser).unwrap();
    assert_eq!(
        string_of(&block),
        "mod inner;\npub use inner::{A, B};\npub(crate) use inner::{C};\n"
    );
}
