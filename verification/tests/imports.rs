use crate_manager::grammar::imports_exports_parser;
use crate_manager::import_export_updater::{
    is_mod_path, module_name_of, stem_of, ImportExportUpdater,
};
use crate_manager::imports_and_exports::collect_items;
use crate_manager::matcher::Matcher;
use crate_manager::parser::ParseError;
use crate_manager::scanner::MatcherSet;
use crate_manager::text::{chars_of, string_of};
use crate_manager::PubType;

fn names(text: &str) -> Vec<(usize, String, String)> {
    imports_exports_parser()
        .find_matches(&chars_of(text))
        .iter()
        .map(|(at, r)| (*at, string_of(&r.name), string_of(&r.contents)))
        .collect()
}

#[test]
fn the_grammar_names_what_it_finds() {
    assert_eq!(
        names("mod a;\npub use b::C;\npub fn d() { \"}\" }\n// auto-exports\n/* x */\"s\""),
        vec![
            (0, "import".to_string(), "mod a".to_string()),
            (7, "import".to_string(), "pub use b::C".to_string()),
            (21, "export".to_string(), "pub fn d".to_string()),
            (32, "scope".to_string(), "{ \"}\" }".to_string()),
            (40, "auto_exports_trigger".to_string(), "// auto-exports".to_string()),
            (56, "comment".to_string(), "/* x */".to_string()),
            (63, "string".to_string(), "\"s\"".to_string()),
        ]
    );
}

#[test]
fn the_grammar_has_seven_entries() {
    let set = imports_exports_parser();
    let names: Vec<String> = set.entries.iter().map(|e| string_of(&e.name)).collect();
    assert_eq!(
        names,
        vec!["import", "import", "export", "auto_exports_trigger", "string", "comment", "scope"]
    );
}

#[test]
fn items_are_collected_in_document_order() {
    let set = imports_exports_parser();
    let text = "mod one;\npub(crate) mod two;\nuse x::y;\npub struct A;\npub(super) fn b() {}\npub( crate ) const C: u8 = 0;\n// auto-exports\n";
    let items = collect_items(&set, &chars_of(text)).unwrap();
    let imports: Vec<(Option<PubType>, String, String)> = items
        .imports
        .iter()
        .map(|i| (i.pub_type, string_of(&i.struct_type), string_of(&i.identifier)))
        .collect();
    assert_eq!(
        imports,
        vec![
            (None, "mod".to_string(), "one".to_string()),
            (Some(PubType::Crate), "mod".to_string(), "two".to_string()),
            (None, "use".to_string(), "x::y".to_string()),
        ]
    );
    let exports: Vec<(Option<PubType>, String, String)> = items
        .exports
        .iter()
        .map(|e| (e.pub_type, string_of(&e.struct_type), string_of(&e.identifier)))
        .collect();
    assert_eq!(
        exports,
        vec![
            (Some(PubType::Pub), "struct".to_string(), "A".to_string()),
            (Some(PubType::Super), "fn".to_string(), "b".to_string()),
            (Some(PubType::Crate), "const".to_string(), "C".to_string()),
        ]
    );
    assert_eq!(items.trigger, Some(text.find("// auto-exports").unwrap()));
}

#[test]
fn what_stands_in_scopes_strings_and_comments_is_not_collected() {
    let set = imports_exports_parser();
    let text = "impl A { pub fn inner() {} }\n// pub fn commented() {}\n\"pub fn quoted\"\npub fn real() {}\n";
    let items = collect_items(&set, &chars_of(text)).unwrap();
    let exports: Vec<String> = items.exports.iter().map(|e| string_of(&e.identifier)).collect();
    assert_eq!(exports, vec!["real"]);
    assert!(items.trigger.is_none());
}

#[test]
fn the_last_marker_comment_counts() {
    let set = imports_exports_parser();
    let items = collect_items(&set, &chars_of("//auto-exports\nx\n//   auto-exports")).unwrap();
    assert_eq!(items.trigger, Some(17));
}

#[test]
fn an_export_without_identifier_is_an_error() {
    // A set whose exports have a kind and no identifier.
    let set = MatcherSet::new()
        .with_matcher("export", Matcher::named("export_type", Matcher::new("fn")));
    let r = collect_items(&set, &chars_of("ab fn"));
    assert_eq!(r.err(), Some(ParseError::MissingCapture { at: 3 }));
}

#[test]
fn module_names_come_from_paths() {
    let name = |p: &str| string_of(&module_name_of(&chars_of(p)));
    assert_eq!(name("src/a/thing.rs"), "thing");
    assert_eq!(name("src/a/mod.rs"), "a");
    assert_eq!(name("pkg/src/lib.rs"), "src");
    assert_eq!(name("thing.rs"), "thing");
    assert_eq!(name("mod.rs"), "");
    assert_eq!(name("src/a.b.rs"), "a.b");
    assert_eq!(name("src/plain"), "plain");
    assert_eq!(string_of(&stem_of(&chars_of("a.tar.gz"))), "a.tar");
    assert_eq!(string_of(&stem_of(&chars_of(".hidden"))), "");
    assert_eq!(string_of(&stem_of(&chars_of("none"))), "none");
    assert!(is_mod_path(&chars_of("src/lib.rs")));
    assert!(is_mod_path(&chars_of("src/x/mod.rs")));
    assert!(is_mod_path(&chars_of("mod.rs")));
    assert!(!is_mod_path(&chars_of("src/x/modx.rs")));
    assert!(!is_mod_path(&chars_of("src/mod.rs/x.rs")));
}

fn scanned(path: &str, text: &str) -> ImportExportUpdater {
    let set = imports_exports_parser();
    let mut u = ImportExportUpdater::new(path);
    u.scan(&chars_of(text), &set).unwrap();
    u
}

#[test]
fn a_new_updater_has_nothing_collected() {
    let u = ImportExportUpdater::new("src/lib.rs");
    assert_eq!(u.file, "src/lib.rs");
    assert!(u.is_mod_file);
    assert!(!u.parsed);
    assert!(u.items.imports.is_empty());
    assert!(u.items.exports.is_empty());
    assert!(u.items.trigger.is_none());
    assert!(u.sub_finders.is_empty());
    assert!(!ImportExportUpdater::new("src/a.rs").is_mod_file);
}

#[test]
fn scanning_happens_once() {
    let set = imports_exports_parser();
    let mut u = ImportExportUpdater::new("src/a.rs");
    u.scan(&chars_of("pub fn one() {}\n"), &set).unwrap();
    assert!(u.parsed);
    assert_eq!(u.items.exports.len(), 1);
    u.scan(&chars_of("pub fn one() {}\npub fn two() {}\n"), &set).unwrap();
    assert_eq!(u.items.exports.len(), 1);
}

#[test]
fn linked_modules_are_the_imported_modules() {
    let u = scanned("src/lib.rs", "mod a;\nuse b::c;\npub mod d;\n");
    let linked: Vec<String> = u.linked_modules().iter().map(|m| string_of(m)).collect();
    assert_eq!(linked, vec!["a", "d"]);
}

#[test]
fn a_file_is_linked_once() {
    let mut u = ImportExportUpdater::new("src/lib.rs");
    assert!(u.add_sub_finder(ImportExportUpdater::new("src/a.rs")));
    assert!(u.add_sub_finder(ImportExportUpdater::new("src/b.rs")));
    assert!(!u.add_sub_finder(ImportExportUpdater::new("src/a.rs")));
    assert_eq!(u.sub_finders.len(), 2);
    assert!(u.has_sub_finder("src/b.rs"));
    assert!(!u.has_sub_finder("src/c.rs"));
}

#[test]
fn exports_of_linked_files_are_taken_over() {
    let mut inner = scanned("src/a/mod.rs", "pub struct Inner;\npub(crate) fn helper() {}\n");
    inner.add_sub_finder(scanned("src/a/deep.rs", "pub trait Deep {}\npub(super) const D: u8 = 1;\n"));
    let public: Vec<String> =
        inner.recursive_exports(PubType::Pub).iter().map(|e| string_of(e)).collect();
    assert_eq!(public, vec!["Inner", "Deep"]);
    let parent: Vec<String> =
        inner.recursive_exports(PubType::Super).iter().map(|e| string_of(e)).collect();
    assert_eq!(parent, vec!["D"]);
    let record = inner.record();
    assert_eq!(string_of(&record.name), "a");
    assert_eq!(record.package.iter().map(|e| string_of(e)).collect::<Vec<_>>(), vec!["helper"]);
}

#[test]
fn the_block_of_exports_is_written_anew() {
    let text = "// by hand\nfn main() {}\n// auto-exports\nmod stale;\n";
    let mut root = scanned("src/lib.rs", text);
    root.add_sub_finder(scanned("src/bb.rs", "pub fn b() {}\npub(super) fn hidden() {}\n"));
    root.add_sub_finder(scanned("src/longer/mod.rs", "pub(crate) static L: u8 = 0;\n"));
    root.add_sub_finder(scanned("src/c.rs", ""));
    let new = root.generate_auto_exports(&chars_of(text)).unwrap();
    assert_eq!(
        string_of(&new),
        "// by hand\nfn main() {}\n// auto-exports\nmod longer;\nmod bb;\nmod c;\npub(crate) use longer::{L};\npub use bb::{b};\n"
    );
    // Written once, the contents stay as they are.
    let again = scanned("src/lib.rs", &string_of(&new));
    let mut again = again;
    again.add_sub_finder(scanned("src/bb.rs", "pub fn b() {}\npub(super) fn hidden() {}\n"));
    again.add_sub_finder(scanned("src/longer/mod.rs", "pub(crate) static L: u8 = 0;\n"));
    again.add_sub_finder(scanned("src/c.rs", ""));
    assert!(again.generate_auto_exports(&new).is_none());
}

#[test]
fn a_file_that_is_no_module_file_exports_for_the_parent_too() {
    let text = "// auto-exports\n";
    let mut file = scanned("src/a.rs", text);
    file.add_sub_finder(scanned("src/b.rs", "pub(super) fn hidden() {}\n"));
    let new = file.generate_auto_exports(&chars_of(text)).unwrap();
    assert_eq!(string_of(&new), "// auto-exports\nmod b;\npub(super) use b::{hidden};\n");
}

#[test]
fn files_of_one_module_share_a_record() {
    let text = "//auto-exports";
    let mut root = scanned("src/lib.rs", text);
    root.add_sub_finder(scanned("src/m.rs", "pub fn one() {}\n"));
    root.add_sub_finder(scanned("src/m/mod.rs", "pub fn two() {}\n"));
    let new = root.generate_auto_exports(&chars_of(text)).unwrap();
    assert_eq!(string_of(&new), "// auto-exports\nmod m;\npub use m::{one, two};\n");
}

#[test]
fn without_a_marker_nothing_is_written() {
    let text = "fn main() {}\n";
    let mut root = scanned("src/lib.rs", text);
    root.add_sub_finder(scanned("src/a.rs", "pub fn a() {}\n"));
    assert!(root.generate_auto_exports(&chars_of(text)).is_none());
}
