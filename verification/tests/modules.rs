use crate_manager::files::{CodeFile, CrateDir, ModFile};
use crate_manager::grammar::contents_parser;
use crate_manager::lib_export_generator::generate_exports_for_mod;
use crate_manager::parser::ParseError;
use crate_manager::text::{chars_of, string_of};
use crate_manager::CrateManager;

fn file(path: &str, name: &str, text: &str) -> CodeFile {
    CodeFile::new(path, &chars_of(name), &chars_of(text), &contents_parser()).unwrap()
}

fn tree() -> ModFile {
    ModFile {
        file: file("src/lib.rs", "src", "//! Root.\n// auto-exports\n"),
        is_root: true,
        source_files: vec![
            file("src/util.rs", "util", "pub fn helper() {}\npub(super) fn up() {}\n"),
            file("src/plain.rs", "plain", "fn private() {}\n"),
        ],
        sub_mod_files: vec![ModFile {
            file: file("src/inner/mod.rs", "inner", "pub struct Own;\n// auto-exports\n"),
            is_root: false,
            source_files: vec![file(
                "src/inner/leaf.rs",
                "leaf",
                "pub(super) trait ForParent {}\npub(crate) const K: u8 = 0;\n",
            )],
            sub_mod_files: vec![],
        }],
    }
}

#[test]
fn a_new_file_has_no_changes() {
    let mut f = file("src/a.rs", "a", "fn a() {}\n");
    assert_eq!(f.path, "src/a.rs");
    assert_eq!(string_of(&f.name), "a");
    assert_eq!(string_of(&f.contents), "fn a() {}\n");
    assert_eq!(f.contents().to_string(), "fn a() {}\n");
    assert!(!f.gotten_mutable);
    assert!(!f.has_unsaved_changes());
    assert!(f.store_changes().is_none());
    assert!(!f.stored_changes);
}

#[test]
fn a_file_that_does_not_parse_is_no_file() {
    let r = CodeFile::new("src/a.rs", &chars_of("a"), &chars_of("fn a() {"), &contents_parser());
    assert_eq!(r.err(), Some(ParseError::Unterminated { at: 7 }));
}

#[test]
fn changes_are_stored_once() {
    let parser = contents_parser();
    let mut f = file("src/a.rs", "a", "fn a() {}\n");
    *f.contents_mut() = parser.parse_str("fn b() {}\n").unwrap();
    assert!(f.has_unsaved_changes());
    assert_eq!(f.store_changes().map(|t| string_of(&t)), Some("fn b() {}\n".to_string()));
    assert!(!f.has_unsaved_changes());
    assert_eq!(string_of(&f.contents), "fn b() {}\n");
    assert!(f.store_changes().is_none());
}

#[test]
fn a_tree_that_still_stands_for_the_text_is_not_written() {
    let parser = contents_parser();
    let mut f = file("src/a.rs", "a", "fn a() {}\n");
    *f.contents_mut() = parser.parse_str("fn a() {}\n").unwrap();
    assert!(f.has_unsaved_changes());
    assert!(f.store_changes().is_none());
    assert!(f.stored_changes);
}

#[test]
fn exports_are_generated_from_the_leaves_up() {
    let parser = contents_parser();
    let mut root = tree();
    generate_exports_for_mod(&mut root, &parser);
    assert_eq!(
        root.sub_mod_files[0].file.contents().to_string(),
        "pub struct Own;\n// auto-exports\nmod leaf;\npub(crate) use leaf::{K};\npub(super) use leaf::{ForParent};\n"
    );
    // The root sees what the inner module exports after its own block was
    // written, and passes nothing on for the parent tier.
    assert_eq!(
        root.file.contents().to_string(),
        "//! Root.\n// auto-exports\nmod plain;\nmod inner;\nmod util;\npub use inner::{Own};\npub(crate) use inner::{K};\npub use util::{helper};\n"
    );
    assert!(root.file.gotten_mutable);
    assert!(root.sub_mod_files[0].file.gotten_mutable);
    assert!(!root.source_files[0].gotten_mutable);
}

#[test]
fn generating_twice_changes_nothing_more() {
    let parser = contents_parser();
    let mut root = tree();
    generate_exports_for_mod(&mut root, &parser);
    let first = root.file.contents().to_string();
    let inner = root.sub_mod_files[0].file.contents().to_string();
    generate_exports_for_mod(&mut root, &parser);
    assert_eq!(root.file.contents().to_string(), first);
    assert_eq!(root.sub_mod_files[0].file.contents().to_string(), inner);
}

#[test]
fn only_changed_files_are_written() {
    let parser = contents_parser();
    let mut root = tree();
    generate_exports_for_mod(&mut root, &parser);
    let writes: Vec<String> = root.store_changes().into_iter().map(|(p, _)| p).collect();
    assert_eq!(writes, vec!["src/lib.rs", "src/inner/mod.rs"]);
    assert!(root.store_changes().is_empty());
    generate_exports_for_mod(&mut root, &parser);
    assert!(root.store_changes().is_empty());
}

#[test]
fn a_run_without_settings_writes_nothing() {
    let parser = contents_parser();
    let mut dirs = vec![CrateDir { path: "pkg".to_string(), mod_files: vec![tree()] }];
    let mut manager = CrateManager::new();
    assert!(manager.is_unused());
    assert!(!manager.generate_exports);
    let writes = manager.run_on(&mut dirs, &parser);
    assert!(writes.is_empty());
    assert!(manager.ran);
    assert_eq!(dirs[0].mod_files[0].file.contents().to_string(), "//! Root.\n// auto-exports\n");
}

#[test]
fn a_run_that_generates_exports_writes_the_module_files() {
    let parser = contents_parser();
    let mut dirs = vec![
        CrateDir { path: "one".to_string(), mod_files: vec![tree()] },
        CrateDir { path: "two".to_string(), mod_files: vec![] },
    ];
    let mut manager = CrateManager::new().generate_exports();
    assert!(manager.generate_exports);
    assert!(!manager.ran);
    let writes = manager.run_on(&mut dirs, &parser);
    assert!(manager.ran);
    assert!(!manager.is_unused());
    let paths: Vec<&str> = writes.iter().map(|(p, _)| p.as_str()).collect();
    assert_eq!(paths, vec!["src/lib.rs", "src/inner/mod.rs"]);
    assert_eq!(
        string_of(&writes[1].1),
        "pub struct Own;\n// auto-exports\nmod leaf;\npub(crate) use leaf::{K};\npub(super) use leaf::{ForParent};\n"
    );
    assert_eq!(dirs[0].path, "one");
    // A second run finds everything in step.
    assert!(manager.run_on(&mut dirs, &parser).is_empty());
}
