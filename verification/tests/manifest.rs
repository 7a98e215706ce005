use crate_manager::libraries_storage::{combine, library_lines};
use crate_manager::library::{is_version_word, split_source};
use crate_manager::library_imports_updater::{generate_toml_imports, parse_toml, render_toml};
use crate_manager::text::{chars_of, string_of};
use crate_manager::{LibrariesStorage, Library};

#[test]
fn version_numbers_have_three_numeric_parts() {
    let v = |w: &str| is_version_word(&chars_of(w));
    assert!(v("1.2.3"));
    assert!(v("10.20.30"));
    assert!(v("١.٢.٣"));
    assert!(!v("1.2"));
    assert!(!v("1.2.3.4"));
    assert!(!v("a.b.c"));
    assert!(!v(""));
    // An empty part counts as numeric, and a part that is not numeric is
    // passed over.
    assert!(v("1..2"));
    assert!(v(".."));
    assert!(v("x.1.2.3"));
}

#[test]
fn version_numbers_are_taken_off_the_end_of_a_source() {
    let parts = |src: &str| {
        let (base, versions) = split_source(&chars_of(src));
        (string_of(&base), versions.iter().map(|v| string_of(v)).collect::<Vec<_>>())
    };
    assert_eq!(parts("path/to 1.2.3"), ("path/to".to_string(), vec!["1.2.3".to_string()]));
    assert_eq!(
        parts("a b  1.0.0   2.0.0"),
        ("a b".to_string(), vec!["1.0.0".to_string(), "2.0.0".to_string()])
    );
    assert_eq!(parts("1.2.3"), ("".to_string(), vec!["1.2.3".to_string()]));
    assert_eq!(parts("1.2.3 x"), ("1.2.3 x".to_string(), vec![]));
    assert_eq!(parts(""), ("".to_string(), vec![]));
    assert_eq!(Library::source_path("Cargo.toml 4.5.6"), "Cargo.toml");
}

#[test]
fn a_git_address_is_no_local_path() {
    let lib = Library::new("x", "https://github.com/x 1.0.0", true);
    assert_eq!(lib.git_url, Some("https://github.com/x".to_string()));
    assert_eq!(lib.local_path, None);
    let lib = Library::new("x", "somewhere", false);
    assert_eq!(lib.git_url, None);
    assert_eq!(lib.local_path, None);
    assert_eq!(lib.name, "x");
}

#[test]
fn import_strings() {
    assert_eq!(Library::git("a", "https://github.com/a").as_import_string(), "a={ git=\"https://github.com/a\" }");
    assert_eq!(Library::local("b", " \"C:/b\" ").as_import_string(), "b={ path=\"C:/b\" }");
    let lib = Library::local("c", "p").with_version_number("1.0.0").with_version_number("2.0.0");
    assert_eq!(lib.versions, vec!["1.0.0", "2.0.0"]);
    assert_eq!(lib.as_import_string(), "c={ version=\"2.0.0\", path=\"p\" }");
    let mut all = Library::git("d", "g").with_version_number("0.1.0");
    all.combine_with(Library::local("ignored", "l").with_version_number("0.2.0"));
    assert_eq!(all.name, "d");
    assert_eq!(all.as_import_string(), "d={ version=\"0.2.0\", path=\"l\", git=\"g\" }");
    assert_eq!(all.as_import_value(), "{ version=\"0.2.0\", path=\"l\", git=\"g\" }");
    assert_eq!(Library::new("e", "", false).as_import_string(), "e={  }");
}

#[test]
fn combining_keeps_what_the_other_does_not_know() {
    let mut lib = Library::git("a", "g").with_version_number("1.0.0");
    lib.combine_with(Library::new("a", "", false));
    assert_eq!(lib.git_url, Some("g".to_string()));
    assert_eq!(lib.local_path, None);
    assert_eq!(lib.versions, vec!["1.0.0"]);
    lib.combine_with(Library::git("a", "h"));
    assert_eq!(lib.git_url, Some("h".to_string()));
    let copy = lib.copy();
    assert_eq!(copy.name, lib.name);
    assert_eq!(copy.versions, lib.versions);
    assert_eq!(copy.git_url, lib.git_url);
    assert_eq!(copy.local_path, lib.local_path);
}

#[test]
fn a_storage_holds_every_name_once() {
    let libs = vec![
        Library::git("a", "1"),
        Library::local("b", "2"),
        Library::local("a", "3"),
        Library::git("b", "4"),
        Library::git("a", "5"),
    ];
    let storage = LibrariesStorage::new(libs);
    assert_eq!(storage.libraries.len(), 2);
    assert_eq!(storage.libraries[0].name, "a");
    assert_eq!(storage.libraries[0].git_url, Some("5".to_string()));
    assert_eq!(storage.libraries[0].local_path, Some("3".to_string()));
    assert_eq!(storage.libraries[1].name, "b");
    assert!(storage.find("c").is_none());
    assert_eq!(storage.find("b").unwrap().git_url, Some("4".to_string()));
    // Combining once more changes nothing.
    let again = combine(&storage.libraries);
    assert_eq!(again.len(), 2);
    assert_eq!(again[0].git_url, Some("5".to_string()));
    let mut storage = storage;
    storage.combine_libraries();
    assert_eq!(storage.libraries.len(), 2);
}

#[test]
fn a_library_list_has_a_name_and_a_source_on_each_line() {
    let lines = library_lines("one https://github.com/one 1.0.0\n\n  two\t  ../two  \nthree\n   \n");
    assert_eq!(
        lines,
        vec![
            ("one".to_string(), "https://github.com/one 1.0.0".to_string()),
            ("two".to_string(), "../two".to_string()),
            ("three".to_string(), "".to_string()),
        ]
    );
    assert_eq!(library_lines(""), vec![]);
}

fn text_of(toml: &str) -> Vec<(String, Vec<(String, String)>)> {
    parse_toml(&chars_of(toml))
        .iter()
        .map(|(name, entries)| {
            (
                string_of(name),
                entries.iter().map(|(k, v)| (string_of(k), string_of(v))).collect(),
            )
        })
        .collect()
}

#[test]
fn a_manifest_is_read_by_category() {
    let toml = "top = 1\n[package]\nname = \"mine\"\n version=\"0.1.0\" \n\n[ dependencies ]\na = { x = 1 }\nnot an entry\n[package]\nedition = \"2021\"\n";
    assert_eq!(
        text_of(toml),
        vec![
            ("".to_string(), vec![("top".to_string(), "1".to_string())]),
            (
                "package".to_string(),
                vec![
                    ("name".to_string(), "\"mine\"".to_string()),
                    ("version".to_string(), "\"0.1.0\"".to_string()),
                    ("edition".to_string(), "\"2021\"".to_string()),
                ]
            ),
            ("dependencies".to_string(), vec![("a".to_string(), "{ x = 1 }".to_string())]),
        ]
    );
    assert_eq!(text_of(""), vec![("".to_string(), vec![])]);
}

#[test]
fn a_manifest_is_written_by_category() {
    let toml = parse_toml(&chars_of("[a]\nx=1\ny = 2\n[empty]\n[b]\nz=3"));
    assert_eq!(string_of(&render_toml(&toml)), "[a]\nx=1\ny=2\n\n[b]\nz=3");
}

fn storage() -> LibrariesStorage {
    LibrariesStorage::new(vec![
        Library::git("known", "https://github.com/known").with_version_number("1.0.0"),
        Library::local("present", "../present"),
        Library::local("other", "../other"),
    ])
}

#[test]
fn missing_libraries_are_added_to_the_dependencies() {
    let toml = "[package]\nname = mine\n\n[dependencies]\npresent = \"1\"\n";
    let new = generate_toml_imports(
        toml,
        &["std", "known", "present", "unknown", "mine", "crate", "super", "other"],
        &storage(),
    );
    assert_eq!(
        new,
        Some(
            "[package]\nname=mine\n\n[dependencies]\npresent=\"1\"\nknown={ version=\"1.0.0\", git=\"https://github.com/known\" }\nother={ path=\"../other\" }"
                .to_string()
        )
    );
}

#[test]
fn the_dependencies_are_added_where_there_are_none() {
    let toml = "[package]\nname = \"mine\"\n";
    let new = generate_toml_imports(toml, &["other"], &storage());
    assert_eq!(
        new,
        Some("[package]\nname=\"mine\"\n\n[dependencies]\nother={ path=\"../other\" }".to_string())
    );
}

#[test]
fn nothing_is_written_where_nothing_is_missing() {
    let toml = "[package]\nname = mine\n[dependencies]\nknown = \"1\"\n";
    assert_eq!(generate_toml_imports(toml, &["known", "std", "nowhere"], &storage()), None);
    assert_eq!(generate_toml_imports(toml, &[], &storage()), None);
}

#[test]
fn a_manifest_without_a_package_is_left_alone() {
    assert_eq!(generate_toml_imports("[dependencies]\n", &["known"], &storage()), None);
    assert_eq!(generate_toml_imports("[package]\nversion = 1\n", &["known"], &storage()), None);
    assert_eq!(generate_toml_imports("", &["known"], &storage()), None);
}
