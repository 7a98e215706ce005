//! The dependencies of a package manifest: which of the libraries that a
//! package uses are missing from it, and the manifest with them added.

use vstd::prelude::*;
use crate::libraries_storage::{find_index, index_of_name, LibrariesStorage};
use crate::library::LibraryView;
use crate::text::{
    append_chars, chars_of, first_sep, join, joined, lemma_first_sep_is, same_chars, slice_of,
    split, split_on, string_of, texts, trim, trimmed,
};

verus! {

/// The keys of one category of a manifest with their values, in order.
pub type Entries = Seq<(Seq<char>, Seq<char>)>;

/// A manifest: its categories by name, each with its entries, in order.
pub type Toml = Seq<(Seq<char>, Entries)>;

/// Whether a line names a category: it stands between square brackets.
pub open spec fn is_category(line: Seq<char>) -> bool {
    line.len() >= 2 && line[0] == '[' && line.last() == ']'
}

/// The category that a line names.
pub open spec fn category_name(line: Seq<char>) -> Seq<char> {
    trimmed(line.subrange(1, line.len() - 1))
}

/// Whether a line gives a key a value: it holds an equals sign.
pub open spec fn is_entry(line: Seq<char>) -> bool {
    first_sep(line, '=') < line.len()
}

/// The key of an entry: what stands before the first equals sign.
pub open spec fn entry_key(line: Seq<char>) -> Seq<char> {
    trimmed(line.take(first_sep(line, '=')))
}

/// The value of an entry: what stands after the first equals sign.
pub open spec fn entry_value(line: Seq<char>) -> Seq<char> {
    trimmed(line.skip(first_sep(line, '=') + 1))
}

/// The index of the first category of the manifest that has the given name.
pub open spec fn category_index(toml: Toml, name: Seq<char>) -> Option<int>
    decreases toml.len(),
{
    if toml.len() == 0 {
        None
    } else {
        match category_index(toml.drop_last(), name) {
            Some(i) => Some(i),
            None => if toml.last().0 == name {
                Some(toml.len() - 1)
            } else {
                None
            },
        }
    }
}

/// The value of the first entry that has the given key.
pub open spec fn value_of(entries: Entries, key: Seq<char>) -> Option<Seq<char>>
    decreases entries.len(),
{
    if entries.len() == 0 {
        None
    } else {
        match value_of(entries.drop_last(), key) {
            Some(v) => Some(v),
            None => if entries.last().0 == key {
                Some(entries.last().1)
            } else {
                None
            },
        }
    }
}

/// The manifest and the category that entries go to, after one more line
/// is read: an empty line changes nothing, a category line makes its
/// category the current one, and an entry is added to the current category.
pub open spec fn with_line(state: (Toml, int), raw: Seq<char>) -> (Toml, int) {
    let line = trimmed(raw);
    let (toml, current) = state;
    if line.len() == 0 {
        state
    } else if is_category(line) {
        match category_index(toml, category_name(line)) {
            Some(i) => (toml, i),
            None => (toml.push((category_name(line), Seq::empty())), toml.len() as int),
        }
    } else if is_entry(line) && 0 <= current < toml.len() {
        (
            toml.update(
                current,
                (toml[current].0, toml[current].1.push((entry_key(line), entry_value(line)))),
            ),
            current,
        )
    } else {
        state
    }
}

/// The manifest that the first `n` lines describe, and the category that
/// entries go to. The entries before the first category line go to a
/// category without a name.
pub open spec fn parsed_toml(lines: Seq<Seq<char>>, n: nat) -> (Toml, int)
    decreases n,
{
    if n == 0 || n > lines.len() {
        (seq![(Seq::empty(), Seq::empty())], 0)
    } else {
        with_line(parsed_toml(lines, (n - 1) as nat), lines[n - 1])
    }
}

/// The keys of a list of entries.
pub open spec fn entry_names(entries: Entries) -> Seq<Seq<char>> {
    Seq::new(entries.len(), |i: int| entries[i].0)
}

/// Whether a library of this name has to be added: it is not the package
/// itself, no part of the language, and not among the dependencies.
pub open spec fn is_missing(name: Seq<char>, own: Seq<char>, existing: Seq<Seq<char>>) -> bool {
    name != own && name != "std"@ && name != "crate"@ && name != "super"@ && !existing.contains(
        name,
    )
}

/// The libraries of the storage that have to be added for the first `n`
/// of the names that were found.
pub open spec fn missing_libraries(
    found: Seq<Seq<char>>,
    own: Seq<char>,
    existing: Seq<Seq<char>>,
    storage: Seq<LibraryView>,
    n: nat,
) -> Seq<LibraryView>
    decreases n,
{
    if n == 0 || n > found.len() {
        Seq::empty()
    } else {
        let before = missing_libraries(found, own, existing, storage, (n - 1) as nat);
        if is_missing(found[n - 1], own, existing) {
            match index_of_name(storage, found[n - 1]) {
                Some(i) => before.push(storage[i]),
                None => before,
            }
        } else {
            before
        }
    }
}

/// The entries that import the given libraries.
pub open spec fn import_entries(libs: Seq<LibraryView>) -> Entries {
    Seq::new(libs.len(), |i: int| (libs[i].name, libs[i].import_value()))
}

/// The manifest with entries added to its dependencies; the category is
/// added at the end where the manifest has none.
pub open spec fn with_dependencies(toml: Toml, added: Entries) -> Toml {
    match category_index(toml, "dependencies"@) {
        Some(i) => toml.update(i, (toml[i].0, toml[i].1 + added)),
        None => toml.push(("dependencies"@, added)),
    }
}

/// The lines of a list of entries: the key, `=` and the value of each.
pub open spec fn entry_lines(entries: Entries) -> Seq<Seq<char>> {
    Seq::new(entries.len(), |i: int| entries[i].0 + seq!['='] + entries[i].1)
}

/// The text of a category: its name between square brackets, and its
/// entries line by line.
pub open spec fn rendered_category(category: (Seq<char>, Entries)) -> Seq<char> {
    seq!['['] + category.0 + "]\n"@ + joined(entry_lines(category.1), "\n"@)
}

/// The texts of those of the first `n` categories that have entries.
pub open spec fn rendered_categories(toml: Toml, n: nat) -> Seq<Seq<char>>
    decreases n,
{
    if n == 0 || n > toml.len() {
        Seq::empty()
    } else {
        let before = rendered_categories(toml, (n - 1) as nat);
        if toml[n - 1].1.len() > 0 {
            before.push(rendered_category(toml[n - 1]))
        } else {
            before
        }
    }
}

/// The text of a manifest: its categories that have entries, with an empty
/// line between each two.
pub open spec fn rendered(toml: Toml) -> Seq<char> {
    joined(rendered_categories(toml, toml.len()), "\n\n"@)
}

/// The manifest with the missing ones of the libraries that were found
/// added to its dependencies, as text; `None` where nothing is to be
/// added: where the manifest names no package, and where no library of the
/// storage is missing.
pub open spec fn updated_toml(
    contents: Seq<char>,
    found: Seq<Seq<char>>,
    storage: Seq<LibraryView>,
) -> Option<Seq<char>> {
    let lines = split_on(contents, '\n');
    let toml = parsed_toml(lines, lines.len()).0;
    match category_index(toml, "package"@) {
        None => None,
        Some(p) => match value_of(toml[p].1, "name"@) {
            None => None,
            Some(own) => {
                let existing = match category_index(toml, "dependencies"@) {
                    Some(d) => entry_names(toml[d].1),
                    None => Seq::empty(),
                };
                let libs = missing_libraries(found, own, existing, storage, found.len());
                if libs.len() == 0 {
                    None
                } else {
                    Some(rendered(with_dependencies(toml, import_entries(libs))))
                }
            },
        },
    }
}

/// The entries of a category as the model lists them.
pub open spec fn entries_view(entries: Seq<(Vec<char>, Vec<char>)>) -> Entries {
    Seq::new(entries.len(), |i: int| (entries[i].0@, entries[i].1@))
}

/// A manifest as the model lists it.
pub open spec fn toml_view(toml: Seq<(Vec<char>, Vec<(Vec<char>, Vec<char>)>)>) -> Toml {
    Seq::new(toml.len(), |i: int| (toml[i].0@, entries_view(toml[i].1@)))
}

/// What `category_index` finds has the name, and nothing before it has.
pub proof fn lemma_category_index(toml: Toml, name: Seq<char>)
    ensures
        match category_index(toml, name) {
            Some(i) => 0 <= i < toml.len() && toml[i].0 == name && forall|j: int|
                0 <= j < i ==> toml[j].0 != name,
            None => forall|j: int| 0 <= j < toml.len() ==> toml[j].0 != name,
        },
    decreases toml.len(),
{
    if toml.len() > 0 {
        let front = toml.drop_last();
        lemma_category_index(front, name);
        match category_index(front, name) {
            Some(i) => {
                assert(toml[i] == front[i]);
                assert forall|j: int| 0 <= j < i implies toml[j].0 != name by {
                    assert(toml[j] == front[j]);
                }
            },
            None => {
                assert forall|j: int| 0 <= j < front.len() implies toml[j].0 != name by {
                    assert(toml[j] == front[j]);
                }
            },
        }
    }
}

/// What `value_of` finds is the value of the first entry with the key.
pub proof fn lemma_value_of(entries: Entries, key: Seq<char>)
    ensures
        match value_of(entries, key) {
            Some(v) => exists|i: int|
                0 <= i < entries.len() && entries[i] == (key, v) && forall|j: int|
                    0 <= j < i ==> entries[j].0 != key,
            None => forall|j: int| 0 <= j < entries.len() ==> entries[j].0 != key,
        },
    decreases entries.len(),
{
    if entries.len() > 0 {
        let front = entries.drop_last();
        lemma_value_of(front, key);
        match value_of(front, key) {
            Some(v) => {
                let i = choose|i: int|
                    0 <= i < front.len() && front[i] == (key, v) && forall|j: int|
                        0 <= j < i ==> front[j].0 != key;
                assert(entries[i] == front[i]);
                assert forall|j: int| 0 <= j < i implies entries[j].0 != key by {
                    assert(entries[j] == front[j]);
                }
            },
            None => {
                assert forall|j: int| 0 <= j < front.len() implies entries[j].0 != key by {
                    assert(entries[j] == front[j]);
                }
                if entries.last().0 == key {
                    assert(entries[entries.len() - 1] == (key, entries.last().1));
                }
            },
        }
    }
}

/// The index of the first category of the manifest that has the given name.
pub fn find_category(toml: &Vec<(Vec<char>, Vec<(Vec<char>, Vec<char>)>)>, name: &[char]) -> (r:
    Option<usize>)
    ensures
        match r {
            Some(i) => category_index(toml_view(toml@), name@) == Some(i as int) && i
                < toml@.len(),
            None => category_index(toml_view(toml@), name@).is_none(),
        },
{
    let ghost all = toml_view(toml@);
    proof {
        lemma_category_index(all, name@);
    }
    let mut i: usize = 0;
    while i < toml.len()
        invariant
            i <= toml@.len(),
            all == toml_view(toml@),
            forall|j: int| 0 <= j < i ==> all[j].0 != name@,
        decreases toml@.len() - i,
    {
        if same_chars(toml[i].0.as_slice(), name) {
            assert(all[i as int].0 == name@);
            proof {
                lemma_category_index(all, name@);
            }
            return Some(i);
        }
        i += 1;
    }
    proof {
        lemma_category_index(all, name@);
    }
    None
}

/// The index of the first entry that has the given key.
pub fn find_entry(entries: &Vec<(Vec<char>, Vec<char>)>, key: &[char]) -> (r: Option<usize>)
    ensures
        match r {
            Some(i) => i < entries@.len() && value_of(entries_view(entries@), key@) == Some(
                entries@[i as int].1@,
            ),
            None => value_of(entries_view(entries@), key@).is_none(),
        },
{
    let ghost all = entries_view(entries@);
    proof {
        lemma_value_of(all, key@);
    }
    let mut i: usize = 0;
    while i < entries.len()
        invariant
            i <= entries@.len(),
            all == entries_view(entries@),
            forall|j: int| 0 <= j < i ==> all[j].0 != key@,
        decreases entries@.len() - i,
    {
        if same_chars(entries[i].0.as_slice(), key) {
            assert(all[i as int].0 == key@);
            proof {
                lemma_value_of(all, key@);
            }
            return Some(i);
        }
        i += 1;
    }
    proof {
        lemma_value_of(all, key@);
    }
    None
}

/// The offset of the first `sep` in `text`, or the length of `text` where
/// it holds none.
pub fn find_sep(text: &[char], sep: char) -> (r: usize)
    ensures
        r == first_sep(text@, sep),
        r <= text.len(),
{
    let mut i: usize = 0;
    while i < text.len() && text[i] != sep
        invariant
            i <= text.len(),
            forall|j: int| 0 <= j < i ==> text@[j] != sep,
        decreases text.len() - i,
    {
        i += 1;
    }
    proof {
        lemma_first_sep_is(text@, sep, i as int);
    }
    i
}

/// Reads a manifest: its categories by name, each with its entries.
pub fn parse_toml(contents: &[char]) -> (r: Vec<(Vec<char>, Vec<(Vec<char>, Vec<char>)>)>)
    ensures
        toml_view(r@) == parsed_toml(
            split_on(contents@, '\n'),
            split_on(contents@, '\n').len(),
        ).0,
{
    let lines = split(contents, '\n');
    let ghost all = texts(lines@);
    let mut toml: Vec<(Vec<char>, Vec<(Vec<char>, Vec<char>)>)> = Vec::new();
    toml.push((Vec::new(), Vec::new()));
    let mut current: usize = 0;
    let mut i: usize = 0;
    assert(toml_view(toml@) =~= seq![
        (Seq::<char>::empty(), Seq::<(Seq<char>, Seq<char>)>::empty()),
    ]) by {
        assert(entries_view(toml@[0].1@) =~= Seq::<(Seq<char>, Seq<char>)>::empty());
    }
    while i < lines.len()
        invariant
            i <= lines@.len(),
            all == texts(lines@),
            current < toml@.len(),
            (toml_view(toml@), current as int) == parsed_toml(all, i as nat),
        decreases lines@.len() - i,
    {
        let ghost before = toml_view(toml@);
        assert(all[i as int] == lines@[i as int]@);
        let line = trim(lines[i].as_slice());
        if line.len() == 0 {
        } else if line.len() >= 2 && line[0] == '[' && line[line.len() - 1] == ']' {
            let name = trim(slice_of(line.as_slice(), 1, line.len() - 1).as_slice());
            match find_category(&toml, name.as_slice()) {
                Some(k) => {
                    current = k;
                },
                None => {
                    current = toml.len();
                    toml.push((name, Vec::new()));
                    assert(toml_view(toml@) =~= before.push((name@, Seq::empty()))) by {
                        assert(entries_view(toml@[toml@.len() - 1].1@) =~= Seq::<
                            (Seq<char>, Seq<char>),
                        >::empty());
                    }
                },
            }
        } else {
            let at = find_sep(line.as_slice(), '=');
            if at < line.len() {
                let key = trim(slice_of(line.as_slice(), 0, at).as_slice());
                let value = trim(slice_of(line.as_slice(), at + 1, line.len()).as_slice());
                assert(line@.subrange(0, at as int) =~= line@.take(at as int));
                assert(line@.subrange(at + 1, line@.len() as int) =~= line@.skip(at + 1));
                let ghost entries = before[current as int].1;
                let mut category = toml.remove(current);
                category.1.push((key, value));
                assert(entries_view(category.1@) =~= entries.push((key@, value@)));
                let ghost changed = (category.0@, entries_view(category.1@));
                toml.insert(current, category);
                assert(toml_view(toml@) =~= before.update(current as int, changed));
            }
        }
        i += 1;
    }
    toml
}

/// The text of a manifest: its categories that have entries, with an empty
/// line between each two.
pub fn render_toml(toml: &Vec<(Vec<char>, Vec<(Vec<char>, Vec<char>)>)>) -> (r: Vec<char>)
    ensures
        r@ == rendered(toml_view(toml@)),
{
    let ghost all = toml_view(toml@);
    let mut parts: Vec<Vec<char>> = Vec::new();
    let mut i: usize = 0;
    assert(texts(parts@) =~= Seq::empty());
    while i < toml.len()
        invariant
            i <= toml@.len(),
            all == toml_view(toml@),
            texts(parts@) == rendered_categories(all, i as nat),
        decreases toml@.len() - i,
    {
        let category = &toml[i];
        assert(all[i as int] == (category.0@, entries_view(category.1@)));
        if category.1.len() > 0 {
            let mut lines: Vec<Vec<char>> = Vec::new();
            let mut k: usize = 0;
            let ghost entries = entries_view(category.1@);
            while k < category.1.len()
                invariant
                    k <= category.1@.len(),
                    entries == entries_view(category.1@),
                    texts(lines@) =~= entry_lines(entries).take(k as int),
                decreases category.1@.len() - k,
            {
                let mut line: Vec<char> = Vec::new();
                append_chars(&mut line, category.1[k].0.as_slice());
                line.push('=');
                append_chars(&mut line, category.1[k].1.as_slice());
                assert(line@ =~= entries[k as int].0 + seq!['='] + entries[k as int].1);
                let ghost sofar = texts(lines@);
                lines.push(line);
                assert(texts(lines@) =~= sofar.push(line@));
                k += 1;
            }
            assert(entry_lines(entries).take(k as int) =~= entry_lines(entries));
            let mut part: Vec<char> = Vec::new();
            part.push('[');
            append_chars(&mut part, category.0.as_slice());
            append_chars(&mut part, chars_of("]\n").as_slice());
            let body = join(&lines, chars_of("\n").as_slice());
            append_chars(&mut part, body.as_slice());
            assert(part@ =~= rendered_category(all[i as int]));
            let ghost sofar = texts(parts@);
            parts.push(part);
            assert(texts(parts@) =~= sofar.push(part@));
        }
        i += 1;
    }
    join(&parts, chars_of("\n\n").as_slice())
}

/// The views of a list of names.
pub open spec fn names_view(names: Seq<&str>) -> Seq<Seq<char>> {
    Seq::new(names.len(), |i: int| names[i]@)
}

/// Whether the list holds the name.
fn holds_name(entries: &Vec<(Vec<char>, Vec<char>)>, name: &[char]) -> (r: bool)
    ensures
        r == entry_names(entries_view(entries@)).contains(name@),
{
    let ghost names = entry_names(entries_view(entries@));
    let mut i: usize = 0;
    while i < entries.len()
        invariant
            i <= entries@.len(),
            names == entry_names(entries_view(entries@)),
            forall|j: int| 0 <= j < i ==> names[j] != name@,
        decreases entries@.len() - i,
    {
        if same_chars(entries[i].0.as_slice(), name) {
            assert(names[i as int] == name@);
            return true;
        }
        i += 1;
    }
    false
}

/// Adds the missing ones of the libraries in `found_lib_names` to the
/// dependencies of the manifest with the text `toml_contents`. Returns the
/// new text of the manifest, or `None` where nothing is to be added: where
/// the manifest names no package, and where none of the libraries that
/// are missing is in `available_libraries`.
pub fn generate_toml_imports(
    toml_contents: &str,
    found_lib_names: &[&str],
    available_libraries: &LibrariesStorage,
) -> (r: Option<String>)
    ensures
        match r {
            Some(text) => updated_toml(
                toml_contents@,
                names_view(found_lib_names@),
                available_libraries@,
            ) == Some(text@),
            None => updated_toml(
                toml_contents@,
                names_view(found_lib_names@),
                available_libraries@,
            ).is_none(),
        },
{
    let contents = chars_of(toml_contents);
    let mut toml = parse_toml(contents.as_slice());
    let ghost parsed = toml_view(toml@);
    let package = match find_category(&toml, chars_of("package").as_slice()) {
        Some(p) => p,
        None => {
            return None;
        },
    };
    let own_at = match find_entry(&toml[package].1, chars_of("name").as_slice()) {
        Some(k) => k,
        None => {
            return None;
        },
    };
    let dependencies = find_category(&toml, chars_of("dependencies").as_slice());
    let ghost own = toml@[package as int].1@[own_at as int].1@;
    let ghost existing = match dependencies {
        Some(d) => entry_names(parsed[d as int].1),
        None => Seq::empty(),
    };
    let ghost found = names_view(found_lib_names@);
    let ghost storage = available_libraries@;
    let std_name = chars_of("std");
    let crate_name = chars_of("crate");
    let super_name = chars_of("super");
    let mut added: Vec<(Vec<char>, Vec<char>)> = Vec::new();
    let mut i: usize = 0;
    assert(entries_view(added@) =~= import_entries(
        missing_libraries(found, own, existing, storage, 0),
    ));
    while i < found_lib_names.len()
        invariant
            i <= found_lib_names@.len(),
            found == names_view(found_lib_names@),
            storage == available_libraries@,
            parsed == toml_view(toml@),
            package < toml@.len(),
            own_at < toml@[package as int].1@.len(),
            own == toml@[package as int].1@[own_at as int].1@,
            dependencies matches Some(d) ==> d < toml@.len(),
            existing == match dependencies {
                Some(d) => entry_names(parsed[d as int].1),
                None => Seq::empty(),
            },
            std_name@ == "std"@,
            crate_name@ == "crate"@,
            super_name@ == "super"@,
            entries_view(added@) == import_entries(
                missing_libraries(found, own, existing, storage, i as nat),
            ),
        decreases found_lib_names@.len() - i,
    {
        let name = chars_of(found_lib_names[i]);
        assert(found[i as int] == name@);
        let known = match dependencies {
            Some(d) => holds_name(&toml[d].1, name.as_slice()),
            None => false,
        };
        let missing = !same_chars(name.as_slice(), toml[package].1[own_at].1.as_slice())
            && !same_chars(name.as_slice(), std_name.as_slice()) && !same_chars(
            name.as_slice(),
            crate_name.as_slice(),
        ) && !same_chars(name.as_slice(), super_name.as_slice()) && !known;
        assert(missing == is_missing(found[i as int], own, existing));
        if missing {
            let wanted = string_of(name.as_slice());
            match find_index(&available_libraries.libraries, &wanted) {
                Some(k) => {
                    let library = &available_libraries.libraries[k];
                    let ghost before = entries_view(added@);
                    let ghost libs = missing_libraries(found, own, existing, storage, i as nat);
                    added.push(
                        (
                            chars_of(library.name.as_str()),
                            chars_of(library.as_import_value().as_str()),
                        ),
                    );
                    assert(storage[k as int] == library@);
                    assert(entries_view(added@) =~= before.push(
                        (library@.name, library@.import_value()),
                    ));
                    assert(entries_view(added@) =~= import_entries(libs.push(library@)));
                },
                None => {},
            }
        }
        i += 1;
    }
    if added.len() == 0 {
        return None;
    }
    let ghost extra = entries_view(added@);
    match dependencies {
        Some(d) => {
            let mut category = toml.remove(d);
            let ghost entries = entries_view(category.1@);
            category.1.append(&mut added);
            assert(entries_view(category.1@) =~= entries + extra);
            let ghost changed = (category.0@, entries_view(category.1@));
            toml.insert(d, category);
            assert(toml_view(toml@) =~= parsed.update(d as int, changed));
        },
        None => {
            toml.push((chars_of("dependencies"), added));
            assert(toml_view(toml@) =~= parsed.push(("dependencies"@, extra)));
        },
    }
    let text = render_toml(&toml);
    Some(string_of(text.as_slice()))
}

} // verus!
