//! Libraries that a package may depend on, as they are listed in a plain
//! text file: a name, and where the library comes from.

use vstd::prelude::*;
use crate::text::{
    append_chars, chars_of, contains, contains_seq, copy_chars, join, joined, lemma_split_last,
    slice_of, split, split_on, string_of, texts, trim, trim_quotes, trimmed, unquoted,
};

verus! {

/// What marks a source as the address of a git repository.
pub const GIT_URL_TAG: &'static str = "github.com";

/// Whether Unicode counts the character among the numbers, as
/// `char::is_numeric` reports it.
pub uninterp spec fn is_numeric_char(c: char) -> bool;

/// `char::is_numeric`: whether the character has one of Unicode's general
/// categories for numbers. The answer depends on the character alone.
#[verifier::external_body]
fn char_is_numeric(c: char) -> (r: bool)
    ensures
        r == is_numeric_char(c),
{
    c.is_numeric()
}

/// The mathematical model of a library.
pub ghost struct LibraryView {
    pub name: Seq<char>,
    pub versions: Seq<Seq<char>>,
    pub git_url: Option<Seq<char>>,
    pub local_path: Option<Seq<char>>,
}

/// Every character of `s` is numeric.
pub open spec fn all_numeric(s: Seq<char>) -> bool {
    forall|i: int| 0 <= i < s.len() ==> is_numeric_char(#[trigger] s[i])
}

/// The number of texts among `parts` that are numeric throughout.
pub open spec fn numeric_parts(parts: Seq<Seq<char>>) -> nat
    decreases parts.len(),
{
    if parts.len() == 0 {
        0
    } else {
        numeric_parts(parts.drop_last()) + if all_numeric(parts.last()) {
            1nat
        } else {
            0nat
        }
    }
}

/// A word is a version number where exactly three of its parts between
/// dots are numeric throughout.
pub open spec fn is_version(word: Seq<char>) -> bool {
    numeric_parts(split_on(word, '.')) == 3
}

/// What follows the last space of `s`; all of `s` where it holds none.
pub open spec fn last_word(s: Seq<char>) -> Seq<char> {
    split_on(s, ' ').last()
}

/// `s` without its last word and the white space around what is left.
pub open spec fn source_rest(s: Seq<char>) -> Seq<char> {
    trimmed(s.take(s.len() - last_word(s).len()))
}

/// Whether `s` ends in a version number.
pub open spec fn has_version(s: Seq<char>) -> bool {
    is_version(last_word(s)) && source_rest(s).len() < s.len()
}

/// A source without the version numbers at its end.
pub open spec fn source_base(s: Seq<char>) -> Seq<char>
    decreases s.len(),
{
    if has_version(s) {
        source_base(source_rest(s))
    } else {
        s
    }
}

/// The version numbers at the end of a source, in the order in which they
/// stand there.
pub open spec fn source_versions(s: Seq<char>) -> Seq<Seq<char>>
    decreases s.len(),
{
    if has_version(s) {
        source_versions(source_rest(s)).push(last_word(s))
    } else {
        Seq::empty()
    }
}

/// A value between double quotes, without the white space and the quotes
/// that stood around it.
pub open spec fn quoted(value: Seq<char>) -> Seq<char> {
    seq!['"'] + unquoted(trimmed(value)) + seq!['"']
}

/// A property of an import: the key, `=` and the quoted value.
pub open spec fn property(key: Seq<char>, value: Seq<char>) -> Seq<char> {
    key + seq!['='] + quoted(value)
}

impl LibraryView {
    /// The library that a name and a source describe, `on_disk` saying
    /// whether the source, without its version numbers, is a path that
    /// exists. A source that holds the git tag is a repository's address;
    /// any other that exists on disk is a local path.
    pub open spec fn resolved(name: Seq<char>, source: Seq<char>, on_disk: bool) -> LibraryView {
        let base = source_base(source);
        let git = contains_seq(base, GIT_URL_TAG@);
        LibraryView {
            name,
            versions: source_versions(source),
            git_url: if git {
                Some(base)
            } else {
                None
            },
            local_path: if !git && on_disk {
                Some(base)
            } else {
                None
            },
        }
    }

    /// The library with what `other` knows added: its version numbers after
    /// the library's own, and its address and path in place of them.
    pub open spec fn combined_with(self, other: LibraryView) -> LibraryView {
        LibraryView {
            name: self.name,
            versions: self.versions + other.versions,
            git_url: if other.git_url.is_some() {
                other.git_url
            } else {
                self.git_url
            },
            local_path: if other.local_path.is_some() {
                other.local_path
            } else {
                self.local_path
            },
        }
    }

    /// The properties of the import: the last version, the path and the
    /// address, as far as the library has them.
    pub open spec fn properties(self) -> Seq<Seq<char>> {
        (if self.versions.len() > 0 {
            seq![property("version"@, self.versions.last())]
        } else {
            Seq::empty()
        }) + (match self.local_path {
            Some(path) => seq![property("path"@, path)],
            None => Seq::empty(),
        }) + (match self.git_url {
            Some(url) => seq![property("git"@, url)],
            None => Seq::empty(),
        })
    }

    /// The value of the import: the properties between braces.
    pub open spec fn import_value(self) -> Seq<char> {
        "{ "@ + joined(self.properties(), ", "@) + " }"@
    }

    /// The line that imports the library in a package manifest.
    pub open spec fn import_string(self) -> Seq<char> {
        self.name + seq!['='] + self.import_value()
    }
}

/// A library: its name, the versions known of it, and where it comes from.
#[derive(Clone, Debug)]
pub struct Library {
    pub name: String,
    pub versions: Vec<String>,
    pub git_url: Option<String>,
    pub local_path: Option<String>,
}

/// The view of an optional string.
pub open spec fn option_text(s: Option<String>) -> Option<Seq<char>> {
    match s {
        Some(t) => Some(t@),
        None => None,
    }
}

/// The views of a list of strings.
pub open spec fn strings(v: Seq<String>) -> Seq<Seq<char>> {
    Seq::new(v.len(), |i: int| v[i]@)
}

impl View for Library {
    type V = LibraryView;

    open spec fn view(&self) -> LibraryView {
        LibraryView {
            name: self.name@,
            versions: strings(self.versions@),
            git_url: option_text(self.git_url),
            local_path: option_text(self.local_path),
        }
    }
}

/// Whether every character of `part` is numeric.
fn is_numeric_part(part: &[char]) -> (r: bool)
    ensures
        r == all_numeric(part@),
{
    let mut i: usize = 0;
    while i < part.len()
        invariant
            i <= part.len(),
            forall|j: int| 0 <= j < i ==> is_numeric_char(#[trigger] part@[j]),
        decreases part.len() - i,
    {
        if !char_is_numeric(part[i]) {
            return false;
        }
        i += 1;
    }
    true
}

/// Whether `word` is a version number.
pub fn is_version_word(word: &[char]) -> (r: bool)
    ensures
        r == is_version(word@),
{
    let parts = split(word, '.');
    let mut count: usize = 0;
    let mut i: usize = 0;
    assert(texts(parts@).take(0) =~= Seq::empty());
    while i < parts.len()
        invariant
            i <= parts@.len(),
            count <= i,
            count == numeric_parts(texts(parts@).take(i as int)),
        decreases parts@.len() - i,
    {
        assert(texts(parts@).take(i + 1).drop_last() =~= texts(parts@).take(i as int));
        if is_numeric_part(parts[i].as_slice()) {
            count += 1;
        }
        i += 1;
    }
    assert(texts(parts@).take(i as int) =~= texts(parts@));
    count == 3
}

/// Splits a source into what is left without the version numbers at its
/// end, and those version numbers.
pub fn split_source(source: &[char]) -> (r: (Vec<char>, Vec<Vec<char>>))
    ensures
        r.0@ == source_base(source@),
        texts(r.1@) == source_versions(source@),
    decreases source.len(),
{
    let words = split(source, ' ');
    let word = &words[words.len() - 1];
    proof {
        lemma_split_last(source@, ' ');
        assert(texts(words@).last() == word@);
    }
    let rest = trim(slice_of(source, 0, source.len() - word.len()).as_slice());
    assert(source@.subrange(0, source@.len() - word@.len()) =~= source@.take(
        source@.len() - word@.len(),
    ));
    if is_version_word(word.as_slice()) && rest.len() < source.len() {
        let (base, mut versions) = split_source(rest.as_slice());
        let ghost before = texts(versions@);
        versions.push(copy_chars(word.as_slice()));
        assert(texts(versions@) =~= before.push(word@));
        (base, versions)
    } else {
        let base = copy_chars(source);
        let versions: Vec<Vec<char>> = Vec::new();
        assert(texts(versions@) =~= Seq::empty());
        (base, versions)
    }
}

/// A value between double quotes, without the white space and the quotes
/// that stood around it.
fn quote(value: &[char]) -> (r: Vec<char>)
    ensures
        r@ == quoted(value@),
{
    let inner = trim_quotes(trim(value).as_slice());
    let mut out: Vec<char> = Vec::new();
    out.push('"');
    append_chars(&mut out, inner.as_slice());
    out.push('"');
    assert(out@ =~= quoted(value@));
    out
}

/// A property of an import: the key, `=` and the quoted value.
fn make_property(key: &str, value: &str) -> (r: Vec<char>)
    ensures
        r@ == property(key@, value@),
{
    let mut out = chars_of(key);
    out.push('=');
    let q = quote(chars_of(value).as_slice());
    append_chars(&mut out, q.as_slice());
    assert(out@ =~= property(key@, value@));
    out
}

impl Library {
    /// The library that `name` and `source` describe. The version numbers
    /// at the end of the source are taken off first. What is left is the
    /// address of a git repository where it holds the git tag; else it is a
    /// local path where `on_disk` says that something on disk has that path;
    /// else the library has a name and nothing more.
    pub fn new(name: &str, source: &str, on_disk: bool) -> (r: Library)
        ensures
            r@ == LibraryView::resolved(name@, source@, on_disk),
    {
        let chars = chars_of(source);
        let (base, found) = split_source(chars.as_slice());
        let tag = chars_of(GIT_URL_TAG);
        let git = contains(base.as_slice(), tag.as_slice());
        let mut versions: Vec<String> = Vec::new();
        let mut i: usize = 0;
        while i < found.len()
            invariant
                i <= found@.len(),
                strings(versions@) =~= texts(found@).take(i as int),
            decreases found@.len() - i,
        {
            let ghost before = strings(versions@);
            versions.push(string_of(found[i].as_slice()));
            assert(strings(versions@) =~= before.push(found@[i as int]@));
            i += 1;
        }
        assert(texts(found@).take(i as int) =~= texts(found@));
        let r = Library {
            name: name.to_owned(),
            versions,
            git_url: if git {
                Some(string_of(base.as_slice()))
            } else {
                None
            },
            local_path: if !git && on_disk {
                Some(string_of(base.as_slice()))
            } else {
                None
            },
        };
        assert(r@.versions =~= source_versions(source@));
        r
    }

    /// The path that has to be looked for on disk to know where the library
    /// of a source comes from: the source without the version numbers at
    /// its end.
    pub fn source_path(source: &str) -> (r: String)
        ensures
            r@ == source_base(source@),
    {
        let chars = chars_of(source);
        let (base, _) = split_source(chars.as_slice());
        string_of(base.as_slice())
    }

    /// A library that comes from a git repository.
    pub fn git(name: &str, git_url: &str) -> (r: Library)
        ensures
            r@ == (LibraryView {
                name: name@,
                versions: Seq::empty(),
                git_url: Some(git_url@),
                local_path: None,
            }),
    {
        let r = Library {
            name: name.to_owned(),
            versions: Vec::new(),
            git_url: Some(git_url.to_owned()),
            local_path: None,
        };
        assert(r@.versions =~= Seq::empty());
        r
    }

    /// A library that lies at a local path.
    pub fn local(name: &str, path: &str) -> (r: Library)
        ensures
            r@ == (LibraryView {
                name: name@,
                versions: Seq::empty(),
                git_url: None,
                local_path: Some(path@),
            }),
    {
        let r = Library {
            name: name.to_owned(),
            versions: Vec::new(),
            git_url: None,
            local_path: Some(path.to_owned()),
        };
        assert(r@.versions =~= Seq::empty());
        r
    }

    /// The library with one more version number.
    pub fn with_version_number(self, version: &str) -> (r: Library)
        ensures
            r@ == (LibraryView { versions: self@.versions.push(version@), ..self@ }),
    {
        let mut r = self;
        r.versions.push(version.to_owned());
        assert(r@.versions =~= self@.versions.push(version@));
        r
    }

    /// Adds what `other` knows to this library: its version numbers after
    /// the library's own, and its address and path in place of them.
    pub fn combine_with(&mut self, other: Library)
        ensures
            final(self)@ == old(self)@.combined_with(other@),
    {
        let ghost given = other@;
        let Library { name: _, versions, git_url, local_path } = other;
        let mut versions = versions;
        self.versions.append(&mut versions);
        if let Some(git_url) = git_url {
            self.git_url = Some(git_url);
        }
        if let Some(local_path) = local_path {
            self.local_path = Some(local_path);
        }
        assert(self@.versions =~= old(self)@.versions + given.versions);
    }

    /// The value of the import: the properties between braces.
    pub fn as_import_value(&self) -> (r: String)
        ensures
            r@ == self@.import_value(),
    {
        let mut properties: Vec<Vec<char>> = Vec::new();
        assert(texts(properties@) =~= Seq::empty());
        if self.versions.len() > 0 {
            let version = &self.versions[self.versions.len() - 1];
            properties.push(make_property("version", version.as_str()));
            assert(texts(properties@) =~= seq![property("version"@, self@.versions.last())]);
        }
        let ghost first = texts(properties@);
        if let Some(local_path) = &self.local_path {
            properties.push(make_property("path", local_path.as_str()));
            assert(texts(properties@) =~= first + seq![property("path"@, local_path@)]);
        } else {
            assert(texts(properties@) =~= first + Seq::empty());
        }
        let ghost second = texts(properties@);
        if let Some(git_url) = &self.git_url {
            properties.push(make_property("git", git_url.as_str()));
            assert(texts(properties@) =~= second + seq![property("git"@, git_url@)]);
        } else {
            assert(texts(properties@) =~= second + Seq::empty());
        }
        let mut out = chars_of("{ ");
        let list = join(&properties, chars_of(", ").as_slice());
        append_chars(&mut out, list.as_slice());
        append_chars(&mut out, chars_of(" }").as_slice());
        string_of(out.as_slice())
    }

    /// The line that imports the library in a package manifest: the name,
    /// `=` and the properties between braces.
    pub fn as_import_string(&self) -> (r: String)
        ensures
            r@ == self@.import_string(),
    {
        let mut out = chars_of(self.name.as_str());
        out.push('=');
        let value = self.as_import_value();
        append_chars(&mut out, chars_of(value.as_str()).as_slice());
        assert(out@ =~= self@.import_string());
        string_of(out.as_slice())
    }
}

} // verus!
