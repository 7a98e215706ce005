//! The libraries that are known, each name once.

use vstd::prelude::*;
use crate::library::{strings, Library, LibraryView};
use crate::text::{
    chars_of, is_space, is_whitespace, leading_run, lemma_leading_run_is, slice_of, split,
    split_on, string_of, texts, trim, trimmed,
};

verus! {

/// The models of a list of libraries.
pub open spec fn library_views(libs: Seq<Library>) -> Seq<LibraryView> {
    Seq::new(libs.len(), |i: int| libs[i]@)
}

/// The index of the first library of the list that has the given name.
pub open spec fn index_of_name(libs: Seq<LibraryView>, name: Seq<char>) -> Option<int>
    decreases libs.len(),
{
    if libs.len() == 0 {
        None
    } else {
        match index_of_name(libs.drop_last(), name) {
            Some(i) => Some(i),
            None => if libs.last().name == name {
                Some(libs.len() - 1)
            } else {
                None
            },
        }
    }
}

/// The list with one more library taken in: combined with the library of
/// its name where the list has one, else added at the end.
pub open spec fn absorb(libs: Seq<LibraryView>, lib: LibraryView) -> Seq<LibraryView> {
    match index_of_name(libs, lib.name) {
        Some(i) => libs.update(i, libs[i].combined_with(lib)),
        None => libs.push(lib),
    }
}

/// The list with the libraries of one name combined into the first of
/// them, in the order in which they stand.
pub open spec fn combined(libs: Seq<LibraryView>) -> Seq<LibraryView>
    decreases libs.len(),
{
    if libs.len() == 0 {
        Seq::empty()
    } else {
        absorb(combined(libs.drop_last()), libs.last())
    }
}

/// No name occurs twice in the list.
pub open spec fn distinct_names(libs: Seq<LibraryView>) -> bool {
    forall|i: int, j: int| 0 <= i < j < libs.len() ==> libs[i].name != libs[j].name
}

/// What `index_of_name` finds has the name, and nothing before it has.
pub proof fn lemma_index_of_name(libs: Seq<LibraryView>, name: Seq<char>)
    ensures
        match index_of_name(libs, name) {
            Some(i) => 0 <= i < libs.len() && libs[i].name == name && forall|j: int|
                0 <= j < i ==> libs[j].name != name,
            None => forall|j: int| 0 <= j < libs.len() ==> libs[j].name != name,
        },
    decreases libs.len(),
{
    if libs.len() > 0 {
        let front = libs.drop_last();
        lemma_index_of_name(front, name);
        assert forall|j: int| 0 <= j < front.len() implies front[j] == libs[j] by {}
        match index_of_name(front, name) {
            Some(i) => {
                assert(libs[i] == front[i]);
                assert forall|j: int| 0 <= j < i implies libs[j].name != name by {
                    assert(libs[j] == front[j]);
                }
            },
            None => {
                assert forall|j: int| 0 <= j < front.len() implies libs[j].name != name by {
                    assert(libs[j] == front[j]);
                }
            },
        }
    }
}

/// Combining leaves every name once, and no library out.
pub proof fn lemma_combined_distinct(libs: Seq<LibraryView>)
    ensures
        distinct_names(combined(libs)),
        combined(libs).len() <= libs.len(),
        forall|i: int|
            0 <= i < libs.len() ==> index_of_name(
                combined(libs),
                (#[trigger] libs[i]).name,
            ).is_some(),
    decreases libs.len(),
{
    if libs.len() > 0 {
        let before = combined(libs.drop_last());
        let lib = libs.last();
        lemma_combined_distinct(libs.drop_last());
        lemma_index_of_name(before, lib.name);
        let after = combined(libs);
        assert forall|i: int| 0 <= i < libs.len() implies index_of_name(
            after,
            (#[trigger] libs[i]).name,
        ).is_some() by {
            lemma_index_of_name(after, libs[i].name);
            if i < libs.len() - 1 {
                assert(libs[i] == libs.drop_last()[i]);
                lemma_index_of_name(before, libs[i].name);
                let k = index_of_name(before, libs[i].name).unwrap();
                assert(after[k].name == libs[i].name);
            } else {
                match index_of_name(before, lib.name) {
                    Some(k) => {
                        assert(after[k].name == lib.name);
                    },
                    None => {
                        assert(after[after.len() - 1].name == lib.name);
                    },
                }
            }
        }
    }
}

/// Combining a list in which every name occurs once changes nothing.
pub proof fn lemma_combined_of_distinct(libs: Seq<LibraryView>)
    requires
        distinct_names(libs),
    ensures
        combined(libs) == libs,
    decreases libs.len(),
{
    if libs.len() > 0 {
        let front = libs.drop_last();
        lemma_combined_of_distinct(front);
        lemma_index_of_name(front, libs.last().name);
        assert(front.push(libs.last()) =~= libs);
    } else {
        assert(combined(libs) =~= libs);
    }
}

/// Combining twice gives what combining once gives.
pub proof fn lemma_combined_twice(libs: Seq<LibraryView>)
    ensures
        combined(combined(libs)) == combined(libs),
{
    lemma_combined_distinct(libs);
    lemma_combined_of_distinct(combined(libs));
}

/// The libraries that are known. Every name occurs once.
pub struct LibrariesStorage {
    pub libraries: Vec<Library>,
}

impl View for LibrariesStorage {
    type V = Seq<LibraryView>;

    open spec fn view(&self) -> Seq<LibraryView> {
        library_views(self.libraries@)
    }
}

impl LibrariesStorage {
    /// The storage is well formed: no name occurs twice.
    pub open spec fn wf(&self) -> bool {
        distinct_names(self@)
    }
}

/// A copy of a list of strings.
fn copy_strings(v: &Vec<String>) -> (r: Vec<String>)
    ensures
        strings(r@) == strings(v@),
{
    let mut out: Vec<String> = Vec::new();
    let mut i: usize = 0;
    while i < v.len()
        invariant
            i <= v@.len(),
            strings(out@) =~= strings(v@).take(i as int),
        decreases v@.len() - i,
    {
        let ghost before = strings(out@);
        out.push(v[i].clone());
        assert(strings(out@) =~= before.push(v@[i as int]@));
        i += 1;
    }
    assert(strings(v@).take(i as int) =~= strings(v@));
    out
}

impl Library {
    /// A library equal to this one.
    pub fn copy(&self) -> (r: Library)
        ensures
            r@ == self@,
    {
        Library {
            name: self.name.clone(),
            versions: copy_strings(&self.versions),
            git_url: match &self.git_url {
                Some(url) => Some(url.clone()),
                None => None,
            },
            local_path: match &self.local_path {
                Some(path) => Some(path.clone()),
                None => None,
            },
        }
    }
}

/// The index of the first library of the list that has the given name.
pub fn find_index(libs: &Vec<Library>, name: &String) -> (r: Option<usize>)
    ensures
        match r {
            Some(i) => index_of_name(library_views(libs@), name@) == Some(i as int) && i
                < libs@.len(),
            None => index_of_name(library_views(libs@), name@).is_none(),
        },
{
    let ghost all = library_views(libs@);
    proof {
        lemma_index_of_name(all, name@);
    }
    let mut i: usize = 0;
    while i < libs.len()
        invariant
            i <= libs@.len(),
            all == library_views(libs@),
            forall|j: int| 0 <= j < i ==> all[j].name != name@,
        decreases libs@.len() - i,
    {
        if libs[i].name == *name {
            assert(all[i as int].name == name@);
            proof {
                lemma_index_of_name(all, name@);
            }
            return Some(i);
        }
        i += 1;
    }
    proof {
        lemma_index_of_name(all, name@);
    }
    None
}

/// The list with the libraries of one name combined into the first of them.
pub fn combine(libraries: &Vec<Library>) -> (r: Vec<Library>)
    ensures
        library_views(r@) == combined(library_views(libraries@)),
{
    let ghost all = library_views(libraries@);
    let mut out: Vec<Library> = Vec::new();
    let mut i: usize = 0;
    assert(all.take(0) =~= Seq::empty());
    assert(library_views(out@) =~= Seq::empty());
    while i < libraries.len()
        invariant
            i <= libraries@.len(),
            all == library_views(libraries@),
            library_views(out@) == combined(all.take(i as int)),
        decreases libraries@.len() - i,
    {
        let lib = libraries[i].copy();
        let ghost before = library_views(out@);
        assert(all.take(i + 1).drop_last() =~= all.take(i as int));
        assert(all.take(i + 1).last() == lib@);
        match find_index(&out, &lib.name) {
            Some(k) => {
                let mut target = out.remove(k);
                target.combine_with(lib);
                let ghost merged = target@;
                out.insert(k, target);
                assert(library_views(out@) =~= before.update(k as int, merged));
            },
            None => {
                out.push(lib);
                assert(library_views(out@) =~= before.push(lib@));
            },
        }
        i += 1;
    }
    assert(all.take(i as int) =~= all);
    out
}

impl LibrariesStorage {
    /// A storage of the given libraries, those of one name combined.
    pub fn new(libraries: Vec<Library>) -> (r: LibrariesStorage)
        ensures
            r@ == combined(library_views(libraries@)),
            r.wf(),
    {
        let mut storage = LibrariesStorage { libraries };
        storage.combine_libraries();
        storage
    }

    /// Combines the libraries of one name into the first of them.
    pub fn combine_libraries(&mut self)
        ensures
            final(self)@ == combined(old(self)@),
            final(self).wf(),
            old(self).wf() ==> final(self)@ == old(self)@,
    {
        proof {
            lemma_combined_distinct(self@);
            if self.wf() {
                lemma_combined_of_distinct(self@);
            }
        }
        let combined = combine(&self.libraries);
        self.libraries = combined;
    }

    /// The library of the given name.
    pub fn find(&self, library_name: &str) -> (r: Option<&Library>)
        ensures
            match r {
                Some(lib) => index_of_name(self@, library_name@) matches Some(i) && self@[i]
                    == lib@,
                None => index_of_name(self@, library_name@).is_none(),
            },
    {
        let name = library_name.to_owned();
        match find_index(&self.libraries, &name) {
            Some(i) => Some(&self.libraries[i]),
            None => None,
        }
    }
}



/// The name on a line of a library list: what stands before the first
/// white space.
pub open spec fn line_name(line: Seq<char>) -> Seq<char> {
    line.take(leading_run(line, |c: char| !is_space(c)))
}

/// The source on a line of a library list: what follows the white space
/// after the name.
pub open spec fn line_source(line: Seq<char>) -> Seq<char> {
    let rest = line.skip(leading_run(line, |c: char| !is_space(c)));
    let gap = leading_run(rest, |c: char| is_space(c));
    if gap == rest.len() {
        rest
    } else {
        rest.skip(gap)
    }
}

/// The names and sources on the first `n` lines of a library list; lines
/// that hold white space only are passed over.
pub open spec fn listed(lines: Seq<Seq<char>>, n: nat) -> Seq<(Seq<char>, Seq<char>)>
    decreases n,
{
    if n == 0 || n > lines.len() {
        Seq::empty()
    } else {
        let before = listed(lines, (n - 1) as nat);
        let line = trimmed(lines[n - 1]);
        if line.len() == 0 {
            before
        } else {
            before.push((line_name(line), line_source(line)))
        }
    }
}

/// Pairs of strings as the model lists them.
pub open spec fn pair_views(s: Seq<(String, String)>) -> Seq<(Seq<char>, Seq<char>)> {
    Seq::new(s.len(), |i: int| (s[i].0@, s[i].1@))
}

/// Reads a library list: on every line a name, white space, and the source
/// of the library. Returns the name and the source of every line.
pub fn library_lines(contents: &str) -> (r: Vec<(String, String)>)
    ensures
        pair_views(r@) == listed(split_on(contents@, '\n'), split_on(contents@, '\n').len()),
{
    let chars = chars_of(contents);
    let lines = split(chars.as_slice(), '\n');
    let ghost all = texts(lines@);
    let mut out: Vec<(String, String)> = Vec::new();
    let mut i: usize = 0;
    assert(pair_views(out@) =~= Seq::empty());
    while i < lines.len()
        invariant
            i <= lines@.len(),
            all == texts(lines@),
            pair_views(out@) == listed(all, i as nat),
        decreases lines@.len() - i,
    {
        assert(all[i as int] == lines@[i as int]@);
        let line = trim(lines[i].as_slice());
        if line.len() > 0 {
            let mut a: usize = 0;
            while a < line.len() && !is_whitespace(line[a])
                invariant
                    a <= line.len(),
                    forall|j: int| 0 <= j < a ==> !is_space(line@[j]),
                decreases line.len() - a,
            {
                a += 1;
            }
            proof {
                lemma_leading_run_is(line@, |c: char| !is_space(c), a as int);
            }
            let mut b: usize = a;
            while b < line.len() && is_whitespace(line[b])
                invariant
                    a <= b <= line.len(),
                    forall|j: int| a <= j < b ==> is_space(line@[j]),
                decreases line.len() - b,
            {
                b += 1;
            }
            proof {
                let rest = line@.skip(a as int);
                assert forall|j: int| 0 <= j < b - a implies is_space(rest[j]) by {
                    assert(rest[j] == line@[a + j]);
                }
                if b < line.len() {
                    assert(rest[b - a] == line@[b as int]);
                }
                lemma_leading_run_is(rest, |c: char| is_space(c), b - a);
                assert(rest.skip(b - a) =~= line@.skip(b as int));
            }
            let from = if b == line.len() {
                a
            } else {
                b
            };
            let name = slice_of(line.as_slice(), 0, a);
            let source = slice_of(line.as_slice(), from, line.len());
            assert(name@ =~= line_name(line@));
            assert(source@ =~= line_source(line@));
            let ghost before = pair_views(out@);
            out.push((string_of(name.as_slice()), string_of(source.as_slice())));
            assert(pair_views(out@) =~= before.push((name@, source@)));
        }
        i += 1;
    }
    out
}

} // verus!
