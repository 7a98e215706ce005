//! The files of a package as the synthesizer sees them: their text, the
//! tree it parsed into, and whether the tree holds changes that are not
//! written back yet.

use vstd::prelude::*;
use crate::parser::{NestedParser, ParseError};
use crate::segment::{Segment, Tree};
use crate::text::{copy_chars, same_chars};

verus! {

/// The mathematical model of a code file.
pub ghost struct FileView {
    pub path: Seq<char>,
    pub name: Seq<char>,
    pub contents: Seq<char>,
    pub tree: Tree,
    pub gotten_mutable: bool,
    pub stored_changes: bool,
}

impl FileView {
    /// What has to be written to disk when the file's changes are stored:
    /// the path and the new text, where the tree was handed out for changes
    /// and no longer stands for the text that was read.
    pub open spec fn pending(self) -> Option<(Seq<char>, Seq<char>)> {
        if self.gotten_mutable && self.tree.text() != self.contents {
            Some((self.path, self.tree.text()))
        } else {
            None
        }
    }

    /// The file after its changes are stored.
    pub open spec fn stored(self) -> FileView {
        if self.gotten_mutable {
            FileView { contents: self.tree.text(), stored_changes: true, ..self }
        } else {
            self
        }
    }

    /// Whether the tree was handed out for changes that were never stored.
    pub open spec fn unsaved(self) -> bool {
        self.gotten_mutable && !self.stored_changes
    }
}

/// A source file: where it lies, the name of the module it holds, its text
/// as it was read, and the tree of that text.
pub struct CodeFile {
    pub path: String,
    pub name: Vec<char>,
    pub contents: Vec<char>,
    pub parsed_contents: Segment,
    pub gotten_mutable: bool,
    pub stored_changes: bool,
}

impl View for CodeFile {
    type V = FileView;

    open spec fn view(&self) -> FileView {
        FileView {
            path: self.path@,
            name: self.name@,
            contents: self.contents@,
            tree: self.parsed_contents@,
            gotten_mutable: self.gotten_mutable,
            stored_changes: self.stored_changes,
        }
    }
}

impl CodeFile {
    /// The file at `path` that holds the module `name` and has the text
    /// `contents`. Fails where the text does not parse.
    pub fn new(path: &str, name: &[char], contents: &[char], parser: &NestedParser) -> (r: Result<
        CodeFile,
        ParseError,
    >)
        ensures
            match r {
                Ok(file) => parser.parse_spec(contents@) == Ok::<Tree, ParseError>(file@.tree)
                    && file@ == (FileView {
                    path: path@,
                    name: name@,
                    contents: contents@,
                    tree: file@.tree,
                    gotten_mutable: false,
                    stored_changes: false,
                }),
                Err(e) => parser.parse_spec(contents@) == Err::<Tree, ParseError>(e),
            },
            parser.wf() ==> (r matches Ok(file) ==> file@.tree.text() == contents@),
    {
        match parser.parse(contents) {
            Ok(tree) => {
                Ok(
                    CodeFile {
                        path: path.to_owned(),
                        name: copy_chars(name),
                        contents: copy_chars(contents),
                        parsed_contents: tree,
                        gotten_mutable: false,
                        stored_changes: false,
                    },
                )
            },
            Err(e) => Err(e),
        }
    }

    /// The tree of the file's text.
    pub fn contents(&self) -> (r: &Segment)
        ensures
            r@ == self@.tree,
    {
        &self.parsed_contents
    }

    /// Hands the tree of the file's text out for changes. The file now
    /// holds changes that are to be stored.
    pub fn contents_mut(&mut self) -> (r: &mut Segment)
        ensures
            *r == old(self).parsed_contents,
            final(self)@ == (FileView { tree: final(r)@, gotten_mutable: true, ..old(self)@ }),
    {
        self.gotten_mutable = true;
        &mut self.parsed_contents
    }

    /// Whether the tree was handed out for changes that were never stored.
    pub fn has_unsaved_changes(&self) -> (r: bool)
        ensures
            r == self@.unsaved(),
    {
        self.gotten_mutable && !self.stored_changes
    }

    /// Stores the changes of the file: returns the text that has to be
    /// written to disk, or `None` where the tree was never handed out for
    /// changes or still stands for the text that was read.
    pub fn store_changes(&mut self) -> (r: Option<Vec<char>>)
        ensures
            final(self)@ == old(self)@.stored(),
            match r {
                Some(text) => old(self)@.pending() == Some((old(self)@.path, text@)),
                None => old(self)@.pending().is_none(),
            },
    {
        if self.gotten_mutable {
            let text = self.parsed_contents.serialize();
            self.stored_changes = true;
            if same_chars(text.as_slice(), self.contents.as_slice()) {
                assert(self@.contents == old(self)@.tree.text());
                None
            } else {
                self.contents = copy_chars(text.as_slice());
                Some(text)
            }
        } else {
            None
        }
    }
}

/// The mathematical model of a module file with what belongs to it.
pub ghost struct ModView {
    pub file: FileView,
    pub is_root: bool,
    pub source_files: Seq<FileView>,
    pub sub_mod_files: Seq<ModView>,
}

/// A module file, the source files beside it, and the module files of the
/// directories beside it.
pub struct ModFile {
    pub file: CodeFile,
    pub is_root: bool,
    pub source_files: Vec<CodeFile>,
    pub sub_mod_files: Vec<ModFile>,
}

/// The models of a list of code files.
pub open spec fn file_views(s: Seq<CodeFile>) -> Seq<FileView> {
    Seq::new(s.len(), |i: int| s[i]@)
}

impl ModFile {
    /// The module file as a mathematical value.
    pub open spec fn model(&self) -> ModView
        decreases self,
    {
        ModView {
            file: self.file@,
            is_root: self.is_root,
            source_files: file_views(self.source_files@),
            sub_mod_files: Seq::new(
                self.sub_mod_files@.len(),
                |i: int|
                    if 0 <= i < self.sub_mod_files@.len() {
                        self.sub_mod_files@[i].model()
                    } else {
                        arbitrary()
                    },
            ),
        }
    }
}

impl View for ModFile {
    type V = ModView;

    open spec fn view(&self) -> ModView {
        self.model()
    }
}

/// The models of a list of module files.
pub open spec fn mod_views(s: Seq<ModFile>) -> Seq<ModView> {
    Seq::new(s.len(), |i: int| s[i]@)
}

/// The sub-modules of a module's model are the models of its sub-modules.
pub proof fn lemma_sub_mod_views(m: ModFile)
    ensures
        m@.sub_mod_files == mod_views(m.sub_mod_files@),
{
    assert(m@.sub_mod_files.len() == m.sub_mod_files@.len());
    assert forall|i: int| 0 <= i < m.sub_mod_files@.len() implies m@.sub_mod_files[i]
        == mod_views(m.sub_mod_files@)[i] by {}
    assert(m@.sub_mod_files =~= mod_views(m.sub_mod_files@));
}

/// What has to be written when the changes of the first `n` files of the
/// list are stored.
pub open spec fn pending_files(files: Seq<FileView>, n: nat) -> Seq<(Seq<char>, Seq<char>)>
    decreases n,
{
    if n == 0 {
        Seq::empty()
    } else {
        pending_files(files, (n - 1) as nat) + match files[n - 1].pending() {
            Some(w) => seq![w],
            None => Seq::empty(),
        }
    }
}

impl ModView {
    /// What has to be written when the changes of the module are stored:
    /// the module file, the source files, and then the sub-modules.
    pub open spec fn pending(self) -> Seq<(Seq<char>, Seq<char>)>
        decreases self,
    {
        (match self.file.pending() {
            Some(w) => seq![w],
            None => Seq::empty(),
        }) + pending_files(self.source_files, self.source_files.len()) + pending_mods(
            self.sub_mod_files,
            self.sub_mod_files.len(),
        )
    }

    /// The module after its changes are stored.
    pub open spec fn stored(self) -> ModView
        decreases self,
    {
        ModView {
            file: self.file.stored(),
            is_root: self.is_root,
            source_files: Seq::new(self.source_files.len(), |i: int| self.source_files[i].stored()),
            sub_mod_files: Seq::new(
                self.sub_mod_files.len(),
                |i: int|
                    if 0 <= i < self.sub_mod_files.len() {
                        self.sub_mod_files[i].stored()
                    } else {
                        arbitrary()
                    },
            ),
        }
    }
}

/// What has to be written when the changes of the first `n` modules of the
/// list are stored.
pub open spec fn pending_mods(mods: Seq<ModView>, n: nat) -> Seq<(Seq<char>, Seq<char>)>
    decreases mods, n,
{
    if n == 0 || n > mods.len() {
        Seq::empty()
    } else {
        pending_mods(mods, (n - 1) as nat) + mods[n - 1].pending()
    }
}

/// Writes as the model lists them: the path and the text of each.
pub open spec fn write_views(s: Seq<(String, Vec<char>)>) -> Seq<(Seq<char>, Seq<char>)> {
    Seq::new(s.len(), |i: int| (s[i].0@, s[i].1@))
}



/// Stores the changes of every file of the list and appends what has to be
/// written to `out`.
pub fn store_files(files: &mut Vec<CodeFile>, out: &mut Vec<(String, Vec<char>)>)
    ensures
        final(files)@.len() == old(files)@.len(),
        forall|i: int|
            0 <= i < old(files)@.len() ==> (#[trigger] final(files)@[i])@ == old(
                files,
            )@[i]@.stored(),
        write_views(final(out)@) == write_views(old(out)@) + pending_files(
            file_views(old(files)@),
            old(files)@.len() as nat,
        ),
{
    let ghost before = file_views(files@);
    let mut i: usize = 0;
    assert(write_views(out@) =~= write_views(old(out)@) + pending_files(before, 0));
    while i < files.len()
        invariant
            i <= files@.len(),
            files@.len() == old(files)@.len(),
            before == file_views(old(files)@),
            forall|j: int| 0 <= j < i ==> (#[trigger] files@[j])@ == before[j].stored(),
            forall|j: int| i <= j < files@.len() ==> (#[trigger] files@[j])@ == before[j],
            write_views(out@) == write_views(old(out)@) + pending_files(before, i as nat),
        decreases files@.len() - i,
    {
        let ghost sofar = write_views(out@);
        let path = files[i].path.clone();
        match files[i].store_changes() {
            Some(text) => {
                out.push((path, text));
                assert(write_views(out@) =~= sofar + seq![(path@, text@)]);
                assert(write_views(out@) =~= write_views(old(out)@) + (pending_files(
                    before,
                    i as nat,
                ) + seq![(path@, text@)]));
            },
            None => {
                assert(write_views(out@) =~= write_views(old(out)@) + (pending_files(
                    before,
                    i as nat,
                ) + Seq::empty()));
            },
        }
        i += 1;
    }
}

impl ModFile {
    /// Stores the changes of the module file, of the source files and of
    /// the sub-modules, and appends what has to be written to `out`.
    #[verifier::loop_isolation(false)]
    pub fn store_into(&mut self, out: &mut Vec<(String, Vec<char>)>)
        ensures
            final(self)@ == old(self)@.stored(),
            write_views(final(out)@) == write_views(old(out)@) + old(self)@.pending(),
        decreases *old(self),
    {
        proof {
            lemma_sub_mod_views(*self);
        }
        let ghost before = self@;
        let ghost start = write_views(out@);
        let path = self.file.path.clone();
        match self.file.store_changes() {
            Some(text) => {
                out.push((path, text));
                assert(write_views(out@) =~= start + seq![(path@, text@)]);
            },
            None => {
                assert(write_views(out@) =~= start + Seq::empty());
            },
        }
        let ghost first = write_views(out@);
        store_files(&mut self.source_files, out);
        let ghost second = write_views(out@);
        let ghost subs = before.sub_mod_files;
        let mut i: usize = 0;
        assert(write_views(out@) =~= second + pending_mods(subs, 0));
        while i < self.sub_mod_files.len()
            invariant
                i <= self.sub_mod_files@.len(),
                self.sub_mod_files@.len() == subs.len(),
                self.sub_mod_files@.len() == old(self).sub_mod_files@.len(),
                self.file@ == before.file.stored(),
                self.is_root == before.is_root,
                file_views(self.source_files@) =~= Seq::new(
                    before.source_files.len(),
                    |k: int| before.source_files[k].stored(),
                ),
                forall|j: int|
                    0 <= j < i ==> (#[trigger] self.sub_mod_files@[j])@ == subs[j].stored(),
                forall|j: int|
                    i <= j < subs.len() ==> (#[trigger] self.sub_mod_files@[j]) == old(
                        self,
                    ).sub_mod_files@[j],
                write_views(out@) == second + pending_mods(subs, i as nat),
            decreases self.sub_mod_files@.len() - i,
        {
            let ghost sofar = write_views(out@);
            assert(self.sub_mod_files@[i as int] == old(self).sub_mod_files@[i as int]);
            assert(subs[i as int] == old(self).sub_mod_files@[i as int]@);
            self.sub_mod_files[i].store_into(out);
            assert(write_views(out@) =~= second + (pending_mods(subs, i as nat)
                + subs[i as int].pending()));
            i += 1;
        }
        proof {
            lemma_sub_mod_views(*self);
            assert(self@.sub_mod_files =~= before.stored().sub_mod_files);
            assert(self@.source_files =~= before.stored().source_files);
            assert(write_views(out@) =~= write_views(old(out)@) + before.pending());
        }
    }

    /// Stores the changes of the module file, of the source files and of
    /// the sub-modules. Returns what has to be written to disk: the path
    /// and the new text of every file whose text changed.
    pub fn store_changes(&mut self) -> (r: Vec<(String, Vec<char>)>)
        ensures
            final(self)@ == old(self)@.stored(),
            write_views(r@) == old(self)@.pending(),
    {
        let mut out: Vec<(String, Vec<char>)> = Vec::new();
        self.store_into(&mut out);
        assert(write_views(Seq::<(String, Vec<char>)>::empty()) + old(self)@.pending() =~= old(
            self,
        )@.pending());
        out
    }
}

/// The directory of a package, with the module file at the root of its
/// module tree.
pub struct CrateDir {
    pub path: String,
    pub mod_files: Vec<ModFile>,
}

impl CrateDir {
    /// Stores the changes of every module of the package. Returns what has
    /// to be written to disk.
    pub fn store_changes(&mut self) -> (r: Vec<(String, Vec<char>)>)
        ensures
            final(self).path == old(self).path,
            final(self).mod_files@.len() == old(self).mod_files@.len(),
            forall|i: int|
                0 <= i < old(self).mod_files@.len() ==> (#[trigger] final(self).mod_files@[i])@
                    == old(self).mod_files@[i]@.stored(),
            write_views(r@) == pending_mods(
                mod_views(old(self).mod_files@),
                old(self).mod_files@.len() as nat,
            ),
    {
        let mut out: Vec<(String, Vec<char>)> = Vec::new();
        let ghost mods = mod_views(self.mod_files@);
        let mut i: usize = 0;
        assert(write_views(out@) =~= pending_mods(mods, 0));
        while i < self.mod_files.len()
            invariant
                i <= self.mod_files@.len(),
                self.path == old(self).path,
                self.mod_files@.len() == old(self).mod_files@.len(),
                mods == mod_views(old(self).mod_files@),
                forall|j: int| 0 <= j < i ==> (#[trigger] self.mod_files@[j])@ == mods[j].stored(),
                forall|j: int|
                    i <= j < mods.len() ==> (#[trigger] self.mod_files@[j]) == old(
                        self,
                    ).mod_files@[j],
                write_views(out@) == pending_mods(mods, i as nat),
            decreases self.mod_files@.len() - i,
        {
            assert(self.mod_files@[i as int] == old(self).mod_files@[i as int]);
            self.mod_files[i].store_into(&mut out);
            i += 1;
        }
        out
    }
}

} // verus!
