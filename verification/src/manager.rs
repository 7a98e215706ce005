//! The settings of a run over the module files of packages, and the run
//! itself on files that are already read.

use vstd::prelude::*;
use crate::files::{mod_views, pending_mods, write_views, CodeFile, CrateDir, ModFile, ModView};
use crate::lib_export_generator::generate_exports_for_mod;
use crate::parser::NestedParser;

verus! {

/// What a run does, and whether it was made.
pub struct CrateManager {
    pub generate_exports: bool,
    pub ran: bool,
}

/// A module after a run: with its exports generated where the run
/// generates exports, else as it was.
pub open spec fn processed(m: ModView, generate_exports: bool, parser: &NestedParser) -> ModView {
    if generate_exports {
        m.generated(parser)
    } else {
        m
    }
}

/// The modules of a list after a run.
pub open spec fn processed_mods(
    mods: Seq<ModView>,
    generate_exports: bool,
    parser: &NestedParser,
) -> Seq<ModView> {
    Seq::new(mods.len(), |i: int| processed(mods[i], generate_exports, parser))
}

/// The modules of a list after their changes are stored.
pub open spec fn stored_mods(mods: Seq<ModView>) -> Seq<ModView> {
    Seq::new(mods.len(), |i: int| mods[i].stored())
}

/// What a run has to write for the first `n` packages of the list.
pub open spec fn pending_crates(
    dirs: Seq<CrateDir>,
    generate_exports: bool,
    parser: &NestedParser,
    n: nat,
) -> Seq<(Seq<char>, Seq<char>)>
    decreases n,
{
    if n == 0 || n > dirs.len() {
        Seq::empty()
    } else {
        let mods = processed_mods(mod_views(dirs[n - 1].mod_files@), generate_exports, parser);
        pending_crates(dirs, generate_exports, parser, (n - 1) as nat) + pending_mods(
            mods,
            mods.len(),
        )
    }
}

impl CrateManager {
    /// The default settings: nothing is generated, and nothing has run.
    pub fn new() -> (r: CrateManager)
        ensures
            !r.generate_exports,
            !r.ran,
    {
        CrateManager { generate_exports: false, ran: false }
    }

    /// The same settings, with the generation of exports switched on.
    pub fn generate_exports(self) -> (r: CrateManager)
        ensures
            r.generate_exports,
            r.ran == self.ran,
    {
        let mut r = self;
        r.generate_exports = true;
        r
    }

    /// Whether the settings were made and never run.
    pub fn is_unused(&self) -> (r: bool)
        ensures
            r == !self.ran,
    {
        !self.ran
    }

    /// Processes one code file. Nothing is done to a code file by itself.
    pub fn process_code_file(&self, code_file: &mut CodeFile)
        ensures
            *final(code_file) == *old(code_file),
    {
    }

    /// Processes a module and its sub-modules: generates their exports
    /// where the settings ask for it.
    pub fn process_mod_file(&self, mod_file: &mut ModFile, parser: &NestedParser)
        ensures
            final(mod_file)@ == processed(old(mod_file)@, self.generate_exports, parser),
    {
        if self.generate_exports {
            generate_exports_for_mod(mod_file, parser);
        }
    }

    /// Processes every module of a package.
    pub fn process_crate_dir(&self, crate_dir: &mut CrateDir, parser: &NestedParser)
        ensures
            final(crate_dir).path == old(crate_dir).path,
            mod_views(final(crate_dir).mod_files@) == processed_mods(
                mod_views(old(crate_dir).mod_files@),
                self.generate_exports,
                parser,
            ),
    {
        let ghost mods = mod_views(crate_dir.mod_files@);
        let mut i: usize = 0;
        while i < crate_dir.mod_files.len()
            invariant
                i <= crate_dir.mod_files@.len(),
                crate_dir.path == old(crate_dir).path,
                crate_dir.mod_files@.len() == mods.len(),
                mods == mod_views(old(crate_dir).mod_files@),
                forall|j: int|
                    0 <= j < i ==> (#[trigger] crate_dir.mod_files@[j])@ == processed(
                        mods[j],
                        self.generate_exports,
                        parser,
                    ),
                forall|j: int|
                    i <= j < mods.len() ==> (#[trigger] crate_dir.mod_files@[j]) == old(
                        crate_dir,
                    ).mod_files@[j],
            decreases crate_dir.mod_files@.len() - i,
        {
            assert(crate_dir.mod_files@[i as int] == old(crate_dir).mod_files@[i as int]);
            self.process_mod_file(&mut crate_dir.mod_files[i], parser);
            i += 1;
        }
        assert(mod_views(crate_dir.mod_files@) =~= processed_mods(
            mods,
            self.generate_exports,
            parser,
        ));
    }

    /// Runs on packages whose files are read: processes every package, then
    /// stores the changes of each. Returns what has to be written to disk:
    /// the path and the new text of every file whose text changed.
    pub fn run_on(&mut self, crate_dirs: &mut Vec<CrateDir>, parser: &NestedParser) -> (r: Vec<
        (String, Vec<char>),
    >)
        ensures
            final(self).ran,
            final(self).generate_exports == old(self).generate_exports,
            final(crate_dirs)@.len() == old(crate_dirs)@.len(),
            forall|i: int|
                #![trigger final(crate_dirs)@[i]]
                0 <= i < old(crate_dirs)@.len() ==> {
                    &&& final(crate_dirs)@[i].path == old(crate_dirs)@[i].path
                    &&& mod_views(final(crate_dirs)@[i].mod_files@) == stored_mods(
                        processed_mods(
                            mod_views(old(crate_dirs)@[i].mod_files@),
                            old(self).generate_exports,
                            parser,
                        ),
                    )
                },
            write_views(r@) == pending_crates(
                old(crate_dirs)@,
                old(self).generate_exports,
                parser,
                old(crate_dirs)@.len() as nat,
            ),
    {
        self.ran = true;
        let on = self.generate_exports;
        let mut out: Vec<(String, Vec<char>)> = Vec::new();
        let mut i: usize = 0;
        assert(write_views(out@) =~= pending_crates(old(crate_dirs)@, on, parser, 0));
        while i < crate_dirs.len()
            invariant
                i <= crate_dirs@.len(),
                self.ran,
                self.generate_exports == on,
                crate_dirs@.len() == old(crate_dirs)@.len(),
                forall|j: int|
                    i <= j < crate_dirs@.len() ==> (#[trigger] crate_dirs@[j]) == old(
                        crate_dirs,
                    )@[j],
                forall|j: int|
                    #![trigger crate_dirs@[j]]
                    0 <= j < i ==> {
                        &&& crate_dirs@[j].path == old(crate_dirs)@[j].path
                        &&& mod_views(crate_dirs@[j].mod_files@) == stored_mods(
                            processed_mods(mod_views(old(crate_dirs)@[j].mod_files@), on, parser),
                        )
                    },
                write_views(out@) == pending_crates(old(crate_dirs)@, on, parser, i as nat),
            decreases crate_dirs@.len() - i,
        {
            assert(crate_dirs@[i as int] == old(crate_dirs)@[i as int]);
            let ghost sofar = write_views(out@);
            self.process_crate_dir(&mut crate_dirs[i], parser);
            let ghost ready = mod_views(crate_dirs@[i as int].mod_files@);
            let mut writes = crate_dirs[i].store_changes();
            assert(mod_views(crate_dirs@[i as int].mod_files@) =~= stored_mods(ready));
            let ghost added = write_views(writes@);
            out.append(&mut writes);
            assert(write_views(out@) =~= sofar + added);
            i += 1;
        }
        out
    }
}

} // verus!
