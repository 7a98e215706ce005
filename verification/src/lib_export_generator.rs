//! Generates the exports of a whole module tree: of every sub-module
//! first, and then of the module that holds them.

use vstd::prelude::*;
use crate::exports::{record_views, ExportRecord, RecordView};
use crate::files::{lemma_sub_mod_views, CodeFile, FileView, ModFile, ModView};
use crate::parser::NestedParser;
use crate::synthesizer::{lemma_synthesis_idempotent, synthesis, synthesize_records};

verus! {

impl FileView {
    /// The file after its exports are brought in step with `records`: the
    /// tree of the synthesis, handed out for changes, where the synthesis
    /// changes it.
    pub open spec fn synthesized(
        self,
        records: Seq<RecordView>,
        is_root: bool,
        parser: &NestedParser,
    ) -> FileView {
        match synthesis(self.tree, records, is_root, parser) {
            Some(tree) => FileView { tree, gotten_mutable: true, ..self },
            None => self,
        }
    }
}

/// The export records of a list of files.
pub open spec fn records_of_files(files: Seq<FileView>) -> Seq<RecordView> {
    Seq::new(files.len(), |i: int| RecordView::of(files[i].name, files[i].tree))
}

/// The export records of the module files of a list of modules.
pub open spec fn records_of_mods(mods: Seq<ModView>) -> Seq<RecordView> {
    Seq::new(mods.len(), |i: int| RecordView::of(mods[i].file.name, mods[i].file.tree))
}

impl ModView {
    /// The records of the module's siblings: of the source files, and then
    /// of the sub-modules.
    pub open spec fn records(self) -> Seq<RecordView> {
        records_of_files(self.source_files) + records_of_mods(self.sub_mod_files)
    }

    /// The module after its exports are generated: the exports of every
    /// sub-module first, then those of the module file from what the source
    /// files and the sub-modules then export.
    pub open spec fn generated(self, parser: &NestedParser) -> ModView
        decreases self,
    {
        let subs = Seq::new(
            self.sub_mod_files.len(),
            |i: int|
                if 0 <= i < self.sub_mod_files.len() {
                    self.sub_mod_files[i].generated(parser)
                } else {
                    arbitrary()
                },
        );
        let ready = ModView { sub_mod_files: subs, ..self };
        ModView { file: self.file.synthesized(ready.records(), self.is_root, parser), ..ready }
    }
}

/// Generating the exports of a module tree that has just been generated
/// changes nothing.
pub proof fn lemma_generated_twice(m: ModView, parser: &NestedParser)
    ensures
        m.generated(parser).generated(parser) == m.generated(parser),
    decreases m,
{
    let once = m.generated(parser);
    let twice = once.generated(parser);
    assert forall|i: int| 0 <= i < m.sub_mod_files.len() implies twice.sub_mod_files[i]
        == once.sub_mod_files[i] by {
        lemma_generated_twice(m.sub_mod_files[i], parser);
    }
    assert(twice.sub_mod_files =~= once.sub_mod_files);
    let ready = ModView { sub_mod_files: once.sub_mod_files, ..m };
    let ready_again = ModView { sub_mod_files: twice.sub_mod_files, ..once };
    assert(ready_again.records() =~= ready.records());
    lemma_synthesis_idempotent(m.file.tree, ready.records(), m.is_root, parser);
    match synthesis(m.file.tree, ready.records(), m.is_root, parser) {
        Some(tree) => {},
        None => {},
    }
}

impl CodeFile {
    /// Brings the block after the file's marker comment in step with what
    /// the siblings in `records` export. Returns whether the tree changed.
    pub fn update_exports(
        &mut self,
        records: &Vec<ExportRecord>,
        is_root: bool,
        parser: &NestedParser,
    ) -> (r: bool)
        ensures
            final(self)@ == old(self)@.synthesized(record_views(records@), is_root, parser),
            r == synthesis(old(self)@.tree, record_views(records@), is_root, parser).is_some(),
    {
        match synthesize_records(&mut self.parsed_contents, records, is_root, parser) {
            Some(_) => {
                self.gotten_mutable = true;
                true
            },
            None => false,
        }
    }
}

/// Generates the exports of the module and of all its sub-modules, the
/// sub-modules first.
#[verifier::loop_isolation(false)]
pub fn generate_exports_for_mod(mod_file: &mut ModFile, parser: &NestedParser)
    ensures
        final(mod_file)@ == old(mod_file)@.generated(parser),
    decreases *old(mod_file),
{
    proof {
        lemma_sub_mod_views(*mod_file);
    }
    let ghost before = mod_file@;
    let ghost subs = before.sub_mod_files;
    let mut i: usize = 0;
    while i < mod_file.sub_mod_files.len()
        invariant
            i <= mod_file.sub_mod_files@.len(),
            mod_file.sub_mod_files@.len() == subs.len(),
            mod_file.file == old(mod_file).file,
            mod_file.is_root == old(mod_file).is_root,
            mod_file.source_files == old(mod_file).source_files,
            forall|j: int|
                0 <= j < i ==> (#[trigger] mod_file.sub_mod_files@[j])@ == subs[j].generated(
                    parser,
                ),
            forall|j: int|
                i <= j < subs.len() ==> (#[trigger] mod_file.sub_mod_files@[j]) == old(
                    mod_file,
                ).sub_mod_files@[j],
        decreases mod_file.sub_mod_files@.len() - i,
    {
        assert(mod_file.sub_mod_files@[i as int] == old(mod_file).sub_mod_files@[i as int]);
        assert(subs[i as int] == old(mod_file).sub_mod_files@[i as int]@);
        generate_exports_for_mod(&mut mod_file.sub_mod_files[i], parser);
        i += 1;
    }
    proof {
        lemma_sub_mod_views(*mod_file);
    }
    let ghost ready = mod_file@;
    assert(ready.sub_mod_files =~= before.generated(parser).sub_mod_files);
    let mut records: Vec<ExportRecord> = Vec::new();
    let mut i: usize = 0;
    while i < mod_file.source_files.len()
        invariant
            i <= mod_file.source_files@.len(),
            record_views(records@) =~= records_of_files(ready.source_files).take(i as int),
        decreases mod_file.source_files@.len() - i,
    {
        let file = &mod_file.source_files[i];
        let record = ExportRecord::of(file.name.as_slice(), &file.parsed_contents);
        let ghost sofar = record_views(records@);
        records.push(record);
        assert(record_views(records@) =~= sofar.push(record@));
        i += 1;
    }
    assert(records_of_files(ready.source_files).take(i as int) =~= records_of_files(
        ready.source_files,
    ));
    let mut i: usize = 0;
    while i < mod_file.sub_mod_files.len()
        invariant
            i <= mod_file.sub_mod_files@.len(),
            record_views(records@) =~= records_of_files(ready.source_files) + records_of_mods(
                ready.sub_mod_files,
            ).take(i as int),
        decreases mod_file.sub_mod_files@.len() - i,
    {
        let file = &mod_file.sub_mod_files[i].file;
        let record = ExportRecord::of(file.name.as_slice(), &file.parsed_contents);
        let ghost sofar = record_views(records@);
        records.push(record);
        assert(record_views(records@) =~= sofar.push(record@));
        i += 1;
    }
    assert(records_of_mods(ready.sub_mod_files).take(i as int) =~= records_of_mods(
        ready.sub_mod_files,
    ));
    let is_root = mod_file.is_root;
    mod_file.file.update_exports(&records, is_root, parser);
    proof {
        lemma_sub_mod_views(*mod_file);
        assert(mod_file@.sub_mod_files =~= ready.sub_mod_files);
    }
}

} // verus!
