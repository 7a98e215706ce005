//! A file with the files it is linked to, and the contents that the file
//! gets when its block of exports is written anew.

use vstd::prelude::*;
use crate::exports::{record_views, ExportRecord, RecordView};
use crate::imports_and_exports::{collect_items, items_of, FileItems, ItemView, ItemsView};
use crate::parser::ParseError;
use crate::pub_type::PubType;
use crate::scanner::MatcherSet;
use crate::synthesizer::{block_text, generate_block};
use crate::text::{append_chars, chars_of, copy_chars, same_chars, slice_of, split, split_on, texts};

verus! {

/// The line of the marker comment, as it is written anew.
pub const AUTO_EXPORTS_LINE: &'static str = "// auto-exports\n";

/// The last part of a path: what follows its last slash.
pub open spec fn file_name(path: Seq<char>) -> Seq<char> {
    split_on(path, '/').last()
}

/// The name of the directory that a path lies in: the part before the last
/// part, or nothing where the path has one part only.
pub open spec fn parent_name(path: Seq<char>) -> Seq<char> {
    let parts = split_on(path, '/');
    if parts.len() >= 2 {
        parts[parts.len() - 2]
    } else {
        Seq::empty()
    }
}

/// The offset of the last dot of `name`, or the length of `name` where it
/// holds none.
pub open spec fn extension_start(name: Seq<char>) -> int
    decreases name.len(),
{
    if name.len() == 0 {
        0
    } else if name.last() == '.' {
        name.len() - 1
    } else {
        let inner = extension_start(name.drop_last());
        if inner == name.len() - 1 {
            name.len() as int
        } else {
            inner
        }
    }
}

/// A file name without its extension: what stands before its last dot.
pub open spec fn stem(name: Seq<char>) -> Seq<char> {
    name.take(extension_start(name))
}

/// Whether a file of this name is a module file.
pub open spec fn is_mod_name(name: Seq<char>) -> bool {
    name == "lib.rs"@ || name == "mod.rs"@
}

/// The name of the module that the file at `path` holds: the name of its
/// directory for a module file, else the file's name without extension.
pub open spec fn module_name(path: Seq<char>) -> Seq<char> {
    let own = stem(file_name(path));
    if own == "mod"@ || own == "lib"@ {
        parent_name(path)
    } else {
        own
    }
}

/// The last dot is where `extension_start` says, and none stands after it.
pub proof fn lemma_extension_start(name: Seq<char>)
    ensures
        0 <= extension_start(name) <= name.len(),
        extension_start(name) < name.len() ==> name[extension_start(name)] == '.',
        forall|j: int| extension_start(name) < j < name.len() ==> name[j] != '.',
        extension_start(name) == name.len() ==> forall|j: int|
            0 <= j < name.len() ==> name[j] != '.',
    decreases name.len(),
{
    if name.len() > 0 && name.last() != '.' {
        let front = name.drop_last();
        lemma_extension_start(front);
        let inner = extension_start(front);
        if inner == name.len() - 1 {
            assert forall|j: int| 0 <= j < name.len() implies name[j] != '.' by {
                if j < front.len() {
                    assert(name[j] == front[j]);
                }
            }
        } else {
            assert(name[inner] == front[inner]);
            assert forall|j: int| inner < j < name.len() implies name[j] != '.' by {
                if j < front.len() {
                    assert(name[j] == front[j]);
                }
            }
        }
    }
}

/// A file name without its extension.
#[verifier::loop_isolation(false)]
pub fn stem_of(name: &[char]) -> (r: Vec<char>)
    ensures
        r@ == stem(name@),
{
    proof {
        lemma_extension_start(name@);
    }
    let mut i: usize = name.len();
    while i > 0
        invariant
            i <= name.len(),
            forall|j: int| i <= j < name.len() ==> name@[j] != '.',
        decreases i,
    {
        if name[i - 1] == '.' {
            let r = slice_of(name, 0, i - 1);
            assert(name@[i - 1] == '.');
            assert(extension_start(name@) == i - 1);
            assert(name@.subrange(0, i - 1) =~= name@.take(i - 1));
            return r;
        }
        i -= 1;
    }
    assert(extension_start(name@) == name.len());
    assert(name@.subrange(0, name@.len() as int) =~= name@.take(name@.len() as int));
    copy_chars(name)
}

/// The name of the module that the file at `path` holds.
pub fn module_name_of(path: &[char]) -> (r: Vec<char>)
    ensures
        r@ == module_name(path@),
{
    let parts = split(path, '/');
    let last = &parts[parts.len() - 1];
    assert(texts(parts@).last() == last@);
    let own = stem_of(last.as_slice());
    let a = chars_of("mod");
    let b = chars_of("lib");
    if same_chars(own.as_slice(), a.as_slice()) || same_chars(own.as_slice(), b.as_slice()) {
        if parts.len() >= 2 {
            let dir = &parts[parts.len() - 2];
            assert(texts(parts@)[parts@.len() - 2] == dir@);
            copy_chars(dir.as_slice())
        } else {
            Vec::new()
        }
    } else {
        own
    }
}

/// Whether the file at `path` is a module file.
pub fn is_mod_path(path: &[char]) -> (r: bool)
    ensures
        r == is_mod_name(file_name(path@)),
{
    let parts = split(path, '/');
    let last = &parts[parts.len() - 1];
    assert(texts(parts@).last() == last@);
    let a = chars_of("lib.rs");
    let b = chars_of("mod.rs");
    same_chars(last.as_slice(), a.as_slice()) || same_chars(last.as_slice(), b.as_slice())
}

/// The mathematical model of an updater.
pub ghost struct UpdaterView {
    pub file: Seq<char>,
    pub is_mod_file: bool,
    pub parsed: bool,
    pub items: ItemsView,
    pub sub_finders: Seq<UpdaterView>,
}

/// A file, what was collected from it, and the files it is linked to.
pub struct ImportExportUpdater {
    pub file: String,
    pub is_mod_file: bool,
    pub parsed: bool,
    pub items: FileItems,
    pub sub_finders: Vec<ImportExportUpdater>,
}

impl ImportExportUpdater {
    /// The updater as a mathematical value.
    pub open spec fn model(&self) -> UpdaterView
        decreases self,
    {
        UpdaterView {
            file: self.file@,
            is_mod_file: self.is_mod_file,
            parsed: self.parsed,
            items: self.items@,
            sub_finders: Seq::new(
                self.sub_finders@.len(),
                |i: int|
                    if 0 <= i < self.sub_finders@.len() {
                        self.sub_finders@[i].model()
                    } else {
                        arbitrary()
                    },
            ),
        }
    }
}

impl View for ImportExportUpdater {
    type V = UpdaterView;

    open spec fn view(&self) -> UpdaterView {
        self.model()
    }
}

/// The models of a list of updaters.
pub open spec fn updater_views(s: Seq<ImportExportUpdater>) -> Seq<UpdaterView> {
    Seq::new(s.len(), |i: int| s[i]@)
}

/// The linked files of an updater's model are the models of its linked
/// files.
pub proof fn lemma_sub_finders(u: ImportExportUpdater)
    ensures
        u@.sub_finders == updater_views(u.sub_finders@),
{
    assert(u@.sub_finders.len() == u.sub_finders@.len());
    assert forall|i: int| 0 <= i < u.sub_finders@.len() implies u@.sub_finders[i]
        == updater_views(u.sub_finders@)[i] by {}
    assert(u@.sub_finders =~= updater_views(u.sub_finders@));
}

/// The identifiers of the first `n` exports that have the given tier.
pub open spec fn own_exports(exports: Seq<ItemView>, tier: PubType, n: nat) -> Seq<Seq<char>>
    decreases n,
{
    if n == 0 || n > exports.len() {
        Seq::empty()
    } else {
        let before = own_exports(exports, tier, (n - 1) as nat);
        if exports[n - 1].pub_type == Some(tier) {
            before.push(exports[n - 1].identifier)
        } else {
            before
        }
    }
}

/// The identifiers of the imports among the first `n` that bring in a
/// module.
pub open spec fn mod_imports(imports: Seq<ItemView>, n: nat) -> Seq<Seq<char>>
    decreases n,
{
    if n == 0 || n > imports.len() {
        Seq::empty()
    } else {
        let before = mod_imports(imports, (n - 1) as nat);
        if imports[n - 1].struct_type == "mod"@ {
            before.push(imports[n - 1].identifier)
        } else {
            before
        }
    }
}

impl UpdaterView {
    /// The file is linked to no file twice.
    pub open spec fn wf(self) -> bool {
        forall|i: int, j: int|
            0 <= i < j < self.sub_finders.len() ==> self.sub_finders[i].file
                != self.sub_finders[j].file
    }

    /// What the file and all the files it is linked to export in the given
    /// tier: the file's own exports first.
    pub open spec fn recursive_exports(self, tier: PubType) -> Seq<Seq<char>>
        decreases self,
    {
        own_exports(self.items.exports, tier, self.items.exports.len()) + sub_exports(
            self.sub_finders,
            tier,
            self.sub_finders.len(),
        )
    }

    /// The export record of the file under the name of its module.
    pub open spec fn record(self) -> RecordView {
        RecordView {
            name: module_name(self.file),
            public: self.recursive_exports(PubType::Pub),
            package: self.recursive_exports(PubType::Crate),
            parent: self.recursive_exports(PubType::Super),
        }
    }

    /// The contents that the file gets when its block of exports is
    /// written anew: what stands before the marker comment, the marker
    /// comment, and the block for the files the file is linked to. `None`
    /// where the file has no marker comment, and where these are the
    /// contents it has.
    pub open spec fn auto_exports(self, contents: Seq<char>) -> Option<Seq<char>> {
        match self.items.trigger {
            Some(at) => if 0 <= at <= contents.len() {
                let text = contents.take(at) + AUTO_EXPORTS_LINE@ + block_text(
                    merged_records(self.sub_finders, self.sub_finders.len()),
                    self.is_mod_file,
                );
                if text == contents {
                    None
                } else {
                    Some(text)
                }
            } else {
                None
            },
            None => None,
        }
    }
}

/// What the first `n` of the linked files export in the given tier.
pub open spec fn sub_exports(subs: Seq<UpdaterView>, tier: PubType, n: nat) -> Seq<Seq<char>>
    decreases subs, n,
{
    if n == 0 || n > subs.len() {
        Seq::empty()
    } else {
        sub_exports(subs, tier, (n - 1) as nat) + subs[n - 1].recursive_exports(tier)
    }
}

/// The index of the first record of the list that has the given name.
pub open spec fn record_index(records: Seq<RecordView>, name: Seq<char>) -> Option<int>
    decreases records.len(),
{
    if records.len() == 0 {
        None
    } else {
        match record_index(records.drop_last(), name) {
            Some(i) => Some(i),
            None => if records.last().name == name {
                Some(records.len() - 1)
            } else {
                None
            },
        }
    }
}

/// Two records of one module as one: the exports of the second after those
/// of the first.
pub open spec fn joined_record(a: RecordView, b: RecordView) -> RecordView {
    RecordView {
        name: a.name,
        public: a.public + b.public,
        package: a.package + b.package,
        parent: a.parent + b.parent,
    }
}

/// The list with one more record taken in: joined to the record of its
/// name where the list has one, else added at the end.
pub open spec fn with_record(records: Seq<RecordView>, r: RecordView) -> Seq<RecordView> {
    match record_index(records, r.name) {
        Some(i) => records.update(i, joined_record(records[i], r)),
        None => records.push(r),
    }
}

/// The records of the first `n` linked files, one for every module name.
pub open spec fn merged_records(subs: Seq<UpdaterView>, n: nat) -> Seq<RecordView>
    decreases n,
{
    if n == 0 || n > subs.len() {
        Seq::empty()
    } else {
        with_record(merged_records(subs, (n - 1) as nat), subs[n - 1].record())
    }
}

/// What `record_index` finds has the name, and nothing before it has.
pub proof fn lemma_record_index(records: Seq<RecordView>, name: Seq<char>)
    ensures
        match record_index(records, name) {
            Some(i) => 0 <= i < records.len() && records[i].name == name && forall|j: int|
                0 <= j < i ==> records[j].name != name,
            None => forall|j: int| 0 <= j < records.len() ==> records[j].name != name,
        },
    decreases records.len(),
{
    if records.len() > 0 {
        let front = records.drop_last();
        lemma_record_index(front, name);
        match record_index(front, name) {
            Some(i) => {
                assert(records[i] == front[i]);
                assert forall|j: int| 0 <= j < i implies records[j].name != name by {
                    assert(records[j] == front[j]);
                }
            },
            None => {
                assert forall|j: int| 0 <= j < front.len() implies records[j].name != name by {
                    assert(records[j] == front[j]);
                }
            },
        }
    }
}



/// The index of the first record of the list that has the given name.
pub fn find_record(records: &Vec<ExportRecord>, name: &[char]) -> (r: Option<usize>)
    ensures
        match r {
            Some(i) => record_index(record_views(records@), name@) == Some(i as int) && i
                < records@.len(),
            None => record_index(record_views(records@), name@).is_none(),
        },
{
    let ghost all = record_views(records@);
    proof {
        lemma_record_index(all, name@);
    }
    let mut i: usize = 0;
    while i < records.len()
        invariant
            i <= records@.len(),
            all == record_views(records@),
            forall|j: int| 0 <= j < i ==> all[j].name != name@,
        decreases records@.len() - i,
    {
        if same_chars(records[i].name.as_slice(), name) {
            assert(all[i as int].name == name@);
            proof {
                lemma_record_index(all, name@);
            }
            return Some(i);
        }
        i += 1;
    }
    proof {
        lemma_record_index(all, name@);
    }
    None
}

/// Takes one more record into the list: joins it to the record of its name
/// where the list has one, else adds it at the end.
pub fn take_record(records: &mut Vec<ExportRecord>, record: ExportRecord)
    ensures
        record_views(final(records)@) == with_record(record_views(old(records)@), record@),
{
    let ghost before = record_views(records@);
    match find_record(records, record.name.as_slice()) {
        Some(i) => {
            let ExportRecord { name: _, public, package, parent } = record;
            let mut public = public;
            let mut package = package;
            let mut parent = parent;
            let mut target = records.remove(i);
            let ghost old_target = target@;
            target.public.append(&mut public);
            target.package.append(&mut package);
            target.parent.append(&mut parent);
            assert(target@.public =~= old_target.public + record@.public);
            assert(target@.package =~= old_target.package + record@.package);
            assert(target@.parent =~= old_target.parent + record@.parent);
            let ghost merged = target@;
            records.insert(i, target);
            assert(record_views(records@) =~= before.update(i as int, merged));
        },
        None => {
            records.push(record);
            assert(record_views(records@) =~= before.push(record@));
        },
    }
}

impl ImportExportUpdater {
    /// An updater for the file at `file`, with nothing collected yet.
    pub fn new(file: &str) -> (r: ImportExportUpdater)
        ensures
            r@ == (UpdaterView {
                file: file@,
                is_mod_file: is_mod_name(file_name(file@)),
                parsed: false,
                items: ItemsView { imports: Seq::empty(), exports: Seq::empty(), trigger: None },
                sub_finders: Seq::empty(),
            }),
            r@.wf(),
    {
        let path = chars_of(file);
        let r = ImportExportUpdater {
            file: file.to_owned(),
            is_mod_file: is_mod_path(path.as_slice()),
            parsed: false,
            items: FileItems { imports: Vec::new(), exports: Vec::new(), trigger: None },
            sub_finders: Vec::new(),
        };
        proof {
            lemma_sub_finders(r);
            assert(r@.items.imports =~= Seq::empty());
            assert(r@.items.exports =~= Seq::empty());
            assert(r@.sub_finders =~= Seq::empty());
        }
        r
    }

    /// Collects the imports, the exports and the marker comment of the file
    /// from its contents, unless that was done before. Fails, and collects
    /// nothing, where an import or an export lacks its kind or identifier.
    pub fn scan(&mut self, contents: &[char], set: &MatcherSet) -> (r: Result<(), ParseError>)
        ensures
            old(self).parsed ==> r.is_ok() && *final(self) == *old(self),
            !old(self).parsed ==> match items_of(
                set.scan_from(contents@, 0),
                set.scan_from(contents@, 0).len(),
            ) {
                Ok(items) => r.is_ok() && final(self)@ == (UpdaterView {
                    parsed: true,
                    items,
                    ..old(self)@
                }),
                Err(at) => r == Err::<(), ParseError>(
                    ParseError::MissingCapture { at: at as usize },
                ) && *final(self) == *old(self),
            },
    {
        if self.parsed {
            return Ok(());
        }
        match collect_items(set, contents) {
            Ok(items) => {
                proof {
                    lemma_sub_finders(*self);
                }
                self.items = items;
                self.parsed = true;
                proof {
                    lemma_sub_finders(*self);
                }
                Ok(())
            },
            Err(e) => Err(e),
        }
    }

    /// The modules that the file brings in, in the order of their imports.
    pub fn linked_modules(&self) -> (r: Vec<Vec<char>>)
        ensures
            texts(r@) == mod_imports(self@.items.imports, self@.items.imports.len()),
    {
        let keyword = chars_of("mod");
        let mut out: Vec<Vec<char>> = Vec::new();
        let mut i: usize = 0;
        assert(texts(out@) =~= Seq::empty());
        while i < self.items.imports.len()
            invariant
                i <= self.items.imports@.len(),
                keyword@ == "mod"@,
                texts(out@) == mod_imports(self@.items.imports, i as nat),
            decreases self.items.imports@.len() - i,
        {
            let import = &self.items.imports[i];
            assert(self@.items.imports[i as int] == import@);
            if same_chars(import.struct_type.as_slice(), keyword.as_slice()) {
                let ghost before = texts(out@);
                let id = &import.identifier;
                out.push(copy_chars(id.as_slice()));
                assert(texts(out@) =~= before.push(id@));
            }
            i += 1;
        }
        out
    }

    /// Whether the file is linked to the file at `file` already.
    pub fn has_sub_finder(&self, file: &str) -> (r: bool)
        ensures
            r == exists|i: int|
                0 <= i < self@.sub_finders.len() && (#[trigger] self@.sub_finders[i]).file == file@,
    {
        proof {
            lemma_sub_finders(*self);
        }
        let wanted = file.to_owned();
        let mut i: usize = 0;
        while i < self.sub_finders.len()
            invariant
                i <= self.sub_finders@.len(),
                wanted@ == file@,
                self@.sub_finders == updater_views(self.sub_finders@),
                forall|j: int| 0 <= j < i ==> (#[trigger] self@.sub_finders[j]).file != file@,
            decreases self.sub_finders@.len() - i,
        {
            if self.sub_finders[i].file == wanted {
                assert(self@.sub_finders[i as int].file == file@);
                return true;
            }
            i += 1;
        }
        false
    }

    /// Links the file to `sub`, unless it is linked to that file already.
    /// Returns whether the link was made.
    pub fn add_sub_finder(&mut self, sub: ImportExportUpdater) -> (r: bool)
        ensures
            r == !(exists|i: int|
                0 <= i < old(self)@.sub_finders.len() && (#[trigger] old(
                    self,
                )@.sub_finders[i]).file == sub@.file),
            r ==> final(self)@ == (UpdaterView {
                sub_finders: old(self)@.sub_finders.push(sub@),
                ..old(self)@
            }),
            !r ==> *final(self) == *old(self),
            old(self)@.wf() ==> final(self)@.wf(),
    {
        if self.has_sub_finder(sub.file.as_str()) {
            return false;
        }
        proof {
            lemma_sub_finders(*self);
        }
        self.sub_finders.push(sub);
        proof {
            lemma_sub_finders(*self);
            assert(self@.sub_finders =~= old(self)@.sub_finders.push(sub@));
        }
        true
    }

    /// What the file and all the files it is linked to export in the given
    /// tier: the file's own exports first.
    #[verifier::loop_isolation(false)]
    pub fn recursive_exports(&self, tier: PubType) -> (r: Vec<Vec<char>>)
        ensures
            texts(r@) == self@.recursive_exports(tier),
        decreases self,
    {
        proof {
            lemma_sub_finders(*self);
        }
        let mut out: Vec<Vec<char>> = Vec::new();
        let ghost exports = self@.items.exports;
        let mut i: usize = 0;
        assert(texts(out@) =~= Seq::empty());
        while i < self.items.exports.len()
            invariant
                i <= self.items.exports@.len(),
                texts(out@) == own_exports(exports, tier, i as nat),
            decreases self.items.exports@.len() - i,
        {
            let export = &self.items.exports[i];
            assert(exports[i as int] == export@);
            let wanted = match export.pub_type {
                Some(t) => t == tier,
                None => false,
            };
            if wanted {
                let ghost before = texts(out@);
                let id = &export.identifier;
                out.push(copy_chars(id.as_slice()));
                assert(texts(out@) =~= before.push(id@));
            }
            i += 1;
        }
        let ghost own = texts(out@);
        let ghost subs = self@.sub_finders;
        let mut k: usize = 0;
        assert(texts(out@) =~= own + sub_exports(subs, tier, 0));
        while k < self.sub_finders.len()
            invariant
                k <= self.sub_finders@.len(),
                texts(out@) == own + sub_exports(subs, tier, k as nat),
            decreases self.sub_finders@.len() - k,
        {
            let mut more = self.sub_finders[k].recursive_exports(tier);
            let ghost before = texts(out@);
            let ghost added = texts(more@);
            out.append(&mut more);
            assert(texts(out@) =~= before + added);
            assert(texts(out@) =~= own + (sub_exports(subs, tier, k as nat) + added));
            k += 1;
        }
        out
    }

    /// The export record of the file under the name of its module.
    pub fn record(&self) -> (r: ExportRecord)
        ensures
            r@ == self@.record(),
    {
        let path = chars_of(self.file.as_str());
        ExportRecord {
            name: module_name_of(path.as_slice()),
            public: self.recursive_exports(PubType::Pub),
            package: self.recursive_exports(PubType::Crate),
            parent: self.recursive_exports(PubType::Super),
        }
    }

    /// The records of the files that the file is linked to, one for every
    /// module name.
    pub fn sub_records(&self) -> (r: Vec<ExportRecord>)
        ensures
            record_views(r@) == merged_records(self@.sub_finders, self@.sub_finders.len()),
    {
        proof {
            lemma_sub_finders(*self);
        }
        let ghost subs = self@.sub_finders;
        let mut out: Vec<ExportRecord> = Vec::new();
        let mut i: usize = 0;
        assert(record_views(out@) =~= Seq::empty());
        while i < self.sub_finders.len()
            invariant
                i <= self.sub_finders@.len(),
                subs == updater_views(self.sub_finders@),
                record_views(out@) == merged_records(subs, i as nat),
            decreases self.sub_finders@.len() - i,
        {
            let record = self.sub_finders[i].record();
            take_record(&mut out, record);
            i += 1;
        }
        out
    }

    /// The contents that the file gets when its block of exports is
    /// written anew, or `None` where nothing is to be written: where the
    /// file has no marker comment, and where the contents would be those
    /// it has.
    pub fn generate_auto_exports(&self, file_contents: &[char]) -> (r: Option<Vec<char>>)
        ensures
            match r {
                Some(text) => self@.auto_exports(file_contents@) == Some(text@),
                None => self@.auto_exports(file_contents@).is_none(),
            },
    {
        match self.items.trigger {
            Some(at) => {
                if at <= file_contents.len() {
                    let mut text = slice_of(file_contents, 0, at);
                    assert(text@ =~= file_contents@.take(at as int));
                    append_chars(&mut text, chars_of(AUTO_EXPORTS_LINE).as_slice());
                    let records = self.sub_records();
                    let block = generate_block(&records, self.is_mod_file);
                    append_chars(&mut text, block.as_slice());
                    if same_chars(text.as_slice(), file_contents) {
                        None
                    } else {
                        Some(text)
                    }
                } else {
                    None
                }
            },
            None => None,
        }
    }
}

} // verus!
