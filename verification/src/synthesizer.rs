//! The declaration synthesizer: it writes the block of module declarations
//! and re-exports that follows a module file's marker comment.

use vstd::prelude::*;
use crate::exports::{
    lemma_order_by_length, listing_order, name_lengths, order_by_length, record_views,
    ExportRecord, RecordView,
};
use crate::parser::NestedParser;
use crate::pub_type::PubType;
use crate::segment::{
    concat, lemma_concat_add, lemma_concat_one, lemma_node_children, same_list, trees, Segment,
    Tree,
};
use crate::text::{
    append_chars, chars_of, copy_chars, join, joined, occurs_at, same_chars, slice_of,
    starts_with_at, trim, trimmed,
};

verus! {

/// What the marker comment holds between the comment sign and the end of
/// the line.
pub const AUTO_EXPORTS_TAG: &'static str = "auto-exports";

/// The sign that starts a comment of one line.
pub const LINE_COMMENT: &'static str = "//";

/// A segment is the marker comment where it is a leaf that starts with the
/// comment sign and holds, white space apart, nothing but the tag.
pub open spec fn is_trigger(tree: Tree) -> bool {
    tree matches Tree::Leaf { text, .. } && occurs_at(text, 0, LINE_COMMENT@) && trimmed(
        text.skip(LINE_COMMENT@.len() as int),
    ) == AUTO_EXPORTS_TAG@
}

/// The index of the first marker comment of the list.
pub open spec fn find_trigger(children: Seq<Tree>) -> Option<int>
    decreases children.len(),
{
    if children.len() == 0 {
        None
    } else if is_trigger(children[0]) {
        Some(0)
    } else {
        match find_trigger(children.drop_first()) {
            Some(i) => Some(i + 1),
            None => None,
        }
    }
}

/// What `find_trigger` finds is a marker comment, and nothing before it is.
pub proof fn lemma_find_trigger(children: Seq<Tree>)
    ensures
        match find_trigger(children) {
            Some(i) => 0 <= i < children.len() && is_trigger(children[i]) && forall|j: int|
                0 <= j < i ==> !is_trigger(children[j]),
            None => forall|j: int| 0 <= j < children.len() ==> !is_trigger(children[j]),
        },
    decreases children.len(),
{
    if children.len() > 0 && !is_trigger(children[0]) {
        let t = children.drop_first();
        lemma_find_trigger(t);
        match find_trigger(t) {
            Some(i) => {
                assert forall|j: int| 0 <= j < i + 1 implies !is_trigger(children[j]) by {
                    if j > 0 {
                        assert(children[j] == t[j - 1]);
                    }
                }
            },
            None => {
                assert forall|j: int| 0 <= j < children.len() implies !is_trigger(
                    children[j],
                ) by {
                    if j > 0 {
                        assert(children[j] == t[j - 1]);
                    }
                }
            },
        }
    }
}

/// The first marker comment is at `i` where one stands there and none
/// before.
pub proof fn lemma_find_trigger_is(children: Seq<Tree>, i: int)
    requires
        0 <= i < children.len(),
        is_trigger(children[i]),
        forall|j: int| 0 <= j < i ==> !is_trigger(children[j]),
    ensures
        find_trigger(children) == Some(i),
{
    lemma_find_trigger(children);
}

/// The line that declares the module `name`.
pub open spec fn mod_line(name: Seq<char>) -> Seq<char> {
    "mod "@ + name + ";\n"@
}

/// The line that re-exports `ids` from the module `name` with the
/// visibility `tier`.
pub open spec fn use_line(tier: PubType, name: Seq<char>, ids: Seq<Seq<char>>) -> Seq<char> {
    tier.text() + " use "@ + name + "::{"@ + joined(ids, ", "@) + "};\n"@
}

/// The line that re-exports what `record` holds in `tier`; no line where
/// it holds nothing there, nor for the parent tier in a root file.
pub open spec fn tier_line(record: RecordView, tier: PubType, is_root: bool) -> Seq<char> {
    if record.tier(tier).len() == 0 || (tier == PubType::Super && is_root) {
        Seq::empty()
    } else {
        use_line(tier, record.name, record.tier(tier))
    }
}

/// The re-export lines of one sibling: public, package, parent.
pub open spec fn use_lines(record: RecordView, is_root: bool) -> Seq<char> {
    tier_line(record, PubType::Pub, is_root) + tier_line(record, PubType::Crate, is_root)
        + tier_line(record, PubType::Super, is_root)
}

/// The module declarations of the first `n` siblings in `order`.
pub open spec fn mod_lines(records: Seq<RecordView>, order: Seq<int>, n: nat) -> Seq<char>
    decreases n,
{
    if n == 0 {
        Seq::empty()
    } else {
        mod_lines(records, order, (n - 1) as nat) + mod_line(records[order[n - 1]].name)
    }
}

/// The re-exports of the first `n` siblings in `order`.
pub open spec fn all_use_lines(
    records: Seq<RecordView>,
    order: Seq<int>,
    is_root: bool,
    n: nat,
) -> Seq<char>
    decreases n,
{
    if n == 0 {
        Seq::empty()
    } else {
        all_use_lines(records, order, is_root, (n - 1) as nat) + use_lines(
            records[order[n - 1]],
            is_root,
        )
    }
}

/// The generated block: one module declaration for every sibling, longer
/// names first, and then the re-exports of every sibling in that order.
pub open spec fn block_text(records: Seq<RecordView>, is_root: bool) -> Seq<char> {
    let order = order_by_length(name_lengths(records), records.len());
    mod_lines(records, order, records.len()) + all_use_lines(
        records,
        order,
        is_root,
        records.len(),
    )
}

/// Whether the segment is the marker comment.
pub fn is_trigger_segment(segment: &Segment) -> (r: bool)
    ensures
        r == is_trigger(segment@),
{
    match segment {
        Segment::Leaf { text, .. } => {
            let sign = chars_of(LINE_COMMENT);
            let tag = chars_of(AUTO_EXPORTS_TAG);
            if starts_with_at(text.as_slice(), 0, sign.as_slice()) {
                let rest = slice_of(text.as_slice(), sign.len(), text.len());
                assert(rest@ =~= text@.skip(sign@.len() as int));
                let body = trim(rest.as_slice());
                same_chars(body.as_slice(), tag.as_slice())
            } else {
                false
            }
        },
        _ => false,
    }
}

/// The index of the first marker comment directly inside `tree`.
#[verifier::loop_isolation(false)]
pub fn find_trigger_in(tree: &Segment) -> (r: Option<usize>)
    ensures
        match r {
            Some(i) => find_trigger(tree@.children()) == Some(i as int) && i
                < tree@.children().len(),
            None => find_trigger(tree@.children()).is_none(),
        },
{
    proof {
        lemma_node_children(*tree);
        lemma_find_trigger(tree@.children());
    }
    match tree {
        Segment::Node { children, .. } => {
            let mut i: usize = 0;
            while i < children.len()
                invariant
                    i <= children@.len(),
                    forall|j: int| 0 <= j < i ==> !is_trigger(trees(children@)[j]),
                decreases children@.len() - i,
            {
                if is_trigger_segment(&children[i]) {
                    proof {
                        lemma_find_trigger_is(trees(children@), i as int);
                    }
                    return Some(i);
                }
                i += 1;
            }
            None
        },
        _ => None,
    }
}

/// Appends the line that re-exports what `ids` holds, where the tier has a
/// line.
fn push_tier_line(
    out: &mut Vec<char>,
    record: &ExportRecord,
    tier: PubType,
    is_root: bool,
)
    ensures
        final(out)@ == old(out)@ + tier_line(record@, tier, is_root),
{
    let ids = match tier {
        PubType::Pub => &record.public,
        PubType::Crate => &record.package,
        PubType::Super => &record.parent,
    };
    let hidden = match tier {
        PubType::Super => is_root,
        _ => false,
    };
    if ids.len() == 0 || hidden {
        assert(out@ =~= old(out)@ + Seq::<char>::empty());
    } else {
        append_chars(out, chars_of(tier.to_str()).as_slice());
        append_chars(out, chars_of(" use ").as_slice());
        append_chars(out, record.name.as_slice());
        append_chars(out, chars_of("::{").as_slice());
        let list = join(ids, chars_of(", ").as_slice());
        append_chars(out, list.as_slice());
        append_chars(out, chars_of("};\n").as_slice());
        assert(out@ =~= old(out)@ + use_line(tier, record@.name, record@.tier(tier)));
    }
}

/// The generated block for the given siblings: one module declaration for
/// each, longer names first, then the re-exports in the same order. In a
/// root file nothing is re-exported for the parent tier.
pub fn generate_block(records: &Vec<ExportRecord>, is_root: bool) -> (r: Vec<char>)
    ensures
        r@ == block_text(record_views(records@), is_root),
{
    let order = listing_order(records);
    let ghost views = record_views(records@);
    let ghost ord = order_by_length(name_lengths(views), records@.len());
    let mut out: Vec<char> = Vec::new();
    let mut i: usize = 0;
    while i < order.len()
        invariant
            i <= order@.len(),
            order@.len() == records@.len(),
            views == record_views(records@),
            ord == order@.map_values(|k: usize| k as int),
            forall|j: int| 0 <= j < order@.len() ==> #[trigger] order@[j] < records@.len(),
            out@ == mod_lines(views, ord, i as nat),
        decreases order@.len() - i,
    {
        let record = &records[order[i]];
        assert(views[ord[i as int]] == record@);
        append_chars(&mut out, chars_of("mod ").as_slice());
        append_chars(&mut out, record.name.as_slice());
        append_chars(&mut out, chars_of(";\n").as_slice());
        assert(out@ =~= mod_lines(views, ord, i as nat) + mod_line(record@.name));
        i += 1;
    }
    let ghost mods = out@;
    let mut i: usize = 0;
    assert(out@ =~= mods + all_use_lines(views, ord, is_root, 0));
    while i < order.len()
        invariant
            i <= order@.len(),
            order@.len() == records@.len(),
            views == record_views(records@),
            ord == order@.map_values(|k: usize| k as int),
            forall|j: int| 0 <= j < order@.len() ==> #[trigger] order@[j] < records@.len(),
            out@ == mods + all_use_lines(views, ord, is_root, i as nat),
        decreases order@.len() - i,
    {
        let record = &records[order[i]];
        assert(views[ord[i as int]] == record@);
        let ghost before = out@;
        push_tier_line(&mut out, record, PubType::Pub, is_root);
        push_tier_line(&mut out, record, PubType::Crate, is_root);
        push_tier_line(&mut out, record, PubType::Super, is_root);
        assert(out@ =~= before + use_lines(record@, is_root));
        assert(out@ =~= mods + (all_use_lines(views, ord, is_root, i as nat) + use_lines(
            record@,
            is_root,
        )));
        i += 1;
    }
    out
}



/// The segments that stand for the generated block: what the block parses
/// into, or the block as raw text where it does not parse.
pub open spec fn region_for(parser: &NestedParser, block: Seq<char>) -> Seq<Tree> {
    match parser.parse_from(block, 0, 0, 0, parser.max_depth as nat) {
        Ok(children) => children,
        Err(_) => seq![Tree::Raw { text: block }],
    }
}

/// The module's tree after synthesis, or `None` where nothing changes:
/// where the tree has no marker comment among its children, and where what
/// follows the marker comment is the generated block already.
pub open spec fn synthesis(
    tree: Tree,
    records: Seq<RecordView>,
    is_root: bool,
    parser: &NestedParser,
) -> Option<Tree> {
    match tree {
        Tree::Node { name, open, children, close } => match find_trigger(children) {
            Some(k) => {
                let region = region_for(parser, block_text(records, is_root));
                if children.skip(k + 1) == region {
                    None
                } else {
                    Some(Tree::Node { name, open, children: children.take(k + 1) + region, close })
                }
            },
            None => None,
        },
        _ => None,
    }
}

/// Synthesis right after synthesis, with the same siblings, changes
/// nothing.
pub proof fn lemma_synthesis_idempotent(
    tree: Tree,
    records: Seq<RecordView>,
    is_root: bool,
    parser: &NestedParser,
)
    ensures
        synthesis(tree, records, is_root, parser) matches Some(after) ==> synthesis(
            after,
            records,
            is_root,
            parser,
        ).is_none(),
{
    if let Some(after) = synthesis(tree, records, is_root, parser) {
        let children = tree.children();
        lemma_find_trigger(children);
        let k = find_trigger(children).unwrap();
        let region = region_for(parser, block_text(records, is_root));
        let next = children.take(k + 1) + region;
        assert(after.children() == next);
        assert(next[k] == children[k]);
        assert forall|j: int| 0 <= j < k implies !is_trigger(next[j]) by {
            assert(next[j] == children[j]);
        }
        lemma_find_trigger_is(next, k);
        assert(next.skip(k + 1) =~= region);
    }
}

/// A tree without a marker comment among its children is never changed.
pub proof fn lemma_synthesis_needs_marker(
    tree: Tree,
    records: Seq<RecordView>,
    is_root: bool,
    parser: &NestedParser,
)
    requires
        forall|i: int| 0 <= i < tree.children().len() ==> !is_trigger(tree.children()[i]),
    ensures
        synthesis(tree, records, is_root, parser).is_none(),
{
    lemma_find_trigger(tree.children());
}

/// The segments of the generated block stand for the block's text.
pub proof fn lemma_region_text(parser: &NestedParser, block: Seq<char>)
    requires
        parser.wf(),
    ensures
        concat(region_for(parser, block)) == block,
{
    parser.lemma_segments_round_trip(block, 0, 0, 0, parser.max_depth as nat);
    match parser.parse_from(block, 0, 0, 0, parser.max_depth as nat) {
        Ok(children) => {
            assert(block.subrange(0, block.len() as int) =~= block);
        },
        Err(_) => {
            lemma_concat_one(Tree::Raw { text: block });
        },
    }
}

/// Synthesis keeps the text up to the end of the marker comment as it was,
/// and puts the generated block in the place of what followed.
pub proof fn lemma_synthesis_text(
    tree: Tree,
    records: Seq<RecordView>,
    is_root: bool,
    parser: &NestedParser,
)
    requires
        parser.wf(),
    ensures
        synthesis(tree, records, is_root, parser) matches Some(after) ==> {
            let k = find_trigger(tree.children()).unwrap();
            after.text() == tree->open + concat(tree.children().take(k + 1)) + block_text(
                records,
                is_root,
            ) + tree->close
        },
{
    if let Some(after) = synthesis(tree, records, is_root, parser) {
        let children = tree.children();
        lemma_find_trigger(children);
        let k = find_trigger(children).unwrap();
        let block = block_text(records, is_root);
        lemma_region_text(parser, block);
        lemma_concat_add(children.take(k + 1), region_for(parser, block));
        assert(after.text() =~= tree->open + concat(children.take(k + 1)) + block + tree->close);
    }
}

/// The segments that stand for the generated block.
pub fn make_region(parser: &NestedParser, block: &Vec<char>) -> (r: Vec<Segment>)
    ensures
        trees(r@) == region_for(parser, block@),
{
    match parser.parse_segments(block.as_slice(), 0, parser.max_depth) {
        Ok(children) => children,
        Err(_) => {
            let mut out: Vec<Segment> = Vec::new();
            let piece = Segment::Raw { text: copy_chars(block.as_slice()) };
            out.push(piece);
            assert(trees(out@) =~= seq![piece@]);
            out
        },
    }
}

/// The number of segments directly inside `tree`.
pub fn child_count(tree: &Segment) -> (r: usize)
    ensures
        r == tree@.children().len(),
{
    proof {
        lemma_node_children(*tree);
    }
    match tree {
        Segment::Node { children, .. } => children.len(),
        _ => 0,
    }
}

/// Whether the segments directly inside `tree` from `from` on are the
/// given ones.
fn follows(tree: &Segment, from: usize, region: &[Segment]) -> (r: bool)
    requires
        from <= tree@.children().len(),
    ensures
        r == (tree@.children().skip(from as int) == trees(region@)),
{
    proof {
        lemma_node_children(*tree);
    }
    match tree {
        Segment::Node { children, .. } => {
            let rest = vstd::slice::slice_subrange(children.as_slice(), from, children.len());
            assert(trees(rest@) =~= trees(children@).skip(from as int));
            same_list(rest, region)
        },
        _ => {
            assert(tree@.children().skip(from as int) =~= Seq::<Tree>::empty());
            assert(region@.len() == 0 ==> trees(region@) =~= Seq::<Tree>::empty());
            region.len() == 0
        },
    }
}

/// Brings the block after the marker comment of `module` in step with what
/// the siblings in `records` export. Returns the new block where the tree
/// was changed, and `None` where it was not: where the module has no
/// marker comment, and where the block was in step already.
pub fn synthesize_records(
    module: &mut Segment,
    records: &Vec<ExportRecord>,
    is_root: bool,
    parser: &NestedParser,
) -> (r: Option<Vec<char>>)
    ensures
        match synthesis(old(module)@, record_views(records@), is_root, parser) {
            Some(after) => final(module)@ == after && (r matches Some(block) && block@
                == block_text(record_views(records@), is_root)),
            None => final(module)@ == old(module)@ && r.is_none(),
        },
        find_trigger(old(module)@.children()).is_none() ==> r.is_none(),
{
    proof {
        lemma_node_children(*module);
    }
    let k = match find_trigger_in(module) {
        Some(k) => k,
        None => {
            return None;
        },
    };
    let block = generate_block(records, is_root);
    let region = make_region(parser, &block);
    let end = child_count(module);
    if follows(module, k + 1, region.as_slice()) {
        return None;
    }
    let ghost before = module@;
    let done = module.replace_children(k + 1, end, region);
    proof {
        assert(done);
        assert(before.children().skip(end as int) =~= Seq::<Tree>::empty());
        assert(before.children().take(k + 1) + trees(region@) + Seq::<Tree>::empty()
            =~= before.children().take(k + 1) + trees(region@));
    }
    Some(block)
}

/// A sibling of a module: its name, and the tree of its text.
pub struct Candidate {
    pub name: Vec<char>,
    pub tree: Segment,
}

/// The records of a list of candidates.
pub open spec fn candidate_records(s: Seq<Candidate>) -> Seq<RecordView> {
    Seq::new(s.len(), |i: int| RecordView::of(s[i].name@, s[i].tree@))
}

/// Brings the block after the marker comment of `module` in step with what
/// its siblings export. Returns the new block where the tree was changed,
/// and `None` where it was not: where the module has no marker comment,
/// and where the block was in step already.
pub fn synthesize(
    module: &mut Segment,
    siblings: &Vec<Candidate>,
    is_root: bool,
    parser: &NestedParser,
) -> (r: Option<Vec<char>>)
    ensures
        match synthesis(old(module)@, candidate_records(siblings@), is_root, parser) {
            Some(after) => final(module)@ == after && (r matches Some(block) && block@
                == block_text(candidate_records(siblings@), is_root)),
            None => final(module)@ == old(module)@ && r.is_none(),
        },
        find_trigger(old(module)@.children()).is_none() ==> r.is_none(),
{
    let mut records: Vec<ExportRecord> = Vec::new();
    let mut i: usize = 0;
    while i < siblings.len()
        invariant
            i <= siblings@.len(),
            record_views(records@) =~= candidate_records(siblings@).take(i as int),
        decreases siblings@.len() - i,
    {
        let record = ExportRecord::of(siblings[i].name.as_slice(), &siblings[i].tree);
        let ghost before = record_views(records@);
        records.push(record);
        assert(record_views(records@) =~= before.push(record@));
        i += 1;
    }
    assert(candidate_records(siblings@).take(i as int) =~= candidate_records(siblings@));
    synthesize_records(module, &records, is_root, parser)
}



/// The records without what they hold for the parent tier.
pub open spec fn without_parent_tier(records: Seq<RecordView>) -> Seq<RecordView> {
    Seq::new(records.len(), |i: int| RecordView { parent: Seq::empty(), ..records[i] })
}

/// In a root file a sibling that exports for the parent module only gets
/// its module declaration and no re-export.
pub proof fn lemma_root_hides_parent_tier(record: RecordView)
    requires
        record.public.len() == 0,
        record.package.len() == 0,
    ensures
        use_lines(record, true) == Seq::<char>::empty(),
{
    assert(use_lines(record, true) =~= Seq::<char>::empty());
}

/// In a root file what the siblings export for the parent module has no
/// part in the generated block.
pub proof fn lemma_root_block_ignores_parent_tier(records: Seq<RecordView>)
    ensures
        block_text(records, true) == block_text(without_parent_tier(records), true),
{
    let cleared = without_parent_tier(records);
    assert(name_lengths(cleared) =~= name_lengths(records));
    let order = order_by_length(name_lengths(records), records.len());
    lemma_order_by_length(name_lengths(records), records.len());
    lemma_lines_ignore_parent_tier(records, order, records.len());
}

/// The lines of the first `n` siblings in `order` are the same with and
/// without what the siblings hold for the parent tier, in a root file.
pub proof fn lemma_lines_ignore_parent_tier(records: Seq<RecordView>, order: Seq<int>, n: nat)
    requires
        n <= order.len(),
        forall|i: int| 0 <= i < order.len() ==> 0 <= #[trigger] order[i] < records.len(),
    ensures
        mod_lines(records, order, n) == mod_lines(without_parent_tier(records), order, n),
        all_use_lines(records, order, true, n) == all_use_lines(
            without_parent_tier(records),
            order,
            true,
            n,
        ),
    decreases n,
{
    if n > 0 {
        lemma_lines_ignore_parent_tier(records, order, (n - 1) as nat);
        let k = order[n - 1];
        let a = records[k];
        let b = without_parent_tier(records)[k];
        assert(use_lines(a, true) =~= use_lines(b, true));
    }
}

} // verus!
