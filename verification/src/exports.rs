//! What a module's siblings export: the identifiers they declare at their
//! surface, by tier of visibility, and the order in which siblings are
//! listed.

use vstd::prelude::*;
use crate::pub_type::PubType;
use crate::segment::{lemma_node_children, trees, Segment, Tree};
use crate::text::{copy_chars, same_chars, texts};

verus! {

/// `acc` with `id` added at the end, unless `acc` holds it already.
pub open spec fn with_identifier(acc: Seq<Seq<char>>, id: Seq<char>) -> Seq<Seq<char>> {
    if acc.contains(id) {
        acc
    } else {
        acc.push(id)
    }
}

/// `acc` with the first `n` of `ids` added, each unless `acc` holds it
/// already.
pub open spec fn with_identifiers(acc: Seq<Seq<char>>, ids: Seq<Seq<char>>, n: nat) -> Seq<
    Seq<char>,
>
    decreases n,
{
    if n == 0 || n > ids.len() {
        acc
    } else {
        with_identifier(with_identifiers(acc, ids, (n - 1) as nat), ids[n - 1])
    }
}

/// The identifiers that the marks of the given tier among `children`
/// declare, each once, in document order.
pub open spec fn exports_of(children: Seq<Tree>, tier: PubType) -> Seq<Seq<char>>
    decreases children.len(),
{
    if children.len() == 0 {
        Seq::empty()
    } else {
        let acc = exports_of(children.drop_last(), tier);
        match children.last() {
            Tree::Marker { tier: t, identifiers, .. } => if t == tier {
                with_identifiers(acc, identifiers, identifiers.len())
            } else {
                acc
            },
            _ => acc,
        }
    }
}

/// No text occurs twice in the list.
pub open spec fn each_once(list: Seq<Seq<char>>) -> bool {
    forall|i: int, j: int| 0 <= i < j < list.len() ==> list[i] != list[j]
}

/// Whether a mark of the given tier among `children` declares `id`.
pub open spec fn declared(children: Seq<Tree>, tier: PubType, id: Seq<char>) -> bool {
    exists|k: int|
        0 <= k < children.len() && (#[trigger] children[k] matches Tree::Marker {
            tier: t,
            identifiers,
            ..
        } && t == tier && identifiers.contains(id))
}

/// Adding an identifier keeps a list free of repetitions, and the list
/// then holds what it held and the identifier.
pub proof fn lemma_with_identifier(acc: Seq<Seq<char>>, id: Seq<char>)
    requires
        each_once(acc),
    ensures
        each_once(with_identifier(acc, id)),
        forall|x: Seq<char>|
            #[trigger] with_identifier(acc, id).contains(x) <==> acc.contains(x) || x == id,
{
    let after = with_identifier(acc, id);
    assert forall|x: Seq<char>| #[trigger] after.contains(x) <==> acc.contains(x) || x == id by {
        if acc.contains(id) {
        } else {
            if after.contains(x) {
                let w = choose|w: int| 0 <= w < after.len() && after[w] == x;
                if w < acc.len() {
                    assert(acc[w] == x);
                }
            }
            if acc.contains(x) {
                let w = choose|w: int| 0 <= w < acc.len() && acc[w] == x;
                assert(after[w] == x);
            }
            if x == id {
                assert(after[acc.len() as int] == x);
            }
        }
    }
    if !acc.contains(id) {
        assert forall|i: int, j: int| 0 <= i < j < after.len() implies after[i] != after[j] by {
            if j == acc.len() {
                assert(after[i] == acc[i]);
                assert(acc.contains(acc[i]));
            }
        }
    }
}

/// Adding identifiers keeps a list free of repetitions, and the list then
/// holds what it held and what was added.
pub proof fn lemma_with_identifiers(acc: Seq<Seq<char>>, ids: Seq<Seq<char>>, n: nat)
    requires
        each_once(acc),
        n <= ids.len(),
    ensures
        each_once(with_identifiers(acc, ids, n)),
        forall|x: Seq<char>|
            #[trigger] with_identifiers(acc, ids, n).contains(x) <==> acc.contains(x)
                || ids.take(n as int).contains(x),
    decreases n,
{
    if n > 0 {
        let before = with_identifiers(acc, ids, (n - 1) as nat);
        lemma_with_identifiers(acc, ids, (n - 1) as nat);
        let id = ids[n - 1];
        lemma_with_identifier(before, id);
        let after = with_identifier(before, id);
        assert forall|x: Seq<char>| #[trigger] after.contains(x) <==> acc.contains(x) || ids.take(
            n as int,
        ).contains(x) by {
            let shorter = ids.take(n - 1);
            let longer = ids.take(n as int);
            assert(longer =~= shorter.push(id));
            if shorter.contains(x) {
                let w = choose|w: int| 0 <= w < shorter.len() && shorter[w] == x;
                assert(longer[w] == x);
            }
            if x == id {
                assert(longer[n - 1] == x);
            }
            if longer.contains(x) {
                let w = choose|w: int| 0 <= w < longer.len() && longer[w] == x;
                if w < n - 1 {
                    assert(shorter[w] == x);
                }
            }
        }
    } else {
        assert forall|x: Seq<char>| !ids.take(0).contains(x) by {}
    }
}

/// The exports of a tier hold every identifier once, and they hold exactly
/// the identifiers that the marks of the tier declare.
pub proof fn lemma_exports_are_a_set(children: Seq<Tree>, tier: PubType)
    ensures
        each_once(exports_of(children, tier)),
        forall|id: Seq<char>|
            #[trigger] exports_of(children, tier).contains(id) <==> declared(children, tier, id),
    decreases children.len(),
{
    if children.len() > 0 {
        let front = children.drop_last();
        lemma_exports_are_a_set(front, tier);
        let acc = exports_of(front, tier);
        let all = exports_of(children, tier);
        let last = children.len() - 1;
        assert(children[last] == children.last());
        let added: Seq<Seq<char>> = match children.last() {
            Tree::Marker { tier: t, identifiers, .. } => if t == tier {
                identifiers
            } else {
                Seq::empty()
            },
            _ => Seq::empty(),
        };
        lemma_with_identifiers(acc, added, added.len());
        assert(added.take(added.len() as int) =~= added);
        assert(all == with_identifiers(acc, added, added.len()));
        assert forall|id: Seq<char>| #[trigger] all.contains(id) <==> declared(
            children,
            tier,
            id,
        ) by {
            if declared(front, tier, id) {
                let k = choose|k: int|
                    0 <= k < front.len() && (#[trigger] front[k] matches Tree::Marker {
                        tier: t,
                        identifiers,
                        ..
                    } && t == tier && identifiers.contains(id));
                assert(children[k] == front[k]);
            }
            if declared(children, tier, id) {
                let k = choose|k: int|
                    0 <= k < children.len() && (#[trigger] children[k] matches Tree::Marker {
                        tier: t,
                        identifiers,
                        ..
                    } && t == tier && identifiers.contains(id));
                if k < last {
                    assert(front[k] == children[k]);
                    assert(declared(front, tier, id));
                } else {
                    assert(added.contains(id));
                }
            }
            if added.contains(id) {
                assert(declared(children, tier, id));
            }
        }
    } else {
        assert forall|id: Seq<char>| !(#[trigger] exports_of(children, tier).contains(id)) by {}
    }
}

/// The mathematical model of an export record.
pub ghost struct RecordView {
    pub name: Seq<char>,
    pub public: Seq<Seq<char>>,
    pub package: Seq<Seq<char>>,
    pub parent: Seq<Seq<char>>,
}

impl RecordView {
    /// The record of the sibling `name` whose text parsed into `tree`: the
    /// identifiers declared directly under the root, by tier.
    pub open spec fn of(name: Seq<char>, tree: Tree) -> RecordView {
        RecordView {
            name,
            public: exports_of(tree.children(), PubType::Pub),
            package: exports_of(tree.children(), PubType::Crate),
            parent: exports_of(tree.children(), PubType::Super),
        }
    }

    /// The identifiers of one tier.
    pub open spec fn tier(self, tier: PubType) -> Seq<Seq<char>> {
        match tier {
            PubType::Pub => self.public,
            PubType::Crate => self.package,
            PubType::Super => self.parent,
        }
    }
}

/// What one sibling of a module exports: its name, and the identifiers it
/// declares for everyone, for the package, and for the parent module.
pub struct ExportRecord {
    pub name: Vec<char>,
    pub public: Vec<Vec<char>>,
    pub package: Vec<Vec<char>>,
    pub parent: Vec<Vec<char>>,
}

impl View for ExportRecord {
    type V = RecordView;

    open spec fn view(&self) -> RecordView {
        RecordView {
            name: self.name@,
            public: texts(self.public@),
            package: texts(self.package@),
            parent: texts(self.parent@),
        }
    }
}

/// The models of a list of export records.
pub open spec fn record_views(s: Seq<ExportRecord>) -> Seq<RecordView> {
    Seq::new(s.len(), |i: int| s[i]@)
}

/// Whether the list holds the text.
pub fn holds_text(list: &Vec<Vec<char>>, text: &[char]) -> (r: bool)
    ensures
        r == texts(list@).contains(text@),
{
    let mut i: usize = 0;
    while i < list.len()
        invariant
            i <= list@.len(),
            forall|j: int| 0 <= j < i ==> texts(list@)[j] != text@,
        decreases list@.len() - i,
    {
        if same_chars(list[i].as_slice(), text) {
            assert(texts(list@)[i as int] == text@);
            return true;
        }
        i += 1;
    }
    false
}

/// The identifiers that the marks of the given tier directly inside
/// `tree` declare, each once, in document order.
pub fn collect_exports(tree: &Segment, tier: PubType) -> (r: Vec<Vec<char>>)
    ensures
        texts(r@) == exports_of(tree@.children(), tier),
{
    let mut out: Vec<Vec<char>> = Vec::new();
    proof {
        lemma_node_children(*tree);
    }
    match tree {
        Segment::Node { children, .. } => {
            let ghost kids = trees(children@);
            let mut i: usize = 0;
            assert(kids.take(0) =~= Seq::empty());
            assert(texts(out@) =~= Seq::empty());
            while i < children.len()
                invariant
                    i <= children@.len(),
                    kids == trees(children@),
                    texts(out@) == exports_of(kids.take(i as int), tier),
                decreases children@.len() - i,
            {
                assert(kids.take(i + 1).drop_last() =~= kids.take(i as int));
                assert(kids.take(i + 1).last() == children@[i as int]@);
                match &children[i] {
                    Segment::Marker { tier: t, identifiers, .. } => {
                        if *t == tier {
                            let ghost start = texts(out@);
                            let ghost ids = texts(identifiers@);
                            let mut k: usize = 0;
                            while k < identifiers.len()
                                invariant
                                    k <= identifiers@.len(),
                                    ids == texts(identifiers@),
                                    texts(out@) == with_identifiers(start, ids, k as nat),
                                decreases identifiers@.len() - k,
                            {
                                let identifier = &identifiers[k];
                                assert(ids[k as int] == identifier@);
                                if !holds_text(&out, identifier.as_slice()) {
                                    let ghost before = texts(out@);
                                    out.push(
                                        copy_chars(identifier.as_slice()),
                                    );
                                    assert(texts(out@) =~= before.push(identifier@));
                                }
                                k += 1;
                            }
                        }
                    },
                    _ => {},
                }
                i += 1;
            }
            assert(kids.take(i as int) =~= kids);
        },
        _ => {
            assert(texts(out@) =~= Seq::empty());
        },
    }
    out
}

impl ExportRecord {
    /// The record of the sibling `name` whose text parsed into `tree`.
    pub fn of(name: &[char], tree: &Segment) -> (r: ExportRecord)
        ensures
            r@ == RecordView::of(name@, tree@),
    {
        ExportRecord {
            name: copy_chars(name),
            public: collect_exports(tree, PubType::Pub),
            package: collect_exports(tree, PubType::Crate),
            parent: collect_exports(tree, PubType::Super),
        }
    }
}

/// Where a sibling with a name of `len` characters goes into `order`: before
/// the first sibling whose name is shorter.
pub open spec fn slot(lens: Seq<nat>, order: Seq<int>, len: nat) -> int
    decreases order.len(),
{
    if order.len() == 0 {
        0
    } else if 0 <= order[0] < lens.len() && lens[order[0]] >= len {
        1 + slot(lens, order.drop_first(), len)
    } else {
        0
    }
}

/// The order in which the first `n` siblings are listed, as indices into
/// the list of their names' lengths: longer names first, and of two names
/// of one length the one that came first.
pub open spec fn order_by_length(lens: Seq<nat>, n: nat) -> Seq<int>
    decreases n,
{
    if n == 0 {
        Seq::empty()
    } else {
        let before = order_by_length(lens, (n - 1) as nat);
        before.insert(slot(lens, before, lens[n - 1]), n - 1)
    }
}

/// The slot lies in the order; everything before it is at least as long,
/// and what stands at it is shorter.
pub proof fn lemma_slot(lens: Seq<nat>, order: Seq<int>, len: nat)
    requires
        forall|i: int| 0 <= i < order.len() ==> 0 <= #[trigger] order[i] < lens.len(),
    ensures
        0 <= slot(lens, order, len) <= order.len(),
        forall|i: int| 0 <= i < slot(lens, order, len) ==> lens[#[trigger] order[i]] >= len,
        slot(lens, order, len) < order.len() ==> lens[order[slot(lens, order, len)]] < len,
    decreases order.len(),
{
    if order.len() > 0 && lens[order[0]] >= len {
        let rest = order.drop_first();
        assert forall|i: int| 0 <= i < rest.len() implies 0 <= #[trigger] rest[i] < lens.len() by {
            assert(rest[i] == order[i + 1]);
        }
        lemma_slot(lens, rest, len);
        assert forall|i: int| 0 <= i < slot(lens, order, len) implies lens[#[trigger] order[i]]
            >= len by {
            if i > 0 {
                assert(order[i] == rest[i - 1]);
            }
        }
        if slot(lens, order, len) < order.len() {
            assert(order[slot(lens, order, len)] == rest[slot(lens, rest, len)]);
        }
    }
}

/// The order lists every sibling once, longer names before shorter ones,
/// and of two names of one length the one that came first.
pub proof fn lemma_order_by_length(lens: Seq<nat>, n: nat)
    requires
        n <= lens.len(),
    ensures
        order_by_length(lens, n).len() == n,
        forall|i: int| 0 <= i < n ==> 0 <= #[trigger] order_by_length(lens, n)[i] < n,
        forall|k: int| 0 <= k < n ==> order_by_length(lens, n).contains(k),
        forall|i: int, j: int|
            #![trigger order_by_length(lens, n)[i], order_by_length(lens, n)[j]]
            0 <= i < j < n ==> {
                let a = order_by_length(lens, n)[i];
                let b = order_by_length(lens, n)[j];
                lens[a] > lens[b] || (lens[a] == lens[b] && a < b)
            },
    decreases n,
{
    if n > 0 {
        let m = (n - 1) as nat;
        let before = order_by_length(lens, m);
        lemma_order_by_length(lens, m);
        lemma_slot(lens, before, lens[n - 1]);
        let s = slot(lens, before, lens[n - 1]);
        let after = before.insert(s, n - 1);
        assert(after == order_by_length(lens, n));
        assert forall|i: int| 0 <= i < n implies 0 <= #[trigger] after[i] < n by {
            if i < s {
                assert(after[i] == before[i]);
            } else if i > s {
                assert(after[i] == before[i - 1]);
            }
        }
        assert forall|k: int| 0 <= k < n implies after.contains(k) by {
            if k == n - 1 {
                assert(after[s] == k);
            } else {
                assert(before.contains(k));
                let w = choose|w: int| 0 <= w < before.len() && before[w] == k;
                if w < s {
                    assert(after[w] == k);
                } else {
                    assert(after[w + 1] == k);
                }
            }
        }
        assert forall|i: int, j: int| 0 <= i < j < n implies ({
            let a = #[trigger] after[i];
            let b = #[trigger] after[j];
            lens[a] > lens[b] || (lens[a] == lens[b] && a < b)
        }) by {
            if j < s {
                assert(after[i] == before[i] && after[j] == before[j]);
            } else if i > s {
                assert(after[i] == before[i - 1] && after[j] == before[j - 1]);
            } else if i == s {
                assert(after[j] == before[j - 1]);
                assert(after[i] == n - 1);
                // everything from the slot on is shorter than the new name
                assert(lens[before[s]] < lens[n - 1]);
                if j - 1 > s {
                    let a = before[s];
                    let b = before[j - 1];
                    assert(lens[a] > lens[b] || (lens[a] == lens[b] && a < b));
                }
            } else if j == s {
                assert(after[i] == before[i]);
                assert(after[j] == n - 1);
                assert(lens[before[i]] >= lens[n - 1]);
                assert(before[i] < n - 1);
            } else {
                assert(after[i] == before[i] && after[j] == before[j - 1]);
            }
        }
    }
}

/// The lengths of the names of the records.
pub open spec fn name_lengths(records: Seq<RecordView>) -> Seq<nat> {
    Seq::new(records.len(), |i: int| records[i].name.len())
}

/// The order in which the records are listed, as indices: longer names
/// first, and of two names of one length the one that came first.
pub fn listing_order(records: &Vec<ExportRecord>) -> (r: Vec<usize>)
    ensures
        r@.len() == records@.len(),
        forall|i: int| 0 <= i < r@.len() ==> #[trigger] r@[i] < records@.len(),
        r@.map_values(|k: usize| k as int) == order_by_length(
            name_lengths(record_views(records@)),
            records@.len(),
        ),
{
    let ghost lens = name_lengths(record_views(records@));
    let mut order: Vec<usize> = Vec::new();
    let mut n: usize = 0;
    assert(order@.map_values(|k: usize| k as int) =~= Seq::<int>::empty());
    while n < records.len()
        invariant
            n <= records@.len(),
            lens == name_lengths(record_views(records@)),
            order@.len() == n,
            forall|i: int| 0 <= i < n ==> #[trigger] order@[i] < n,
            order@.map_values(|k: usize| k as int) == order_by_length(lens, n as nat),
        decreases records@.len() - n,
    {
        let len = records[n].name.len();
        let ghost before = order@.map_values(|k: usize| k as int);
        let mut s: usize = 0;
        assert(before.skip(0) =~= before);
        while s < order.len() && records[order[s]].name.len() >= len
            invariant
                s <= order@.len(),
                order@.len() == n,
                n < records@.len(),
                len == lens[n as int],
                lens == name_lengths(record_views(records@)),
                before == order@.map_values(|k: usize| k as int),
                forall|i: int| 0 <= i < n ==> #[trigger] order@[i] < n,
                slot(lens, before, len as nat) == s + slot(lens, before.skip(s as int), len as nat),
            decreases order@.len() - s,
        {
            assert(before.skip(s as int)[0] == order@[s as int]);
            assert(before.skip(s as int).drop_first() =~= before.skip(s + 1));
            s += 1;
        }
        proof {
            if s < order@.len() {
                assert(before.skip(s as int)[0] == order@[s as int]);
            }
        }
        order.insert(s, n);
        assert(order@.map_values(|k: usize| k as int) =~= before.insert(s as int, n as int));
        assert forall|i: int| 0 <= i < n + 1 implies #[trigger] order@[i] < n + 1 by {
            if i > s {
                assert(order@[i] as int == before[i - 1]);
            }
        }
        n += 1;
    }
    order
}

} // verus!
