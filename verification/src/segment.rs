//! The tree that a parsed text becomes: leaves that keep their text as it
//! was, and nodes for spans that were parsed again from the inside.

use vstd::prelude::*;
use crate::pub_type::PubType;
use crate::text::{append_chars, copy_chars, copy_texts, same_chars, same_texts, string_of, texts};

verus! {

/// The mathematical model of a segment.
pub ghost enum Tree {
    /// Text that no descriptor claimed.
    Raw { text: Seq<char> },
    /// A span that is kept as it was and not parsed from the inside.
    Leaf { name: Seq<char>, text: Seq<char> },
    /// A mark without text at a place where something is declared: the
    /// visibility of the declaration and the identifiers that it declares.
    Marker { name: Seq<char>, tier: PubType, identifiers: Seq<Seq<char>> },
    /// A span between two delimiters whose inside was parsed again.
    Node { name: Seq<char>, open: Seq<char>, children: Seq<Tree>, close: Seq<char> },
}

impl Tree {
    /// The name of the segment's type; raw text has the empty name.
    pub open spec fn name(self) -> Seq<char> {
        match self {
            Tree::Raw { .. } => Seq::empty(),
            Tree::Leaf { name, .. } => name,
            Tree::Marker { name, .. } => name,
            Tree::Node { name, .. } => name,
        }
    }

    /// The segments directly inside this one.
    pub open spec fn children(self) -> Seq<Tree> {
        match self {
            Tree::Node { children, .. } => children,
            _ => Seq::empty(),
        }
    }

    /// The source text that the segment stands for.
    pub open spec fn text(self) -> Seq<char>
        decreases self,
    {
        match self {
            Tree::Raw { text } => text,
            Tree::Leaf { text, .. } => text,
            Tree::Marker { .. } => Seq::empty(),
            Tree::Node { open, children, close, .. } => open + concat(children) + close,
        }
    }

    /// The segment and everything inside it in document order, each with its
    /// depth, the segment itself being at `depth`.
    pub open spec fn flat(self, depth: nat) -> Seq<(nat, Tree)>
        decreases self,
    {
        match self {
            Tree::Node { children, .. } => seq![(depth, self)] + flat_all(children, depth + 1),
            _ => seq![(depth, self)],
        }
    }

    /// The number of levels of the tree.
    pub open spec fn height(self) -> nat
        decreases self,
    {
        match self {
            Tree::Node { children, .. } => 1 + max_height(children),
            _ => 0,
        }
    }

    /// The segment reached by following `path`: at each step the first child
    /// that has the next name.
    pub open spec fn descendant(self, path: Seq<Seq<char>>) -> Option<Tree>
        decreases path.len(),
    {
        if path.len() == 0 {
            Some(self)
        } else {
            match first_named(self.children(), path[0]) {
                Some(i) => self.children()[i].descendant(path.drop_first()),
                None => None,
            }
        }
    }
}

/// The source text of a list of segments, one after the other.
pub open spec fn concat(s: Seq<Tree>) -> Seq<char>
    decreases s,
{
    if s.len() == 0 {
        Seq::empty()
    } else {
        s[0].text() + concat(s.drop_first())
    }
}

/// The segments of a list and everything inside them in document order.
pub open spec fn flat_all(s: Seq<Tree>, depth: nat) -> Seq<(nat, Tree)>
    decreases s,
{
    if s.len() == 0 {
        Seq::empty()
    } else {
        s[0].flat(depth) + flat_all(s.drop_first(), depth)
    }
}

/// The height of the highest tree of a list.
pub open spec fn max_height(s: Seq<Tree>) -> nat
    decreases s,
{
    if s.len() == 0 {
        0
    } else {
        let h = s[0].height();
        let rest = max_height(s.drop_first());
        if h >= rest {
            h
        } else {
            rest
        }
    }
}

/// The index of the first segment of the list that has the given name.
pub open spec fn first_named(s: Seq<Tree>, name: Seq<char>) -> Option<int>
    decreases s.len(),
{
    if s.len() == 0 {
        None
    } else if s[0].name() == name {
        Some(0)
    } else {
        match first_named(s.drop_first(), name) {
            Some(i) => Some(i + 1),
            None => None,
        }
    }
}

/// The text of two lists joined is the text of the first and then that of
/// the second.
pub proof fn lemma_concat_add(a: Seq<Tree>, b: Seq<Tree>)
    ensures
        concat(a + b) == concat(a) + concat(b),
    decreases a.len(),
{
    if a.len() == 0 {
        assert(a + b =~= b);
        assert(concat(a) + concat(b) =~= concat(b));
    } else {
        assert((a + b).drop_first() =~= a.drop_first() + b);
        lemma_concat_add(a.drop_first(), b);
        assert(concat(a + b) =~= concat(a) + concat(b));
    }
}

/// The text of a list of one segment is that segment's text.
pub proof fn lemma_concat_one(t: Tree)
    ensures
        concat(seq![t]) == t.text(),
{
    assert(seq![t].drop_first().len() == 0);
    assert(concat(seq![t].drop_first()) =~= Seq::<char>::empty());
    assert(concat(seq![t]) =~= t.text());
}

/// Flattening two lists joined gives the first flattened and then the
/// second.
pub proof fn lemma_flat_all_add(a: Seq<Tree>, b: Seq<Tree>, depth: nat)
    ensures
        flat_all(a + b, depth) == flat_all(a, depth) + flat_all(b, depth),
    decreases a.len(),
{
    if a.len() == 0 {
        assert(a + b =~= b);
        assert(flat_all(a, depth) + flat_all(b, depth) =~= flat_all(b, depth));
    } else {
        assert((a + b).drop_first() =~= a.drop_first() + b);
        lemma_flat_all_add(a.drop_first(), b, depth);
        assert(flat_all(a + b, depth) =~= flat_all(a, depth) + flat_all(b, depth));
    }
}

/// No tree of a list is higher than the list's height.
pub proof fn lemma_max_height(s: Seq<Tree>, i: int)
    requires
        0 <= i < s.len(),
    ensures
        s[i].height() <= max_height(s),
    decreases s.len(),
{
    if i > 0 {
        lemma_max_height(s.drop_first(), i - 1);
    }
}

/// What `first_named` finds has the name, and nothing before it has.
pub proof fn lemma_first_named(s: Seq<Tree>, name: Seq<char>)
    ensures
        match first_named(s, name) {
            Some(i) => 0 <= i < s.len() && s[i].name() == name && forall|j: int|
                0 <= j < i ==> s[j].name() != name,
            None => forall|j: int| 0 <= j < s.len() ==> s[j].name() != name,
        },
    decreases s.len(),
{
    if s.len() > 0 && s[0].name() != name {
        let t = s.drop_first();
        lemma_first_named(t, name);
        match first_named(t, name) {
            Some(i) => {
                assert forall|j: int| 0 <= j < i + 1 implies s[j].name() != name by {
                    if j > 0 {
                        assert(s[j] == t[j - 1]);
                    }
                }
            },
            None => {
                assert forall|j: int| 0 <= j < s.len() implies s[j].name() != name by {
                    if j > 0 {
                        assert(s[j] == t[j - 1]);
                    }
                }
            },
        }
    }
}

/// A node of the tree of a parsed text.
pub enum Segment {
    /// Text that no descriptor claimed.
    Raw { text: Vec<char> },
    /// A span that is kept as it was and not parsed from the inside.
    Leaf { name: Vec<char>, text: Vec<char> },
    /// A mark without text at a place where something is declared: the
    /// visibility of the declaration and the identifiers that it declares.
    Marker { name: Vec<char>, tier: PubType, identifiers: Vec<Vec<char>> },
    /// A span between two delimiters whose inside was parsed again.
    Node { name: Vec<char>, open: Vec<char>, children: Vec<Segment>, close: Vec<char> },
}

impl Segment {
    /// The segment as a mathematical tree.
    pub open spec fn tree(&self) -> Tree
        decreases self,
    {
        match self {
            Segment::Raw { text } => Tree::Raw { text: text@ },
            Segment::Leaf { name, text } => Tree::Leaf { name: name@, text: text@ },
            Segment::Marker { name, tier, identifiers } => Tree::Marker {
                name: name@,
                tier: *tier,
                identifiers: texts(identifiers@),
            },
            Segment::Node { name, open, children, close } => Tree::Node {
                name: name@,
                open: open@,
                children: Seq::new(
                    children@.len(),
                    |i: int|
                        if 0 <= i < children@.len() {
                            children@[i].tree()
                        } else {
                            arbitrary()
                        },
                ),
                close: close@,
            },
        }
    }
}

impl View for Segment {
    type V = Tree;

    open spec fn view(&self) -> Tree {
        self.tree()
    }
}

/// The trees of a list of segments.
pub open spec fn trees(s: Seq<Segment>) -> Seq<Tree> {
    Seq::new(s.len(), |i: int| s[i]@)
}

/// The children of a node's tree are the trees of its children.
pub proof fn lemma_node_children(s: Segment)
    ensures
        s matches Segment::Node { children, .. } ==> s@.children() == trees(children@),
        !(s is Node) ==> s@.children() == Seq::<Tree>::empty(),
{
    match s {
        Segment::Node { name, open, children, close } => {
            assert(s@.children().len() == children@.len());
            assert forall|i: int| 0 <= i < children@.len() implies s@.children()[i] == trees(
                children@,
            )[i] by {}
            assert(s@.children() =~= trees(children@));
        },
        _ => {},
    }
}



/// Taking one more segment of a list adds that segment's text.
pub proof fn lemma_concat_take(s: Seq<Tree>, i: int)
    requires
        0 <= i < s.len(),
    ensures
        concat(s.take(i + 1)) == concat(s.take(i)) + s[i].text(),
{
    assert(s.take(i + 1) =~= s.take(i) + seq![s[i]]);
    lemma_concat_add(s.take(i), seq![s[i]]);
    lemma_concat_one(s[i]);
}

/// Taking one more segment of a list adds what that segment flattens to.
pub proof fn lemma_flat_all_take(s: Seq<Tree>, i: int, depth: nat)
    requires
        0 <= i < s.len(),
    ensures
        flat_all(s.take(i + 1), depth) == flat_all(s.take(i), depth) + s[i].flat(depth),
{
    assert(s.take(i + 1) =~= s.take(i) + seq![s[i]]);
    lemma_flat_all_add(s.take(i), seq![s[i]], depth);
    assert(seq![s[i]].drop_first().len() == 0);
    assert(flat_all(seq![s[i]].drop_first(), depth) =~= Seq::<(nat, Tree)>::empty());
    assert(flat_all(seq![s[i]], depth) =~= s[i].flat(depth));
}

/// Flattened segments as the model lists them.
pub open spec fn flat_view(s: Seq<(usize, &Segment)>) -> Seq<(nat, Tree)> {
    Seq::new(s.len(), |i: int| (s[i].0 as nat, s[i].1@))
}

impl Segment {
    /// A segment of raw text.
    pub fn raw(text: Vec<char>) -> (r: Segment)
        ensures
            r@ == (Tree::Raw { text: text@ }),
    {
        Segment::Raw { text }
    }

    /// A leaf that keeps `text` as it is.
    pub fn leaf(name: Vec<char>, text: Vec<char>) -> (r: Segment)
        ensures
            r@ == (Tree::Leaf { name: name@, text: text@ }),
    {
        Segment::Leaf { name, text }
    }

    /// A mark for a declaration of `identifiers` with visibility `tier`.
    pub fn marker(name: Vec<char>, tier: PubType, identifiers: Vec<Vec<char>>) -> (r: Segment)
        ensures
            r@ == (Tree::Marker { name: name@, tier, identifiers: texts(identifiers@) }),
    {
        Segment::Marker { name, tier, identifiers }
    }

    /// A node with the given delimiters and children.
    pub fn new_code(
        name: Vec<char>,
        open: Vec<char>,
        children: Vec<Segment>,
        close: Vec<char>,
    ) -> (r: Segment)
        ensures
            r@ == (Tree::Node {
                name: name@,
                open: open@,
                children: trees(children@),
                close: close@,
            }),
    {
        let r = Segment::Node { name, open, children, close };
        proof {
            lemma_node_children(r);
        }
        r
    }

    /// The name of the segment's type; raw text has the empty name.
    pub fn name(&self) -> (r: Vec<char>)
        ensures
            r@ == self@.name(),
    {
        match self {
            Segment::Raw { .. } => Vec::new(),
            Segment::Leaf { name, .. } => copy_chars(name.as_slice()),
            Segment::Marker { name, .. } => copy_chars(name.as_slice()),
            Segment::Node { name, .. } => copy_chars(name.as_slice()),
        }
    }

    /// Whether the segment's type has the given name.
    pub fn is_named(&self, name: &[char]) -> (r: bool)
        ensures
            r == (self@.name() == name@),
    {
        match self {
            Segment::Raw { .. } => {
                assert(name@.len() == 0 ==> name@ =~= Seq::<char>::empty());
                name.len() == 0
            },
            Segment::Leaf { name: own, .. } => same_chars(own.as_slice(), name),
            Segment::Marker { name: own, .. } => same_chars(own.as_slice(), name),
            Segment::Node { name: own, .. } => same_chars(own.as_slice(), name),
        }
    }

    /// Appends the source text of the segment to `out`.
    #[verifier::loop_isolation(false)]
    pub fn write_to(&self, out: &mut Vec<char>)
        ensures
            final(out)@ == old(out)@ + self@.text(),
        decreases self,
    {
        match self {
            Segment::Raw { text } => {
                append_chars(out, text.as_slice());
            },
            Segment::Leaf { text, .. } => {
                append_chars(out, text.as_slice());
            },
            Segment::Marker { .. } => {
                assert(out@ + Seq::<char>::empty() =~= out@);
            },
            Segment::Node { open, children, close, .. } => {
                proof {
                    lemma_node_children(*self);
                }
                append_chars(out, open.as_slice());
                let mut i: usize = 0;
                assert(concat(trees(children@).take(0)) =~= Seq::<char>::empty());
                while i < children.len()
                    invariant
                        i <= children@.len(),
                        out@ =~= old(out)@ + open@ + concat(trees(children@).take(i as int)),
                    decreases children@.len() - i,
                {
                    children[i].write_to(out);
                    proof {
                        lemma_concat_take(trees(children@), i as int);
                    }
                    i += 1;
                }
                assert(trees(children@).take(i as int) =~= trees(children@));
                append_chars(out, close.as_slice());
                assert(out@ =~= old(out)@ + (open@ + concat(trees(children@)) + close@));
            },
        }
    }

    /// The source text that the segment stands for.
    pub fn serialize(&self) -> (r: Vec<char>)
        ensures
            r@ == self@.text(),
    {
        let mut out: Vec<char> = Vec::new();
        self.write_to(&mut out);
        assert(Seq::<char>::empty() + self@.text() =~= self@.text());
        out
    }

    /// The source text that the segment stands for, as a string.
    pub fn to_string(&self) -> (r: String)
        ensures
            r@ == self@.text(),
    {
        let chars = self.serialize();
        string_of(chars.as_slice())
    }

    /// A segment equal to this one.
    #[verifier::loop_isolation(false)]
    pub fn copy(&self) -> (r: Segment)
        ensures
            r@ == self@,
        decreases self,
    {
        match self {
            Segment::Raw { text } => {
                let r = Segment::Raw { text: copy_chars(text.as_slice()) };
                r
            },
            Segment::Leaf { name, text } => {
                let r = Segment::Leaf {
                    name: copy_chars(name.as_slice()),
                    text: copy_chars(text.as_slice()),
                };
                r
            },
            Segment::Marker { name, tier, identifiers } => {
                let r = Segment::Marker {
                    name: copy_chars(name.as_slice()),
                    tier: *tier,
                    identifiers: copy_texts(identifiers),
                };
                r
            },
            Segment::Node { name, open, children, close } => {
                let mut copies: Vec<Segment> = Vec::new();
                let mut i: usize = 0;
                while i < children.len()
                    invariant
                        i <= children@.len(),
                        trees(copies@) =~= trees(children@).take(i as int),
                    decreases children@.len() - i,
                {
                    let c = children[i].copy();
                    let ghost before = copies@;
                    copies.push(c);
                    assert(trees(copies@) =~= trees(before).push(c@));
                    assert(trees(children@).take(i + 1) =~= trees(children@).take(i as int).push(
                        children@[i as int]@,
                    ));
                    i += 1;
                }
                assert(trees(children@).take(i as int) =~= trees(children@));
                let r = Segment::Node {
                    name: copy_chars(name.as_slice()),
                    open: copy_chars(open.as_slice()),
                    children: copies,
                    close: copy_chars(close.as_slice()),
                };
                proof {
                    lemma_node_children(r);
                    lemma_node_children(*self);
                }
                r
            },
        }
    }

    /// Whether the two segments are the same tree.
    #[verifier::loop_isolation(false)]
    pub fn same_as(&self, other: &Segment) -> (r: bool)
        ensures
            r == (self@ == other@),
        decreases self,
    {
        match (self, other) {
            (Segment::Raw { text: a }, Segment::Raw { text: b }) => same_chars(
                a.as_slice(),
                b.as_slice(),
            ),
            (Segment::Leaf { name: n1, text: a }, Segment::Leaf { name: n2, text: b }) => {
                same_chars(n1.as_slice(), n2.as_slice()) && same_chars(a.as_slice(), b.as_slice())
            },
            (
                Segment::Marker { name: n1, tier: t1, identifiers: a },
                Segment::Marker { name: n2, tier: t2, identifiers: b },
            ) => { same_chars(n1.as_slice(), n2.as_slice()) && *t1 == *t2 && same_texts(a, b) },
            (
                Segment::Node { name: n1, open: o1, children: c1, close: e1 },
                Segment::Node { name: n2, open: o2, children: c2, close: e2 },
            ) => {
                proof {
                    lemma_node_children(*self);
                    lemma_node_children(*other);
                }
                if !same_chars(n1.as_slice(), n2.as_slice()) || !same_chars(
                    o1.as_slice(),
                    o2.as_slice(),
                ) || !same_chars(e1.as_slice(), e2.as_slice()) {
                    return false;
                }
                if c1.len() != c2.len() {
                    assert(trees(c1@).len() != trees(c2@).len());
                    return false;
                }
                let mut i: usize = 0;
                while i < c1.len()
                    invariant
                        i <= c1@.len(),
                        c1@.len() == c2@.len(),
                        trees(c1@).take(i as int) =~= trees(c2@).take(i as int),
                    decreases c1@.len() - i,
                {
                    if !c1[i].same_as(&c2[i]) {
                        assert(trees(c1@)[i as int] != trees(c2@)[i as int]);
                        return false;
                    }
                    assert(trees(c1@).take(i + 1) =~= trees(c1@).take(i as int).push(
                        trees(c1@)[i as int],
                    ));
                    assert(trees(c2@).take(i + 1) =~= trees(c2@).take(i as int).push(
                        trees(c2@)[i as int],
                    ));
                    i += 1;
                }
                assert(trees(c1@).take(i as int) =~= trees(c1@));
                assert(trees(c2@).take(i as int) =~= trees(c2@));
                true
            },
            _ => false,
        }
    }
}

/// Whether two lists of segments are the same list of trees.
pub fn same_list(a: &[Segment], b: &[Segment]) -> (r: bool)
    ensures
        r == (trees(a@) == trees(b@)),
{
    if a.len() != b.len() {
        assert(trees(a@).len() != trees(b@).len());
        return false;
    }
    let mut i: usize = 0;
    while i < a.len()
        invariant
            i <= a@.len(),
            a@.len() == b@.len(),
            trees(a@).take(i as int) =~= trees(b@).take(i as int),
        decreases a@.len() - i,
    {
        if !a[i].same_as(&b[i]) {
            assert(trees(a@)[i as int] != trees(b@)[i as int]);
            return false;
        }
        assert(trees(a@).take(i + 1) =~= trees(a@).take(i as int).push(trees(a@)[i as int]));
        assert(trees(b@).take(i + 1) =~= trees(b@).take(i as int).push(trees(b@)[i as int]));
        i += 1;
    }
    assert(trees(a@).take(i as int) =~= trees(a@));
    assert(trees(b@).take(i as int) =~= trees(b@));
    true
}



/// The names of a path, as the model takes them.
pub open spec fn path_view(path: Seq<Vec<char>>) -> Seq<Seq<char>> {
    Seq::new(path.len(), |i: int| path[i]@)
}

/// The first segment with a name is the one that has it while none before
/// it has.
pub proof fn lemma_first_named_is(s: Seq<Tree>, name: Seq<char>, i: int)
    requires
        0 <= i < s.len(),
        s[i].name() == name,
        forall|j: int| 0 <= j < i ==> s[j].name() != name,
    ensures
        first_named(s, name) == Some(i),
{
    lemma_first_named(s, name);
}

impl Segment {
    /// Appends the segment and everything inside it to `out`, in document
    /// order, each with its depth; the segment itself is at `depth`.
    #[verifier::loop_isolation(false)]
    pub fn flatten_into<'a>(&'a self, depth: usize, out: &mut Vec<(usize, &'a Segment)>)
        requires
            depth + self@.height() <= usize::MAX,
        ensures
            flat_view(final(out)@) == flat_view(old(out)@) + self@.flat(depth as nat),
        decreases self,
    {
        out.push((depth, self));
        assert(flat_view(out@) =~= flat_view(old(out)@) + seq![(depth as nat, self@)]);
        match self {
            Segment::Node { children, .. } => {
                proof {
                    lemma_node_children(*self);
                }
                let ghost kids = trees(children@);
                assert(flat_all(kids.take(0), (depth + 1) as nat) =~= Seq::<(nat, Tree)>::empty());
                let mut i: usize = 0;
                while i < children.len()
                    invariant
                        i <= children@.len(),
                        flat_view(out@) =~= flat_view(old(out)@) + seq![(depth as nat, self@)]
                            + flat_all(kids.take(i as int), (depth + 1) as nat),
                    decreases children@.len() - i,
                {
                    proof {
                        lemma_max_height(kids, i as int);
                        lemma_flat_all_take(kids, i as int, (depth + 1) as nat);
                    }
                    children[i].flatten_into(depth + 1, out);
                    i += 1;
                }
                assert(kids.take(i as int) =~= kids);
                assert(flat_view(out@) =~= flat_view(old(out)@) + self@.flat(depth as nat));
            },
            _ => {},
        }
    }

    /// The segment and everything inside it in document order, each with its
    /// depth; the segment itself has depth 0.
    pub fn flatten(&self) -> (r: Vec<(usize, &Segment)>)
        requires
            self@.height() <= usize::MAX,
        ensures
            flat_view(r@) == self@.flat(0),
    {
        let mut out: Vec<(usize, &Segment)> = Vec::new();
        self.flatten_into(0, &mut out);
        assert(flat_view(Seq::<(usize, &Segment)>::empty()) + self@.flat(0) =~= self@.flat(0));
        out
    }

    /// The index of the first child that has the given name.
    #[verifier::loop_isolation(false)]
    pub fn first_child_named(&self, name: &[char]) -> (r: Option<usize>)
        ensures
            match r {
                Some(i) => first_named(self@.children(), name@) == Some(i as int) && i
                    < self@.children().len(),
                None => first_named(self@.children(), name@).is_none(),
            },
            r matches Some(i) ==> self matches Segment::Node { children, .. } && i
                < children@.len(),
    {
        proof {
            lemma_node_children(*self);
            lemma_first_named(self@.children(), name@);
        }
        match self {
            Segment::Node { children, .. } => {
                let mut i: usize = 0;
                while i < children.len()
                    invariant
                        i <= children@.len(),
                        forall|j: int| 0 <= j < i ==> trees(children@)[j].name() != name@,
                    decreases children@.len() - i,
                {
                    if children[i].is_named(name) {
                        proof {
                            lemma_first_named_is(trees(children@), name@, i as int);
                        }
                        return Some(i);
                    }
                    i += 1;
                }
                None
            },
            _ => None,
        }
    }

    /// Follows `path` down from this segment: at each step to the first
    /// child that has the next name. `None` where a step finds no child.
    pub fn find_descendant_by_type_path(&self, path: &[Vec<char>]) -> (r: Option<&Segment>)
        ensures
            match r {
                Some(found) => self@.descendant(path_view(path@)) == Some(found@),
                None => self@.descendant(path_view(path@)).is_none(),
            },
    {
        let ghost names = path_view(path@);
        let mut cur: &Segment = self;
        let mut k: usize = 0;
        assert(names.skip(0) =~= names);
        while k < path.len()
            invariant
                k <= path@.len(),
                names == path_view(path@),
                self@.descendant(names) == cur@.descendant(names.skip(k as int)),
            decreases path@.len() - k,
        {
            assert(names.skip(k as int).drop_first() =~= names.skip(k + 1));
            assert(names.skip(k as int)[0] == path@[k as int]@);
            match cur.first_child_named(path[k].as_slice()) {
                Some(i) => {
                    proof {
                        lemma_node_children(*cur);
                    }
                    match cur {
                        Segment::Node { children, .. } => {
                            cur = &children[i];
                        },
                        _ => {
                            return None;
                        },
                    }
                },
                None => {
                    return None;
                },
            }
            k += 1;
        }
        Some(cur)
    }

    /// Puts `with` in the place of the children from `from` up to `to`.
    /// Returns `false`, and changes nothing, where the segment is no node or
    /// has no such children.
    pub fn replace_children(&mut self, from: usize, to: usize, with: Vec<Segment>) -> (r: bool)
        ensures
            r == (old(self)@ is Node && from <= to <= old(self)@.children().len()),
            r ==> final(self)@ == (Tree::Node {
                name: old(self)@.name(),
                open: old(self)@->open,
                children: old(self)@.children().take(from as int) + trees(with@) + old(
                    self,
                )@.children().skip(to as int),
                close: old(self)@->close,
            }),
            !r ==> final(self)@ == old(self)@,
    {
        proof {
            lemma_node_children(*self);
        }
        let mut with = with;
        match self {
            Segment::Node { children, .. } => {
                if from <= to && to <= children.len() {
                    let ghost before = children@;
                    let ghost added = with@;
                    let mut tail = children.split_off(to);
                    children.truncate(from);
                    children.append(&mut with);
                    children.append(&mut tail);
                    assert(trees(children@) =~= trees(before).take(from as int) + trees(added)
                        + trees(before).skip(to as int));
                } else {
                    return false;
                }
            },
            _ => {
                return false;
            },
        }
        proof {
            lemma_node_children(*self);
        }
        true
    }
}



/// The entries of `all` that `kept` marks, in their order.
pub open spec fn picked<T>(all: Seq<T>, kept: Seq<bool>) -> Seq<T>
    decreases all.len(),
{
    if all.len() == 0 || kept.len() != all.len() {
        Seq::empty()
    } else if kept.last() {
        picked(all.drop_last(), kept.drop_last()).push(all.last())
    } else {
        picked(all.drop_last(), kept.drop_last())
    }
}

impl Segment {
    /// The segment and everything inside it, as far as `pred` holds of the
    /// depth and the segment, in document order.
    pub fn filter<'a, F: Fn(usize, &Segment) -> bool>(&'a self, pred: F) -> (r: Vec<
        (usize, &'a Segment),
    >)
        requires
            self@.height() <= usize::MAX,
            forall|depth: usize, segment: &Segment| call_requires(pred, (depth, segment)),
        ensures
            exists|all: Seq<(usize, &Segment)>, kept: Seq<bool>|
                {
                    &&& flat_view(all) == self@.flat(0)
                    &&& kept.len() == all.len()
                    &&& forall|i: int|
                        0 <= i < all.len() ==> call_ensures(
                            pred,
                            (all[i].0, all[i].1),
                            #[trigger] kept[i],
                        )
                    &&& r@ == picked(all, kept)
                },
    {
        let all = self.flatten();
        let mut out: Vec<(usize, &Segment)> = Vec::new();
        let ghost mut kept: Seq<bool> = Seq::empty();
        let mut i: usize = 0;
        assert(all@.take(0) =~= Seq::empty());
        while i < all.len()
            invariant
                i <= all@.len(),
                kept.len() == i,
                forall|depth: usize, segment: &Segment| call_requires(pred, (depth, segment)),
                forall|j: int|
                    0 <= j < i ==> call_ensures(pred, (all@[j].0, all@[j].1), #[trigger] kept[j]),
                out@ == picked(all@.take(i as int), kept),
            decreases all@.len() - i,
        {
            let (depth, segment) = all[i];
            let keep = pred(depth, segment);
            proof {
                let before = kept;
                kept = kept.push(keep);
                assert(all@.take(i + 1).drop_last() =~= all@.take(i as int));
                assert(kept.drop_last() =~= before);
                assert(all@.take(i + 1).last() == all@[i as int]);
            }
            if keep {
                out.push((depth, segment));
            }
            i += 1;
        }
        assert(all@.take(i as int) =~= all@);
        out
    }
}



/// Two lists joined are as high as the higher of the two.
pub proof fn lemma_max_height_add(a: Seq<Tree>, b: Seq<Tree>)
    ensures
        max_height(a + b) == if max_height(a) >= max_height(b) {
            max_height(a)
        } else {
            max_height(b)
        },
    decreases a.len(),
{
    if a.len() == 0 {
        assert(a + b =~= b);
    } else {
        assert((a + b).drop_first() =~= a.drop_first() + b);
        assert((a + b)[0] == a[0]);
        lemma_max_height_add(a.drop_first(), b);
    }
}

/// A list of one tree is as high as that tree.
pub proof fn lemma_max_height_one(t: Tree)
    ensures
        max_height(seq![t]) == t.height(),
{
    assert(seq![t].drop_first().len() == 0);
    assert(max_height(seq![t].drop_first()) == 0);
}

} // verus!
