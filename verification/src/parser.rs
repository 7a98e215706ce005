//! The nested parser: it scans a text with the matchers of its token
//! descriptors and builds the segment tree, parsing the inside of every
//! nestable span again.

use vstd::prelude::*;
use crate::matcher::{
    first_capture, lemma_hit_bounds, lemma_scope_bounds, lemma_view_children, named_texts, Capture,
    CharClass, MatchResult, Matcher, Pattern,
};
use crate::pub_type::PubType;
use crate::scanner::{Entry, MatcherSet};
use crate::segment::{
    concat, lemma_concat_add, lemma_concat_one, lemma_max_height_add, lemma_max_height_one,
    lemma_node_children, max_height, trees, Segment, Tree,
};
use crate::text::{chars_of, copy_chars, occurs_at, slice_of, starts_with_at, texts};

verus! {

/// The name of the node that stands for a whole text.
pub const ROOT_NAME: &'static str = "root";

/// The name of the span that holds a declaration's visibility qualifier.
pub const PARSER_PUB_TYPE_TAG: &'static str = "pub_type";

/// The name of the span that holds the kind of a declaration.
pub const PARSER_TYPE_TAG: &'static str = "export_type";

/// The name of the span that holds a declaration's identifier.
pub const PARSER_IDENTIFIER_TAG: &'static str = "identifier";

/// One kind of span that the parser recognises.
pub enum Descriptor {
    /// A span from `open` to the next `close` that is kept as it is; a
    /// character after `escape` never closes the span.
    Verbatim { name: Vec<char>, open: Vec<char>, close: Vec<char>, escape: Option<char> },
    /// A span from `open` to the `close` that belongs to it, whose inside is
    /// parsed again.
    Nested { name: Vec<char>, open: Vec<char>, close: Vec<char> },
    /// The start of a declaration: it leaves a mark and no span.
    Trigger { name: Vec<char>, pattern: Matcher },
}

/// Why a text could not be parsed, and the offset at which it went wrong.
#[derive(Clone, Copy, Debug, PartialEq, Eq, Structural)]
pub enum ParseError {
    /// A span opens at the offset and never closes.
    Unterminated { at: usize },
    /// A declaration at the offset lacks its visibility or its identifier.
    MissingCapture { at: usize },
    /// A span at the offset is nested deeper than the parser allows.
    TooDeep { at: usize },
}

/// What the parser makes of the spans of one entry of its matcher set.
pub enum Kind {
    /// A leaf that keeps the span; `open` is what such a span starts with.
    Verbatim { open: Vec<char> },
    /// A node between `open` and `close`.
    Nested { open: Vec<char>, close: Vec<char> },
    /// A mark without text.
    Trigger,
}

/// A pattern that matches nowhere.
pub open spec fn never() -> Pattern {
    Pattern::Not(Box::new(Pattern::Literal(Seq::empty())))
}

/// The pattern of a span from `open` to the next `close` that no `escape`
/// stands before.
pub open spec fn verbatim_pattern(
    open: Seq<char>,
    close: Seq<char>,
    escape: Option<char>,
) -> Pattern {
    let plain = Pattern::Not(Box::new(Pattern::Literal(close)));
    let step = match escape {
        Some(e) => Pattern::Or(
            Box::new(
                Pattern::Then(
                    Box::new(Pattern::Literal(seq![e])),
                    Box::new(Pattern::Class(CharClass::Any)),
                ),
            ),
            Box::new(plain),
        ),
        None => plain,
    };
    Pattern::Then(
        Box::new(
            Pattern::Then(
                Box::new(Pattern::Literal(open)),
                Box::new(Pattern::Repeat { inner: Box::new(step), min: 0, max: None }),
            ),
        ),
        Box::new(Pattern::Literal(close)),
    )
}

/// What is passed over unread inside a nested span: the verbatim spans of
/// the descriptors from `from` on, in their order.
pub open spec fn skip_pattern(descriptors: Seq<Descriptor>, from: int) -> Pattern
    decreases descriptors.len() - from,
{
    if from < 0 || from >= descriptors.len() {
        never()
    } else {
        match descriptors[from] {
            Descriptor::Verbatim { open, close, escape, .. } => Pattern::Or(
                Box::new(verbatim_pattern(open@, close@, escape)),
                Box::new(skip_pattern(descriptors, from + 1)),
            ),
            _ => skip_pattern(descriptors, from + 1),
        }
    }
}

impl Descriptor {
    /// The name of the segments that the descriptor produces.
    pub open spec fn name(&self) -> Seq<char> {
        match self {
            Descriptor::Verbatim { name, .. } => name@,
            Descriptor::Nested { name, .. } => name@,
            Descriptor::Trigger { name, .. } => name@,
        }
    }

    /// The pattern of the descriptor's spans, `skip` being what a nested
    /// span passes over unread.
    pub open spec fn pattern(&self, skip: Pattern) -> Pattern {
        match self {
            Descriptor::Verbatim { open, close, escape, .. } => verbatim_pattern(
                open@,
                close@,
                *escape,
            ),
            Descriptor::Nested { open, close, .. } => Pattern::Scope {
                open: open@,
                close: close@,
                skip: Box::new(skip),
            },
            Descriptor::Trigger { pattern, .. } => pattern@,
        }
    }

    /// Whether `kind` is what the parser makes of the descriptor's spans.
    pub open spec fn has_kind(&self, kind: Kind) -> bool {
        match self {
            Descriptor::Verbatim { open, .. } => kind matches Kind::Verbatim { open: o } && o@
                == open@,
            Descriptor::Nested { open, close, .. } => kind matches Kind::Nested {
                open: o,
                close: c,
            } && o@ == open@ && c@ == close@,
            Descriptor::Trigger { .. } => kind is Trigger,
        }
    }
}

/// The raw text from `from` to `to` as a list of segments: none where the
/// stretch is empty.
pub open spec fn raw_piece(text: Seq<char>, from: int, to: int) -> Seq<Tree> {
    if from < to {
        seq![Tree::Raw { text: text.subrange(from, to) }]
    } else {
        Seq::empty()
    }
}

/// `rest` with `head` put before it, where `rest` is no failure.
pub open spec fn prepend(head: Seq<Tree>, rest: Result<Seq<Tree>, ParseError>) -> Result<
    Seq<Tree>,
    ParseError,
> {
    match rest {
        Ok(r) => Ok(head + r),
        Err(e) => Err(e),
    }
}

/// The mark that a declaration's span leaves: its visibility is read from
/// the first span of that name inside it, and its identifiers from all the
/// spans of that name. `None` where the span holds no visibility or no
/// identifier.
pub open spec fn marker_of(span: Capture) -> Option<Tree> {
    let identifiers = named_texts(span.children, PARSER_IDENTIFIER_TAG@);
    match first_capture(span.children, PARSER_PUB_TYPE_TAG@) {
        Some(v) => if identifiers.len() > 0 {
            Some(
                Tree::Marker {
                    name: span.name,
                    tier: PubType::of(span.children[v].text),
                    identifiers,
                },
            )
        } else {
            None
        },
        None => None,
    }
}

/// A parser for texts with nested spans.
pub struct NestedParser {
    /// The matchers of the spans, in order of priority.
    pub set: MatcherSet,
    /// For each entry of `set`, what the parser makes of its spans.
    pub kinds: Vec<Kind>,
    /// How deep spans may be nested.
    pub max_depth: usize,
}

impl NestedParser {
    /// The parser is well formed: every entry has its kind, and the entry of
    /// a nested kind matches balanced spans between the kind's delimiters.
    pub open spec fn wf(&self) -> bool {
        &&& self.kinds@.len() == self.set.entries@.len()
        &&& forall|i: int|
            0 <= i < self.kinds@.len() ==> ((#[trigger] self.kinds@[i]) matches Kind::Nested {
                open,
                close,
            } ==> {
                &&& self.set.entries@[i].matcher@ matches Pattern::Scope { open: o, close: c, .. }
                &&& o == open@
                &&& c == close@
            })
    }

    /// Whether a span of entry `i` opens in `text` at `pos`.
    pub open spec fn opens_at(&self, i: int, text: Seq<char>, pos: int) -> bool {
        match self.kinds@[i] {
            Kind::Verbatim { open } => open@.len() > 0 && occurs_at(text, pos, open@),
            Kind::Nested { open, .. } => open@.len() > 0 && occurs_at(text, pos, open@),
            Kind::Trigger => false,
        }
    }

    /// Whether a span of some entry opens in `text` at `pos`.
    pub open spec fn opener_at(&self, text: Seq<char>, pos: int) -> bool {
        exists|i: int| 0 <= i < self.kinds@.len() && self.opens_at(i, text, pos)
    }

    /// The segments of `text` from `cur` on, the raw text from `gap` to
    /// `cur` not yet being part of a segment. `text` starts at offset `base`
    /// of the text that is parsed, and spans may be nested `depth` deep.
    ///
    /// At every position the entries are tried in their order. Where none
    /// matches, the character there becomes raw text, unless a span opens
    /// there: a span that opens and does not match never closes, which is a
    /// failure. A verbatim span becomes a leaf. A nested span becomes a node
    /// whose inside is parsed in turn, one level less deep. A declaration
    /// leaves a mark in front of the text that it matched, and that text
    /// stays raw. A span without characters is passed over.
    pub open spec fn parse_from(
        &self,
        text: Seq<char>,
        base: int,
        cur: int,
        gap: int,
        depth: nat,
    ) -> Result<Seq<Tree>, ParseError>
        decreases text.len(), text.len() - cur,
    {
        if cur < 0 || cur >= text.len() || gap < 0 || gap > cur {
            Ok(raw_piece(text, gap, text.len() as int))
        } else {
            match self.set.found_at(text, cur) {
                None => if self.opener_at(text, cur) {
                    Err(ParseError::Unterminated { at: (base + cur) as usize })
                } else {
                    self.parse_from(text, base, cur + 1, gap, depth)
                },
                Some((i, span)) => {
                    let n = span.text.len() as int;
                    if n == 0 || cur + n > text.len() || i < 0 || i >= self.kinds@.len() {
                        self.parse_from(text, base, cur + 1, gap, depth)
                    } else {
                        match self.kinds@[i] {
                            Kind::Verbatim { .. } => prepend(
                                raw_piece(text, gap, cur) + seq![
                                    Tree::Leaf { name: span.name, text: span.text },
                                ],
                                self.parse_from(text, base, cur + n, cur + n, depth),
                            ),
                            Kind::Nested { open, close } => if open@.len() == 0 || close@.len()
                                == 0 || n < open@.len() + close@.len() {
                                self.parse_from(text, base, cur + 1, gap, depth)
                            } else if depth == 0 {
                                Err(ParseError::TooDeep { at: (base + cur) as usize })
                            } else {
                                let inner = text.subrange(
                                    cur + open@.len(),
                                    cur + n - close@.len(),
                                );
                                match self.parse_from(
                                    inner,
                                    base + cur + open@.len(),
                                    0,
                                    0,
                                    (depth - 1) as nat,
                                ) {
                                    Err(e) => Err(e),
                                    Ok(children) => prepend(
                                        raw_piece(text, gap, cur) + seq![
                                            Tree::Node {
                                                name: span.name,
                                                open: open@,
                                                children,
                                                close: close@,
                                            },
                                        ],
                                        self.parse_from(text, base, cur + n, cur + n, depth),
                                    ),
                                }
                            },
                            Kind::Trigger => match marker_of(span) {
                                None => Err(
                                    ParseError::MissingCapture { at: (base + cur) as usize },
                                ),
                                Some(mark) => prepend(
                                    raw_piece(text, gap, cur) + seq![mark],
                                    self.parse_from(text, base, cur + n, cur, depth),
                                ),
                            },
                        }
                    }
                },
            }
        }
    }

    /// The tree of `text`: a node without delimiters that holds the text's
    /// segments.
    pub open spec fn parse_spec(&self, text: Seq<char>) -> Result<Tree, ParseError> {
        match self.parse_from(text, 0, 0, 0, self.max_depth as nat) {
            Ok(children) => Ok(
                Tree::Node { name: ROOT_NAME@, open: Seq::empty(), children, close: Seq::empty() },
            ),
            Err(e) => Err(e),
        }
    }

    /// The segments that a text parses into stand for that text, from the
    /// first character that is not yet part of a segment to the end.
    pub proof fn lemma_segments_round_trip(
        &self,
        text: Seq<char>,
        base: int,
        cur: int,
        gap: int,
        depth: nat,
    )
        requires
            self.wf(),
            0 <= gap <= cur <= text.len(),
        ensures
            self.parse_from(text, base, cur, gap, depth) matches Ok(children) ==> concat(children)
                == text.subrange(gap, text.len() as int),
        decreases text.len(), text.len() - cur,
    {
        let len = text.len() as int;
        if cur >= len {
            lemma_raw_piece(text, gap, len);
        } else {
            match self.set.found_at(text, cur) {
                None => {
                    if !self.opener_at(text, cur) {
                        self.lemma_segments_round_trip(text, base, cur + 1, gap, depth);
                    }
                },
                Some((i, span)) => {
                    let n = span.text.len() as int;
                    self.set.lemma_first_hit(text, cur, 0);
                    assert(span.text == text.subrange(cur, cur + n));
                    if n == 0 || cur + n > len || i < 0 || i >= self.kinds@.len() {
                        self.lemma_segments_round_trip(text, base, cur + 1, gap, depth);
                    } else {
                        let head = raw_piece(text, gap, cur);
                        lemma_raw_piece(text, gap, cur);
                        match self.kinds@[i] {
                            Kind::Verbatim { .. } => {
                                let leaf = Tree::Leaf { name: span.name, text: span.text };
                                let rest = self.parse_from(text, base, cur + n, cur + n, depth);
                                self.lemma_segments_round_trip(text, base, cur + n, cur + n, depth);
                                if let Ok(r) = rest {
                                    lemma_concat_one(leaf);
                                    lemma_concat_add(head, seq![leaf]);
                                    lemma_concat_add(head + seq![leaf], r);
                                    assert(text.subrange(gap, cur) + text.subrange(cur, cur + n)
                                        + text.subrange(cur + n, len) =~= text.subrange(gap, len));
                                }
                            },
                            Kind::Nested { open, close } => {
                                if open@.len() == 0 || close@.len() == 0 || n < open@.len()
                                    + close@.len() {
                                    self.lemma_segments_round_trip(text, base, cur + 1, gap, depth);
                                } else if depth == 0 {
                                } else {
                                    let a = cur + open@.len();
                                    let b = cur + n - close@.len();
                                    let inner = text.subrange(a, b);
                                    let sub = self.parse_from(
                                        inner,
                                        base + a,
                                        0,
                                        0,
                                        (depth - 1) as nat,
                                    );
                                    self.lemma_segments_round_trip(
                                        inner,
                                        base + a,
                                        0,
                                        0,
                                        (depth - 1) as nat,
                                    );
                                    if let Ok(children) = sub {
                                        let node = Tree::Node {
                                            name: span.name,
                                            open: open@,
                                            children,
                                            close: close@,
                                        };
                                        let rest = self.parse_from(
                                            text,
                                            base,
                                            cur + n,
                                            cur + n,
                                            depth,
                                        );
                                        self.lemma_segments_round_trip(
                                            text,
                                            base,
                                            cur + n,
                                            cur + n,
                                            depth,
                                        );
                                        if let Ok(r) = rest {
                                            self.lemma_scope_span(i, text, cur);
                                            assert(inner.subrange(0, inner.len() as int) =~= inner);
                                            assert(node.text() =~= text.subrange(cur, cur + n)) by {
                                                assert(text.subrange(cur, a) =~= open@);
                                                assert(text.subrange(b, cur + n) =~= close@);
                                                assert(text.subrange(cur, a) + text.subrange(a, b)
                                                    + text.subrange(b, cur + n) =~= text.subrange(
                                                    cur,
                                                    cur + n,
                                                ));
                                            }
                                            lemma_concat_one(node);
                                            lemma_concat_add(head, seq![node]);
                                            lemma_concat_add(head + seq![node], r);
                                            assert(text.subrange(gap, cur) + text.subrange(
                                                cur,
                                                cur + n,
                                            ) + text.subrange(cur + n, len) =~= text.subrange(
                                                gap,
                                                len,
                                            ));
                                        }
                                    }
                                }
                            },
                            Kind::Trigger => {
                                if let Some(mark) = marker_of(span) {
                                    let rest = self.parse_from(text, base, cur + n, cur, depth);
                                    self.lemma_segments_round_trip(text, base, cur + n, cur, depth);
                                    if let Ok(r) = rest {
                                        lemma_concat_one(mark);
                                        lemma_concat_add(head, seq![mark]);
                                        lemma_concat_add(head + seq![mark], r);
                                        assert(text.subrange(gap, cur) + Seq::<char>::empty()
                                            + text.subrange(cur, len) =~= text.subrange(gap, len));
                                    }
                                }
                            },
                        }
                    }
                },
            }
        }
    }

    /// The span of a nested entry starts with the opening delimiter and ends
    /// with the closing one, and the two do not overlap.
    pub proof fn lemma_scope_span(&self, i: int, text: Seq<char>, pos: int)
        requires
            self.wf(),
            0 <= pos <= text.len(),
            0 <= i < self.kinds@.len(),
            self.kinds@[i] is Nested,
            self.set.entries@[i].matcher@.hit(text, pos).is_some(),
        ensures
            ({
                let n = self.set.entries@[i].matcher@.hit(text, pos).unwrap().0;
                let open = self.kinds@[i]->Nested_open@;
                let close = self.kinds@[i]->Nested_close@;
                &&& open.len() + close.len() <= n
                &&& pos + n <= text.len()
                &&& occurs_at(text, pos, open)
                &&& occurs_at(text, pos + n - close.len(), close)
            }),
    {
        let m = self.set.entries@[i].matcher@;
        lemma_hit_bounds(m, text, pos);
        match m {
            Pattern::Scope { open, close, skip } => {
                lemma_scope_bounds(*skip, open, close, text, pos + open.len(), 1);
            },
            _ => {},
        }
    }

    /// Parsing a text and writing the tree out again gives the text back.
    pub proof fn lemma_round_trip(&self, text: Seq<char>)
        requires
            self.wf(),
        ensures
            self.parse_spec(text) matches Ok(tree) ==> tree.text() == text,
    {
        self.lemma_segments_round_trip(text, 0, 0, 0, self.max_depth as nat);
        if let Ok(tree) = self.parse_spec(text) {
            assert(text.subrange(0, text.len() as int) =~= text);
            assert(tree.text() =~= text);
        }
    }
}

/// The raw text between two offsets stands for that stretch of the text.
pub proof fn lemma_raw_piece(text: Seq<char>, from: int, to: int)
    requires
        0 <= from <= to <= text.len(),
    ensures
        concat(raw_piece(text, from, to)) == text.subrange(from, to),
{
    if from < to {
        lemma_concat_one(Tree::Raw { text: text.subrange(from, to) });
    } else {
        assert(concat(raw_piece(text, from, to)) =~= text.subrange(from, to));
    }
}



/// A matcher that matches nowhere.
pub fn never_matcher() -> (r: Matcher)
    ensures
        r@ == never(),
{
    proof {
        reveal_with_fuel(Matcher::pattern, 3);
    }
    Matcher::Not(Box::new(Matcher::Literal(Vec::new())))
}

/// The matcher of a span from `open` to the next `close` that no `escape`
/// stands before.
pub fn verbatim_matcher(open: &Vec<char>, close: &Vec<char>, escape: Option<char>) -> (r: Matcher)
    ensures
        r@ == verbatim_pattern(open@, close@, escape),
{
    proof {
        reveal_with_fuel(Matcher::pattern, 6);
    }
    let plain = Matcher::Not(Box::new(Matcher::Literal(copy_chars(close.as_slice()))));
    let step = match escape {
        Some(e) => {
            let mut mark: Vec<char> = Vec::new();
            mark.push(e);
            assert(mark@ =~= seq![e]);
            Matcher::Or(
                Box::new(
                    Matcher::Then(
                        Box::new(Matcher::Literal(mark)),
                        Box::new(Matcher::Class(CharClass::Any)),
                    ),
                ),
                Box::new(plain),
            )
        },
        None => plain,
    };
    Matcher::Then(
        Box::new(
            Matcher::Then(
                Box::new(Matcher::Literal(copy_chars(open.as_slice()))),
                Box::new(Matcher::Repeat { inner: Box::new(step), min: 0, max: None }),
            ),
        ),
        Box::new(Matcher::Literal(copy_chars(close.as_slice()))),
    )
}

/// The matcher of what is passed over unread inside a nested span: the
/// verbatim spans of the descriptors from `from` on.
pub fn skip_matcher(descriptors: &Vec<Descriptor>, from: usize) -> (r: Matcher)
    ensures
        r@ == skip_pattern(descriptors@, from as int),
    decreases descriptors@.len() - from,
{
    if from >= descriptors.len() {
        never_matcher()
    } else {
        let rest = skip_matcher(descriptors, from + 1);
        match &descriptors[from] {
            Descriptor::Verbatim { open, close, escape, .. } => Matcher::Or(
                Box::new(verbatim_matcher(open, close, *escape)),
                Box::new(rest),
            ),
            _ => rest,
        }
    }
}

impl NestedParser {
    /// A parser for the given descriptors, in their order of priority, that
    /// lets spans be nested `max_depth` deep.
    pub fn new(descriptors: &Vec<Descriptor>, max_depth: usize) -> (r: NestedParser)
        ensures
            r.wf(),
            r.max_depth == max_depth,
            r.set.entries@.len() == descriptors@.len(),
            forall|i: int|
                #![trigger descriptors@[i]]
                0 <= i < descriptors@.len() ==> {
                    &&& r.set.entries@[i].name@ == descriptors@[i].name()
                    &&& r.set.entries@[i].matcher@ == descriptors@[i].pattern(
                        skip_pattern(descriptors@, 0),
                    )
                    &&& descriptors@[i].has_kind(r.kinds@[i])
                },
    {
        let mut entries: Vec<Entry> = Vec::new();
        let mut kinds: Vec<Kind> = Vec::new();
        let mut i: usize = 0;
        while i < descriptors.len()
            invariant
                i <= descriptors@.len(),
                entries@.len() == i,
                kinds@.len() == i,
                forall|j: int|
                    #![trigger descriptors@[j]]
                    0 <= j < i ==> {
                        &&& entries@[j].name@ == descriptors@[j].name()
                        &&& entries@[j].matcher@ == descriptors@[j].pattern(
                            skip_pattern(descriptors@, 0),
                        )
                        &&& descriptors@[j].has_kind(kinds@[j])
                    },
                forall|j: int|
                    0 <= j < i ==> ((#[trigger] kinds@[j]) matches Kind::Nested {
                        open,
                        close,
                    } ==> {
                        &&& entries@[j].matcher@ matches Pattern::Scope { open: o, close: c, .. }
                        &&& o == open@
                        &&& c == close@
                    }),
            decreases descriptors@.len() - i,
        {
            match &descriptors[i] {
                Descriptor::Verbatim { name, open, close, escape } => {
                    entries.push(
                        Entry {
                            name: copy_chars(name.as_slice()),
                            matcher: verbatim_matcher(open, close, *escape),
                        },
                    );
                    kinds.push(Kind::Verbatim { open: copy_chars(open.as_slice()) });
                },
                Descriptor::Nested { name, open, close } => {
                    entries.push(
                        Entry {
                            name: copy_chars(name.as_slice()),
                            matcher: Matcher::Scope {
                                open: copy_chars(open.as_slice()),
                                close: copy_chars(close.as_slice()),
                                skip: Box::new(skip_matcher(descriptors, 0)),
                            },
                        },
                    );
                    kinds.push(
                        Kind::Nested {
                            open: copy_chars(open.as_slice()),
                            close: copy_chars(close.as_slice()),
                        },
                    );
                },
                Descriptor::Trigger { name, pattern } => {
                    entries.push(
                        Entry { name: copy_chars(name.as_slice()), matcher: pattern.copy() },
                    );
                    kinds.push(Kind::Trigger);
                },
            }
            i += 1;
        }
        NestedParser { set: MatcherSet { entries }, kinds, max_depth }
    }

    /// Whether a span of some entry opens in `text` at `pos`.
    pub fn has_opener_at(&self, text: &[char], pos: usize) -> (r: bool)
        ensures
            r == self.opener_at(text@, pos as int),
    {
        let mut i: usize = 0;
        while i < self.kinds.len()
            invariant
                i <= self.kinds@.len(),
                forall|j: int| 0 <= j < i ==> !self.opens_at(j, text@, pos as int),
            decreases self.kinds@.len() - i,
        {
            let opens = match &self.kinds[i] {
                Kind::Verbatim { open } => open.len() > 0 && starts_with_at(
                    text,
                    pos,
                    open.as_slice(),
                ),
                Kind::Nested { open, .. } => open.len() > 0 && starts_with_at(
                    text,
                    pos,
                    open.as_slice(),
                ),
                Kind::Trigger => false,
            };
            if opens {
                assert(self.opens_at(i as int, text@, pos as int));
                return true;
            }
            i += 1;
        }
        false
    }

    /// The mark that a declaration's span leaves, or `None` where the span
    /// lacks the visibility or the identifier.
    pub fn marker_from(node: &MatchResult) -> (r: Option<Segment>)
        ensures
            match r {
                Some(mark) => marker_of(node@) == Some(mark@),
                None => marker_of(node@).is_none(),
            },
    {
        let visibility = chars_of(PARSER_PUB_TYPE_TAG);
        let identifier = chars_of(PARSER_IDENTIFIER_TAG);
        proof {
            lemma_view_children(*node);
        }
        let identifiers = node.texts_named(identifier.as_slice());
        match node.first_child_named(visibility.as_slice()) {
            Some(v) => {
                if identifiers.len() > 0 {
                    Some(
                        Segment::Marker {
                            name: copy_chars(node.name.as_slice()),
                            tier: PubType::from_chars(node.children[v].contents.as_slice()),
                            identifiers,
                        },
                    )
                } else {
                    None
                }
            },
            None => None,
        }
    }
}

/// Putting something before what already has something before it.
pub proof fn lemma_prepend_twice(a: Seq<Tree>, b: Seq<Tree>, rest: Result<Seq<Tree>, ParseError>)
    ensures
        prepend(a, prepend(b, rest)) == prepend(a + b, rest),
{
    if let Ok(r) = rest {
        assert(a + (b + r) =~= (a + b) + r);
    }
}

/// Appends the raw text from `from` to `to` to `out`, where there is any.
fn push_raw(out: &mut Vec<Segment>, text: &[char], from: usize, to: usize)
    requires
        from <= to <= text.len(),
    ensures
        trees(final(out)@) == trees(old(out)@) + raw_piece(text@, from as int, to as int),
{
    if from < to {
        let piece = Segment::Raw { text: slice_of(text, from, to) };
        out.push(piece);
        assert(trees(out@) =~= trees(old(out)@) + seq![piece@]);
    } else {
        assert(trees(out@) =~= trees(old(out)@) + Seq::<Tree>::empty());
    }
}

impl NestedParser {
    /// Parses `text`, which starts at offset `base` of the whole text, into
    /// its segments; spans may be nested `depth` deep.
    pub fn parse_segments(&self, text: &[char], base: usize, depth: usize) -> (r: Result<
        Vec<Segment>,
        ParseError,
    >)
        requires
            base + text.len() <= usize::MAX,
        ensures
            match r {
                Ok(segments) => self.parse_from(text@, base as int, 0, 0, depth as nat) == Ok::<
                    Seq<Tree>,
                    ParseError,
                >(trees(segments@)),
                Err(e) => self.parse_from(text@, base as int, 0, 0, depth as nat) == Err::<
                    Seq<Tree>,
                    ParseError,
                >(e),
            },
        decreases text.len(),
    {
        let mut out: Vec<Segment> = Vec::new();
        let mut cur: usize = 0;
        let mut gap: usize = 0;
        let ghost whole = self.parse_from(text@, base as int, 0, 0, depth as nat);
        assert(trees(out@) =~= Seq::<Tree>::empty());
        assert(prepend(trees(out@), whole) == whole) by {
            if let Ok(r) = whole {
                assert(trees(out@) + r =~= r);
            }
        }
        while cur < text.len()
            invariant
                gap <= cur <= text.len(),
                base + text.len() <= usize::MAX,
                whole == self.parse_from(text@, base as int, 0, 0, depth as nat),
                whole == prepend(
                    trees(out@),
                    self.parse_from(text@, base as int, cur as int, gap as int, depth as nat),
                ),
            decreases text.len() - cur,
        {
            match self.set.match_at(text, cur) {
                None => {
                    if self.has_opener_at(text, cur) {
                        return Err(ParseError::Unterminated { at: base + cur });
                    }
                    cur = cur + 1;
                },
                Some((i, node)) => {
                    let n = node.contents.len();
                    if n == 0 || i >= self.kinds.len() {
                        cur = cur + 1;
                    } else {
                        let ghost before = trees(out@);
                        let ghost head = raw_piece(text@, gap as int, cur as int);
                        match &self.kinds[i] {
                            Kind::Verbatim { .. } => {
                                push_raw(&mut out, text, gap, cur);
                                let MatchResult { name, contents, children } = node;
                                let leaf = Segment::Leaf { name, text: contents };
                                let ghost mid = trees(out@);
                                out.push(leaf);
                                proof {
                                    let rest = self.parse_from(
                                        text@,
                                        base as int,
                                        cur + n,
                                        cur + n,
                                        depth as nat,
                                    );
                                    assert(trees(out@) =~= mid + seq![leaf@]);
                                    assert(trees(out@) =~= before + (head + seq![leaf@]));
                                    lemma_prepend_twice(before, head + seq![leaf@], rest);
                                }
                                cur = cur + n;
                                gap = cur;
                            },
                            Kind::Nested { open, close } => {
                                if open.len() == 0 || close.len() == 0 || n < open.len() || n
                                    - open.len() < close.len() {
                                    cur = cur + 1;
                                } else if depth == 0 {
                                    return Err(ParseError::TooDeep { at: base + cur });
                                } else {
                                    let a = cur + open.len();
                                    let b = cur + n - close.len();
                                    let inner = slice_of(text, a, b);
                                    let parsed = self.parse_segments(
                                        inner.as_slice(),
                                        base + a,
                                        depth - 1,
                                    );
                                    match parsed {
                                        Err(e) => {
                                            return Err(e);
                                        },
                                        Ok(children) => {
                                            push_raw(&mut out, text, gap, cur);
                                            let MatchResult { name, .. } = node;
                                            let branch = Segment::Node {
                                                name,
                                                open: copy_chars(open.as_slice()),
                                                children,
                                                close: copy_chars(close.as_slice()),
                                            };
                                            let ghost mid = trees(out@);
                                            out.push(branch);
                                            proof {
                                                assert(trees(out@) =~= mid + seq![branch@]);
                                                lemma_node_children(branch);
                                                let rest = self.parse_from(
                                                    text@,
                                                    base as int,
                                                    cur + n,
                                                    cur + n,
                                                    depth as nat,
                                                );
                                                assert(trees(out@) =~= before + (head + seq![
                                                    branch@,
                                                ]));
                                                lemma_prepend_twice(
                                                    before,
                                                    head + seq![branch@],
                                                    rest,
                                                );
                                            }
                                            cur = cur + n;
                                            gap = cur;
                                        },
                                    }
                                }
                            },
                            Kind::Trigger => {
                                match Self::marker_from(&node) {
                                    None => {
                                        return Err(ParseError::MissingCapture { at: base + cur });
                                    },
                                    Some(mark) => {
                                        push_raw(&mut out, text, gap, cur);
                                        let ghost mid = trees(out@);
                                        out.push(mark);
                                        proof {
                                            assert(trees(out@) =~= mid + seq![mark@]);
                                            let rest = self.parse_from(
                                                text@,
                                                base as int,
                                                cur + n,
                                                cur as int,
                                                depth as nat,
                                            );
                                            assert(trees(out@) =~= before + (head + seq![mark@]));
                                            lemma_prepend_twice(before, head + seq![mark@], rest);
                                        }
                                        gap = cur;
                                        cur = cur + n;
                                    },
                                }
                            },
                        }
                    }
                },
            }
        }
        push_raw(&mut out, text, gap, text.len());
        Ok(out)
    }

    /// Parses `text` into its tree. The root is a node without delimiters.
    /// Fails where a span opens and never closes, where a declaration lacks
    /// its visibility or identifier, and where spans are nested too deep.
    pub fn parse(&self, text: &[char]) -> (r: Result<Segment, ParseError>)
        ensures
            match r {
                Ok(tree) => self.parse_spec(text@) == Ok::<Tree, ParseError>(tree@),
                Err(e) => self.parse_spec(text@) == Err::<Tree, ParseError>(e),
            },
            self.wf() ==> (r matches Ok(tree) ==> tree@.text() == text@),
            r matches Ok(tree) ==> tree@.height() <= self.max_depth + 1,
    {
        proof {
            if self.wf() {
                self.lemma_round_trip(text@);
            }
            self.lemma_height(text@);
        }
        match self.parse_segments(text, 0, self.max_depth) {
            Ok(children) => {
                let root = Segment::Node {
                    name: chars_of(ROOT_NAME),
                    open: Vec::new(),
                    children,
                    close: Vec::new(),
                };
                proof {
                    lemma_node_children(root);
                }
                Ok(root)
            },
            Err(e) => Err(e),
        }
    }

    /// Parses a string into its tree.
    pub fn parse_str(&self, text: &str) -> (r: Result<Segment, ParseError>)
        ensures
            match r {
                Ok(tree) => self.parse_spec(text@) == Ok::<Tree, ParseError>(tree@),
                Err(e) => self.parse_spec(text@) == Err::<Tree, ParseError>(e),
            },
            self.wf() ==> (r matches Ok(tree) ==> tree@.text() == text@),
            r matches Ok(tree) ==> tree@.height() <= self.max_depth + 1,
    {
        let chars = chars_of(text);
        self.parse(chars.as_slice())
    }
}



impl NestedParser {
    /// The segments that a text parses into are nested no deeper than the
    /// parser was allowed to go.
    pub proof fn lemma_segments_height(
        &self,
        text: Seq<char>,
        base: int,
        cur: int,
        gap: int,
        depth: nat,
    )
        ensures
            self.parse_from(text, base, cur, gap, depth) matches Ok(children) ==> max_height(
                children,
            ) <= depth,
        decreases text.len(), text.len() - cur,
    {
        let len = text.len() as int;
        if cur < 0 || cur >= len || gap < 0 || gap > cur {
            if gap < len {
                lemma_max_height_one(Tree::Raw { text: text.subrange(gap, len) });
            }
        } else {
            let head = raw_piece(text, gap, cur);
            if gap < cur {
                lemma_max_height_one(Tree::Raw { text: text.subrange(gap, cur) });
            }
            match self.set.found_at(text, cur) {
                None => {
                    if !self.opener_at(text, cur) {
                        self.lemma_segments_height(text, base, cur + 1, gap, depth);
                    }
                },
                Some((i, span)) => {
                    let n = span.text.len() as int;
                    if n == 0 || cur + n > len || i < 0 || i >= self.kinds@.len() {
                        self.lemma_segments_height(text, base, cur + 1, gap, depth);
                    } else {
                        match self.kinds@[i] {
                            Kind::Verbatim { .. } => {
                                let leaf = Tree::Leaf { name: span.name, text: span.text };
                                self.lemma_segments_height(text, base, cur + n, cur + n, depth);
                                let rest = self.parse_from(text, base, cur + n, cur + n, depth);
                                if let Ok(r) = rest {
                                    lemma_max_height_one(leaf);
                                    lemma_max_height_add(head, seq![leaf]);
                                    lemma_max_height_add(head + seq![leaf], r);
                                }
                            },
                            Kind::Nested { open, close } => {
                                if open@.len() == 0 || close@.len() == 0 || n < open@.len()
                                    + close@.len() {
                                    self.lemma_segments_height(text, base, cur + 1, gap, depth);
                                } else if depth == 0 {
                                } else {
                                    let a = cur + open@.len();
                                    let b = cur + n - close@.len();
                                    let inner = text.subrange(a, b);
                                    self.lemma_segments_height(
                                        inner,
                                        base + a,
                                        0,
                                        0,
                                        (depth - 1) as nat,
                                    );
                                    if let Ok(children) = self.parse_from(
                                        inner,
                                        base + a,
                                        0,
                                        0,
                                        (depth - 1) as nat,
                                    ) {
                                        let node = Tree::Node {
                                            name: span.name,
                                            open: open@,
                                            children,
                                            close: close@,
                                        };
                                        self.lemma_segments_height(
                                            text,
                                            base,
                                            cur + n,
                                            cur + n,
                                            depth,
                                        );
                                        if let Ok(r) = self.parse_from(
                                            text,
                                            base,
                                            cur + n,
                                            cur + n,
                                            depth,
                                        ) {
                                            lemma_max_height_one(node);
                                            lemma_max_height_add(head, seq![node]);
                                            lemma_max_height_add(head + seq![node], r);
                                        }
                                    }
                                }
                            },
                            Kind::Trigger => {
                                if let Some(mark) = marker_of(span) {
                                    self.lemma_segments_height(text, base, cur + n, cur, depth);
                                    let rest = self.parse_from(text, base, cur + n, cur, depth);
                                    if let Ok(r) = rest {
                                        lemma_max_height_one(mark);
                                        lemma_max_height_add(head, seq![mark]);
                                        lemma_max_height_add(head + seq![mark], r);
                                    }
                                }
                            },
                        }
                    }
                },
            }
        }
    }

    /// The tree of a text is no higher than the parser's limit allows.
    pub proof fn lemma_height(&self, text: Seq<char>)
        ensures
            self.parse_spec(text) matches Ok(tree) ==> tree.height() <= self.max_depth + 1,
    {
        self.lemma_segments_height(text, 0, 0, 0, self.max_depth as nat);
    }
}

} // verus!
