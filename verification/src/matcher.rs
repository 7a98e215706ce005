//! Lexical patterns as values: literals, character classes and the ways of
//! combining them, with the rule that says what each one matches.

use vstd::prelude::*;
use crate::text::{
    chars_of, copy_chars, is_space, is_whitespace, occurs_at, same_chars, slice_of, starts_with_at,
    texts,
};

verus! {

/// A set of characters that is tested one character at a time.
#[derive(Clone, Copy, Debug)]
pub enum CharClass {
    /// Every character.
    Any,
    /// White space.
    Whitespace,
    /// The characters from the first to the second, both included.
    Range(char, char),
}

impl CharClass {
    /// Whether `c` belongs to the class.
    pub open spec fn holds(&self, c: char) -> bool {
        match self {
            CharClass::Any => true,
            CharClass::Whitespace => is_space(c),
            CharClass::Range(lo, hi) => *lo <= c <= *hi,
        }
    }

    /// Whether `c` belongs to the class.
    pub fn test(&self, c: char) -> (r: bool)
        ensures
            r == self.holds(c),
    {
        match self {
            CharClass::Any => true,
            CharClass::Whitespace => is_whitespace(c),
            CharClass::Range(lo, hi) => *lo <= c && c <= *hi,
        }
    }
}

/// A named span of matched text, with the named spans inside it.
pub ghost struct Capture {
    pub name: Seq<char>,
    pub text: Seq<char>,
    pub children: Seq<Capture>,
}

/// What a successful match produced: the text of a named span and the named
/// spans found inside it, in the order in which they were met.
pub struct MatchResult {
    pub name: Vec<char>,
    pub contents: Vec<char>,
    pub children: Vec<MatchResult>,
}

impl MatchResult {
    /// The result as a named span.
    pub open spec fn capture(&self) -> Capture
        decreases self,
    {
        Capture {
            name: self.name@,
            text: self.contents@,
            children: Seq::new(
                self.children@.len(),
                |i: int|
                    if 0 <= i < self.children@.len() {
                        self.children@[i].capture()
                    } else {
                        arbitrary()
                    },
            ),
        }
    }
}

impl View for MatchResult {
    type V = Capture;

    open spec fn view(&self) -> Capture {
        self.capture()
    }
}

/// The views of a list of match results.
pub open spec fn views(s: Seq<MatchResult>) -> Seq<Capture> {
    Seq::new(s.len(), |i: int| s[i]@)
}

/// A rule that says whether a text matches at a position, and how far.
pub enum Matcher {
    /// The given characters, one after the other.
    Literal(Vec<char>),
    /// One character of the class.
    Class(CharClass),
    /// The first, and directly after it the second.
    Then(Box<Matcher>, Box<Matcher>),
    /// The first if it matches, else the second.
    Or(Box<Matcher>, Box<Matcher>),
    /// One character, where the inner matcher does not match.
    Not(Box<Matcher>),
    /// The inner matcher if it matches, else nothing.
    Optional(Box<Matcher>),
    /// The inner matcher as often as it matches, up to `max` times; no match
    /// where that is fewer than `min` times.
    Repeat { inner: Box<Matcher>, min: usize, max: Option<usize> },
    /// The inner matcher, with what it consumed kept as a named span.
    Named(Vec<char>, Box<Matcher>),
    /// A balanced span from `open` to the `close` that belongs to it; what
    /// `skip` matches inside is passed over unread.
    Scope { open: Vec<char>, close: Vec<char>, skip: Box<Matcher> },
}

/// The mathematical model of a matcher.
pub ghost enum Pattern {
    Literal(Seq<char>),
    Class(CharClass),
    Then(Box<Pattern>, Box<Pattern>),
    Or(Box<Pattern>, Box<Pattern>),
    Not(Box<Pattern>),
    Optional(Box<Pattern>),
    Repeat { inner: Box<Pattern>, min: nat, max: Option<nat> },
    Named(Seq<char>, Box<Pattern>),
    Scope { open: Seq<char>, close: Seq<char>, skip: Box<Pattern> },
}

/// A match: the number of characters consumed and the named spans met.
pub type Hit = (int, Seq<Capture>);

impl Pattern {
    /// What the pattern matches in `text` at `pos`, if anything; nothing at
    /// a position that lies outside the text.
    pub open spec fn hit(self, text: Seq<char>, pos: int) -> Option<Hit>
        decreases self, text.len() - pos, 0int,
    {
        if pos < 0 || pos > text.len() {
            None
        } else {
            match self {
                Pattern::Literal(pat) => if occurs_at(text, pos, pat) {
                    Some((pat.len() as int, Seq::empty()))
                } else {
                    None
                },
                Pattern::Class(class) => if 0 <= pos < text.len() && class.holds(text[pos]) {
                    Some((1, Seq::empty()))
                } else {
                    None
                },
                Pattern::Then(first, second) => match first.hit(text, pos) {
                    Some((n1, c1)) => match second.hit(text, pos + n1) {
                        Some((n2, c2)) => Some((n1 + n2, c1 + c2)),
                        None => None,
                    },
                    None => None,
                },
                Pattern::Or(first, second) => match first.hit(text, pos) {
                    Some(h) => Some(h),
                    None => second.hit(text, pos),
                },
                Pattern::Not(inner) => if 0 <= pos < text.len() && inner.hit(text, pos).is_none() {
                    Some((1, Seq::empty()))
                } else {
                    None
                },
                Pattern::Optional(inner) => match inner.hit(text, pos) {
                    Some(h) => Some(h),
                    None => Some((0, Seq::empty())),
                },
                Pattern::Repeat { inner, min, max } => {
                    let (n, caps, times) = inner.repeat_from(max, text, pos, 0);
                    if times >= min {
                        Some((n, caps))
                    } else {
                        None
                    }
                },
                Pattern::Named(name, inner) => match inner.hit(text, pos) {
                    Some((n, caps)) => Some(
                        (
                            n,
                            seq![
                                Capture {
                                    name,
                                    text: text.subrange(pos, pos + n),
                                    children: caps,
                                },
                            ],
                        ),
                    ),
                    None => None,
                },
                Pattern::Scope { open, close, skip } => if open.len() > 0 && close.len() > 0
                    && occurs_at(text, pos, open) {
                    match skip.scope_end(open, close, text, pos + open.len(), 1) {
                        Some(end) => Some((end - pos, Seq::empty())),
                        None => None,
                    }
                } else {
                    None
                },
            }
        }
    }

    /// Greedy repetition of `self` from `pos`, after `done` rounds: the
    /// characters consumed, the named spans met and the rounds made in all.
    /// A round that consumes nothing ends the repetition.
    pub open spec fn repeat_from(
        self,
        max: Option<nat>,
        text: Seq<char>,
        pos: int,
        done: nat,
    ) -> (int, Seq<Capture>, nat)
        decreases self, text.len() - pos, 1int,
    {
        if max.is_some() && done >= max.unwrap() {
            (0, Seq::empty(), done)
        } else {
            match self.hit(text, pos) {
                Some((n, caps)) => if 0 < n && pos + n <= text.len() {
                    let (n2, caps2, times) = self.repeat_from(max, text, pos + n, done + 1);
                    (n + n2, caps + caps2, times)
                } else {
                    (0, Seq::empty(), done)
                },
                None => (0, Seq::empty(), done),
            }
        }
    }

    /// Where the scope that is `depth` levels deep at `cur` ends, `self`
    /// being what is passed over unread; `None` where the text ends first.
    pub open spec fn scope_end(
        self,
        open: Seq<char>,
        close: Seq<char>,
        text: Seq<char>,
        cur: int,
        depth: nat,
    ) -> Option<int>
        decreases self, text.len() - cur, 1int,
    {
        if depth == 0 {
            Some(cur)
        } else if cur < 0 || cur >= text.len() || open.len() == 0 || close.len() == 0 {
            None
        } else {
            let skipped = match self.hit(text, cur) {
                Some((n, _)) => if 0 < n && cur + n <= text.len() {
                    n
                } else {
                    0
                },
                None => 0,
            };
            if skipped > 0 {
                self.scope_end(open, close, text, cur + skipped, depth)
            } else if occurs_at(text, cur, close) {
                self.scope_end(open, close, text, cur + close.len(), (depth - 1) as nat)
            } else if occurs_at(text, cur, open) {
                self.scope_end(open, close, text, cur + open.len(), depth + 1)
            } else {
                self.scope_end(open, close, text, cur + 1, depth)
            }
        }
    }
}

/// A bound on a number of rounds, as the model takes it.
pub open spec fn bound(max: Option<usize>) -> Option<nat> {
    match max {
        Some(m) => Some(m as nat),
        None => None,
    }
}

impl Matcher {
    /// The matcher as a mathematical pattern.
    pub open spec fn pattern(&self) -> Pattern
        decreases self,
    {
        match self {
            Matcher::Literal(pat) => Pattern::Literal(pat@),
            Matcher::Class(class) => Pattern::Class(*class),
            Matcher::Then(first, second) => Pattern::Then(
                Box::new(first.pattern()),
                Box::new(second.pattern()),
            ),
            Matcher::Or(first, second) => Pattern::Or(
                Box::new(first.pattern()),
                Box::new(second.pattern()),
            ),
            Matcher::Not(inner) => Pattern::Not(Box::new(inner.pattern())),
            Matcher::Optional(inner) => Pattern::Optional(Box::new(inner.pattern())),
            Matcher::Repeat { inner, min, max } => Pattern::Repeat {
                inner: Box::new(inner.pattern()),
                min: *min as nat,
                max: bound(*max),
            },
            Matcher::Named(name, inner) => Pattern::Named(name@, Box::new(inner.pattern())),
            Matcher::Scope { open, close, skip } => Pattern::Scope {
                open: open@,
                close: close@,
                skip: Box::new(skip.pattern()),
            },
        }
    }
}

impl View for Matcher {
    type V = Pattern;

    open spec fn view(&self) -> Pattern {
        self.pattern()
    }
}

/// The children of a result's view are the views of its children.
pub proof fn lemma_view_children(r: MatchResult)
    ensures
        r@.children == views(r.children@),
{
    assert(r@.children.len() == r.children@.len());
    assert forall|i: int| 0 <= i < r.children@.len() implies r@.children[i] == views(
        r.children@,
    )[i] by {}
    assert(r@.children =~= views(r.children@));
}

/// A match stays inside the text.
pub proof fn lemma_hit_bounds(m: Pattern, text: Seq<char>, pos: int)
    ensures
        m.hit(text, pos) matches Some((n, _)) ==> 0 <= n && pos + n <= text.len(),
    decreases m, text.len() - pos, 0int,
{
    match m {
        Pattern::Then(first, second) => {
            lemma_hit_bounds(*first, text, pos);
            if let Some((n1, _)) = first.hit(text, pos) {
                lemma_hit_bounds(*second, text, pos + n1);
            }
        },
        Pattern::Or(first, second) => {
            lemma_hit_bounds(*first, text, pos);
            lemma_hit_bounds(*second, text, pos);
        },
        Pattern::Optional(inner) => {
            lemma_hit_bounds(*inner, text, pos);
        },
        Pattern::Repeat { inner, min, max } => {
            if 0 <= pos <= text.len() {
                lemma_repeat_bounds(*inner, max, text, pos, 0);
            }
        },
        Pattern::Named(_, inner) => {
            lemma_hit_bounds(*inner, text, pos);
        },
        Pattern::Scope { open, close, skip } => {
            if open.len() > 0 && close.len() > 0 && occurs_at(text, pos, open) {
                lemma_scope_bounds(*skip, open, close, text, pos + open.len(), 1);
            }
        },
        _ => {},
    }
}

/// A repetition stays inside the text and never loses a round.
pub proof fn lemma_repeat_bounds(
    m: Pattern,
    max: Option<nat>,
    text: Seq<char>,
    pos: int,
    done: nat,
)
    requires
        0 <= pos <= text.len(),
    ensures
        ({
            let (n, _, times) = m.repeat_from(max, text, pos, done);
            0 <= n && pos + n <= text.len() && done <= times <= done + n
        }),
    decreases m, text.len() - pos, 1int,
{
    if max.is_some() && done >= max.unwrap() {
    } else {
        lemma_hit_bounds(m, text, pos);
        if let Some((n, _)) = m.hit(text, pos) {
            if 0 < n && pos + n <= text.len() {
                lemma_repeat_bounds(m, max, text, pos + n, done + 1);
            }
        }
    }
}

/// A scope ends inside the text, and directly after its closing delimiter.
pub proof fn lemma_scope_bounds(
    m: Pattern,
    open: Seq<char>,
    close: Seq<char>,
    text: Seq<char>,
    cur: int,
    depth: nat,
)
    requires
        0 <= cur <= text.len(),
    ensures
        m.scope_end(open, close, text, cur, depth) matches Some(end) ==> {
            &&& cur <= end <= text.len()
            &&& depth > 0 ==> cur + close.len() <= end && occurs_at(text, end - close.len(), close)
        },
    decreases m, text.len() - cur, 1int,
{
    if depth == 0 {
    } else if cur >= text.len() || open.len() == 0 || close.len() == 0 {
    } else {
        let skipped = match m.hit(text, cur) {
            Some((n, _)) => if 0 < n && cur + n <= text.len() {
                n
            } else {
                0
            },
            None => 0,
        };
        if skipped > 0 {
            lemma_scope_bounds(m, open, close, text, cur + skipped, depth);
        } else if occurs_at(text, cur, close) {
            lemma_scope_bounds(m, open, close, text, cur + close.len(), (depth - 1) as nat);
        } else if occurs_at(text, cur, open) {
            lemma_scope_bounds(m, open, close, text, cur + open.len(), depth + 1);
        } else {
            lemma_scope_bounds(m, open, close, text, cur + 1, depth);
        }
    }
}

impl Matcher {
    /// Matches `text` at `pos`: the number of characters consumed and the
    /// named spans met, or `None` where the matcher does not match there.
    pub fn match_at(&self, text: &[char], pos: usize) -> (r: Option<(usize, Vec<MatchResult>)>)
        ensures
            match r {
                Some((n, caps)) => self@.hit(text@, pos as int) == Some((n as int, views(caps@)))
                    && pos + n <= text.len(),
                None => self@.hit(text@, pos as int).is_none(),
            },
        decreases self, text.len() - pos, 0int,
    {
        if pos > text.len() {
            return None;
        }
        proof {
            lemma_hit_bounds(self@, text@, pos as int);
        }
        match self {
            Matcher::Literal(pat) => {
                if starts_with_at(text, pos, pat.as_slice()) {
                    let caps: Vec<MatchResult> = Vec::new();
                    assert(views(caps@) =~= Seq::empty());
                    Some((pat.len(), caps))
                } else {
                    None
                }
            },
            Matcher::Class(class) => {
                if pos < text.len() && class.test(text[pos]) {
                    let caps: Vec<MatchResult> = Vec::new();
                    assert(views(caps@) =~= Seq::empty());
                    Some((1, caps))
                } else {
                    None
                }
            },
            Matcher::Then(first, second) => {
                match first.match_at(text, pos) {
                    Some((n1, mut c1)) => {
                        match second.match_at(text, pos + n1) {
                            Some((n2, mut c2)) => {
                                let ghost a = c1@;
                                let ghost b = c2@;
                                c1.append(&mut c2);
                                assert(views(c1@) =~= views(a) + views(b));
                                Some((n1 + n2, c1))
                            },
                            None => None,
                        }
                    },
                    None => None,
                }
            },
            Matcher::Or(first, second) => {
                match first.match_at(text, pos) {
                    Some(h) => Some(h),
                    None => second.match_at(text, pos),
                }
            },
            Matcher::Not(inner) => {
                if pos < text.len() && inner.match_at(text, pos).is_none() {
                    let caps: Vec<MatchResult> = Vec::new();
                    assert(views(caps@) =~= Seq::empty());
                    Some((1, caps))
                } else {
                    None
                }
            },
            Matcher::Optional(inner) => {
                match inner.match_at(text, pos) {
                    Some(h) => Some(h),
                    None => {
                        let caps: Vec<MatchResult> = Vec::new();
                        assert(views(caps@) =~= Seq::empty());
                        Some((0, caps))
                    },
                }
            },
            Matcher::Repeat { inner, min, max } => {
                let (n, caps, times) = inner.repeat_at(*max, text, pos);
                if times >= *min {
                    Some((n, caps))
                } else {
                    None
                }
            },
            Matcher::Named(name, inner) => {
                match inner.match_at(text, pos) {
                    Some((n, caps)) => {
                        let node = MatchResult {
                            name: copy_chars(name.as_slice()),
                            contents: slice_of(text, pos, pos + n),
                            children: caps,
                        };
                        proof {
                            lemma_view_children(node);
                        }
                        let mut out: Vec<MatchResult> = Vec::new();
                        out.push(node);
                        assert(views(out@) =~= seq![node@]);
                        Some((n, out))
                    },
                    None => None,
                }
            },
            Matcher::Scope { open, close, skip } => {
                if open.len() > 0 && close.len() > 0 && starts_with_at(text, pos, open.as_slice()) {
                    match skip.scope_end_at(
                        open.as_slice(),
                        close.as_slice(),
                        text,
                        pos,
                        pos + open.len(),
                    ) {
                        Some(end) => {
                            let caps: Vec<MatchResult> = Vec::new();
                            assert(views(caps@) =~= Seq::empty());
                            Some((end - pos, caps))
                        },
                        None => None,
                    }
                } else {
                    None
                }
            },
        }
    }

    /// Repeats `self` greedily from `pos`, at most `max` times: the characters
    /// consumed, the named spans met and the number of rounds.
    fn repeat_at(&self, max: Option<usize>, text: &[char], pos: usize) -> (r: (
        usize,
        Vec<MatchResult>,
        usize,
    ))
        requires
            pos <= text.len(),
        ensures
            self@.repeat_from(bound(max), text@, pos as int, 0) == (
                r.0 as int,
                views(r.1@),
                r.2 as nat,
            ),
            pos + r.0 <= text.len(),
        decreases self, text.len() - pos, 1int,
    {
        let mut cur: usize = pos;
        let mut caps: Vec<MatchResult> = Vec::new();
        let mut times: usize = 0;
        assert(views(caps@) =~= Seq::empty());
        loop
            invariant
                pos <= cur <= text.len(),
                times <= cur - pos,
                ({
                    let rest = self@.repeat_from(bound(max), text@, cur as int, times as nat);
                    self@.repeat_from(bound(max), text@, pos as int, 0) == (
                        (cur - pos) + rest.0,
                        views(caps@) + rest.1,
                        rest.2,
                    )
                }),
            decreases text.len() - cur,
        {
            let full = match max {
                Some(m) => times >= m,
                None => false,
            };
            if full {
                assert(views(caps@) + Seq::<Capture>::empty() =~= views(caps@));
                return (cur - pos, caps, times);
            }
            match self.match_at(text, cur) {
                Some((n, mut more)) => {
                    if n > 0 {
                        let ghost before = caps@;
                        let ghost added = more@;
                        let ghost rest = self@.repeat_from(
                            bound(max),
                            text@,
                            cur + n,
                            (times + 1) as nat,
                        );
                        caps.append(&mut more);
                        assert(views(caps@) =~= views(before) + views(added));
                        assert(views(before) + (views(added) + rest.1) =~= views(caps@) + rest.1);
                        cur = cur + n;
                        times = times + 1;
                    } else {
                        assert(views(caps@) + Seq::<Capture>::empty() =~= views(caps@));
                        return (cur - pos, caps, times);
                    }
                },
                None => {
                    assert(views(caps@) + Seq::<Capture>::empty() =~= views(caps@));
                    return (cur - pos, caps, times);
                },
            }
        }
    }

    /// Finds the end of the scope opened at `pos`, reading on from `start`,
    /// the first position after the opening delimiter.
    fn scope_end_at(
        &self,
        open: &[char],
        close: &[char],
        text: &[char],
        pos: usize,
        start: usize,
    ) -> (r: Option<usize>)
        requires
            pos < start <= text.len(),
            open.len() > 0,
            close.len() > 0,
        ensures
            match r {
                Some(end) => self@.scope_end(open@, close@, text@, start as int, 1) == Some(
                    end as int,
                ) && start <= end <= text.len(),
                None => self@.scope_end(open@, close@, text@, start as int, 1).is_none(),
            },
        decreases self, text.len() - start, 1int,
    {
        let mut cur: usize = start;
        let mut depth: usize = 1;
        while depth > 0 && cur < text.len()
            invariant
                start <= cur <= text.len(),
                pos < start,
                depth <= cur - pos,
                open.len() > 0,
                close.len() > 0,
                self@.scope_end(open@, close@, text@, start as int, 1) == self@.scope_end(
                    open@,
                    close@,
                    text@,
                    cur as int,
                    depth as nat,
                ),
            decreases text.len() - cur,
        {
            let skipped: usize = match self.match_at(text, cur) {
                Some((n, _)) => n,
                None => 0,
            };
            if skipped > 0 {
                cur = cur + skipped;
            } else if starts_with_at(text, cur, close) {
                cur = cur + close.len();
                depth = depth - 1;
            } else if starts_with_at(text, cur, open) {
                cur = cur + open.len();
                depth = depth + 1;
            } else {
                cur = cur + 1;
            }
        }
        if depth == 0 {
            Some(cur)
        } else {
            None
        }
    }
}



/// The index of the first span of the list that has the given name.
pub open spec fn first_capture(s: Seq<Capture>, name: Seq<char>) -> Option<int>
    decreases s.len(),
{
    if s.len() == 0 {
        None
    } else if s[0].name == name {
        Some(0)
    } else {
        match first_capture(s.drop_first(), name) {
            Some(i) => Some(i + 1),
            None => None,
        }
    }
}

/// What `first_capture` finds has the name, and nothing before it has.
pub proof fn lemma_first_capture(s: Seq<Capture>, name: Seq<char>)
    ensures
        match first_capture(s, name) {
            Some(i) => 0 <= i < s.len() && s[i].name == name && forall|j: int|
                0 <= j < i ==> s[j].name != name,
            None => forall|j: int| 0 <= j < s.len() ==> s[j].name != name,
        },
    decreases s.len(),
{
    if s.len() > 0 && s[0].name != name {
        let t = s.drop_first();
        lemma_first_capture(t, name);
        match first_capture(t, name) {
            Some(i) => {
                assert forall|j: int| 0 <= j < i + 1 implies s[j].name != name by {
                    if j > 0 {
                        assert(s[j] == t[j - 1]);
                    }
                }
            },
            None => {
                assert forall|j: int| 0 <= j < s.len() implies s[j].name != name by {
                    if j > 0 {
                        assert(s[j] == t[j - 1]);
                    }
                }
            },
        }
    }
}

impl Capture {
    /// The span reached by following `path`: at each step the first span
    /// inside that has the next name.
    pub open spec fn descendant(self, path: Seq<Seq<char>>) -> Option<Capture>
        decreases path.len(),
    {
        if path.len() == 0 {
            Some(self)
        } else {
            match first_capture(self.children, path[0]) {
                Some(i) => self.children[i].descendant(path.drop_first()),
                None => None,
            }
        }
    }
}

/// The names of a path, as the model takes them.
pub open spec fn names_of(path: Seq<Vec<char>>) -> Seq<Seq<char>> {
    Seq::new(path.len(), |i: int| path[i]@)
}

impl MatchResult {
    /// The number of characters that the span covers.
    pub fn length(&self) -> (r: usize)
        ensures
            r == self@.text.len(),
    {
        self.contents.len()
    }

    /// The index of the first span directly inside that has the given name.
    #[verifier::loop_isolation(false)]
    pub fn first_child_named(&self, name: &[char]) -> (r: Option<usize>)
        ensures
            match r {
                Some(i) => first_capture(self@.children, name@) == Some(i as int) && i
                    < self.children@.len(),
                None => first_capture(self@.children, name@).is_none(),
            },
    {
        proof {
            lemma_view_children(*self);
            lemma_first_capture(self@.children, name@);
        }
        let mut i: usize = 0;
        while i < self.children.len()
            invariant
                i <= self.children@.len(),
                forall|j: int| 0 <= j < i ==> views(self.children@)[j].name != name@,
            decreases self.children@.len() - i,
        {
            if same_chars(self.children[i].name.as_slice(), name) {
                assert(views(self.children@)[i as int].name == name@);
                return Some(i);
            }
            i += 1;
        }
        None
    }

    /// Follows `path` down from this span: at each step to the first span
    /// inside that has the next name. `None` where a step finds none.
    pub fn find_child_by_type_path(&self, path: &[Vec<char>]) -> (r: Option<&MatchResult>)
        ensures
            match r {
                Some(found) => self@.descendant(names_of(path@)) == Some(found@),
                None => self@.descendant(names_of(path@)).is_none(),
            },
    {
        let ghost names = names_of(path@);
        let mut cur: &MatchResult = self;
        let mut k: usize = 0;
        assert(names.skip(0) =~= names);
        while k < path.len()
            invariant
                k <= path@.len(),
                names == names_of(path@),
                self@.descendant(names) == cur@.descendant(names.skip(k as int)),
            decreases path@.len() - k,
        {
            assert(names.skip(k as int).drop_first() =~= names.skip(k + 1));
            assert(names.skip(k as int)[0] == path@[k as int]@);
            match cur.first_child_named(path[k].as_slice()) {
                Some(i) => {
                    proof {
                        lemma_view_children(*cur);
                    }
                    cur = &cur.children[i];
                },
                None => {
                    return None;
                },
            }
            k += 1;
        }
        Some(cur)
    }
}



impl CharClass {
    /// A class equal to this one.
    pub fn copy(&self) -> (r: CharClass)
        ensures
            r == *self,
    {
        match self {
            CharClass::Any => CharClass::Any,
            CharClass::Whitespace => CharClass::Whitespace,
            CharClass::Range(lo, hi) => CharClass::Range(*lo, *hi),
        }
    }
}

impl Matcher {
    /// A matcher with the same pattern as this one.
    pub fn copy(&self) -> (r: Matcher)
        ensures
            r@ == self@,
        decreases self,
    {
        match self {
            Matcher::Literal(pat) => {
                Matcher::Literal(copy_chars(pat.as_slice()))
            },
            Matcher::Class(class) => Matcher::Class(class.copy()),
            Matcher::Then(first, second) => Matcher::Then(
                Box::new(first.copy()),
                Box::new(second.copy()),
            ),
            Matcher::Or(first, second) => Matcher::Or(
                Box::new(first.copy()),
                Box::new(second.copy()),
            ),
            Matcher::Not(inner) => Matcher::Not(Box::new(inner.copy())),
            Matcher::Optional(inner) => Matcher::Optional(Box::new(inner.copy())),
            Matcher::Repeat { inner, min, max } => Matcher::Repeat {
                inner: Box::new(inner.copy()),
                min: *min,
                max: *max,
            },
            Matcher::Named(name, inner) => {
                Matcher::Named(copy_chars(name.as_slice()), Box::new(inner.copy()))
            },
            Matcher::Scope { open, close, skip } => {
                Matcher::Scope {
                    open: copy_chars(open.as_slice()),
                    close: copy_chars(close.as_slice()),
                    skip: Box::new(skip.copy()),
                }
            },
        }
    }
}



impl Pattern {
    /// The given characters, one after the other.
    pub open spec fn lit(text: Seq<char>) -> Pattern {
        Pattern::Literal(text)
    }

    /// One character of white space.
    pub open spec fn space() -> Pattern {
        Pattern::Class(CharClass::Whitespace)
    }

    /// One character from `lo` to `hi`.
    pub open spec fn range(lo: char, hi: char) -> Pattern {
        Pattern::Class(CharClass::Range(lo, hi))
    }

    /// `self`, and directly after it `next`.
    pub open spec fn followed_by(self, next: Pattern) -> Pattern {
        Pattern::Then(Box::new(self), Box::new(next))
    }

    /// `self` if it matches, else `other`.
    pub open spec fn or(self, other: Pattern) -> Pattern {
        Pattern::Or(Box::new(self), Box::new(other))
    }

    /// One character, where `self` does not match.
    pub open spec fn not(self) -> Pattern {
        Pattern::Not(Box::new(self))
    }

    /// `self` if it matches, else nothing.
    pub open spec fn optional(self) -> Pattern {
        Pattern::Optional(Box::new(self))
    }

    /// `self` as often as it matches.
    pub open spec fn any_number(self) -> Pattern {
        Pattern::Repeat { inner: Box::new(self), min: 0, max: None }
    }

    /// `self` as often as it matches, and at least once.
    pub open spec fn at_least_once(self) -> Pattern {
        Pattern::Repeat { inner: Box::new(self), min: 1, max: None }
    }

    /// `self`, with what it consumed kept as a span of the given name.
    pub open spec fn named(self, name: Seq<char>) -> Pattern {
        Pattern::Named(name, Box::new(self))
    }
}

impl Matcher {
    /// A matcher for the given text.
    pub fn new(text: &str) -> (r: Matcher)
        ensures
            r@ == Pattern::lit(text@),
    {
        Matcher::Literal(chars_of(text))
    }

    /// A matcher for one character of white space.
    pub fn whitespace() -> (r: Matcher)
        ensures
            r@ == Pattern::space(),
    {
        Matcher::Class(CharClass::Whitespace)
    }

    /// A matcher for one character from `lo` to `hi`.
    pub fn range(lo: char, hi: char) -> (r: Matcher)
        ensures
            r@ == Pattern::range(lo, hi),
    {
        Matcher::Class(CharClass::Range(lo, hi))
    }

    /// This matcher, and directly after it `next`.
    pub fn followed_by(self, next: Matcher) -> (r: Matcher)
        ensures
            r@ == self@.followed_by(next@),
    {
        Matcher::Then(Box::new(self), Box::new(next))
    }

    /// This matcher if it matches, else `other`.
    pub fn or(self, other: Matcher) -> (r: Matcher)
        ensures
            r@ == self@.or(other@),
    {
        Matcher::Or(Box::new(self), Box::new(other))
    }

    /// A matcher for one character, where this matcher does not match.
    pub fn not(self) -> (r: Matcher)
        ensures
            r@ == self@.not(),
    {
        Matcher::Not(Box::new(self))
    }

    /// The given matcher if it matches, else nothing.
    pub fn optional(inner: Matcher) -> (r: Matcher)
        ensures
            r@ == inner@.optional(),
    {
        Matcher::Optional(Box::new(inner))
    }

    /// The given matcher as often as it matches.
    pub fn optional_repeat_max(inner: Matcher) -> (r: Matcher)
        ensures
            r@ == inner@.any_number(),
    {
        Matcher::Repeat { inner: Box::new(inner), min: 0, max: None }
    }

    /// The given matcher as often as it matches, and at least once.
    pub fn repeat_max(inner: Matcher) -> (r: Matcher)
        ensures
            r@ == inner@.at_least_once(),
    {
        Matcher::Repeat { inner: Box::new(inner), min: 1, max: None }
    }

    /// The given matcher, with what it consumed kept as a span of the given
    /// name.
    pub fn named(name: &str, inner: Matcher) -> (r: Matcher)
        ensures
            r@ == inner@.named(name@),
    {
        Matcher::Named(chars_of(name), Box::new(inner))
    }

    /// Matches `text` from its start.
    pub fn match_text(&self, text: &[char]) -> (r: Option<(usize, Vec<MatchResult>)>)
        ensures
            match r {
                Some((n, caps)) => self@.hit(text@, 0) == Some((n as int, views(caps@))) && n
                    <= text.len(),
                None => self@.hit(text@, 0).is_none(),
            },
    {
        self.match_at(text, 0)
    }
}



/// The texts of the spans of the list that have the given name, in their
/// order.
pub open spec fn named_texts(s: Seq<Capture>, name: Seq<char>) -> Seq<Seq<char>>
    decreases s.len(),
{
    if s.len() == 0 {
        Seq::empty()
    } else if s.last().name == name {
        named_texts(s.drop_last(), name).push(s.last().text)
    } else {
        named_texts(s.drop_last(), name)
    }
}

impl MatchResult {
    /// The texts of the spans directly inside that have the given name, in
    /// their order.
    pub fn texts_named(&self, name: &[char]) -> (r: Vec<Vec<char>>)
        ensures
            texts(r@) == named_texts(self@.children, name@),
    {
        proof {
            lemma_view_children(*self);
        }
        let ghost kids = views(self.children@);
        let mut out: Vec<Vec<char>> = Vec::new();
        let mut i: usize = 0;
        assert(kids.take(0) =~= Seq::empty());
        assert(texts(out@) =~= Seq::empty());
        while i < self.children.len()
            invariant
                i <= self.children@.len(),
                kids == views(self.children@),
                texts(out@) == named_texts(kids.take(i as int), name@),
            decreases self.children@.len() - i,
        {
            let child = &self.children[i];
            assert(kids.take(i + 1).drop_last() =~= kids.take(i as int));
            assert(kids.take(i + 1).last() == child@);
            if same_chars(child.name.as_slice(), name) {
                let ghost before = texts(out@);
                let text = &child.contents;
                out.push(copy_chars(text.as_slice()));
                assert(texts(out@) =~= before.push(text@));
            }
            i += 1;
        }
        assert(kids.take(i as int) =~= kids);
        out
    }
}

} // verus!
