//! An ordered set of named matchers, and the scan that turns a text into the
//! sequence of spans that they classify.

use vstd::prelude::*;
use crate::matcher::{
    lemma_hit_bounds, lemma_view_children, Capture, MatchResult, Matcher, Pattern,
};
use crate::text::{chars_of, copy_chars, slice_of};

verus! {

/// A matcher and the name given to what it matches.
pub struct Entry {
    pub name: Vec<char>,
    pub matcher: Matcher,
}

/// Named matchers in order of priority: at a position, the first one that
/// matches wins.
pub struct MatcherSet {
    pub entries: Vec<Entry>,
}

impl View for MatcherSet {
    type V = Seq<(Seq<char>, Pattern)>;

    open spec fn view(&self) -> Seq<(Seq<char>, Pattern)> {
        Seq::new(self.entries@.len(), |i: int| (self.entries@[i].name@, self.entries@[i].matcher@))
    }
}

/// A classified span: the entry that matched, and the span it matched.
pub type Found = (int, Capture);

impl MatcherSet {
    /// The first entry at or after `from` that matches `text` at `pos`, with
    /// what it matched.
    pub open spec fn first_hit(&self, text: Seq<char>, pos: int, from: int) -> Option<
        (int, (int, Seq<Capture>)),
    >
        decreases self.entries@.len() - from,
    {
        if from < 0 || from >= self.entries@.len() {
            None
        } else {
            match self.entries@[from].matcher@.hit(text, pos) {
                Some(h) => Some((from, h)),
                None => self.first_hit(text, pos, from + 1),
            }
        }
    }

    /// The span classified at `pos`: the index of the winning entry, and the
    /// span under that entry's name.
    pub open spec fn found_at(&self, text: Seq<char>, pos: int) -> Option<Found> {
        match self.first_hit(text, pos, 0) {
            Some((index, (n, caps))) => Some(
                (
                    index,
                    Capture {
                        name: self.entries@[index].name@,
                        text: text.subrange(pos, pos + n),
                        children: caps,
                    },
                ),
            ),
            None => None,
        }
    }

    /// How far the scan moves on from a position with `room` characters
    /// left: past the span found there, and by one character where nothing,
    /// or an empty span, was found.
    pub open spec fn step(found: Option<Found>, room: int) -> int {
        match found {
            Some((_, span)) => if 0 < span.text.len() <= room {
                span.text.len() as int
            } else {
                1
            },
            None => 1,
        }
    }

    /// The spans classified from `pos` to the end of the text, each with the
    /// offset at which it starts.
    pub open spec fn scan_from(&self, text: Seq<char>, pos: int) -> Seq<(int, Capture)>
        decreases text.len() - pos,
    {
        if pos < 0 || pos >= text.len() {
            Seq::empty()
        } else {
            let found = self.found_at(text, pos);
            let rest = self.scan_from(text, pos + Self::step(found, text.len() - pos));
            match found {
                Some((_, span)) => seq![(pos, span)] + rest,
                None => rest,
            }
        }
    }

    /// The winning entry is the first that matches, and its match lies in the
    /// text.
    pub proof fn lemma_first_hit(&self, text: Seq<char>, pos: int, from: int)
        requires
            0 <= from,
        ensures
            match self.first_hit(text, pos, from) {
                Some((index, (n, caps))) => {
                    &&& from <= index < self.entries@.len()
                    &&& self.entries@[index].matcher@.hit(text, pos) == Some((n, caps))
                    &&& 0 <= n && pos + n <= text.len()
                    &&& forall|j: int|
                        from <= j < index ==> (#[trigger] self.entries@[j]).matcher@.hit(
                            text,
                            pos,
                        ).is_none()
                },
                None => forall|j: int|
                    from <= j < self.entries@.len() ==> (#[trigger] self.entries@[j]).matcher@.hit(
                        text,
                        pos,
                    ).is_none(),
            },
        decreases self.entries@.len() - from,
    {
        if from < self.entries@.len() {
            lemma_hit_bounds(self.entries@[from].matcher@, text, pos);
            if self.entries@[from].matcher@.hit(text, pos).is_none() {
                self.lemma_first_hit(text, pos, from + 1);
            }
        }
    }

    /// Tries the entries in order at `pos`: the index of the first that
    /// matches and the span it matched, under the entry's name.
    pub fn match_at(&self, text: &[char], pos: usize) -> (r: Option<(usize, MatchResult)>)
        ensures
            match r {
                Some((index, node)) => self.found_at(text@, pos as int) == Some(
                    (index as int, node@),
                ) && index < self.entries@.len() && pos + node.contents@.len() <= text.len(),
                None => self.found_at(text@, pos as int).is_none(),
            },
    {
        let mut i: usize = 0;
        while i < self.entries.len()
            invariant
                i <= self.entries@.len(),
                self.first_hit(text@, pos as int, 0) == self.first_hit(text@, pos as int, i as int),
            decreases self.entries@.len() - i,
        {
            match self.entries[i].matcher.match_at(text, pos) {
                Some((n, caps)) => {
                    let name = &self.entries[i].name;
                    let node = MatchResult {
                        name: copy_chars(name.as_slice()),
                        contents: slice_of(text, pos, pos + n),
                        children: caps,
                    };
                    proof {
                        lemma_view_children(node);
                    }
                    return Some((i, node));
                },
                None => {},
            }
            i += 1;
        }
        None
    }

    /// Every span that the set classifies in `text`, from left to right,
    /// each with the offset at which it starts.
    pub fn find_matches(&self, text: &[char]) -> (r: Vec<(usize, MatchResult)>)
        ensures
            located(r@) == self.scan_from(text@, 0),
    {
        let mut out: Vec<(usize, MatchResult)> = Vec::new();
        let mut scanner = Scanner::new();
        assert(located(out@) =~= Seq::empty());
        loop
            invariant
                scanner.cursor <= text.len(),
                self.scan_from(text@, 0) == located(out@) + self.scan_from(
                    text@,
                    scanner.cursor as int,
                ),
            decreases text.len() - scanner.cursor,
        {
            let ghost before = out@;
            match scanner.next(self, text) {
                Some(item) => {
                    out.push(item);
                    assert(located(out@) =~= located(before) + seq![(item.0 as int, item.1@)]);
                    assert(located(out@) + self.scan_from(text@, scanner.cursor as int) =~= located(
                        before,
                    ) + (seq![(item.0 as int, item.1@)] + self.scan_from(
                        text@,
                        scanner.cursor as int,
                    )));
                },
                None => {
                    assert(located(out@) + Seq::<(int, Capture)>::empty() =~= located(out@));
                    return out;
                },
            }
        }
    }
}

/// Spans with their offsets, as the scan's specification lists them.
pub open spec fn located(s: Seq<(usize, MatchResult)>) -> Seq<(int, Capture)> {
    Seq::new(s.len(), |i: int| (s[i].0 as int, s[i].1@))
}

/// A scan in progress: it hands out one span at a time and can be taken up
/// again from any position.
pub struct Scanner {
    pub cursor: usize,
}

impl Scanner {
    /// A scan that starts at the beginning of the text.
    pub fn new() -> (r: Scanner)
        ensures
            r.cursor == 0,
    {
        Scanner { cursor: 0 }
    }

    /// A scan that goes on from `cursor`.
    pub fn at(cursor: usize) -> (r: Scanner)
        ensures
            r.cursor == cursor,
    {
        Scanner { cursor }
    }

    /// The next span at or after the cursor, with its offset; the cursor
    /// moves past it. `None` where no span is left: the cursor then stands
    /// at the end of the text, unless it stood behind it already.
    pub fn next(&mut self, set: &MatcherSet, text: &[char]) -> (r: Option<(usize, MatchResult)>)
        ensures
            old(self).cursor <= text.len() ==> final(self).cursor <= text.len(),
            match r {
                Some((at, node)) => {
                    &&& old(self).cursor <= at < final(self).cursor
                    &&& forall|p: int|
                        old(self).cursor <= p < at ==> set.found_at(text@, p).is_none()
                    &&& set.found_at(text@, at as int) matches Some((_, span)) && span == node@
                    &&& final(self).cursor == at + MatcherSet::step(
                        set.found_at(text@, at as int),
                        text@.len() - at,
                    )
                    &&& set.scan_from(text@, old(self).cursor as int) == seq![(at as int, node@)]
                        + set.scan_from(text@, final(self).cursor as int)
                },
                None => {
                    &&& final(self).cursor == if old(self).cursor <= text.len() {
                        text.len()
                    } else {
                        old(self).cursor
                    }
                    &&& forall|p: int|
                        old(self).cursor <= p < text.len() ==> set.found_at(text@, p).is_none()
                    &&& set.scan_from(text@, old(self).cursor as int) == Seq::<
                        (int, Capture),
                    >::empty()
                },
            },
    {
        if self.cursor > text.len() {
            return None;
        }
        while self.cursor < text.len()
            invariant
                old(self).cursor <= self.cursor <= text.len(),
                forall|p: int|
                    old(self).cursor <= p < self.cursor ==> set.found_at(text@, p).is_none(),
                set.scan_from(text@, old(self).cursor as int) == set.scan_from(
                    text@,
                    self.cursor as int,
                ),
            decreases text.len() - self.cursor,
        {
            let at = self.cursor;
            match set.match_at(text, at) {
                Some((_, node)) => {
                    let n = node.contents.len();
                    if n > 0 {
                        self.cursor = at + n;
                    } else {
                        self.cursor = at + 1;
                    }
                    return Some((at, node));
                },
                None => {
                    self.cursor = at + 1;
                },
            }
        }
        None
    }
}



impl MatcherSet {
    /// A set without matchers.
    pub fn new() -> (r: MatcherSet)
        ensures
            r@ == Seq::<(Seq<char>, Pattern)>::empty(),
    {
        let r = MatcherSet { entries: Vec::new() };
        assert(r@ =~= Seq::<(Seq<char>, Pattern)>::empty());
        r
    }

    /// The set with one more matcher, of lower priority than those it has.
    pub fn with_matcher(self, name: &str, matcher: Matcher) -> (r: MatcherSet)
        ensures
            r@ == self@.push((name@, matcher@)),
    {
        let mut r = self;
        r.entries.push(Entry { name: chars_of(name), matcher });
        assert(r@ =~= self@.push((name@, matcher@)));
        r
    }
}



impl MatcherSet {
    /// The spans of a scan lie in the text, each holds the text that it
    /// covers, and they follow one another from left to right without
    /// overlapping.
    pub proof fn lemma_scan_ordered(&self, text: Seq<char>, pos: int)
        requires
            0 <= pos,
        ensures
            forall|i: int|
                #![trigger self.scan_from(text, pos)[i]]
                0 <= i < self.scan_from(text, pos).len() ==> {
                    let (at, span) = self.scan_from(text, pos)[i];
                    &&& pos <= at < text.len()
                    &&& at + span.text.len() <= text.len()
                    &&& span.text == text.subrange(at, at + span.text.len())
                },
            forall|i: int, j: int|
                #![trigger self.scan_from(text, pos)[i], self.scan_from(text, pos)[j]]
                0 <= i < j < self.scan_from(text, pos).len() ==> {
                    let (a, first) = self.scan_from(text, pos)[i];
                    let (b, _) = self.scan_from(text, pos)[j];
                    a < b && a + first.text.len() <= b
                },
        decreases text.len() - pos,
    {
        if pos < text.len() {
            let found = self.found_at(text, pos);
            let next = pos + Self::step(found, text.len() - pos);
            let rest = self.scan_from(text, next);
            self.lemma_scan_ordered(text, next);
            self.lemma_first_hit(text, pos, 0);
            let all = self.scan_from(text, pos);
            match found {
                Some((_, span)) => {
                    assert(all =~= seq![(pos, span)] + rest);
                    assert forall|i: int| 0 <= i < all.len() implies ({
                        let (at, sp) = #[trigger] all[i];
                        &&& pos <= at < text.len()
                        &&& at + sp.text.len() <= text.len()
                        &&& sp.text == text.subrange(at, at + sp.text.len())
                    }) by {
                        if i > 0 {
                            assert(all[i] == rest[i - 1]);
                        }
                    }
                    assert forall|i: int, j: int| 0 <= i < j < all.len() implies ({
                        let (a, first) = #[trigger] all[i];
                        let (b, _) = #[trigger] all[j];
                        a < b && a + first.text.len() <= b
                    }) by {
                        assert(all[j] == rest[j - 1]);
                        if i > 0 {
                            assert(all[i] == rest[i - 1]);
                        }
                    }
                },
                None => {
                    assert(all == rest);
                },
            }
        }
    }
}

} // verus!
