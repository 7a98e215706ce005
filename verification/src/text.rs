//! Text as a sequence of characters: conversions between `str`, `String` and
//! character vectors, and the searching and trimming that the rest of the
//! crate is built on.

use vstd::prelude::*;
use vstd::std_specs::iter::IteratorSpec;

verus! {

/// `String::push` appends exactly one character to the end of the string.
pub assume_specification[ String::push ](s: &mut String, ch: char)
    ensures
        final(s)@ == old(s)@.push(ch),
;

/// The characters that Unicode gives the property `White_Space`.
pub open spec fn is_space(c: char) -> bool {
    ||| '\u{9}' <= c <= '\u{D}'
    ||| c == ' '
    ||| c == '\u{85}'
    ||| c == '\u{A0}'
    ||| c == '\u{1680}'
    ||| '\u{2000}' <= c <= '\u{200A}'
    ||| c == '\u{2028}'
    ||| c == '\u{2029}'
    ||| c == '\u{202F}'
    ||| c == '\u{205F}'
    ||| c == '\u{3000}'
}

/// Whether `c` is white space.
pub fn is_whitespace(c: char) -> (r: bool)
    ensures
        r == is_space(c),
{
    ('\u{9}' <= c && c <= '\u{D}') || c == ' ' || c == '\u{85}' || c == '\u{A0}' || c
        == '\u{1680}' || ('\u{2000}' <= c && c <= '\u{200A}') || c == '\u{2028}' || c
        == '\u{2029}' || c == '\u{202F}' || c == '\u{205F}' || c == '\u{3000}'
}

/// `pat` stands in `text` at offset `pos`.
pub open spec fn occurs_at(text: Seq<char>, pos: int, pat: Seq<char>) -> bool {
    &&& 0 <= pos
    &&& pos + pat.len() <= text.len()
    &&& text.subrange(pos, pos + pat.len()) =~= pat
}

/// `pat` stands somewhere in `text`.
pub open spec fn contains_seq(text: Seq<char>, pat: Seq<char>) -> bool {
    exists|i: int| occurs_at(text, i, pat)
}

/// The least offset at or after `from` at which `pat` stands in `text`.
pub open spec fn find_from(text: Seq<char>, pat: Seq<char>, from: int) -> Option<int>
    decreases text.len() - from,
{
    if from < 0 || from + pat.len() > text.len() {
        None
    } else if occurs_at(text, from, pat) {
        Some(from)
    } else {
        find_from(text, pat, from + 1)
    }
}

/// `find_from` returns an occurrence, and none stands before it.
pub proof fn lemma_find_from(text: Seq<char>, pat: Seq<char>, from: int)
    requires
        0 <= from,
    ensures
        match find_from(text, pat, from) {
            Some(i) => from <= i && occurs_at(text, i, pat) && forall|j: int|
                from <= j < i ==> !occurs_at(text, j, pat),
            None => forall|j: int| from <= j ==> !occurs_at(text, j, pat),
        },
    decreases text.len() - from,
{
    if from + pat.len() > text.len() {
    } else if occurs_at(text, from, pat) {
    } else {
        lemma_find_from(text, pat, from + 1);
    }
}

/// A text contains a pattern exactly when a search from its start finds it.
pub proof fn lemma_contains_is_find(text: Seq<char>, pat: Seq<char>)
    ensures
        contains_seq(text, pat) == find_from(text, pat, 0).is_some(),
{
    lemma_find_from(text, pat, 0);
}

/// The characters of a string slice.
pub fn chars_of(s: &str) -> (v: Vec<char>)
    ensures
        v@ == s@,
{
    let mut v: Vec<char> = Vec::new();
    for c in it: s.chars()
        invariant
            it.seq() == s@,
            v@ == it.seq().take(it.index() as int),
    {
        v.push(c);
        assert(it.seq().take(it.index() + 1) =~= it.seq().take(it.index() as int).push(c));
    }
    assert(v@ =~= s@);
    v
}

/// The string made of the given characters.
pub fn string_of(v: &[char]) -> (s: String)
    ensures
        s@ == v@,
{
    let mut s = String::new();
    let mut i: usize = 0;
    while i < v.len()
        invariant
            i <= v.len(),
            s@ == v@.take(i as int),
        decreases v.len() - i,
    {
        s.push(v[i]);
        i += 1;
        assert(v@.take(i as int) =~= v@.take(i - 1).push(v@[i - 1]));
    }
    assert(v@.take(i as int) =~= v@);
    s
}

/// A copy of the characters from `from` up to `to`.
pub fn slice_of(text: &[char], from: usize, to: usize) -> (v: Vec<char>)
    requires
        from <= to <= text.len(),
    ensures
        v@ == text@.subrange(from as int, to as int),
{
    let mut v: Vec<char> = Vec::new();
    let mut i: usize = from;
    while i < to
        invariant
            from <= i <= to <= text.len(),
            v@ == text@.subrange(from as int, i as int),
        decreases to - i,
    {
        v.push(text[i]);
        i += 1;
        assert(text@.subrange(from as int, i as int) =~= text@.subrange(from as int, i - 1).push(
            text@[i - 1],
        ));
    }
    v
}

/// A copy of the given characters.
pub fn copy_chars(text: &[char]) -> (v: Vec<char>)
    ensures
        v@ == text@,
{
    assert(text@.subrange(0, text@.len() as int) =~= text@);
    slice_of(text, 0, text.len())
}

/// Appends `more` to `out`.
pub fn append_chars(out: &mut Vec<char>, more: &[char])
    ensures
        final(out)@ == old(out)@ + more@,
{
    let mut i: usize = 0;
    while i < more.len()
        invariant
            i <= more.len(),
            out@ == old(out)@ + more@.take(i as int),
        decreases more.len() - i,
    {
        out.push(more[i]);
        i += 1;
        assert(more@.take(i as int) =~= more@.take(i - 1).push(more@[i - 1]));
    }
    assert(more@.take(i as int) =~= more@);
}

/// Whether two texts hold the same characters.
pub fn same_chars(a: &[char], b: &[char]) -> (r: bool)
    ensures
        r == (a@ == b@),
{
    if a.len() != b.len() {
        return false;
    }
    let mut i: usize = 0;
    while i < a.len()
        invariant
            i <= a.len(),
            a.len() == b.len(),
            a@.take(i as int) == b@.take(i as int),
        decreases a.len() - i,
    {
        if a[i] != b[i] {
            assert(a@[i as int] != b@[i as int]);
            return false;
        }
        i += 1;
        assert(a@.take(i as int) =~= a@.take(i - 1).push(a@[i - 1]));
        assert(b@.take(i as int) =~= b@.take(i - 1).push(b@[i - 1]));
    }
    assert(a@.take(i as int) =~= a@);
    assert(b@.take(i as int) =~= b@);
    true
}

/// Whether `pat` stands in `text` at offset `pos`.
pub fn starts_with_at(text: &[char], pos: usize, pat: &[char]) -> (r: bool)
    ensures
        r == occurs_at(text@, pos as int, pat@),
{
    if pos > text.len() || pat.len() > text.len() - pos {
        return false;
    }
    let mut i: usize = 0;
    while i < pat.len()
        invariant
            i <= pat.len(),
            pos + pat.len() <= text.len(),
            text@.subrange(pos as int, pos + i) == pat@.take(i as int),
        decreases pat.len() - i,
    {
        if text[pos + i] != pat[i] {
            assert(text@.subrange(pos as int, pos + pat.len())[i as int] != pat@[i as int]);
            return false;
        }
        i += 1;
        assert(text@.subrange(pos as int, pos + i) =~= text@.subrange(pos as int, pos + i - 1).push(
            text@[pos + i - 1],
        ));
        assert(pat@.take(i as int) =~= pat@.take(i - 1).push(pat@[i - 1]));
    }
    assert(pat@.take(i as int) =~= pat@);
    true
}

/// The offset of the first occurrence of `pat` in `text` at or after `from`.
#[verifier::loop_isolation(false)]
pub fn find(text: &[char], pat: &[char], from: usize) -> (r: Option<usize>)
    ensures
        match r {
            Some(i) => find_from(text@, pat@, from as int) == Some(i as int),
            None => find_from(text@, pat@, from as int).is_none(),
        },
        match r {
            Some(i) => from <= i && occurs_at(text@, i as int, pat@) && forall|j: int|
                from <= j < i ==> !occurs_at(text@, j, pat@),
            None => forall|j: int| from <= j ==> !occurs_at(text@, j, pat@),
        },
{
    proof {
        lemma_find_from(text@, pat@, from as int);
    }
    if from > text.len() || pat.len() > text.len() - from {
        return None;
    }
    let last: usize = text.len() - pat.len();
    let mut i: usize = from;
    loop
        invariant
            from <= i <= last,
            last == text.len() - pat.len(),
            find_from(text@, pat@, from as int) == find_from(text@, pat@, i as int),
        decreases last - i,
    {
        if starts_with_at(text, i, pat) {
            return Some(i);
        }
        if i == last {
            assert(find_from(text@, pat@, i + 1).is_none());
            return None;
        }
        i += 1;
    }
}

/// Whether `pat` stands somewhere in `text`.
pub fn contains(text: &[char], pat: &[char]) -> (r: bool)
    ensures
        r == contains_seq(text@, pat@),
{
    proof {
        lemma_contains_is_find(text@, pat@);
    }
    find(text, pat, 0).is_some()
}

/// The number of characters at the start of `s` that `p` holds of.
pub open spec fn leading_run(s: Seq<char>, p: spec_fn(char) -> bool) -> int
    decreases s.len(),
{
    if s.len() > 0 && p(s[0]) {
        1 + leading_run(s.drop_first(), p)
    } else {
        0
    }
}

/// The number of characters at the end of `s` that `p` holds of.
pub open spec fn trailing_run(s: Seq<char>, p: spec_fn(char) -> bool) -> int
    decreases s.len(),
{
    if s.len() > 0 && p(s.last()) {
        1 + trailing_run(s.drop_last(), p)
    } else {
        0
    }
}

/// `s` without the characters at its start and at its end that `p` holds
/// of.
pub open spec fn stripped(s: Seq<char>, p: spec_fn(char) -> bool) -> Seq<char> {
    let a = leading_run(s, p);
    let rest = s.subrange(a, s.len() as int);
    rest.subrange(0, rest.len() - trailing_run(rest, p))
}

/// `s` without the white space at its start and at its end.
pub open spec fn trimmed(s: Seq<char>) -> Seq<char> {
    stripped(s, |c: char| is_space(c))
}

/// `s` without the double quotes at its start and at its end.
pub open spec fn unquoted(s: Seq<char>) -> Seq<char> {
    stripped(s, |c: char| c == '"')
}

/// A run at the start has the length `n` where `p` holds of the first `n`
/// characters and not of the next one.
pub proof fn lemma_leading_run_is(s: Seq<char>, p: spec_fn(char) -> bool, n: int)
    requires
        0 <= n <= s.len(),
        forall|i: int| 0 <= i < n ==> p(s[i]),
        n < s.len() ==> !p(s[n]),
    ensures
        leading_run(s, p) == n,
    decreases s.len(),
{
    if n > 0 {
        let t = s.drop_first();
        assert(p(s[0]));
        assert forall|i: int| 0 <= i < n - 1 implies p(t[i]) by {
            assert(t[i] == s[i + 1]);
        }
        if n - 1 < t.len() {
            assert(t[n - 1] == s[n]);
        }
        lemma_leading_run_is(t, p, n - 1);
    }
}

/// A run at the end has the length `n` where `p` holds of the last `n`
/// characters and not of the one before them.
pub proof fn lemma_trailing_run_is(s: Seq<char>, p: spec_fn(char) -> bool, n: int)
    requires
        0 <= n <= s.len(),
        forall|i: int| s.len() - n <= i < s.len() ==> p(s[i]),
        n < s.len() ==> !p(s[s.len() - n - 1]),
    ensures
        trailing_run(s, p) == n,
    decreases s.len(),
{
    if n > 0 {
        let t = s.drop_last();
        assert(p(s[s.len() - 1]));
        assert forall|i: int| t.len() - (n - 1) <= i < t.len() implies p(t[i]) by {
            assert(t[i] == s[i]);
        }
        if n - 1 < t.len() {
            assert(t[t.len() - (n - 1) - 1] == s[s.len() - n - 1]);
        }
        lemma_trailing_run_is(t, p, n - 1);
    }
}

/// What is left after stripping: the stretch between a run at the start
/// and a run at the end of what follows it.
pub proof fn lemma_stripped_is(s: Seq<char>, p: spec_fn(char) -> bool, a: int, b: int)
    requires
        0 <= a <= b <= s.len(),
        forall|i: int| 0 <= i < a ==> p(s[i]),
        a < s.len() ==> !p(s[a]),
        forall|i: int| b <= i < s.len() ==> p(s[i]),
        a < b ==> !p(s[b - 1]),
        a == b ==> b == s.len(),
    ensures
        stripped(s, p) == s.subrange(a, b),
{
    lemma_leading_run_is(s, p, a);
    let rest = s.subrange(a, s.len() as int);
    assert forall|i: int| rest.len() - (s.len() - b) <= i < rest.len() implies p(rest[i]) by {
        assert(rest[i] == s[i + a]);
    }
    if b > a {
        assert(rest[rest.len() - (s.len() - b) - 1] == s[b - 1]);
    }
    lemma_trailing_run_is(rest, p, s.len() - b);
    assert(rest.subrange(0, rest.len() - (s.len() - b)) =~= s.subrange(a, b));
}

/// The bounds of `text` without the white space at its ends.
pub fn trim_bounds(text: &[char]) -> (r: (usize, usize))
    ensures
        r.0 <= r.1 <= text.len(),
        text@.subrange(r.0 as int, r.1 as int) == trimmed(text@),
{
    let mut a: usize = 0;
    while a < text.len() && is_whitespace(text[a])
        invariant
            a <= text.len(),
            forall|i: int| 0 <= i < a ==> is_space(text@[i]),
        decreases text.len() - a,
    {
        a += 1;
    }
    let mut b: usize = text.len();
    while b > a && is_whitespace(text[b - 1])
        invariant
            a <= b <= text.len(),
            forall|i: int| b <= i < text.len() ==> is_space(text@[i]),
        decreases b,
    {
        b -= 1;
    }
    proof {
        lemma_stripped_is(text@, |c: char| is_space(c), a as int, b as int);
    }
    (a, b)
}

/// `text` without the white space at its start and at its end.
pub fn trim(text: &[char]) -> (v: Vec<char>)
    ensures
        v@ == trimmed(text@),
{
    let (a, b) = trim_bounds(text);
    slice_of(text, a, b)
}

/// `text` without the double quotes at its start and at its end.
pub fn trim_quotes(text: &[char]) -> (v: Vec<char>)
    ensures
        v@ == unquoted(text@),
{
    let mut a: usize = 0;
    while a < text.len() && text[a] == '"'
        invariant
            a <= text.len(),
            forall|i: int| 0 <= i < a ==> text@[i] == '"',
        decreases text.len() - a,
    {
        a += 1;
    }
    let mut b: usize = text.len();
    while b > a && text[b - 1] == '"'
        invariant
            a <= b <= text.len(),
            forall|i: int| b <= i < text.len() ==> text@[i] == '"',
        decreases b,
    {
        b -= 1;
    }
    proof {
        lemma_stripped_is(text@, |c: char| c == '"', a as int, b as int);
    }
    slice_of(text, a, b)
}

/// The offset of the first `sep` in `s`, or the length of `s` where it
/// holds none.
pub open spec fn first_sep(s: Seq<char>, sep: char) -> int
    decreases s.len(),
{
    if s.len() == 0 || s[0] == sep {
        0
    } else {
        1 + first_sep(s.drop_first(), sep)
    }
}

/// The parts of `s` between the occurrences of `sep`: one more than there
/// are occurrences.
pub open spec fn split_on(s: Seq<char>, sep: char) -> Seq<Seq<char>>
    decreases s.len(),
{
    let i = first_sep(s, sep);
    if 0 <= i < s.len() {
        seq![s.take(i)] + split_on(s.skip(i + 1), sep)
    } else {
        seq![s]
    }
}

/// The first separator stands where `first_sep` says, and none before it.
pub proof fn lemma_first_sep(s: Seq<char>, sep: char)
    ensures
        0 <= first_sep(s, sep) <= s.len(),
        first_sep(s, sep) < s.len() ==> s[first_sep(s, sep)] == sep,
        forall|j: int| 0 <= j < first_sep(s, sep) ==> s[j] != sep,
    decreases s.len(),
{
    if s.len() == 0 || s[0] == sep {
    } else {
        let t = s.drop_first();
        lemma_first_sep(t, sep);
        assert forall|j: int| 0 <= j < first_sep(s, sep) implies s[j] != sep by {
            if j > 0 {
                assert(s[j] == t[j - 1]);
            }
        }
    }
}

/// The first separator is at `n` where one stands there, or the text ends
/// there, and none stands before.
pub proof fn lemma_first_sep_is(s: Seq<char>, sep: char, n: int)
    requires
        0 <= n <= s.len(),
        n < s.len() ==> s[n] == sep,
        forall|j: int| 0 <= j < n ==> s[j] != sep,
    ensures
        first_sep(s, sep) == n,
{
    lemma_first_sep(s, sep);
}

/// The views of a list of texts.
pub open spec fn texts(v: Seq<Vec<char>>) -> Seq<Seq<char>> {
    Seq::new(v.len(), |i: int| v[i]@)
}

/// The parts of `text` between the occurrences of `sep`.
pub fn split(text: &[char], sep: char) -> (r: Vec<Vec<char>>)
    ensures
        texts(r@) == split_on(text@, sep),
        r@.len() > 0,
{
    let mut out: Vec<Vec<char>> = Vec::new();
    let mut start: usize = 0;
    let mut i: usize = 0;
    assert(text@.skip(0) =~= text@);
    assert(texts(out@) =~= Seq::empty());
    assert(Seq::<Seq<char>>::empty() + split_on(text@, sep) =~= split_on(text@, sep));
    while i < text.len()
        invariant
            start <= i <= text.len(),
            forall|j: int| start <= j < i ==> text@[j] != sep,
            split_on(text@, sep) == texts(out@) + split_on(text@.skip(start as int), sep),
        decreases text.len() - i,
    {
        if text[i] == sep {
            let part = slice_of(text, start, i);
            proof {
                let rest = text@.skip(start as int);
                assert forall|j: int| 0 <= j < i - start implies rest[j] != sep by {
                    assert(rest[j] == text@[start + j]);
                }
                lemma_first_sep_is(rest, sep, i - start);
                assert(rest.take(i - start) =~= part@);
                assert(rest.skip(i - start + 1) =~= text@.skip(i + 1));
                let ghost_before = texts(out@);
                assert(ghost_before + (seq![part@] + split_on(text@.skip(i + 1), sep))
                    =~= ghost_before.push(part@) + split_on(text@.skip(i + 1), sep));
            }
            let ghost before = texts(out@);
            out.push(part);
            assert(texts(out@) =~= before.push(part@));
            start = i + 1;
        }
        i += 1;
    }
    let part = slice_of(text, start, text.len());
    proof {
        let rest = text@.skip(start as int);
        assert forall|j: int| 0 <= j < rest.len() implies rest[j] != sep by {
            assert(rest[j] == text@[start + j]);
        }
        lemma_first_sep_is(rest, sep, rest.len() as int);
        assert(rest =~= part@);
    }
    let ghost before = texts(out@);
    out.push(part);
    assert(texts(out@) =~= before + seq![part@]);
    out
}



/// The last part of a split is no longer than the text.
pub proof fn lemma_split_last(s: Seq<char>, sep: char)
    ensures
        split_on(s, sep).len() > 0,
        split_on(s, sep).last().len() <= s.len(),
        split_on(s, sep).last() == s.skip(s.len() - split_on(s, sep).last().len()),
    decreases s.len(),
{
    lemma_first_sep(s, sep);
    let i = first_sep(s, sep);
    if i < s.len() {
        let rest = s.skip(i + 1);
        lemma_split_last(rest, sep);
        let parts = seq![s.take(i)] + split_on(rest, sep);
        assert(parts.last() == split_on(rest, sep).last());
        let w = split_on(rest, sep).last();
        assert(rest.skip(rest.len() - w.len()) =~= s.skip(s.len() - w.len()));
    } else {
        assert(s.skip(0) =~= s);
    }
}

/// The texts of `parts` with `sep` between each two of them.
pub open spec fn joined(parts: Seq<Seq<char>>, sep: Seq<char>) -> Seq<char>
    decreases parts.len(),
{
    if parts.len() == 0 {
        Seq::empty()
    } else if parts.len() == 1 {
        parts[0]
    } else {
        joined(parts.drop_last(), sep) + sep + parts.last()
    }
}

/// The texts of `parts` with `sep` between each two of them.
pub fn join(parts: &Vec<Vec<char>>, sep: &[char]) -> (r: Vec<char>)
    ensures
        r@ == joined(texts(parts@), sep@),
{
    let mut out: Vec<char> = Vec::new();
    let mut i: usize = 0;
    assert(texts(parts@).take(0) =~= Seq::empty());
    while i < parts.len()
        invariant
            i <= parts@.len(),
            out@ == joined(texts(parts@).take(i as int), sep@),
        decreases parts@.len() - i,
    {
        if i > 0 {
            append_chars(&mut out, sep);
        }
        append_chars(&mut out, parts[i].as_slice());
        proof {
            let now = texts(parts@).take(i + 1);
            assert(now.drop_last() =~= texts(parts@).take(i as int));
            assert(now.last() == parts@[i as int]@);
            if i == 0 {
                assert(out@ =~= now[0]);
            }
        }
        i += 1;
    }
    assert(texts(parts@).take(i as int) =~= texts(parts@));
    out
}



/// A copy of a list of texts.
pub fn copy_texts(list: &Vec<Vec<char>>) -> (r: Vec<Vec<char>>)
    ensures
        texts(r@) == texts(list@),
{
    let mut out: Vec<Vec<char>> = Vec::new();
    let mut i: usize = 0;
    while i < list.len()
        invariant
            i <= list@.len(),
            texts(out@) =~= texts(list@).take(i as int),
        decreases list@.len() - i,
    {
        let item = &list[i];
        let ghost before = texts(out@);
        out.push(copy_chars(item.as_slice()));
        assert(texts(out@) =~= before.push(item@));
        i += 1;
    }
    assert(texts(list@).take(i as int) =~= texts(list@));
    out
}

/// Whether two lists hold the same texts in the same order.
pub fn same_texts(a: &Vec<Vec<char>>, b: &Vec<Vec<char>>) -> (r: bool)
    ensures
        r == (texts(a@) == texts(b@)),
{
    if a.len() != b.len() {
        assert(texts(a@).len() != texts(b@).len());
        return false;
    }
    let mut i: usize = 0;
    while i < a.len()
        invariant
            i <= a@.len(),
            a@.len() == b@.len(),
            texts(a@).take(i as int) =~= texts(b@).take(i as int),
        decreases a@.len() - i,
    {
        if !same_chars(a[i].as_slice(), b[i].as_slice()) {
            assert(texts(a@)[i as int] != texts(b@)[i as int]);
            return false;
        }
        assert(texts(a@).take(i + 1) =~= texts(a@).take(i as int).push(texts(a@)[i as int]));
        assert(texts(b@).take(i + 1) =~= texts(b@).take(i as int).push(texts(b@)[i as int]));
        i += 1;
    }
    assert(texts(a@).take(i as int) =~= texts(a@));
    assert(texts(b@).take(i as int) =~= texts(b@));
    true
}

} // verus!
