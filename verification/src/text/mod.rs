//! Text as a sequence of characters: the string operations that the rest of the
//! library is stated over.

pub mod edit;
pub mod laws;
pub mod order;
pub mod utf16;
pub mod utf8;

use vstd::prelude::*;

verus! {

// ------------------------------------------------------------ strings and characters

/// `String::push` appends one character.
pub assume_specification[ String::push ](s: &mut String, c: char)
    ensures
        final(s)@ == old(s)@.push(c),
;

/// The contents of a list of strings.
pub open spec fn strs(v: Seq<String>) -> Seq<Seq<char>> {
    Seq::new(v.len(), |i: int| v[i]@)
}

/// The contents of a list of character vectors.
pub open spec fn rows(v: Seq<Vec<char>>) -> Seq<Seq<char>> {
    Seq::new(v.len(), |i: int| v[i]@)
}

/// Appending a string appends its contents.
pub proof fn lemma_strs_push(v: Seq<String>, x: String)
    ensures
        strs(v.push(x)) == strs(v).push(x@),
{
    assert(strs(v.push(x)) =~= strs(v).push(x@));
}

/// Appending a row appends its contents.
pub proof fn lemma_rows_push(v: Seq<Vec<char>>, x: Vec<char>)
    ensures
        rows(v.push(x)) == rows(v).push(x@),
{
    assert(rows(v.push(x)) =~= rows(v).push(x@));
}

/// The characters of `s`.
pub fn chars_of(s: &str) -> (r: Vec<char>)
    ensures
        r@ == s@,
{
    let mut out: Vec<char> = Vec::new();
    for c in it: s.chars()
        invariant
            out@ =~= s@.take(it.index() as int),
            it.seq() == s@,
    {
        out.push(c);
    }
    out
}

/// The string made of the characters `cs`.
pub fn string_of(cs: &[char]) -> (r: String)
    ensures
        r@ == cs@,
{
    let mut out = String::new();
    let mut i: usize = 0;
    while i < cs.len()
        invariant
            0 <= i <= cs@.len(),
            out@ =~= cs@.take(i as int),
        decreases cs@.len() - i,
    {
        out.push(cs[i]);
        i = i + 1;
    }
    out
}

/// Appends the characters `cs` to `out`.
pub fn push_chars(out: &mut Vec<char>, cs: &[char])
    ensures
        final(out)@ == old(out)@ + cs@,
{
    let mut i: usize = 0;
    while i < cs.len()
        invariant
            0 <= i <= cs@.len(),
            out@ =~= old(out)@ + cs@.take(i as int),
        decreases cs@.len() - i,
    {
        out.push(cs[i]);
        i = i + 1;
    }
}

/// The strings made of the rows `v`.
pub fn strings_of(v: &Vec<Vec<char>>) -> (r: Vec<String>)
    ensures
        strs(r@) == rows(v@),
{
    let mut out: Vec<String> = Vec::new();
    let mut i: usize = 0;
    while i < v.len()
        invariant
            0 <= i <= v@.len(),
            strs(out@) =~= rows(v@).take(i as int),
        decreases v@.len() - i,
    {
        let t: String = string_of(v[i].as_slice());
        proof {
            lemma_strs_push(out@, t);
        }
        out.push(t);
        i = i + 1;
    }
    out
}

/// Whether two slices hold the same characters.
pub fn same_chars(a: &[char], b: &[char]) -> (r: bool)
    ensures
        r == (a@ == b@),
{
    if a.len() != b.len() {
        return false;
    }
    let mut i: usize = 0;
    while i < a.len()
        invariant
            0 <= i <= a@.len(),
            a@.len() == b@.len(),
            a@.take(i as int) =~= b@.take(i as int),
        decreases a@.len() - i,
    {
        if a[i] != b[i] {
            assert(a@[i as int] != b@[i as int]);
            return false;
        }
        i = i + 1;
    }
    assert(a@ =~= a@.take(i as int));
    assert(b@ =~= b@.take(i as int));
    true
}

/// Whether two strings are equal.
pub fn same_text(a: &str, b: &str) -> (r: bool)
    ensures
        r == (a@ == b@),
{
    same_chars(chars_of(a).as_slice(), chars_of(b).as_slice())
}

/// Whether `s` holds no character.
pub fn is_empty(s: &str) -> (r: bool)
    ensures
        r == (s@.len() == 0),
{
    chars_of(s).len() == 0
}

/// Whether one of `list` equals `s`.
pub fn has_string(list: &[String], s: &str) -> (r: bool)
    ensures
        r == strs(list@).contains(s@),
{
    let mut i: usize = 0;
    while i < list.len()
        invariant
            0 <= i <= list@.len(),
            forall|k: int| 0 <= k < i ==> (#[trigger] list@[k])@ != s@,
        decreases list@.len() - i,
    {
        if same_text(list[i].as_str(), s) {
            assert(strs(list@)[i as int] == s@);
            return true;
        }
        i = i + 1;
    }
    assert forall|k: int| 0 <= k < list@.len() implies strs(list@)[k] != s@ by {
        assert(list@[k]@ != s@);
    }
    false
}

/// Whether `s` begins with `prefix`.
pub fn begins_with(s: &[char], prefix: &[char]) -> (r: bool)
    ensures
        r == prefix@.is_prefix_of(s@),
{
    s.len() >= prefix.len() && same_chars(&s[0..prefix.len()], prefix)
}

/// Whether `s` ends with `suffix`.
pub fn finishes_with(s: &[char], suffix: &[char]) -> (r: bool)
    ensures
        r == suffix@.is_suffix_of(s@),
{
    s.len() >= suffix.len() && same_chars(&s[s.len() - suffix.len()..s.len()], suffix)
}

/// Unicode's `White_Space` property.
pub open spec fn is_whitespace(c: char) -> bool {
    let v = c as u32;
    ||| 0x9 <= v <= 0xd
    ||| v == 0x20
    ||| v == 0x85
    ||| v == 0xa0
    ||| v == 0x1680
    ||| 0x2000 <= v <= 0x200a
    ||| v == 0x2028
    ||| v == 0x2029
    ||| v == 0x202f
    ||| v == 0x205f
    ||| v == 0x3000
}

/// Decides [`is_whitespace`].
pub fn char_is_whitespace(c: char) -> (r: bool)
    ensures
        r == is_whitespace(c),
{
    let v: u32 = c as u32;
    (0x9 <= v && v <= 0xd) || v == 0x20 || v == 0x85 || v == 0xa0 || v == 0x1680 || (0x2000 <= v
        && v <= 0x200a) || v == 0x2028 || v == 0x2029 || v == 0x202f || v == 0x205f || v == 0x3000
}

/// Unicode's general category `Cc`.
pub open spec fn is_control(c: char) -> bool {
    let v = c as u32;
    v <= 0x1f || 0x7f <= v <= 0x9f
}

/// Decides [`is_control`].
pub fn char_is_control(c: char) -> (r: bool)
    ensures
        r == is_control(c),
{
    let v: u32 = c as u32;
    v <= 0x1f || (0x7f <= v && v <= 0x9f)
}

/// What `char::is_alphanumeric` says of `c`.
pub uninterp spec fn unicode_alphanumeric(c: char) -> bool;

/// Whether `c` is a letter or a number: in ASCII the letters and the digits, and beyond
/// it what Unicode counts among them.
pub open spec fn alphanumeric(c: char) -> bool {
    if c as u32 <= 0x7f {
        '0' <= c <= '9' || 'A' <= c <= 'Z' || 'a' <= c <= 'z'
    } else {
        unicode_alphanumeric(c)
    }
}

/// `char::is_alphanumeric`: whether Unicode counts the character among the letters or
/// the numbers. In ASCII these are the letters and the digits.
pub assume_specification[ char::is_alphanumeric ](c: char) -> (r: bool)
    ensures
        r == unicode_alphanumeric(c),
        r == alphanumeric(c),
;

/// Whether every character is white space.
pub open spec fn blank(s: Seq<char>) -> bool {
    forall|i: int| 0 <= i < s.len() ==> is_whitespace(#[trigger] s[i])
}

/// `s` without its white space.
pub open spec fn solid(s: Seq<char>) -> Seq<char> {
    s.filter(|c: char| !is_whitespace(c))
}

/// White space can be left out part by part.
pub proof fn lemma_solid_add(a: Seq<char>, b: Seq<char>)
    ensures
        solid(a + b) == solid(a) + solid(b),
{
    Seq::filter_distributes_over_add(a, b, |c: char| !is_whitespace(c));
}

// ---------------------------------------------------------------------------- trimming

/// Where the white space that starts at `i` ends.
pub open spec fn ws_end(s: Seq<char>, i: int) -> int
    decreases s.len() - i,
{
    if 0 <= i < s.len() && is_whitespace(s[i]) {
        ws_end(s, i + 1)
    } else {
        i
    }
}

/// Where the word that starts at `i` ends.
pub open spec fn word_end(s: Seq<char>, i: int) -> int
    decreases s.len() - i,
{
    if 0 <= i < s.len() && !is_whitespace(s[i]) {
        word_end(s, i + 1)
    } else {
        i
    }
}

/// Where `s[..e]` ends once its trailing white space is gone.
pub open spec fn text_end(s: Seq<char>, e: int) -> int
    decreases e,
{
    if 0 < e <= s.len() && is_whitespace(s[e - 1]) {
        text_end(s, e - 1)
    } else {
        e
    }
}

/// `s` without leading white space.
pub open spec fn trim_start(s: Seq<char>) -> Seq<char> {
    s.skip(ws_end(s, 0))
}

/// `s` without trailing white space.
pub open spec fn trim_end(s: Seq<char>) -> Seq<char> {
    s.take(text_end(s, s.len() as int))
}

/// `s` without leading and trailing white space.
pub open spec fn trim(s: Seq<char>) -> Seq<char> {
    trim_end(trim_start(s))
}

/// What [`ws_end`] is.
pub proof fn lemma_ws_end(s: Seq<char>, i: int)
    requires
        0 <= i <= s.len(),
    ensures
        i <= ws_end(s, i) <= s.len(),
        forall|k: int| i <= k < ws_end(s, i) ==> is_whitespace(#[trigger] s[k]),
        ws_end(s, i) < s.len() ==> !is_whitespace(s[ws_end(s, i)]),
    decreases s.len() - i,
{
    if i < s.len() && is_whitespace(s[i]) {
        lemma_ws_end(s, i + 1);
    }
}

/// What [`word_end`] is.
pub proof fn lemma_word_end(s: Seq<char>, i: int)
    requires
        0 <= i <= s.len(),
    ensures
        i <= word_end(s, i) <= s.len(),
        forall|k: int| i <= k < word_end(s, i) ==> !is_whitespace(#[trigger] s[k]),
        word_end(s, i) < s.len() ==> is_whitespace(s[word_end(s, i)]),
    decreases s.len() - i,
{
    if i < s.len() && !is_whitespace(s[i]) {
        lemma_word_end(s, i + 1);
    }
}

/// What [`text_end`] is.
pub proof fn lemma_text_end(s: Seq<char>, e: int)
    requires
        0 <= e <= s.len(),
    ensures
        0 <= text_end(s, e) <= e,
        forall|k: int| text_end(s, e) <= k < e ==> is_whitespace(#[trigger] s[k]),
        text_end(s, e) > 0 ==> !is_whitespace(s[text_end(s, e) - 1]),
    decreases e,
{
    if 0 < e && is_whitespace(s[e - 1]) {
        lemma_text_end(s, e - 1);
    }
}

/// The first index at or after `i` that is not white space.
pub fn find_ws_end(s: &[char], i: usize) -> (r: usize)
    requires
        i <= s@.len(),
    ensures
        r == ws_end(s@, i as int),
        i <= r <= s@.len(),
{
    let mut k: usize = i;
    while k < s.len() && char_is_whitespace(s[k])
        invariant
            i <= k <= s@.len(),
            ws_end(s@, k as int) == ws_end(s@, i as int),
        decreases s@.len() - k,
    {
        k = k + 1;
    }
    k
}

/// The first index at or after `i` that is white space.
pub fn find_word_end(s: &[char], i: usize) -> (r: usize)
    requires
        i <= s@.len(),
    ensures
        r == word_end(s@, i as int),
        i <= r <= s@.len(),
{
    let mut k: usize = i;
    while k < s.len() && !char_is_whitespace(s[k])
        invariant
            i <= k <= s@.len(),
            word_end(s@, k as int) == word_end(s@, i as int),
        decreases s@.len() - k,
    {
        k = k + 1;
    }
    k
}

/// Where `s[..e]` ends once its trailing white space is gone.
pub fn find_text_end(s: &[char], e: usize) -> (r: usize)
    requires
        e <= s@.len(),
    ensures
        r == text_end(s@, e as int),
        r <= e,
{
    let mut k: usize = e;
    while k > 0 && char_is_whitespace(s[k - 1])
        invariant
            k <= e <= s@.len(),
            text_end(s@, k as int) == text_end(s@, e as int),
        decreases k,
    {
        k = k - 1;
    }
    k
}

/// The characters of `s` without leading and trailing white space.
pub fn trimmed<'a>(s: &'a [char]) -> (r: &'a [char])
    ensures
        r@ == trim(s@),
{
    let a: usize = find_ws_end(s, 0);
    let t: &'a [char] = &s[a..s.len()];
    let b: usize = find_text_end(t, t.len());
    assert(t@ == trim_start(s@));
    &t[0..b]
}

/// What trimming leaves: a part of `s` that white space surrounds, which neither
/// begins nor ends with white space, and which is empty exactly when `s` is blank.
pub proof fn lemma_trim(s: Seq<char>)
    ensures
        0 <= ws_end(s, 0) <= s.len(),
        ws_end(s, 0) + trim(s).len() <= s.len(),
        trim(s) == s.subrange(ws_end(s, 0), ws_end(s, 0) + trim(s).len()),
        blank(s.take(ws_end(s, 0))),
        blank(s.skip(ws_end(s, 0) + trim(s).len())),
        trim(s).len() > 0 ==> !is_whitespace(trim(s)[0]) && !is_whitespace(trim(s).last()),
        trim(s).len() == 0 <==> blank(s),
{
    lemma_ws_end(s, 0);
    let a = ws_end(s, 0);
    let t = trim_start(s);
    lemma_text_end(t, t.len() as int);
    let b = text_end(t, t.len() as int);
    assert(trim(s) =~= s.subrange(a, a + b));
    assert forall|k: int| 0 <= k < s.skip(a + b).len() implies is_whitespace(
        #[trigger] s.skip(a + b)[k],
    ) by {
        assert(s.skip(a + b)[k] == t[b + k]);
    }
    if b > 0 {
        assert(trim(s).last() == t[b - 1]);
        assert(trim(s)[0] == s[a]);
        assert(!blank(s));
    } else {
        assert forall|k: int| 0 <= k < s.len() implies is_whitespace(#[trigger] s[k]) by {
            if k >= a {
                assert(s[k] == t[k - a]);
            }
        }
    }
}

/// A text that neither begins nor ends with white space is not changed by trimming.
pub proof fn lemma_trim_same(s: Seq<char>)
    requires
        s.len() > 0,
        !is_whitespace(s[0]),
        !is_whitespace(s.last()),
    ensures
        trim(s) == s,
{
    assert(trim_start(s) =~= s);
    assert(trim_end(s) =~= s);
}

// ------------------------------------------------------------------------------- words

/// The words of `s` from `i` on, each as its start and its end: the longest runs
/// without white space.
pub open spec fn spans_from(s: Seq<char>, i: int) -> Seq<(int, int)>
    decreases s.len() - i,
{
    if 0 <= i < s.len() {
        if is_whitespace(s[i]) {
            spans_from(s, i + 1)
        } else {
            proof {
                lemma_word_end(s, i);
            }
            seq![(i, word_end(s, i))] + spans_from(s, word_end(s, i))
        }
    } else {
        Seq::empty()
    }
}

/// The words of `s`.
pub open spec fn words(s: Seq<char>) -> Seq<Seq<char>> {
    let spans = spans_from(s, 0);
    Seq::new(spans.len(), |k: int| s.subrange(spans[k].0, spans[k].1))
}

/// Every span is a longest run without white space, and the spans come in order.
pub proof fn lemma_spans(s: Seq<char>, i: int)
    requires
        0 <= i <= s.len(),
    ensures
        forall|k: int|
            0 <= k < spans_from(s, i).len() ==> {
                let w = #[trigger] spans_from(s, i)[k];
                &&& i <= w.0 < w.1 <= s.len()
                &&& w.1 == word_end(s, w.0)
                &&& w.1 < s.len() ==> is_whitespace(s[w.1])
                &&& w.0 > i ==> is_whitespace(s[w.0 - 1])
            },
        forall|k: int, l: int|
            0 <= k < l < spans_from(s, i).len() ==> (#[trigger] spans_from(s, i)[k]).1 < (
            #[trigger] spans_from(s, i)[l]).0,
    decreases s.len() - i,
{
    if i < s.len() {
        if is_whitespace(s[i]) {
            lemma_spans(s, i + 1);
            let all = spans_from(s, i);
            assert(all == spans_from(s, i + 1));
            assert forall|k: int| 0 <= k < all.len() implies {
                let w = #[trigger] all[k];
                &&& i <= w.0 < w.1 <= s.len()
                &&& w.1 == word_end(s, w.0)
                &&& w.1 < s.len() ==> is_whitespace(s[w.1])
                &&& w.0 > i ==> is_whitespace(s[w.0 - 1])
            } by {
                assert(all[k] == spans_from(s, i + 1)[k]);
            }
        } else {
            lemma_word_end(s, i);
            let e = word_end(s, i);
            lemma_spans(s, e);
            let rest = spans_from(s, e);
            let all = spans_from(s, i);
            assert(all =~= seq![(i, e)] + rest);
            assert forall|k: int| 0 <= k < all.len() implies {
                let w = #[trigger] all[k];
                &&& i <= w.0 < w.1 <= s.len()
                &&& w.1 == word_end(s, w.0)
                &&& w.1 < s.len() ==> is_whitespace(s[w.1])
                &&& w.0 > i ==> is_whitespace(s[w.0 - 1])
            } by {
                if k > 0 {
                    assert(all[k] == rest[k - 1]);
                    if rest[k - 1].0 == e {
                        assert(is_whitespace(s[e]));
                        lemma_word_end(s, e);
                    }
                }
            }
            assert forall|k: int, l: int| 0 <= k < l < all.len() implies (#[trigger] all[k]).1 < (
            #[trigger] all[l]).0 by {
                assert(all[l] == rest[l - 1]);
                if k > 0 {
                    assert(all[k] == rest[k - 1]);
                } else {
                    if rest[l - 1].0 == e {
                        lemma_word_end(s, e);
                    }
                }
            }
        }
    }
}

/// The spans of the words of `s`.
pub open spec fn spans_view(v: Seq<(usize, usize)>) -> Seq<(int, int)> {
    Seq::new(v.len(), |k: int| (v[k].0 as int, v[k].1 as int))
}

/// Finds the words of `s`.
pub fn word_spans(s: &[char]) -> (r: Vec<(usize, usize)>)
    ensures
        spans_view(r@) == spans_from(s@, 0),
        forall|k: int| 0 <= k < r@.len() ==> (#[trigger] r@[k]).0 < r@[k].1 <= s@.len(),
{
    let mut out: Vec<(usize, usize)> = Vec::new();
    let mut i: usize = 0;
    while i < s.len()
        invariant
            0 <= i <= s@.len(),
            spans_view(out@) + spans_from(s@, i as int) =~= spans_from(s@, 0),
            forall|k: int| 0 <= k < out@.len() ==> (#[trigger] out@[k]).0 < out@[k].1 <= s@.len(),
        decreases s@.len() - i,
    {
        if char_is_whitespace(s[i]) {
            i = i + 1;
        } else {
            let e: usize = find_word_end(s, i);
            proof {
                lemma_word_end(s@, i as int);
            }
            let ghost before = out@;
            out.push((i, e));
            assert(spans_view(out@) =~= spans_view(before).push((i as int, e as int)));
            assert(spans_from(s@, i as int) == seq![(i as int, e as int)] + spans_from(
                s@,
                e as int,
            ));
            i = e;
        }
    }
    out
}

/// Splits `s` into its words.
pub fn split_words(s: &[char]) -> (r: Vec<Vec<char>>)
    ensures
        rows(r@) == words(s@),
{
    let spans: Vec<(usize, usize)> = word_spans(s);
    let mut out: Vec<Vec<char>> = Vec::new();
    let mut k: usize = 0;
    while k < spans.len()
        invariant
            0 <= k <= spans@.len(),
            spans_view(spans@) == spans_from(s@, 0),
            forall|j: int| 0 <= j < spans@.len() ==> (#[trigger] spans@[j]).0 < spans@[j].1
                <= s@.len(),
            rows(out@) =~= words(s@).take(k as int),
        decreases spans@.len() - k,
    {
        let mut w: Vec<char> = Vec::new();
        let sp: (usize, usize) = spans[k];
        push_chars(&mut w, &s[sp.0..sp.1]);
        assert(spans_from(s@, 0)[k as int] == (sp.0 as int, sp.1 as int));
        assert(w@ =~= words(s@)[k as int]);
        proof {
            lemma_rows_push(out@, w);
        }
        out.push(w);
        k = k + 1;
    }
    out
}

/// The parts of `v`, one after the other.
pub open spec fn concat(v: Seq<Seq<char>>) -> Seq<char>
    decreases v.len(),
{
    if v.len() == 0 {
        Seq::empty()
    } else {
        concat(v.drop_last()) + v.last()
    }
}

/// Parts are put together part by part.
pub proof fn lemma_concat_add(a: Seq<Seq<char>>, b: Seq<Seq<char>>)
    ensures
        concat(a + b) == concat(a) + concat(b),
    decreases b.len(),
{
    if b.len() == 0 {
        assert(a + b =~= a);
        assert(concat(a) + concat(b) =~= concat(a));
    } else {
        lemma_concat_add(a, b.drop_last());
        assert((a + b).drop_last() =~= a + b.drop_last());
        assert(concat(a + b) =~= concat(a) + concat(b));
    }
}

/// One part in front of others.
pub proof fn lemma_concat_front(w: Seq<char>, v: Seq<Seq<char>>)
    ensures
        concat(seq![w] + v) == w + concat(v),
{
    lemma_concat_add(seq![w], v);
    let one = seq![w];
    assert(one.drop_last() =~= Seq::<Seq<char>>::empty());
    assert(concat(one.drop_last()) == Seq::<char>::empty());
    assert(concat(one) =~= w);
}

/// The parts of `v` with `sep` between them.
pub open spec fn join(v: Seq<Seq<char>>, sep: Seq<char>) -> Seq<char>
    decreases v.len(),
{
    if v.len() == 0 {
        Seq::empty()
    } else if v.len() == 1 {
        v[0]
    } else {
        join(v.drop_last(), sep) + sep + v.last()
    }
}

/// The words of `s` with one space between them.
pub open spec fn collapse(s: Seq<char>) -> Seq<char> {
    join(words(s), seq![' '])
}

/// Joins `v`, with one space between the parts.
pub fn join_spaced(v: &Vec<Vec<char>>) -> (r: Vec<char>)
    ensures
        r@ == join(rows(v@), seq![' ']),
{
    let mut out: Vec<char> = Vec::new();
    let mut k: usize = 0;
    while k < v.len()
        invariant
            0 <= k <= v@.len(),
            out@ =~= join(rows(v@).take(k as int), seq![' ']),
        decreases v@.len() - k,
    {
        let ghost next = rows(v@).take(k + 1);
        assert(next.drop_last() =~= rows(v@).take(k as int));
        assert(next.last() == v@[k as int]@);
        if k > 0 {
            out.push(' ');
        }
        push_chars(&mut out, v[k].as_slice());
        k = k + 1;
    }
    assert(rows(v@).take(k as int) =~= rows(v@));
    out
}

/// Joins `v`, with one space between the parts.
pub fn join_strings(v: &[String]) -> (r: Vec<char>)
    ensures
        r@ == join(strs(v@), seq![' ']),
{
    let mut out: Vec<char> = Vec::new();
    let mut k: usize = 0;
    while k < v.len()
        invariant
            0 <= k <= v@.len(),
            out@ =~= join(strs(v@).take(k as int), seq![' ']),
        decreases v@.len() - k,
    {
        let ghost next = strs(v@).take(k + 1);
        assert(next.drop_last() =~= strs(v@).take(k as int));
        assert(next.last() == v@[k as int]@);
        if k > 0 {
            out.push(' ');
        }
        push_chars(&mut out, chars_of(v[k].as_str()).as_slice());
        k = k + 1;
    }
    assert(strs(v@).take(k as int) =~= strs(v@));
    out
}

/// Reduces every run of white space in `s` to one space, and none at the ends.
pub fn collapse_spaces(s: &[char]) -> (r: Vec<char>)
    ensures
        r@ == collapse(s@),
{
    join_spaced(&split_words(s))
}

} // verus!
