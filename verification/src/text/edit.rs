//! Replacing, splitting, lower-casing and rendering numbers.

use super::{begins_with, lemma_rows_push, push_chars, rows, same_chars};
use vstd::prelude::*;

verus! {

// -------------------------------------------------------------------------- replacing

/// `s` with every occurrence of `pat` replaced by `with`, found from left to right.
pub open spec fn replace(s: Seq<char>, pat: Seq<char>, with: Seq<char>) -> Seq<char>
    decreases s.len(),
{
    if pat.len() == 0 || s.len() < pat.len() {
        s
    } else if pat.is_prefix_of(s) {
        with + replace(s.skip(pat.len() as int), pat, with)
    } else {
        seq![s[0]] + replace(s.skip(1), pat, with)
    }
}

/// Replaces every occurrence of `pat` in `s` by `with`.
pub fn replace_all(s: &[char], pat: &[char], with: &[char]) -> (r: Vec<char>)
    requires
        pat@.len() > 0,
    ensures
        r@ == replace(s@, pat@, with@),
{
    let mut out: Vec<char> = Vec::new();
    let mut i: usize = 0;
    assert(s@.skip(0) =~= s@);
    while i < s.len() && s.len() - i >= pat.len()
        invariant
            0 <= i <= s@.len(),
            pat@.len() > 0,
            out@ + replace(s@.skip(i as int), pat@, with@) =~= replace(s@, pat@, with@),
        decreases s@.len() - i,
    {
        let ghost rest = s@.skip(i as int);
        if begins_with(&s[i..s.len()], pat) {
            assert(s@.subrange(i as int, s@.len() as int) =~= rest);
            push_chars(&mut out, with);
            i = i + pat.len();
            assert(rest.skip(pat@.len() as int) =~= s@.skip(i as int));
        } else {
            assert(s@.subrange(i as int, s@.len() as int) =~= rest);
            out.push(s[i]);
            i = i + 1;
            assert(rest.skip(1) =~= s@.skip(i as int));
        }
    }
    push_chars(&mut out, &s[i..s.len()]);
    assert(s@.subrange(i as int, s@.len() as int) =~= s@.skip(i as int));
    out
}

/// Whether `pat` occurs in `s`.
pub open spec fn occurs(s: Seq<char>, pat: Seq<char>) -> bool {
    exists|i: int|
        0 <= i && i + pat.len() <= s.len() && #[trigger] s.subrange(i, i + pat.len()) == pat
}

/// Decides [`occurs`].
pub fn contains_text(s: &[char], pat: &[char]) -> (r: bool)
    ensures
        r == occurs(s@, pat@),
{
    let mut i: usize = 0;
    while pat.len() <= s.len() - i
        invariant
            0 <= i <= s@.len(),
            forall|k: int|
                0 <= k < i && k + pat@.len() <= s@.len() ==> #[trigger] s@.subrange(
                    k,
                    k + pat@.len(),
                ) != pat@,
        decreases s@.len() - i,
    {
        if same_chars(&s[i..i + pat.len()], pat) {
            assert(s@.subrange(i as int, i + pat@.len()) == pat@);
            return true;
        }
        assert(pat@.len() > 0) by {
            assert(pat@.len() == 0 ==> s@.subrange(i as int, i as int) =~= pat@);
        }
        i = i + 1;
    }
    false
}

// -------------------------------------------------------------------------- splitting

/// The first index at or after `i` at which `s` holds `c`; its length if there is none.
pub open spec fn find(s: Seq<char>, c: char, i: int) -> int
    decreases s.len() - i,
{
    if 0 <= i < s.len() && s[i] != c {
        find(s, c, i + 1)
    } else {
        i
    }
}

/// What [`find`] is.
pub proof fn lemma_find(s: Seq<char>, c: char, i: int)
    requires
        0 <= i <= s.len(),
    ensures
        i <= find(s, c, i) <= s.len(),
        forall|k: int| i <= k < find(s, c, i) ==> #[trigger] s[k] != c,
        find(s, c, i) < s.len() ==> s[find(s, c, i)] == c,
    decreases s.len() - i,
{
    if i < s.len() && s[i] != c {
        lemma_find(s, c, i + 1);
    }
}

/// Finds the first `c` in `s` at or after `i`.
pub fn find_char(s: &[char], c: char, i: usize) -> (r: usize)
    requires
        i <= s@.len(),
    ensures
        r == find(s@, c, i as int),
        i <= r <= s@.len(),
        r < s@.len() ==> s@[r as int] == c,
{
    let mut k: usize = i;
    while k < s.len() && s[k] != c
        invariant
            i <= k <= s@.len(),
            find(s@, c, k as int) == find(s@, c, i as int),
        decreases s@.len() - k,
    {
        k = k + 1;
    }
    k
}

/// The parts of `s` from `i` on that `c` separates; there is always at least one.
pub open spec fn parts_from(s: Seq<char>, c: char, i: int) -> Seq<Seq<char>>
    decreases s.len() - i,
{
    if 0 <= i <= s.len() {
        let e = find(s, c, i);
        if e < s.len() {
            proof {
                lemma_find(s, c, i);
            }
            seq![s.subrange(i, e)] + parts_from(s, c, e + 1)
        } else {
            seq![s.subrange(i, s.len() as int)]
        }
    } else {
        Seq::empty()
    }
}

/// The parts of `s` that `c` separates.
pub open spec fn parts(s: Seq<char>, c: char) -> Seq<Seq<char>> {
    parts_from(s, c, 0)
}

/// There is nothing to find where there is none.
pub proof fn lemma_find_none(s: Seq<char>, c: char, i: int)
    requires
        0 <= i <= s.len(),
        forall|k: int| i <= k < s.len() ==> #[trigger] s[k] != c,
    ensures
        find(s, c, i) == s.len(),
{
    lemma_find(s, c, i);
}

/// A text without the separator is one part.
pub proof fn lemma_parts_one(w: Seq<char>, c: char)
    requires
        !w.contains(c),
    ensures
        parts(w, c) == seq![w],
{
    assert forall|k: int| 0 <= k < w.len() implies #[trigger] w[k] != c by {}
    lemma_find_none(w, c, 0);
    assert(w.subrange(0, w.len() as int) =~= w);
}

/// Splits `s` at every `c`.
pub fn split_at_char(s: &[char], c: char) -> (r: Vec<Vec<char>>)
    ensures
        rows(r@) == parts(s@, c),
{
    let mut out: Vec<Vec<char>> = Vec::new();
    let mut i: usize = 0;
    let mut e: usize = find_char(s, c, 0);
    while e < s.len()
        invariant
            0 <= i <= e <= s@.len(),
            e == find(s@, c, i as int),
            rows(out@) + parts_from(s@, c, i as int) =~= parts(s@, c),
        decreases s@.len() - i,
    {
        let mut part: Vec<char> = Vec::new();
        push_chars(&mut part, &s[i..e]);
        proof {
            lemma_rows_push(out@, part);
            assert(part@ =~= s@.subrange(i as int, e as int));
        }
        out.push(part);
        i = e + 1;
        e = find_char(s, c, i);
    }
    let mut part: Vec<char> = Vec::new();
    push_chars(&mut part, &s[i..s.len()]);
    proof {
        lemma_rows_push(out@, part);
        assert(part@ =~= s@.subrange(i as int, s@.len() as int));
    }
    out.push(part);
    out
}

/// `s` without a trailing carriage return.
pub open spec fn without_cr(s: Seq<char>) -> Seq<char> {
    if s.len() > 0 && s.last() == '\r' {
        s.drop_last()
    } else {
        s
    }
}

/// The lines of `s` from `i` on. A line ends with a line feed, which a carriage
/// return may precede; the end of the last line may be missing.
pub open spec fn lines_from(s: Seq<char>, i: int) -> Seq<Seq<char>>
    decreases s.len() - i,
{
    if 0 <= i < s.len() {
        let e = find(s, '\n', i);
        if e < s.len() {
            proof {
                lemma_find(s, '\n', i);
            }
            seq![without_cr(s.subrange(i, e))] + lines_from(s, e + 1)
        } else {
            seq![s.subrange(i, s.len() as int)]
        }
    } else {
        Seq::empty()
    }
}

/// The lines of `s`.
pub open spec fn lines(s: Seq<char>) -> Seq<Seq<char>> {
    lines_from(s, 0)
}

/// Splits `s` into its lines.
pub fn split_lines(s: &[char]) -> (r: Vec<Vec<char>>)
    ensures
        rows(r@) == lines(s@),
{
    let mut out: Vec<Vec<char>> = Vec::new();
    let mut i: usize = 0;
    while i < s.len()
        invariant
            0 <= i <= s@.len(),
            rows(out@) + lines_from(s@, i as int) =~= lines(s@),
        decreases s@.len() - i,
    {
        let e: usize = find_char(s, '\n', i);
        let mut stop: usize = e;
        if e < s.len() && e > i && s[e - 1] == '\r' {
            stop = e - 1;
        }
        let mut line: Vec<char> = Vec::new();
        push_chars(&mut line, &s[i..stop]);
        proof {
            lemma_rows_push(out@, line);
            let whole = s@.subrange(i as int, e as int);
            if e < s@.len() {
                assert(line@ =~= without_cr(whole));
            } else {
                assert(line@ =~= whole);
            }
        }
        out.push(line);
        if e < s.len() {
            i = e + 1;
        } else {
            i = e;
        }
    }
    out
}

// ------------------------------------------------------------------- case and numbers

/// `c` in lower case, if it is an ASCII letter.
pub open spec fn lower(c: char) -> char {
    if 'A' <= c <= 'Z' {
        ((c as u32 + 32) as u32) as char
    } else {
        c
    }
}

/// `s` with its ASCII letters in lower case.
pub open spec fn lowercase(s: Seq<char>) -> Seq<char> {
    Seq::new(s.len(), |i: int| lower(s[i]))
}

/// Lower-cases an ASCII letter.
pub fn char_lower(c: char) -> (r: char)
    ensures
        r == lower(c),
{
    if 'A' <= c && c <= 'Z' {
        let v: u8 = c as u8 + 32;
        v as char
    } else {
        c
    }
}

/// Lower-cases the ASCII letters of `s`.
pub fn ascii_lowercase(s: &[char]) -> (r: Vec<char>)
    ensures
        r@ == lowercase(s@),
{
    let mut out: Vec<char> = Vec::new();
    let mut i: usize = 0;
    while i < s.len()
        invariant
            0 <= i <= s@.len(),
            out@ =~= lowercase(s@).take(i as int),
        decreases s@.len() - i,
    {
        out.push(char_lower(s[i]));
        i = i + 1;
    }
    out
}

/// The digit of `d`, which is less than ten.
pub open spec fn digit(d: nat) -> char {
    (('0' as u32 + d) as u32) as char
}

/// `n` in decimal.
pub open spec fn decimal(n: nat) -> Seq<char>
    decreases n,
{
    if n < 10 {
        seq![digit(n)]
    } else {
        decimal(n / 10).push(digit(n % 10))
    }
}

/// Renders `n` in decimal.
pub fn decimal_of(n: u64) -> (r: Vec<char>)
    ensures
        r@ == decimal(n as nat),
    decreases n,
{
    let d: u8 = 48u8 + (n % 10) as u8;
    if n < 10 {
        let mut out: Vec<char> = Vec::new();
        out.push(d as char);
        assert(out@ =~= seq![digit(n as nat)]);
        out
    } else {
        let mut out: Vec<char> = decimal_of(n / 10);
        out.push(d as char);
        out
    }
}

} // verus!
