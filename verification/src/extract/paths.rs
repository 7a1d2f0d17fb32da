//! Paths within an archive, and names of files.

use crate::text::edit::{
    find, lemma_find, lemma_find_none, lemma_parts_one, parts, parts_from, split_at_char,
};
use crate::text::utf8::{decode_lossy, lossy};
use crate::text::{chars_of, join, lemma_rows_push, push_chars, rows, same_chars, string_of};
use vstd::prelude::*;
use vstd::utf8::encode_utf8;

verus! {

// --------------------------------------------------------------------- percent encoding

/// The value of a hexadecimal digit.
pub open spec fn hex_value(b: u8) -> Option<int> {
    if 0x30 <= b <= 0x39 {
        Some(b - 0x30)
    } else if 0x41 <= b <= 0x46 {
        Some(b - 0x41 + 10)
    } else if 0x61 <= b <= 0x66 {
        Some(b - 0x61 + 10)
    } else {
        None
    }
}

/// `b` from `i` on with a byte for each percent sign that two hexadecimal digits
/// follow; other percent signs stand for themselves.
pub open spec fn percent_decoded(b: Seq<u8>, i: int) -> Seq<u8>
    decreases b.len() - i,
{
    if 0 <= i < b.len() {
        if b[i] == 0x25 && i + 2 < b.len() && hex_value(b[i + 1]) is Some && hex_value(
            b[i + 2],
        ) is Some {
            seq![(hex_value(b[i + 1])->0 * 16 + hex_value(b[i + 2])->0) as u8] + percent_decoded(
                b,
                i + 3,
            )
        } else {
            seq![b[i]] + percent_decoded(b, i + 1)
        }
    } else {
        Seq::empty()
    }
}

/// `percent_encoding::percent_decode_str`: the bytes of `s`, with percent sequences
/// decoded.
#[verifier::external_body]
fn percent_bytes(s: &str) -> (r: Vec<u8>)
    ensures
        r@ == percent_decoded(encode_utf8(s@), 0),
{
    percent_encoding::percent_decode_str(s).collect()
}

/// `s` with percent sequences decoded.
pub open spec fn unescaped(s: Seq<char>) -> Seq<char> {
    lossy(percent_decoded(encode_utf8(s), 0))
}

/// Decodes the percent sequences of `s`.
pub fn percent_decode(s: &str) -> (r: String)
    ensures
        r@ == unescaped(s@),
{
    decode_lossy(percent_bytes(s).as_slice())
}

// ------------------------------------------------------------------------------- paths

/// Where the segments `v` of a path lead: empty ones and `.` stay where they are, and
/// `..` goes back one, if there is one.
pub open spec fn resolved(v: Seq<Seq<char>>) -> Seq<Seq<char>>
    decreases v.len(),
{
    if v.len() == 0 {
        Seq::empty()
    } else {
        let before = resolved(v.drop_last());
        let s = v.last();
        if s == ""@ || s == "."@ {
            before
        } else if s == ".."@ {
            if before.len() > 0 {
                before.drop_last()
            } else {
                before
            }
        } else {
            before.push(s)
        }
    }
}

/// The path `p` without detours.
pub open spec fn plain_path(p: Seq<char>) -> Seq<char> {
    join(resolved(parts(p, '/')), seq!['/'])
}

/// Joins `v`, with a slash between the parts.
fn join_slashed(v: &Vec<Vec<char>>) -> (r: Vec<char>)
    ensures
        r@ == join(rows(v@), seq!['/']),
{
    let mut out: Vec<char> = Vec::new();
    let mut k: usize = 0;
    while k < v.len()
        invariant
            0 <= k <= v@.len(),
            out@ =~= join(rows(v@).take(k as int), seq!['/']),
        decreases v@.len() - k,
    {
        let ghost next = rows(v@).take(k + 1);
        assert(next.drop_last() =~= rows(v@).take(k as int));
        assert(next.last() == v@[k as int]@);
        if k > 0 {
            out.push('/');
        }
        push_chars(&mut out, v[k].as_slice());
        k = k + 1;
    }
    assert(rows(v@).take(k as int) =~= rows(v@));
    out
}

/// Takes the detours out of the path `p`.
fn resolve(p: &[char]) -> (r: Vec<char>)
    ensures
        r@ == plain_path(p@),
{
    let segments: Vec<Vec<char>> = split_at_char(p, '/');
    let ghost all = parts(p@, '/');
    let mut out: Vec<Vec<char>> = Vec::new();
    let mut i: usize = 0;
    while i < segments.len()
        invariant
            0 <= i <= segments@.len(),
            rows(segments@) == all,
            rows(out@) =~= resolved(all.take(i as int)),
        decreases segments@.len() - i,
    {
        proof {
            reveal_strlit("");
            reveal_strlit(".");
            reveal_strlit("..");
            assert(all[i as int] == segments@[i as int]@);
            assert(all.take(i + 1).drop_last() =~= all.take(i as int));
            assert(all.take(i + 1).last() == all[i as int]);
        }
        let s: &[char] = segments[i].as_slice();
        if same_chars(s, chars_of("").as_slice()) || same_chars(s, chars_of(".").as_slice()) {
        } else if same_chars(s, chars_of("..").as_slice()) {
            let ghost before = out@;
            let _last: Option<Vec<char>> = out.pop();
            proof {
                if before.len() > 0 {
                    assert(rows(out@) =~= rows(before).drop_last());
                } else {
                    assert(rows(out@) =~= rows(before));
                }
            }
        } else {
            let mut part: Vec<char> = Vec::new();
            push_chars(&mut part, s);
            proof {
                lemma_rows_push(out@, part);
                assert(part@ =~= s@);
            }
            out.push(part);
        }
        i = i + 1;
    }
    assert(all.take(i as int) =~= all);
    join_slashed(&out)
}

/// Takes the detours out of the path `p`, without a look at any file.
pub fn normalize_path(p: &str) -> (r: String)
    ensures
        r@ == plain_path(p@),
{
    string_of(resolve(chars_of(p).as_slice()).as_slice())
}

/// Where the last `c` in `s[..e]` stands, or -1.
pub open spec fn last_at(s: Seq<char>, c: char, e: int) -> int
    decreases e,
{
    if e <= 0 {
        -1
    } else if s[e - 1] == c {
        e - 1
    } else {
        last_at(s, c, e - 1)
    }
}

/// What `p` has up to its last slash, the slash with it.
pub open spec fn folder(p: Seq<char>) -> Seq<char> {
    p.take(last_at(p, '/', p.len() as int) + 1)
}

/// Where what `last_at` finds ends: behind it, or at the start.
fn behind_last(s: &[char], c: char) -> (r: usize)
    ensures
        r == last_at(s@, c, s@.len() as int) + 1,
        r <= s@.len(),
        r > 0 ==> s@[r - 1] == c,
{
    let mut e: usize = s.len();
    while e > 0 && s[e - 1] != c
        invariant
            0 <= e <= s@.len(),
            last_at(s@, c, e as int) == last_at(s@, c, s@.len() as int),
        decreases e,
    {
        e = e - 1;
    }
    e
}

/// What `p` has up to its last slash, the slash with it.
pub(crate) fn folder_of(p: &[char]) -> (r: Vec<char>)
    ensures
        r@ == folder(p@),
{
    let e: usize = behind_last(p, '/');
    let mut out: Vec<char> = Vec::new();
    push_chars(&mut out, &p[0..e]);
    assert(out@ =~= folder(p@));
    out
}

// ------------------------------------------------------------------------------- stems

/// The segments that name something: neither empty nor `.`.
pub open spec fn naming(v: Seq<Seq<char>>) -> Seq<Seq<char>>
    decreases v.len(),
{
    if v.len() == 0 {
        Seq::empty()
    } else if v.last() == ""@ || v.last() == "."@ {
        naming(v.drop_last())
    } else {
        naming(v.drop_last()).push(v.last())
    }
}

/// The last segment of the path `p` that names something, unless it is `..`.
pub open spec fn file_name(p: Seq<char>) -> Option<Seq<char>> {
    let v = naming(parts(p, '/'));
    if v.len() == 0 || v.last() == ".."@ {
        None
    } else {
        Some(v.last())
    }
}

/// `name` without its extension: up to the last dot, unless it begins with that dot.
pub open spec fn stem(name: Seq<char>) -> Seq<char> {
    let i = last_at(name, '.', name.len() as int);
    if i <= 0 {
        name
    } else {
        name.take(i)
    }
}

/// The name of the file at `p` without its extension.
pub fn file_stem(p: &str) -> (r: Option<String>)
    ensures
        r is Some <==> file_name(p@) is Some,
        r matches Some(s) ==> s@ == stem(file_name(p@)->0),
{
    let segments: Vec<Vec<char>> = split_at_char(chars_of(p).as_slice(), '/');
    let ghost all = parts(p@, '/');
    let mut k: usize = segments.len();
    proof {
        reveal_strlit("");
        reveal_strlit(".");
        reveal_strlit("..");
        assert(all.take(k as int) =~= all);
    }
    while k > 0 && (same_chars(segments[k - 1].as_slice(), chars_of("").as_slice()) || same_chars(
        segments[k - 1].as_slice(),
        chars_of(".").as_slice(),
    ))
        invariant
            0 <= k <= segments@.len(),
            rows(segments@) == all,
            naming(all.take(k as int)) == naming(all),
        decreases k,
    {
        assert(all.take(k as int).drop_last() =~= all.take(k - 1));
        assert(all.take(k as int).last() == segments@[k - 1]@);
        k = k - 1;
    }
    if k == 0 {
        return None;
    }
    proof {
        assert(all.take(k as int).drop_last() =~= all.take(k - 1));
        assert(all.take(k as int).last() == segments@[k - 1]@);
    }
    let name: &[char] = segments[k - 1].as_slice();
    if same_chars(name, chars_of("..").as_slice()) {
        return None;
    }
    let e: usize = behind_last(name, '.');
    if e <= 1 {
        Some(string_of(name))
    } else {
        assert(name@.subrange(0, e - 1) =~= name@.take(e - 1));
        Some(string_of(&name[0..e - 1]))
    }
}

// ------------------------------------------------------------------------------- laws

/// Where the first `c` stands does not depend on what comes behind it.
proof fn lemma_find_before(s: Seq<char>, c: char, w: Seq<char>, i: int)
    requires
        0 <= i <= s.len(),
    ensures
        find(s + seq![c] + w, c, i) == find(s, c, i),
    decreases s.len() - i,
{
    let t = s + seq![c] + w;
    if i < s.len() {
        assert(t[i] == s[i]);
        lemma_find_before(s, c, w, i + 1);
    } else {
        assert(t[i] == c);
    }
}

/// One more part behind a separator.
proof fn lemma_parts_append(s: Seq<char>, c: char, w: Seq<char>, i: int)
    requires
        0 <= i <= s.len(),
        !w.contains(c),
    ensures
        parts_from(s + seq![c] + w, c, i) == parts_from(s, c, i).push(w),
    decreases s.len() - i,
{
    let t = s + seq![c] + w;
    lemma_find_before(s, c, w, i);
    lemma_find(s, c, i);
    let e = find(s, c, i);
    if e < s.len() {
        lemma_parts_append(s, c, w, e + 1);
        assert(t.subrange(i, e) =~= s.subrange(i, e));
        assert(seq![s.subrange(i, e)] + parts_from(s, c, e + 1).push(w) =~= (seq![s.subrange(i, e)]
            + parts_from(s, c, e + 1)).push(w));
    } else {
        let n = s.len() + 1int;
        assert forall|k: int| n <= k < t.len() implies #[trigger] t[k] != c by {
            assert(t[k] == w[k - n]);
        }
        lemma_find_none(t, c, n);
        assert(t.subrange(n, t.len() as int) =~= w);
        assert(t.subrange(i, e) =~= s.subrange(i, s.len() as int));
        assert(parts_from(t, c, n) =~= seq![w]);
        assert(parts_from(t, c, i) =~= seq![s.subrange(i, s.len() as int)].push(w));
    }
}

/// Parts that are joined by a separator can be told apart again.
pub proof fn lemma_parts_of_join(v: Seq<Seq<char>>, c: char)
    requires
        v.len() > 0,
        forall|k: int| 0 <= k < v.len() ==> !(#[trigger] v[k]).contains(c),
    ensures
        parts(join(v, seq![c]), c) == v,
    decreases v.len(),
{
    if v.len() == 1 {
        lemma_parts_one(v[0], c);
        assert(v =~= seq![v[0]]);
    } else {
        let init = v.drop_last();
        assert forall|k: int| 0 <= k < init.len() implies !(#[trigger] init[k]).contains(c) by {
            assert(init[k] == v[k]);
        }
        lemma_parts_of_join(init, c);
        assert(!v[v.len() - 1].contains(c));
        lemma_parts_append(join(init, seq![c]), c, v.last(), 0);
        assert(v =~= init.push(v.last()));
    }
}

/// No part holds the separator.
pub proof fn lemma_parts_lack(s: Seq<char>, c: char, i: int)
    requires
        0 <= i <= s.len(),
    ensures
        forall|k: int|
            0 <= k < parts_from(s, c, i).len() ==> !(#[trigger] parts_from(s, c, i)[k]).contains(c),
    decreases s.len() - i,
{
    lemma_find(s, c, i);
    let e = find(s, c, i);
    let all = parts_from(s, c, i);
    let first = s.subrange(i, e);
    assert(!first.contains(c)) by {
        if first.contains(c) {
            let k = choose|k: int| 0 <= k < first.len() && first[k] == c;
            assert(s[i + k] == c);
        }
    }
    if e < s.len() {
        lemma_parts_lack(s, c, e + 1);
        assert forall|k: int| 0 <= k < all.len() implies !(#[trigger] all[k]).contains(c) by {
            if k > 0 {
                assert(all[k] == parts_from(s, c, e + 1)[k - 1]);
            }
        }
    }
}

/// Whether `s` goes somewhere: it is neither empty nor `.` nor `..`.
pub open spec fn goes_down(s: Seq<char>) -> bool {
    s != ""@ && s != "."@ && s != ".."@
}

/// Resolved segments all go somewhere, and each is one of the path's.
proof fn lemma_resolved(v: Seq<Seq<char>>)
    ensures
        forall|k: int|
            0 <= k < resolved(v).len() ==> goes_down(#[trigger] resolved(v)[k]) && v.contains(
                resolved(v)[k],
            ),
    decreases v.len(),
{
    if v.len() > 0 {
        let init = v.drop_last();
        lemma_resolved(init);
        let all = resolved(v);
        assert forall|k: int| 0 <= k < all.len() implies goes_down(#[trigger] all[k]) && v.contains(
            all[k],
        ) by {
            if k < resolved(init).len() {
                assert(all[k] == resolved(init)[k]);
                let j = choose|j: int| 0 <= j < init.len() && init[j] == all[k];
                assert(v[j] == all[k]);
            } else {
                assert(all[k] == v[v.len() - 1]);
            }
        }
    }
}

/// Segments that all go somewhere stay as they are.
pub proof fn lemma_resolved_same(v: Seq<Seq<char>>)
    requires
        forall|k: int| 0 <= k < v.len() ==> goes_down(#[trigger] v[k]),
    ensures
        resolved(v) == v,
    decreases v.len(),
{
    if v.len() > 0 {
        let init = v.drop_last();
        assert forall|k: int| 0 <= k < init.len() implies goes_down(#[trigger] init[k]) by {
            assert(init[k] == v[k]);
        }
        lemma_resolved_same(init);
        assert(goes_down(v[v.len() - 1]));
        assert(v =~= init.push(v.last()));
    } else {
        assert(resolved(v) =~= v);
    }
}

/// A path without detours has only segments that go somewhere, so that it stays below
/// where it starts, and it is not changed by taking the detours out again.
pub proof fn law_plain_path(p: Seq<char>)
    ensures
        plain_path(plain_path(p)) == plain_path(p),
        forall|k: int|
            0 <= k < resolved(parts(p, '/')).len() ==> goes_down(
                #[trigger] resolved(parts(p, '/'))[k],
            ),
        resolved(parts(p, '/')).len() > 0 ==> parts(plain_path(p), '/') == resolved(parts(p, '/')),
{
    let v = parts(p, '/');
    let r = resolved(v);
    lemma_resolved(v);
    lemma_parts_lack(p, '/', 0);
    if r.len() > 0 {
        assert forall|k: int| 0 <= k < r.len() implies !(#[trigger] r[k]).contains('/') by {
            let j = choose|j: int| 0 <= j < v.len() && v[j] == r[k];
            assert(!v[j].contains('/'));
        }
        lemma_parts_of_join(r, '/');
        lemma_resolved_same(r);
    } else {
        reveal_strlit("");
        assert(join(r, seq!['/']) =~= ""@);
        lemma_parts_one(""@, '/');
        let one = seq![""@];
        assert(one.drop_last() =~= Seq::empty());
        assert(resolved(one.drop_last()) =~= Seq::empty());
        assert(resolved(one) =~= r);
    }
}

} // verus!
