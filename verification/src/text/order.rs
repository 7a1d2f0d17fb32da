//! The order of strings: by code point, which is the order of their UTF-8 bytes.

use crate::text::{chars_of, strs};
use vstd::prelude::*;

verus! {

/// Whether `a` comes before `b` from `i` on, or is the same there.
pub open spec fn le_from(a: Seq<char>, b: Seq<char>, i: int) -> bool
    decreases a.len() - i,
{
    if i < 0 || i >= a.len() {
        true
    } else if i >= b.len() {
        false
    } else if a[i] != b[i] {
        a[i] < b[i]
    } else {
        le_from(a, b, i + 1)
    }
}

/// Whether `a` comes before `b`, or is the same.
pub open spec fn le(a: Seq<char>, b: Seq<char>) -> bool {
    le_from(a, b, 0)
}

/// Whether the strings `v` stand in order.
pub open spec fn sorted(v: Seq<Seq<char>>) -> bool {
    forall|i: int, j: int| 0 <= i < j < v.len() ==> le(#[trigger] v[i], #[trigger] v[j])
}

/// Of two strings one comes before the other.
proof fn lemma_total(a: Seq<char>, b: Seq<char>, i: int)
    requires
        0 <= i,
    ensures
        le_from(a, b, i) || le_from(b, a, i),
    decreases a.len() - i,
{
    if i < a.len() && i < b.len() && a[i] == b[i] {
        lemma_total(a, b, i + 1);
    }
}

/// What comes before a string comes before what that string comes before.
proof fn lemma_transitive(a: Seq<char>, b: Seq<char>, c: Seq<char>, i: int)
    requires
        0 <= i,
        le_from(a, b, i),
        le_from(b, c, i),
    ensures
        le_from(a, c, i),
    decreases a.len() - i,
{
    if i < a.len() && i < b.len() && i < c.len() && a[i] == b[i] && b[i] == c[i] {
        lemma_transitive(a, b, c, i + 1);
    }
}

/// Decides [`le`].
fn at_most(a: &[char], b: &[char]) -> (r: bool)
    ensures
        r == le(a@, b@),
{
    let mut i: usize = 0;
    while i < a.len()
        invariant
            0 <= i <= a@.len(),
            le_from(a@, b@, i as int) == le(a@, b@),
        decreases a@.len() - i,
    {
        if i >= b.len() {
            return false;
        }
        if a[i] != b[i] {
            return a[i] < b[i];
        }
        i = i + 1;
    }
    true
}

/// Puts `x` in its place among the sorted strings `v`.
fn insert_sorted(v: &mut Vec<String>, x: String)
    requires
        sorted(strs(old(v)@)),
    ensures
        sorted(strs(final(v)@)),
        strs(final(v)@).to_multiset() == strs(old(v)@).to_multiset().insert(x@),
{
    let xs: Vec<char> = chars_of(x.as_str());
    let ghost before = strs(v@);
    let mut i: usize = 0;
    while i < v.len() && at_most(chars_of(v[i].as_str()).as_slice(), xs.as_slice())
        invariant
            0 <= i <= v@.len(),
            xs@ == x@,
            before == strs(v@),
            forall|k: int| 0 <= k < i ==> le(#[trigger] before[k], x@),
        decreases v@.len() - i,
    {
        assert(before[i as int] == v@[i as int]@);
        i = i + 1;
    }
    proof {
        if i < v@.len() {
            assert(before[i as int] == v@[i as int]@);
            lemma_total(before[i as int], x@, 0);
        }
    }
    v.insert(i, x);
    let ghost after = strs(v@);
    proof {
        assert(after =~= before.insert(i as int, x@));
        before.insert_ensures(i as int, x@);
        assert(after.to_multiset() =~= before.to_multiset().insert(x@)) by {
            broadcast use vstd::seq_lib::group_to_multiset_ensures;

        }
        assert forall|a: int, b: int| 0 <= a < b < after.len() implies le(
            #[trigger] after[a],
            #[trigger] after[b],
        ) by {
            if b < i {
                assert(after[a] == before[a] && after[b] == before[b]);
            } else if b == i {
                assert(after[a] == before[a]);
            } else {
                assert(after[b] == before[b - 1]);
                if b - 1 > i {
                    assert(le(before[i as int], before[b - 1]));
                    lemma_transitive(x@, before[i as int], before[b - 1], 0);
                }
                if a < i {
                    assert(after[a] == before[a]);
                } else if a > i {
                    assert(after[a] == before[a - 1]);
                }
            }
        }
    }
}

/// The strings `v` in order.
pub fn sort(v: Vec<String>) -> (r: Vec<String>)
    ensures
        sorted(strs(r@)),
        strs(r@).to_multiset() == strs(v@).to_multiset(),
{
    let mut out: Vec<String> = Vec::new();
    let mut i: usize = 0;
    assert(strs(out@) =~= strs(v@).take(0));
    while i < v.len()
        invariant
            0 <= i <= v@.len(),
            sorted(strs(out@)),
            strs(out@).to_multiset() =~= strs(v@).take(i as int).to_multiset(),
        decreases v@.len() - i,
    {
        proof {
            let next = strs(v@).take(i + 1);
            assert(next =~= strs(v@).take(i as int).push(v@[i as int]@));
            broadcast use vstd::seq_lib::group_to_multiset_ensures;

        }
        insert_sorted(&mut out, v[i].clone());
        i = i + 1;
    }
    assert(strs(v@).take(i as int) =~= strs(v@));
    out
}

} // verus!
