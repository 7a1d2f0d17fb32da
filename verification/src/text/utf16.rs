//! Lengths and offsets in UTF-16 code units, the units in which a browser slices
//! a string.

use vstd::prelude::*;
use vstd::utf8::*;

verus! {

/// How many UTF-16 code units `c` takes.
pub open spec fn width16(c: char) -> nat {
    if c as u32 > 0xffff {
        2
    } else {
        1
    }
}

/// How many UTF-16 code units `s` takes.
pub open spec fn len16(s: Seq<char>) -> nat
    decreases s.len(),
{
    if s.len() == 0 {
        0
    } else {
        len16(s.drop_last()) + width16(s.last())
    }
}

/// The UTF-16 code units of `c`: the code point itself, or a surrogate pair.
pub open spec fn units_of(c: char) -> Seq<u16> {
    let v = (c as u32) as int;
    if v > 0xffff {
        seq![
            (0xd800 + (v - 0x10000) / 0x400) as u16,
            (0xdc00 + (v - 0x10000) % 0x400) as u16,
        ]
    } else {
        seq![v as u16]
    }
}

/// The UTF-16 code units of `s`.
pub open spec fn units(s: Seq<char>) -> Seq<u16>
    decreases s.len(),
{
    if s.len() == 0 {
        Seq::empty()
    } else {
        units(s.drop_last()) + units_of(s.last())
    }
}

/// [`len16`] is the number of [`units`].
pub proof fn lemma_units_len(s: Seq<char>)
    ensures
        units(s).len() == len16(s),
    decreases s.len(),
{
    if s.len() > 0 {
        lemma_units_len(s.drop_last());
    }
}

/// The code units of two texts, one after the other.
pub proof fn lemma_units_add(a: Seq<char>, b: Seq<char>)
    ensures
        units(a + b) == units(a) + units(b),
        len16(a + b) == len16(a) + len16(b),
    decreases b.len(),
{
    if b.len() == 0 {
        assert(a + b =~= a);
        assert(units(a) + units(b) =~= units(a));
    } else {
        lemma_units_add(a, b.drop_last());
        assert((a + b).drop_last() =~= a + b.drop_last());
        assert((a + b).last() == b.last());
        assert(units(a + b) =~= units(a) + units(b));
    }
}

/// Cutting a text at character positions cuts its code units at the [`len16`] of
/// what precedes them.
pub proof fn lemma_units_subrange(s: Seq<char>, a: int, b: int)
    requires
        0 <= a <= b <= s.len(),
    ensures
        len16(s.take(b)) == len16(s.take(a)) + len16(s.subrange(a, b)),
        len16(s.take(b)) <= len16(s),
        units(s).subrange(len16(s.take(a)) as int, len16(s.take(b)) as int) == units(
            s.subrange(a, b),
        ),
{
    lemma_units_add(s.take(a), s.subrange(a, b));
    assert(s.take(a) + s.subrange(a, b) =~= s.take(b));
    lemma_units_add(s.take(b), s.skip(b));
    assert(s.take(b) + s.skip(b) =~= s);
    lemma_units_len(s.take(a));
    lemma_units_len(s.take(b));
    lemma_units_len(s);
    lemma_units_len(s.subrange(a, b));
    assert(units(s).subrange(len16(s.take(a)) as int, len16(s.take(b)) as int) =~= units(
        s.subrange(a, b),
    ));
}

/// A text takes no more UTF-16 units than UTF-8 bytes.
pub proof fn lemma_len16_bytes(s: Seq<char>)
    ensures
        s.len() <= len16(s) <= encode_utf8(s).len(),
    decreases s.len(),
{
    if s.len() > 0 {
        let head = seq![s[0]];
        let tail = s.drop_first();
        lemma_len16_bytes(tail);
        lemma_units_add(head, tail);
        assert(head + tail =~= s);
        reveal_with_fuel(len16, 2);
        assert(head.drop_last() =~= Seq::empty());
        assert(encode_utf8(s) =~= encode_scalar(s[0] as u32) + encode_utf8(tail));
    }
}

/// How many UTF-16 code units `c` takes.
pub fn char_width16(c: char) -> (r: usize)
    ensures
        r == width16(c),
{
    if c as u32 > 0xffff {
        2
    } else {
        1
    }
}

/// Bounds the UTF-16 length of `s`: its bytes are in memory.
pub fn fits16(s: &str)
    ensures
        len16(s@) <= usize::MAX,
{
    let n: usize = s.as_bytes().len();
    proof {
        lemma_len16_bytes(s@);
        assert(encode_utf8(s@).len() == n);
    }
}

/// How many UTF-16 code units `s[a..b]` takes.
pub fn count16(s: &[char], a: usize, b: usize) -> (r: usize)
    requires
        a <= b <= s@.len(),
        len16(s@) <= usize::MAX,
    ensures
        r == len16(s@.subrange(a as int, b as int)),
        r + len16(s@.take(a as int)) == len16(s@.take(b as int)),
        len16(s@.take(b as int)) <= len16(s@),
{
    let mut n: usize = 0;
    let mut i: usize = a;
    proof {
        lemma_units_subrange(s@, a as int, a as int);
    }
    while i < b
        invariant
            a <= i <= b <= s@.len(),
            len16(s@) <= usize::MAX,
            n == len16(s@.subrange(a as int, i as int)),
        decreases b - i,
    {
        proof {
            let next = s@.subrange(a as int, i + 1);
            assert(next.drop_last() =~= s@.subrange(a as int, i as int));
            assert(next.last() == s@[i as int]);
            lemma_units_subrange(s@, a as int, i + 1);
        }
        n = n + char_width16(s[i]);
        i = i + 1;
    }
    proof {
        lemma_units_subrange(s@, a as int, b as int);
    }
    n
}

} // verus!
