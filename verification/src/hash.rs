//! Hashes and how they are written down.

use sha2::{Digest, Sha256};
use vstd::prelude::*;

verus! {

/// The SHA-256 hash of `data`, as `Sha256::digest` computes it.
pub uninterp spec fn sha256(data: Seq<u8>) -> Seq<u8>;

/// `sha2::Sha256::digest`: the hash of `data`, which is always as long.
#[verifier::external_body]
pub(crate) fn sha256_of(data: &[u8]) -> (r: Vec<u8>)
    ensures
        r@ == sha256(data@),
        r@.len() == 32,
{
    Sha256::digest(data).to_vec()
}

/// The lower-case hexadecimal digit for `n`.
pub open spec fn hex_digit(n: int) -> char {
    if n < 10 {
        ('0' as u32 + n) as char
    } else {
        ('a' as u32 + n - 10) as char
    }
}

/// `data` in hexadecimal: two digits for each byte, the higher first.
pub open spec fn hex_text(data: Seq<u8>) -> Seq<char> {
    Seq::new(
        2 * data.len(),
        |i: int| hex_digit(if i % 2 == 0 { data[i / 2] / 16 } else { data[i / 2] % 16 } as int),
    )
}

/// Whether `c` is a lower-case hexadecimal digit.
pub open spec fn is_hex_digit(c: char) -> bool {
    '0' <= c <= '9' || 'a' <= c <= 'f'
}

/// Hexadecimal text holds lower-case hexadecimal digits only, and says which bytes it
/// stands for.
pub proof fn law_hex_text(a: Seq<u8>, b: Seq<u8>)
    ensures
        hex_text(a).len() == 2 * a.len(),
        forall|i: int| 0 <= i < hex_text(a).len() ==> is_hex_digit(#[trigger] hex_text(a)[i]),
        hex_text(a) == hex_text(b) ==> a == b,
{
    if hex_text(a) == hex_text(b) {
        assert(hex_text(a).len() == hex_text(b).len());
        assert forall|k: int| 0 <= k < a.len() implies a[k] == b[k] by {
            assert(hex_text(a)[2 * k] == hex_text(b)[2 * k]);
            assert(hex_text(a)[2 * k + 1] == hex_text(b)[2 * k + 1]);
            lemma_hex_digit((a[k] / 16) as int, (b[k] / 16) as int);
            lemma_hex_digit((a[k] % 16) as int, (b[k] % 16) as int);
        }
        assert(a =~= b);
    }
    assert forall|i: int| 0 <= i < hex_text(a).len() implies is_hex_digit(
        #[trigger] hex_text(a)[i],
    ) by {
        let n = (if i % 2 == 0 { a[i / 2] / 16 } else { a[i / 2] % 16 }) as int;
        assert(hex_text(a)[i] == hex_digit(n));
        lemma_hex_digit(n, n);
    }
}

/// Each digit is one, and stands for one number.
proof fn lemma_hex_digit(m: int, n: int)
    requires
        0 <= m < 16,
        0 <= n < 16,
    ensures
        is_hex_digit(hex_digit(m)),
        hex_digit(m) == hex_digit(n) ==> m == n,
{
}

/// `hex::encode`: two lower-case digits for each byte, the higher first.
#[verifier::external_body]
pub(crate) fn hex_of(data: &[u8]) -> (r: String)
    ensures
        r@ == hex_text(data@),
{
    hex::encode(data)
}

} // verus!
