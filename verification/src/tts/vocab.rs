//! The model's vocabulary: which token stands for which symbol.
//!
//! The ids are the model's embeddings, so the order of the symbols is fixed. The
//! apostrophe stands twice among them; its last place counts.

use crate::text::{chars_of, push_chars};
use std::collections::HashMap;
use vstd::prelude::*;
use vstd::std_specs::hash::*;

verus! {

/// The symbol of the pad token.
pub const PAD: &'static str = "$";

/// The symbols for punctuation, and the space.
pub const PUNCTUATION: &'static str = ";:,.!?¡¿—…\"«»“” ";

/// The symbols for plain letters.
pub const LETTERS: &'static str = "ABCDEFGHIJKLMNOPQRSTUVWXYZabcdefghijklmnopqrstuvwxyz";

/// The symbols of the phonetic alphabet.
pub const LETTERS_IPA: &'static str =
    "ɑɐɒæɓʙβɔɕçɗɖðʤəɘɚɛɜɝɞɟʄɡɠɢʛɦɧħɥʜɨɪʝɭɬɫɮʟɱɯɰŋɳɲɴøɵɸθœɶʘɹɺɾɻʀʁɽʂʃʈʧʉʊʋⱱʌɣɤʍχʎʏʑʐʒʔʡʕʢǀǁǂǃˈˌːˑʼʴʰʱʲʷˠˤ˞↓↑→↗↘'̩'ᵻ";

/// The most tokens that the model takes between the two pads.
pub const MAX_TOKENS: usize = 510;

/// The symbols in the order of their ids.
pub open spec fn symbols() -> Seq<char> {
    PAD@ + PUNCTUATION@ + LETTERS@ + LETTERS_IPA@
}

/// The id of each symbol of `s`, by code point: its place, and of two places the last.
pub open spec fn ids(s: Seq<char>) -> Map<u32, i64>
    decreases s.len(),
{
    if s.len() == 0 {
        Map::empty()
    } else {
        ids(s.drop_last()).insert(s.last() as u32, (s.len() - 1) as i64)
    }
}

/// The token ids of `s`, in order; what is no symbol has none.
pub open spec fn all_tokens(s: Seq<char>) -> Seq<i64>
    decreases s.len(),
{
    if s.len() == 0 {
        Seq::empty()
    } else {
        let init = all_tokens(s.drop_last());
        let v = s.last() as u32;
        if ids(symbols()).contains_key(v) {
            init.push(ids(symbols())[v])
        } else {
            init
        }
    }
}

/// The tokens that the model is given for the phonemes `s`.
pub open spec fn tokens(s: Seq<char>) -> Seq<i64> {
    let all = all_tokens(s);
    if all.len() <= MAX_TOKENS {
        all
    } else {
        all.take(MAX_TOKENS as int)
    }
}

/// The symbols in the order of their ids.
fn symbol_chars() -> (r: Vec<char>)
    ensures
        r@ == symbols(),
{
    let mut out: Vec<char> = chars_of(PAD);
    push_chars(&mut out, chars_of(PUNCTUATION).as_slice());
    push_chars(&mut out, chars_of(LETTERS).as_slice());
    push_chars(&mut out, chars_of(LETTERS_IPA).as_slice());
    out
}

/// The vocabulary: the token id of each symbol, by code point.
pub fn vocab() -> (r: HashMap<u32, i64>)
    ensures
        r@ == ids(symbols()),
{
    broadcast use group_hash_axioms;

    let symbols: Vec<char> = symbol_chars();
    let mut m: HashMap<u32, i64> = HashMap::new();
    let mut i: usize = 0;
    while i < symbols.len()
        invariant
            0 <= i <= symbols@.len(),
            m@ =~= ids(symbols@.take(i as int)),
        decreases symbols@.len() - i,
    {
        m.insert(symbols[i] as u32, i as i64);
        assert(symbols@.take(i + 1).drop_last() =~= symbols@.take(i as int));
        i = i + 1;
    }
    assert(symbols@.take(i as int) =~= symbols@);
    m
}

/// The token ids of `phonemes`: what is no symbol is left out, and what comes after
/// [`MAX_TOKENS`] is cut off. The pads are not among them.
pub fn tokenize(phonemes: &str) -> (r: Vec<i64>)
    ensures
        r@ == tokens(phonemes@),
        r@.len() <= MAX_TOKENS,
{
    broadcast use group_hash_axioms;

    let v: HashMap<u32, i64> = vocab();
    let cs: Vec<char> = chars_of(phonemes);
    let mut out: Vec<i64> = Vec::new();
    let mut i: usize = 0;
    while i < cs.len()
        invariant
            0 <= i <= cs@.len(),
            v@ == ids(symbols()),
            out@ =~= tokens(cs@.take(i as int)),
        decreases cs@.len() - i,
    {
        broadcast use group_hash_axioms;

        let c: u32 = cs[i] as u32;
        assert(cs@.take(i + 1).drop_last() =~= cs@.take(i as int));
        if let Some(id) = v.get(&c) {
            if out.len() < MAX_TOKENS {
                out.push(*id);
            }
        }
        i = i + 1;
    }
    assert(cs@.take(i as int) =~= cs@);
    out
}

/// The token ids of the punctuation and of the space.
pub fn punct_ids() -> (r: Vec<i64>)
    ensures
        r@ == tokens(PUNCTUATION@),
{
    tokenize(PUNCTUATION)
}

/// Different characters have different code points.
proof fn lemma_code_points_differ(a: char, b: char)
    requires
        a != b,
    ensures
        a as u32 != b as u32,
{
}

/// Exactly the symbols have an id, and the id is the symbol's last place.
pub proof fn lemma_ids(s: Seq<char>, c: char)
    requires
        s.len() <= i64::MAX,
    ensures
        ids(s).contains_key(c as u32) == s.contains(c),
        s.contains(c) ==> {
            let k = ids(s)[c as u32] as int;
            &&& 0 <= k < s.len()
            &&& s[k] == c
            &&& forall|j: int| k < j < s.len() ==> #[trigger] s[j] != c
        },
    decreases s.len(),
{
    if s.len() > 0 {
        let init = s.drop_last();
        lemma_ids(init, c);
        assert(s =~= init.push(s.last()));
        if s.last() == c {
            assert(s[s.len() - 1] == c);
        } else {
            lemma_code_points_differ(s.last(), c);
            if s.contains(c) {
                let j = choose|j: int| 0 <= j < s.len() && s[j] == c;
                assert(init[j] == c);
            }
            if init.contains(c) {
                let k = ids(init)[c as u32] as int;
                assert(s[k] == c);
                assert forall|j: int| k < j < s.len() implies #[trigger] s[j] != c by {
                    if j < s.len() - 1 {
                        assert(init[j] != c);
                    }
                }
            }
        }
    }
}

/// Tokens are made symbol by symbol: those of a text are those of its parts.
pub proof fn lemma_all_tokens_add(a: Seq<char>, b: Seq<char>)
    ensures
        all_tokens(a + b) == all_tokens(a) + all_tokens(b),
    decreases b.len(),
{
    if b.len() == 0 {
        assert(a + b =~= a);
        assert(all_tokens(a) + all_tokens(b) =~= all_tokens(a));
    } else {
        lemma_all_tokens_add(a, b.drop_last());
        assert((a + b).drop_last() =~= a + b.drop_last());
        assert(all_tokens(a + b) =~= all_tokens(a) + all_tokens(b));
    }
}

/// The id of the space.
pub open spec fn space_id() -> i64 {
    ids(symbols())[' ' as u32]
}

/// The space is a symbol, and its token is the last punctuation's.
pub proof fn lemma_space()
    ensures
        all_tokens(seq![' ']) == seq![space_id()],
        space_id() == PAD@.len() + PUNCTUATION@.len() - 1,
{
    reveal_strlit("$");
    reveal_strlit(";:,.!?¡¿—…\"«»“” ");
    reveal_strlit("ABCDEFGHIJKLMNOPQRSTUVWXYZabcdefghijklmnopqrstuvwxyz");
    reveal_strlit(
        "ɑɐɒæɓʙβɔɕçɗɖðʤəɘɚɛɜɝɞɟʄɡɠɢʛɦɧħɥʜɨɪʝɭɬɫɮʟɱɯɰŋɳɲɴøɵɸθœɶʘɹɺɾɻʀʁɽʂʃʈʧʉʊʋⱱʌɣɤʍχʎʏʑʐʒʔʡʕʢǀǁǂǃˈˌːˑʼʴʰʱʲʷˠˤ˞↓↑→↗↘'̩'ᵻ",
    );
    let s = symbols();
    assert(s[16] == ' ');
    assert(s.contains(' '));
    lemma_ids(s, ' ');
    assert forall|j: int| 16 < j < s.len() implies #[trigger] s[j] != ' ' by {}
    let one = seq![' '];
    assert(one.drop_last() =~= Seq::empty());
    assert(all_tokens(one.drop_last()) =~= Seq::empty());
    assert(one.last() == ' ');
    assert(all_tokens(one) =~= seq![space_id()]);
}

} // verus!
