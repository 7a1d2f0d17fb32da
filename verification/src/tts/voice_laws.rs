//! What is read back of a voice that was written.

use super::vocab::{all_tokens, lemma_ids, symbols, tokens};
use super::voices::{
    entry_name, file_voice, has_header, header_end, header_start, is_npy, le_number, le_numbers,
    npy_numbers, stripped, style_row,
};
use crate::text::edit::occurs;
use vstd::prelude::*;
use vstd::utf8::{encode_utf8, encode_utf8_decode_utf8, encode_utf8_valid_utf8};

verus! {

// ------------------------------------------------------------------------------ numbers

/// The four bytes of a number, the lowest first.
pub open spec fn bytes_of(n: u32) -> Seq<u8> {
    seq![
        (n as int % 0x100) as u8,
        (n as int / 0x100 % 0x100) as u8,
        (n as int / 0x1_0000 % 0x100) as u8,
        (n as int / 0x100_0000) as u8,
    ]
}

/// The numbers `v` in bytes, one after the other.
pub open spec fn written(v: Seq<u32>) -> Seq<u8>
    decreases v.len(),
{
    if v.len() == 0 {
        Seq::empty()
    } else {
        written(v.drop_last()) + bytes_of(v.last())
    }
}

/// A number is what its bytes stand for.
proof fn lemma_number(n: u32)
    ensures
        le_number(bytes_of(n)) == n,
{
    let x = n as int;
    let a = x % 0x100;
    let b = x / 0x100 % 0x100;
    let c = x / 0x1_0000 % 0x100;
    let d = x / 0x100_0000;
    assert(x / 0x1_0000 == x / 0x100 / 0x100);
    assert(x / 0x100_0000 == x / 0x1_0000 / 0x100);
    assert(x == a + 0x100 * (x / 0x100));
    assert(x / 0x100 == b + 0x100 * (x / 0x1_0000));
    assert(x / 0x1_0000 == c + 0x100 * d);
    assert(0 <= d < 0x100);
    let s = bytes_of(n);
    assert(s[0] == a && s[1] == b && s[2] == c && s[3] == d);
}

/// Where the bytes of each number stand.
proof fn lemma_written(v: Seq<u32>, i: int)
    requires
        0 <= i < v.len(),
    ensures
        written(v).len() == 4 * v.len(),
        written(v).subrange(4 * i, 4 * i + 4) == bytes_of(v[i]),
    decreases v.len(),
{
    let init = v.drop_last();
    if init.len() > 0 {
        lemma_written(init, 0);
    }
    assert(written(init).len() == 4 * init.len());
    if i < init.len() {
        lemma_written(init, i);
        assert(init[i] == v[i]);
        assert(written(v).subrange(4 * i, 4 * i + 4) =~= written(init).subrange(4 * i, 4 * i + 4));
    } else {
        assert(written(v).subrange(4 * i, 4 * i + 4) =~= bytes_of(v[i]));
    }
}

/// Numbers that are written in bytes are read again.
pub proof fn law_numbers_are_read_again(v: Seq<u32>)
    ensures
        written(v).len() == 4 * v.len(),
        le_numbers(written(v)) == v,
{
    if v.len() > 0 {
        lemma_written(v, 0);
    }
    let r = le_numbers(written(v));
    assert forall|i: int| 0 <= i < v.len() implies #[trigger] r[i] == v[i] by {
        lemma_written(v, i);
        lemma_number(v[i]);
    }
    assert(r =~= v);
}

/// The numbers of a `.npy` file are read again, in each of the three versions: behind the
/// bytes that every such file begins with stand the version, the length of the header, the
/// header and the numbers. The header says that the numbers are 32-bit floats with the
/// lowest byte first, and does not say that they stand column by column.
pub proof fn law_npy_files_are_read_again(header: Seq<char>, v: Seq<u32>, major: u8, minor: u8)
    requires
        1 <= major <= 3,
        encode_utf8(header).len() <= if major == 1 {
            0xffff
        } else {
            0xffff_ffffint
        },
        occurs(header, "'<f4'"@),
        !occurs(header, "'fortran_order': True"@),
    ensures
        ({
            let n = encode_utf8(header).len() as u32;
            let len = if major == 1 {
                bytes_of(n).take(2)
            } else {
                bytes_of(n)
            };
            let file = seq![0x93u8, 0x4e, 0x55, 0x4d, 0x50, 0x59, major, minor] + len
                + encode_utf8(header) + written(v);
            &&& has_header(file)
            &&& npy_numbers(file) matches Ok(r) && r == v
        }),
{
    let text = encode_utf8(header);
    let n = text.len() as u32;
    let len = if major == 1 {
        bytes_of(n).take(2)
    } else {
        bytes_of(n)
    };
    let magic = seq![0x93u8, 0x4e, 0x55, 0x4d, 0x50, 0x59];
    let front = seq![0x93u8, 0x4e, 0x55, 0x4d, 0x50, 0x59, major, minor];
    let file = front + len + text + written(v);
    law_numbers_are_read_again(v);
    lemma_number(n);
    let s = bytes_of(n);
    assert(file[6] == major);
    assert(file.take(6) =~= magic);
    assert(file[8] == s[0] && file[9] == s[1]);
    if major == 1 {
        assert(n as int / 0x1_0000 == 0);
        assert(n as int / 0x100_0000 == 0);
        assert(s[2] == 0 && s[3] == 0);
    } else {
        assert(file[10] == s[2] && file[11] == s[3]);
    }
    assert(s[0] + s[1] * 0x100 + s[2] * 0x1_0000 + s[3] * 0x100_0000 == n) by {
        lemma_sum(n);
    }
    let a = header_start(file);
    let e = header_end(file);
    assert(e == a + text.len());
    assert(is_npy(file));
    assert(file.subrange(a, e) =~= text);
    assert(file.skip(e) =~= written(v));
    encode_utf8_valid_utf8(header);
    encode_utf8_decode_utf8(header);
}

/// The value of the bytes of a number.
proof fn lemma_sum(n: u32)
    ensures
        ({
            let s = bytes_of(n);
            s[0] + s[1] * 0x100 + s[2] * 0x1_0000 + s[3] * 0x100_0000 == n
        }),
{
    lemma_number(n);
    let x = n as int;
    assert(x / 0x1_0000 == x / 0x100 / 0x100);
    assert(x / 0x100_0000 == x / 0x1_0000 / 0x100);
    assert(0 <= x / 0x100_0000 < 0x100);
}

// ------------------------------------------------------------------------------- names

/// A file `name.bin` holds the voice `name`, and a file that does not end so holds none. A
/// voice that is listed for an entry of an archive is looked for in that entry.
pub proof fn law_voices_are_found_where_they_are_listed(name: Seq<char>, entry: Seq<char>)
    ensures
        name.len() > 0 ==> file_voice(name + ".bin"@) == Some(name),
        file_voice(entry) matches Some(v) ==> v + ".bin"@ == entry,
        stripped(name + ".npy"@, ".npy"@) == Some(name),
        stripped(entry, ".npy"@) matches Some(v) ==> entry_name(v) == entry,
{
    lemma_stripped(name, ".bin"@, entry);
    lemma_stripped(name, ".npy"@, entry);
}

/// What is taken off at the end is put on again.
proof fn lemma_stripped(name: Seq<char>, suffix: Seq<char>, entry: Seq<char>)
    ensures
        stripped(name + suffix, suffix) == Some(name),
        stripped(entry, suffix) matches Some(v) ==> v + suffix == entry,
{
    let s = name + suffix;
    assert(s.subrange(s.len() - suffix.len(), s.len() as int) =~= suffix);
    assert(s.take(s.len() - suffix.len()) =~= name);
    if suffix.is_suffix_of(entry) {
        let v = entry.take(entry.len() - suffix.len());
        assert(suffix == entry.subrange(entry.len() - suffix.len(), entry.len() as int));
        assert(v + suffix =~= entry);
    }
}

// ------------------------------------------------------------------------------- tokens

/// There are not too many symbols to be numbered.
proof fn lemma_symbols_len()
    ensures
        symbols().len() <= 1000,
{
    reveal_strlit("$");
    reveal_strlit(";:,.!?¡¿—…\"«»“” ");
    reveal_strlit("ABCDEFGHIJKLMNOPQRSTUVWXYZabcdefghijklmnopqrstuvwxyz");
    reveal_strlit(
        "ɑɐɒæɓʙβɔɕçɗɖðʤəɘɚɛɜɝɞɟʄɡɠɢʛɦɧħɥʜɨɪʝɭɬɫɮʟɱɯɰŋɳɲɴøɵɸθœɶʘɹɺɾɻʀʁɽʂʃʈʧʉʊʋⱱʌɣɤʍχʎʏʑʐʒʔʡʕʢǀǁǂǃˈˌːˑʼʴʰʱʲʷˠˤ˞↓↑→↗↘'̩'ᵻ",
    );
}

/// The token of a symbol is its place among the symbols, of two places the last, and what
/// is no symbol has no token. The tokens of a text are those of its characters, in order.
pub proof fn law_tokens_are_places(a: Seq<char>, c: char)
    ensures
        symbols().contains(c) ==> all_tokens(a.push(c)).len() == all_tokens(a).len() + 1 && {
            let k = all_tokens(a.push(c)).last() as int;
            &&& 0 <= k < symbols().len()
            &&& symbols()[k] == c
            &&& forall|j: int| k < j < symbols().len() ==> #[trigger] symbols()[j] != c
        },
        symbols().contains(c) ==> all_tokens(a.push(c)).drop_last() == all_tokens(a),
        !symbols().contains(c) ==> all_tokens(a.push(c)) == all_tokens(a),
{
    lemma_symbols_len();
    lemma_ids(symbols(), c);
    assert(a.push(c).drop_last() =~= a);
    assert(a.push(c).last() == c);
    if symbols().contains(c) {
        assert(all_tokens(a.push(c)).drop_last() =~= all_tokens(a));
    }
}

/// The model takes 510 tokens at most: those of a longer text are cut off behind that.
pub proof fn law_tokens_are_cut_off(s: Seq<char>)
    ensures
        tokens(s).len() <= 510,
        all_tokens(s).len() <= 510 ==> tokens(s) == all_tokens(s),
        all_tokens(s).len() > 510 ==> tokens(s).len() == 510,
        tokens(s).is_prefix_of(all_tokens(s)),
{
    assert(tokens(s) =~= all_tokens(s).subrange(0, tokens(s).len() as int));
}

/// Every number of tokens has its own row of the voice, up to the last of the 510 rows.
pub proof fn law_styles_go_by_length(n: int)
    requires
        0 <= n,
    ensures
        n <= 509 ==> style_row(n) == n,
        n > 509 ==> style_row(n) == 509,
{
}

} // verus!
