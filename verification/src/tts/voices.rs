//! The styles of the voices.
//!
//! A voice is a table of [`STYLE_ROWS`] rows of [`STYLE_DIM`] numbers: the row for a
//! text is the one of its number of tokens. A voice comes as a file of bare numbers,
//! or as a `.npy` file in an archive. Numbers are handled here as the bits of a 32-bit
//! float.

use crate::archive::{
    archive_entry, archive_fault, archive_names, is_archive, list_names, names_view, open_archive,
    read_entry,
};
use crate::text::edit::{contains_text, decimal, decimal_of, occurs};
use crate::text::order::{sort, sorted};
use crate::text::utf8::{decode, utf8_fault};
use crate::text::{chars_of, finishes_with, lemma_strs_push, push_chars, string_of, strs};
use vstd::prelude::*;
use vstd::utf8::{decode_utf8, valid_utf8};

verus! {

/// How many numbers a row holds.
pub const STYLE_DIM: usize = 256;

/// How many rows a voice has.
pub const STYLE_ROWS: usize = 510;

/// How many numbers a voice holds.
pub const VOICE_LEN: usize = 130_560;

/// Why a voice cannot be used. Where something outside found the fault, what it says of it
/// is kept.
#[derive(Debug)]
pub enum VoiceError {
    /// The name holds something else than letters, digits and `_`.
    Name,
    /// The archive is none.
    Archive(String),
    /// The archive has no such voice.
    Missing,
    /// The voice is in the archive but cannot be read.
    Unreadable(String),
    /// The data is no `.npy` file.
    NotNpy,
    /// The file is of this version, which is not known.
    Version(u8),
    /// The header is not UTF-8.
    Header(String),
    /// The numbers are not 32-bit floats, says this header.
    NotF32(String),
    /// The numbers stand column by column.
    Fortran,
    /// The data ends within a number.
    Ragged,
    /// The voice holds this many numbers.
    Len(usize),
}

/// The contents of a [`VoiceError`].
pub enum VoiceErrorView {
    Name,
    Archive(Seq<char>),
    Missing,
    Unreadable(Seq<char>),
    NotNpy,
    Version(u8),
    Header(Seq<char>),
    NotF32(Seq<char>),
    Fortran,
    Ragged,
    Len(nat),
}

impl View for VoiceError {
    type V = VoiceErrorView;

    open spec fn view(&self) -> VoiceErrorView {
        match self {
            VoiceError::Name => VoiceErrorView::Name,
            VoiceError::Archive(e) => VoiceErrorView::Archive(e@),
            VoiceError::Missing => VoiceErrorView::Missing,
            VoiceError::Unreadable(e) => VoiceErrorView::Unreadable(e@),
            VoiceError::NotNpy => VoiceErrorView::NotNpy,
            VoiceError::Version(v) => VoiceErrorView::Version(*v),
            VoiceError::Header(e) => VoiceErrorView::Header(e@),
            VoiceError::NotF32(h) => VoiceErrorView::NotF32(h@),
            VoiceError::Fortran => VoiceErrorView::Fortran,
            VoiceError::Ragged => VoiceErrorView::Ragged,
            VoiceError::Len(n) => VoiceErrorView::Len(*n as nat),
        }
    }
}

/// What is told of an error with the voice `name`, which was looked for in `file`.
pub open spec fn voice_error_text(e: VoiceErrorView, name: Seq<char>, file: Seq<char>) -> Seq<char> {
    match e {
        VoiceErrorView::Name => "nome de voz inválido: "@ + name,
        VoiceErrorView::Archive(e) => e,
        VoiceErrorView::Missing => "voz "@ + name + " não existe em "@ + file,
        VoiceErrorView::Unreadable(e) => e,
        VoiceErrorView::NotNpy => "não é .npy"@,
        VoiceErrorView::Version(v) => "versão .npy "@ + decimal(v as nat) + " não suportada"@,
        VoiceErrorView::Header(e) => e,
        VoiceErrorView::NotF32(h) => ".npy não é float32 little-endian: "@ + h,
        VoiceErrorView::Fortran => ".npy em ordem Fortran não suportado"@,
        VoiceErrorView::Ragged => "tamanho não múltiplo de 4"@,
        VoiceErrorView::Len(n) => "voz "@ + name + ": esperava "@ + decimal(VOICE_LEN as nat)
            + " floats, veio "@ + decimal(n),
    }
}

impl VoiceError {
    /// What is told of the error with the voice `name`, which was looked for in `file`.
    pub fn message(&self, name: &str, file: &str) -> (r: String)
        ensures
            r@ == voice_error_text(self@, name@, file@),
    {
        let mut out: Vec<char> = Vec::new();
        match self {
            VoiceError::Name => {
                push_chars(&mut out, chars_of("nome de voz inválido: ").as_slice());
                push_chars(&mut out, chars_of(name).as_slice());
            },
            VoiceError::Archive(e) => push_chars(&mut out, chars_of(e.as_str()).as_slice()),
            VoiceError::Missing => {
                push_chars(&mut out, chars_of("voz ").as_slice());
                push_chars(&mut out, chars_of(name).as_slice());
                push_chars(&mut out, chars_of(" não existe em ").as_slice());
                push_chars(&mut out, chars_of(file).as_slice());
            },
            VoiceError::Unreadable(e) => push_chars(&mut out, chars_of(e.as_str()).as_slice()),
            VoiceError::NotNpy => push_chars(&mut out, chars_of("não é .npy").as_slice()),
            VoiceError::Version(v) => {
                push_chars(&mut out, chars_of("versão .npy ").as_slice());
                push_chars(&mut out, decimal_of(*v as u64).as_slice());
                push_chars(&mut out, chars_of(" não suportada").as_slice());
            },
            VoiceError::Header(e) => push_chars(&mut out, chars_of(e.as_str()).as_slice()),
            VoiceError::NotF32(h) => {
                push_chars(&mut out, chars_of(".npy não é float32 little-endian: ").as_slice());
                push_chars(&mut out, chars_of(h.as_str()).as_slice());
            },
            VoiceError::Fortran => push_chars(
                &mut out,
                chars_of(".npy em ordem Fortran não suportado").as_slice(),
            ),
            VoiceError::Ragged => push_chars(
                &mut out,
                chars_of("tamanho não múltiplo de 4").as_slice(),
            ),
            VoiceError::Len(n) => {
                push_chars(&mut out, chars_of("voz ").as_slice());
                push_chars(&mut out, chars_of(name).as_slice());
                push_chars(&mut out, chars_of(": esperava ").as_slice());
                push_chars(&mut out, decimal_of(VOICE_LEN as u64).as_slice());
                push_chars(&mut out, chars_of(" floats, veio ").as_slice());
                push_chars(&mut out, decimal_of(*n as u64).as_slice());
            },
        }
        assert(out@ =~= voice_error_text(self@, name@, file@));
        string_of(out.as_slice())
    }
}

// ------------------------------------------------------------------------------ styles

/// The row for a text of `n_tokens` tokens: its number, or the last.
pub open spec fn style_row(n_tokens: int) -> int {
    if n_tokens < STYLE_ROWS {
        n_tokens
    } else {
        STYLE_ROWS - 1
    }
}

/// The style that the voice `all` has for a text of `n_tokens` tokens.
pub fn style<T: Copy>(all: &[T], n_tokens: usize) -> (r: Vec<T>)
    requires
        all@.len() == STYLE_ROWS * STYLE_DIM,
    ensures
        r@ == all@.subrange(
            style_row(n_tokens as int) * STYLE_DIM,
            style_row(n_tokens as int) * STYLE_DIM + STYLE_DIM,
        ),
{
    let row: usize = if n_tokens < STYLE_ROWS {
        n_tokens
    } else {
        STYLE_ROWS - 1
    };
    let start: usize = row * STYLE_DIM;
    let mut out: Vec<T> = Vec::new();
    let mut i: usize = 0;
    while i < STYLE_DIM
        invariant
            0 <= i <= STYLE_DIM,
            start + STYLE_DIM <= all@.len(),
            start + STYLE_DIM <= usize::MAX,
            out@ =~= all@.subrange(start as int, start + i),
        decreases STYLE_DIM - i,
    {
        out.push(all[start + i]);
        i = i + 1;
    }
    out
}

/// Whether a voice holds `n` numbers.
pub fn check_len(n: usize) -> (r: Result<(), VoiceError>)
    ensures
        n == STYLE_ROWS * STYLE_DIM ==> r is Ok,
        n != STYLE_ROWS * STYLE_DIM ==> (r matches Err(VoiceError::Len(m)) && m == n),
{
    if n != VOICE_LEN {
        return Err(VoiceError::Len(n));
    }
    Ok(())
}

// ------------------------------------------------------------------------------- names

/// Whether `c` may stand in the name of a voice.
pub open spec fn is_name_char(c: char) -> bool {
    '0' <= c <= '9' || 'A' <= c <= 'Z' || 'a' <= c <= 'z' || c == '_'
}

/// Whether `name` can be the name of a voice.
pub open spec fn is_voice_name(name: Seq<char>) -> bool {
    forall|i: int| 0 <= i < name.len() ==> is_name_char(#[trigger] name[i])
}

/// Whether `name` can be the name of a voice: it holds letters, digits and `_` only.
fn valid_name(name: &str) -> (r: bool)
    ensures
        r == is_voice_name(name@),
{
    let cs: Vec<char> = chars_of(name);
    let mut i: usize = 0;
    while i < cs.len()
        invariant
            0 <= i <= cs@.len(),
            cs@ == name@,
            forall|k: int| 0 <= k < i ==> is_name_char(#[trigger] cs@[k]),
        decreases cs@.len() - i,
    {
        let c: char = cs[i];
        let ok: bool = ('0' <= c && c <= '9') || ('A' <= c && c <= 'Z') || ('a' <= c && c <= 'z')
            || c == '_';
        if !ok {
            assert(!is_name_char(name@[i as int]));
            return false;
        }
        i = i + 1;
    }
    true
}

/// Refuses a name that no voice can have.
pub fn check_name(name: &str) -> (r: Result<(), VoiceError>)
    ensures
        is_voice_name(name@) ==> r is Ok,
        !is_voice_name(name@) ==> r == Err::<(), VoiceError>(VoiceError::Name),
{
    if !valid_name(name) {
        return Err(VoiceError::Name);
    }
    Ok(())
}

/// `name` without `suffix`, where it ends so.
pub open spec fn stripped(name: Seq<char>, suffix: Seq<char>) -> Option<Seq<char>> {
    if suffix.is_suffix_of(name) {
        Some(name.take(name.len() - suffix.len()))
    } else {
        None
    }
}

/// The voice that a file of this name holds: what stands before `.bin`.
pub open spec fn file_voice(name: Seq<char>) -> Option<Seq<char>> {
    match stripped(name, ".bin"@) {
        Some(stem) => if stem.len() > 0 {
            Some(stem)
        } else {
            None
        },
        None => None,
    }
}

/// `name` without `suffix`, where it ends so.
fn strip(name: &str, suffix: &str) -> (r: Option<String>)
    ensures
        r is Some <==> stripped(name@, suffix@) is Some,
        r matches Some(s) ==> stripped(name@, suffix@) == Some(s@),
{
    let cs: Vec<char> = chars_of(name);
    let end: Vec<char> = chars_of(suffix);
    if finishes_with(cs.as_slice(), end.as_slice()) {
        let n: usize = cs.len() - end.len();
        assert(cs@.subrange(0, n as int) =~= cs@.take(n as int));
        Some(string_of(&cs.as_slice()[0..n]))
    } else {
        None
    }
}

/// The voices among `names`, as `of` says, in order.
pub open spec fn voices_among(
    names: Seq<Seq<char>>,
    of: spec_fn(Seq<char>) -> Option<Seq<char>>,
) -> Seq<Seq<char>>
    decreases names.len(),
{
    if names.len() == 0 {
        Seq::empty()
    } else {
        let init = voices_among(names.drop_last(), of);
        match of(names.last()) {
            Some(v) => init.push(v),
            None => init,
        }
    }
}

/// The names that could be decoded, in order.
pub open spec fn decoded(names: Seq<Option<Seq<char>>>) -> Seq<Seq<char>>
    decreases names.len(),
{
    if names.len() == 0 {
        Seq::empty()
    } else {
        let init = decoded(names.drop_last());
        match names.last() {
            Some(n) => init.push(n),
            None => init,
        }
    }
}

/// The voices in a directory with files of these names, sorted.
pub fn dir_voices(files: &[String]) -> (r: Vec<String>)
    ensures
        strs(r@).to_multiset() == voices_among(
            strs(files@),
            |n: Seq<char>| file_voice(n),
        ).to_multiset(),
        sorted(strs(r@)),
{
    let ghost of = |n: Seq<char>| file_voice(n);
    let mut out: Vec<String> = Vec::new();
    let mut i: usize = 0;
    while i < files.len()
        invariant
            0 <= i <= files@.len(),
            of == (|n: Seq<char>| file_voice(n)),
            strs(out@) =~= voices_among(strs(files@).take(i as int), of),
        decreases files@.len() - i,
    {
        let ghost next = strs(files@).take(i + 1);
        assert(next.drop_last() =~= strs(files@).take(i as int));
        assert(next.last() == files@[i as int]@);
        assert(of(next.last()) == file_voice(files@[i as int]@));
        if let Some(stem) = strip(files[i].as_str(), ".bin") {
            if !crate::text::is_empty(stem.as_str()) {
                proof {
                    lemma_strs_push(out@, stem);
                }
                out.push(stem);
            }
        }
        i = i + 1;
    }
    assert(strs(files@).take(i as int) =~= strs(files@));
    sort(out)
}

/// The voices in an archive with entries of these names, sorted. `None` stands for a name
/// that could not be decoded.
pub fn npz_voices(names: &[Option<String>]) -> (r: Vec<String>)
    ensures
        strs(r@).to_multiset() == voices_among(
            decoded(names_view(names@)),
            |n: Seq<char>| stripped(n, ".npy"@),
        ).to_multiset(),
        sorted(strs(r@)),
{
    let ghost of = |n: Seq<char>| stripped(n, ".npy"@);
    let ghost all = names_view(names@);
    let mut out: Vec<String> = Vec::new();
    let mut i: usize = 0;
    while i < names.len()
        invariant
            0 <= i <= names@.len(),
            of == (|n: Seq<char>| stripped(n, ".npy"@)),
            all == names_view(names@),
            strs(out@) =~= voices_among(decoded(all.take(i as int)), of),
        decreases names@.len() - i,
    {
        let ghost next = all.take(i + 1);
        assert(next.drop_last() =~= all.take(i as int));
        assert(next.last() == all[i as int]);
        if let Some(name) = &names[i] {
            let ghost before = decoded(all.take(i as int));
            assert(decoded(next) == before.push(name@));
            assert(before.push(name@).drop_last() =~= before);
            assert(of(name@) == stripped(name@, ".npy"@));
            if let Some(voice) = strip(name.as_str(), ".npy") {
                proof {
                    lemma_strs_push(out@, voice);
                }
                out.push(voice);
            }
        }
        i = i + 1;
    }
    assert(all.take(i as int) =~= all);
    sort(out)
}

/// The voices in an archive with these bytes, sorted.
pub fn archive_voices(bytes: &[u8]) -> (r: Result<Vec<String>, VoiceError>)
    ensures
        archive_fault(bytes@) matches Some(e) ==> (r matches Err(x) && x@
            == VoiceErrorView::Archive(e)),
        is_archive(bytes@) ==> r is Ok,
        r matches Ok(v) ==> strs(v@).to_multiset() == voices_among(
            decoded(archive_names(bytes@)),
            |n: Seq<char>| stripped(n, ".npy"@),
        ).to_multiset() && sorted(strs(v@)),
{
    match open_archive(bytes) {
        Ok(a) => Ok(npz_voices(list_names(&a).as_slice())),
        Err(e) => Err(VoiceError::Archive(e)),
    }
}

// ------------------------------------------------------------------------------- files

/// The number that four bytes stand for, the lowest first.
pub open spec fn le_number(b: Seq<u8>) -> u32 {
    (b[0] + b[1] * 0x100 + b[2] * 0x1_0000 + b[3] * 0x100_0000) as u32
}

/// The numbers that `bytes` hold, four bytes each.
pub open spec fn le_numbers(bytes: Seq<u8>) -> Seq<u32> {
    Seq::new(bytes.len() / 4, |i: int| le_number(bytes.subrange(4 * i, 4 * i + 4)))
}

/// The number that four bytes stand for, the lowest first.
fn number(a: u8, b: u8, c: u8, d: u8) -> (r: u32)
    ensures
        r == le_number(seq![a, b, c, d]),
        r == a + b * 0x100 + c * 0x1_0000 + d * 0x100_0000,
{
    a as u32 + b as u32 * 0x100 + c as u32 * 0x1_0000 + d as u32 * 0x100_0000
}

/// The numbers that `bytes` hold: as many as there are groups of four bytes, and none
/// may be left over.
pub fn raw_f32_le(bytes: &[u8]) -> (r: Result<Vec<u32>, VoiceError>)
    ensures
        bytes@.len() % 4 != 0 ==> r == Err::<Vec<u32>, VoiceError>(VoiceError::Ragged),
        bytes@.len() % 4 == 0 ==> (r matches Ok(v) && v@ == le_numbers(bytes@)),
{
    if bytes.len() % 4 != 0 {
        return Err(VoiceError::Ragged);
    }
    let total: usize = bytes.len();
    let n: usize = total / 4;
    let mut out: Vec<u32> = Vec::new();
    let mut i: usize = 0;
    while i < n
        invariant
            0 <= i <= n,
            4 * n == total,
            total == bytes@.len(),
            out@ =~= le_numbers(bytes@).take(i as int),
        decreases n - i,
    {
        let k: usize = 4 * i;
        out.push(number(bytes[k], bytes[k + 1], bytes[k + 2], bytes[k + 3]));
        proof {
            let four = seq![
                bytes@[k as int],
                bytes@[k + 1],
                bytes@[k + 2],
                bytes@[k + 3],
            ];
            assert(bytes@.subrange(4 * i as int, 4 * i + 4) =~= four);
        }
        i = i + 1;
    }
    Ok(out)
}

/// Whether `bytes` begin like a `.npy` file.
pub open spec fn is_npy(bytes: Seq<u8>) -> bool {
    bytes.len() >= 10 && bytes.take(6) == seq![0x93u8, 0x4e, 0x55, 0x4d, 0x50, 0x59]
}

/// Where the header of a `.npy` file starts.
pub open spec fn header_start(bytes: Seq<u8>) -> int {
    if bytes[6] == 1 {
        10
    } else {
        12
    }
}

/// Where the header of a `.npy` file ends, and the numbers start.
pub open spec fn header_end(bytes: Seq<u8>) -> int {
    if bytes[6] == 1 {
        10 + bytes[8] + bytes[9] * 0x100
    } else {
        12 + bytes[8] + bytes[9] * 0x100 + bytes[10] * 0x1_0000 + bytes[11] * 0x100_0000
    }
}

/// Whether a `.npy` file of a known version is long enough for its header.
pub open spec fn has_header(bytes: Seq<u8>) -> bool {
    is_npy(bytes) && 1 <= bytes[6] <= 3 ==> header_start(bytes) <= bytes.len() && header_end(bytes)
        <= bytes.len()
}

/// Whether `bytes` begin like a `.npy` file.
fn begins_npy(bytes: &[u8]) -> (r: bool)
    ensures
        r == is_npy(bytes@),
{
    let magic = seq_magic();
    if bytes.len() < 10 {
        return false;
    }
    let mut i: usize = 0;
    while i < 6
        invariant
            0 <= i <= 6,
            bytes@.len() >= 10,
            magic@ == seq![0x93u8, 0x4e, 0x55, 0x4d, 0x50, 0x59],
            bytes@.take(i as int) =~= magic@.take(i as int),
        decreases 6 - i,
    {
        if bytes[i] != magic[i] {
            assert(bytes@.take(6)[i as int] != magic@[i as int]);
            return false;
        }
        i = i + 1;
    }
    assert(magic@.take(6) =~= magic@);
    true
}

/// The bytes that a `.npy` file begins with.
fn seq_magic() -> (r: Vec<u8>)
    ensures
        r@ == seq![0x93u8, 0x4e, 0x55, 0x4d, 0x50, 0x59],
{
    vec![0x93, 0x4e, 0x55, 0x4d, 0x50, 0x59]
}

/// Whether a `.npy` file of a known version is long enough for its header.
pub fn header_fits(bytes: &[u8]) -> (r: bool)
    ensures
        r == has_header(bytes@),
{
    if !begins_npy(bytes) || bytes[6] == 0 || bytes[6] > 3 {
        return true;
    }
    let start: usize = if bytes[6] == 1 {
        10
    } else {
        12
    };
    if bytes.len() < start {
        return false;
    }
    let len: u32 = if bytes[6] == 1 {
        number(bytes[8], bytes[9], 0, 0)
    } else {
        number(bytes[8], bytes[9], bytes[10], bytes[11])
    };
    bytes.len() as u64 >= start as u64 + len as u64
}

/// The numbers of a `.npy` file, or the error that it is refused with.
pub open spec fn npy_numbers(bytes: Seq<u8>) -> Result<Seq<u32>, VoiceErrorView> {
    let header = bytes.subrange(header_start(bytes), header_end(bytes));
    if !is_npy(bytes) {
        Err(VoiceErrorView::NotNpy)
    } else if !(1 <= bytes[6] <= 3) {
        Err(VoiceErrorView::Version(bytes[6]))
    } else if !valid_utf8(header) {
        Err(VoiceErrorView::Header(utf8_fault(header)))
    } else if !occurs(decode_utf8(header), "'<f4'"@) {
        Err(VoiceErrorView::NotF32(decode_utf8(header)))
    } else if occurs(decode_utf8(header), "'fortran_order': True"@) {
        Err(VoiceErrorView::Fortran)
    } else if (bytes.len() - header_end(bytes)) % 4 != 0 {
        Err(VoiceErrorView::Ragged)
    } else {
        Ok(le_numbers(bytes.skip(header_end(bytes))))
    }
}

/// The contents of what reading numbers gives.
pub open spec fn numbers_view(r: Result<Vec<u32>, VoiceError>) -> Result<
    Seq<u32>,
    VoiceErrorView,
> {
    match r {
        Ok(v) => Ok(v@),
        Err(e) => Err(e@),
    }
}

/// Reads a `.npy` file of 32-bit floats, the lowest byte first and row by row. A file
/// that ends within its header is not for this function.
pub fn parse_npy_f32(bytes: &[u8]) -> (r: Result<Vec<u32>, VoiceError>)
    requires
        has_header(bytes@),
    ensures
        numbers_view(r) == npy_numbers(bytes@),
{
    if !begins_npy(bytes) {
        return Err(VoiceError::NotNpy);
    }
    let major: u8 = bytes[6];
    if major == 0 || major > 3 {
        return Err(VoiceError::Version(major));
    }
    let start: usize = if major == 1 {
        10
    } else {
        12
    };
    let len: u32 = if major == 1 {
        number(bytes[8], bytes[9], 0, 0)
    } else {
        number(bytes[8], bytes[9], bytes[10], bytes[11])
    };
    let total: usize = bytes.len();
    let end: usize = start + len as usize;
    let header: String = match decode(&bytes[start..end]) {
        Ok(h) => h,
        Err(e) => {
            return Err(VoiceError::Header(e));
        },
    };
    let cs: Vec<char> = chars_of(header.as_str());
    if !contains_text(cs.as_slice(), chars_of("'<f4'").as_slice()) {
        return Err(VoiceError::NotF32(header));
    }
    if contains_text(cs.as_slice(), chars_of("'fortran_order': True").as_slice()) {
        return Err(VoiceError::Fortran);
    }
    assert(bytes@.subrange(end as int, total as int) =~= bytes@.skip(end as int));
    raw_f32_le(&bytes[end..total])
}

/// The name of the entry that holds the voice `name`.
pub open spec fn entry_name(name: Seq<char>) -> Seq<char> {
    name + ".npy"@
}

/// The bytes of the voice `name` in an archive.
pub fn archive_voice(bytes: &[u8], name: &str) -> (r: Result<Vec<u8>, VoiceError>)
    ensures
        match archive_fault(bytes@) {
            Some(e) => r matches Err(x) && x@ == VoiceErrorView::Archive(e),
            None => match archive_entry(bytes@, entry_name(name@)) {
                Err(_) => r matches Err(x) && x@ == VoiceErrorView::Missing,
                Ok(Err(e)) => r matches Err(x) && x@ == VoiceErrorView::Unreadable(e),
                Ok(Ok(data)) => r matches Ok(v) && v@ == data,
            },
        },
{
    let mut a = match open_archive(bytes) {
        Ok(a) => a,
        Err(e) => {
            return Err(VoiceError::Archive(e));
        },
    };
    let mut entry: Vec<char> = chars_of(name);
    push_chars(&mut entry, chars_of(".npy").as_slice());
    match read_entry(&mut a, string_of(entry.as_slice()).as_str()) {
        Err(_) => Err(VoiceError::Missing),
        Ok(Err(e)) => Err(VoiceError::Unreadable(e)),
        Ok(Ok(v)) => Ok(v),
    }
}

/// The numbers of a voice that comes as a file of bare numbers.
pub fn bare_voice(bytes: &[u8]) -> (r: Result<Vec<u32>, VoiceError>)
    ensures
        bytes@.len() % 4 != 0 ==> r == Err::<Vec<u32>, VoiceError>(VoiceError::Ragged),
        bytes@.len() % 4 == 0 && bytes@.len() != 4 * STYLE_ROWS * STYLE_DIM ==> (r matches Err(
            VoiceError::Len(n),
        ) && n == bytes@.len() / 4),
        bytes@.len() == 4 * STYLE_ROWS * STYLE_DIM ==> (r matches Ok(v) && v@ == le_numbers(
            bytes@,
        )),
{
    let v: Vec<u32> = match raw_f32_le(bytes) {
        Ok(v) => v,
        Err(e) => {
            return Err(e);
        },
    };
    match check_len(v.len()) {
        Ok(_) => Ok(v),
        Err(e) => Err(e),
    }
}

/// The numbers of a voice that comes as a `.npy` file.
pub fn npy_voice(bytes: &[u8]) -> (r: Result<Vec<u32>, VoiceError>)
    requires
        has_header(bytes@),
    ensures
        match npy_numbers(bytes@) {
            Err(e) => numbers_view(r) == Err::<Seq<u32>, VoiceErrorView>(e),
            Ok(v) => numbers_view(r) == if v.len() == STYLE_ROWS * STYLE_DIM {
                Ok(v)
            } else {
                Err(VoiceErrorView::Len(v.len()))
            },
        },
{
    let v: Vec<u32> = match parse_npy_f32(bytes) {
        Ok(v) => v,
        Err(e) => {
            return Err(e);
        },
    };
    match check_len(v.len()) {
        Ok(_) => Ok(v),
        Err(e) => Err(e),
    }
}

} // verus!
