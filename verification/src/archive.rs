//! Reading zip archives that are held in memory.

use std::io::{Cursor, Read};
use vstd::prelude::*;
use vstd::utf8::{decode_utf8, valid_utf8};
use zip::ZipArchive;

verus! {

/// `zip::ZipArchive`, of which only the bytes that it was opened on are known here.
#[verifier::external_type_specification]
#[verifier::external_body]
#[verifier::reject_recursive_types(R)]
pub struct ExZipArchive<R>(ZipArchive<R>);

/// `std::io::Cursor`, through which an archive reads a slice.
#[verifier::external_type_specification]
#[verifier::external_body]
#[verifier::reject_recursive_types(T)]
pub struct ExCursor<T>(Cursor<T>);

/// What `ZipArchive::new` says against `bytes`, with the causes, or `None` where it takes
/// them for an archive.
pub uninterp spec fn archive_fault(bytes: Seq<u8>) -> Option<Seq<char>>;

/// The bytes that an archive was opened on.
pub uninterp spec fn archive_source(a: ZipArchive<Cursor<&[u8]>>) -> Seq<u8>;

/// What `ZipArchive::by_name` finds under `name` in the archive `bytes`: an entry, or
/// what it says against the name; and what `Read::read_to_end` reads of the entry: its
/// contents, or what it says against the entry.
pub uninterp spec fn archive_entry(bytes: Seq<u8>, name: Seq<char>) -> Result<
    Result<Seq<u8>, Seq<char>>,
    Seq<char>,
>;

/// What `Read::read_to_string` says against the entry `name` of the archive `bytes`, where
/// it is no text.
pub uninterp spec fn archive_text_fault(bytes: Seq<u8>, name: Seq<char>) -> Seq<char>;

/// The names that `ZipArchive::file_names` lists of the archive `bytes`, in order;
/// `None` for one that cannot be decoded.
pub uninterp spec fn archive_names(bytes: Seq<u8>) -> Seq<Option<Seq<char>>>;

/// Whether `bytes` are an archive.
pub open spec fn is_archive(bytes: Seq<u8>) -> bool {
    archive_fault(bytes) is None
}

/// The contents of an entry.
pub open spec fn entry_view(r: Result<Result<Vec<u8>, String>, String>) -> Result<
    Result<Seq<u8>, Seq<char>>,
    Seq<char>,
> {
    match r {
        Ok(Ok(v)) => Ok(Ok(v@)),
        Ok(Err(e)) => Ok(Err(e@)),
        Err(e) => Err(e@),
    }
}

/// The contents of an entry that is read as text.
pub open spec fn text_view(r: Result<Result<String, String>, String>) -> Result<
    Result<Seq<char>, Seq<char>>,
    Seq<char>,
> {
    match r {
        Ok(Ok(s)) => Ok(Ok(s@)),
        Ok(Err(e)) => Ok(Err(e@)),
        Err(e) => Err(e@),
    }
}

/// The contents of a list of names.
pub open spec fn names_view(v: Seq<Option<String>>) -> Seq<Option<Seq<char>>> {
    Seq::new(
        v.len(),
        |i: int|
            match v[i] {
                Some(s) => Some(s@),
                None => None,
            },
    )
}

/// `zip::ZipArchive::new`: opens `bytes`, where they are an archive. Otherwise comes what
/// it says, with the causes as `anyhow::Error` writes them.
#[verifier::external_body]
pub(crate) fn open_archive<'a>(bytes: &'a [u8]) -> (r: Result<ZipArchive<Cursor<&'a [u8]>>, String>)
    ensures
        r matches Ok(a) ==> archive_fault(bytes@) is None && archive_source(a) == bytes@,
        r matches Err(e) ==> archive_fault(bytes@) == Some(e@),
{
    ZipArchive::new(Cursor::new(bytes)).map_err(|e| format!("{:#}", anyhow::Error::new(e)))
}

/// `zip::ZipArchive::by_name`, and `Read::read_to_end` on what it finds. Reading one
/// entry leaves the others as they are. Where one of them fails comes what it says, with
/// the causes as `anyhow::Error` writes them.
#[verifier::external_body]
pub(crate) fn read_entry(a: &mut ZipArchive<Cursor<&[u8]>>, name: &str) -> (r: Result<
    Result<Vec<u8>, String>,
    String,
>)
    ensures
        entry_view(r) == archive_entry(archive_source(*old(a)), name@),
        archive_source(*final(a)) == archive_source(*old(a)),
{
    let mut entry = a.by_name(name).map_err(|e| format!("{:#}", anyhow::Error::new(e)))?;
    let mut out = Vec::new();
    let read = entry.read_to_end(&mut out);
    Ok(read.map(|_n| out).map_err(|e| format!("{:#}", anyhow::Error::new(e))))
}

/// `zip::ZipArchive::by_name`, and `Read::read_to_string` on what it finds, which decodes
/// what `Read::read_to_end` reads, where that is UTF-8, and fails elsewhere. Where one of
/// them fails comes what it says, with the causes as `anyhow::Error` writes them.
#[verifier::external_body]
pub(crate) fn read_text(a: &mut ZipArchive<Cursor<&[u8]>>, name: &str) -> (r: Result<
    Result<String, String>,
    String,
>)
    ensures
        text_view(r) == match archive_entry(archive_source(*old(a)), name@) {
            Ok(Ok(data)) => if valid_utf8(data) {
                Ok(Ok(decode_utf8(data)))
            } else {
                Ok(Err(archive_text_fault(archive_source(*old(a)), name@)))
            },
            Ok(Err(_)) => Ok(Err(archive_text_fault(archive_source(*old(a)), name@))),
            Err(e) => Err(e),
        },
        archive_source(*final(a)) == archive_source(*old(a)),
{
    let mut entry = a.by_name(name).map_err(|e| format!("{:#}", anyhow::Error::new(e)))?;
    let mut out = String::new();
    let read = entry.read_to_string(&mut out);
    Ok(read.map(|_n| out).map_err(|e| format!("{:#}", anyhow::Error::new(e))))
}

/// `zip::ZipArchive::file_names`.
#[verifier::external_body]
pub(crate) fn list_names(a: &ZipArchive<Cursor<&[u8]>>) -> (r: Vec<Option<String>>)
    ensures
        names_view(r@) == archive_names(archive_source(*a)),
{
    a.file_names().map(|n| n.ok().map(|s| s.into_owned())).collect()
}

} // verus!
