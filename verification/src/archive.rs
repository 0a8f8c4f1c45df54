//! The read-only archive source: a random-access, named-entry container held
//! behind a small trusted surface. An archive's contents are modelled as a
//! sequence of entries, each a name, a file flag and the entry's full bytes.

use std::io::Cursor;
use std::io::Read;
use vstd::prelude::*;

verus! {

#[verifier::external_type_specification]
#[verifier::external_body]
#[verifier::reject_recursive_types(R)]
pub struct ExZipArchive<R>(zip::ZipArchive<R>);

#[verifier::external_type_specification]
#[verifier::external_body]
#[verifier::reject_recursive_types(T)]
pub struct ExCursor<T>(Cursor<T>);

/// An archive parsed from in-memory bytes.
pub type PackSource = zip::ZipArchive<Cursor<Vec<u8>>>;

/// One modelled archive entry: name, whether it is a file (rather than a
/// directory marker), and its full contents.
pub type EntryModel = (Seq<char>, bool, Seq<u8>);

/// The contents of an archive: its entries, in archive order.
pub uninterp spec fn zip_entries(a: PackSource) -> Seq<EntryModel>;

/// What the archive's name index yields: for each entry name, the full
/// contents of the one entry the index selects for it.
pub uninterp spec fn lookup(a: PackSource) -> Map<Seq<char>, Seq<u8>>;

/// The names whose index-selected entry this build can open without a
/// password and decompress to its end.
pub uninterp spec fn readable_names(a: PackSource) -> Set<Seq<char>>;

/// The positions whose entry this build can open without a password and
/// decompress to its end.
pub uninterp spec fn readable_entries(a: PackSource) -> Set<int>;

/// Some entry of the archive carries this exact name.
pub open spec fn has_entry(entries: Seq<EntryModel>, name: Seq<char>) -> bool {
    exists|j: int| 0 <= j < entries.len() && entries[j].0 == name
}

/// Reading an archive moves only its cursor: the modelled contents, name
/// index and readability are those of the value before the read.
pub open spec fn source_unchanged(a1: PackSource, a2: PackSource) -> bool {
    &&& zip_entries(a2) == zip_entries(a1)
    &&& lookup(a2) == lookup(a1)
    &&& readable_names(a2) == readable_names(a1)
    &&& readable_entries(a2) == readable_entries(a1)
}

/// Failure to read from an archive.
#[derive(Debug, Clone, Copy, PartialEq, Eq, Structural)]
pub enum ArchiveError {
    /// No entry with the requested name.
    NotFound,
    /// The entry could not be read back.
    Unreadable,
}

/// Relies on zip::ZipArchive::len: the number of entries in the archive.
#[verifier::external_body]
pub(crate) fn archive_len(a: &PackSource) -> (r: usize)
    ensures
        r == zip_entries(*a).len(),
{
    a.len()
}

/// Relies on zip::ZipArchive::by_index_decrypt (with an empty password, which
/// an unencrypted entry ignores) and on reading the returned entry to its
/// end: hands back the indexed entry's name, file flag and contents, succeeds
/// exactly when the position exists and its entry is readable, and leaves the
/// archive's contents unchanged. The decrypt form returns the password
/// verdict instead of unwrapping it, and the method guard skips compression
/// methods this build cannot decode, so a crafted archive yields an error,
/// never a panic.
#[verifier::external_body]
pub(crate) fn entry_at(a: &mut PackSource, i: usize) -> (r: Result<(String, bool, Vec<u8>), ArchiveError>)
    ensures
        source_unchanged(*old(a), *final(a)),
        r is Ok <==> i < zip_entries(*old(a)).len() && readable_entries(*old(a)).contains(i as int),
        r matches Ok(t) ==> i < zip_entries(*old(a)).len() && zip_entries(*old(a))[i as int] == (
        t.0@, t.1, t.2@),
{
    match a.by_index_decrypt(i, &[]) {
        Ok(Ok(mut f)) => {
            if !matches!(f.compression(), zip::CompressionMethod::Stored | zip::CompressionMethod::Deflated) {
                return Err(ArchiveError::Unreadable);
            }
            let name = f.name().to_string();
            let is_file = f.is_file();
            let mut buf = Vec::new();
            match f.read_to_end(&mut buf) {
                Ok(_) => Ok((name, is_file, buf)),
                Err(_) => Err(ArchiveError::Unreadable),
            }
        }
        Ok(Err(_)) | Err(_) => Err(ArchiveError::Unreadable),
    }
}

/// Relies on zip::ZipArchive::by_name_decrypt (with an empty password, which
/// an unencrypted entry ignores), looking the name up in the archive's name
/// index: it succeeds exactly when the index knows the name and the selected
/// entry is readable, and then hands back that entry's contents; `NotFound`
/// comes back exactly when no entry carries the name, and the archive's
/// contents are unchanged either way. The decrypt form returns the password
/// verdict instead of unwrapping it, and the method guard skips compression
/// methods this build cannot decode, so a crafted archive yields an error,
/// never a panic.
#[verifier::external_body]
pub(crate) fn entry_by_name(a: &mut PackSource, name: &str) -> (r: Result<Vec<u8>, ArchiveError>)
    ensures
        source_unchanged(*old(a), *final(a)),
        r is Ok <==> lookup(*old(a)).dom().contains(name@) && readable_names(*old(a)).contains(
            name@,
        ),
        r matches Ok(bytes) ==> bytes@ == lookup(*old(a))[name@] && exists|j: int|
            0 <= j < zip_entries(*old(a)).len() && zip_entries(*old(a))[j].0 == name@
                && zip_entries(*old(a))[j].2 == bytes@,
        r == Err::<Vec<u8>, ArchiveError>(ArchiveError::NotFound) <==> !has_entry(
            zip_entries(*old(a)),
            name@,
        ),
{
    match a.by_name_decrypt(name, &[]) {
        Ok(Ok(mut f)) => {
            if !matches!(f.compression(), zip::CompressionMethod::Stored | zip::CompressionMethod::Deflated) {
                return Err(ArchiveError::Unreadable);
            }
            let mut buf = Vec::new();
            match f.read_to_end(&mut buf) {
                Ok(_) => Ok(buf),
                Err(_) => Err(ArchiveError::Unreadable),
            }
        }
        Ok(Err(_)) => Err(ArchiveError::Unreadable),
        Err(zip::result::ZipError::FileNotFound) => Err(ArchiveError::NotFound),
        Err(_) => Err(ArchiveError::Unreadable),
    }
}

} // verus!
