//! The names of archive files: `meteo_data_archive_`, the instant of the
//! download, an optional suffix after a dot, and `.json` or `.json.gz`.

use vstd::prelude::*;
use vstd::string::StrSliceExecFns;
use crate::clock::{extract_file_datetime, utc_seconds, FILE_NAME_LAYOUT};
use crate::text::{ends_with, has_prefix, has_suffix, segment_from, starts_with, up_to};

verus! {

/// What every archive file's name begins with.
pub const ARCHIVE_PREFIX: &'static str = "meteo_data_archive_";

/// The ending of a plain archive file.
pub const PLAIN_SUFFIX: &'static str = ".json";

/// The ending of a gzip-compressed archive file.
pub const GZIP_SUFFIX: &'static str = ".json.gz";

/// How the content of an archive file is stored.
#[derive(Clone, Copy, Debug, PartialEq, Eq, Structural)]
pub enum Storage {
    Plain,
    Gzip,
}

/// What an archive file's name tells.
#[derive(Clone, Copy, Debug, PartialEq, Eq, Structural)]
pub struct ArchiveFile {
    /// When the snapshot was downloaded.
    pub download_time: i64,
    pub storage: Storage,
}

/// Whether a name has the shape of an archive file's name.
pub open spec fn is_archive_name(name: Seq<char>) -> bool {
    has_prefix(name, ARCHIVE_PREFIX@) && (has_suffix(name, PLAIN_SUFFIX@) || has_suffix(
        name,
        GZIP_SUFFIX@,
    ))
}

/// The part of an archive file's name that holds the instant: what follows
/// the prefix, up to the first dot.
pub open spec fn stamp_of(name: Seq<char>) -> Seq<char> {
    up_to(name.skip(ARCHIVE_PREFIX@.len() as int), '.')
}

/// How a file of this name is stored: plain where the name ends in `.json`,
/// compressed otherwise.
pub open spec fn storage_of(name: Seq<char>) -> Storage {
    if has_suffix(name, PLAIN_SUFFIX@) {
        Storage::Plain
    } else {
        Storage::Gzip
    }
}

/// What a file's name tells, if it is an archive file's name whose stamp is
/// an instant.
pub open spec fn archive_file_named(name: Seq<char>) -> Option<ArchiveFile> {
    if !is_archive_name(name) {
        None
    } else {
        match utc_seconds(stamp_of(name), FILE_NAME_LAYOUT@) {
            Some(download_time) => Some(
                ArchiveFile { download_time, storage: storage_of(name) },
            ),
            None => None,
        }
    }
}

/// Tells how a file of this name is stored.
pub fn storage_for(file_name: &str) -> (storage: Storage)
    ensures
        storage == storage_of(file_name@),
{
    if ends_with(file_name, PLAIN_SUFFIX) {
        Storage::Plain
    } else {
        Storage::Gzip
    }
}

/// Takes the instant that stands in a name after the prefix: `None` where the
/// name is too short to hold the prefix or the stamp is no instant.
pub fn download_time_after_prefix(file_name: &str) -> (instant: Option<i64>)
    ensures
        instant == if ARCHIVE_PREFIX@.len() <= file_name@.len() {
            utc_seconds(stamp_of(file_name@), FILE_NAME_LAYOUT@)
        } else {
            None
        },
{
    let width = ARCHIVE_PREFIX.unicode_len();
    if width > file_name.unicode_len() {
        return None;
    }
    let stamp = segment_from(file_name, width, '.');
    extract_file_datetime(stamp)
}

/// Reads a file's name: `None` for a name that is not an archive file's, or
/// whose stamp is no instant; such a file is left out, it is no error.
pub fn read_archive_name(file_name: &str) -> (file: Option<ArchiveFile>)
    ensures
        file == archive_file_named(file_name@),
{
    if !starts_with(file_name, ARCHIVE_PREFIX) {
        return None;
    }
    if !(ends_with(file_name, PLAIN_SUFFIX) || ends_with(file_name, GZIP_SUFFIX)) {
        return None;
    }
    match download_time_after_prefix(file_name) {
        Some(download_time) => Some(
            ArchiveFile { download_time, storage: storage_for(file_name) },
        ),
        None => None,
    }
}

} // verus!
