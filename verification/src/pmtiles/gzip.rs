//! Gzip, as the archive's directories, metadata and tiles are stored.
use flate2::read::GzDecoder;
use flate2::write::GzEncoder;
use flate2::Compression;
use std::io::{Read, Write};
use vstd::prelude::*;

verus! {

/// An I/O failure as `flate2` reports it.
#[verifier::external_type_specification]
#[verifier::external_body]
pub struct ExIoError(std::io::Error);

/// What `flate2`'s gzip encoder makes of some data at its default level, or
/// `None` where it fails.
pub uninterp spec fn gzip_of(data: Seq<u8>) -> Option<Seq<u8>>;

/// What `flate2`'s gzip decoder makes of some data, or `None` where it fails.
pub uninterp spec fn gunzip_of(data: Seq<u8>) -> Option<Seq<u8>>;

/// `flate2::write::GzEncoder` at the default level, writing to a vector.
///
/// The stream is a function of the data alone: the header holds no time and a
/// fixed operating system byte. It starts with the two bytes of the gzip magic
/// number, holds at least the ten bytes of the header and the eight of the
/// trailer, and decodes to the data.
#[verifier::external_body]
pub(crate) fn gzip(data: &[u8]) -> (res: Result<Vec<u8>, std::io::Error>)
    ensures
        match res {
            Ok(out) => {
                &&& gzip_of(data@) == Some(out@)
                &&& gunzip_of(out@) == Some(data@)
                &&& out@.len() >= 18
                &&& out@[0] == 0x1f
                &&& out@[1] == 0x8b
            },
            Err(_) => gzip_of(data@) is None,
        },
{
    let mut encoder = GzEncoder::new(Vec::new(), Compression::default());
    encoder.write_all(data)?;
    encoder.finish()
}

/// `flate2::read::GzDecoder`, read to the end: the result is a function of the
/// data alone.
#[verifier::external_body]
pub(crate) fn ungzip(data: &[u8]) -> (res: Result<Vec<u8>, std::io::Error>)
    ensures
        match res {
            Ok(out) => gunzip_of(data@) == Some(out@),
            Err(_) => gunzip_of(data@) is None,
        },
{
    let mut out = Vec::new();
    GzDecoder::new(data).read_to_end(&mut out)?;
    Ok(out)
}

/// The data starts with the gzip magic number.
pub open spec fn looks_gzipped(data: Seq<u8>) -> bool {
    data.len() >= 2 && data[0] == 0x1f && data[1] == 0x8b
}

/// Whether tile data is gzipped, told by its first two bytes.
pub fn is_gzipped(data: &[u8]) -> (gzipped: bool)
    ensures
        gzipped == looks_gzipped(data@),
{
    data.len() >= 2 && data[0] == 0x1f && data[1] == 0x8b
}

/// A tile in the form in which an archive stores it: gzipped, whether or not it
/// came so. `None` where compression fails.
pub open spec fn stored_tile(data: Seq<u8>) -> Option<Seq<u8>> {
    if looks_gzipped(data) {
        Some(data)
    } else {
        gzip_of(data)
    }
}

/// Bring a tile into the form in which an archive stores it.
pub fn store_tile(data: Vec<u8>) -> (res: Option<Vec<u8>>)
    ensures
        match res {
            Some(blob) => stored_tile(data@) == Some(blob@) && looks_gzipped(blob@) && (
            looks_gzipped(data@) || gunzip_of(blob@) == Some(data@)),
            None => stored_tile(data@) is None,
        },
{
    if is_gzipped(data.as_slice()) {
        return Some(data);
    }
    match gzip(data.as_slice()) {
        Ok(blob) => Some(blob),
        Err(_) => None,
    }
}

/// A tile that is gzipped already is stored as it is; any other one is gzipped.
pub proof fn lemma_tiles_are_gzipped_once(data: Seq<u8>)
    ensures
        data.len() >= 2 && data[0] == 0x1f && data[1] == 0x8b ==> stored_tile(data) == Some(data),
        !(data.len() >= 2 && data[0] == 0x1f && data[1] == 0x8b) ==> stored_tile(data) == gzip_of(
            data,
        ),
{
}

} // verus!
