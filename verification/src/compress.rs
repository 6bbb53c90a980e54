//! The gzip benchmark: compressing random data at the default level and
//! reporting the sizes.

use vstd::prelude::*;
use std::io::Write;
use flate2::write::GzEncoder;
use flate2::Compression;

verus! {

/// A gzip encoder writing into memory. Verus does not take the declaration
/// of `flate2::write::GzEncoder`, whose parameter is bound by `std::io::Write`,
/// so the encoder is held in a field that Verus does not see.
#[verifier::external_body]
pub struct GzStream {
    enc: GzEncoder<Vec<u8>>,
}

#[verifier::external_type_specification]
#[verifier::external_body]
pub struct ExIoError(std::io::Error);

/// The bytes given so far to a gzip encoder.
pub uninterp spec fn gz_input(enc: GzStream) -> Seq<u8>;

/// The gzip stream, at the default compression level and with the default
/// header, of `data`.
pub uninterp spec fn gzip_default(data: Seq<u8>) -> Seq<u8>;

/// `flate2::write::GzEncoder::new` over an empty `Vec<u8>` with
/// `Compression::default()`: an encoder that has been given nothing.
#[verifier::external_body]
fn gz_new() -> (e: GzStream)
    ensures
        gz_input(e) == Seq::<u8>::empty(),
{
    GzStream { enc: GzEncoder::new(Vec::new(), Compression::default()) }
}

/// `std::io::Write::write_all` on a gzip encoder: the encoder has been
/// given `data` after what it had. It succeeds: the encoder writes into a
/// `Vec<u8>`, which takes every write, and miniz_oxide's `deflate` fails only
/// on an empty output buffer (which flate2 never passes), after the stream
/// was finished, or through a failing output callback, which is not used.
#[verifier::external_body]
fn gz_write_all(enc: &mut GzStream, data: &[u8]) -> (r: Result<(), std::io::Error>)
    ensures
        r is Ok,
        gz_input(*final(enc)) == gz_input(*old(enc)) + data@,
{
    enc.enc.write_all(data)
}

/// `flate2::write::GzEncoder::finish`: the complete gzip stream of what the
/// encoder was given (named `gzip_default`). It succeeds, for the reasons
/// given at `gz_write_all`: the header, the finished deflate stream and the
/// trailer all go into the `Vec<u8>`.
#[verifier::external_body]
fn gz_finish(enc: GzStream) -> (r: Result<Vec<u8>, std::io::Error>)
    ensures
        r is Ok,
        r matches Ok(v) ==> v@ == gzip_default(gz_input(enc)),
{
    enc.enc.finish()
}

/// Compresses `data` into a gzip stream at the default level.
pub fn gzip(data: &[u8]) -> (r: Result<Vec<u8>, std::io::Error>)
    ensures
        r matches Ok(v) && v@ == gzip_default(data@),
{
    let mut enc = gz_new();
    match gz_write_all(&mut enc, data) {
        Ok(()) => {},
        Err(e) => {
            return Err(e);
        },
    }
    assert(gz_input(enc) =~= data@);
    gz_finish(enc)
}

/// The sizes the gzip benchmark reports.
pub struct GzipReport {
    pub original_size: usize,
    pub compressed_size: usize,
}

/// The report for compressing `data`: its size, and the size of its gzip stream.
pub fn gzip_report(data: &Vec<u8>) -> (r: Result<GzipReport, std::io::Error>)
    ensures
        r matches Ok(rep) && rep.original_size == data.len() && rep.compressed_size
            == gzip_default(data@).len(),
{
    match gzip(data.as_slice()) {
        Ok(c) => Ok(report_sizes(data, &c)),
        Err(e) => Err(e),
    }
}

/// The report for `data` compressed into `compressed`.
pub fn report_sizes(data: &Vec<u8>, compressed: &Vec<u8>) -> (rep: GzipReport)
    ensures
        rep.original_size == data.len(),
        rep.compressed_size == compressed.len(),
{
    GzipReport { original_size: data.len(), compressed_size: compressed.len() }
}

} // verus!
