use vstd::prelude::*;

use crate::Error;

verus! {

/// What a single raw-DEFLATE decompression call reported.
#[derive(PartialEq, Eq, Structural, Debug, Clone, Copy)]
pub enum InflateStatus {
    /// Progress was made, but the stream has not ended. With an output buffer
    /// that is not full, the input ran out before the end of the stream; with a
    /// full one, more output space is needed.
    Progress,
    /// No progress was possible.
    BufError,
    /// The whole stream was decompressed.
    StreamEnd,
    /// The input is not a valid DEFLATE stream.
    DataError,
}

/// What inflating `input` (raw DEFLATE, no zlib or gzip header) in one call into
/// an output buffer of `capacity` bytes gives: the status and the bytes produced.
pub uninterp spec fn raw_inflate(input: Seq<u8>, capacity: nat) -> (InflateStatus, Seq<u8>);

/// Relies on `flate2::Decompress::new(false)` and `Decompress::decompress` with
/// `FlushDecompress::None`: one call inflates a raw DEFLATE stream into an output
/// slice of `capacity` bytes, and `total_out` counts the bytes it wrote there.
/// The outcome depends on the input bytes and the capacity alone. The output
/// buffer comes from `vec!`, which panics above `isize::MAX` bytes.
#[verifier::external_body]
fn inflate_raw(input: &[u8], capacity: usize) -> (r: (InflateStatus, Vec<u8>))
    requires
        capacity <= isize::MAX,
    ensures
        r.0 == raw_inflate(input@, capacity as nat).0,
        r.1@ == raw_inflate(input@, capacity as nat).1,
        r.1@.len() <= capacity,
{
    let mut out: Vec<u8> = vec![0u8; capacity];
    let mut inflater = flate2::Decompress::new(false);
    let status = match inflater.decompress(input, &mut out, flate2::FlushDecompress::None) {
        Ok(flate2::Status::Ok) => InflateStatus::Progress,
        Ok(flate2::Status::BufError) => InflateStatus::BufError,
        Ok(flate2::Status::StreamEnd) => InflateStatus::StreamEnd,
        Err(_) => InflateStatus::DataError,
    };
    out.truncate(inflater.total_out() as usize);
    (status, out)
}

/// The decoded table for a decompressor outcome: the data when the stream ended
/// after exactly `orig_length` bytes, else the error that the outcome stands for.
/// A stream that has not ended failed for want of input (`BuffError`) when fewer
/// than `orig_length` bytes came out, and for want of output space
/// (`OutBufferFull`) when the buffer of `orig_length` bytes is full.
pub open spec fn inflate_outcome(status: InflateStatus, data: Seq<u8>, orig_length: u32) -> Result<
    Seq<u8>,
    Error,
> {
    match status {
        InflateStatus::StreamEnd => if data.len() == orig_length {
            Ok(data)
        } else {
            Err(Error::DecompressError)
        },
        InflateStatus::Progress => if data.len() < orig_length {
            Err(Error::BuffError)
        } else {
            Err(Error::OutBufferFull)
        },
        InflateStatus::BufError => Err(Error::BuffError),
        InflateStatus::DataError => Err(Error::DecompressError),
    }
}

/// Turns what the decompressor reported for one table into the table's data or
/// into the decode error it stands for.
pub fn table_from_inflate(status: InflateStatus, data: Vec<u8>, orig_length: u32) -> (r: Result<
    Vec<u8>,
    Error,
>)
    ensures
        match r {
            Ok(v) => inflate_outcome(status, data@, orig_length) == Ok::<Seq<u8>, Error>(v@),
            Err(e) => inflate_outcome(status, data@, orig_length) == Err::<Seq<u8>, Error>(e),
        },
{
    match status {
        InflateStatus::StreamEnd => {
            if data.len() as u64 == orig_length as u64 {
                Ok(data)
            } else {
                Err(Error::DecompressError)
            }
        },
        InflateStatus::Progress => {
            if (data.len() as u64) < orig_length as u64 {
                Err(Error::BuffError)
            } else {
                Err(Error::OutBufferFull)
            }
        },
        InflateStatus::BufError => Err(Error::BuffError),
        InflateStatus::DataError => Err(Error::DecompressError),
    }
}

/// Inflates the raw DEFLATE stream `input` of a table whose uncompressed length is
/// `orig_length`. A length that no buffer of this machine can hold fails as a
/// full output buffer.
pub fn inflate_table(input: &[u8], orig_length: u32) -> (r: Result<Vec<u8>, Error>)
    ensures
        orig_length > isize::MAX ==> r == Err::<Vec<u8>, Error>(Error::OutBufferFull),
        orig_length <= isize::MAX ==> match r {
            Ok(v) => inflate_outcome(
                raw_inflate(input@, orig_length as nat).0,
                raw_inflate(input@, orig_length as nat).1,
                orig_length,
            ) == Ok::<Seq<u8>, Error>(v@),
            Err(e) => inflate_outcome(
                raw_inflate(input@, orig_length as nat).0,
                raw_inflate(input@, orig_length as nat).1,
                orig_length,
            ) == Err::<Seq<u8>, Error>(e),
        },
{
    if orig_length as u64 > isize::MAX as u64 {
        return Err(Error::OutBufferFull);
    }
    let (status, data) = inflate_raw(input, orig_length as usize);
    table_from_inflate(status, data, orig_length)
}

}
