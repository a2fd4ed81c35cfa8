//! Decoding of WOFF (Web Open Font Format) containers into SFNT (TrueType /
//! OpenType) font data.

use vstd::prelude::*;

pub mod decode;
pub mod inflate;
pub mod laws;
pub mod structures;
pub mod utils;

use crate::decode::{
    assemble_sfnt_data_vec, decode_internal, decode_woff, sfnt_bytes, views, DecodedData,
};

verus! {

/// Kinds of error. `NoError` means that no error occurred.
#[derive(PartialEq, Eq, Structural, Debug, Clone, Copy)]
pub enum Error {
    NoError,
    DecodeError,
    DataSourceIsEmpty,
    OutBufferFull,
    BuffError,
    DecompressError,
    InvalidWoffSize,
    InputBufferIsEmpty,
    InvalidWoffSignature,
    InvalidWoffStructure,
    CreateFileError,
    OpenFileError,
    WriteToFileError,
    ReadFromFileError,
    InputPathError,
    OutputPathError,
}

/// Outcome of a decode: the SFNT data and its length, or the error, with no data.
pub struct DecodedResult {
    /// decoded SFNT data
    pub decoded_data: Vec<u8>,
    /// length of the decoded SFNT data
    pub decoded_data_len: usize,
    /// kind of error; `NoError` when the data was decoded
    pub error: Error,
}

/// Outcome of writing decoded data: how many bytes were written, or the error.
pub struct FileRWResult {
    /// length of the SFNT data that was written
    pub data_len: usize,
    /// kind of error; `NoError` when the data was written
    pub error: Error,
}

impl DecodedResult {
    /// The length field matches the data, and a result with an error holds no data.
    pub open spec fn wf(&self) -> bool {
        &&& self.decoded_data_len == self.decoded_data@.len()
        &&& self.error != Error::NoError ==> self.decoded_data@.len() == 0
    }

    /// A result that holds no data, only `err`.
    pub fn create_error_result(err: Error) -> (r: DecodedResult)
        ensures
            r.wf(),
            r.decoded_data@.len() == 0,
            r.decoded_data_len == 0,
            r.error == err,
    {
        DecodedResult { decoded_data: Vec::new(), decoded_data_len: 0, error: err }
    }

    /// Assembles the SFNT file from decoded parts, or passes the error on.
    pub fn create_ok_result(result: Result<DecodedData, Error>) -> (r: Result<Vec<u8>, Error>)
        ensures
            match result {
                Ok(d) => r matches Ok(v) && v@ == sfnt_bytes(
                    d.sfnt_header,
                    d.table_records@,
                    views(d.data_tables@),
                ),
                Err(e) => r == Err::<Vec<u8>, Error>(e),
            },
    {
        match result {
            Ok(data) => Ok(
                assemble_sfnt_data_vec(data.sfnt_header, data.table_records, data.data_tables),
            ),
            Err(err) => Err(err),
        }
    }

    /// The outcome of a decode as one record: the data with `NoError`, or no data
    /// with the error.
    pub fn from_decoded(result: Result<Vec<u8>, Error>) -> (r: DecodedResult)
        ensures
            r.wf(),
            match result {
                Ok(v) => r.decoded_data@ == v@ && r.decoded_data_len == v@.len() && r.error
                    == Error::NoError,
                Err(e) => r.decoded_data@.len() == 0 && r.decoded_data_len == 0 && r.error == e,
            },
    {
        match result {
            Ok(data) => {
                let len = data.len();
                DecodedResult { decoded_data: data, decoded_data_len: len, error: Error::NoError }
            },
            Err(err) => DecodedResult::create_error_result(err),
        }
    }
}

impl FileRWResult {
    /// A result for a write that did not happen: no bytes, only `err`.
    pub fn create_error_result(err: Error) -> (r: FileRWResult)
        ensures
            r.data_len == 0,
            r.error == err,
    {
        FileRWResult { data_len: 0, error: err }
    }
}

/// Decodes WOFF data from a vector into SFNT data. The vector is left as it was.
pub fn decode_from_vec(buf: &mut Vec<u8>) -> (r: Result<Vec<u8>, Error>)
    ensures
        final(buf)@ == old(buf)@,
        match r {
            Ok(v) => decode_woff(old(buf)@) == Ok::<Seq<u8>, Error>(v@),
            Err(e) => decode_woff(old(buf)@) == Err::<Seq<u8>, Error>(e),
        },
{
    decode_from_slice(buf.as_slice())
}

/// Decodes WOFF data from a slice into SFNT data.
pub fn decode_from_slice(buf: &[u8]) -> (r: Result<Vec<u8>, Error>)
    ensures
        match r {
            Ok(v) => decode_woff(buf@) == Ok::<Seq<u8>, Error>(v@),
            Err(e) => decode_woff(buf@) == Err::<Seq<u8>, Error>(e),
        },
{
    let decoded = decode_internal(buf);
    proof {
        reveal(decode_woff);
    }
    DecodedResult::create_ok_result(decoded)
}

/// Decodes the WOFF data read from a file. `read` is the outcome of reading the
/// file; an error of the read is passed on unchanged.
pub fn decode_from_file(read: Result<Vec<u8>, Error>) -> (r: Result<Vec<u8>, Error>)
    ensures
        match read {
            Err(e) => r == Err::<Vec<u8>, Error>(e),
            Ok(bytes) => match r {
                Ok(v) => decode_woff(bytes@) == Ok::<Seq<u8>, Error>(v@),
                Err(e) => decode_woff(bytes@) == Err::<Seq<u8>, Error>(e),
            },
        },
{
    match read {
        Ok(mut buf) => decode_from_vec(&mut buf),
        Err(err) => Err(err),
    }
}

/// Decodes the WOFF data read from a file and hands the SFNT data to `write`,
/// which stores it and reports how that went. An error of the read or of the
/// decode is returned without calling `write`; otherwise what `write` reports is.
pub fn decode_from_file_to_file<W: FnOnce(Vec<u8>) -> Error>(
    read: Result<Vec<u8>, Error>,
    write: W,
) -> (r: Error)
    requires
        forall|v: Vec<u8>| write.requires((v,)),
    ensures
        match read {
            Err(e) => r == e,
            Ok(bytes) => match decode_woff(bytes@) {
                Err(e) => r == e,
                Ok(out) => exists|v: Vec<u8>| v@ == out && write.ensures((v,), r),
            },
        },
{
    match read {
        Ok(mut buf) => decode_from_vec_to_file(&mut buf, write),
        Err(err) => err,
    }
}

/// Decodes WOFF data from a vector and hands the SFNT data to `write`. A decode
/// error is returned without calling `write`; otherwise what `write` reports is.
/// The vector is left as it was.
pub fn decode_from_vec_to_file<W: FnOnce(Vec<u8>) -> Error>(buf: &mut Vec<u8>, write: W) -> (r:
    Error)
    requires
        forall|v: Vec<u8>| write.requires((v,)),
    ensures
        final(buf)@ == old(buf)@,
        match decode_woff(old(buf)@) {
            Err(e) => r == e,
            Ok(out) => exists|v: Vec<u8>| v@ == out && write.ensures((v,), r),
        },
{
    decode_from_slice_to_file(buf.as_slice(), write)
}

/// Decodes WOFF data from a slice and hands the SFNT data to `write`. A decode
/// error is returned without calling `write`; otherwise what `write` reports is.
pub fn decode_from_slice_to_file<W: FnOnce(Vec<u8>) -> Error>(buf: &[u8], write: W) -> (r: Error)
    requires
        forall|v: Vec<u8>| write.requires((v,)),
    ensures
        match decode_woff(buf@) {
            Err(e) => r == e,
            Ok(out) => exists|v: Vec<u8>| v@ == out && write.ensures((v,), r),
        },
{
    match decode_from_slice(buf) {
        Ok(data) => {
            let ghost d = data;
            let r = write(data);
            assert(d@ == decode_woff(buf@)->Ok_0 && write.ensures((d,), r));
            r
        },
        Err(err) => err,
    }
}

}
