use woffdecoder::decode::sanity_check;
use woffdecoder::{
    decode_from_file, decode_from_file_to_file, decode_from_slice, decode_from_slice_to_file,
    decode_from_vec, decode_from_vec_to_file, DecodedResult, Error, FileRWResult,
};

const GLYF: u32 = 0x676C7966;
const HEAD: u32 = 0x68656164;
const CMAP: u32 = 0x636D6170;

struct Table {
    tag: u32,
    data: Vec<u8>,
    compress: bool,
    checksum: u32,
}

fn table(tag: u32, data: &[u8], compress: bool) -> Table {
    Table { tag, data: data.to_vec(), compress, checksum: tag ^ 0x5A5A_5A5A }
}

fn deflate_raw(data: &[u8]) -> Vec<u8> {
    let mut c = flate2::Compress::new(flate2::Compression::best(), false);
    let mut out: Vec<u8> = Vec::with_capacity(data.len() + 64);
    let status = c.compress_vec(data, &mut out, flate2::FlushCompress::Finish).unwrap();
    assert_eq!(status, flate2::Status::StreamEnd);
    out
}

fn be32(v: &mut Vec<u8>, x: u32) {
    v.extend_from_slice(&x.to_be_bytes());
}

fn be16(v: &mut Vec<u8>, x: u16) {
    v.extend_from_slice(&x.to_be_bytes());
}

/// Builds a WOFF file; each entry gives (tag, stored bytes, orig_length, checksum).
fn woff_raw(entries: &[(u32, Vec<u8>, u32, u32)]) -> Vec<u8> {
    let header_len = 44 + 20 * entries.len();
    let mut data: Vec<u8> = Vec::new();
    let mut dir: Vec<u8> = Vec::new();
    for (tag, stored, orig, checksum) in entries {
        let offset = header_len + data.len();
        be32(&mut dir, *tag);
        be32(&mut dir, offset as u32);
        be32(&mut dir, stored.len() as u32);
        be32(&mut dir, *orig);
        be32(&mut dir, *checksum);
        data.extend_from_slice(stored);
        while data.len() % 4 != 0 {
            data.push(0);
        }
    }
    let total = header_len + data.len();
    let mut out: Vec<u8> = Vec::new();
    be32(&mut out, 0x774F4646);
    be32(&mut out, 0x0001_0000);
    be32(&mut out, total as u32);
    be16(&mut out, entries.len() as u16);
    be16(&mut out, 0);
    be32(&mut out, 0);
    be16(&mut out, 1);
    be16(&mut out, 0);
    for _ in 0..5 {
        be32(&mut out, 0);
    }
    out.extend_from_slice(&dir);
    out.extend_from_slice(&data);
    assert_eq!(out.len(), total);
    out
}

fn woff(tables: &[Table]) -> Vec<u8> {
    let entries: Vec<(u32, Vec<u8>, u32, u32)> = tables
        .iter()
        .map(|t| {
            let stored = if t.compress { deflate_raw(&t.data) } else { t.data.clone() };
            if t.compress {
                assert!(stored.len() < t.data.len());
            }
            (t.tag, stored, t.data.len() as u32, t.checksum)
        })
        .collect();
    woff_raw(&entries)
}

fn rd32(b: &[u8], p: usize) -> u32 {
    u32::from_be_bytes([b[p], b[p + 1], b[p + 2], b[p + 3]])
}

fn rd16(b: &[u8], p: usize) -> u16 {
    u16::from_be_bytes([b[p], b[p + 1]])
}

struct Record {
    tag: u32,
    checksum: u32,
    offset: usize,
    length: usize,
}

fn records(out: &[u8]) -> Vec<Record> {
    let n = rd16(out, 4) as usize;
    (0..n)
        .map(|i| {
            let p = 12 + 16 * i;
            Record {
                tag: rd32(out, p),
                checksum: rd32(out, p + 4),
                offset: rd32(out, p + 8) as usize,
                length: rd32(out, p + 12) as usize,
            }
        })
        .collect()
}

fn padded(n: usize) -> usize {
    (n + 3) / 4 * 4
}

fn glyf_data() -> Vec<u8> {
    let mut v = Vec::new();
    for i in 0..600u32 {
        v.push((i % 7) as u8);
    }
    v.push(42);
    v
}

#[test]
fn test_sanity_check() {
    let buf = woff(&[table(HEAD, &[1, 2, 3, 4, 5], false)]);
    assert!(sanity_check(&buf) == Error::NoError);
}

#[test]
fn test_decode_to_buffer() {
    let mut buf = woff(&[table(GLYF, &glyf_data(), true), table(HEAD, &[9; 54], false)]);
    let result = decode_from_vec(&mut buf);
    match result {
        Ok(data) => assert!(data.len() > 0),
        Err(err) => assert!(err != Error::NoError),
    }
    assert!(decode_from_vec(&mut buf).is_ok());
}

#[test]
fn two_tables_sorted_with_compressed_glyf() {
    let glyf = glyf_data();
    let head: Vec<u8> = (0..54u8).collect();
    let buf = woff(&[table(GLYF, &glyf, true), table(HEAD, &head, false)]);
    let out = decode_from_slice(&buf).unwrap();
    let recs = records(&out);
    assert_eq!(recs.len(), 2);
    // 'glyf' (0x676C7966) is numerically smaller than 'head' (0x68656164).
    assert_eq!(recs[0].tag, GLYF);
    assert_eq!(recs[1].tag, HEAD);
    assert_eq!(recs[0].checksum, GLYF ^ 0x5A5A_5A5A);
    assert_eq!(recs[1].checksum, HEAD ^ 0x5A5A_5A5A);
    // The compressed table comes out inflated, not as stored.
    assert_eq!(&out[recs[0].offset..recs[0].offset + recs[0].length], &glyf[..]);
    assert_eq!(&out[recs[1].offset..recs[1].offset + recs[1].length], &head[..]);
    assert_eq!(recs[0].offset, 12 + 16 * 2);
    assert_eq!(recs[1].offset, 12 + 16 * 2 + padded(glyf.len()));
    assert_eq!(out.len(), 12 + 32 + padded(glyf.len()) + 56);
}

#[test]
fn directory_order_is_replaced_by_tag_order() {
    let glyf = glyf_data();
    let head: Vec<u8> = (0..54u8).collect();
    let buf = woff(&[table(HEAD, &head, false), table(GLYF, &glyf, true)]);
    let out = decode_from_slice(&buf).unwrap();
    let recs = records(&out);
    assert_eq!(recs[0].tag, GLYF);
    assert_eq!(recs[1].tag, HEAD);
    assert_eq!(&out[recs[0].offset..recs[0].offset + recs[0].length], &glyf[..]);
    assert_eq!(&out[recs[1].offset..recs[1].offset + recs[1].length], &head[..]);
}

#[test]
fn offset_table_is_copied_and_derived() {
    let buf = woff(&[table(HEAD, &[1, 2, 3, 4], false)]);
    let out = decode_from_slice(&buf).unwrap();
    assert_eq!(rd32(&out, 0), 0x0001_0000);
    assert_eq!(rd16(&out, 4), 1);
    assert_eq!(rd16(&out, 6), 16);
    assert_eq!(rd16(&out, 8), 0);
    assert_eq!(rd16(&out, 10), 0);
}

#[test]
fn header_fields_for_five_tables() {
    let tags = [0x6D617870u32, HEAD, CMAP, GLYF, 0x6C6F6361];
    let tables: Vec<Table> = tags.iter().map(|t| table(*t, &[1, 2, 3], false)).collect();
    let out = decode_from_slice(&woff(&tables)).unwrap();
    assert_eq!(rd16(&out, 4), 5);
    assert_eq!(rd16(&out, 6), 64);
    assert_eq!(rd16(&out, 8), 2);
    assert_eq!(rd16(&out, 10), 16);
}

#[test]
fn zero_tables_give_a_bare_offset_table() {
    let out = decode_from_slice(&woff(&[])).unwrap();
    assert_eq!(out, vec![0, 1, 0, 0, 0, 0, 0, 0, 0, 0, 0, 0]);
}

#[test]
fn records_sorted_packed_and_padded() {
    let tables = vec![
        table(GLYF, &glyf_data(), true),
        table(HEAD, &[7; 5], false),
        table(CMAP, &[3; 8], false),
        table(0x6E616D65, &[1; 2], false),
    ];
    let buf = woff(&tables);
    let out = decode_from_slice(&buf).unwrap();
    let recs = records(&out);
    assert_eq!(recs.len(), 4);
    assert_eq!(recs[0].offset, 12 + 16 * 4);
    for i in 0..recs.len() {
        let end = padded(recs[i].offset + recs[i].length);
        if i + 1 < recs.len() {
            assert!(recs[i].tag <= recs[i + 1].tag);
            assert_eq!(recs[i + 1].offset, recs[i].offset + padded(recs[i].length));
            assert_eq!(recs[i + 1].offset, end);
        } else {
            assert_eq!(out.len(), end);
        }
        // Padding bytes are zero.
        for b in &out[recs[i].offset + recs[i].length..end] {
            assert_eq!(*b, 0);
        }
    }
    let head = recs.iter().find(|r| r.tag == HEAD).unwrap();
    assert_eq!(head.length, 5);
    assert_eq!(&out[head.offset..head.offset + 5], &[7; 5]);
}

#[test]
fn equal_tags_keep_their_order() {
    let buf = woff(&[table(HEAD, &[1; 4], false), table(CMAP, &[2; 4], false), table(HEAD, &[3; 4], false)]);
    let out = decode_from_slice(&buf).unwrap();
    let recs = records(&out);
    assert_eq!(recs[0].tag, CMAP);
    assert_eq!(recs[1].tag, HEAD);
    assert_eq!(recs[2].tag, HEAD);
    assert_eq!(out[recs[1].offset], 1);
    assert_eq!(out[recs[2].offset], 3);
}

#[test]
fn empty_input_is_rejected() {
    assert_eq!(decode_from_slice(&[]), Err(Error::InputBufferIsEmpty));
    assert_eq!(sanity_check(&[]), Error::InputBufferIsEmpty);
}

#[test]
fn ten_bytes_are_too_short() {
    assert_eq!(decode_from_slice(&[0x77, 0x4F, 0x46, 0x46, 0, 0, 0, 0, 0, 10]), Err(Error::InvalidWoffSize));
}

#[test]
fn wrong_signature_is_rejected() {
    let mut buf = woff(&[]);
    assert_eq!(buf.len(), 44);
    buf[0] = b'O';
    buf[1] = b'T';
    buf[2] = b'T';
    buf[3] = b'O';
    assert_eq!(decode_from_slice(&buf), Err(Error::InvalidWoffSignature));
}

#[test]
fn declared_length_must_match() {
    let mut buf = woff(&[table(HEAD, &[1, 2, 3, 4], false)]);
    buf.push(0);
    assert_eq!(decode_from_slice(&buf), Err(Error::InvalidWoffSize));
}

#[test]
fn directory_must_fit() {
    let mut buf = woff(&[]);
    buf[12] = 0;
    buf[13] = 3;
    assert_eq!(decode_from_slice(&buf), Err(Error::InvalidWoffSize));
}

#[test]
fn compressed_longer_than_original_is_corrupt() {
    let buf = woff_raw(&[(HEAD, vec![1, 2, 3, 4, 5, 6, 7, 8], 4, 0)]);
    assert_eq!(decode_from_slice(&buf), Err(Error::InvalidWoffStructure));
}

#[test]
fn table_data_outside_the_buffer_is_corrupt() {
    let mut buf = woff(&[table(HEAD, &[1, 2, 3, 4], false)]);
    // Move the table's offset past the end of the file.
    let end = buf.len() as u32;
    buf[48..52].copy_from_slice(&(end - 2).to_be_bytes());
    assert_eq!(decode_from_slice(&buf), Err(Error::InvalidWoffStructure));
}

#[test]
fn invalid_deflate_stream_fails() {
    let buf = woff_raw(&[(GLYF, vec![0xFF, 0xFF, 0xFF, 0xFF], 40, 0)]);
    assert_eq!(decode_from_slice(&buf), Err(Error::DecompressError));
}

#[test]
fn truncated_stream_runs_out_of_input() {
    let glyf = glyf_data();
    let stored = deflate_raw(&glyf);
    let cut = stored[..stored.len() / 2].to_vec();
    let buf = woff_raw(&[(GLYF, cut, glyf.len() as u32, 0)]);
    assert_eq!(decode_from_slice(&buf), Err(Error::BuffError));
}

#[test]
fn declared_length_too_small_fills_the_buffer() {
    let glyf = glyf_data();
    let stored = deflate_raw(&glyf);
    let buf = woff_raw(&[(GLYF, stored.clone(), stored.len() as u32 + 20, 0)]);
    assert_eq!(decode_from_slice(&buf), Err(Error::OutBufferFull));
}

#[test]
fn declared_length_too_large_is_rejected() {
    let glyf = glyf_data();
    let stored = deflate_raw(&glyf);
    let buf = woff_raw(&[(GLYF, stored, glyf.len() as u32 + 10, 0)]);
    assert_eq!(decode_from_slice(&buf), Err(Error::DecompressError));
}

#[test]
fn decode_from_vec_leaves_input_alone() {
    let mut buf = woff(&[table(HEAD, &[1, 2, 3], false)]);
    let before = buf.clone();
    let a = decode_from_vec(&mut buf).unwrap();
    assert_eq!(buf, before);
    assert_eq!(a, decode_from_slice(&before).unwrap());
}

#[test]
fn decoded_result_records() {
    let ok = DecodedResult::from_decoded(Ok(vec![1, 2, 3]));
    assert_eq!(ok.decoded_data, vec![1, 2, 3]);
    assert_eq!(ok.decoded_data_len, 3);
    assert_eq!(ok.error, Error::NoError);
    let err = DecodedResult::from_decoded(Err(Error::BuffError));
    assert_eq!(err.decoded_data_len, 0);
    assert!(err.decoded_data.is_empty());
    assert_eq!(err.error, Error::BuffError);
    let e = DecodedResult::create_error_result(Error::DecodeError);
    assert_eq!(e.error, Error::DecodeError);
    let f = FileRWResult::create_error_result(Error::WriteToFileError);
    assert_eq!(f.data_len, 0);
    assert_eq!(f.error, Error::WriteToFileError);
}

#[test]
fn file_read_errors_pass_through() {
    assert_eq!(decode_from_file(Err(Error::OpenFileError)), Err(Error::OpenFileError));
    let buf = woff(&[table(HEAD, &[1, 2, 3, 4], false)]);
    assert_eq!(decode_from_file(Ok(buf.clone())), decode_from_slice(&buf));
    assert_eq!(decode_from_file(Ok(vec![])), Err(Error::InputBufferIsEmpty));
}

#[test]
fn writer_gets_the_decoded_data() {
    let mut buf = woff(&[table(GLYF, &glyf_data(), true), table(HEAD, &[5; 6], false)]);
    let expected = decode_from_slice(&buf).unwrap();
    let mut written: Option<Vec<u8>> = None;
    let r = decode_from_vec_to_file(&mut buf, |data| {
        written = Some(data);
        Error::NoError
    });
    assert_eq!(r, Error::NoError);
    assert_eq!(written, Some(expected.clone()));
    let mut seen = 0usize;
    let r = decode_from_slice_to_file(&buf, |data| {
        seen = data.len();
        Error::WriteToFileError
    });
    assert_eq!(r, Error::WriteToFileError);
    assert_eq!(seen, expected.len());
}

#[test]
fn writer_not_called_on_errors() {
    let mut called = false;
    let r = decode_from_slice_to_file(&[1, 2, 3], |_| {
        called = true;
        Error::NoError
    });
    assert_eq!(r, Error::InvalidWoffSize);
    assert!(!called);
    let r = decode_from_file_to_file(Err(Error::ReadFromFileError), |_| {
        called = true;
        Error::NoError
    });
    assert_eq!(r, Error::ReadFromFileError);
    assert!(!called);
    let buf = woff(&[table(CMAP, &[1; 9], false)]);
    let mut len = 0usize;
    let r = decode_from_file_to_file(Ok(buf), |data| {
        len = data.len();
        Error::NoError
    });
    assert_eq!(r, Error::NoError);
    assert_eq!(len, 12 + 16 + 12);
}
