use woffdecoder::inflate::{table_from_inflate, InflateStatus};
use woffdecoder::structures::{SfntOffsetTable, SfntTableRecord};
use woffdecoder::utils::{
    calculate_entry_selector, calculate_padded_len, calculate_range_shift, calculate_search_range,
    read_u16_be, read_u32_be, transform_u16_to_u8_vec, transform_u32_to_u8_vec, u16_to_u8_array,
    u32_to_u8_array,
};
use woffdecoder::Error;

#[test]
fn header_fields_for_one_table() {
    let sr = calculate_search_range(1);
    assert_eq!(sr, 16);
    assert_eq!(calculate_entry_selector(sr), 0);
    assert_eq!(calculate_range_shift(1, sr), 0);
}

#[test]
fn header_fields_for_five() {
    let sr = calculate_search_range(5);
    assert_eq!(sr, 64);
    assert_eq!(calculate_entry_selector(sr), 2);
    assert_eq!(calculate_range_shift(5, sr), 16);
}

#[test]
fn search_range_powers() {
    assert_eq!(calculate_search_range(0), 0);
    assert_eq!(calculate_search_range(2), 32);
    assert_eq!(calculate_search_range(3), 32);
    assert_eq!(calculate_search_range(8), 128);
    assert_eq!(calculate_search_range(15), 128);
    assert_eq!(calculate_search_range(16), 256);
    assert_eq!(calculate_search_range(4095), 32768);
    // The 16-bit field wraps for 4096 tables and more.
    assert_eq!(calculate_search_range(4096), 0);
    assert_eq!(calculate_entry_selector(256), 4);
    assert_eq!(calculate_entry_selector(32768), 11);
    assert_eq!(calculate_range_shift(4095, 32768), 32752);
}

#[test]
fn padding_lengths() {
    assert_eq!(calculate_padded_len(5, 5), 3);
    assert_eq!(calculate_padded_len(6, 6), 2);
    assert_eq!(calculate_padded_len(7, 7), 1);
    assert_eq!(calculate_padded_len(8, 8), 0);
    assert_eq!(calculate_padded_len(5, 0), 8);
}

#[test]
fn big_endian_reads() {
    let b = [0x12u8, 0x34, 0x56, 0x78, 0x9A];
    assert_eq!(read_u32_be(&b, 0), Some(0x1234_5678));
    assert_eq!(read_u32_be(&b, 1), Some(0x3456_789A));
    assert_eq!(read_u32_be(&b, 2), None);
    assert_eq!(read_u32_be(&b, 100), None);
    assert_eq!(read_u16_be(&b, 3), Some(0x789A));
    assert_eq!(read_u16_be(&b, 4), None);
}

#[test]
fn big_endian_writes() {
    assert_eq!(u32_to_u8_array(0x774F4646), *b"wOFF");
    assert_eq!(u16_to_u8_array(0xABCD), [0xAB, 0xCD]);
    assert_eq!(transform_u32_to_u8_vec(0x0102_0304), vec![1, 2, 3, 4]);
    assert_eq!(transform_u16_to_u8_vec(0x0102), vec![1, 2]);
}

#[test]
fn offset_table_and_record_bytes() {
    let t = SfntOffsetTable {
        version: 0x4F54544F,
        num_tables: 5,
        search_range: 64,
        entry_selector: 2,
        range_shift: 16,
    };
    assert_eq!(t.transform_to_u8_vec(), vec![0x4F, 0x54, 0x54, 0x4F, 0, 5, 0, 64, 0, 2, 0, 16]);
    let r = SfntTableRecord { table_tag: 0x68656164, checksum: 0x01020304, offset: 0x1C, length: 0x36 };
    assert_eq!(
        r.transform_to_u8_vec(),
        vec![0x68, 0x65, 0x61, 0x64, 1, 2, 3, 4, 0, 0, 0, 0x1C, 0, 0, 0, 0x36]
    );
}

#[test]
fn inflate_outcomes() {
    assert_eq!(table_from_inflate(InflateStatus::StreamEnd, vec![1, 2, 3], 3), Ok(vec![1, 2, 3]));
    assert_eq!(table_from_inflate(InflateStatus::StreamEnd, vec![1, 2], 3), Err(Error::DecompressError));
    assert_eq!(table_from_inflate(InflateStatus::Progress, vec![1, 2, 3], 3), Err(Error::OutBufferFull));
    assert_eq!(table_from_inflate(InflateStatus::Progress, vec![1, 2], 3), Err(Error::BuffError));
    assert_eq!(table_from_inflate(InflateStatus::BufError, vec![], 3), Err(Error::BuffError));
    assert_eq!(table_from_inflate(InflateStatus::DataError, vec![], 3), Err(Error::DecompressError));
}
