use vstd::prelude::*;

use crate::utils::{u16_bytes, u16_to_u8_array, u32_bytes, u32_to_u8_array};

verus! {

/// Size of the WOFF header in bytes.
pub const WOFF_HEADER_SIZE: usize = 44;

/// Size of one WOFF table directory entry in bytes.
pub const WOFF_TABLE_DIRECTORY_ENTRY_SIZE: usize = 20;

/// Size of the SFNT offset table in bytes.
pub const SFNT_OFFSET_TABLE_SIZE: usize = 12;

/// Size of one SFNT table record in bytes.
pub const SFNT_TABLE_RECORD_SIZE: usize = 16;

/// The "magic number" of a WOFF file: the ASCII bytes `wOFF`.
pub const WOFF_SIGNATURE: u32 = 0x774F4646;

/// WOFF header (44 bytes).
#[derive(Clone, Copy)]
pub struct WoffHeader {
    /// "magic number": 0x774F4646 'wOFF'
    pub signature: u32,
    /// The "sfnt version" of the input font
    pub flavor: u32,
    /// Total size of the WOFF file
    pub length: u32,
    /// Number of entries in the directory of font tables
    pub num_tables: u16,
    /// Reserved; set to zero
    pub reserved: u16,
    /// Total size needed for the uncompressed font data, including the sfnt header,
    /// directory and font tables (including padding)
    pub total_sfnt_size: u32,
    pub major_version: u16,
    pub minor_version: u16,
    /// Offset to the metadata block, from the beginning of the WOFF file
    pub meta_offset: u32,
    /// Length of the compressed metadata block
    pub meta_length: u32,
    /// Uncompressed size of the metadata block
    pub meta_orig_length: u32,
    /// Offset to the private data block, from the beginning of the WOFF file
    pub priv_offset: u32,
    /// Length of the private data block
    pub priv_length: u32,
}

/// WOFF table directory entry (20 bytes).
#[derive(Clone, Copy)]
pub struct WoffTableDirectoryEntry {
    /// 4-byte sfnt table identifier
    pub tag: u32,
    /// Offset to the data, from the beginning of the WOFF file
    pub offset: u32,
    /// Length of the compressed data, excluding padding
    pub comp_length: u32,
    /// Length of the uncompressed table, excluding padding
    pub orig_length: u32,
    /// Checksum of the uncompressed table
    pub orig_checksum: u32,
}

/// SFNT offset table (12 bytes).
#[derive(Clone, Copy)]
pub struct SfntOffsetTable {
    /// 0x00010000 or 0x4F54544F ('OTTO')
    pub version: u32,
    pub num_tables: u16,
    /// (largest power of 2 <= num_tables) * 16
    pub search_range: u16,
    /// log2(largest power of 2 <= num_tables)
    pub entry_selector: u16,
    /// num_tables * 16 - search_range
    pub range_shift: u16,
}

/// SFNT table record (16 bytes).
#[derive(Clone, Copy)]
pub struct SfntTableRecord {
    pub table_tag: u32,
    pub checksum: u32,
    /// Offset from the beginning of the SFNT data
    pub offset: u32,
    pub length: u32,
}

/// The 12 big-endian bytes of an offset table.
pub open spec fn offset_table_bytes(t: SfntOffsetTable) -> Seq<u8> {
    u32_bytes(t.version) + u16_bytes(t.num_tables) + u16_bytes(t.search_range) + u16_bytes(
        t.entry_selector,
    ) + u16_bytes(t.range_shift)
}

/// The 16 big-endian bytes of a table record.
pub open spec fn table_record_bytes(r: SfntTableRecord) -> Seq<u8> {
    u32_bytes(r.table_tag) + u32_bytes(r.checksum) + u32_bytes(r.offset) + u32_bytes(r.length)
}

fn push_u32(v: &mut Vec<u8>, x: u32)
    ensures
        final(v)@ == old(v)@ + u32_bytes(x),
{
    let a = u32_to_u8_array(x);
    v.push(a[0]);
    v.push(a[1]);
    v.push(a[2]);
    v.push(a[3]);
    assert(final(v)@ =~= old(v)@ + a@);
}

fn push_u16(v: &mut Vec<u8>, x: u16)
    ensures
        final(v)@ == old(v)@ + u16_bytes(x),
{
    let a = u16_to_u8_array(x);
    v.push(a[0]);
    v.push(a[1]);
    assert(final(v)@ =~= old(v)@ + a@);
}

impl SfntOffsetTable {
    /// The offset table as it is laid out at the start of an SFNT file.
    pub fn transform_to_u8_vec(&self) -> (r: Vec<u8>)
        ensures
            r@ == offset_table_bytes(*self),
            r@.len() == SFNT_OFFSET_TABLE_SIZE,
    {
        let mut result_vec: Vec<u8> = Vec::with_capacity(SFNT_OFFSET_TABLE_SIZE);
        push_u32(&mut result_vec, self.version);
        push_u16(&mut result_vec, self.num_tables);
        push_u16(&mut result_vec, self.search_range);
        push_u16(&mut result_vec, self.entry_selector);
        push_u16(&mut result_vec, self.range_shift);
        assert(result_vec@ =~= offset_table_bytes(*self));
        result_vec
    }
}

impl SfntTableRecord {
    /// The record as it is laid out in an SFNT table directory.
    pub fn transform_to_u8_vec(&self) -> (r: Vec<u8>)
        ensures
            r@ == table_record_bytes(*self),
            r@.len() == SFNT_TABLE_RECORD_SIZE,
    {
        let mut result_vec: Vec<u8> = Vec::with_capacity(SFNT_TABLE_RECORD_SIZE);
        push_u32(&mut result_vec, self.table_tag);
        push_u32(&mut result_vec, self.checksum);
        push_u32(&mut result_vec, self.offset);
        push_u32(&mut result_vec, self.length);
        assert(result_vec@ =~= table_record_bytes(*self));
        result_vec
    }
}

}
