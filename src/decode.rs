use vstd::prelude::*;

use crate::inflate::{inflate_outcome, inflate_table, raw_inflate};
use crate::structures::{
    offset_table_bytes, table_record_bytes, SfntOffsetTable, SfntTableRecord, WoffHeader,
    WoffTableDirectoryEntry, SFNT_OFFSET_TABLE_SIZE, SFNT_TABLE_RECORD_SIZE, WOFF_HEADER_SIZE,
    WOFF_SIGNATURE, WOFF_TABLE_DIRECTORY_ENTRY_SIZE,
};
use crate::utils::{
    be_u16, be_u32, calculate_entry_selector, calculate_padded_len, calculate_range_shift,
    calculate_search_range, entry_selector_of, padded, range_shift_of, read_u16_be, read_u32_be,
    search_range_of,
};
use crate::Error;

verus! {

// ---------------------------------------------------------------------------
// The model: what decoding a WOFF buffer gives.
// ---------------------------------------------------------------------------

/// The WOFF header at the start of `b`.
pub open spec fn woff_header_of(b: Seq<u8>) -> WoffHeader {
    WoffHeader {
        signature: be_u32(b, 0),
        flavor: be_u32(b, 4),
        length: be_u32(b, 8),
        num_tables: be_u16(b, 12),
        reserved: be_u16(b, 14),
        total_sfnt_size: be_u32(b, 16),
        major_version: be_u16(b, 20),
        minor_version: be_u16(b, 22),
        meta_offset: be_u32(b, 24),
        meta_length: be_u32(b, 28),
        meta_orig_length: be_u32(b, 32),
        priv_offset: be_u32(b, 36),
        priv_length: be_u32(b, 40),
    }
}

/// The outcome of the container checks on `b`, in the order they are made.
pub open spec fn sanity_error(b: Seq<u8>) -> Error {
    if b.len() == 0 {
        Error::InputBufferIsEmpty
    } else if b.len() < WOFF_HEADER_SIZE {
        Error::InvalidWoffSize
    } else if woff_header_of(b).signature != WOFF_SIGNATURE {
        Error::InvalidWoffSignature
    } else if woff_header_of(b).length != b.len() {
        Error::InvalidWoffSize
    } else if b.len() < WOFF_HEADER_SIZE + woff_header_of(b).num_tables
        * WOFF_TABLE_DIRECTORY_ENTRY_SIZE {
        Error::InvalidWoffSize
    } else {
        Error::NoError
    }
}

/// The table directory entry stored at byte `p` of `b`.
pub open spec fn entry_at_offset(b: Seq<u8>, p: int) -> WoffTableDirectoryEntry {
    WoffTableDirectoryEntry {
        tag: be_u32(b, p),
        offset: be_u32(b, p + 4),
        comp_length: be_u32(b, p + 8),
        orig_length: be_u32(b, p + 12),
        orig_checksum: be_u32(b, p + 16),
    }
}

/// The table directory of `b`, in the order of the file.
pub open spec fn woff_directory(b: Seq<u8>) -> Seq<WoffTableDirectoryEntry> {
    Seq::new(
        woff_header_of(b).num_tables as nat,
        |i: int| entry_at_offset(b, WOFF_HEADER_SIZE + i * WOFF_TABLE_DIRECTORY_ENTRY_SIZE),
    )
}

/// An entry is sound when its data lies inside a buffer of `len` bytes and it is not
/// longer compressed than uncompressed.
pub open spec fn entry_in_bounds(e: WoffTableDirectoryEntry, len: nat) -> bool {
    e.comp_length <= e.orig_length && e.offset + e.comp_length <= len
}

/// Every entry of the directory of `b` is sound.
pub open spec fn directory_in_bounds(b: Seq<u8>) -> bool {
    forall|i: int|
        0 <= i < woff_directory(b).len() ==> #[trigger] entry_in_bounds(
            woff_directory(b)[i],
            b.len(),
        )
}

/// `s` with `e` inserted after the last element whose tag is not above `e.tag`
/// (for a sorted `s`: after every element with a tag not above `e.tag`).
pub open spec fn insert_by_tag(s: Seq<WoffTableDirectoryEntry>, e: WoffTableDirectoryEntry) -> Seq<
    WoffTableDirectoryEntry,
>
    decreases s.len(),
{
    if s.len() == 0 {
        seq![e]
    } else if e.tag < s.last().tag {
        insert_by_tag(s.drop_last(), e).push(s.last())
    } else {
        s.push(e)
    }
}

/// `s` sorted by tag, ascending; entries with equal tags keep their order.
pub open spec fn sort_by_tag(s: Seq<WoffTableDirectoryEntry>) -> Seq<WoffTableDirectoryEntry>
    decreases s.len(),
{
    if s.len() == 0 {
        s
    } else {
        insert_by_tag(sort_by_tag(s.drop_last()), s.last())
    }
}

/// The tags of `s` do not decrease.
pub open spec fn sorted_by_tag(s: Seq<WoffTableDirectoryEntry>) -> bool {
    forall|i: int, j: int| 0 <= i < j < s.len() ==> #[trigger] s[i].tag <= #[trigger] s[j].tag
}

/// The bytes that the tables of `s` take in an SFNT file, padding included.
pub open spec fn tables_len(s: Seq<WoffTableDirectoryEntry>) -> nat
    decreases s.len(),
{
    if s.len() == 0 {
        0
    } else {
        tables_len(s.drop_last()) + padded(s.last().orig_length as nat)
    }
}

/// Where the data of the `i`-th of the tables `s` starts in the SFNT file.
pub open spec fn table_start(s: Seq<WoffTableDirectoryEntry>, i: int) -> nat {
    (SFNT_OFFSET_TABLE_SIZE + SFNT_TABLE_RECORD_SIZE * s.len() + tables_len(s.take(i))) as nat
}

/// The length of the SFNT file that holds the tables `s`.
pub open spec fn sfnt_length(s: Seq<WoffTableDirectoryEntry>) -> nat {
    table_start(s, s.len() as int)
}

/// The SFNT table records for the tables `s`, laid out in this order.
pub open spec fn sfnt_records(s: Seq<WoffTableDirectoryEntry>) -> Seq<SfntTableRecord> {
    Seq::new(
        s.len(),
        |i: int|
            SfntTableRecord {
                table_tag: s[i].tag,
                checksum: s[i].orig_checksum,
                offset: table_start(s, i) as u32,
                length: s[i].orig_length,
            },
    )
}

/// The SFNT offset table for a WOFF header.
pub open spec fn sfnt_offset_table(h: WoffHeader) -> SfntOffsetTable {
    SfntOffsetTable {
        version: h.flavor,
        num_tables: h.num_tables,
        search_range: search_range_of(h.num_tables),
        entry_selector: entry_selector_of(search_range_of(h.num_tables) as nat) as u16,
        range_shift: range_shift_of(h.num_tables, search_range_of(h.num_tables)),
    }
}

/// `n` zero bytes.
pub open spec fn zeros(n: nat) -> Seq<u8> {
    Seq::new(n, |i: int| 0u8)
}

/// `d` followed by the zero bytes that bring its length to a multiple of four.
pub open spec fn pad_table(d: Seq<u8>) -> Seq<u8> {
    d + zeros((padded(d.len()) - d.len()) as nat)
}

/// The bytes `b` holds for the table `e`.
pub open spec fn stored_table(b: Seq<u8>, e: WoffTableDirectoryEntry) -> Seq<u8> {
    b.subrange(e.offset as int, e.offset + e.comp_length)
}

/// The uncompressed content of the table `e` of `b`: the stored bytes where the
/// lengths agree, else what inflating them gives (a length beyond what a buffer
/// of this machine can hold fails as a full output buffer).
pub open spec fn table_data(b: Seq<u8>, e: WoffTableDirectoryEntry) -> Result<Seq<u8>, Error> {
    if e.orig_length == e.comp_length {
        Ok(stored_table(b, e))
    } else if e.orig_length > isize::MAX {
        Err(Error::OutBufferFull)
    } else {
        inflate_outcome(
            raw_inflate(stored_table(b, e), e.orig_length as nat).0,
            raw_inflate(stored_table(b, e), e.orig_length as nat).1,
            e.orig_length,
        )
    }
}

/// The padded contents of the tables `s` of `b`, or the error of the first
/// table that fails.
pub open spec fn tables_data(b: Seq<u8>, s: Seq<WoffTableDirectoryEntry>) -> Result<
    Seq<Seq<u8>>,
    Error,
>
    decreases s.len(),
{
    if s.len() == 0 {
        Ok(Seq::empty())
    } else {
        match tables_data(b, s.drop_last()) {
            Err(e) => Err(e),
            Ok(ds) => match table_data(b, s.last()) {
                Err(e) => Err(e),
                Ok(d) => Ok(ds.push(pad_table(d))),
            },
        }
    }
}

/// The byte sequences `ss`, one after the other.
pub open spec fn concat(ss: Seq<Seq<u8>>) -> Seq<u8>
    decreases ss.len(),
{
    if ss.len() == 0 {
        Seq::empty()
    } else {
        concat(ss.drop_last()) + ss.last()
    }
}

/// The table records `rs`, serialised one after the other.
pub open spec fn records_bytes(rs: Seq<SfntTableRecord>) -> Seq<u8>
    decreases rs.len(),
{
    if rs.len() == 0 {
        Seq::empty()
    } else {
        records_bytes(rs.drop_last()) + table_record_bytes(rs.last())
    }
}

/// An SFNT file: the offset table, the table records, then the table data.
pub open spec fn sfnt_bytes(t: SfntOffsetTable, rs: Seq<SfntTableRecord>, ds: Seq<Seq<u8>>) -> Seq<
    u8,
> {
    offset_table_bytes(t) + records_bytes(rs) + concat(ds)
}

/// The parts of the SFNT file that `b` decodes to: offset table, table records
/// (sorted by tag) and padded table data in the same order; or the error.
pub open spec fn woff_tables(b: Seq<u8>) -> Result<
    (SfntOffsetTable, Seq<SfntTableRecord>, Seq<Seq<u8>>),
    Error,
> {
    if sanity_error(b) != Error::NoError {
        Err(sanity_error(b))
    } else if !directory_in_bounds(b) {
        Err(Error::InvalidWoffStructure)
    } else {
        let s = sort_by_tag(woff_directory(b));
        if sfnt_length(s) > u32::MAX {
            Err(Error::InvalidWoffStructure)
        } else {
            match tables_data(b, s) {
                Err(e) => Err(e),
                Ok(ds) => Ok((sfnt_offset_table(woff_header_of(b)), sfnt_records(s), ds)),
            }
        }
    }
}

/// The SFNT file that the WOFF file `b` decodes to, or the error. Besides the
/// container, directory and table errors, a directory whose SFNT file would be
/// longer than `u32::MAX` bytes, past what the 32-bit offsets of its table
/// records can address, fails with `InvalidWoffStructure`.
#[verifier::opaque]
pub open spec fn decode_woff(b: Seq<u8>) -> Result<Seq<u8>, Error> {
    match woff_tables(b) {
        Ok(p) => Ok(sfnt_bytes(p.0, p.1, p.2)),
        Err(e) => Err(e),
    }
}

// ---------------------------------------------------------------------------
// Parsing and validation.
// ---------------------------------------------------------------------------

/// Checks the buffer against the WOFF header before any table is read.
pub fn sanity_check(buf: &[u8]) -> (r: Error)
    ensures
        r == sanity_error(buf@),
{
    if buf.len() == 0 {
        return Error::InputBufferIsEmpty;
    }
    if buf.len() < WOFF_HEADER_SIZE {
        return Error::InvalidWoffSize;
    }
    let woff_header = create_woff_header(buf);
    if woff_header.signature != WOFF_SIGNATURE {
        return Error::InvalidWoffSignature;
    }
    if woff_header.length as usize != buf.len() {
        return Error::InvalidWoffSize;
    }
    // The directory check is made in u64, where it cannot overflow.
    if (buf.len() as u64) < WOFF_HEADER_SIZE as u64 + woff_header.num_tables as u64
        * WOFF_TABLE_DIRECTORY_ENTRY_SIZE as u64 {
        return Error::InvalidWoffSize;
    }
    Error::NoError
}

/// Reads the WOFF header at the start of `buf`.
pub fn create_woff_header(buf: &[u8]) -> (r: WoffHeader)
    requires
        buf@.len() >= WOFF_HEADER_SIZE,
    ensures
        r == woff_header_of(buf@),
{
    WoffHeader {
        signature: read_u32_be(buf, 0).unwrap(),
        flavor: read_u32_be(buf, 4).unwrap(),
        length: read_u32_be(buf, 8).unwrap(),
        num_tables: read_u16_be(buf, 12).unwrap(),
        reserved: read_u16_be(buf, 14).unwrap(),
        total_sfnt_size: read_u32_be(buf, 16).unwrap(),
        major_version: read_u16_be(buf, 20).unwrap(),
        minor_version: read_u16_be(buf, 22).unwrap(),
        meta_offset: read_u32_be(buf, 24).unwrap(),
        meta_length: read_u32_be(buf, 28).unwrap(),
        meta_orig_length: read_u32_be(buf, 32).unwrap(),
        priv_offset: read_u32_be(buf, 36).unwrap(),
        priv_length: read_u32_be(buf, 40).unwrap(),
    }
}

/// Reads the table directory entry that starts at byte `next_table_offset` of `buf`.
pub fn create_woff_table_dir_entry(buf: &[u8], next_table_offset: usize) -> (r:
    WoffTableDirectoryEntry)
    requires
        next_table_offset + WOFF_TABLE_DIRECTORY_ENTRY_SIZE <= buf@.len(),
    ensures
        r == entry_at_offset(buf@, next_table_offset as int),
{
    let buf_len = buf.len();
    assert(next_table_offset + 16 < buf_len);
    WoffTableDirectoryEntry {
        tag: read_u32_be(buf, next_table_offset).unwrap(),
        offset: read_u32_be(buf, next_table_offset + 4).unwrap(),
        comp_length: read_u32_be(buf, next_table_offset + 8).unwrap(),
        orig_length: read_u32_be(buf, next_table_offset + 12).unwrap(),
        orig_checksum: read_u32_be(buf, next_table_offset + 16).unwrap(),
    }
}

/// Reads the whole table directory of a buffer that passed `sanity_check`,
/// checking each entry as it is read.
pub fn read_table_directory(buf: &[u8], num_tables: u16) -> (r: Result<
    Vec<WoffTableDirectoryEntry>,
    Error,
>)
    requires
        sanity_error(buf@) == Error::NoError,
        num_tables == woff_header_of(buf@).num_tables,
    ensures
        match r {
            Ok(v) => v@ == woff_directory(buf@) && directory_in_bounds(buf@),
            Err(e) => e == Error::InvalidWoffStructure && !directory_in_bounds(buf@),
        },
{
    let mut entries: Vec<WoffTableDirectoryEntry> = Vec::with_capacity(num_tables as usize);
    let mut i: usize = 0;
    while i < num_tables as usize
        invariant
            i <= num_tables,
            num_tables == woff_header_of(buf@).num_tables,
            sanity_error(buf@) == Error::NoError,
            entries@ == woff_directory(buf@).take(i as int),
            forall|j: int| 0 <= j < i ==> #[trigger] entry_in_bounds(entries@[j], buf@.len()),
        decreases num_tables - i,
    {
        let next_table_offset = WOFF_HEADER_SIZE + i * WOFF_TABLE_DIRECTORY_ENTRY_SIZE;
        let entry = create_woff_table_dir_entry(buf, next_table_offset);
        assert(entry == woff_directory(buf@)[i as int]);
        if entry.orig_length < entry.comp_length || entry.offset as u64 + entry.comp_length as u64
            > buf.len() as u64 {
            assert(!entry_in_bounds(woff_directory(buf@)[i as int], buf@.len()));
            return Err(Error::InvalidWoffStructure);
        }
        entries.push(entry);
        i = i + 1;
        assert(entries@ =~= woff_directory(buf@).take(i as int));
    }
    assert(entries@ =~= woff_directory(buf@));
    Ok(entries)
}

proof fn lemma_insert_by_tag_keeps(
    s: Seq<WoffTableDirectoryEntry>,
    e: WoffTableDirectoryEntry,
    p: spec_fn(WoffTableDirectoryEntry) -> bool,
)
    requires
        forall|i: int| 0 <= i < s.len() ==> p(#[trigger] s[i]),
        p(e),
    ensures
        insert_by_tag(s, e).len() == s.len() + 1,
        forall|i: int| 0 <= i < insert_by_tag(s, e).len() ==> p(#[trigger] insert_by_tag(s, e)[i]),
    decreases s.len(),
{
    if s.len() > 0 && e.tag < s.last().tag {
        lemma_insert_by_tag_keeps(s.drop_last(), e, p);
    }
}

/// Every entry of `sort_by_tag(s)` has each property that every entry of `s` has,
/// and the two have the same length.
pub proof fn lemma_sort_by_tag_keeps(
    s: Seq<WoffTableDirectoryEntry>,
    p: spec_fn(WoffTableDirectoryEntry) -> bool,
)
    requires
        forall|i: int| 0 <= i < s.len() ==> p(#[trigger] s[i]),
    ensures
        sort_by_tag(s).len() == s.len(),
        forall|i: int| 0 <= i < sort_by_tag(s).len() ==> p(#[trigger] sort_by_tag(s)[i]),
    decreases s.len(),
{
    if s.len() > 0 {
        lemma_sort_by_tag_keeps(s.drop_last(), p);
        lemma_insert_by_tag_keeps(sort_by_tag(s.drop_last()), s.last(), p);
    }
}

proof fn lemma_insert_by_tag_sorted(s: Seq<WoffTableDirectoryEntry>, e: WoffTableDirectoryEntry)
    requires
        sorted_by_tag(s),
    ensures
        sorted_by_tag(insert_by_tag(s, e)),
    decreases s.len(),
{
    if s.len() > 0 {
        let last = s.last();
        if e.tag < last.tag {
            let t = s.drop_last();
            lemma_insert_by_tag_sorted(t, e);
            let p = |x: WoffTableDirectoryEntry| x.tag <= last.tag;
            assert forall|i: int| 0 <= i < t.len() implies p(#[trigger] t[i]) by {
                assert(s[i].tag <= s[s.len() - 1].tag);
            }
            lemma_insert_by_tag_keeps(t, e, p);
            let r = insert_by_tag(t, e);
            assert forall|i: int, j: int| 0 <= i < j < r.push(last).len() implies #[trigger] r.push(
                last,
            )[i].tag <= #[trigger] r.push(last)[j].tag by {
                if j < r.len() {
                    assert(r[i].tag <= r[j].tag);
                } else {
                    assert(p(r[i]));
                }
            }
        } else {
            assert forall|i: int, j: int| 0 <= i < j < s.push(e).len() implies #[trigger] s.push(
                e,
            )[i].tag <= #[trigger] s.push(e)[j].tag by {
                if j < s.len() {
                    assert(s[i].tag <= s[j].tag);
                } else if i < s.len() - 1 {
                    assert(s[i].tag <= s[s.len() - 1].tag);
                }
            }
        }
    }
}

/// `sort_by_tag` gives a sequence whose tags do not decrease.
pub proof fn lemma_sort_by_tag_sorted(s: Seq<WoffTableDirectoryEntry>)
    ensures
        sorted_by_tag(sort_by_tag(s)),
    decreases s.len(),
{
    if s.len() > 0 {
        lemma_sort_by_tag_sorted(s.drop_last());
        lemma_insert_by_tag_sorted(sort_by_tag(s.drop_last()), s.last());
    }
}

fn insert_entry_by_tag(v: &mut Vec<WoffTableDirectoryEntry>, e: WoffTableDirectoryEntry)
    ensures
        final(v)@ == insert_by_tag(old(v)@, e),
{
    let mut k: usize = v.len();
    assert(old(v)@.take(k as int) =~= old(v)@);
    assert(old(v)@.skip(k as int) =~= Seq::<WoffTableDirectoryEntry>::empty());
    while k > 0 && v[k - 1].tag > e.tag
        invariant
            k <= v@.len(),
            v@ == old(v)@,
            insert_by_tag(v@, e) == insert_by_tag(v@.take(k as int), e) + v@.skip(k as int),
        decreases k,
    {
        let ghost t = v@.take(k as int);
        assert(t.drop_last() =~= v@.take(k - 1));
        assert(seq![v@[k - 1]] + v@.skip(k as int) =~= v@.skip(k - 1));
        assert(insert_by_tag(t, e) == insert_by_tag(v@.take(k - 1), e).push(v@[k - 1]));
        assert(insert_by_tag(t, e) + v@.skip(k as int) =~= insert_by_tag(v@.take(k - 1), e)
            + v@.skip(k - 1));
        k = k - 1;
    }
    proof {
        let t = v@.take(k as int);
        if k > 0 {
            assert(t.drop_last() + seq![t.last()] =~= t);
        }
        assert(insert_by_tag(t, e) =~= t.push(e));
    }
    v.insert(k, e);
    assert(final(v)@ =~= insert_by_tag(old(v)@, e));
}

/// The entries sorted by tag, ascending; entries with equal tags keep their order.
pub fn sort_entries_by_tag(entries: &Vec<WoffTableDirectoryEntry>) -> (r: Vec<
    WoffTableDirectoryEntry,
>)
    ensures
        r@ == sort_by_tag(entries@),
{
    let mut sorted: Vec<WoffTableDirectoryEntry> = Vec::with_capacity(entries.len());
    let mut i: usize = 0;
    assert(entries@.take(0) =~= Seq::<WoffTableDirectoryEntry>::empty());
    while i < entries.len()
        invariant
            i <= entries@.len(),
            sorted@ == sort_by_tag(entries@.take(i as int)),
        decreases entries@.len() - i,
    {
        assert(entries@.take(i + 1).drop_last() =~= entries@.take(i as int));
        insert_entry_by_tag(&mut sorted, entries[i]);
        i = i + 1;
    }
    assert(entries@.take(i as int) =~= entries@);
    sorted
}

// ---------------------------------------------------------------------------
// Layout of the SFNT file.
// ---------------------------------------------------------------------------

pub(crate) proof fn lemma_table_start_step(s: Seq<WoffTableDirectoryEntry>, i: int)
    requires
        0 <= i < s.len(),
    ensures
        table_start(s, i + 1) == table_start(s, i) + padded(s[i].orig_length as nat),
{
    assert(s.take(i + 1).drop_last() =~= s.take(i));
}

pub(crate) proof fn lemma_tables_len_prefix(s: Seq<WoffTableDirectoryEntry>, i: int)
    requires
        0 <= i <= s.len(),
    ensures
        tables_len(s.take(i)) <= tables_len(s),
    decreases s.len(),
{
    if i == s.len() {
        assert(s.take(i) =~= s);
    } else {
        lemma_tables_len_prefix(s.drop_last(), i);
        assert(s.drop_last().take(i) =~= s.take(i));
    }
}

/// The SFNT table records for the entries `sorted`, laid out in this order, or
/// `None` where the SFNT file would not fit in the 32-bit offsets of its records.
pub fn create_table_records(sorted: &Vec<WoffTableDirectoryEntry>) -> (r: Option<
    Vec<SfntTableRecord>,
>)
    requires
        sorted@.len() <= u16::MAX,
    ensures
        match r {
            Some(v) => sfnt_length(sorted@) <= u32::MAX && v@ == sfnt_records(sorted@),
            None => sfnt_length(sorted@) > u32::MAX,
        },
{
    let ghost s = sorted@;
    let n = sorted.len();
    let mut records: Vec<SfntTableRecord> = Vec::with_capacity(n);
    assert(16 * (n as u64) <= 0x10_0000);
    let mut next_offset: u64 = SFNT_OFFSET_TABLE_SIZE as u64 + SFNT_TABLE_RECORD_SIZE as u64
        * n as u64;
    assert(s.take(0) =~= Seq::<WoffTableDirectoryEntry>::empty());
    let mut i: usize = 0;
    while i < n
        invariant
            n == s.len(),
            s == sorted@,
            n <= u16::MAX,
            i <= n,
            next_offset == table_start(s, i as int),
            next_offset <= u32::MAX,
            records@ == sfnt_records(s).take(i as int),
        decreases n - i,
    {
        let entry = sorted[i];
        records.push(
            SfntTableRecord {
                table_tag: entry.tag,
                checksum: entry.orig_checksum,
                offset: next_offset as u32,
                length: entry.orig_length,
            },
        );
        proof {
            lemma_table_start_step(s, i as int);
        }
        next_offset = next_offset + (entry.orig_length as u64 + 3) / 4 * 4;
        assert(records@ =~= sfnt_records(s).take(i + 1));
        i = i + 1;
        if next_offset > u32::MAX as u64 {
            proof {
                lemma_tables_len_prefix(s, i as int);
                assert(s.take(n as int) =~= s);
            }
            return None;
        }
    }
    assert(s.take(n as int) =~= s);
    assert(records@ =~= sfnt_records(s));
    Some(records)
}

// ---------------------------------------------------------------------------
// Table data.
// ---------------------------------------------------------------------------

/// The contents of the byte vectors `v`.
pub open spec fn views(v: Seq<Vec<u8>>) -> Seq<Seq<u8>> {
    v.map_values(|t: Vec<u8>| t@)
}

/// Produces the uncompressed, zero-padded data of the table `entry` of `buf`.
pub fn decode_table(buf: &[u8], entry: WoffTableDirectoryEntry) -> (r: Result<Vec<u8>, Error>)
    requires
        entry_in_bounds(entry, buf@.len()),
        entry.orig_length as int + 3 <= u32::MAX,
    ensures
        match r {
            Ok(v) => table_data(buf@, entry) is Ok && v@ == pad_table(
                table_data(buf@, entry)->Ok_0,
            ),
            Err(e) => table_data(buf@, entry) == Err::<Seq<u8>, Error>(e),
        },
{
    let buf_len = buf.len();
    assert(entry.offset + entry.comp_length <= buf_len);
    let start_offset = entry.offset as usize;
    let end_offset = (entry.offset as u64 + entry.comp_length as u64) as usize;
    let source_slice = vstd::slice::slice_subrange(buf, start_offset, end_offset);
    let mut sfnt_table_data: Vec<u8> = if entry.orig_length != entry.comp_length {
        match inflate_table(source_slice, entry.orig_length) {
            Ok(data) => {
                assert(source_slice@ == stored_table(buf@, entry));
                data
            },
            Err(e) => {
                return Err(e);
            },
        }
    } else {
        assert(source_slice@ == stored_table(buf@, entry));
        vstd::slice::slice_to_vec(source_slice)
    };
    let ghost data = sfnt_table_data@;
    assert(data == table_data(buf@, entry)->Ok_0);
    assert(data.len() == entry.orig_length);
    // Table data that does not end on a 4-byte boundary is followed by zero bytes.
    if entry.orig_length % 4 != 0 {
        let padded_len = calculate_padded_len(entry.orig_length, sfnt_table_data.len());
        let mut k: u32 = 0;
        while k < padded_len
            invariant
                k <= padded_len,
                sfnt_table_data@ == data + zeros(k as nat),
            decreases padded_len - k,
        {
            sfnt_table_data.push(0u8);
            k = k + 1;
            assert(sfnt_table_data@ =~= data + zeros(k as nat));
        }
    } else {
        assert(data + zeros(0) =~= data);
    }
    Ok(sfnt_table_data)
}

proof fn lemma_tables_data_error_prefix(b: Seq<u8>, s: Seq<WoffTableDirectoryEntry>, k: int, e: Error)
    requires
        0 <= k <= s.len(),
        tables_data(b, s.take(k)) == Err::<Seq<Seq<u8>>, Error>(e),
    ensures
        tables_data(b, s) == Err::<Seq<Seq<u8>>, Error>(e),
    decreases s.len(),
{
    if k == s.len() {
        assert(s.take(k) =~= s);
    } else {
        assert(s.drop_last().take(k) =~= s.take(k));
        lemma_tables_data_error_prefix(b, s.drop_last(), k, e);
    }
}

/// A sound entry whose padded length fits in 32 bits.
pub open spec fn decodable(e: WoffTableDirectoryEntry, len: nat) -> bool {
    entry_in_bounds(e, len) && e.orig_length as int + 3 <= u32::MAX
}

/// Produces the padded data of every table of `sorted`, in this order; the first
/// table that fails decides the error.
pub fn decode_tables(buf: &[u8], sorted: &Vec<WoffTableDirectoryEntry>) -> (r: Result<
    Vec<Vec<u8>>,
    Error,
>)
    requires
        forall|i: int| 0 <= i < sorted@.len() ==> #[trigger] decodable(sorted@[i], buf@.len()),
    ensures
        match r {
            Ok(v) => tables_data(buf@, sorted@) == Ok::<Seq<Seq<u8>>, Error>(views(v@)),
            Err(e) => tables_data(buf@, sorted@) == Err::<Seq<Seq<u8>>, Error>(e),
        },
{
    let ghost s = sorted@;
    let mut data_tables: Vec<Vec<u8>> = Vec::with_capacity(sorted.len());
    assert(s.take(0) =~= Seq::<WoffTableDirectoryEntry>::empty());
    assert(views(data_tables@) =~= Seq::<Seq<u8>>::empty());
    let mut i: usize = 0;
    while i < sorted.len()
        invariant
            s == sorted@,
            i <= s.len(),
            forall|j: int| 0 <= j < sorted@.len() ==> #[trigger] decodable(sorted@[j], buf@.len()),
            tables_data(buf@, s.take(i as int)) == Ok::<Seq<Seq<u8>>, Error>(
                views(data_tables@),
            ),
        decreases s.len() - i,
    {
        let entry = sorted[i];
        assert(decodable(s[i as int], buf@.len()));
        assert(s.take(i + 1).drop_last() =~= s.take(i as int));
        match decode_table(buf, entry) {
            Ok(table) => {
                let ghost prev = data_tables@;
                data_tables.push(table);
                assert(views(data_tables@) =~= views(prev).push(table@));
            },
            Err(e) => {
                proof {
                    lemma_tables_data_error_prefix(buf@, s, i + 1, e);
                }
                return Err(e);
            },
        }
        i = i + 1;
    }
    assert(s.take(i as int) =~= s);
    Ok(data_tables)
}

// ---------------------------------------------------------------------------
// Assembly.
// ---------------------------------------------------------------------------

/// The parts of a decoded SFNT file, before they are concatenated.
pub struct DecodedData {
    pub sfnt_header: SfntOffsetTable,
    pub table_records: Vec<SfntTableRecord>,
    pub data_tables: Vec<Vec<u8>>,
}

/// Concatenates the offset table, the table records and the table data into
/// one SFNT file.
pub fn assemble_sfnt_data_vec(
    sfnt_header: SfntOffsetTable,
    table_records: Vec<SfntTableRecord>,
    data_tables: Vec<Vec<u8>>,
) -> (r: Vec<u8>)
    ensures
        r@ == sfnt_bytes(sfnt_header, table_records@, views(data_tables@)),
{
    let mut sfnt_data_vec = sfnt_header.transform_to_u8_vec();
    let ghost head = sfnt_data_vec@;
    let ghost rs = table_records@;
    assert(rs.take(0) =~= Seq::<SfntTableRecord>::empty());
    assert(head + records_bytes(rs.take(0)) =~= head);
    let mut i: usize = 0;
    while i < table_records.len()
        invariant
            rs == table_records@,
            i <= rs.len(),
            sfnt_data_vec@ == head + records_bytes(rs.take(i as int)),
        decreases rs.len() - i,
    {
        let mut record_data = table_records[i].transform_to_u8_vec();
        sfnt_data_vec.append(&mut record_data);
        assert(rs.take(i + 1).drop_last() =~= rs.take(i as int));
        i = i + 1;
        assert(sfnt_data_vec@ =~= head + records_bytes(rs.take(i as int)));
    }
    assert(rs.take(i as int) =~= rs);
    let ghost mid = sfnt_data_vec@;
    let ghost ds = views(data_tables@);
    let mut tables = data_tables;
    assert(ds.take(0) =~= Seq::<Seq<u8>>::empty());
    assert(mid + concat(ds.take(0)) =~= mid);
    let mut j: usize = 0;
    while j < tables.len()
        invariant
            tables@.len() == ds.len(),
            j <= ds.len(),
            forall|k: int| j <= k < ds.len() ==> (#[trigger] tables@[k])@ == ds[k],
            sfnt_data_vec@ == mid + concat(ds.take(j as int)),
        decreases ds.len() - j,
    {
        let mut table: Vec<u8> = Vec::new();
        tables.set_and_swap(j, &mut table);
        assert(table@ == ds[j as int]);
        sfnt_data_vec.append(&mut table);
        assert(ds.take(j + 1).drop_last() =~= ds.take(j as int));
        j = j + 1;
        assert(sfnt_data_vec@ =~= mid + concat(ds.take(j as int)));
        assert forall|k: int| j <= k < ds.len() implies (#[trigger] tables@[k])@ == ds[k] by {}
    }
    assert(ds.take(j as int) =~= ds);
    assert(sfnt_data_vec@ =~= sfnt_bytes(sfnt_header, table_records@, views(data_tables@)));
    sfnt_data_vec
}

proof fn lemma_padded_bound(s: Seq<WoffTableDirectoryEntry>, i: int)
    requires
        0 <= i < s.len(),
    ensures
        padded(s[i].orig_length as nat) <= tables_len(s),
{
    lemma_tables_len_prefix(s, i + 1);
    assert(s.take(i + 1).drop_last() =~= s.take(i));
}

/// The SFNT offset table for a WOFF header: the flavor becomes the version, and
/// the binary-search fields are derived from the number of tables.
pub fn create_sfnt_offset_table(woff_header: &WoffHeader) -> (r: SfntOffsetTable)
    ensures
        r == sfnt_offset_table(*woff_header),
{
    let search_range = calculate_search_range(woff_header.num_tables);
    let entry_selector = calculate_entry_selector(search_range);
    let range_shift = calculate_range_shift(woff_header.num_tables, search_range);
    SfntOffsetTable {
        version: woff_header.flavor,
        num_tables: woff_header.num_tables,
        search_range,
        entry_selector,
        range_shift,
    }
}

/// Decodes a WOFF buffer into the parts of the SFNT file.
pub fn decode_internal(buf: &[u8]) -> (r: Result<DecodedData, Error>)
    ensures
        match r {
            Ok(d) => woff_tables(buf@) == Ok::<
                (SfntOffsetTable, Seq<SfntTableRecord>, Seq<Seq<u8>>),
                Error,
            >((d.sfnt_header, d.table_records@, views(d.data_tables@))),
            Err(e) => woff_tables(buf@) == Err::<
                (SfntOffsetTable, Seq<SfntTableRecord>, Seq<Seq<u8>>),
                Error,
            >(e),
        },
{
    let error = sanity_check(buf);
    if error != Error::NoError {
        return Err(error);
    }
    let woff_header = create_woff_header(buf);

    let sfnt_header = create_sfnt_offset_table(&woff_header);
    let entries = match read_table_directory(buf, woff_header.num_tables) {
        Ok(entries) => entries,
        Err(e) => {
            return Err(e);
        },
    };
    let sorted = sort_entries_by_tag(&entries);
    let ghost s = sorted@;
    proof {
        let len = buf@.len();
        let p = |e: WoffTableDirectoryEntry| entry_in_bounds(e, len);
        assert forall|i: int| 0 <= i < entries@.len() implies p(#[trigger] entries@[i]) by {
            assert(entry_in_bounds(woff_directory(buf@)[i], len));
        }
        lemma_sort_by_tag_keeps(entries@, p);
        assert(s == sort_by_tag(woff_directory(buf@)));
    }
    let table_records = match create_table_records(&sorted) {
        Some(records) => records,
        None => {
            return Err(Error::InvalidWoffStructure);
        },
    };
    proof {
        assert(s.take(s.len() as int) =~= s);
        assert(tables_len(s) <= u32::MAX);
        assert forall|i: int| 0 <= i < s.len() implies #[trigger] decodable(s[i], buf@.len()) by {
            lemma_padded_bound(s, i);
            assert(s[i].orig_length <= padded(s[i].orig_length as nat));
            assert(entry_in_bounds(s[i], buf@.len()));
        }
    }
    let data_tables = match decode_tables(buf, &sorted) {
        Ok(tables) => tables,
        Err(e) => {
            return Err(e);
        },
    };
    Ok(DecodedData { sfnt_header, table_records, data_tables })
}

}
