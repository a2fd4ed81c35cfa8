use vstd::prelude::*;

use crate::decode::{
    concat, decode_woff, directory_in_bounds, entry_in_bounds, insert_by_tag,
    lemma_sort_by_tag_keeps, lemma_sort_by_tag_sorted, lemma_table_start_step,
    lemma_tables_len_prefix, pad_table, records_bytes, sanity_error, sfnt_bytes, sfnt_length,
    sfnt_offset_table, sfnt_records, sort_by_tag, stored_table, table_data, table_start,
    tables_data, tables_len, woff_directory, woff_header_of,
};
use crate::structures::{
    offset_table_bytes, table_record_bytes, SfntOffsetTable, SfntTableRecord,
    WoffTableDirectoryEntry,
};
use crate::utils::{be_u16, be_u32, padded, u16_bytes, u32_bytes};
use crate::Error;

verus! {

// ---------------------------------------------------------------------------
// Reading an SFNT file back.
// ---------------------------------------------------------------------------

/// The `numTables` field of the SFNT file `out`.
pub open spec fn sfnt_num_tables(out: Seq<u8>) -> nat {
    be_u16(out, 4) as nat
}

/// The `i`-th table record of the SFNT file `out`.
pub open spec fn sfnt_record_at(out: Seq<u8>, i: int) -> SfntTableRecord {
    let p = 12 + 16 * i;
    SfntTableRecord {
        table_tag: be_u32(out, p),
        checksum: be_u32(out, p + 4),
        offset: be_u32(out, p + 8),
        length: be_u32(out, p + 12),
    }
}

proof fn lemma_be_u32_at(t: Seq<u8>, p: int, x: u32)
    requires
        0 <= p,
        p + 4 <= t.len(),
        t.subrange(p, p + 4) == u32_bytes(x),
    ensures
        be_u32(t, p) == x,
{
    assert(t[p] == u32_bytes(x)[0]);
    assert(t[p + 1] == u32_bytes(x)[1]);
    assert(t[p + 2] == u32_bytes(x)[2]);
    assert(t[p + 3] == u32_bytes(x)[3]);
    assert((x / 0x100_0000) as u8 as u32 * 0x100_0000 + ((x / 0x1_0000) % 0x100) as u8 as u32
        * 0x1_0000 + ((x / 0x100) % 0x100) as u8 as u32 * 0x100 + (x % 0x100) as u8 as u32 == x)
        by (bit_vector);
}

proof fn lemma_be_u16_at(t: Seq<u8>, p: int, x: u16)
    requires
        0 <= p,
        p + 2 <= t.len(),
        t.subrange(p, p + 2) == u16_bytes(x),
    ensures
        be_u16(t, p) == x,
{
    assert(t[p] == u16_bytes(x)[0]);
    assert(t[p + 1] == u16_bytes(x)[1]);
    assert((x / 0x100) as u8 as u16 * 0x100 + (x % 0x100) as u8 as u16 == x) by (bit_vector);
}

proof fn lemma_record_at(t: Seq<u8>, p: int, r: SfntTableRecord)
    requires
        0 <= p,
        p + 16 <= t.len(),
        t.subrange(p, p + 16) == table_record_bytes(r),
    ensures
        be_u32(t, p) == r.table_tag,
        be_u32(t, p + 4) == r.checksum,
        be_u32(t, p + 8) == r.offset,
        be_u32(t, p + 12) == r.length,
{
    let rb = table_record_bytes(r);
    assert(t.subrange(p, p + 4) =~= rb.subrange(0, 4));
    assert(rb.subrange(0, 4) =~= u32_bytes(r.table_tag));
    assert(t.subrange(p + 4, p + 8) =~= rb.subrange(4, 8));
    assert(rb.subrange(4, 8) =~= u32_bytes(r.checksum));
    assert(t.subrange(p + 8, p + 12) =~= rb.subrange(8, 12));
    assert(rb.subrange(8, 12) =~= u32_bytes(r.offset));
    assert(t.subrange(p + 12, p + 16) =~= rb.subrange(12, 16));
    assert(rb.subrange(12, 16) =~= u32_bytes(r.length));
    lemma_be_u32_at(t, p, r.table_tag);
    lemma_be_u32_at(t, p + 4, r.checksum);
    lemma_be_u32_at(t, p + 8, r.offset);
    lemma_be_u32_at(t, p + 12, r.length);
}

proof fn lemma_records_bytes_at(rs: Seq<SfntTableRecord>, i: int)
    requires
        0 <= i < rs.len(),
    ensures
        records_bytes(rs).len() == 16 * rs.len(),
        records_bytes(rs).subrange(16 * i, 16 * i + 16) == table_record_bytes(rs[i]),
    decreases rs.len(),
{
    lemma_records_bytes_len(rs);
    if i < rs.len() - 1 {
        lemma_records_bytes_at(rs.drop_last(), i);
        assert(records_bytes(rs).subrange(16 * i, 16 * i + 16) =~= records_bytes(
            rs.drop_last(),
        ).subrange(16 * i, 16 * i + 16));
    } else {
        lemma_records_bytes_len(rs.drop_last());
        assert(records_bytes(rs).subrange(16 * i, 16 * i + 16) =~= table_record_bytes(rs.last()));
    }
}

proof fn lemma_records_bytes_len(rs: Seq<SfntTableRecord>)
    ensures
        records_bytes(rs).len() == 16 * rs.len(),
    decreases rs.len(),
{
    if rs.len() > 0 {
        lemma_records_bytes_len(rs.drop_last());
    }
}

proof fn lemma_concat_at(ds: Seq<Seq<u8>>, i: int)
    requires
        0 <= i < ds.len(),
    ensures
        concat(ds.take(i)).len() + ds[i].len() <= concat(ds).len(),
        concat(ds).subrange(
            concat(ds.take(i)).len() as int,
            (concat(ds.take(i)).len() + ds[i].len()) as int,
        ) == ds[i],
    decreases ds.len(),
{
    if i < ds.len() - 1 {
        lemma_concat_at(ds.drop_last(), i);
        assert(ds.drop_last().take(i) =~= ds.take(i));
        let lo = concat(ds.take(i)).len() as int;
        assert(concat(ds).subrange(lo, lo + ds[i].len()) =~= concat(ds.drop_last()).subrange(
            lo,
            lo + ds[i].len(),
        ));
    } else {
        assert(ds.take(i) =~= ds.drop_last());
        assert(concat(ds).subrange(
            concat(ds.take(i)).len() as int,
            (concat(ds.take(i)).len() + ds[i].len()) as int,
        ) =~= ds[i]);
    }
}

proof fn lemma_concat_prefix_len(ds: Seq<Seq<u8>>, s: Seq<WoffTableDirectoryEntry>, i: int)
    requires
        ds.len() == s.len(),
        0 <= i <= s.len(),
        forall|j: int| 0 <= j < s.len() ==> (#[trigger] ds[j]).len() == padded(
            s[j].orig_length as nat,
        ),
    ensures
        concat(ds.take(i)).len() == tables_len(s.take(i)),
    decreases i,
{
    if i > 0 {
        lemma_concat_prefix_len(ds, s, i - 1);
        assert(ds.take(i).drop_last() =~= ds.take(i - 1));
        assert(s.take(i).drop_last() =~= s.take(i - 1));
    }
}

proof fn lemma_tables_data_at(b: Seq<u8>, s: Seq<WoffTableDirectoryEntry>, ds: Seq<Seq<u8>>)
    requires
        tables_data(b, s) == Ok::<Seq<Seq<u8>>, Error>(ds),
        forall|j: int| 0 <= j < s.len() ==> #[trigger] entry_in_bounds(s[j], b.len()),
    ensures
        ds.len() == s.len(),
        forall|j: int|
            0 <= j < s.len() ==> #[trigger] table_data(b, s[j]) is Ok && table_data(
                b,
                s[j],
            )->Ok_0.len() == s[j].orig_length,
        forall|j: int|
            #![trigger ds[j]]
            0 <= j < s.len() ==> ds[j] == pad_table(table_data(b, s[j])->Ok_0) && ds[j].len()
                == padded(s[j].orig_length as nat),
    decreases s.len(),
{
    if s.len() > 0 {
        let prev = tables_data(b, s.drop_last())->Ok_0;
        assert forall|j: int| 0 <= j < s.drop_last().len() implies #[trigger] entry_in_bounds(
            s.drop_last()[j],
            b.len(),
        ) by {
            assert(entry_in_bounds(s[j], b.len()));
        }
        lemma_tables_data_at(b, s.drop_last(), prev);
        let e = s.last();
        assert(entry_in_bounds(s[s.len() - 1], b.len()));
        lemma_table_data_len(b, e);
        let d = table_data(b, e)->Ok_0;
        assert(pad_table(d).len() == padded(d.len()));
        assert(ds == prev.push(pad_table(d)));
        assert forall|j: int| 0 <= j < s.len() implies #[trigger] table_data(b, s[j]) is Ok
            && table_data(b, s[j])->Ok_0.len() == s[j].orig_length by {
            if j < s.len() - 1 {
                assert(s[j] == s.drop_last()[j]);
            }
        }
        assert forall|j: int| #![trigger ds[j]] 0 <= j < s.len() implies ds[j] == pad_table(
            table_data(b, s[j])->Ok_0,
        ) && ds[j].len() == padded(s[j].orig_length as nat) by {
            if j < s.len() - 1 {
                assert(s[j] == s.drop_last()[j]);
                assert(ds[j] == prev[j]);
            } else {
                assert(table_data(b, s[j]) is Ok);
            }
        }
    }
}

proof fn lemma_table_data_len(b: Seq<u8>, e: WoffTableDirectoryEntry)
    requires
        entry_in_bounds(e, b.len()),
    ensures
        table_data(b, e) is Ok ==> table_data(b, e)->Ok_0.len() == e.orig_length,
{
}

proof fn lemma_decoded_parts(b: Seq<u8>, out: Seq<u8>)
    requires
        decode_woff(b) == Ok::<Seq<u8>, Error>(out),
    ensures
        sanity_error(b) == Error::NoError,
        directory_in_bounds(b),
        sfnt_length(sort_by_tag(woff_directory(b))) <= u32::MAX,
        tables_data(b, sort_by_tag(woff_directory(b))) is Ok,
        out == sfnt_bytes(
            sfnt_offset_table(woff_header_of(b)),
            sfnt_records(sort_by_tag(woff_directory(b))),
            tables_data(b, sort_by_tag(woff_directory(b)))->Ok_0,
        ),
        forall|i: int|
            0 <= i < sort_by_tag(woff_directory(b)).len() ==> #[trigger] entry_in_bounds(
                sort_by_tag(woff_directory(b))[i],
                b.len(),
            ),
        sort_by_tag(woff_directory(b)).len() == woff_header_of(b).num_tables,
{
    reveal(decode_woff);
    let dir = woff_directory(b);
    let len = b.len();
    let p = |e: WoffTableDirectoryEntry| entry_in_bounds(e, len);
    assert forall|i: int| 0 <= i < dir.len() implies p(#[trigger] dir[i]) by {
        assert(entry_in_bounds(dir[i], len));
    }
    lemma_sort_by_tag_keeps(dir, p);
}

proof fn lemma_sfnt_layout(
    t: SfntOffsetTable,
    s: Seq<WoffTableDirectoryEntry>,
    ds: Seq<Seq<u8>>,
    out: Seq<u8>,
)
    requires
        out == sfnt_bytes(t, sfnt_records(s), ds),
        t.num_tables == s.len(),
        ds.len() == s.len(),
        forall|j: int| 0 <= j < s.len() ==> (#[trigger] ds[j]).len() == padded(
            s[j].orig_length as nat,
        ),
    ensures
        out.len() == sfnt_length(s),
        sfnt_num_tables(out) == s.len(),
        forall|i: int| 0 <= i < s.len() ==> #[trigger] sfnt_record_at(out, i) == sfnt_records(s)[i],
        forall|i: int|
            0 <= i < s.len() ==> #[trigger] out.subrange(
                table_start(s, i) as int,
                (table_start(s, i) + padded(s[i].orig_length as nat)) as int,
            ) == ds[i],
{
    let n = s.len();
    let rs = sfnt_records(s);
    lemma_records_bytes_len(rs);
    let ob = offset_table_bytes(t);
    let rb = records_bytes(rs);
    let cb = concat(ds);
    assert(ob.len() == 12);
    assert(ds.take(n as int) =~= ds);
    assert(s.take(n as int) =~= s);
    lemma_concat_prefix_len(ds, s, n as int);
    assert(out.len() == sfnt_length(s));
    assert(out.subrange(4, 6) =~= u16_bytes(t.num_tables));
    lemma_be_u16_at(out, 4, t.num_tables);
    assert forall|i: int| 0 <= i < n implies #[trigger] sfnt_record_at(out, i) == rs[i] by {
        lemma_records_bytes_at(rs, i);
        assert(out.subrange(12 + 16 * i, 12 + 16 * i + 16) =~= rb.subrange(16 * i, 16 * i + 16));
        lemma_record_at(out, 12 + 16 * i, rs[i]);
    }
    assert forall|i: int| 0 <= i < n implies #[trigger] out.subrange(
        table_start(s, i) as int,
        (table_start(s, i) + padded(s[i].orig_length as nat)) as int,
    ) == ds[i] by {
        lemma_concat_at(ds, i);
        lemma_concat_prefix_len(ds, s, i);
        let lo = concat(ds.take(i)).len() as int;
        assert(out.subrange(
            table_start(s, i) as int,
            (table_start(s, i) + padded(s[i].orig_length as nat)) as int,
        ) =~= cb.subrange(lo, lo + ds[i].len()));
    }
}

proof fn lemma_decoded_layout(b: Seq<u8>, out: Seq<u8>)
    requires
        decode_woff(b) == Ok::<Seq<u8>, Error>(out),
    ensures
        sfnt_length(sort_by_tag(woff_directory(b))) <= u32::MAX,
        out.len() == sfnt_length(sort_by_tag(woff_directory(b))),
        sfnt_num_tables(out) == sort_by_tag(woff_directory(b)).len(),
        forall|i: int|
            0 <= i < sort_by_tag(woff_directory(b)).len() ==> #[trigger] sfnt_record_at(out, i)
                == sfnt_records(sort_by_tag(woff_directory(b)))[i],
{
    let s = sort_by_tag(woff_directory(b));
    lemma_decoded_parts(b, out);
    let ds = tables_data(b, s)->Ok_0;
    lemma_tables_data_at(b, s, ds);
    lemma_sfnt_layout(sfnt_offset_table(woff_header_of(b)), s, ds, out);
}

proof fn lemma_record_offset(s: Seq<WoffTableDirectoryEntry>, i: int)
    requires
        0 <= i <= s.len(),
        sfnt_length(s) <= u32::MAX,
    ensures
        table_start(s, i) <= u32::MAX,
{
    lemma_tables_len_prefix(s, i);
    assert(s.take(s.len() as int) =~= s);
}

/// In a decoded SFNT file the table records are sorted by tag: the tags of
/// adjacent records do not decrease.
pub proof fn lemma_records_sorted_by_tag(b: Seq<u8>, out: Seq<u8>)
    requires
        decode_woff(b) == Ok::<Seq<u8>, Error>(out),
    ensures
        forall|i: int|
            0 <= i && i + 1 < sfnt_num_tables(out) ==> (#[trigger] sfnt_record_at(out, i)).table_tag
                <= sfnt_record_at(out, i + 1).table_tag,
{
    let s = sort_by_tag(woff_directory(b));
    lemma_decoded_layout(b, out);
    lemma_sort_by_tag_sorted(woff_directory(b));
    assert forall|i: int| 0 <= i && i + 1 < sfnt_num_tables(out) implies (#[trigger] sfnt_record_at(
        out,
        i,
    )).table_tag <= sfnt_record_at(out, i + 1).table_tag by {
        assert(sfnt_record_at(out, i + 1) == sfnt_records(s)[i + 1]);
        assert(s[i].tag <= s[i + 1].tag);
    }
}

/// In a decoded SFNT file the first table starts right after the table
/// directory, and each further table starts where the one before it ends,
/// padded to four bytes.
pub proof fn lemma_offsets_tightly_packed(b: Seq<u8>, out: Seq<u8>)
    requires
        decode_woff(b) == Ok::<Seq<u8>, Error>(out),
    ensures
        sfnt_num_tables(out) > 0 ==> sfnt_record_at(out, 0).offset == 12 + 16 * sfnt_num_tables(
            out,
        ),
        forall|i: int|
            0 <= i && i + 1 < sfnt_num_tables(out) ==> (#[trigger] sfnt_record_at(out, i + 1)).offset
                == sfnt_record_at(out, i).offset + padded(sfnt_record_at(out, i).length as nat),
{
    let s = sort_by_tag(woff_directory(b));
    lemma_decoded_layout(b, out);
    if s.len() > 0 {
        assert(s.take(0) =~= Seq::<WoffTableDirectoryEntry>::empty());
        lemma_record_offset(s, 0);
        assert(sfnt_record_at(out, 0) == sfnt_records(s)[0]);
    }
    assert forall|i: int| 0 <= i && i + 1 < sfnt_num_tables(out) implies (#[trigger] sfnt_record_at(
        out,
        i + 1,
    )).offset == sfnt_record_at(out, i).offset + padded(sfnt_record_at(out, i).length as nat) by {
        assert(sfnt_record_at(out, i) == sfnt_records(s)[i]);
        lemma_table_start_step(s, i);
        lemma_record_offset(s, i);
        lemma_record_offset(s, i + 1);
    }
}

proof fn lemma_tables_len_aligned(s: Seq<WoffTableDirectoryEntry>)
    ensures
        tables_len(s) % 4 == 0,
    decreases s.len(),
{
    if s.len() > 0 {
        lemma_tables_len_aligned(s.drop_last());
    }
}

proof fn lemma_padded_shift(start: int, len: int)
    requires
        start >= 0,
        len >= 0,
        start % 4 == 0,
    ensures
        padded((start + len) as nat) == start + padded(len as nat),
{
    assert((start + len + 3) / 4 == start / 4 + (len + 3) / 4);
}

proof fn lemma_record_fields(s: Seq<WoffTableDirectoryEntry>, i: int)
    requires
        0 <= i < s.len(),
        sfnt_length(s) <= u32::MAX,
    ensures
        sfnt_records(s)[i].offset == table_start(s, i),
        sfnt_records(s)[i].length == s[i].orig_length,
        sfnt_records(s)[i].table_tag == s[i].tag,
        table_start(s, i + 1) == table_start(s, i) + padded(s[i].orig_length as nat),
        table_start(s, i) % 4 == 0,
{
    lemma_record_offset(s, i);
    lemma_table_start_step(s, i);
    lemma_tables_len_aligned(s.take(i));
}

/// In a decoded SFNT file the end of each table, rounded up to a multiple of
/// four, is where the next table starts, and for the last table it is the end
/// of the file; a file without tables ends after its offset table.
pub proof fn lemma_padding(b: Seq<u8>, out: Seq<u8>)
    requires
        decode_woff(b) == Ok::<Seq<u8>, Error>(out),
    ensures
        sfnt_num_tables(out) == 0 ==> out.len() == 12,
        forall|i: int|
            0 <= i < sfnt_num_tables(out) ==> padded(
                ((#[trigger] sfnt_record_at(out, i)).offset + sfnt_record_at(out, i).length) as nat,
            ) == if i + 1 < sfnt_num_tables(out) {
                sfnt_record_at(out, i + 1).offset as int
            } else {
                out.len() as int
            },
{
    let s = sort_by_tag(woff_directory(b));
    let n = s.len();
    lemma_decoded_layout(b, out);
    if n == 0 {
        assert(s.take(0) =~= s);
    }
    assert forall|i: int| 0 <= i < sfnt_num_tables(out) implies padded(
        ((#[trigger] sfnt_record_at(out, i)).offset + sfnt_record_at(out, i).length) as nat,
    ) == if i + 1 < sfnt_num_tables(out) {
        sfnt_record_at(out, i + 1).offset as int
    } else {
        out.len() as int
    } by {
        assert(sfnt_record_at(out, i) == sfnt_records(s)[i]);
        lemma_record_fields(s, i);
        lemma_padded_shift(table_start(s, i) as int, s[i].orig_length as int);
        if i + 1 < n {
            assert(sfnt_record_at(out, i + 1) == sfnt_records(s)[i + 1]);
            lemma_record_fields(s, i + 1);
        } else {
            assert(s.take(i + 1) =~= s);
        }
    }
}

proof fn lemma_decoded_table_at(b: Seq<u8>, out: Seq<u8>, i: int)
    requires
        decode_woff(b) == Ok::<Seq<u8>, Error>(out),
        0 <= i < sort_by_tag(woff_directory(b)).len(),
    ensures
        table_data(b, sort_by_tag(woff_directory(b))[i]) is Ok,
        out.subrange(
            table_start(sort_by_tag(woff_directory(b)), i) as int,
            table_start(sort_by_tag(woff_directory(b)), i) + sort_by_tag(
                woff_directory(b),
            )[i].orig_length,
        ) == table_data(b, sort_by_tag(woff_directory(b))[i])->Ok_0,
{
    let s = sort_by_tag(woff_directory(b));
    lemma_decoded_parts(b, out);
    let ds = tables_data(b, s)->Ok_0;
    lemma_tables_data_at(b, s, ds);
    lemma_sfnt_layout(sfnt_offset_table(woff_header_of(b)), s, ds, out);
    let start = table_start(s, i) as int;
    let d = table_data(b, s[i])->Ok_0;
    assert(ds[i] == pad_table(d));
    assert(d.len() == s[i].orig_length);
    assert(out.subrange(
        table_start(s, i) as int,
        (table_start(s, i) + padded(s[i].orig_length as nat)) as int,
    ) == ds[i]);
    lemma_table_start_step(s, i);
    lemma_tables_len_prefix(s, i + 1);
    assert(s.take(s.len() as int) =~= s);
    assert(start + padded(d.len()) <= out.len());
    lemma_padded_prefix(out, start, d);
}

proof fn lemma_padded_prefix(out: Seq<u8>, start: int, d: Seq<u8>)
    requires
        0 <= start,
        start + padded(d.len()) <= out.len(),
        out.subrange(start, start + padded(d.len())) == pad_table(d),
    ensures
        out.subrange(start, start + d.len()) == d,
{
    let whole = out.subrange(start, start + padded(d.len()));
    assert(out.subrange(start, start + d.len()) =~= whole.subrange(0, d.len() as int));
    assert(pad_table(d).subrange(0, d.len() as int) =~= d);
}

proof fn lemma_sorted_uncompressed_round_trip(b: Seq<u8>, out: Seq<u8>)
    requires
        decode_woff(b) == Ok::<Seq<u8>, Error>(out),
    ensures
        forall|i: int|
            0 <= i < sort_by_tag(woff_directory(b)).len() && (#[trigger] sort_by_tag(
                woff_directory(b),
            )[i]).orig_length == sort_by_tag(woff_directory(b))[i].comp_length ==> sfnt_record_at(
                out,
                i,
            ).table_tag == sort_by_tag(woff_directory(b))[i].tag && out.subrange(
                sfnt_record_at(out, i).offset as int,
                sfnt_record_at(out, i).offset + sfnt_record_at(out, i).length,
            ) == b.subrange(
                sort_by_tag(woff_directory(b))[i].offset as int,
                sort_by_tag(woff_directory(b))[i].offset + sort_by_tag(
                    woff_directory(b),
                )[i].comp_length,
            ),
{
    let s = sort_by_tag(woff_directory(b));
    lemma_decoded_layout(b, out);
    assert forall|i: int|
        0 <= i < s.len() && (#[trigger] s[i]).orig_length == s[i].comp_length implies sfnt_record_at(
        out,
        i,
    ).table_tag == s[i].tag && out.subrange(
        sfnt_record_at(out, i).offset as int,
        sfnt_record_at(out, i).offset + sfnt_record_at(out, i).length,
    ) == b.subrange(s[i].offset as int, s[i].offset + s[i].comp_length) by {
        assert(sfnt_record_at(out, i) == sfnt_records(s)[i]);
        lemma_record_fields(s, i);
        lemma_decoded_table_at(b, out, i);
        assert(table_data(b, s[i])->Ok_0 == stored_table(b, s[i]));
    }
}

/// An entry whose compressed length exceeds its uncompressed length makes the
/// whole decode fail with `InvalidWoffStructure`, once the container checks pass.
pub proof fn lemma_corrupt_entry_rejected(b: Seq<u8>, j: int)
    requires
        sanity_error(b) == Error::NoError,
        0 <= j < woff_directory(b).len(),
        woff_directory(b)[j].comp_length > woff_directory(b)[j].orig_length,
    ensures
        decode_woff(b) == Err::<Seq<u8>, Error>(Error::InvalidWoffStructure),
{
    reveal(decode_woff);
    assert(!entry_in_bounds(woff_directory(b)[j], b.len()));
}

proof fn lemma_insert_by_tag_multiset(s: Seq<WoffTableDirectoryEntry>, e: WoffTableDirectoryEntry)
    ensures
        insert_by_tag(s, e).to_multiset() == s.to_multiset().insert(e),
    decreases s.len(),
{
    s.to_multiset_ensures();
    if s.len() == 0 {
        assert(seq![e] =~= s.push(e));
    } else if e.tag < s.last().tag {
        let t = s.drop_last();
        let l = s.last();
        lemma_insert_by_tag_multiset(t, e);
        insert_by_tag(t, e).to_multiset_ensures();
        t.to_multiset_ensures();
        assert(t.push(l) =~= s);
        assert(t.to_multiset().insert(e).insert(l) =~= t.to_multiset().insert(l).insert(e));
    }
}

/// Sorting by tag only reorders: the sorted directory holds the same entries,
/// each as often, as the directory of the file.
pub proof fn lemma_sort_by_tag_permutes(s: Seq<WoffTableDirectoryEntry>)
    ensures
        sort_by_tag(s).to_multiset() == s.to_multiset(),
    decreases s.len(),
{
    if s.len() > 0 {
        let t = s.drop_last();
        lemma_sort_by_tag_permutes(t);
        lemma_insert_by_tag_multiset(sort_by_tag(t), s.last());
        t.to_multiset_ensures();
        assert(t.push(s.last()) =~= s);
    }
}

proof fn lemma_sorted_contains(dir: Seq<WoffTableDirectoryEntry>, j: int)
    requires
        0 <= j < dir.len(),
    ensures
        exists|i: int| 0 <= i < sort_by_tag(dir).len() && sort_by_tag(dir)[i] == dir[j],
{
    let s = sort_by_tag(dir);
    lemma_sort_by_tag_permutes(dir);
    dir.to_multiset_ensures();
    s.to_multiset_ensures();
    assert(dir.contains(dir[j]));
    assert(dir.to_multiset().count(dir[j]) > 0);
    assert(s.contains(dir[j]));
}

/// A table that the WOFF file stores uncompressed reaches the decoded SFNT file
/// byte for byte: some table record carries its tag, and the data that record
/// points at is exactly the stored data.
pub proof fn lemma_uncompressed_tables_round_trip(b: Seq<u8>, out: Seq<u8>)
    requires
        decode_woff(b) == Ok::<Seq<u8>, Error>(out),
    ensures
        forall|j: int|
            0 <= j < woff_directory(b).len() && (#[trigger] woff_directory(b)[j]).orig_length
                == woff_directory(b)[j].comp_length ==> exists|i: int|
                0 <= i < sfnt_num_tables(out) && sfnt_record_at(out, i).table_tag == woff_directory(
                    b,
                )[j].tag && #[trigger] out.subrange(
                    sfnt_record_at(out, i).offset as int,
                    sfnt_record_at(out, i).offset + sfnt_record_at(out, i).length,
                ) == b.subrange(
                    woff_directory(b)[j].offset as int,
                    woff_directory(b)[j].offset + woff_directory(b)[j].comp_length,
                ),
{
    let dir = woff_directory(b);
    let s = sort_by_tag(dir);
    lemma_decoded_layout(b, out);
    lemma_sorted_uncompressed_round_trip(b, out);
    assert forall|j: int|
        0 <= j < dir.len() && (#[trigger] dir[j]).orig_length == dir[j].comp_length implies exists|
        i: int,
    |
        0 <= i < sfnt_num_tables(out) && sfnt_record_at(out, i).table_tag == dir[j].tag
            && #[trigger] out.subrange(
            sfnt_record_at(out, i).offset as int,
            sfnt_record_at(out, i).offset + sfnt_record_at(out, i).length,
        ) == b.subrange(dir[j].offset as int, dir[j].offset + dir[j].comp_length) by {
        lemma_sorted_contains(dir, j);
        let i = choose|i: int| 0 <= i < s.len() && s[i] == dir[j];
        assert(s[i].orig_length == s[i].comp_length);
        assert(out.subrange(
            sfnt_record_at(out, i).offset as int,
            sfnt_record_at(out, i).offset + sfnt_record_at(out, i).length,
        ) == b.subrange(s[i].offset as int, s[i].offset + s[i].comp_length));
    }
}

/// Each table record of a decoded SFNT file belongs to the table at the same
/// place of the tag-sorted directory: it carries that entry's tag, checksum and
/// uncompressed length, and the data it points at is that table's content, the
/// stored bytes for a stored table and the inflated bytes for a compressed one.
pub proof fn lemma_records_point_at_table_contents(b: Seq<u8>, out: Seq<u8>)
    requires
        decode_woff(b) == Ok::<Seq<u8>, Error>(out),
    ensures
        sfnt_num_tables(out) == sort_by_tag(woff_directory(b)).len(),
        forall|i: int|
            0 <= i < sfnt_num_tables(out) ==> (#[trigger] sfnt_record_at(out, i)).table_tag
                == sort_by_tag(woff_directory(b))[i].tag && sfnt_record_at(out, i).checksum
                == sort_by_tag(woff_directory(b))[i].orig_checksum && sfnt_record_at(out, i).length
                == sort_by_tag(woff_directory(b))[i].orig_length && table_data(
                b,
                sort_by_tag(woff_directory(b))[i],
            ) is Ok && out.subrange(
                sfnt_record_at(out, i).offset as int,
                sfnt_record_at(out, i).offset + sfnt_record_at(out, i).length,
            ) == table_data(b, sort_by_tag(woff_directory(b))[i])->Ok_0,
{
    let s = sort_by_tag(woff_directory(b));
    lemma_decoded_layout(b, out);
    assert forall|i: int| 0 <= i < sfnt_num_tables(out) implies (#[trigger] sfnt_record_at(
        out,
        i,
    )).table_tag == s[i].tag && sfnt_record_at(out, i).checksum == s[i].orig_checksum
        && sfnt_record_at(out, i).length == s[i].orig_length && table_data(b, s[i]) is Ok
        && out.subrange(
        sfnt_record_at(out, i).offset as int,
        sfnt_record_at(out, i).offset + sfnt_record_at(out, i).length,
    ) == table_data(b, s[i])->Ok_0 by {
        assert(sfnt_record_at(out, i) == sfnt_records(s)[i]);
        lemma_record_fields(s, i);
        lemma_decoded_table_at(b, out, i);
    }
}

}
