use vstd::prelude::*;

verus! {

/// The unsigned 16-bit integer stored big-endian at `b[i..i + 2]`.
pub open spec fn be_u16(b: Seq<u8>, i: int) -> u16 {
    (b[i] as int * 0x100 + b[i + 1] as int) as u16
}

/// The unsigned 32-bit integer stored big-endian at `b[i..i + 4]`.
pub open spec fn be_u32(b: Seq<u8>, i: int) -> u32 {
    (b[i] as int * 0x100_0000 + b[i + 1] as int * 0x1_0000 + b[i + 2] as int * 0x100
        + b[i + 3] as int) as u32
}

/// The two big-endian bytes of `x`.
pub open spec fn u16_bytes(x: u16) -> Seq<u8> {
    seq![(x / 0x100) as u8, (x % 0x100) as u8]
}

/// The four big-endian bytes of `x`.
pub open spec fn u32_bytes(x: u32) -> Seq<u8> {
    seq![
        (x / 0x100_0000) as u8,
        ((x / 0x1_0000) % 0x100) as u8,
        ((x / 0x100) % 0x100) as u8,
        (x % 0x100) as u8,
    ]
}

/// The largest power of two not above `n`, and 0 for 0.
pub open spec fn floor_pow2(n: nat) -> nat
    decreases n,
{
    if n <= 1 {
        n
    } else {
        2 * floor_pow2(n / 2)
    }
}

/// The `searchRange` field of an SFNT offset table with `n` tables:
/// sixteen times the largest power of two not above `n`, as a 16-bit field.
pub open spec fn search_range_of(n: u16) -> u16 {
    ((16 * floor_pow2(n as nat)) % 0x1_0000) as u16
}

/// How many halvings bring `x` down to 16 or below; for `x == 16 * 2^k` this is `k`.
pub open spec fn entry_selector_of(x: nat) -> nat
    decreases x,
{
    if x > 16 {
        1 + entry_selector_of(x / 2)
    } else {
        0
    }
}

/// The `rangeShift` field: `n * 16 - search_range`, as a 16-bit field.
pub open spec fn range_shift_of(n: u16, search_range: u16) -> u16 {
    ((n as int * 16 - search_range as int) % 0x1_0000) as u16
}

/// `n` rounded up to the next multiple of four.
pub open spec fn padded(n: nat) -> nat {
    ((n + 3) / 4 * 4) as nat
}

/// Reads the big-endian `u32` at `buf[pos..pos + 4]`, or `None` where that range
/// is not inside `buf`.
pub fn read_u32_be(buf: &[u8], pos: usize) -> (r: Option<u32>)
    ensures
        r == (if pos + 4 <= buf@.len() {
            Some(be_u32(buf@, pos as int))
        } else {
            None::<u32>
        }),
{
    if pos > buf.len() || buf.len() - pos < 4 {
        return None;
    }
    let v: u32 = (buf[pos] as u32) * 0x100_0000 + (buf[pos + 1] as u32) * 0x1_0000
        + (buf[pos + 2] as u32) * 0x100 + buf[pos + 3] as u32;
    Some(v)
}

/// Reads the big-endian `u16` at `buf[pos..pos + 2]`, or `None` where that range
/// is not inside `buf`.
pub fn read_u16_be(buf: &[u8], pos: usize) -> (r: Option<u16>)
    ensures
        r == (if pos + 2 <= buf@.len() {
            Some(be_u16(buf@, pos as int))
        } else {
            None::<u16>
        }),
{
    if pos > buf.len() || buf.len() - pos < 2 {
        return None;
    }
    let v: u16 = (buf[pos] as u16) * 0x100 + buf[pos + 1] as u16;
    Some(v)
}

proof fn lemma_top_bit(n: u16)
    ensures
        top_bit(n) as nat == floor_pow2(n as nat),
    decreases n,
{
    if n <= 1 {
        assert(n <= 1 ==> top_bit(n) == n) by (bit_vector);
    } else {
        assert(n >= 2 ==> top_bit(n) == 2 * top_bit(n >> 1) && n >> 1 == n / 2) by (bit_vector);
        lemma_top_bit(n >> 1);
    }
}

/// `n` with every bit below its highest set bit cleared.
spec fn top_bit(n: u16) -> u16 {
    let a = n | (n >> 1);
    let b = a | (a >> 2);
    let c = b | (b >> 4);
    let d = c | (c >> 8);
    d & !(d >> 1)
}

/// Calculates `searchRange`: (largest power of two not above `num_tables`) * 16.
/// The highest set bit is found by smearing it into every lower bit, then
/// clearing all bits but the top one.
pub fn calculate_search_range(num_tables: u16) -> (r: u16)
    ensures
        r == search_range_of(num_tables),
{
    let mut sr: u16 = num_tables;
    sr = sr | (sr >> 1);
    sr = sr | (sr >> 2);
    sr = sr | (sr >> 4);
    sr = sr | (sr >> 8);
    sr = sr & !(sr >> 1);
    proof {
        assert(sr == top_bit(num_tables));
        lemma_top_bit(num_tables);
        assert((sr << 4) as int == (sr as int * 16) % 0x1_0000) by (bit_vector);
    }
    sr << 4
}

proof fn lemma_entry_selector_bound(x: nat)
    ensures
        entry_selector_of(x) <= x,
    decreases x,
{
    if x > 16 {
        lemma_entry_selector_bound(x / 2);
    }
}

/// Calculates `entrySelector` from `searchRange`: log2(search_range / 16).
pub fn calculate_entry_selector(search_range: u16) -> (r: u16)
    ensures
        r as nat == entry_selector_of(search_range as nat),
{
    let mut number: u16 = search_range;
    let mut res: u16 = 0;
    proof {
        lemma_entry_selector_bound(search_range as nat);
    }
    while number > 16
        invariant
            res as nat + entry_selector_of(number as nat) == entry_selector_of(search_range as nat),
            entry_selector_of(search_range as nat) <= search_range,
        decreases number,
    {
        number = number / 2;
        res = res + 1;
    }
    res
}

/// Calculates `rangeShift`: `num_tables * 16 - search_range`, as a 16-bit field.
pub fn calculate_range_shift(num_tables: u16, search_range: u16) -> (r: u16)
    ensures
        r == range_shift_of(num_tables, search_range),
{
    let wide: u32 = (num_tables as u32) * 16 + 0x1_0000 - search_range as u32;
    (wide % 0x1_0000) as u16
}

/// Calculates how many zero bytes follow table data of `data_len` bytes so that it
/// ends on the 4-byte boundary after `orig_len` bytes.
pub fn calculate_padded_len(orig_len: u32, data_len: usize) -> (r: u32)
    requires
        orig_len as int + 3 <= u32::MAX,
        data_len <= padded(orig_len as nat),
    ensures
        r == padded(orig_len as nat) - data_len,
{
    let aligned_len: u32 = (orig_len + 3) & !3u32;
    proof {
        let x = (orig_len + 3) as u32;
        assert(x & !3u32 == (x / 4) * 4) by (bit_vector);
    }
    aligned_len - data_len as u32
}

/// The four big-endian bytes of `x`.
pub fn u32_to_u8_array(x: u32) -> (r: [u8; 4])
    ensures
        r@ == u32_bytes(x),
{
    proof {
        assert((x >> 24) & 0xff == x / 0x100_0000) by (bit_vector);
        assert((x >> 16) & 0xff == (x / 0x1_0000) % 0x100) by (bit_vector);
        assert((x >> 8) & 0xff == (x / 0x100) % 0x100) by (bit_vector);
        assert(x & 0xff == x % 0x100) by (bit_vector);
    }
    let r: [u8; 4] = [
        ((x >> 24) & 0xff) as u8,
        ((x >> 16) & 0xff) as u8,
        ((x >> 8) & 0xff) as u8,
        (x & 0xff) as u8,
    ];
    assert(r@ =~= u32_bytes(x));
    r
}

/// The two big-endian bytes of `x`.
pub fn u16_to_u8_array(x: u16) -> (r: [u8; 2])
    ensures
        r@ == u16_bytes(x),
{
    proof {
        assert((x >> 8) & 0xff == x / 0x100) by (bit_vector);
        assert(x & 0xff == x % 0x100) by (bit_vector);
    }
    let r: [u8; 2] = [((x >> 8) & 0xff) as u8, (x & 0xff) as u8];
    assert(r@ =~= u16_bytes(x));
    r
}

/// The four big-endian bytes of `x`, in a vector.
pub fn transform_u32_to_u8_vec(x: u32) -> (r: Vec<u8>)
    ensures
        r@ == u32_bytes(x),
{
    let a = u32_to_u8_array(x);
    let mut r: Vec<u8> = Vec::with_capacity(4);
    r.push(a[0]);
    r.push(a[1]);
    r.push(a[2]);
    r.push(a[3]);
    assert(r@ =~= a@);
    r
}

/// The two big-endian bytes of `x`, in a vector.
pub fn transform_u16_to_u8_vec(x: u16) -> (r: Vec<u8>)
    ensures
        r@ == u16_bytes(x),
{
    let a = u16_to_u8_array(x);
    let mut r: Vec<u8> = Vec::with_capacity(2);
    r.push(a[0]);
    r.push(a[1]);
    assert(r@ =~= a@);
    r
}

}
