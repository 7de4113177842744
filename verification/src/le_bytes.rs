//! Little-endian byte encodings of unsigned integers.
use vstd::prelude::*;
use byteorder::{ByteOrder, LittleEndian};

verus! {

pub open spec fn u16_le(v: u16) -> Seq<u8> {
    seq![v as u8, (v >> 8u16) as u8]
}

pub open spec fn u32_le(v: u32) -> Seq<u8> {
    seq![v as u8, (v >> 8u32) as u8, (v >> 16u32) as u8, (v >> 24u32) as u8]
}

pub open spec fn u64_le(v: u64) -> Seq<u8> {
    seq![
        v as u8,
        (v >> 8u64) as u8,
        (v >> 16u64) as u8,
        (v >> 24u64) as u8,
        (v >> 32u64) as u8,
        (v >> 40u64) as u8,
        (v >> 48u64) as u8,
        (v >> 56u64) as u8,
    ]
}

/// The unsigned integer whose little-endian bytes are `s`: the first byte
/// is the least significant.
pub open spec fn le_value(s: Seq<u8>) -> nat
    decreases s.len(),
{
    if s.len() == 0 {
        0
    } else {
        s[0] as nat + 256 * le_value(s.drop_first())
    }
}

/// `le_value` of bytes that are the successive base-256 digits of `ys[0]`:
/// `ys[k]` is `s[k]` plus 256 times `ys[k + 1]`, and nothing is left at the end.
proof fn lemma_le_value_of_digits(s: Seq<u8>, ys: Seq<nat>)
    requires
        ys.len() == s.len() + 1,
        forall|k: int| 0 <= k < s.len() ==> #[trigger] ys[k] == s[k] as nat + 256 * ys[k + 1],
        ys[s.len() as int] == 0,
    ensures
        le_value(s) == ys[0],
    decreases s.len(),
{
    if s.len() > 0 {
        let t = s.drop_first();
        let zs = ys.drop_first();
        assert forall|k: int| 0 <= k < t.len() implies #[trigger] zs[k] == t[k] as nat + 256 * zs[k + 1] by {
            assert(ys[k + 1] == s[k + 1] as nat + 256 * ys[k + 2]);
        }
        lemma_le_value_of_digits(t, zs);
        assert(ys[0] == s[0] as nat + 256 * ys[1]);
    }
}

proof fn lemma_low_byte_u64(y: u64)
    ensures
        y as nat == (y as u8) as nat + 256 * ((y >> 8u64) as nat),
{
    assert(y >> 8u64 == y / 256) by (bit_vector);
    assert((y as u8) as u64 == y % 256) by (bit_vector);
}

proof fn lemma_low_byte_u32(y: u32)
    ensures
        y as nat == (y as u8) as nat + 256 * ((y >> 8u32) as nat),
{
    assert(y >> 8u32 == y / 256) by (bit_vector);
    assert((y as u8) as u32 == y % 256) by (bit_vector);
}

proof fn lemma_low_byte_u16(y: u16)
    ensures
        y as nat == (y as u8) as nat + 256 * ((y >> 8u16) as nat),
{
    assert(y >> 8u16 == y / 256) by (bit_vector);
    assert((y as u8) as u16 == y % 256) by (bit_vector);
}

/// The eight bytes of `v` read back as a little-endian integer give `v`.
pub proof fn lemma_u64_le_read_back(v: u64)
    ensures
        u64_le(v).len() == 8,
        le_value(u64_le(v)) == v,
{
    assert((v >> 8u64) >> 8u64 == v >> 16u64 && (v >> 16u64) >> 8u64 == v >> 24u64 && (v
        >> 24u64) >> 8u64 == v >> 32u64 && (v >> 32u64) >> 8u64 == v >> 40u64 && (v >> 40u64)
        >> 8u64 == v >> 48u64 && (v >> 48u64) >> 8u64 == v >> 56u64 && (v >> 56u64) >> 8u64
        == 0) by (bit_vector);
    lemma_low_byte_u64(v);
    lemma_low_byte_u64(v >> 8u64);
    lemma_low_byte_u64(v >> 16u64);
    lemma_low_byte_u64(v >> 24u64);
    lemma_low_byte_u64(v >> 32u64);
    lemma_low_byte_u64(v >> 40u64);
    lemma_low_byte_u64(v >> 48u64);
    lemma_low_byte_u64(v >> 56u64);
    let s = u64_le(v);
    let ys = seq![
        v as nat,
        (v >> 8u64) as nat,
        (v >> 16u64) as nat,
        (v >> 24u64) as nat,
        (v >> 32u64) as nat,
        (v >> 40u64) as nat,
        (v >> 48u64) as nat,
        (v >> 56u64) as nat,
        0nat,
    ];
    assert forall|k: int| 0 <= k < s.len() implies #[trigger] ys[k] == s[k] as nat + 256 * ys[k
        + 1] by {
        if k == 0 {
        } else if k == 1 {
        } else if k == 2 {
        } else if k == 3 {
        } else if k == 4 {
        } else if k == 5 {
        } else if k == 6 {
        } else {
        }
    }
    lemma_le_value_of_digits(s, ys);
}

/// The four bytes of `v` read back as a little-endian integer give `v`.
pub proof fn lemma_u32_le_read_back(v: u32)
    ensures
        u32_le(v).len() == 4,
        le_value(u32_le(v)) == v,
{
    assert((v >> 8u32) >> 8u32 == v >> 16u32 && (v >> 16u32) >> 8u32 == v >> 24u32 && (v
        >> 24u32) >> 8u32 == 0) by (bit_vector);
    lemma_low_byte_u32(v);
    lemma_low_byte_u32(v >> 8u32);
    lemma_low_byte_u32(v >> 16u32);
    lemma_low_byte_u32(v >> 24u32);
    let s = u32_le(v);
    let ys = seq![v as nat, (v >> 8u32) as nat, (v >> 16u32) as nat, (v >> 24u32) as nat, 0nat];
    assert forall|k: int| 0 <= k < s.len() implies #[trigger] ys[k] == s[k] as nat + 256 * ys[k
        + 1] by {
        if k == 0 {
        } else if k == 1 {
        } else if k == 2 {
        } else {
        }
    }
    lemma_le_value_of_digits(s, ys);
}

/// The two bytes of `v` read back as a little-endian integer give `v`.
pub proof fn lemma_u16_le_read_back(v: u16)
    ensures
        u16_le(v).len() == 2,
        le_value(u16_le(v)) == v,
{
    assert((v >> 8u16) >> 8u16 == 0) by (bit_vector);
    lemma_low_byte_u16(v);
    lemma_low_byte_u16(v >> 8u16);
    let s = u16_le(v);
    let ys = seq![v as nat, (v >> 8u16) as nat, 0nat];
    assert forall|k: int| 0 <= k < s.len() implies #[trigger] ys[k] == s[k] as nat + 256 * ys[k
        + 1] by {
        if k == 0 {
        } else {
        }
    }
    lemma_le_value_of_digits(s, ys);
}

/// `LittleEndian::write_u16` of byteorder: the two bytes of `v`, least
/// significant first, into a two-byte buffer.
#[verifier::external_body]
fn le_u16(v: u16) -> (r: [u8; 2])
    ensures
        r@ == u16_le(v),
{
    let mut buf = [0u8; 2];
    LittleEndian::write_u16(&mut buf, v);
    buf
}

/// `LittleEndian::write_u32` of byteorder: the four bytes of `v`, least
/// significant first, into a four-byte buffer.
#[verifier::external_body]
fn le_u32(v: u32) -> (r: [u8; 4])
    ensures
        r@ == u32_le(v),
{
    let mut buf = [0u8; 4];
    LittleEndian::write_u32(&mut buf, v);
    buf
}

/// `LittleEndian::write_u64` of byteorder: the eight bytes of `v`, least
/// significant first, into an eight-byte buffer.
#[verifier::external_body]
fn le_u64(v: u64) -> (r: [u8; 8])
    ensures
        r@ == u64_le(v),
{
    let mut buf = [0u8; 8];
    LittleEndian::write_u64(&mut buf, v);
    buf
}

fn append_bytes(target: &mut Vec<u8>, bytes: &[u8])
    ensures
        final(target)@ == old(target)@ + bytes@,
{
    let n = bytes.len();
    for i in 0..n
        invariant
            n == bytes@.len(),
            target@ == old(target)@ + bytes@.take(i as int),
    {
        target.push(bytes[i]);
        proof {
            assert(bytes@.take(i + 1) =~= bytes@.take(i as int).push(bytes@[i as int]));
        }
    }
    proof {
        assert(bytes@.take(n as int) =~= bytes@);
    }
}

/// Appends the two little-endian bytes of `v`.
pub fn write_u16_le(target: &mut Vec<u8>, v: u16)
    ensures
        final(target)@ == old(target)@ + u16_le(v),
{
    let b = le_u16(v);
    append_bytes(target, &b);
}

/// Appends the four little-endian bytes of `v`.
pub fn write_u32_le(target: &mut Vec<u8>, v: u32)
    ensures
        final(target)@ == old(target)@ + u32_le(v),
{
    let b = le_u32(v);
    append_bytes(target, &b);
}

/// Appends the eight little-endian bytes of `v`.
pub fn write_u64_le(target: &mut Vec<u8>, v: u64)
    ensures
        final(target)@ == old(target)@ + u64_le(v),
{
    let b = le_u64(v);
    append_bytes(target, &b);
}

} // verus!
