//! Fixed-width integers as bytes, and the 32-byte digest type.

use vstd::prelude::*;

verus! {

/// A SHA-256 digest.
pub type Sha256Hash = [u8; 32];

/// The eight little-endian bytes of `v`.
pub open spec fn le_bytes(v: u64) -> Seq<u8> {
    seq![
        (v & 0xff) as u8,
        ((v >> 8u64) & 0xff) as u8,
        ((v >> 16u64) & 0xff) as u8,
        ((v >> 24u64) & 0xff) as u8,
        ((v >> 32u64) & 0xff) as u8,
        ((v >> 40u64) & 0xff) as u8,
        ((v >> 48u64) & 0xff) as u8,
        ((v >> 56u64) & 0xff) as u8,
    ]
}

/// The integer whose little-endian bytes are `b[0..8]`.
pub open spec fn le_value(b: Seq<u8>) -> u64
    recommends
        b.len() >= 8,
{
    (b[0] as u64) | ((b[1] as u64) << 8u64) | ((b[2] as u64) << 16u64) | ((b[3] as u64) << 24u64)
        | ((b[4] as u64) << 32u64) | ((b[5] as u64) << 40u64) | ((b[6] as u64) << 48u64) | ((
    b[7] as u64) << 56u64)
}

/// The value of `b` read as a big-endian unsigned integer.
pub open spec fn be_value(b: Seq<u8>) -> nat
    decreases b.len(),
{
    if b.len() == 0 {
        0
    } else {
        be_value(b.drop_last()) * 256 + b.last() as nat
    }
}

/// Reading back the little-endian bytes of an integer gives the integer.
pub proof fn lemma_le_round_trip(v: u64)
    ensures
        le_value(le_bytes(v)) == v,
{
    let b = le_bytes(v);
    assert((v & 0xff) < 256) by (bit_vector);
    assert(b[0] as u64 == v & 0xff);
    assert(((v >> 8u64) & 0xff) < 256) by (bit_vector);
    assert(b[1] as u64 == (v >> 8u64) & 0xff);
    assert(((v >> 16u64) & 0xff) < 256) by (bit_vector);
    assert(b[2] as u64 == (v >> 16u64) & 0xff);
    assert(((v >> 24u64) & 0xff) < 256) by (bit_vector);
    assert(b[3] as u64 == (v >> 24u64) & 0xff);
    assert(((v >> 32u64) & 0xff) < 256) by (bit_vector);
    assert(b[4] as u64 == (v >> 32u64) & 0xff);
    assert(((v >> 40u64) & 0xff) < 256) by (bit_vector);
    assert(b[5] as u64 == (v >> 40u64) & 0xff);
    assert(((v >> 48u64) & 0xff) < 256) by (bit_vector);
    assert(b[6] as u64 == (v >> 48u64) & 0xff);
    assert(((v >> 56u64) & 0xff) < 256) by (bit_vector);
    assert(b[7] as u64 == (v >> 56u64) & 0xff);
    assert(((v & 0xff) | (((v >> 8u64) & 0xff) << 8u64) | (((v >> 16u64) & 0xff) << 16u64) | (((v
        >> 24u64) & 0xff) << 24u64) | (((v >> 32u64) & 0xff) << 32u64) | (((v >> 40u64) & 0xff)
        << 40u64) | (((v >> 48u64) & 0xff) << 48u64) | (((v >> 56u64) & 0xff) << 56u64)) == v)
        by (bit_vector);
}

/// Reinterpreting a signed integer as unsigned and back gives it again.
pub proof fn lemma_i64_u64_round_trip(t: i64)
    ensures
        (t as u64) as i64 == t,
{
    assert(((t as u64) as i64) == t) by (bit_vector);
}

/// The little-endian bytes of `val`, lowest first.
pub fn convert_u64_to_u8_array(val: u64) -> (r: [u8; 8])
    ensures
        r@ == le_bytes(val),
{
    let r: [u8; 8] = [
        (val & 0xff) as u8,
        ((val >> 8) & 0xff) as u8,
        ((val >> 16) & 0xff) as u8,
        ((val >> 24) & 0xff) as u8,
        ((val >> 32) & 0xff) as u8,
        ((val >> 40) & 0xff) as u8,
        ((val >> 48) & 0xff) as u8,
        ((val >> 56) & 0xff) as u8,
    ];
    assert(r@ =~= le_bytes(val));
    r
}

/// The integer whose little-endian bytes are `b[at..at + 8]`.
pub fn read_u64_le(b: &[u8], at: usize) -> (r: u64)
    requires
        at + 8 <= b@.len(),
    ensures
        r == le_value(b@.subrange(at as int, at + 8)),
{
    (b[at] as u64) | ((b[at + 1] as u64) << 8) | ((b[at + 2] as u64) << 16) | ((b[at + 3] as u64)
        << 24) | ((b[at + 4] as u64) << 32) | ((b[at + 5] as u64) << 40) | ((b[at + 6] as u64)
        << 48) | ((b[at + 7] as u64) << 56)
}

/// Appends `src` to `out`.
pub fn append_bytes(out: &mut Vec<u8>, src: &[u8])
    ensures
        final(out)@ == old(out)@ + src@,
{
    let mut i: usize = 0;
    while i < src.len()
        invariant
            i <= src@.len(),
            out@ == old(out)@ + src@.subrange(0, i as int),
        decreases src@.len() - i,
    {
        out.push(src[i]);
        i = i + 1;
        assert(src@.subrange(0, i as int) =~= src@.subrange(0, i - 1).push(src@[i - 1]));
    }
    assert(src@.subrange(0, i as int) =~= src@);
}

/// The 32 bytes of `b` from `at` on, as a digest.
pub fn read_hash(b: &[u8], at: usize) -> (r: Sha256Hash)
    requires
        at + 32 <= b@.len(),
    ensures
        r@ == b@.subrange(at as int, at + 32),
{
    let mut array: Sha256Hash = [0u8; 32];
    let n = b.len();
    let mut i: usize = 0;
    while i < 32
        invariant
            i <= 32,
            n == b@.len(),
            at + 32 <= b@.len(),
            forall|k: int| 0 <= k < i ==> array@[k] == b@[at + k],
        decreases 32 - i,
    {
        array[i] = b[at + i];
        i = i + 1;
    }
    assert(array@ =~= b@.subrange(at as int, at + 32));
    array
}

/// The first 32 bytes of `bytes` as a digest.
pub fn sha256hash_from_slice(bytes: &[u8]) -> (r: Sha256Hash)
    requires
        bytes@.len() >= 32,
    ensures
        r@ == bytes@.subrange(0, 32),
{
    read_hash(bytes, 0)
}

/// A copy of `b[start..end]`.
pub fn copy_range(b: &[u8], start: usize, end: usize) -> (r: Vec<u8>)
    requires
        start <= end <= b@.len(),
    ensures
        r@ == b@.subrange(start as int, end as int),
{
    let mut out: Vec<u8> = Vec::new();
    let mut i: usize = start;
    while i < end
        invariant
            start <= i <= end <= b@.len(),
            out@ == b@.subrange(start as int, i as int),
        decreases end - i,
    {
        out.push(b[i]);
        i = i + 1;
        assert(out@ =~= b@.subrange(start as int, i as int));
    }
    out
}

} // verus!
