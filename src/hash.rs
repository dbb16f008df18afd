//! FNV-1a content hashing of byte strings and of sprite pixel data.
use vstd::prelude::*;

verus! {

/// The 64-bit FNV offset basis: the hash of the empty byte string.
pub const FNV_OFFSET_BASIS_64: u64 = 0xCBF2_9CE4_8422_2325;

/// The 64-bit FNV prime.
pub const FNV_PRIME_64: u64 = 0x0100_0000_01B3;

/// The 64-bit FNV-1a hash of `data`: starting from the offset basis, each
/// byte is xored into the state, which is then multiplied by the prime modulo
/// 2^64.
pub open spec fn fnv1a_64(data: Seq<u8>) -> u64
    decreases data.len(),
{
    if data.len() == 0 {
        FNV_OFFSET_BASIS_64
    } else {
        (fnv1a_64(data.drop_last()) ^ (data.last() as u64)).wrapping_mul(FNV_PRIME_64)
    }
}

/// The four little-endian bytes of `x`.
pub open spec fn le_bytes_u32(x: u32) -> Seq<u8> {
    seq![
        (x & 0xff) as u8,
        ((x >> 8u32) & 0xff) as u8,
        ((x >> 16u32) & 0xff) as u8,
        ((x >> 24u32) & 0xff) as u8,
    ]
}

/// The FNV-1a 64-bit hash of `data`.
pub fn compute_fnv1a_64(data: &[u8]) -> (hash: u64)
    ensures
        hash == fnv1a_64(data@),
{
    let mut hash: u64 = FNV_OFFSET_BASIS_64;
    let mut i: usize = 0;
    while i < data.len()
        invariant
            i <= data@.len(),
            hash == fnv1a_64(data@.subrange(0, i as int)),
        decreases data.len() - i,
    {
        let byte = data[i];
        proof {
            let next = data@.subrange(0, i + 1);
            assert(next.drop_last() =~= data@.subrange(0, i as int));
            assert(next.last() == byte);
        }
        hash = hash ^ (byte as u64);
        hash = hash.wrapping_mul(FNV_PRIME_64);
        i += 1;
    }
    assert(data@.subrange(0, data@.len() as int) =~= data@);
    hash
}

/// The FNV-1a hash of a sprite: its width and height as little-endian 32-bit
/// integers, followed by its pixel bytes.
pub fn sprite_hash(pixel_data: &[u8], width: u32, height: u32) -> (hash: u64)
    ensures
        hash == fnv1a_64(le_bytes_u32(width) + le_bytes_u32(height) + pixel_data@),
{
    let mut buf: Vec<u8> = Vec::new();
    buf.push((width & 0xff) as u8);
    buf.push(((width >> 8u32) & 0xff) as u8);
    buf.push(((width >> 16u32) & 0xff) as u8);
    buf.push(((width >> 24u32) & 0xff) as u8);
    buf.push((height & 0xff) as u8);
    buf.push(((height >> 8u32) & 0xff) as u8);
    buf.push(((height >> 16u32) & 0xff) as u8);
    buf.push(((height >> 24u32) & 0xff) as u8);
    let ghost header = le_bytes_u32(width) + le_bytes_u32(height);
    assert(buf@ =~= header);
    let mut i: usize = 0;
    while i < pixel_data.len()
        invariant
            i <= pixel_data@.len(),
            buf@ == header + pixel_data@.subrange(0, i as int),
        decreases pixel_data.len() - i,
    {
        buf.push(pixel_data[i]);
        i += 1;
        assert(buf@ =~= header + pixel_data@.subrange(0, i as int));
    }
    assert(pixel_data@.subrange(0, pixel_data@.len() as int) =~= pixel_data@);
    compute_fnv1a_64(buf.as_slice())
}

} // verus!
