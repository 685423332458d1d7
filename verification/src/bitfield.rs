//! Bitfields: one bit for each piece, the first piece in the high bit of the
//! first byte.
use vstd::prelude::*;

verus! {

/// The bit numbered `k` of a byte, counted from the high bit.
pub open spec fn bit_of(byte: u8, k: u32) -> bool {
    (byte >> ((7 - k) as u8)) & 1 == 1
}

/// Whether the bit numbered `i` is set. Past the end no bit is.
pub open spec fn has_bit(bits: Seq<u8>, i: u32) -> bool {
    i / 8 < bits.len() && bit_of(bits[(i / 8) as int], i % 8)
}

/// A bitfield with the bit numbered `i` set; past the end there is none to set.
pub open spec fn with_bit(bits: Seq<u8>, i: u32) -> Seq<u8> {
    if i / 8 < bits.len() {
        bits.update(
            (i / 8) as int,
            bits[(i / 8) as int] | (1u8 << ((7 - i % 8) as u8)),
        )
    } else {
        bits
    }
}

/// Setting a bit sets that bit and leaves every other one as it was.
pub proof fn law_bit_set(bits: Seq<u8>, i: u32, j: u32)
    ensures
        has_bit(with_bit(bits, i), j) == (has_bit(bits, j) || (i == j && i / 8 < bits.len())),
{
    if i / 8 < bits.len() && j / 8 == i / 8 {
        lemma_bit_of(bits[(i / 8) as int], i % 8, j % 8);
    }
}

/// A byte is the sum of its bits: the first piece of the eight is the one with the
/// highest weight.
pub proof fn law_byte_is_its_bits(bits: Seq<u8>, k: u32)
    requires
        k < bits.len(),
        k < 0x2000_0000,
    ensures
        bits[k as int] == weight(bits, (8 * k) as u32, 128) + weight(bits, (8 * k + 1) as u32, 64)
            + weight(bits, (8 * k + 2) as u32, 32) + weight(bits, (8 * k + 3) as u32, 16) + weight(
            bits,
            (8 * k + 4) as u32,
            8,
        ) + weight(bits, (8 * k + 5) as u32, 4) + weight(bits, (8 * k + 6) as u32, 2) + weight(
            bits,
            (8 * k + 7) as u32,
            1,
        ),
{
    let b = bits[k as int];
    lemma_bits_add_up(b);
    assert(8 * k / 8 == k && (8 * k + 1) / 8 == k && (8 * k + 2) / 8 == k && (8 * k + 3) / 8 == k);
    assert((8 * k + 4) / 8 == k && (8 * k + 5) / 8 == k && (8 * k + 6) / 8 == k && (8 * k + 7) / 8
        == k);
}

/// What a bit adds to its byte.
pub open spec fn weight(bits: Seq<u8>, i: u32, w: int) -> int {
    if has_bit(bits, i) {
        w
    } else {
        0
    }
}

proof fn lemma_bits_add_up(b: u8)
    ensures
        b == (if bit_of(b, 0) { 128int } else { 0 }) + (if bit_of(b, 1) { 64int } else { 0 }) + (
        if bit_of(b, 2) { 32int } else { 0 }) + (if bit_of(b, 3) { 16int } else { 0 }) + (
        if bit_of(b, 4) { 8int } else { 0 }) + (if bit_of(b, 5) { 4int } else { 0 }) + (
        if bit_of(b, 6) { 2int } else { 0 }) + (if bit_of(b, 7) { 1int } else { 0 }),
{
    assert(b == 128 * ((b >> 7u8) & 1) + 64 * ((b >> 6u8) & 1) + 32 * ((b >> 5u8) & 1) + 16 * ((b
        >> 4u8) & 1) + 8 * ((b >> 3u8) & 1) + 4 * ((b >> 2u8) & 1) + 2 * ((b >> 1u8) & 1) + ((b
        >> 0u8) & 1)) by (bit_vector);
    assert((b >> 7u8) & 1 <= 1 && (b >> 6u8) & 1 <= 1 && (b >> 5u8) & 1 <= 1 && (b >> 4u8) & 1 <= 1
        && (b >> 3u8) & 1 <= 1 && (b >> 2u8) & 1 <= 1 && (b >> 1u8) & 1 <= 1 && (b >> 0u8) & 1 <= 1)
        by (bit_vector);
}

/// A bitfield has a bit for each piece, and no byte without one.
pub proof fn law_bytes_for(n: u32)
    ensures
        8 * bytes_for(n) >= n,
        8 * bytes_for(n) < n + 8,
{
}

proof fn lemma_bit_of(byte: u8, set: u32, k: u32)
    requires
        set < 8,
        k < 8,
    ensures
        bit_of(byte | (1u8 << ((7 - set) as u8)), k) == (bit_of(byte, k) || k == set),
{
    let s = (7 - set) as u8;
    let t = (7 - k) as u8;
    assert(((byte | (1u8 << s)) >> t) & 1 == 1 <==> ((byte >> t) & 1 == 1 || s == t))
        by (bit_vector)
        requires
            s < 8,
            t < 8,
    ;
}

/// No bit of a zero byte is set.
pub proof fn lemma_no_bit(bits: Seq<u8>, i: u32)
    requires
        i / 8 < bits.len() ==> bits[(i / 8) as int] == 0,
    ensures
        !has_bit(bits, i),
{
    let t = (7 - i % 8) as u8;
    assert((0u8 >> t) & 1 == 0) by (bit_vector)
        requires
            t < 8,
    ;
}

/// Whether the bit numbered `i` is set.
pub fn test_bit(bits: &[u8], i: u32) -> (set: bool)
    ensures
        set == has_bit(bits@, i),
{
    let byte = (i / 8) as usize;
    if byte >= bits.len() {
        return false;
    }
    (bits[byte] >> ((7 - i % 8) as u8)) & 1 == 1
}

/// Sets the bit numbered `i`.
pub fn set_bit(bits: &mut Vec<u8>, i: u32)
    ensures
        final(bits)@ == with_bit(old(bits)@, i),
{
    let byte = (i / 8) as usize;
    if byte < bits.len() {
        let set = bits[byte] | (1u8 << ((7 - i % 8) as u8));
        bits.set(byte, set);
    }
}

/// The number of bytes that hold `n` bits.
pub open spec fn bytes_for(n: u32) -> int {
    (n as int + 7) / 8
}

/// A bitfield in which no bit is set.
pub fn empty_bitfield(n: u32) -> (bits: Vec<u8>)
    ensures
        bits@ == Seq::new(bytes_for(n) as nat, |i: int| 0u8),
{
    let len = ((n as u64 + 7) / 8) as usize;
    let mut bits: Vec<u8> = Vec::new();
    bits.resize(len, 0);
    assert(bits@ =~= Seq::new(bytes_for(n) as nat, |i: int| 0u8));
    bits
}

} // verus!
