//! Byte strings and big-endian numbers.
use vstd::prelude::*;

verus! {

/// Whether two byte strings are the same.
pub fn same_bytes(a: &[u8], b: &[u8]) -> (same: bool)
    ensures
        same == (a@ == b@),
{
    if a.len() != b.len() {
        return false;
    }
    let mut i: usize = 0;
    while i < a.len()
        invariant
            i <= a@.len(),
            a@.len() == b@.len(),
            forall|j: int| 0 <= j < i ==> a@[j] == b@[j],
        decreases a@.len() - i,
    {
        if a[i] != b[i] {
            return false;
        }
        i = i + 1;
    }
    assert(a@ =~= b@);
    true
}

/// A copy of a byte string.
pub fn copy_bytes(bytes: &[u8]) -> (out: Vec<u8>)
    ensures
        out@ == bytes@,
{
    let mut out: Vec<u8> = Vec::new();
    out.extend_from_slice(bytes);
    assert(out@ =~= bytes@);
    out
}

/// The low 32 bits of a number.
pub open spec fn low32(n: int) -> int {
    n % 0x1_0000_0000
}

/// The low 32 bits of a number.
pub fn low_word(n: usize) -> (out: u32)
    ensures
        out == low32(n as int),
{
    let wide = n as u64;
    assert(wide as u32 == wide % 0x1_0000_0000) by (bit_vector);
    wide as u32
}

/// A number of 16 bits, the high byte first.
pub open spec fn be16(n: u16) -> Seq<u8> {
    seq![(n / 0x100) as u8, (n % 0x100) as u8]
}

/// A number of 32 bits, the high byte first.
pub open spec fn be32(n: u32) -> Seq<u8> {
    seq![
        (n / 0x100_0000) as u8,
        (n / 0x1_0000 % 0x100) as u8,
        (n / 0x100 % 0x100) as u8,
        (n % 0x100) as u8,
    ]
}

/// A number of 64 bits, the high byte first.
pub open spec fn be64(n: u64) -> Seq<u8> {
    be32((n / 0x1_0000_0000) as u32) + be32((n % 0x1_0000_0000) as u32)
}

/// The number that two bytes denote, the high byte first.
pub open spec fn be16_value(s: Seq<u8>) -> int {
    s[0] * 0x100 + s[1]
}

/// The number that four bytes denote, the high byte first.
pub open spec fn be32_value(s: Seq<u8>) -> int {
    s[0] * 0x100_0000 + s[1] * 0x1_0000 + s[2] * 0x100 + s[3]
}

/// The number that eight bytes denote, the high byte first.
pub open spec fn be64_value(s: Seq<u8>) -> int {
    be32_value(s) * 0x1_0000_0000 + be32_value(s.skip(4))
}

/// Numbers are read back as they were written.
pub proof fn lemma_be16_value(n: u16)
    ensures
        be16_value(be16(n)) == n,
{
}

/// Numbers are read back as they were written.
pub proof fn lemma_be32_value(n: u32)
    ensures
        be32_value(be32(n)) == n,
{
}

/// Numbers are read back as they were written.
pub proof fn lemma_be64_value(n: u64)
    ensures
        be64_value(be64(n)) == n,
{
    let high = (n / 0x1_0000_0000) as u32;
    let low = (n % 0x1_0000_0000) as u32;
    lemma_be32_value(high);
    lemma_be32_value(low);
    assert(be64(n).skip(4) =~= be32(low));
    assert(be32_value(be64(n)) == be32_value(be32(high)));
}

/// The highest byte comes first, in numbers of every width.
pub proof fn law_highest_byte_first(a: u16, b: u32, c: u64)
    ensures
        be16(a).len() == 2,
        be16(a)[0] * 256 + be16(a)[1] == a,
        be32(b).len() == 4,
        be32(b)[0] * 16777216 + be32(b)[1] * 65536 + be32(b)[2] * 256 + be32(b)[3] == b,
        be64(c).len() == 8,
        be64(c)[0] * 72057594037927936 + be64(c)[1] * 281474976710656 + be64(c)[2]
            * 1099511627776 + be64(c)[3] * 4294967296 + be64(c)[4] * 16777216 + be64(c)[5] * 65536
            + be64(c)[6] * 256 + be64(c)[7] == c,
{
    let high = (c / 0x1_0000_0000) as u32;
    let low = (c % 0x1_0000_0000) as u32;
    lemma_be32_value(high);
    lemma_be32_value(low);
    assert(c == high * 4294967296 + low);
}

/// What bytes denote, the highest first.
pub proof fn law_bytes_denote(s: Seq<u8>)
    ensures
        s.len() == 2 ==> be16_value(s) == s[0] * 256 + s[1],
        s.len() == 4 ==> be32_value(s) == s[0] * 16777216 + s[1] * 65536 + s[2] * 256 + s[3],
        s.len() == 8 ==> be64_value(s) == s[0] * 72057594037927936 + s[1] * 281474976710656 + s[2]
            * 1099511627776 + s[3] * 4294967296 + s[4] * 16777216 + s[5] * 65536 + s[6] * 256
            + s[7],
{
}

/// The low 32 bits are what is left when all that 32 bits do not hold is taken
/// away.
pub proof fn law_low32(n: int)
    requires
        0 <= n,
    ensures
        0 <= low32(n) <= u32::MAX,
        (n - low32(n)) % 4294967296 == 0,
        n <= u32::MAX ==> low32(n) == n,
{
}

/// Appends a number of 16 bits.
pub fn push_be16(out: &mut Vec<u8>, n: u16)
    ensures
        final(out)@ == old(out)@ + be16(n),
{
    out.push((n / 0x100) as u8);
    out.push((n % 0x100) as u8);
    assert(out@ =~= old(out)@ + be16(n));
}

/// Appends a number of 32 bits.
pub fn push_be32(out: &mut Vec<u8>, n: u32)
    ensures
        final(out)@ == old(out)@ + be32(n),
{
    out.push((n / 0x100_0000) as u8);
    out.push((n / 0x1_0000 % 0x100) as u8);
    out.push((n / 0x100 % 0x100) as u8);
    out.push((n % 0x100) as u8);
    assert(out@ =~= old(out)@ + be32(n));
}

/// Appends a number of 64 bits.
pub fn push_be64(out: &mut Vec<u8>, n: u64)
    ensures
        final(out)@ == old(out)@ + be64(n),
{
    push_be32(out, (n / 0x1_0000_0000) as u32);
    push_be32(out, (n % 0x1_0000_0000) as u32);
    assert(out@ =~= old(out)@ + be64(n));
}

/// Appends bytes.
pub fn push_bytes(out: &mut Vec<u8>, bytes: &[u8])
    ensures
        final(out)@ == old(out)@ + bytes@,
{
    out.extend_from_slice(bytes);
    assert(out@ =~= old(out)@ + bytes@);
}

/// Reads the number of 16 bits at `at`.
pub fn read_be16(s: &[u8], at: usize) -> (n: u16)
    requires
        at + 2 <= s@.len(),
    ensures
        n == be16_value(s@.subrange(at as int, at + 2)),
{
    assert(at + 2 <= s.len());
    s[at] as u16 * 0x100 + s[at + 1] as u16
}

/// Reads the number of 32 bits at `at`.
pub fn read_be32(s: &[u8], at: usize) -> (n: u32)
    requires
        at + 4 <= s@.len(),
    ensures
        n == be32_value(s@.subrange(at as int, at + 4)),
{
    assert(at + 4 <= s.len());
    s[at] as u32 * 0x100_0000 + s[at + 1] as u32 * 0x1_0000 + s[at + 2] as u32 * 0x100 + s[at
        + 3] as u32
}

/// Reads the number of 64 bits at `at`.
pub fn read_be64(s: &[u8], at: usize) -> (n: u64)
    requires
        at + 8 <= s@.len(),
    ensures
        n == be64_value(s@.subrange(at as int, at + 8)),
{
    assert(at + 8 <= s.len());
    let high = read_be32(s, at);
    let low = read_be32(s, at + 4);
    let ghost all = s@.subrange(at as int, at + 8);
    assert(be32_value(all) == high);
    assert(all.skip(4) =~= s@.subrange(at + 4, at + 8));
    high as u64 * 0x1_0000_0000 + low as u64
}

} // verus!
