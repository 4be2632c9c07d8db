//! Fixed-width byte values and the big-endian integer layout used in packed records.
use vstd::prelude::*;

verus! {

/// A 32-byte identifier or digest.
pub type Bytes32 = [u8; 32];

/// A 20-byte account address.
pub type Address = [u8; 20];

/// The eight big-endian bytes of `x`.
pub open spec fn be_bytes_u64(x: u64) -> Seq<u8> {
    seq![
        ((x >> 56u64) & 0xffu64) as u8,
        ((x >> 48u64) & 0xffu64) as u8,
        ((x >> 40u64) & 0xffu64) as u8,
        ((x >> 32u64) & 0xffu64) as u8,
        ((x >> 24u64) & 0xffu64) as u8,
        ((x >> 16u64) & 0xffu64) as u8,
        ((x >> 8u64) & 0xffu64) as u8,
        (x & 0xffu64) as u8,
    ]
}

/// The integer whose big-endian bytes are the first eight of `s`.
pub open spec fn be_value_u64(s: Seq<u8>) -> u64
    recommends
        s.len() >= 8,
{
    ((s[0] as u64) << 56u64) | ((s[1] as u64) << 48u64) | ((s[2] as u64) << 40u64) | ((
    s[3] as u64) << 32u64) | ((s[4] as u64) << 24u64) | ((s[5] as u64) << 16u64) | ((s[6] as u64)
        << 8u64) | (s[7] as u64)
}

/// Reading back the big-endian bytes of a counter gives the counter.
pub proof fn lemma_be_u64_round_trip(x: u64)
    ensures
        be_bytes_u64(x).len() == 8,
        be_value_u64(be_bytes_u64(x)) == x,
{
    assert(forall|v: u64| #[trigger] (v & 0xffu64) <= 0xffu64) by (bit_vector);
    assert((((x >> 56u64) & 0xffu64) << 56u64) | (((x >> 48u64) & 0xffu64) << 48u64) | (((x
        >> 40u64) & 0xffu64) << 40u64) | (((x >> 32u64) & 0xffu64) << 32u64) | (((x >> 24u64)
        & 0xffu64) << 24u64) | (((x >> 16u64) & 0xffu64) << 16u64) | (((x >> 8u64) & 0xffu64)
        << 8u64) | (x & 0xffu64) == x) by (bit_vector);
}

/// Two counters with the same big-endian bytes are equal.
pub proof fn lemma_be_u64_injective(x: u64, y: u64)
    requires
        be_bytes_u64(x) == be_bytes_u64(y),
    ensures
        x == y,
{
    lemma_be_u64_round_trip(x);
    lemma_be_u64_round_trip(y);
}

/// Appends the big-endian bytes of `x` to `out`.
pub fn push_be_u64(out: &mut Vec<u8>, x: u64)
    ensures
        final(out)@ == old(out)@ + be_bytes_u64(x),
{
    out.push(((x >> 56u64) & 0xffu64) as u8);
    out.push(((x >> 48u64) & 0xffu64) as u8);
    out.push(((x >> 40u64) & 0xffu64) as u8);
    out.push(((x >> 32u64) & 0xffu64) as u8);
    out.push(((x >> 24u64) & 0xffu64) as u8);
    out.push(((x >> 16u64) & 0xffu64) as u8);
    out.push(((x >> 8u64) & 0xffu64) as u8);
    out.push((x & 0xffu64) as u8);
    assert(out@ =~= old(out)@ + be_bytes_u64(x));
}

/// Appends every byte of `src` to `out`.
pub fn push_all(out: &mut Vec<u8>, src: &[u8])
    ensures
        final(out)@ == old(out)@ + src@,
{
    let mut i: usize = 0;
    while i < src.len()
        invariant
            0 <= i <= src@.len(),
            out@ == old(out)@ + src@.subrange(0, i as int),
        decreases src@.len() - i,
    {
        out.push(src[i]);
        i = i + 1;
        assert(out@ =~= old(out)@ + src@.subrange(0, i as int));
    }
    assert(src@.subrange(0, src@.len() as int) =~= src@);
}

/// Reads the eight big-endian bytes of `s` that start at `off`.
pub fn read_be_u64(s: &[u8], off: usize) -> (r: u64)
    requires
        off + 8 <= s@.len(),
    ensures
        r == be_value_u64(s@.subrange(off as int, off + 8)),
{
    let sub = Ghost(s@.subrange(off as int, off + 8));
    assert(sub@[0] == s@[off as int] && sub@[1] == s@[off + 1] && sub@[2] == s@[off + 2]
        && sub@[3] == s@[off + 3] && sub@[4] == s@[off + 4] && sub@[5] == s@[off + 5]
        && sub@[6] == s@[off + 6] && sub@[7] == s@[off + 7]);
    ((s[off] as u64) << 56u64) | ((s[off + 1] as u64) << 48u64) | ((s[off + 2] as u64) << 40u64)
        | ((s[off + 3] as u64) << 32u64) | ((s[off + 4] as u64) << 24u64) | ((s[off + 5] as u64)
        << 16u64) | ((s[off + 6] as u64) << 8u64) | (s[off + 7] as u64)
}

/// Copies the 32 bytes of `s` that start at `off`.
pub fn read_bytes32(s: &[u8], off: usize) -> (r: Bytes32)
    requires
        off + 32 <= s@.len(),
    ensures
        r@ == s@.subrange(off as int, off + 32),
{
    let n = s.len();
    let mut r: Bytes32 = [0u8; 32];
    let mut i: usize = 0;
    while i < 32
        invariant
            0 <= i <= 32,
            off + 32 <= s@.len(),
            n == s@.len(),
            r@.len() == 32,
            forall|j: int| 0 <= j < i ==> r@[j] == s@[off + j],
        decreases 32 - i,
    {
        r[i] = s[off + i];
        i = i + 1;
    }
    assert(r@ =~= s@.subrange(off as int, off + 32));
    r
}

/// Whether `a` and `b` hold the same bytes.
pub fn bytes_eq(a: &[u8], b: &[u8]) -> (r: bool)
    ensures
        r == (a@ == b@),
{
    if a.len() != b.len() {
        return false;
    }
    let mut i: usize = 0;
    while i < a.len()
        invariant
            a@.len() == b@.len(),
            0 <= i <= a@.len(),
            forall|j: int| 0 <= j < i ==> a@[j] == b@[j],
        decreases a@.len() - i,
    {
        if a[i] != b[i] {
            return false;
        }
        i = i + 1;
    }
    assert(a@ =~= b@);
    true
}

} // verus!
