//! Little-endian integers and raw byte runs, read from and written to bytes.

use vstd::prelude::*;
use vstd::bytes::*;
use vstd::slice::slice_subrange;

verus! {

broadcast use vstd::array::group_array_axioms;

/// The little-endian `u16` stored at `off`.
pub open spec fn u16_at(b: Seq<u8>, off: int) -> u16 {
    spec_u16_from_le_bytes(b.subrange(off, off + 2))
}

/// The little-endian `u32` stored at `off`.
pub open spec fn u32_at(b: Seq<u8>, off: int) -> u32 {
    spec_u32_from_le_bytes(b.subrange(off, off + 4))
}

/// The little-endian `u64` stored at `off`.
pub open spec fn u64_at(b: Seq<u8>, off: int) -> u64 {
    spec_u64_from_le_bytes(b.subrange(off, off + 8))
}

/// Encoding an integer and reading it back gives the integer; reading
/// bytes and encoding the value gives the bytes.
pub proof fn lemma_le_roundtrips()
    ensures
        forall|x: u16|
            #![trigger spec_u16_to_le_bytes(x)]
            spec_u16_to_le_bytes(x).len() == 2 && spec_u16_from_le_bytes(spec_u16_to_le_bytes(x))
                == x,
        forall|x: u32|
            #![trigger spec_u32_to_le_bytes(x)]
            spec_u32_to_le_bytes(x).len() == 4 && spec_u32_from_le_bytes(spec_u32_to_le_bytes(x))
                == x,
        forall|x: u64|
            #![trigger spec_u64_to_le_bytes(x)]
            spec_u64_to_le_bytes(x).len() == 8 && spec_u64_from_le_bytes(spec_u64_to_le_bytes(x))
                == x,
        forall|s: Seq<u8>|
            s.len() == 2 ==> #[trigger] spec_u16_to_le_bytes(spec_u16_from_le_bytes(s)) == s,
        forall|s: Seq<u8>|
            s.len() == 4 ==> #[trigger] spec_u32_to_le_bytes(spec_u32_from_le_bytes(s)) == s,
        forall|s: Seq<u8>|
            s.len() == 8 ==> #[trigger] spec_u64_to_le_bytes(spec_u64_from_le_bytes(s)) == s,
{
    lemma_auto_spec_u16_to_from_le_bytes();
    lemma_auto_spec_u32_to_from_le_bytes();
    lemma_auto_spec_u64_to_from_le_bytes();
}

/// Appends the little-endian bytes of `x`.
pub fn push_u16(v: &mut Vec<u8>, x: u16)
    ensures
        final(v)@ == old(v)@ + spec_u16_to_le_bytes(x),
{
    let mut b = u16_to_le_bytes(x);
    v.append(&mut b);
}

/// Appends the little-endian bytes of `x`.
pub fn push_u32(v: &mut Vec<u8>, x: u32)
    ensures
        final(v)@ == old(v)@ + spec_u32_to_le_bytes(x),
{
    let mut b = u32_to_le_bytes(x);
    v.append(&mut b);
}

/// Appends the little-endian bytes of `x`.
pub fn push_u64(v: &mut Vec<u8>, x: u64)
    ensures
        final(v)@ == old(v)@ + spec_u64_to_le_bytes(x),
{
    let mut b = u64_to_le_bytes(x);
    v.append(&mut b);
}

/// Appends a run of bytes.
pub fn push_bytes(v: &mut Vec<u8>, s: &[u8])
    ensures
        final(v)@ == old(v)@ + s@,
{
    let ghost start = v@;
    let mut i: usize = 0;
    while i < s.len()
        invariant
            0 <= i <= s@.len(),
            v@ == start + s@.subrange(0, i as int),
        decreases s@.len() - i,
    {
        v.push(s[i]);
        i = i + 1;
        assert(v@ =~= start + s@.subrange(0, i as int));
    }
    assert(s@.subrange(0, s@.len() as int) =~= s@);
}

/// Appends `n` zero bytes.
pub fn push_zeros(v: &mut Vec<u8>, n: usize)
    ensures
        final(v)@ == old(v)@ + Seq::new(n as nat, |i: int| 0u8),
{
    let ghost start = v@;
    let mut i: usize = 0;
    while i < n
        invariant
            0 <= i <= n,
            v@ == start + Seq::new(i as nat, |j: int| 0u8),
        decreases n - i,
    {
        v.push(0u8);
        i = i + 1;
        assert(v@ =~= start + Seq::new(i as nat, |j: int| 0u8));
    }
}

/// Reads the little-endian `u16` at `off`.
pub fn read_u16(b: &[u8], off: usize) -> (r: u16)
    requires
        off + 2 <= b.len(),
    ensures
        r == u16_at(b@, off as int),
{
    u16_from_le_bytes(slice_subrange(b, off, off + 2))
}

/// Reads the little-endian `u32` at `off`.
pub fn read_u32(b: &[u8], off: usize) -> (r: u32)
    requires
        off + 4 <= b.len(),
    ensures
        r == u32_at(b@, off as int),
{
    u32_from_le_bytes(slice_subrange(b, off, off + 4))
}

/// Reads the little-endian `u64` at `off`.
pub fn read_u64(b: &[u8], off: usize) -> (r: u64)
    requires
        off + 8 <= b.len(),
    ensures
        r == u64_at(b@, off as int),
{
    u64_from_le_bytes(slice_subrange(b, off, off + 8))
}

/// Copies the `N` bytes at `off` into an array.
pub fn read_array<const N: usize>(b: &[u8], off: usize) -> (r: [u8; N])
    requires
        off + N <= b.len(),
    ensures
        r@ == b@.subrange(off as int, off + N),
{
    let mut a: [u8; N] = [0u8; N];
    let mut i: usize = 0;
    while i < N
        invariant
            0 <= i <= N,
            off + N <= b.len(),
            forall|j: int| 0 <= j < i ==> a@[j] == b@[off + j],
        decreases N - i,
    {
        a[i] = b[off + i];
        i = i + 1;
    }
    assert(a@ =~= b@.subrange(off as int, off + N));
    a
}

} // verus!
