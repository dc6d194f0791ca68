//! The byte layout of the accounts: little-endian integers and byte arrays
//! at fixed offsets.
use vstd::array::ArrayAdditionalExecFns;
use vstd::bytes::*;
use vstd::prelude::*;

verus! {

/// `b` is `a` with `src` written at `off`.
pub open spec fn written(a: Seq<u8>, b: Seq<u8>, off: int, src: Seq<u8>) -> bool {
    &&& b.len() == a.len()
    &&& forall|j: int| 0 <= j < src.len() ==> #[trigger] b[off + j] == src[j]
    &&& forall|j: int|
        0 <= j < a.len() && !(off <= j < off + src.len()) ==> #[trigger] b[j] == a[j]
}

/// The little-endian `u32` at `off`.
pub open spec fn le_u32(s: Seq<u8>, off: int) -> u32 {
    spec_u32_from_le_bytes(s.subrange(off, off + 4))
}

/// The little-endian `u64` at `off`.
pub open spec fn le_u64(s: Seq<u8>, off: int) -> u64 {
    spec_u64_from_le_bytes(s.subrange(off, off + 8))
}

/// The little-endian `u128` at `off`.
pub open spec fn le_u128(s: Seq<u8>, off: int) -> u128 {
    spec_u128_from_le_bytes(s.subrange(off, off + 16))
}

/// The bytes just written hold what was written.
pub proof fn lemma_written_subrange(a: Seq<u8>, b: Seq<u8>, off: int, src: Seq<u8>)
    requires
        0 <= off,
        off + src.len() <= a.len(),
        written(a, b, off, src),
    ensures
        b.subrange(off, off + src.len()) == src,
{
    assert forall|j: int| 0 <= j < src.len() implies b.subrange(off, off + src.len())[j] == src[j] by {
        assert(b[off + j] == src[j]);
    }
    assert(b.subrange(off, off + src.len()) =~= src);
}

/// Reading a `u64` written at `off` gives it back.
pub proof fn lemma_written_u64(a: Seq<u8>, b: Seq<u8>, off: int, x: u64)
    requires
        0 <= off,
        off + 8 <= a.len(),
        written(a, b, off, spec_u64_to_le_bytes(x)),
    ensures
        le_u64(b, off) == x,
{
    lemma_auto_spec_u64_to_from_le_bytes();
    lemma_written_subrange(a, b, off, spec_u64_to_le_bytes(x));
}

/// Writing elsewhere leaves the bytes `lo..hi` as they were.
pub proof fn lemma_written_keeps(a: Seq<u8>, b: Seq<u8>, off: int, src: Seq<u8>, lo: int, hi: int)
    requires
        written(a, b, off, src),
        0 <= lo <= hi <= a.len(),
        hi <= off || off + src.len() <= lo,
    ensures
        b.subrange(lo, hi) == a.subrange(lo, hi),
{
    assert(b.subrange(lo, hi) =~= a.subrange(lo, hi));
}

/// Reads the little-endian `u32` at `off`.
pub fn read_u32(buf: &[u8], off: usize) -> (r: u32)
    requires
        off + 4 <= buf.len(),
    ensures
        r == le_u32(buf@, off as int),
{
    u32_from_le_bytes(vstd::slice::slice_subrange(buf, off, off + 4))
}

/// Reads the little-endian `u64` at `off`.
pub fn read_u64(buf: &[u8], off: usize) -> (r: u64)
    requires
        off + 8 <= buf.len(),
    ensures
        r == le_u64(buf@, off as int),
{
    u64_from_le_bytes(vstd::slice::slice_subrange(buf, off, off + 8))
}

/// Reads the little-endian `u128` at `off`.
pub fn read_u128(buf: &[u8], off: usize) -> (r: u128)
    requires
        off + 16 <= buf.len(),
    ensures
        r == le_u128(buf@, off as int),
{
    u128_from_le_bytes(vstd::slice::slice_subrange(buf, off, off + 16))
}

/// Reads the 32 bytes at `off`.
pub fn read_bytes32(buf: &[u8], off: usize) -> (r: [u8; 32])
    requires
        off + 32 <= buf.len(),
    ensures
        r@ == buf@.subrange(off as int, off + 32),
{
    let mut a = [0u8; 32];
    let mut i: usize = 0;
    while i < 32
        invariant
            0 <= i <= 32,
            off + 32 <= buf.len(),
            forall|j: int| 0 <= j < i ==> a@[j] == buf@[off + j],
        decreases 32 - i,
    {
        a[i] = buf[off + i];
        i = i + 1;
    }
    assert(a@ =~= buf@.subrange(off as int, off + 32));
    a
}

/// Writes `src` at `off`.
pub fn write_bytes(buf: &mut [u8], off: usize, src: &[u8])
    requires
        off + src.len() <= old(buf).len(),
    ensures
        written(old(buf)@, final(buf)@, off as int, src@),
{
    let mut i: usize = 0;
    while i < src.len()
        invariant
            0 <= i <= src@.len(),
            off + src.len() <= buf.len(),
            buf@.len() == old(buf)@.len(),
            forall|j: int| 0 <= j < i ==> #[trigger] buf@[off + j] == src@[j],
            forall|j: int|
                0 <= j < buf@.len() && !(off <= j < off + i) ==> #[trigger] buf@[j] == old(
                    buf,
                )@[j],
        decreases src@.len() - i,
    {
        buf[off + i] = src[i];
        i = i + 1;
    }
}

/// Writes `x` in little-endian order at `off`.
pub fn write_u64(buf: &mut [u8], off: usize, x: u64)
    requires
        off + 8 <= old(buf).len(),
    ensures
        written(old(buf)@, final(buf)@, off as int, spec_u64_to_le_bytes(x)),
        le_u64(final(buf)@, off as int) == x,
{
    let b = u64_to_le_bytes(x);
    write_bytes(buf, off, b.as_slice());
    proof {
        lemma_written_u64(old(buf)@, buf@, off as int, x);
    }
}

/// A value that an account stores as a fixed number of bytes.
pub trait FixedBytes: Sized + Copy {
    /// The number of bytes of a stored value.
    spec fn spec_size() -> nat;

    /// The bytes that store a value.
    spec fn spec_to_bytes(&self) -> Seq<u8>;

    /// The value that bytes store.
    spec fn spec_from_bytes(bytes: Seq<u8>) -> Self;

    /// The number of bytes of a stored value.
    fn size() -> (r: usize)
        ensures
            r == Self::spec_size(),
            r > 0,
    ;

    /// The value that bytes store.
    fn from_bytes(bytes: &[u8]) -> (r: Self)
        requires
            bytes@.len() == Self::spec_size(),
        ensures
            r == Self::spec_from_bytes(bytes@),
    ;

    /// The bytes that store a value.
    fn to_bytes(&self) -> (r: Vec<u8>)
        ensures
            r@ == self.spec_to_bytes(),
    ;

    /// A stored value takes its size and reads back as itself.
    proof fn lemma_bytes(x: Self)
        ensures
            x.spec_to_bytes().len() == Self::spec_size(),
            Self::spec_from_bytes(x.spec_to_bytes()) == x,
    ;
}

/// The array whose bytes are `bytes`.
pub open spec fn array32(bytes: Seq<u8>) -> [u8; 32] {
    choose|a: [u8; 32]| a@ == bytes
}

/// An array is the array of its bytes.
pub proof fn lemma_array32(a: [u8; 32])
    ensures
        array32(a@) == a,
{
    let b = array32(a@);
    assert(b@ == a@);
    assert(b@ =~= a@);
}

impl FixedBytes for [u8; 32] {
    open spec fn spec_size() -> nat {
        32
    }

    open spec fn spec_to_bytes(&self) -> Seq<u8> {
        self@
    }

    open spec fn spec_from_bytes(bytes: Seq<u8>) -> [u8; 32] {
        array32(bytes)
    }

    fn size() -> (r: usize) {
        32
    }

    fn from_bytes(bytes: &[u8]) -> (r: [u8; 32]) {
        let a = read_bytes32(bytes, 0);
        proof {
            assert(bytes@.subrange(0, 32) =~= bytes@);
            lemma_array32(a);
        }
        a
    }

    fn to_bytes(&self) -> (r: Vec<u8>) {
        vstd::slice::slice_to_vec(self.as_slice())
    }

    proof fn lemma_bytes(x: [u8; 32]) {
        lemma_array32(x);
    }
}

} // verus!
