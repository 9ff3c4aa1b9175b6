//! Little-endian field encoding shared by the on-disk records.
use vstd::prelude::*;
use vstd::bytes::*;

verus! {

pub open spec fn le16(x: u16) -> Seq<u8> {
    spec_u16_to_le_bytes(x)
}

pub open spec fn le32(x: u32) -> Seq<u8> {
    spec_u32_to_le_bytes(x)
}

pub open spec fn le64(x: u64) -> Seq<u8> {
    spec_u64_to_le_bytes(x)
}

/// The 16-bit little-endian value stored at `off` in `b`.
pub open spec fn get16(b: Seq<u8>, off: int) -> u16 {
    spec_u16_from_le_bytes(b.subrange(off, off + 2))
}

pub open spec fn get32(b: Seq<u8>, off: int) -> u32 {
    spec_u32_from_le_bytes(b.subrange(off, off + 4))
}

pub open spec fn get64(b: Seq<u8>, off: int) -> u64 {
    spec_u64_from_le_bytes(b.subrange(off, off + 8))
}

/// Encoding and decoding of each width give the value back, and the
/// encodings have the expected lengths.
pub proof fn lemma_le_round_trips()
    ensures
        forall|x: u16| #[trigger] le16(x).len() == 2 && spec_u16_from_le_bytes(le16(x)) == x,
        forall|x: u32| #[trigger] le32(x).len() == 4 && spec_u32_from_le_bytes(le32(x)) == x,
        forall|x: u64| #[trigger] le64(x).len() == 8 && spec_u64_from_le_bytes(le64(x)) == x,
{
    lemma_auto_spec_u16_to_from_le_bytes();
    lemma_auto_spec_u32_to_from_le_bytes();
    lemma_auto_spec_u64_to_from_le_bytes();
}

pub fn push16(buf: &mut Vec<u8>, x: u16)
    ensures
        final(buf)@ == old(buf)@ + le16(x),
{
    let b = u16_to_le_bytes(x);
    buf.extend_from_slice(b.as_slice());
    assert(final(buf)@ =~= old(buf)@ + le16(x));
}

pub fn push32(buf: &mut Vec<u8>, x: u32)
    ensures
        final(buf)@ == old(buf)@ + le32(x),
{
    let b = u32_to_le_bytes(x);
    buf.extend_from_slice(b.as_slice());
    assert(final(buf)@ =~= old(buf)@ + le32(x));
}

pub fn push64(buf: &mut Vec<u8>, x: u64)
    ensures
        final(buf)@ == old(buf)@ + le64(x),
{
    let b = u64_to_le_bytes(x);
    buf.extend_from_slice(b.as_slice());
    assert(final(buf)@ =~= old(buf)@ + le64(x));
}

pub fn push_all(buf: &mut Vec<u8>, s: &[u8])
    ensures
        final(buf)@ == old(buf)@ + s@,
{
    buf.extend_from_slice(s);
    assert(final(buf)@ =~= old(buf)@ + s@);
}

/// A fresh vector holding the bytes of `s`.
pub fn copy_bytes(s: &[u8]) -> (r: Vec<u8>)
    ensures
        r@ == s@,
{
    let mut v: Vec<u8> = Vec::new();
    push_all(&mut v, s);
    v
}

pub fn read16(b: &[u8], off: usize) -> (r: u16)
    requires
        off + 2 <= b@.len(),
    ensures
        r == get16(b@, off as int),
{
    let _n = b.len();
    u16_from_le_bytes(vstd::slice::slice_subrange(b, off, off + 2))
}

pub fn read32(b: &[u8], off: usize) -> (r: u32)
    requires
        off + 4 <= b@.len(),
    ensures
        r == get32(b@, off as int),
{
    let _n = b.len();
    u32_from_le_bytes(vstd::slice::slice_subrange(b, off, off + 4))
}

pub fn read64(b: &[u8], off: usize) -> (r: u64)
    requires
        off + 8 <= b@.len(),
    ensures
        r == get64(b@, off as int),
{
    let _n = b.len();
    u64_from_le_bytes(vstd::slice::slice_subrange(b, off, off + 8))
}

/// Copies four bytes starting at `off` into an array.
pub fn read4(b: &[u8], off: usize) -> (r: [u8; 4])
    requires
        off + 4 <= b@.len(),
    ensures
        r@ == b@.subrange(off as int, off + 4),
{
    let r = [b[off], b[off + 1], b[off + 2], b[off + 3]];
    assert(r@ =~= b@.subrange(off as int, off + 4));
    r
}

/// Whether two four-byte arrays hold the same bytes.
pub fn same4(a: &[u8; 4], b: &[u8; 4]) -> (r: bool)
    ensures
        r == (a@ == b@),
{
    let r = a[0] == b[0] && a[1] == b[1] && a[2] == b[2] && a[3] == b[3];
    if r {
        assert(a@ =~= b@);
    }
    r
}

} // verus!
