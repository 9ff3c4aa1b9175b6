//! The byte layouts of the formats that benchmarks compare against: a raw
//! stream of named blobs, an HDF5-like file of shuffled LZ4 blocks with an
//! index and trailer, and a SafeTensors-like file with a JSON header; and
//! the bit-level conversions of single-precision values to 16-bit formats.
use vstd::prelude::*;
use vstd::string::StringSliceAdditionalSpecFns;
use crate::wire::{le32, le64, get32, get64, push32, push64, push_all, read32, read64};
use crate::filter::byte_shuffle::{shuffle, shuffled, unshuffle, unshuffled};
use crate::codec::lz4_codec::{lz4_block, lz4_content, lz4_compress_prepend_size, lz4_decompress_size_prepended};

verus! {

// ---------------------------------------------------------------------------
// Half-precision bits.

/// The FP16 bits of the single-precision value with bits `f`: the exponent
/// rebased, the mantissa cut to 10 bits; too small becomes 0, too large
/// becomes infinity of the same sign.
pub open spec fn fp16_of(f: u32) -> u16 {
    let sign = (f >> 31u32) & 1u32;
    let exp = ((f >> 23u32) & 0xFFu32) as int - 127 + 15;
    let mant = (f >> 13u32) & 0x3FFu32;
    if exp <= 0 {
        0
    } else if exp >= 31 {
        ((sign << 15u32) | (0x1Fu32 << 10u32)) as u16
    } else {
        ((sign << 15u32) | ((exp as u32) << 10u32) | mant) as u16
    }
}

/// Half-precision bits of the single-precision value whose bits are `f32_bits`.
pub fn f32_to_fp16_bits(f32_bits: u32) -> (r: u16)
    ensures
        r == fp16_of(f32_bits),
{
    let f = f32_bits;
    let sign = (f >> 31u32) & 1u32;
    let e8: u32 = (f >> 23u32) & 0xFFu32;
    assert(e8 <= 255) by (bit_vector)
        requires
            e8 == (f >> 23u32) & 0xFFu32,
    ;
    let exp: i32 = e8 as i32 - 127 + 15;
    let mant = (f >> 13u32) & 0x3FFu32;
    if exp <= 0 {
        0
    } else if exp >= 31 {
        ((sign << 15u32) | (0x1Fu32 << 10u32)) as u16
    } else {
        ((sign << 15u32) | ((exp as u32) << 10u32) | mant) as u16
    }
}

/// Brain-float bits of the single-precision value whose bits are
/// `f32_bits`: its upper half.
pub fn f32_to_bf16_bits(f32_bits: u32) -> (r: u16)
    ensures
        r == f32_bits / 0x10000,
{
    let r = (f32_bits >> 16u32) as u16;
    assert((f32_bits >> 16u32) == f32_bits / 0x10000) by (bit_vector);
    r
}

// ---------------------------------------------------------------------------
// Raw stream.

/// One record of the raw stream: name length (32 bits), data length (64
/// bits), four zero bytes, the name, the data.
pub open spec fn raw_record(name: Seq<u8>, data: Seq<u8>) -> Seq<u8> {
    le32(name.len() as u32) + le64(data.len() as u64) + seq![0u8, 0u8, 0u8, 0u8] + name + data
}

/// The raw stream of the first `n` tensors.
pub open spec fn raw_image(ts: Seq<(&str, &[u8])>, n: int) -> Seq<u8>
    decreases n,
{
    if n <= 0 {
        Seq::empty()
    } else {
        raw_image(ts, n - 1) + raw_record(ts[n - 1].0.spec_bytes(), ts[n - 1].1@)
    }
}

/// The bytes of a raw stream of named tensors.
pub fn raw_binary_image(tensors: &[(&str, &[u8])]) -> (r: Vec<u8>)
    ensures
        r@ == raw_image(tensors@, tensors@.len() as int),
{
    let mut out: Vec<u8> = Vec::new();
    let mut i: usize = 0;
    while i < tensors.len()
        invariant
            i <= tensors@.len(),
            out@ == raw_image(tensors@, i as int),
        decreases tensors@.len() - i,
    {
        let (name, bytes) = tensors[i];
        let nb = name.as_bytes();
        let ghost before = out@;
        push32(&mut out, nb.len() as u32);
        push64(&mut out, bytes.len() as u64);
        push_all(&mut out, &[0u8, 0u8, 0u8, 0u8]);
        push_all(&mut out, nb);
        push_all(&mut out, bytes);
        proof {
            assert([0u8, 0u8, 0u8, 0u8]@ =~= seq![0u8, 0u8, 0u8, 0u8]);
            assert(out@ =~= before + raw_record(tensors@[i as int].0.spec_bytes(), tensors@[i as int].1@));
        }
        i = i + 1;
    }
    out
}

// ---------------------------------------------------------------------------
// HDF5-like file of shuffled LZ4 blocks.

/// The first eight bytes of the file.
pub open spec fn h5_magic() -> Seq<u8> {
    seq![0x89u8, 0x48, 0x44, 0x46, 0x0D, 0x0A, 0x1A, 0x0A]
}

/// The last eight bytes of the file.
pub open spec fn h5_tail_tag() -> Seq<u8> {
    seq![0x48u8, 0x35, 0x42, 0x4C, 0x4F, 0x53, 0x43, 0x00]
}

/// A block's 16-byte header: version 2, flags 1, type size 4, a reserved
/// byte, the block size 65536, the compressed and the raw lengths.
pub open spec fn blosc_header(compressed_len: nat, raw_len: nat) -> Seq<u8> {
    seq![2u8, 1u8, 4u8, 0u8] + le32(65536) + le32(compressed_len as u32) + le32(raw_len as u32)
}

/// The stored block of a tensor: its bytes shuffled as 4-byte elements,
/// LZ4-compressed with the length in front, after the block header.
pub open spec fn h5_block(raw: Seq<u8>) -> Seq<u8> {
    let c = lz4_block(shuffled(raw, 4));
    blosc_header(c.len(), raw.len()) + c
}

/// The blocks of the first `n` tensors, one after another.
pub open spec fn h5_blocks(ts: Seq<(&str, &[u8], &[u32])>, n: int) -> Seq<u8>
    decreases n,
{
    if n <= 0 {
        Seq::empty()
    } else {
        h5_blocks(ts, n - 1) + h5_block(ts[n - 1].1@)
    }
}

/// The encoding of dimensions, 32 bits each.
pub open spec fn dims32(ds: Seq<u32>) -> Seq<u8>
    decreases ds.len(),
{
    if ds.len() == 0 {
        Seq::empty()
    } else {
        dims32(ds.drop_last()) + le32(ds.last())
    }
}

/// The index entry of a tensor: name, shape, and where its block is.
pub open spec fn h5_index_entry(name: Seq<u8>, shape: Seq<u32>, off: u64, len: u64) -> Seq<u8> {
    le32(name.len() as u32) + name + le32(shape.len() as u32) + dims32(shape) + le64(off) + le64(len)
}

/// The index entries of the first `n` tensors.
pub open spec fn h5_index(ts: Seq<(&str, &[u8], &[u32])>, n: int) -> Seq<u8>
    decreases n,
{
    if n <= 0 {
        Seq::empty()
    } else {
        h5_index(ts, n - 1) + h5_index_entry(
            ts[n - 1].0.spec_bytes(),
            ts[n - 1].2@,
            (8 + h5_blocks(ts, n - 1).len()) as u64,
            h5_block(ts[n - 1].1@).len() as u64,
        )
    }
}

/// The whole file: magic, blocks, index, index position, entry count, tag.
pub open spec fn h5_image(ts: Seq<(&str, &[u8], &[u32])>) -> Seq<u8> {
    let n = ts.len() as int;
    h5_magic() + h5_blocks(ts, n) + h5_index(ts, n) + le64((8 + h5_blocks(ts, n).len()) as u64) + le64(
        n as u64,
    ) + h5_tail_tag()
}

fn push_dims(out: &mut Vec<u8>, ds: &[u32])
    ensures
        final(out)@ == old(out)@ + dims32(ds@),
{
    let ghost start = out@;
    let mut d: usize = 0;
    while d < ds.len()
        invariant
            d <= ds@.len(),
            out@ == start + dims32(ds@.take(d as int)),
        decreases ds@.len() - d,
    {
        push32(out, ds[d]);
        assert(ds@.take(d + 1).drop_last() =~= ds@.take(d as int));
        d = d + 1;
    }
    assert(ds@.take(d as int) =~= ds@);
}

/// The bytes of an HDF5-like file holding the tensors. Block positions and
/// lengths are 64-bit and wrap past 2^64.
pub fn h5blosc_image(tensors: &[(&str, &[u8], &[u32])]) -> (r: Vec<u8>)
    ensures
        r@ == h5_image(tensors@),
{
    let ghost ts = tensors@;
    let mut blocks: Vec<u8> = Vec::new();
    let mut index: Vec<u8> = Vec::new();
    let mut i: usize = 0;
    while i < tensors.len()
        invariant
            ts == tensors@,
            i <= ts.len(),
            blocks@ == h5_blocks(ts, i as int),
            index@ == h5_index(ts, i as int),
        decreases ts.len() - i,
    {
        let (name, raw, shape) = tensors[i];
        let shuffled_bytes = shuffle(raw, 4);
        let compressed = lz4_compress_prepend_size(shuffled_bytes.as_slice());
        let start: u64 = wrap_add(blocks.len() as u64, 8);
        let ghost before = blocks@;
        push_all(&mut blocks, &[2u8, 1u8, 4u8, 0u8]);
        push32(&mut blocks, 65536);
        push32(&mut blocks, compressed.len() as u32);
        push32(&mut blocks, raw.len() as u32);
        push_all(&mut blocks, compressed.as_slice());
        proof {
            crate::wire::lemma_le_round_trips();
            assert([2u8, 1u8, 4u8, 0u8]@ =~= seq![2u8, 1u8, 4u8, 0u8]);
            assert(blocks@ =~= before + h5_block(raw@));
            assert(h5_block(raw@).len() == 16 + compressed@.len());
            assert(blocks@ == h5_blocks(ts, i + 1));
        }
        let total: u64 = wrap_add(compressed.len() as u64, 16);
        let nb = name.as_bytes();
        let ghost ibefore = index@;
        push32(&mut index, nb.len() as u32);
        push_all(&mut index, nb);
        push32(&mut index, shape.len() as u32);
        push_dims(&mut index, shape);
        push64(&mut index, start);
        push64(&mut index, total);
        proof {
            assert(index@ =~= ibefore + h5_index_entry(nb@, shape@, start, total));
        }
        i = i + 1;
    }
    let mut out: Vec<u8> = Vec::new();
    push_all(&mut out, &[0x89u8, 0x48, 0x44, 0x46, 0x0D, 0x0A, 0x1A, 0x0A]);
    push_all(&mut out, blocks.as_slice());
    push_all(&mut out, index.as_slice());
    push64(&mut out, wrap_add(blocks.len() as u64, 8));
    push64(&mut out, tensors.len() as u64);
    push_all(&mut out, &[0x48u8, 0x35, 0x42, 0x4C, 0x4F, 0x53, 0x43, 0x00]);
    proof {
        assert([0x89u8, 0x48, 0x44, 0x46, 0x0D, 0x0A, 0x1A, 0x0A]@ =~= h5_magic());
        assert([0x48u8, 0x35, 0x42, 0x4C, 0x4F, 0x53, 0x43, 0x00]@ =~= h5_tail_tag());
        assert(out@ =~= h5_image(ts));
    }
    out
}

/// `x + k` modulo 2^64.
fn wrap_add(x: u64, k: u64) -> (r: u64)
    ensures
        r == (x + k) as u64,
{
    let r = x.wrapping_add(k);
    assert(x.wrapping_add(k) == (x + k) as u64) by (bit_vector);
    r
}

/// The tensor bytes of a stored block: what follows the 16-byte header,
/// LZ4-decompressed and unshuffled as 4-byte elements; the decoder's error
/// where the block does not decompress.
pub fn h5blosc_decode(block: &[u8]) -> (r: Result<Vec<u8>, lz4_flex::block::DecompressError>)
    requires
        block@.len() >= 16,
    ensures
        r matches Ok(v) ==> v@ == unshuffled(lz4_content(block@.subrange(16, block@.len() as int)), 4),
        forall|raw: Seq<u8>| block@ == #[trigger] h5_block(raw) && raw.len() <= u32::MAX ==> (r matches Ok(v) && v@ == raw),
{
    let payload = vstd::slice::slice_subrange(block, 16, block.len());
    proof {
        assert forall|raw: Seq<u8>| block@ == #[trigger] h5_block(raw) implies payload@ == lz4_block(shuffled(raw, 4)) by {
            let c = lz4_block(shuffled(raw, 4));
            crate::wire::lemma_le_round_trips();
            assert(blosc_header(c.len(), raw.len()).len() == 16);
            assert(payload@ =~= c);
        }
    }
    let decompressed = lz4_decompress_size_prepended(payload)?;
    let restored = unshuffle(decompressed.as_slice(), 4);
    proof {
        assert forall|raw: Seq<u8>| block@ == #[trigger] h5_block(raw) && raw.len() <= u32::MAX implies restored@ == raw by {
            crate::filter::byte_shuffle::lemma_unshuffle_shuffle(raw, 4);
        }
    }
    Ok(restored)
}


// ---------------------------------------------------------------------------
// Reading the index of an HDF5-like file.

/// The text `String::from_utf8_lossy` makes of `b`: each invalid sequence
/// becomes U+FFFD.
pub uninterp spec fn utf8_lossy_text(b: Seq<u8>) -> Seq<char>;

/// Calls `String::from_utf8_lossy` and takes the text as a `String`. Claims
/// that the text is the one named by `utf8_lossy_text`, and that valid UTF-8
/// decodes as it is (as the documentation says).
#[verifier::external_body]
fn utf8_lossy(b: &[u8]) -> (r: String)
    ensures
        r@ == utf8_lossy_text(b@),
        vstd::utf8::valid_utf8(b@) ==> r@ == vstd::utf8::decode_utf8(b@),
{
    String::from_utf8_lossy(b).into_owned()
}

/// Why an index could not be read.
#[derive(Clone, Copy, Debug, PartialEq, Eq, Structural)]
pub enum IndexError {
    /// The file is shorter than its 24-byte trailer.
    TooShort,
    /// A read ran past the end of the file.
    Truncated,
}

/// The `k` index entries from position `p` on: name bytes, block position
/// and block length; the shape is skipped. `None` where a read runs past
/// the end.
pub open spec fn h5_entries_from(file: Seq<u8>, p: int, k: nat) -> Option<Seq<(Seq<u8>, u64, u64)>>
    decreases k,
{
    if k == 0 {
        Some(Seq::empty())
    } else if p + 4 > file.len() {
        None
    } else {
        let nl = get32(file, p) as int;
        let p1 = p + 4;
        if p1 + nl > file.len() {
            None
        } else {
            let p2 = p1 + nl;
            if p2 + 4 > file.len() {
                None
            } else {
                let p3 = p2 + 4 + 4 * get32(file, p2);
                if p3 + 16 > file.len() {
                    None
                } else {
                    match h5_entries_from(file, p3 + 16, (k - 1) as nat) {
                        Some(rest) => Some(seq![(file.subrange(p1, p1 + nl), get64(file, p3), get64(file, p3 + 8))] + rest),
                        None => None,
                    }
                }
            }
        }
    }
}

/// What reading the index of `file` finds: the entries the trailer points
/// at, or why it cannot.
pub open spec fn h5_index_of(file: Seq<u8>) -> Result<Seq<(Seq<u8>, u64, u64)>, IndexError> {
    if file.len() < 24 {
        Err(IndexError::TooShort)
    } else {
        let t = file.len() - 24;
        match h5_entries_from(file, get64(file, t) as int, get64(file, t + 8) as nat) {
            Some(es) => Ok(es),
            None => Err(IndexError::Truncated),
        }
    }
}

/// The index of an HDF5-like file: each entry's name (decoded leniently),
/// block position and block length, in file order.
pub fn h5blosc_index(file: &[u8]) -> (r: Result<Vec<(String, u64, u64)>, IndexError>)
    ensures
        match h5_index_of(file@) {
            Ok(es) => r matches Ok(v) && v@.len() == es.len() && forall|i: int|
                0 <= i < es.len() ==> (#[trigger] v@[i]).0@ == utf8_lossy_text(es[i].0) && v@[i].1 == es[i].1
                    && v@[i].2 == es[i].2,
            Err(e) => r == Err::<Vec<(String, u64, u64)>, IndexError>(e),
        },
{
    let n = file.len();
    if n < 24 {
        return Err(IndexError::TooShort);
    }
    let t = n - 24;
    let index_offset = read64(file, t);
    let num_entries = read64(file, t + 8);
    let ghost f = file@;
    let ghost mut done: Seq<(Seq<u8>, u64, u64)> = Seq::empty();
    let mut out: Vec<(String, u64, u64)> = Vec::new();
    let mut pos: u64 = index_offset;
    let mut k: u64 = 0;
    proof {
        assert(done + Seq::<(Seq<u8>, u64, u64)>::empty() =~= done);
    }
    while k < num_entries
        invariant
            f == file@,
            n == f.len(),
            n >= 24,
            k <= num_entries,
            out@.len() == done.len(),
            forall|i: int|
                0 <= i < done.len() ==> (#[trigger] out@[i]).0@ == utf8_lossy_text(done[i].0) && out@[i].1 == done[i].1
                    && out@[i].2 == done[i].2,
            h5_index_of(f) == match h5_entries_from(f, pos as int, (num_entries - k) as nat) {
                Some(rest) => Ok::<Seq<(Seq<u8>, u64, u64)>, IndexError>(done + rest),
                None => Err(IndexError::Truncated),
            },
        decreases num_entries - k,
    {
        let nn = n as u64;
        if pos > nn || nn - pos < 4 {
            return Err(IndexError::Truncated);
        }
        let p = pos as usize;
        let nl = read32(file, p);
        let p1 = p + 4;
        if nl as usize > n - p1 {
            return Err(IndexError::Truncated);
        }
        let p2 = p1 + nl as usize;
        if n - p2 < 4 {
            return Err(IndexError::Truncated);
        }
        let sl = read32(file, p2);
        let p3w: u128 = p2 as u128 + 4 + 4 * (sl as u128);
        if p3w + 16 > n as u128 {
            return Err(IndexError::Truncated);
        }
        let p3 = p3w as usize;
        let off = read64(file, p3);
        let len = read64(file, p3 + 8);
        let name = utf8_lossy(vstd::slice::slice_subrange(file, p1, p2));
        let ghost e = (f.subrange(p1 as int, p2 as int), off, len);
        out.push((name, off, len));
        proof {
            let k1 = (num_entries - k) as nat;
            assert(h5_entries_from(f, pos as int, k1) == match h5_entries_from(f, p3 + 16, (k1 - 1) as nat) {
                Some(rest) => Some(seq![e] + rest),
                None => None::<Seq<(Seq<u8>, u64, u64)>>,
            });
            match h5_entries_from(f, p3 + 16, (k1 - 1) as nat) {
                Some(rest) => {
                    assert(done + (seq![e] + rest) =~= done.push(e) + rest);
                },
                None => {},
            }
            done = done.push(e);
        }
        pos = (p3 + 16) as u64;
        k = k + 1;
    }
    proof {
        assert(done + Seq::<(Seq<u8>, u64, u64)>::empty() =~= done);
    }
    Ok(out)
}


// ---------------------------------------------------------------------------
// SafeTensors-like file.

/// The decimal digits of `n`, as `Display` writes them.
pub open spec fn decimal(n: nat) -> Seq<u8>
    decreases n,
{
    if n < 10 {
        seq![(48 + n) as u8]
    } else {
        decimal(n / 10).push((48 + n % 10) as u8)
    }
}

fn push_decimal(out: &mut Vec<u8>, n: u64)
    ensures
        final(out)@ == old(out)@ + decimal(n as nat),
    decreases n,
{
    if n >= 10 {
        push_decimal(out, n / 10);
    }
    out.push(48 + (n % 10) as u8);
    proof {
        if n >= 10 {
            assert(final(out)@ =~= old(out)@ + decimal(n as nat));
        } else {
            assert(final(out)@ =~= old(out)@ + decimal(n as nat));
        }
    }
}

/// The dimensions in decimal, separated by commas.
pub open spec fn shape_list(ds: Seq<u32>) -> Seq<u8>
    decreases ds.len(),
{
    if ds.len() == 0 {
        Seq::empty()
    } else if ds.len() == 1 {
        decimal(ds[0] as nat)
    } else {
        shape_list(ds.drop_last()) + seq![44u8] + decimal(ds.last() as nat)
    }
}

/// `":{"dtype":"F32","shape":[`
pub open spec fn st_tag_dtype() -> Seq<u8> {
    seq![34u8, 58, 123, 34, 100, 116, 121, 112, 101, 34, 58, 34, 70, 51, 50, 34, 44, 34, 115, 104, 97, 112, 101, 34, 58, 91]
}

/// `],"data_offsets":[`
pub open spec fn st_tag_offsets() -> Seq<u8> {
    seq![93u8, 44, 34, 100, 97, 116, 97, 95, 111, 102, 102, 115, 101, 116, 115, 34, 58, 91]
}

/// The header entry of one tensor.
pub open spec fn st_part(name: Seq<u8>, shape: Seq<u32>, start: nat, end: nat) -> Seq<u8> {
    seq![34u8] + name + st_tag_dtype() + shape_list(shape) + st_tag_offsets() + decimal(start) + seq![44u8] + decimal(end)
        + seq![93u8, 125]
}

/// The total data length of the first `n` tensors.
pub open spec fn st_offset(ts: Seq<(&str, &[u8], &[u32])>, n: int) -> nat
    decreases n,
{
    if n <= 0 {
        0
    } else {
        st_offset(ts, n - 1) + ts[n - 1].1@.len()
    }
}

/// The header entries of the first `n` tensors, separated by commas.
pub open spec fn st_parts(ts: Seq<(&str, &[u8], &[u32])>, n: int) -> Seq<u8>
    decreases n,
{
    if n <= 0 {
        Seq::empty()
    } else {
        let part = st_part(ts[n - 1].0.spec_bytes(), ts[n - 1].2@, st_offset(ts, n - 1), st_offset(ts, n));
        if n == 1 {
            part
        } else {
            st_parts(ts, n - 1) + seq![44u8] + part
        }
    }
}

/// The data of the first `n` tensors, one after another.
pub open spec fn st_data(ts: Seq<(&str, &[u8], &[u32])>, n: int) -> Seq<u8>
    decreases n,
{
    if n <= 0 {
        Seq::empty()
    } else {
        st_data(ts, n - 1) + ts[n - 1].1@
    }
}

/// The whole file: the header length (64 bits), the JSON header, the data.
pub open spec fn st_image(ts: Seq<(&str, &[u8], &[u32])>) -> Seq<u8> {
    let n = ts.len() as int;
    let header = seq![123u8] + st_parts(ts, n) + seq![125u8];
    le64(header.len() as u64) + header + st_data(ts, n)
}

proof fn lemma_offset_data(ts: Seq<(&str, &[u8], &[u32])>, n: int)
    requires
        0 <= n,
    ensures
        st_offset(ts, n) == st_data(ts, n).len(),
    decreases n,
{
    if n > 0 {
        lemma_offset_data(ts, n - 1);
    }
}

/// The bytes of a SafeTensors-like file holding the tensors as 32-bit
/// floats.
pub fn safetensors_image(tensors: &[(&str, &[u8], &[u32])]) -> (r: Vec<u8>)
    ensures
        r@ == st_image(tensors@),
{
    let ghost ts = tensors@;
    let mut parts: Vec<u8> = Vec::new();
    let mut data: Vec<u8> = Vec::new();
    let mut i: usize = 0;
    while i < tensors.len()
        invariant
            ts == tensors@,
            i <= ts.len(),
            parts@ == st_parts(ts, i as int),
            data@ == st_data(ts, i as int),
        decreases ts.len() - i,
    {
        proof {
            lemma_offset_data(ts, i as int);
            lemma_offset_data(ts, i + 1);
        }
        let (name, bytes, shape) = tensors[i];
        let start = data.len();
        push_all(&mut data, bytes);
        let end = data.len();
        let ghost before = parts@;
        if i > 0 {
            parts.push(44u8);
        }
        parts.push(34u8);
        push_all(&mut parts, name.as_bytes());
        push_all(&mut parts, &[34u8, 58, 123, 34, 100, 116, 121, 112, 101, 34, 58, 34, 70, 51, 50, 34, 44, 34, 115, 104, 97, 112, 101, 34, 58, 91]);
        let ghost before_shape = parts@;
        let mut d: usize = 0;
        while d < shape.len()
            invariant
                d <= shape@.len(),
                parts@ == before_shape + shape_list(shape@.take(d as int)),
            decreases shape@.len() - d,
        {
            if d > 0 {
                parts.push(44u8);
            }
            push_decimal(&mut parts, shape[d] as u64);
            proof {
                let t1 = shape@.take(d + 1);
                assert(t1.drop_last() =~= shape@.take(d as int));
                if d == 0 {
                    assert(shape@.take(0) =~= Seq::<u32>::empty());
                }
                assert(parts@ =~= before_shape + shape_list(t1));
            }
            d = d + 1;
        }
        assert(shape@.take(d as int) =~= shape@);
        push_all(&mut parts, &[93u8, 44, 34, 100, 97, 116, 97, 95, 111, 102, 102, 115, 101, 116, 115, 34, 58, 91]);
        push_decimal(&mut parts, start as u64);
        parts.push(44u8);
        push_decimal(&mut parts, end as u64);
        push_all(&mut parts, &[93u8, 125]);
        proof {
            assert([34u8, 58, 123, 34, 100, 116, 121, 112, 101, 34, 58, 34, 70, 51, 50, 34, 44, 34, 115, 104, 97, 112, 101, 34, 58, 91]@
                =~= st_tag_dtype());
            assert([93u8, 44, 34, 100, 97, 116, 97, 95, 111, 102, 102, 115, 101, 116, 115, 34, 58, 91]@ =~= st_tag_offsets());
            assert([93u8, 125]@ =~= seq![93u8, 125]);
            let part = st_part(name.spec_bytes(), shape@, start as nat, end as nat);
            if i > 0 {
                assert(parts@ =~= before + seq![44u8] + part);
            } else {
                assert(parts@ =~= part);
            }
        }
        i = i + 1;
    }
    let mut header: Vec<u8> = Vec::new();
    header.push(123u8);
    push_all(&mut header, parts.as_slice());
    header.push(125u8);
    let mut out: Vec<u8> = Vec::new();
    push64(&mut out, header.len() as u64);
    push_all(&mut out, header.as_slice());
    push_all(&mut out, data.as_slice());
    proof {
        assert(out@ =~= st_image(ts));
    }
    out
}

} // verus!
