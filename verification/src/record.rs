//! Chunk records: a segment of tensor bytes filtered, compressed, framed
//! with a header, a one-entry block table and a CRC, and padded to the
//! archive's alignment; and the way back.
use vstd::prelude::*;
use crate::types::{CodecId, DTypeId, FilterId, TpxError, CHUNK_HEADER_SIZE, BLOCK_ENTRY_SIZE};
use crate::chunk::{
    BlockEntry, ChunkHeader, chunk_header_bytes, block_table_bytes, padding_for, pad_to_align,
    parse_block_table, parse_chunk_header, codec_of, filter_of, lemma_chunk_header_round_trip,
};
use crate::filter::{Filter, filtered, unfiltered, get_filter, lemma_filter_round_trip};
use crate::codec::{Codec, compressed, decompressed, compress_accepts, round_trips, get_codec};
use crate::codec::select::CodecSelection;
use crate::hash::{crc32, spec_crc32};
use crate::wire::{le32, push_all};

verus! {

/// The payload of a chunk: the filtered segment, compressed.
pub open spec fn chunk_payload(raw: Seq<u8>, dtype: DTypeId, sel: CodecSelection) -> Seq<u8> {
    compressed(sel.codec, filtered(sel.filter, raw, dtype), sel.level, dtype)
}

/// The header of a chunk with payload `payload` for a segment of `len` bytes.
pub open spec fn record_header(len: nat, sel: CodecSelection, payload: Seq<u8>) -> ChunkHeader {
    ChunkHeader {
        codec_id: sel.codec,
        filter_id: sel.filter,
        block_count: 1,
        block_size: len as u32,
        uncompressed_len: len as u32,
        payload_crc32c: spec_crc32(payload),
    }
}

/// A chunk record holding `payload` for a segment of `len` bytes, before padding.
pub open spec fn record_body(len: nat, sel: CodecSelection, payload: Seq<u8>) -> Seq<u8> {
    chunk_header_bytes(record_header(len, sel, payload)) + block_table_bytes(
        seq![BlockEntry { compressed_len: payload.len() as u32 }],
    ) + payload
}

/// A chunk record holding `payload`, padded to a multiple of `align`.
pub open spec fn record_image(len: nat, sel: CodecSelection, payload: Seq<u8>, align: u32) -> Seq<u8> {
    let body = record_body(len, sel, payload);
    body + Seq::new(padding_for(body.len(), align as nat), |_i: int| 0u8)
}

/// The chunk record of segment `raw` under `sel`.
pub open spec fn chunk_image(raw: Seq<u8>, dtype: DTypeId, sel: CodecSelection, align: u32) -> Seq<u8> {
    record_image(raw.len(), sel, chunk_payload(raw, dtype, sel), align)
}

/// Input that the chunk pipeline takes: a segment whose length fits the
/// header fields and the bit filter, and that the codec accepts.
pub open spec fn segment_ok(raw: Seq<u8>, dtype: DTypeId, sel: CodecSelection) -> bool {
    &&& raw.len() <= u32::MAX
    &&& (sel.filter == FilterId::BitShuffle ==> raw.len() <= usize::MAX / 8)
    &&& compress_accepts(sel.codec, filtered(sel.filter, raw, dtype), dtype)
}

fn frame(raw_len: usize, sel: CodecSelection, payload: Vec<u8>, chunk_align: u32) -> (r: Result<Vec<u8>, TpxError>)
    ensures
        r matches Ok(v) ==> v@ == record_image(raw_len as nat, sel, payload@, chunk_align),
        r is Err ==> r matches Err(TpxError::BufferTooSmall { .. }),
        payload@.len() + 20 + chunk_align <= usize::MAX ==> r is Ok,
{
    if payload.len() > usize::MAX - 20 || usize::MAX - 20 - payload.len() < chunk_align as usize {
        return Err(TpxError::BufferTooSmall { component: "ChunkRecord", required: payload.len(), provided: usize::MAX - 20 });
    }
    let crc = crc32(payload.as_slice());
    let header = ChunkHeader::new(sel.codec, sel.filter, 1, raw_len as u32, raw_len as u32, crc);
    let table = [BlockEntry { compressed_len: payload.len() as u32 }];
    let mut bytes = header.serialize(table.as_slice());
    push_all(&mut bytes, payload.as_slice());
    proof {
        assert(table@ =~= seq![BlockEntry { compressed_len: payload@.len() as u32 }]);
        assert(bytes@ =~= record_body(raw_len as nat, sel, payload@));
        crate::chunk::lemma_block_table_bytes_len(table@);
        crate::wire::lemma_le_round_trips();
        assert(chunk_header_bytes(header).len() == 16);
        assert(bytes@.len() == 20 + payload@.len());
        assert(padding_for(bytes@.len(), chunk_align as nat) <= chunk_align);
    }
    let ghost body = bytes@;
    pad_to_align(&mut bytes, chunk_align);
    proof {
        assert(bytes@ =~= body + Seq::new(padding_for(body.len(), chunk_align as nat), |_i: int| 0u8));
    }
    Ok(bytes)
}

/// Filters, compresses and frames a segment. Fails where the codec fails.
pub fn encode_chunk(raw: &[u8], dtype: DTypeId, sel: CodecSelection, chunk_align: u32) -> (r: Result<Vec<u8>, TpxError>)
    requires
        segment_ok(raw@, dtype, sel),
    ensures
        r matches Ok(v) ==> v@ == chunk_image(raw@, dtype, sel, chunk_align),
        sel.codec != CodecId::Zstd && chunk_payload(raw@, dtype, sel).len() + 20 + chunk_align <= usize::MAX ==> r is Ok,
{
    let filter = get_filter(sel.filter);
    let filtered_bytes = filter.apply(raw, dtype);
    let codec = get_codec(sel.codec);
    let payload = match codec.compress(filtered_bytes.as_slice(), sel.level, dtype) {
        Ok(p) => p,
        Err(e) => return Err(e),
    };
    frame(raw.len(), sel, payload, chunk_align)
}

/// As `encode_chunk`, but where the codec fails the unfiltered segment is
/// stored as the payload under the same header fields.
pub fn encode_chunk_or_raw(raw: &[u8], dtype: DTypeId, sel: CodecSelection, chunk_align: u32) -> (r: Result<Vec<u8>, TpxError>)
    requires
        segment_ok(raw@, dtype, sel),
    ensures
        r matches Ok(v) ==> v@ == chunk_image(raw@, dtype, sel, chunk_align) || v@ == record_image(
            raw@.len(),
            sel,
            raw@,
            chunk_align,
        ),
        sel.codec != CodecId::Zstd ==> (r matches Ok(v) ==> v@ == chunk_image(raw@, dtype, sel, chunk_align)),
        chunk_payload(raw@, dtype, sel).len() + 20 + chunk_align <= usize::MAX && (sel.codec == CodecId::Zstd
            ==> raw@.len() + 20 + chunk_align <= usize::MAX) ==> r is Ok,
        r is Err ==> r matches Err(TpxError::BufferTooSmall { .. }),
{
    let filter = get_filter(sel.filter);
    let filtered_bytes = filter.apply(raw, dtype);
    let codec = get_codec(sel.codec);
    let payload = match codec.compress(filtered_bytes.as_slice(), sel.level, dtype) {
        Ok(p) => p,
        Err(_) => crate::wire::copy_bytes(raw),
    };
    frame(raw.len(), sel, payload, chunk_align)
}

/// Total of the compressed lengths of a block table.
pub open spec fn table_total(t: Seq<BlockEntry>) -> nat
    decreases t.len(),
{
    if t.len() == 0 {
        0
    } else {
        table_total(t.drop_last()) + (t.last().compressed_len as nat)
    }
}

/// Reads a chunk record back into the segment's bytes. `offset` is where the
/// record sits in the archive, reported on a CRC mismatch.
pub fn decode_chunk(chunk: &[u8], offset: u64, dtype: DTypeId) -> (r: Result<Vec<u8>, TpxError>)
    ensures
        ({
            let b = chunk@;
            let h = parse_chunk_header(b, codec_of(b[0]), filter_of(b[1]));
            let t = parse_block_table(b, h.block_count as nat);
            let start = CHUNK_HEADER_SIZE + 4 * h.block_count;
            let payload = b.subrange(start as int, start + table_total(t));
            &&& r matches Ok(v) ==> {
                &&& b.len() >= start + table_total(t)
                &&& h.payload_crc32c == spec_crc32(payload)
                &&& v@ == unfiltered(
                    h.filter_id,
                    decompressed(h.codec_id, payload, h.uncompressed_len as usize, dtype),
                    dtype,
                )
            }
            &&& (b.len() >= CHUNK_HEADER_SIZE && b[0] <= 3 && b[1] <= 3 && b.len() >= start + table_total(t)
                && h.payload_crc32c != spec_crc32(payload)) ==> (r matches Err(
                TpxError::ChunkCrcMismatch { offset: o, expected: e, got: g },
            ) && o == offset && e == h.payload_crc32c && g == spec_crc32(payload))
        }),
        forall|raw: Seq<u8>, sel: CodecSelection, align: u32|
            chunk@ == #[trigger] chunk_image(raw, dtype, sel, align) && segment_ok(raw, dtype, sel)
                && chunk_payload(raw, dtype, sel).len() <= u32::MAX && round_trips(
                sel.codec,
                filtered(sel.filter, raw, dtype),
                raw.len() as usize,
                dtype,
            ) ==> (r matches Ok(v) && v@ == raw),
{
    proof {
        assert forall|raw: Seq<u8>, sel: CodecSelection, align: u32|
            chunk@ == #[trigger] chunk_image(raw, dtype, sel, align) && segment_ok(raw, dtype, sel)
                && chunk_payload(raw, dtype, sel).len() <= u32::MAX implies image_facts(chunk@, raw, dtype, sel) by {
            lemma_image_fields(raw, dtype, sel, align);
        }
    }
    let (hdr, table) = match ChunkHeader::deserialize(chunk) {
        Ok(x) => x,
        Err(e) => return Err(e),
    };
    let payload_start = CHUNK_HEADER_SIZE + table.len() * BLOCK_ENTRY_SIZE;
    let mut total: u64 = 0;
    let mut i: usize = 0;
    while i < table.len()
        invariant
            i <= table@.len(),
            table@.len() <= u16::MAX,
            total == table_total(table@.take(i as int)),
            total <= i * (u32::MAX as nat),
        decreases table@.len() - i,
    {
        assert(table@.take(i + 1).drop_last() =~= table@.take(i as int));
        total = total + table[i].compressed_len as u64;
        i = i + 1;
    }
    assert(table@.take(i as int) =~= table@);
    let n = chunk.len() as u64;
    if n < payload_start as u64 || total > n - payload_start as u64 {
        let required = (payload_start as u64 + total) as usize;
        return Err(TpxError::BufferTooSmall { component: "ChunkPayload", required, provided: chunk.len() });
    }
    let end = payload_start + total as usize;
    let payload = vstd::slice::slice_subrange(chunk, payload_start, end);
    let actual_crc = crc32(payload);
    if actual_crc != hdr.payload_crc32c {
        return Err(TpxError::ChunkCrcMismatch { offset, expected: hdr.payload_crc32c, got: actual_crc });
    }
    let codec = get_codec(hdr.codec_id);
    let decompressed_bytes = match codec.decompress(payload, hdr.uncompressed_len as usize, dtype) {
        Ok(d) => d,
        Err(e) => return Err(e),
    };
    if hdr.filter_id == FilterId::BitShuffle && decompressed_bytes.len() > usize::MAX / 8 {
        return Err(TpxError::BufferTooSmall { component: "ChunkData", required: decompressed_bytes.len(), provided: usize::MAX / 8 });
    }
    let filter = get_filter(hdr.filter_id);
    let reverted = filter.revert(decompressed_bytes.as_slice(), dtype);
    proof {
        assert forall|raw: Seq<u8>, sel: CodecSelection, align: u32|
            chunk@ == #[trigger] chunk_image(raw, dtype, sel, align) && segment_ok(raw, dtype, sel)
                && chunk_payload(raw, dtype, sel).len() <= u32::MAX && round_trips(
                sel.codec,
                filtered(sel.filter, raw, dtype),
                raw.len() as usize,
                dtype,
            ) implies reverted@ == raw by {
            lemma_image_fields(raw, dtype, sel, align);
            lemma_filter_round_trip(sel.filter, raw, dtype);
        }
    }
    Ok(reverted)
}

proof fn lemma_parse_prefix(b: Seq<u8>, hb: Seq<u8>, c: CodecId, f: FilterId)
    requires
        hb.len() == 20,
        b.len() >= 20,
        b.subrange(0, 20) == hb,
    ensures
        b[0] == hb[0],
        b[1] == hb[1],
        parse_chunk_header(b, c, f) == parse_chunk_header(hb, c, f),
        parse_block_table(b, 1) == parse_block_table(hb, 1),
{
    assert(b[0] == b.subrange(0, 20)[0]);
    assert(b[1] == b.subrange(0, 20)[1]);
    assert(b.subrange(2, 4) =~= hb.subrange(2, 4));
    assert(b.subrange(4, 8) =~= hb.subrange(4, 8));
    assert(b.subrange(8, 12) =~= hb.subrange(8, 12));
    assert(b.subrange(12, 16) =~= hb.subrange(12, 16));
    assert(b.subrange(16, 20) =~= hb.subrange(16, 20));
    assert(parse_block_table(b, 1) =~= parse_block_table(hb, 1));
}

/// What a reader finds in the chunk image `b` of segment `raw`: its header,
/// one-entry block table and payload.
pub open spec fn image_facts(b: Seq<u8>, raw: Seq<u8>, dtype: DTypeId, sel: CodecSelection) -> bool {
    let p = chunk_payload(raw, dtype, sel);
    let h = parse_chunk_header(b, codec_of(b[0]), filter_of(b[1]));
    &&& b.len() >= CHUNK_HEADER_SIZE + 4 + p.len()
    &&& b[0] <= 3 && b[1] <= 3
    &&& h == record_header(raw.len(), sel, p)
    &&& parse_block_table(b, 1) == seq![BlockEntry { compressed_len: p.len() as u32 }]
    &&& table_total(parse_block_table(b, 1)) == p.len()
    &&& b.subrange(CHUNK_HEADER_SIZE + 4, CHUNK_HEADER_SIZE + 4 + p.len()) == p
}

proof fn lemma_image_fields(raw: Seq<u8>, dtype: DTypeId, sel: CodecSelection, align: u32)
    requires
        raw.len() <= u32::MAX,
        chunk_payload(raw, dtype, sel).len() <= u32::MAX,
    ensures
        image_facts(chunk_image(raw, dtype, sel, align), raw, dtype, sel),
{
    let p = chunk_payload(raw, dtype, sel);
    let h = record_header(raw.len(), sel, p);
    let t = seq![BlockEntry { compressed_len: p.len() as u32 }];
    let b = chunk_image(raw, dtype, sel, align);
    lemma_chunk_header_round_trip(h, t);
    crate::chunk::lemma_block_table_bytes_len(t);
    let hb = chunk_header_bytes(h) + block_table_bytes(t);
    assert(b.subrange(0, 20) =~= hb);
    lemma_parse_prefix(b, hb, sel.codec, sel.filter);
    assert(b.subrange(20, 20 + p.len() as int) =~= p);
    let tt = parse_block_table(b, 1);
    assert(tt.drop_last() =~= Seq::<BlockEntry>::empty());
    assert(table_total(tt.drop_last()) == 0);
    assert(table_total(tt) == table_total(tt.drop_last()) + (tt.last().compressed_len as nat));
}

} // verus!
