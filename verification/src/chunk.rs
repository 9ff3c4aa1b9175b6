//! The 16-byte chunk record header with its block table, and alignment padding.
use vstd::prelude::*;
use crate::types::{
    TpxError, CodecId, FilterId, codec_code, filter_code, CHUNK_HEADER_SIZE, BLOCK_ENTRY_SIZE,
};
use crate::wire::{le16, le32, get16, get32, lemma_le_round_trips, push16, push32, read16, read32};

verus! {

#[derive(Clone, Copy, Debug, PartialEq, Eq, Structural)]
pub struct BlockEntry {
    pub compressed_len: u32,
}

#[derive(Clone, Copy, Debug, PartialEq, Eq, Structural)]
pub struct ChunkHeader {
    pub codec_id: CodecId,
    pub filter_id: FilterId,
    pub block_count: u16,
    pub block_size: u32,
    pub uncompressed_len: u32,
    pub payload_crc32c: u32,
}

pub open spec fn chunk_header_bytes(h: ChunkHeader) -> Seq<u8> {
    seq![codec_code(h.codec_id), filter_code(h.filter_id)] + le16(h.block_count) + le32(h.block_size)
        + le32(h.uncompressed_len) + le32(h.payload_crc32c)
}

/// The block table: each entry's compressed length, four bytes each.
pub open spec fn block_table_bytes(t: Seq<BlockEntry>) -> Seq<u8>
    decreases t.len(),
{
    if t.len() == 0 {
        Seq::empty()
    } else {
        block_table_bytes(t.drop_last()) + le32(t.last().compressed_len)
    }
}

/// The block table entries read after the 16-byte header.
pub open spec fn parse_block_table(b: Seq<u8>, count: nat) -> Seq<BlockEntry> {
    Seq::new(count, |i: int| BlockEntry { compressed_len: get32(b, CHUNK_HEADER_SIZE + 4 * i) })
}

/// The numeric fields of a chunk header image (the two id bytes are decoded separately).
pub open spec fn parse_chunk_header(b: Seq<u8>, codec_id: CodecId, filter_id: FilterId) -> ChunkHeader {
    ChunkHeader {
        codec_id,
        filter_id,
        block_count: get16(b, 2),
        block_size: get32(b, 4),
        uncompressed_len: get32(b, 8),
        payload_crc32c: get32(b, 12),
    }
}

pub open spec fn codec_of(code: u8) -> CodecId {
    if code == 0 { CodecId::Raw } else if code == 1 { CodecId::Chimp128 } else if code == 2 { CodecId::Zstd } else { CodecId::Lz4 }
}

pub open spec fn filter_of(code: u8) -> FilterId {
    if code == 0 {
        FilterId::NoFilter
    } else if code == 1 {
        FilterId::ByteShuffle
    } else if code == 2 {
        FilterId::BitShuffle
    } else {
        FilterId::DeltaZigZag
    }
}

pub proof fn lemma_block_table_bytes_len(t: Seq<BlockEntry>)
    ensures
        block_table_bytes(t).len() == 4 * t.len(),
    decreases t.len(),
{
    lemma_le_round_trips();
    if t.len() > 0 {
        lemma_block_table_bytes_len(t.drop_last());
    }
}

/// Reading the block table back from its image gives the entries.
pub proof fn lemma_block_table_round_trip(prefix: Seq<u8>, t: Seq<BlockEntry>)
    requires
        prefix.len() == CHUNK_HEADER_SIZE,
    ensures
        parse_block_table(prefix + block_table_bytes(t), t.len()) == t,
    decreases t.len(),
{
    lemma_le_round_trips();
    lemma_block_table_bytes_len(t);
    if t.len() > 0 {
        let s = t.drop_last();
        lemma_block_table_round_trip(prefix, s);
        lemma_block_table_bytes_len(s);
        let b = prefix + block_table_bytes(t);
        let b0 = prefix + block_table_bytes(s);
        assert(b == b0 + le32(t.last().compressed_len));
        assert forall|i: int| 0 <= i < t.len() implies #[trigger] parse_block_table(b, t.len())[i] == t[i] by {
            if i < s.len() {
                assert(b.subrange(CHUNK_HEADER_SIZE + 4 * i, CHUNK_HEADER_SIZE + 4 * i + 4) =~= b0.subrange(
                    CHUNK_HEADER_SIZE + 4 * i,
                    CHUNK_HEADER_SIZE + 4 * i + 4,
                ));
                assert(parse_block_table(b0, s.len())[i] == s[i]);
            } else {
                assert(b.subrange(CHUNK_HEADER_SIZE + 4 * i, CHUNK_HEADER_SIZE + 4 * i + 4) =~= le32(
                    t.last().compressed_len,
                ));
            }
        }
        assert(parse_block_table(b, t.len()) =~= t);
    }
}

/// Reading back a written chunk header gives the same header and block table.
pub proof fn lemma_chunk_header_round_trip(h: ChunkHeader, t: Seq<BlockEntry>)
    ensures
        ({
            let b = chunk_header_bytes(h) + block_table_bytes(t);
            &&& b.len() == CHUNK_HEADER_SIZE + 4 * t.len()
            &&& b[0] == codec_code(h.codec_id)
            &&& b[1] == filter_code(h.filter_id)
            &&& codec_of(b[0]) == h.codec_id
            &&& filter_of(b[1]) == h.filter_id
            &&& parse_chunk_header(b, h.codec_id, h.filter_id) == h
            &&& parse_block_table(b, h.block_count as nat) == t
        }) || h.block_count != t.len(),
{
    lemma_le_round_trips();
    lemma_block_table_bytes_len(t);
    let hb = chunk_header_bytes(h);
    let b = hb + block_table_bytes(t);
    assert(hb.len() == CHUNK_HEADER_SIZE);
    assert(b.subrange(2, 4) =~= le16(h.block_count));
    assert(b.subrange(4, 8) =~= le32(h.block_size));
    assert(b.subrange(8, 12) =~= le32(h.uncompressed_len));
    assert(b.subrange(12, 16) =~= le32(h.payload_crc32c));
    lemma_block_table_round_trip(hb, t);
}

impl ChunkHeader {
    pub fn new(
        codec_id: CodecId,
        filter_id: FilterId,
        block_count: u16,
        block_size: u32,
        uncompressed_len: u32,
        payload_crc32c: u32,
    ) -> (r: Self)
        ensures
            r == (ChunkHeader { codec_id, filter_id, block_count, block_size, uncompressed_len, payload_crc32c }),
    {
        Self { codec_id, filter_id, block_count, block_size, uncompressed_len, payload_crc32c }
    }

    pub fn serialize(&self, block_table: &[BlockEntry]) -> (r: Vec<u8>)
        ensures
            r@ == chunk_header_bytes(*self) + block_table_bytes(block_table@),
    {
        let mut buf: Vec<u8> = Vec::new();
        buf.push(self.codec_id.to_u8());
        buf.push(self.filter_id.to_u8());
        push16(&mut buf, self.block_count);
        push32(&mut buf, self.block_size);
        push32(&mut buf, self.uncompressed_len);
        push32(&mut buf, self.payload_crc32c);
        assert(buf@ =~= chunk_header_bytes(*self));
        let mut i: usize = 0;
        while i < block_table.len()
            invariant
                i <= block_table@.len(),
                buf@ == chunk_header_bytes(*self) + block_table_bytes(block_table@.take(i as int)),
            decreases block_table@.len() - i,
        {
            push32(&mut buf, block_table[i].compressed_len);
            assert(block_table@.take(i + 1).drop_last() =~= block_table@.take(i as int));
            i = i + 1;
        }
        assert(block_table@.take(i as int) =~= block_table@);
        buf
    }

    pub fn deserialize(buf: &[u8]) -> (r: Result<(Self, Vec<BlockEntry>), TpxError>)
        ensures
            buf@.len() < CHUNK_HEADER_SIZE ==> (r matches Err(TpxError::BufferTooSmall { component, required, provided })
                && component@ == "ChunkHeader"@ && required == CHUNK_HEADER_SIZE && provided == buf@.len()),
            buf@.len() >= CHUNK_HEADER_SIZE && buf@[0] > 3 ==> (r matches Err(TpxError::InvalidCodec(c)) && c == buf@[0]),
            buf@.len() >= CHUNK_HEADER_SIZE && buf@[0] <= 3 && buf@[1] > 3 ==> (r matches Err(TpxError::InvalidFilter(f)) && f == buf@[1]),
            buf@.len() >= CHUNK_HEADER_SIZE && buf@[0] <= 3 && buf@[1] <= 3 ==> ({
                let h = parse_chunk_header(buf@, codec_of(buf@[0]), filter_of(buf@[1]));
                let need = CHUNK_HEADER_SIZE + 4 * h.block_count;
                &&& buf@.len() < need ==> (r matches Err(TpxError::BufferTooSmall { component, required, provided })
                    && component@ == "BlockTable"@ && required == need && provided == buf@.len())
                &&& buf@.len() >= need ==> (r matches Ok((hh, t)) && hh == h && t@ == parse_block_table(
                    buf@,
                    h.block_count as nat,
                ))
            }),
    {
        let n = buf.len();
        if n < CHUNK_HEADER_SIZE {
            return Err(
                TpxError::BufferTooSmall {
                    component: "ChunkHeader",
                    required: CHUNK_HEADER_SIZE,
                    provided: n,
                },
            );
        }
        let codec_id = match CodecId::from_u8(buf[0]) {
            Ok(c) => c,
            Err(e) => return Err(e),
        };
        let filter_id = match FilterId::from_u8(buf[1]) {
            Ok(f) => f,
            Err(e) => return Err(e),
        };
        assert(codec_id == codec_of(buf@[0]));
        assert(filter_id == filter_of(buf@[1]));
        let block_count = read16(buf, 2);
        let block_size = read32(buf, 4);
        let uncompressed_len = read32(buf, 8);
        let payload_crc32c = read32(buf, 12);
        let header = Self { codec_id, filter_id, block_count, block_size, uncompressed_len, payload_crc32c };
        let required_total = CHUNK_HEADER_SIZE + (block_count as usize) * BLOCK_ENTRY_SIZE;
        if n < required_total {
            return Err(
                TpxError::BufferTooSmall {
                    component: "BlockTable",
                    required: required_total,
                    provided: n,
                },
            );
        }
        let mut block_table: Vec<BlockEntry> = Vec::new();
        let mut i: usize = 0;
        while i < block_count as usize
            invariant
                i <= block_count,
                n == buf@.len(),
                n >= CHUNK_HEADER_SIZE + 4 * block_count,
                block_table@ == parse_block_table(buf@, i as nat),
            decreases block_count - i,
        {
            let compressed_len = read32(buf, CHUNK_HEADER_SIZE + 4 * i);
            block_table.push(BlockEntry { compressed_len });
            assert(block_table@ =~= parse_block_table(buf@, (i + 1) as nat));
            i = i + 1;
        }
        Ok((header, block_table))
    }
}

/// Number of zero bytes that bring `len` up to a multiple of `align`.
pub open spec fn padding_for(len: nat, align: nat) -> nat {
    if align == 0 || len % align == 0 {
        0
    } else {
        (align - len % align) as nat
    }
}

/// Appends zero bytes until the length is a multiple of `chunk_align`
/// (nothing when `chunk_align` is 0).
pub fn pad_to_align(buf: &mut Vec<u8>, chunk_align: u32)
    requires
        old(buf)@.len() + padding_for(old(buf)@.len(), chunk_align as nat) <= usize::MAX,
    ensures
        final(buf)@.len() == old(buf)@.len() + padding_for(old(buf)@.len(), chunk_align as nat),
        final(buf)@.subrange(0, old(buf)@.len() as int) == old(buf)@,
        forall|i: int| old(buf)@.len() <= i < final(buf)@.len() ==> final(buf)@[i] == 0u8,
        chunk_align > 0 ==> final(buf)@.len() % (chunk_align as nat) == 0,
{
    if chunk_align == 0 {
        assert(buf@.subrange(0, buf@.len() as int) =~= buf@);
        return;
    }
    let align = chunk_align as usize;
    let remainder = buf.len() % align;
    if remainder != 0 {
        let padding = align - remainder;
        let old_len = buf.len();
        let new_len = old_len + padding;
        buf.resize(new_len, 0u8);
        let ghost (ol, a, pd) = (old_len as int, align as int, padding as int);
        assert((ol + pd) % a == 0) by (nonlinear_arith)
            requires pd == a - ol % a, a > 0, ol >= 0;
    } else {
        assert(buf@.subrange(0, buf@.len() as int) =~= buf@);
    }
}

} // verus!
