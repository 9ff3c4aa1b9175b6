//! The 48-byte file header.
use vstd::prelude::*;
use crate::types::{TpxError, MAGIC, HEADER_SIZE, FLAG_CHECKSUMMED, DEFAULT_CHUNK_ALIGN, DEFAULT_BLOCK_SIZE};
use crate::wire::{le16, le32, le64, get16, get32, get64, lemma_le_round_trips, push_all, push16, push32, push64, read4, read16, read32, read64, same4};

verus! {

broadcast use vstd::array::group_array_axioms;

#[derive(Clone, Copy, Debug, PartialEq, Eq)]
pub struct FileHeader {
    pub magic: [u8; 4],
    pub format_version: u16,
    pub flags: u16,
    pub chunk_align: u32,
    pub default_block_size: u32,
    pub shard_count: u16,
    pub reserved: u16,
    pub global_attrs_offset: u64,
    pub global_attrs_len: u64,
    pub shard_table_offset: u64,
    pub reserved2: u32,
}

/// The header's wire image: the fields in declaration order, little-endian.
pub open spec fn header_bytes(h: FileHeader) -> Seq<u8> {
    h.magic@ + le16(h.format_version) + le16(h.flags) + le32(h.chunk_align) + le32(
        h.default_block_size,
    ) + le16(h.shard_count) + le16(h.reserved) + le64(h.global_attrs_offset) + le64(
        h.global_attrs_len,
    ) + le64(h.shard_table_offset) + le32(h.reserved2)
}

/// The fields read from the first 48 bytes of `b`.
pub open spec fn parse_header(b: Seq<u8>) -> FileHeader {
    FileHeader {
        magic: [b[0], b[1], b[2], b[3]],
        format_version: get16(b, 4),
        flags: get16(b, 6),
        chunk_align: get32(b, 8),
        default_block_size: get32(b, 12),
        shard_count: get16(b, 16),
        reserved: get16(b, 18),
        global_attrs_offset: get64(b, 20),
        global_attrs_len: get64(b, 28),
        shard_table_offset: get64(b, 36),
        reserved2: get32(b, 44),
    }
}

/// A header is accepted when its magic matches and its major version is at most 1.
pub open spec fn header_valid(h: FileHeader) -> bool {
    h.magic@ == MAGIC@ && (h.format_version >> 8u16) <= 1
}

/// What `FileHeader::deserialize` answers for the bytes `b`.
pub open spec fn header_decode_ok(b: Seq<u8>) -> bool {
    b.len() >= HEADER_SIZE && header_valid(parse_header(b))
}

impl FileHeader {
    pub fn default() -> (r: Self)
        ensures
            r.magic@ == MAGIC@,
            r.format_version == 0x0100,
            r.flags == FLAG_CHECKSUMMED,
            r.chunk_align == DEFAULT_CHUNK_ALIGN,
            r.default_block_size == DEFAULT_BLOCK_SIZE,
            r.shard_count == 1,
            r.reserved == 0 && r.reserved2 == 0,
            r.global_attrs_offset == 0 && r.global_attrs_len == 0 && r.shard_table_offset == 0,
    {
        Self {
            magic: MAGIC,
            format_version: 0x0100,
            flags: FLAG_CHECKSUMMED,
            chunk_align: DEFAULT_CHUNK_ALIGN,
            default_block_size: DEFAULT_BLOCK_SIZE,
            shard_count: 1,
            reserved: 0,
            global_attrs_offset: 0,
            global_attrs_len: 0,
            shard_table_offset: 0,
            reserved2: 0,
        }
    }

    pub fn new(shard_count: u16, chunk_align: u32, flags: u16) -> (r: Self)
        ensures
            r.magic@ == MAGIC@,
            r.format_version == 0x0100,
            r.flags == flags,
            r.chunk_align == chunk_align,
            r.default_block_size == DEFAULT_BLOCK_SIZE,
            r.shard_count == if shard_count >= 1 { shard_count } else { 1 },
            r.reserved == 0 && r.reserved2 == 0,
            r.global_attrs_offset == 0 && r.global_attrs_len == 0 && r.shard_table_offset == 0,
    {
        Self {
            magic: MAGIC,
            format_version: 0x0100,
            flags,
            chunk_align,
            default_block_size: DEFAULT_BLOCK_SIZE,
            shard_count: if shard_count >= 1 { shard_count } else { 1 },
            reserved: 0,
            global_attrs_offset: 0,
            global_attrs_len: 0,
            shard_table_offset: 0,
            reserved2: 0,
        }
    }

    pub fn serialize(&self) -> (r: [u8; HEADER_SIZE])
        ensures
            r@ == header_bytes(*self),
    {
        let mut v: Vec<u8> = Vec::new();
        push_all(&mut v, self.magic.as_slice());
        push16(&mut v, self.format_version);
        push16(&mut v, self.flags);
        push32(&mut v, self.chunk_align);
        push32(&mut v, self.default_block_size);
        push16(&mut v, self.shard_count);
        push16(&mut v, self.reserved);
        push64(&mut v, self.global_attrs_offset);
        push64(&mut v, self.global_attrs_len);
        push64(&mut v, self.shard_table_offset);
        push32(&mut v, self.reserved2);
        proof {
            lemma_le_round_trips();
        }
        assert(v@ == header_bytes(*self));
        let mut out = [0u8; HEADER_SIZE];
        let mut i: usize = 0;
        while i < HEADER_SIZE
            invariant
                v@.len() == HEADER_SIZE,
                i <= HEADER_SIZE,
                out@.len() == HEADER_SIZE,
                forall|j: int| 0 <= j < i ==> out@[j] == v@[j],
            decreases HEADER_SIZE - i,
        {
            out[i] = v[i];
            i = i + 1;
        }
        assert(out@ =~= v@);
        out
    }

    pub fn deserialize(buf: &[u8]) -> (r: Result<Self, TpxError>)
        ensures
            header_decode_ok(buf@) ==> (r matches Ok(h) && h == parse_header(buf@)),
            buf@.len() < HEADER_SIZE ==> (r matches Err(TpxError::BufferTooSmall { component, required, provided })
                && component@ == "FileHeader"@ && required == HEADER_SIZE && provided == buf@.len()),
            buf@.len() >= HEADER_SIZE && parse_header(buf@).magic@ != MAGIC@ ==> (r matches Err(
                TpxError::InvalidMagic { expected, got },
            ) && expected@ == MAGIC@ && got == parse_header(buf@).magic),
            buf@.len() >= HEADER_SIZE && parse_header(buf@).magic@ == MAGIC@ && !header_valid(
                parse_header(buf@),
            ) ==> (r matches Err(TpxError::UnsupportedVersion(v)) && v == parse_header(
                buf@,
            ).format_version),
    {
        if buf.len() < HEADER_SIZE {
            return Err(
                TpxError::BufferTooSmall {
                    component: "FileHeader",
                    required: HEADER_SIZE,
                    provided: buf.len(),
                },
            );
        }
        let magic = read4(buf, 0);
        let header = Self {
            magic,
            format_version: read16(buf, 4),
            flags: read16(buf, 6),
            chunk_align: read32(buf, 8),
            default_block_size: read32(buf, 12),
            shard_count: read16(buf, 16),
            reserved: read16(buf, 18),
            global_attrs_offset: read64(buf, 20),
            global_attrs_len: read64(buf, 28),
            shard_table_offset: read64(buf, 36),
            reserved2: read32(buf, 44),
        };
        assert(header.magic =~= parse_header(buf@).magic);
        assert(header == parse_header(buf@));
        match header.validate() {
            Ok(()) => Ok(header),
            Err(e) => Err(e),
        }
    }

    pub fn validate(&self) -> (r: Result<(), TpxError>)
        ensures
            header_valid(*self) ==> r is Ok,
            self.magic@ != MAGIC@ ==> (r matches Err(TpxError::InvalidMagic { expected, got })
                && expected@ == MAGIC@ && got == self.magic),
            self.magic@ == MAGIC@ && !header_valid(*self) ==> (r matches Err(
                TpxError::UnsupportedVersion(v),
            ) && v == self.format_version),
    {
        if !same4(&self.magic, &MAGIC) {
            return Err(TpxError::InvalidMagic { expected: MAGIC, got: self.magic });
        }
        let fv = self.format_version;
        assert((fv >> 8u16) < 256) by (bit_vector);
        let major_version = (fv >> 8u16) as u8;
        if major_version > 1 {
            return Err(TpxError::UnsupportedVersion(self.format_version));
        }
        Ok(())
    }
}

/// Reading back a written header gives the same header.
pub proof fn lemma_header_round_trip(h: FileHeader)
    ensures
        header_bytes(h).len() == HEADER_SIZE,
        parse_header(header_bytes(h)) == h,
{
    lemma_le_round_trips();
    let b = header_bytes(h);
    assert(b.subrange(4, 6) =~= le16(h.format_version));
    assert(b.subrange(6, 8) =~= le16(h.flags));
    assert(b.subrange(8, 12) =~= le32(h.chunk_align));
    assert(b.subrange(12, 16) =~= le32(h.default_block_size));
    assert(b.subrange(16, 18) =~= le16(h.shard_count));
    assert(b.subrange(18, 20) =~= le16(h.reserved));
    assert(b.subrange(20, 28) =~= le64(h.global_attrs_offset));
    assert(b.subrange(28, 36) =~= le64(h.global_attrs_len));
    assert(b.subrange(36, 44) =~= le64(h.shard_table_offset));
    assert(b.subrange(44, 48) =~= le32(h.reserved2));
    let p = parse_header(b);
    assert(p.magic =~= h.magic);
}

} // verus!
