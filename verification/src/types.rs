//! Format constants, identifiers and the error type.
use vstd::prelude::*;

verus! {

pub const MAGIC: [u8; 4] = [0x54, 0x50, 0x58, 0x01];
pub const MAGIC_END_FINAL: [u8; 4] = [0x31, 0x58, 0x50, 0x54];
pub const MAGIC_END_CHECKPOINT: [u8; 4] = [0x31, 0x58, 0x50, 0x43];

pub const HEADER_SIZE: usize = 48;
pub const FOOTER_SIZE: usize = 24;
pub const CHUNK_HEADER_SIZE: usize = 16;
pub const BLOCK_ENTRY_SIZE: usize = 4;

pub const DEFAULT_CHUNK_ALIGN: u32 = 4096;
pub const HUGEPAGE_CHUNK_ALIGN: u32 = 2097152;
pub const DEFAULT_BLOCK_SIZE: u32 = 65536;
pub const DEFAULT_CHECKPOINT_INTERVAL_BYTES: u64 = 67108864;
pub const DEFAULT_CHECKPOINT_INTERVAL_MS: u64 = 60000;

pub const FLAG_DIRECT_IO: u16 = 0x01;
pub const FLAG_CHECKSUMMED: u16 = 0x02;
pub const FLAG_GDS_ASSISTED: u16 = 0x04;
pub const FLAG_HUGEPAGES: u16 = 0x08;
pub const FLAG_HW_OFFLOAD: u16 = 0x10;
pub const FLAG_SPDK: u16 = 0x20;

/// Element type of a stored tensor.
#[derive(Clone, Copy, Debug, PartialEq, Eq, Hash, Structural)]
pub enum DTypeId {
    Float64,
    Float32,
    Float16,
    BFloat16,
    Int64,
    Int32,
    Int16,
    Int8,
    UInt64,
    UInt32,
    UInt16,
    UInt8,
    Bool,
}

/// Wire code of a dtype.
pub open spec fn dtype_code(d: DTypeId) -> u8 {
    match d {
        DTypeId::Float64 => 0,
        DTypeId::Float32 => 1,
        DTypeId::Float16 => 2,
        DTypeId::BFloat16 => 3,
        DTypeId::Int64 => 4,
        DTypeId::Int32 => 5,
        DTypeId::Int16 => 6,
        DTypeId::Int8 => 7,
        DTypeId::UInt64 => 8,
        DTypeId::UInt32 => 9,
        DTypeId::UInt16 => 10,
        DTypeId::UInt8 => 11,
        DTypeId::Bool => 12,
    }
}

/// Size in bytes of one element of a dtype.
pub open spec fn dtype_size(d: DTypeId) -> usize {
    match d {
        DTypeId::Float64 | DTypeId::Int64 | DTypeId::UInt64 => 8,
        DTypeId::Float32 | DTypeId::Int32 | DTypeId::UInt32 => 4,
        DTypeId::Float16 | DTypeId::BFloat16 | DTypeId::Int16 | DTypeId::UInt16 => 2,
        DTypeId::Int8 | DTypeId::UInt8 | DTypeId::Bool => 1,
    }
}

impl DTypeId {
    pub fn element_size(&self) -> (r: usize)
        ensures
            r == dtype_size(*self),
    {
        match self {
            DTypeId::Float64 | DTypeId::Int64 | DTypeId::UInt64 => 8,
            DTypeId::Float32 | DTypeId::Int32 | DTypeId::UInt32 => 4,
            DTypeId::Float16 | DTypeId::BFloat16 | DTypeId::Int16 | DTypeId::UInt16 => 2,
            DTypeId::Int8 | DTypeId::UInt8 | DTypeId::Bool => 1,
        }
    }

    /// The wire code of this dtype.
    pub fn to_u8(&self) -> (r: u8)
        ensures
            r == dtype_code(*self),
    {
        match self {
            DTypeId::Float64 => 0,
            DTypeId::Float32 => 1,
            DTypeId::Float16 => 2,
            DTypeId::BFloat16 => 3,
            DTypeId::Int64 => 4,
            DTypeId::Int32 => 5,
            DTypeId::Int16 => 6,
            DTypeId::Int8 => 7,
            DTypeId::UInt64 => 8,
            DTypeId::UInt32 => 9,
            DTypeId::UInt16 => 10,
            DTypeId::UInt8 => 11,
            DTypeId::Bool => 12,
        }
    }

    pub fn from_u8(val: u8) -> (r: Result<Self, TpxError>)
        ensures
            val <= 12 ==> (r matches Ok(d) && dtype_code(d) == val),
            val > 12 ==> (r matches Err(TpxError::InvalidDType(v)) && v == val),
    {
        match val {
            0 => Ok(DTypeId::Float64),
            1 => Ok(DTypeId::Float32),
            2 => Ok(DTypeId::Float16),
            3 => Ok(DTypeId::BFloat16),
            4 => Ok(DTypeId::Int64),
            5 => Ok(DTypeId::Int32),
            6 => Ok(DTypeId::Int16),
            7 => Ok(DTypeId::Int8),
            8 => Ok(DTypeId::UInt64),
            9 => Ok(DTypeId::UInt32),
            10 => Ok(DTypeId::UInt16),
            11 => Ok(DTypeId::UInt8),
            12 => Ok(DTypeId::Bool),
            other => Err(TpxError::InvalidDType(other)),
        }
    }

    pub fn as_str(&self) -> (r: &'static str)
        ensures
            r@ == dtype_name(*self),
    {
        match self {
            DTypeId::Float64 => "float64",
            DTypeId::Float32 => "float32",
            DTypeId::Float16 => "float16",
            DTypeId::BFloat16 => "bfloat16",
            DTypeId::Int64 => "int64",
            DTypeId::Int32 => "int32",
            DTypeId::Int16 => "int16",
            DTypeId::Int8 => "int8",
            DTypeId::UInt64 => "uint64",
            DTypeId::UInt32 => "uint32",
            DTypeId::UInt16 => "uint16",
            DTypeId::UInt8 => "uint8",
            DTypeId::Bool => "bool",
        }
    }
}

/// Lower-case name of a dtype.
pub open spec fn dtype_name(d: DTypeId) -> Seq<char> {
    match d {
        DTypeId::Float64 => "float64"@,
        DTypeId::Float32 => "float32"@,
        DTypeId::Float16 => "float16"@,
        DTypeId::BFloat16 => "bfloat16"@,
        DTypeId::Int64 => "int64"@,
        DTypeId::Int32 => "int32"@,
        DTypeId::Int16 => "int16"@,
        DTypeId::Int8 => "int8"@,
        DTypeId::UInt64 => "uint64"@,
        DTypeId::UInt32 => "uint32"@,
        DTypeId::UInt16 => "uint16"@,
        DTypeId::UInt8 => "uint8"@,
        DTypeId::Bool => "bool"@,
    }
}

/// Byte filter applied before compression.
#[derive(Clone, Copy, Debug, PartialEq, Eq, Hash, Structural)]
pub enum FilterId {
    NoFilter,
    ByteShuffle,
    BitShuffle,
    DeltaZigZag,
}

pub open spec fn filter_code(f: FilterId) -> u8 {
    match f {
        FilterId::NoFilter => 0,
        FilterId::ByteShuffle => 1,
        FilterId::BitShuffle => 2,
        FilterId::DeltaZigZag => 3,
    }
}

impl FilterId {
    pub fn from_u8(val: u8) -> (r: Result<Self, TpxError>)
        ensures
            val <= 3 ==> (r matches Ok(f) && filter_code(f) == val),
            val > 3 ==> (r matches Err(TpxError::InvalidFilter(v)) && v == val),
    {
        match val {
            0 => Ok(FilterId::NoFilter),
            1 => Ok(FilterId::ByteShuffle),
            2 => Ok(FilterId::BitShuffle),
            3 => Ok(FilterId::DeltaZigZag),
            other => Err(TpxError::InvalidFilter(other)),
        }
    }

    /// The wire code of this filter.
    pub fn to_u8(&self) -> (r: u8)
        ensures
            r == filter_code(*self),
    {
        match self {
            FilterId::NoFilter => 0,
            FilterId::ByteShuffle => 1,
            FilterId::BitShuffle => 2,
            FilterId::DeltaZigZag => 3,
        }
    }
}

/// Compression codec of a chunk payload.
#[derive(Clone, Copy, Debug, PartialEq, Eq, Hash, Structural)]
pub enum CodecId {
    Raw,
    Chimp128,
    Zstd,
    Lz4,
}

pub open spec fn codec_code(c: CodecId) -> u8 {
    match c {
        CodecId::Raw => 0,
        CodecId::Chimp128 => 1,
        CodecId::Zstd => 2,
        CodecId::Lz4 => 3,
    }
}

impl CodecId {
    pub fn from_u8(val: u8) -> (r: Result<Self, TpxError>)
        ensures
            val <= 3 ==> (r matches Ok(c) && codec_code(c) == val),
            val > 3 ==> (r matches Err(TpxError::InvalidCodec(v)) && v == val),
    {
        match val {
            0 => Ok(CodecId::Raw),
            1 => Ok(CodecId::Chimp128),
            2 => Ok(CodecId::Zstd),
            3 => Ok(CodecId::Lz4),
            other => Err(TpxError::InvalidCodec(other)),
        }
    }

    /// The wire code of this codec.
    pub fn to_u8(&self) -> (r: u8)
        ensures
            r == codec_code(*self),
    {
        match self {
            CodecId::Raw => 0,
            CodecId::Chimp128 => 1,
            CodecId::Zstd => 2,
            CodecId::Lz4 => 3,
        }
    }
}

/// Type tag of an attribute value.
#[derive(Clone, Copy, Debug, PartialEq, Eq, Hash, Structural)]
pub enum AttrTypeId {
    String,
    Int64,
    Float64,
    Bool,
    Bytes,
}

pub open spec fn attr_type_code(a: AttrTypeId) -> u8 {
    match a {
        AttrTypeId::String => 0,
        AttrTypeId::Int64 => 1,
        AttrTypeId::Float64 => 2,
        AttrTypeId::Bool => 3,
        AttrTypeId::Bytes => 4,
    }
}

impl AttrTypeId {
    pub fn from_u8(val: u8) -> (r: Result<Self, TpxError>)
        ensures
            val <= 4 ==> (r matches Ok(a) && attr_type_code(a) == val),
            val > 4 ==> (r matches Err(TpxError::InvalidAttrType(v)) && v == val),
    {
        match val {
            0 => Ok(AttrTypeId::String),
            1 => Ok(AttrTypeId::Int64),
            2 => Ok(AttrTypeId::Float64),
            3 => Ok(AttrTypeId::Bool),
            4 => Ok(AttrTypeId::Bytes),
            other => Err(TpxError::InvalidAttrType(other)),
        }
    }

    /// The wire code of this attribute type.
    pub fn to_u8(&self) -> (r: u8)
        ensures
            r == attr_type_code(*self),
    {
        match self {
            AttrTypeId::String => 0,
            AttrTypeId::Int64 => 1,
            AttrTypeId::Float64 => 2,
            AttrTypeId::Bool => 3,
            AttrTypeId::Bytes => 4,
        }
    }
}

#[derive(Clone, Copy, Debug, PartialEq, Eq, Structural)]
pub enum OpenMode {
    ReadOnly,
    ReadWrite,
    Append,
}

/// Location of one stored chunk.
#[derive(Clone, Copy, Debug, PartialEq, Eq, Hash, Structural)]
pub struct ChunkRef {
    pub shard_id: u16,
    pub chunk_offset: u64,
    pub chunk_len: u32,
}

/// Product of the dimensions of a shape; the empty shape has no elements.
pub open spec fn shape_elements(shape: Seq<u32>) -> nat {
    if shape.len() == 0 {
        0
    } else {
        dims_product(shape)
    }
}

/// Product of all dimensions (1 for no dimensions).
pub open spec fn dims_product(shape: Seq<u32>) -> nat
    decreases shape.len(),
{
    if shape.len() == 0 {
        1
    } else {
        dims_product(shape.drop_last()) * (shape.last() as nat)
    }
}

/// Every running product of the dimensions fits in a `usize`.
pub open spec fn shape_products_fit(shape: Seq<u32>) -> bool {
    forall|i: int| 0 <= i <= shape.len() ==> #[trigger] dims_product(shape.take(i)) <= usize::MAX
}

/// A decoded tensor: element type, shape and raw little-endian bytes.
#[derive(Clone, Debug, PartialEq)]
pub struct OwnedTensor {
    pub dtype: DTypeId,
    pub shape: Vec<u32>,
    pub data: Vec<u8>,
}

impl OwnedTensor {
    pub fn new(dtype: DTypeId, shape: Vec<u32>, data: Vec<u8>) -> (r: Self)
        ensures
            r.dtype == dtype,
            r.shape@ == shape@,
            r.data@ == data@,
    {
        Self { dtype, shape, data }
    }

    pub fn total_elements(&self) -> (r: usize)
        requires
            shape_products_fit(self.shape@),
        ensures
            r == shape_elements(self.shape@),
    {
        if self.shape.len() == 0 {
            return 0;
        }
        let mut prod: usize = 1;
        let mut i: usize = 0;
        while i < self.shape.len()
            invariant
                i <= self.shape@.len(),
                shape_products_fit(self.shape@),
                prod == dims_product(self.shape@.take(i as int)),
            decreases self.shape@.len() - i,
        {
            let ghost s = self.shape@;
            assert(s.take(i + 1).drop_last() =~= s.take(i as int));
            assert(s.take(i + 1).last() == s[i as int]);
            assert(dims_product(s.take(i + 1)) <= usize::MAX);
            prod = prod * (self.shape[i] as usize);
            i = i + 1;
        }
        assert(self.shape@.take(i as int) =~= self.shape@);
        prod
    }

    pub fn expected_byte_len(&self) -> (r: usize)
        requires
            shape_products_fit(self.shape@),
            shape_elements(self.shape@) * dtype_size(self.dtype) <= usize::MAX,
        ensures
            r == shape_elements(self.shape@) * dtype_size(self.dtype),
    {
        let n = self.total_elements();
        n * self.dtype.element_size()
    }
}

/// Errors of the format, the codecs and the indexes.
#[allow(inconsistent_fields)]
#[derive(Debug)]
pub enum TpxError {
    InvalidMagic { expected: [u8; 4], got: [u8; 4] },
    UnsupportedVersion(u16),
    ChecksumMismatch { expected: u64, got: u64 },
    ChunkCrcMismatch { offset: u64, expected: u32, got: u32 },
    InvalidEndMagic([u8; 4]),
    KeyNotFound(String),
    VersionNotFound { key: String, version: u32 },
    InvalidDType(u8),
    InvalidFilter(u8),
    InvalidCodec(u8),
    InvalidAttrType(u8),
    AttrValueTooLarge { len: usize },
    BufferTooSmall { component: &'static str, required: usize, provided: usize },
    DecompressLengthMismatch { expected: usize, got: usize },
    CodecError(String),
    ShardOutOfRange(u16),
    AlreadyLocked,
    ReadOnlyMode,
    UnsupportedFeature(&'static str),
    Io(std::io::Error),
    CorruptArchive(String),
}

#[verifier::external_type_specification]
#[verifier::external_body]
pub struct ExIoError(std::io::Error);

/// Calls `std::io::Error::from(std::io::ErrorKind::UnexpectedEof)`: the error
/// that a byte reader reports when input ends early. Nothing is claimed of it.
#[verifier::external_body]
pub(crate) fn unexpected_eof() -> std::io::Error {
    std::io::Error::from(std::io::ErrorKind::UnexpectedEof)
}

} // verus!
