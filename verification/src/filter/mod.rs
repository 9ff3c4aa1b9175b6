//! Reversible byte filters applied before compression.
pub mod byte_shuffle;
pub mod bit_shuffle;
pub mod delta_zigzag;

use vstd::prelude::*;
use crate::types::{DTypeId, FilterId, dtype_size};
use crate::filter::byte_shuffle::{shuffled, unshuffled, lemma_unshuffle_shuffle};
use crate::filter::bit_shuffle::{bit_shuffled, bit_unshuffled, lemma_bit_unshuffle_shuffle};
use crate::filter::delta_zigzag::{dz_encoded, dz_decoded, dz_width, lemma_dz_round_trip};

verus! {

/// What applying filter `f` to `b` produces.
pub open spec fn filtered(f: FilterId, b: Seq<u8>, dtype: DTypeId) -> Seq<u8> {
    match f {
        FilterId::NoFilter => b,
        FilterId::ByteShuffle => shuffled(b, dtype_size(dtype) as int),
        FilterId::BitShuffle => bit_shuffled(b),
        FilterId::DeltaZigZag => dz_encoded(b, dz_width(dtype)),
    }
}

/// What reverting filter `f` on `b` produces.
pub open spec fn unfiltered(f: FilterId, b: Seq<u8>, dtype: DTypeId) -> Seq<u8> {
    match f {
        FilterId::NoFilter => b,
        FilterId::ByteShuffle => unshuffled(b, dtype_size(dtype) as int),
        FilterId::BitShuffle => bit_unshuffled(b),
        FilterId::DeltaZigZag => dz_decoded(b, dz_width(dtype)),
    }
}

/// Reverting a filter undoes it, for every filter, dtype and block.
pub proof fn lemma_filter_round_trip(f: FilterId, b: Seq<u8>, dtype: DTypeId)
    ensures
        unfiltered(f, filtered(f, b, dtype), dtype) == b,
        filtered(f, b, dtype).len() == b.len(),
{
    match f {
        FilterId::NoFilter => {},
        FilterId::ByteShuffle => {
            lemma_unshuffle_shuffle(b, dtype_size(dtype) as int);
        },
        FilterId::BitShuffle => {
            lemma_bit_unshuffle_shuffle(b);
        },
        FilterId::DeltaZigZag => {
            lemma_dz_round_trip(b, dtype);
            crate::filter::delta_zigzag::lemma_dz_len(b, dz_width(dtype));
        },
    }
}

pub trait Filter {
    /// The filter this object applies.
    spec fn kind(&self) -> FilterId;

    fn id(&self) -> (r: FilterId)
        ensures
            r == self.kind(),
    ;

    fn apply(&self, block: &[u8], dtype: DTypeId) -> (r: Vec<u8>)
        requires
            self.kind() == FilterId::BitShuffle ==> block@.len() <= usize::MAX / 8,
        ensures
            r@ == filtered(self.kind(), block@, dtype),
    ;

    fn revert(&self, block: &[u8], dtype: DTypeId) -> (r: Vec<u8>)
        requires
            self.kind() == FilterId::BitShuffle ==> block@.len() <= usize::MAX / 8,
        ensures
            r@ == unfiltered(self.kind(), block@, dtype),
    ;
}

pub struct NoneFilter;

impl Filter for NoneFilter {
    open spec fn kind(&self) -> FilterId {
        FilterId::NoFilter
    }

    fn id(&self) -> FilterId {
        FilterId::NoFilter
    }

    fn apply(&self, block: &[u8], _dtype: DTypeId) -> Vec<u8> {
        vstd::slice::slice_to_vec(block)
    }

    fn revert(&self, block: &[u8], _dtype: DTypeId) -> Vec<u8> {
        vstd::slice::slice_to_vec(block)
    }
}

pub struct ByteShuffleFilter;

impl Filter for ByteShuffleFilter {
    open spec fn kind(&self) -> FilterId {
        FilterId::ByteShuffle
    }

    fn id(&self) -> FilterId {
        FilterId::ByteShuffle
    }

    fn apply(&self, block: &[u8], dtype: DTypeId) -> Vec<u8> {
        byte_shuffle::shuffle(block, dtype.element_size())
    }

    fn revert(&self, block: &[u8], dtype: DTypeId) -> Vec<u8> {
        byte_shuffle::unshuffle(block, dtype.element_size())
    }
}

pub struct BitShuffleFilter;

impl Filter for BitShuffleFilter {
    open spec fn kind(&self) -> FilterId {
        FilterId::BitShuffle
    }

    fn id(&self) -> FilterId {
        FilterId::BitShuffle
    }

    fn apply(&self, block: &[u8], _dtype: DTypeId) -> Vec<u8> {
        bit_shuffle::bit_shuffle(block)
    }

    fn revert(&self, block: &[u8], _dtype: DTypeId) -> Vec<u8> {
        bit_shuffle::bit_unshuffle(block)
    }
}

pub struct DeltaZigZagFilter;

impl Filter for DeltaZigZagFilter {
    open spec fn kind(&self) -> FilterId {
        FilterId::DeltaZigZag
    }

    fn id(&self) -> FilterId {
        FilterId::DeltaZigZag
    }

    fn apply(&self, block: &[u8], dtype: DTypeId) -> Vec<u8> {
        delta_zigzag::encode(block, dtype)
    }

    fn revert(&self, block: &[u8], dtype: DTypeId) -> Vec<u8> {
        delta_zigzag::decode(block, dtype)
    }
}

/// One of the four filters, chosen at run time.
pub enum AnyFilter {
    Plain(NoneFilter),
    ByteShuffle(ByteShuffleFilter),
    BitShuffle(BitShuffleFilter),
    DeltaZigZag(DeltaZigZagFilter),
}

impl Filter for AnyFilter {
    open spec fn kind(&self) -> FilterId {
        match self {
            AnyFilter::Plain(_) => FilterId::NoFilter,
            AnyFilter::ByteShuffle(_) => FilterId::ByteShuffle,
            AnyFilter::BitShuffle(_) => FilterId::BitShuffle,
            AnyFilter::DeltaZigZag(_) => FilterId::DeltaZigZag,
        }
    }

    fn id(&self) -> FilterId {
        match self {
            AnyFilter::Plain(f) => f.id(),
            AnyFilter::ByteShuffle(f) => f.id(),
            AnyFilter::BitShuffle(f) => f.id(),
            AnyFilter::DeltaZigZag(f) => f.id(),
        }
    }

    fn apply(&self, block: &[u8], dtype: DTypeId) -> Vec<u8> {
        match self {
            AnyFilter::Plain(f) => f.apply(block, dtype),
            AnyFilter::ByteShuffle(f) => f.apply(block, dtype),
            AnyFilter::BitShuffle(f) => f.apply(block, dtype),
            AnyFilter::DeltaZigZag(f) => f.apply(block, dtype),
        }
    }

    fn revert(&self, block: &[u8], dtype: DTypeId) -> Vec<u8> {
        match self {
            AnyFilter::Plain(f) => f.revert(block, dtype),
            AnyFilter::ByteShuffle(f) => f.revert(block, dtype),
            AnyFilter::BitShuffle(f) => f.revert(block, dtype),
            AnyFilter::DeltaZigZag(f) => f.revert(block, dtype),
        }
    }
}

pub fn get_filter(id: FilterId) -> (r: Box<AnyFilter>)
    ensures
        r.kind() == id,
{
    match id {
        FilterId::NoFilter => Box::new(AnyFilter::Plain(NoneFilter)),
        FilterId::ByteShuffle => Box::new(AnyFilter::ByteShuffle(ByteShuffleFilter)),
        FilterId::BitShuffle => Box::new(AnyFilter::BitShuffle(BitShuffleFilter)),
        FilterId::DeltaZigZag => Box::new(AnyFilter::DeltaZigZag(DeltaZigZagFilter)),
    }
}

} // verus!
