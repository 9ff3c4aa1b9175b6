//! Choosing a codec, filter and level for a block from a sample of it.
use vstd::prelude::*;
use vstd::std_specs::bits::u32_leading_zeros;
use vstd::std_specs::bits::u64_leading_zeros;
use crate::types::{CodecId, DTypeId, FilterId, dtype_size};
use crate::wire::{get32, get64, read32, read64};

verus! {

#[derive(Clone, Copy, Debug, PartialEq, Eq, Structural)]
pub struct CodecSelection {
    pub codec: CodecId,
    pub filter: FilterId,
    pub level: i32,
}

impl Default for CodecSelection {
    fn default() -> (r: Self)
        ensures
            r == (CodecSelection { codec: CodecId::Zstd, filter: FilterId::ByteShuffle, level: 3 }),
    {
        CodecSelection { codec: CodecId::Zstd, filter: FilterId::ByteShuffle, level: 3 }
    }
}

/// How many leading elements of a sample the heuristics look at.
pub const SAMPLE_ELEMENTS: usize = 64;

/// The number of elements examined: whole elements, at most 64.
pub open spec fn examined(len: nat, size: nat) -> nat {
    let n = len / size;
    if n > 64 { 64 } else { n }
}

/// Consecutive pairs among the first `k` elements whose XOR has at least
/// 12 (single precision) or 16 (double precision) leading zero bits.
pub open spec fn similar_pairs(data: Seq<u8>, dtype: DTypeId, k: int) -> nat
    decreases k,
{
    if k <= 1 {
        0
    } else {
        let i = k - 1;
        let close = if dtype == DTypeId::Float32 {
            u32_leading_zeros(get32(data, 4 * (i - 1)) ^ get32(data, 4 * i)) >= 12
        } else {
            u64_leading_zeros(get64(data, 8 * (i - 1)) ^ get64(data, 8 * i)) >= 16
        };
        similar_pairs(data, dtype, k - 1) + if close { 1nat } else { 0nat }
    }
}

/// At least three quarters of the consecutive pairs of the first (at most
/// 64) floats share their high bits; fewer than four floats never qualify.
pub open spec fn correlated_float(data: Seq<u8>, dtype: DTypeId) -> bool {
    let count = examined(data.len(), dtype_size(dtype) as nat);
    count >= 4 && similar_pairs(data, dtype, count as int) >= count * 3 / 4
}

proof fn lemma_whole_elements(len: int, size: int, count: int)
    requires
        len >= 0,
        size > 0,
        0 <= count <= len / size,
    ensures
        count * size <= len,
{
    vstd::arithmetic::div_mod::lemma_fundamental_div_mod(len, size);
    assert(count * size <= len) by (nonlinear_arith)
        requires
            count <= len / size,
            len == size * (len / size) + len % size,
            len % size >= 0,
            size > 0,
    ;
}

/// Whether consecutive floats of the sample are close in their bit patterns.
pub fn is_correlated_float(data: &[u8], dtype: DTypeId) -> (r: bool)
    requires
        dtype == DTypeId::Float32 || dtype == DTypeId::Float64,
    ensures
        r == correlated_float(data@, dtype),
{
    let elem_size = dtype.element_size();
    let n = data.len() / elem_size;
    let count = if n > SAMPLE_ELEMENTS { SAMPLE_ELEMENTS } else { n };
    if count < 4 {
        return false;
    }
    proof {
        lemma_whole_elements(data@.len() as int, elem_size as int, count as int);
    }
    let mut high_similarity_count: usize = 0;
    let mut i: usize = 1;
    while i < count
        invariant
            elem_size == dtype_size(dtype),
            elem_size == 4 || elem_size == 8,
            dtype == DTypeId::Float32 <==> elem_size == 4,
            count == examined(data@.len(), elem_size as nat),
            count <= 64,
            count * elem_size <= data@.len(),
            1 <= i <= count,
            high_similarity_count == similar_pairs(data@, dtype, i as int),
            high_similarity_count < i,
        decreases count - i,
    {
        let close = if elem_size == 4 {
            let prev = read32(data, (i - 1) * 4);
            let curr = read32(data, i * 4);
            (prev ^ curr).leading_zeros() >= 12
        } else {
            let prev = read64(data, (i - 1) * 8);
            let curr = read64(data, i * 8);
            (prev ^ curr).leading_zeros() >= 16
        };
        if close {
            high_similarity_count = high_similarity_count + 1;
        }
        i = i + 1;
    }
    high_similarity_count >= count * 3 / 4
}

/// Element `i` of an integer sample as a signed 64-bit value: 4-byte and
/// 8-byte elements little-endian, any other size as 0.
pub open spec fn int_value(data: Seq<u8>, size: nat, i: int) -> int {
    if size == 4 {
        (get32(data, 4 * i) as i32) as int
    } else if size == 8 {
        (get64(data, 8 * i) as i64) as int
    } else {
        0
    }
}

/// Steps among the first `k` elements that do not decrease and rise by less
/// than 1000.
pub open spec fn gentle_steps(data: Seq<u8>, size: nat, k: int) -> nat
    decreases k,
{
    if k <= 1 {
        0
    } else {
        let prev = int_value(data, size, k - 2);
        let curr = int_value(data, size, k - 1);
        gentle_steps(data, size, k - 1) + if curr >= prev && curr - prev < 1000 { 1nat } else { 0nat }
    }
}

/// More than three quarters of the steps between the first (at most 64)
/// elements rise gently; single-byte types and fewer than eight elements
/// never qualify.
pub open spec fn monotonic_trend(data: Seq<u8>, dtype: DTypeId) -> bool {
    let size = dtype_size(dtype) as nat;
    let count = examined(data.len(), size);
    size >= 2 && count >= 8 && gentle_steps(data, size, count as int) > count * 3 / 4
}

/// Whether an integer sample rises steadily.
pub fn is_monotonic_trend(data: &[u8], dtype: DTypeId) -> (r: bool)
    ensures
        r == monotonic_trend(data@, dtype),
{
    let size = dtype.element_size();
    if size < 2 {
        return false;
    }
    let n = data.len() / size;
    let count = if n > SAMPLE_ELEMENTS { SAMPLE_ELEMENTS } else { n };
    if count < 8 {
        return false;
    }
    proof {
        lemma_whole_elements(data@.len() as int, size as int, count as int);
    }
    let mut monotonic_steps: usize = 0;
    let mut prev: i64 = 0;
    let mut i: usize = 0;
    while i < count
        invariant
            size == dtype_size(dtype),
            2 <= size <= 8,
            count <= 64,
            count * size <= data@.len(),
            i <= count,
            i > 0 ==> prev == int_value(data@, size as nat, i - 1),
            monotonic_steps == gentle_steps(data@, size as nat, i as int),
            monotonic_steps <= i,
        decreases count - i,
    {
        assert(i * size + size <= data@.len()) by (nonlinear_arith)
            requires
                i < count,
                count * size <= data@.len(),
        ;
        let val: i64 = if size == 4 {
            (read32(data, i * size) as i32) as i64
        } else if size == 8 {
            read64(data, i * size) as i64
        } else {
            0
        };
        if i > 0 && val >= prev && (val as i128) - (prev as i128) < 1000 {
            monotonic_steps = monotonic_steps + 1;
        }
        prev = val;
        i = i + 1;
    }
    monotonic_steps > count * 3 / 4
}

/// The selection for a non-empty sample, given whether high throughput is
/// required and whether the sample looks incompressible.
pub open spec fn selection_for(sample: Seq<u8>, dtype: DTypeId, high_throughput: bool, high_entropy: bool) -> CodecSelection {
    if sample.len() == 0 {
        CodecSelection { codec: CodecId::Raw, filter: FilterId::NoFilter, level: 0 }
    } else if high_throughput {
        CodecSelection { codec: CodecId::Lz4, filter: FilterId::NoFilter, level: 1 }
    } else if dtype == DTypeId::Float32 || dtype == DTypeId::Float64 {
        if correlated_float(sample, dtype) {
            CodecSelection { codec: CodecId::Chimp128, filter: FilterId::NoFilter, level: 0 }
        } else if high_entropy {
            CodecSelection { codec: CodecId::Lz4, filter: FilterId::NoFilter, level: 1 }
        } else {
            CodecSelection { codec: CodecId::Zstd, filter: FilterId::ByteShuffle, level: 3 }
        }
    } else if monotonic_trend(sample, dtype) {
        CodecSelection { codec: CodecId::Zstd, filter: FilterId::DeltaZigZag, level: 3 }
    } else if high_entropy {
        CodecSelection { codec: CodecId::Raw, filter: FilterId::NoFilter, level: 0 }
    } else {
        CodecSelection { codec: CodecId::Zstd, filter: FilterId::ByteShuffle, level: 3 }
    }
}

/// Chooses codec, filter and level for a block. `high_throughput` says the
/// caller needs at least 200 MB/s; `high_entropy` says the sample's byte
/// entropy exceeds 7.6 bits.
pub fn select_for_sample(sample: &[u8], dtype: DTypeId, high_throughput: bool, high_entropy: bool) -> (r: CodecSelection)
    ensures
        r == selection_for(sample@, dtype, high_throughput, high_entropy),
{
    if sample.len() == 0 {
        return CodecSelection { codec: CodecId::Raw, filter: FilterId::NoFilter, level: 0 };
    }
    if high_throughput {
        return CodecSelection { codec: CodecId::Lz4, filter: FilterId::NoFilter, level: 1 };
    }
    let is_float = match dtype {
        DTypeId::Float32 => true,
        DTypeId::Float64 => true,
        _ => false,
    };
    if is_float {
        if is_correlated_float(sample, dtype) {
            return CodecSelection { codec: CodecId::Chimp128, filter: FilterId::NoFilter, level: 0 };
        }
        if high_entropy {
            return CodecSelection { codec: CodecId::Lz4, filter: FilterId::NoFilter, level: 1 };
        }
        return CodecSelection { codec: CodecId::Zstd, filter: FilterId::ByteShuffle, level: 3 };
    }
    if is_monotonic_trend(sample, dtype) {
        return CodecSelection { codec: CodecId::Zstd, filter: FilterId::DeltaZigZag, level: 3 };
    }
    if high_entropy {
        return CodecSelection { codec: CodecId::Raw, filter: FilterId::NoFilter, level: 0 };
    }
    CodecSelection { codec: CodecId::Zstd, filter: FilterId::ByteShuffle, level: 3 }
}

proof fn lemma_all_gentle(data: Seq<u8>, size: nat, n: int, k: int)
    requires
        1 <= k <= n,
        forall|i: int| 0 < i < n ==> int_value(data, size, i - 1) <= #[trigger] int_value(data, size, i) < int_value(
            data,
            size,
            i - 1,
        ) + 1000,
    ensures
        gentle_steps(data, size, k) == k - 1,
    decreases k,
{
    if k > 1 {
        lemma_all_gentle(data, size, n, k - 1);
        assert(int_value(data, size, k - 2) <= int_value(data, size, k - 1));
    }
}

/// Element `i` of a sample of 4- or 8-byte integers, read little-endian as
/// a signed number.
pub open spec fn sample_element(sample: Seq<u8>, dtype: DTypeId, i: int) -> int {
    if dtype_size(dtype) == 4 {
        (get32(sample, 4 * i) as i32) as int
    } else {
        (get64(sample, 8 * i) as i64) as int
    }
}

/// A steadily rising integer sample is delta-coded: for a sample of 4- or
/// 8-byte integers with at least eight whole elements, where each of the
/// first (at most 64) elements is at least the one before and less than
/// 1000 above it, and no high throughput is asked for, the selection is
/// Zstandard at level 3 after the delta-zigzag filter.
pub proof fn lemma_rising_integers_select_delta(sample: Seq<u8>, dtype: DTypeId, high_entropy: bool)
    requires
        dtype == DTypeId::Int32 || dtype == DTypeId::UInt32 || dtype == DTypeId::Int64 || dtype == DTypeId::UInt64,
        sample.len() as int / (dtype_size(dtype) as int) >= 8,
        forall|i: int|
            0 < i < 64 && i < sample.len() as int / (dtype_size(dtype) as int) ==> sample_element(sample, dtype, i - 1)
                <= #[trigger] sample_element(sample, dtype, i) < sample_element(sample, dtype, i - 1) + 1000,
    ensures
        selection_for(sample, dtype, false, high_entropy) == (CodecSelection {
            codec: CodecId::Zstd,
            filter: FilterId::DeltaZigZag,
            level: 3,
        }),
{
    let size = dtype_size(dtype) as nat;
    let count = examined(sample.len(), size) as int;
    assert(count >= 8);
    assert forall|i: int| 0 < i < count implies int_value(sample, size, i - 1) <= #[trigger] int_value(sample, size, i)
        < int_value(sample, size, i - 1) + 1000 by {
        assert(i < 64 && i < sample.len() as int / (dtype_size(dtype) as int));
        assert(sample_element(sample, dtype, i) == int_value(sample, size, i));
        assert(sample_element(sample, dtype, i - 1) == int_value(sample, size, i - 1));
    }
    lemma_all_gentle(sample, size, count, count);
    assert(count - 1 > count * 3 / 4) by (nonlinear_arith)
        requires count >= 8;
    assert(monotonic_trend(sample, dtype));
}

proof fn lemma_all_similar(data: Seq<u8>, dtype: DTypeId, k: int)
    requires
        dtype == DTypeId::Float32 || dtype == DTypeId::Float64,
        k >= 1,
        forall|i: int| 0 <= i < k ==> #[trigger] data.subrange(i * dtype_size(dtype), i * dtype_size(dtype) + dtype_size(dtype))
            == data.subrange(0, dtype_size(dtype) as int),
    ensures
        similar_pairs(data, dtype, k) == k - 1,
    decreases k,
{
    if k > 1 {
        lemma_all_similar(data, dtype, k - 1);
        let i = k - 1;
        let w = dtype_size(dtype) as int;
        assert(data.subrange((i - 1) * w, (i - 1) * w + w) == data.subrange(i * w, i * w + w));
        if dtype == DTypeId::Float32 {
            assert(4 * (i - 1) == (i - 1) * w && 4 * i == i * w);
            assert(get32(data, 4 * (i - 1)) == get32(data, 4 * i));
            let x = get32(data, 4 * i);
            assert(x ^ x == 0u32) by (bit_vector);
            vstd::std_specs::bits::axiom_u32_leading_zeros(0u32);
        } else {
            assert(8 * (i - 1) == (i - 1) * w && 8 * i == i * w);
            assert(get64(data, 8 * (i - 1)) == get64(data, 8 * i));
            let x = get64(data, 8 * i);
            assert(x ^ x == 0u64) by (bit_vector);
            vstd::std_specs::bits::axiom_u64_leading_zeros(0u64);
        }
    }
}

/// A run of identical floats is coded with Chimp128: for a sample of at
/// least four whole 32- or 64-bit floats whose first (at most 64) elements
/// all have the bytes of the first, and no high throughput asked for, the
/// selection is Chimp128 without a filter.
pub proof fn lemma_float_run_selects_chimp(sample: Seq<u8>, dtype: DTypeId, high_entropy: bool)
    requires
        dtype == DTypeId::Float32 || dtype == DTypeId::Float64,
        sample.len() as int / (dtype_size(dtype) as int) >= 4,
        forall|i: int|
            0 <= i < 64 && i < sample.len() as int / (dtype_size(dtype) as int) ==> #[trigger] sample.subrange(
                i * dtype_size(dtype),
                i * dtype_size(dtype) + dtype_size(dtype),
            ) == sample.subrange(0, dtype_size(dtype) as int),
    ensures
        selection_for(sample, dtype, false, high_entropy) == (CodecSelection {
            codec: CodecId::Chimp128,
            filter: FilterId::NoFilter,
            level: 0,
        }),
{
    let count = examined(sample.len(), dtype_size(dtype) as nat) as int;
    assert(count >= 4);
    lemma_all_similar(sample, dtype, count);
    assert(count - 1 >= count * 3 / 4) by (nonlinear_arith)
        requires count >= 4;
    assert(correlated_float(sample, dtype));
}

/// An empty sample is stored raw; any other sample, when high throughput
/// is asked for, goes to LZ4 without a filter, whatever its type.
pub proof fn lemma_empty_and_fast_selections(sample: Seq<u8>, dtype: DTypeId, high_entropy: bool)
    ensures
        sample.len() == 0 ==> selection_for(sample, dtype, true, high_entropy) == (CodecSelection {
            codec: CodecId::Raw,
            filter: FilterId::NoFilter,
            level: 0,
        }) && selection_for(sample, dtype, false, high_entropy) == (CodecSelection {
            codec: CodecId::Raw,
            filter: FilterId::NoFilter,
            level: 0,
        }),
        sample.len() > 0 ==> selection_for(sample, dtype, true, high_entropy) == (CodecSelection {
            codec: CodecId::Lz4,
            filter: FilterId::NoFilter,
            level: 1,
        }),
{
}

} // verus!
