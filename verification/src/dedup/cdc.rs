//! Content-defined chunking with a 64-bit Gear rolling hash.
use vstd::prelude::*;
use crate::hash::{spec_xxh3_128, xxh3_128};
use vstd::arithmetic::div_mod::lemma_fundamental_div_mod_converse;

verus! {

/// Entry `k` of the Gear table: the `k + 1`-th state of the linear
/// congruential generator seeded with 0x9E3779B97F4A7C15.
pub open spec fn gear_state(k: nat) -> u64
    decreases k,
{
    if k == 0 {
        0x9E3779B97F4A7C15u64
    } else {
        let prev = gear_state((k - 1) as nat);
        ((((prev as nat) * 6364136223846793005nat) % 0x1_0000_0000_0000_0000nat + 1442695040888963407nat) % 0x1_0000_0000_0000_0000nat) as u64
    }
}

pub open spec fn gear_entry(i: int) -> u64 {
    gear_state((i + 1) as nat)
}

pub fn generate_gear_table() -> (r: [u64; 256])
    ensures
        forall|i: int| 0 <= i < 256 ==> #[trigger] r@[i] == gear_entry(i),
{
    let mut table = [0u64; 256];
    let mut val: u64 = 0x9E3779B97F4A7C15;
    let mut i: usize = 0;
    while i < 256
        invariant
            i <= 256,
            table@.len() == 256,
            val == gear_state(i as nat),
            forall|j: int| 0 <= j < i ==> #[trigger] table@[j] == gear_entry(j),
        decreases 256 - i,
    {
        val = val.wrapping_mul(6364136223846793005).wrapping_add(1442695040888963407);
        table[i] = val;
        i = i + 1;
    }
    table
}

pub struct GearHash {
    table: [u64; 256],
}

impl GearHash {
    /// The table is the Gear table.
    pub closed spec fn wf(&self) -> bool {
        forall|i: int| 0 <= i < 256 ==> #[trigger] self.table@[i] == gear_entry(i)
    }

    pub fn new() -> (r: Self)
        ensures
            r.wf(),
    {
        Self { table: generate_gear_table() }
    }

    pub fn default() -> (r: Self)
        ensures
            r.wf(),
    {
        Self::new()
    }

    pub fn table(&self) -> (r: &[u64; 256])
        requires
            self.wf(),
        ensures
            forall|i: int| 0 <= i < 256 ==> #[trigger] r@[i] == gear_entry(i),
    {
        &self.table
    }
}

#[derive(Clone, Copy, Debug, PartialEq, Eq, Structural)]
pub struct CdcSegment {
    pub offset: usize,
    pub len: usize,
    pub content_hash: u128,
}

#[derive(Clone, Copy, Debug)]
pub struct CdcConfig {
    pub min_size: usize,
    pub max_size: usize,
    pub target_avg: usize,
    pub boundary_mask: u64,
}

impl CdcConfig {
    pub fn default() -> (r: Self)
        ensures
            r.min_size == 32768 && r.max_size == 524288 && r.target_avg == 131072 && r.boundary_mask == 0x0001_FFFF,
    {
        Self { min_size: 32768, max_size: 524288, target_avg: 131072, boundary_mask: 0x0001_FFFF }
    }
}

/// One step of the rolling hash: shift left by one and add, wrapping.
pub open spec fn roll_step(h: u64, e: u64) -> u64 {
    (((h << 1u64) as nat + e as nat) % 0x1_0000_0000_0000_0000nat) as u64
}

/// The rolling hash after feeding the bytes `data[from..to]`, starting from 0.
pub open spec fn gear_roll(data: Seq<u8>, from: int, to: int) -> u64
    decreases to - from,
{
    if to <= from {
        0
    } else {
        roll_step(gear_roll(data, from, to - 1), gear_entry(data[to - 1] as int))
    }
}

/// A boundary after byte `i` of a scan that started at `from`.
pub open spec fn is_boundary(data: Seq<u8>, from: int, i: int, mask: u64) -> bool {
    gear_roll(data, from, i + 1) & mask == 0
}

/// Where the chunk that starts at `start` ends.
pub open spec fn cut_point(data: Seq<u8>, start: int, cfg: CdcConfig) -> int {
    let n = data.len() as int;
    let remaining = n - start;
    if remaining <= cfg.min_size {
        n
    } else {
        let max_len = if remaining < cfg.max_size { remaining } else { cfg.max_size as int };
        let scan_start = start + cfg.min_size;
        let scan_end = start + max_len;
        if exists|i: int| scan_start <= i < scan_end && #[trigger] is_boundary(data, scan_start, i, cfg.boundary_mask) {
            let i = choose|i: int|
                scan_start <= i < scan_end && #[trigger] is_boundary(data, scan_start, i, cfg.boundary_mask) && forall|j: int|
                    scan_start <= j < i ==> !is_boundary(data, scan_start, j, cfg.boundary_mask);
            i + 1
        } else {
            scan_end
        }
    }
}

/// The segments from `start` to the end of `data`.
pub open spec fn segments_from(data: Seq<u8>, start: int, cfg: CdcConfig) -> Seq<CdcSegment>
    decreases data.len() - start,
{
    if start >= data.len() || start < 0 || cfg.max_size == 0 {
        Seq::empty()
    } else {
        let c = cut_point(data, start, cfg);
        if c <= start || c > data.len() {
            Seq::empty()
        } else {
            seq![CdcSegment { offset: start as usize, len: (c - start) as usize, content_hash: spec_xxh3_128(data.subrange(start, c)) }]
                + segments_from(data, c, cfg)
        }
    }
}

/// One step of the rolling hash: shift left by one and add the table entry, wrapping.
fn roll(hash: u64, entry: u64) -> (r: u64)
    ensures
        r == roll_step(hash, entry),
{
    let s = hash << 1u64;
    let r = s.wrapping_add(entry);
    proof {
        let m = 0x1_0000_0000_0000_0000int;
        if s as int + entry as int > u64::MAX {
            lemma_fundamental_div_mod_converse(s as int + entry as int, m, 1, s as int + entry as int - m);
        } else {
            lemma_fundamental_div_mod_converse(s as int + entry as int, m, 0, s as int + entry as int);
        }
    }
    r
}

/// The first boundary of a nonempty search range exists uniquely as the least one.
proof fn lemma_first_boundary(data: Seq<u8>, lo: int, hi: int, mask: u64, k: int)
    requires
        lo <= k < hi,
        is_boundary(data, lo, k, mask),
        forall|j: int| lo <= j < k ==> !is_boundary(data, lo, j, mask),
    ensures
        (choose|i: int|
            lo <= i < hi && #[trigger] is_boundary(data, lo, i, mask) && forall|j: int|
                lo <= j < i ==> !is_boundary(data, lo, j, mask)) == k,
{
    let i = choose|i: int|
        lo <= i < hi && #[trigger] is_boundary(data, lo, i, mask) && forall|j: int|
            lo <= j < i ==> !is_boundary(data, lo, j, mask);
    assert(lo <= i < hi && is_boundary(data, lo, i, mask) && forall|j: int| lo <= j < i ==> !is_boundary(data, lo, j, mask));
    if i < k {
        assert(!is_boundary(data, lo, i, mask));
    } else if i > k {
        assert(!is_boundary(data, lo, k, mask));
    }
}

proof fn lemma_cut(data: Seq<u8>, start: int, cfg: CdcConfig, c: int, found: bool)
    requires
        0 <= start,
        data.len() - start > cfg.min_size,
        cfg.max_size > 0,
        ({
            let remaining = data.len() - start;
            let max_len = if remaining < cfg.max_size { remaining } else { cfg.max_size as int };
            let ss = start + cfg.min_size;
            let se = start + max_len;
            &&& !found ==> c == se && forall|j: int| ss <= j < se ==> !is_boundary(data, ss, j, cfg.boundary_mask)
            &&& found ==> ss < c <= se && is_boundary(data, ss, c - 1, cfg.boundary_mask) && forall|j: int|
                ss <= j < c - 1 ==> !is_boundary(data, ss, j, cfg.boundary_mask)
        }),
    ensures
        cut_point(data, start, cfg) == c,
        start < c <= data.len(),
{
    let remaining = data.len() - start;
    let max_len = if remaining < cfg.max_size { remaining } else { cfg.max_size as int };
    let ss = start + cfg.min_size;
    let se = start + max_len;
    if found {
        lemma_first_boundary(data, ss, se, cfg.boundary_mask, c - 1);
    }
}

/// Scans `data[scan_start..scan_end]` for the first boundary; returns the
/// position after it, or `scan_end` when there is none.
fn find_cut(data: &[u8], table: &[u64; 256], scan_start: usize, scan_end: usize, mask: u64) -> (r: (usize, Ghost<bool>))
    requires
        scan_end <= data@.len(),
        forall|t: int| 0 <= t < 256 ==> #[trigger] table@[t] == gear_entry(t),
    ensures
        ({
            let (cut_point, found) = (r.0, r.1@);
            &&& !found ==> cut_point == scan_end && forall|j: int|
                scan_start <= j < scan_end ==> !is_boundary(data@, scan_start as int, j, mask)
            &&& found ==> scan_start < cut_point <= scan_end && is_boundary(data@, scan_start as int, cut_point - 1, mask)
                && forall|j: int| scan_start <= j < cut_point - 1 ==> !is_boundary(data@, scan_start as int, j, mask)
        }),
{
    let mut hash: u64 = 0;
    let mut i: usize = scan_start;
    while i < scan_end
        invariant
            scan_start <= i,
            i <= scan_end || i == scan_start,
            scan_end <= data@.len(),
            forall|t: int| 0 <= t < 256 ==> #[trigger] table@[t] == gear_entry(t),
            hash == gear_roll(data@, scan_start as int, i as int),
            forall|j: int| scan_start <= j < i ==> !is_boundary(data@, scan_start as int, j, mask),
        decreases scan_end - i,
    {
        let b = data[i];
        hash = roll(hash, table[b as usize]);
        assert(hash == gear_roll(data@, scan_start as int, i + 1));
        if (hash & mask) == 0 {
            return (i + 1, Ghost(true));
        }
        i = i + 1;
    }
    (scan_end, Ghost(false))
}

/// Splits `data` into content-defined segments. Each segment records its
/// offset, length and the XXH3-128 digest of its bytes.
pub fn cdc_chunk(data: &[u8], config: &CdcConfig) -> (r: Vec<CdcSegment>)
    requires
        config.max_size > 0,
    ensures
        r@ == segments_from(data@, 0, *config),
{
    let n = data.len();
    let mut segments: Vec<CdcSegment> = Vec::new();
    if n == 0 {
        return segments;
    }
    let table = generate_gear_table();
    let mut chunk_start: usize = 0;
    while chunk_start < n
        invariant
            n == data@.len(),
            config.max_size > 0,
            chunk_start <= n,
            forall|i: int| 0 <= i < 256 ==> #[trigger] table@[i] == gear_entry(i),
            segments@ + segments_from(data@, chunk_start as int, *config) == segments_from(data@, 0, *config),
        decreases n - chunk_start,
    {
        let remaining = n - chunk_start;
        if remaining <= config.min_size {
            let h = xxh3_128(vstd::slice::slice_subrange(data, chunk_start, n));
            let seg = CdcSegment { offset: chunk_start, len: remaining, content_hash: h };
            proof {
                assert(segments_from(data@, n as int, *config) =~= Seq::<CdcSegment>::empty());
                assert(segments_from(data@, chunk_start as int, *config) =~= seq![seg]);
                assert(segments@.push(seg) =~= segments@ + seq![seg]);
            }
            segments.push(seg);
            chunk_start = n;
        } else {
        let max_chunk_len = if remaining < config.max_size { remaining } else { config.max_size };
        let scan_start = chunk_start + config.min_size;
        let scan_end = chunk_start + max_chunk_len;
        let (cut_point, Ghost(found)) = find_cut(data, &table, scan_start, scan_end, config.boundary_mask);
        proof {
            lemma_cut(data@, chunk_start as int, *config, cut_point as int, found);
        }
        let h = xxh3_128(vstd::slice::slice_subrange(data, chunk_start, cut_point));
        let seg = CdcSegment { offset: chunk_start, len: cut_point - chunk_start, content_hash: h };
        proof {
            assert(segments_from(data@, chunk_start as int, *config) =~= seq![seg] + segments_from(
                data@,
                cut_point as int,
                *config,
            ));
        }
        segments.push(seg);
        chunk_start = cut_point;
        }
    }
    assert(segments_from(data@, n as int, *config) =~= Seq::<CdcSegment>::empty());
    assert(segments@ + Seq::<CdcSegment>::empty() =~= segments@);
    segments
}

/// Some boundary in `[lo, hi)` implies a first one.
proof fn lemma_min_boundary(data: Seq<u8>, lo: int, hi: int, mask: u64, k: int)
    requires
        lo <= k < hi,
        is_boundary(data, lo, k, mask),
    ensures
        exists|i: int|
            lo <= i < hi && #[trigger] is_boundary(data, lo, i, mask) && forall|j: int|
                lo <= j < i ==> !is_boundary(data, lo, j, mask),
    decreases k - lo,
{
    if exists|j: int| lo <= j < k && #[trigger] is_boundary(data, lo, j, mask) {
        let j = choose|j: int| lo <= j < k && #[trigger] is_boundary(data, lo, j, mask);
        lemma_min_boundary(data, lo, hi, mask, j);
    } else {
        assert(forall|j: int| lo <= j < k ==> !is_boundary(data, lo, j, mask));
    }
}

/// Bounds of a cut point: it lies after the start, within the data, and
/// (when the minimum size does not exceed the maximum) at most `max_size`
/// bytes after the start.
proof fn lemma_cut_bounds(data: Seq<u8>, start: int, cfg: CdcConfig)
    requires
        0 <= start < data.len(),
        cfg.max_size > 0,
    ensures
        start < cut_point(data, start, cfg) <= data.len(),
        cfg.min_size <= cfg.max_size ==> cut_point(data, start, cfg) - start <= cfg.max_size,
        cfg.min_size <= cfg.max_size && cut_point(data, start, cfg) < data.len() ==> cut_point(data, start, cfg) - start
            >= cfg.min_size,
        data.len() - start <= cfg.min_size ==> cut_point(data, start, cfg) == data.len(),
{
    let n = data.len() as int;
    let remaining = n - start;
    if remaining > cfg.min_size {
        let max_len = if remaining < cfg.max_size { remaining } else { cfg.max_size as int };
        let ss = start + cfg.min_size;
        let se = start + max_len;
        if exists|i: int| ss <= i < se && #[trigger] is_boundary(data, ss, i, cfg.boundary_mask) {
            let k = choose|i: int| ss <= i < se && #[trigger] is_boundary(data, ss, i, cfg.boundary_mask);
            lemma_min_boundary(data, ss, se, cfg.boundary_mask, k);
        }
    }
}

/// The segments partition the data from `start` to the end: they are
/// contiguous, nonempty, start at `start`, end at the end of the data, carry
/// the digest of their bytes, and (when the minimum size does not exceed the
/// maximum) are at most `max_size` bytes long and, all but the last, at
/// least `min_size` bytes long; data of at most `min_size` bytes is one
/// segment.
pub proof fn lemma_segments_partition(data: Seq<u8>, start: int, cfg: CdcConfig)
    requires
        0 <= start <= data.len(),
        data.len() <= usize::MAX,
        cfg.max_size > 0,
    ensures
        ({
            let s = segments_from(data, start, cfg);
            &&& s.len() == 0 <==> start == data.len()
            &&& s.len() > 0 ==> s[0].offset == start && s.last().offset + s.last().len == data.len()
            &&& forall|k: int| 0 <= k < s.len() ==> {
                &&& #[trigger] s[k].len > 0
                &&& s[k].offset + s[k].len <= data.len()
                &&& s[k].content_hash == spec_xxh3_128(data.subrange(s[k].offset as int, s[k].offset + s[k].len))
                &&& cfg.min_size <= cfg.max_size ==> s[k].len <= cfg.max_size
            }
            &&& forall|k: int| 0 <= k < s.len() - 1 ==> #[trigger] s[k + 1].offset == s[k].offset + s[k].len
            &&& forall|k: int| 0 <= k < s.len() - 1 && cfg.min_size <= cfg.max_size ==> #[trigger] s[k].len >= cfg.min_size
            &&& data.len() - start <= cfg.min_size ==> s.len() <= 1
        }),
    decreases data.len() - start,
{
    if start < data.len() {
        lemma_cut_bounds(data, start, cfg);
        let c = cut_point(data, start, cfg);
        lemma_segments_partition(data, c, cfg);
        let s = segments_from(data, start, cfg);
        let rest = segments_from(data, c, cfg);
        let s0 = CdcSegment { offset: start as usize, len: (c - start) as usize, content_hash: spec_xxh3_128(data.subrange(start, c)) };
        assert(s == seq![s0] + rest);
        assert(s[0] == s0);
        assert(s0.offset + s0.len == c);
        assert forall|k: int| 0 <= k < s.len() - 1 implies #[trigger] s[k + 1].offset == s[k].offset + s[k].len by {
            if k > 0 {
                assert(s[k] == rest[k - 1]);
                assert(s[k + 1] == rest[k]);
                assert(rest[(k - 1) + 1].offset == rest[k - 1].offset + rest[k - 1].len);
            } else {
                assert(s[1] == rest[0]);
                assert(rest[0].offset == c);
            }
        }
        assert forall|k: int| 0 <= k < s.len() - 1 && cfg.min_size <= cfg.max_size implies #[trigger] s[k].len
            >= cfg.min_size by {
            if k > 0 {
                assert(s[k] == rest[k - 1]);
            } else {
                assert(rest.len() > 0);
            }
        }
        if data.len() - start <= cfg.min_size {
            assert(rest.len() == 0);
        }
        assert forall|k: int| 0 <= k < s.len() implies {
            &&& #[trigger] s[k].len > 0
            &&& s[k].offset + s[k].len <= data.len()
            &&& s[k].content_hash == spec_xxh3_128(data.subrange(s[k].offset as int, s[k].offset + s[k].len))
            &&& cfg.min_size <= cfg.max_size ==> s[k].len <= cfg.max_size
        } by {
            if k > 0 {
                assert(s[k] == rest[k - 1]);
            }
        }
    }
}

} // verus!
