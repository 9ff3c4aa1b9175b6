//! The table of contents: one entry per stored tensor version, with a hash
//! index to the latest entry of each key, and its on-disk encoding.
use vstd::prelude::*;
use vstd::string::StringSliceAdditionalSpecFns;
use std::collections::HashMap;
use crate::types::{ChunkRef, DTypeId, TpxError, dtype_code, unexpected_eof};
use crate::attrs::{
    AttrValue, AttrModel, AttrStep, Attrs, key_bytes, attrs_block, encode_pairs, pairs_view, fold_insert, parse_all,
    lemma_pairs_view_wf, entries_wf, entries_bytes, model_entries, lemma_entry_list_round_trip, lemma_block_of_sorted,
};
use crate::wire::lemma_le_round_trips;
use crate::wire::{le16, le32, le64, get16, get32, get64, push16, push32, push64, push_all, read16, read32, read64};
use crate::hash::{xxh64, spec_xxh64};
use crate::index::surf::{Surf, slice_views};
use crate::index::radix_spline::{RadixSpline, sorted_u64};
use crate::index::lex::bytes_equal;

verus! {

broadcast use vstd::std_specs::hash::group_hash_axioms;

#[derive(Clone, Debug, PartialEq)]
pub struct TocEntry {
    pub key_hash: u64,
    pub key: String,
    pub dtype_id: DTypeId,
    pub shape: Vec<u32>,
    pub attrs: Vec<(String, AttrValue)>,
    pub chunk_refs: Vec<ChunkRef>,
    pub tombstone: u8,
}

impl TocEntry {
    /// A live entry whose key hash is the XXH64 digest of the key, seed 0.
    pub fn new(
        key: String,
        dtype_id: DTypeId,
        shape: Vec<u32>,
        attrs: Vec<(String, AttrValue)>,
        chunk_refs: Vec<ChunkRef>,
    ) -> (r: Self)
        ensures
            r.key_hash == spec_xxh64(key_bytes(key), 0),
            r.key@ == key@,
            r.dtype_id == dtype_id,
            r.shape@ == shape@,
            r.attrs@ == attrs@,
            r.chunk_refs@ == chunk_refs@,
            r.tombstone == 0,
    {
        let key_hash = xxh64(key.as_str().as_bytes(), 0);
        TocEntry { key_hash, key, dtype_id, shape, attrs, chunk_refs, tombstone: 0 }
    }
}

/// For each key hash, the position of the last entry that has it.
pub open spec fn index_map(es: Seq<TocEntry>) -> Map<u64, u32>
    decreases es.len(),
{
    if es.len() == 0 {
        Map::empty()
    } else {
        index_map(es.drop_last()).insert(es.last().key_hash, (es.len() - 1) as u32)
    }
}

/// The entry that lookup finds for the key bytes `k`: the last entry with
/// `k`'s hash, where it holds `k` and is live.
pub open spec fn lookup_index(es: Seq<TocEntry>, k: Seq<u8>) -> Option<int> {
    let h = spec_xxh64(k, 0);
    if index_map(es).contains_key(h) {
        let i = index_map(es)[h] as int;
        if 0 <= i < es.len() && key_bytes(es[i].key) == k && es[i].tombstone == 0 {
            Some(i)
        } else {
            None
        }
    } else {
        None
    }
}

/// Whether `s` begins with `p`.
pub open spec fn starts_with(s: Seq<u8>, p: Seq<u8>) -> bool {
    p.len() <= s.len() && s.subrange(0, p.len() as int) == p
}

/// Entry `i` is the newest entry of its key, the key begins with `p`, and
/// the entry is live.
pub open spec fn prefix_hit(es: Seq<TocEntry>, p: Seq<u8>, i: int) -> bool {
    &&& starts_with(key_bytes(es[i].key), p)
    &&& forall|j: int| i < j < es.len() ==> key_bytes(#[trigger] es[j].key) != key_bytes(es[i].key)
    &&& es[i].tombstone == 0
}

/// The hits among the entries from `lo` on, newest first.
pub open spec fn prefix_hits(es: Seq<TocEntry>, p: Seq<u8>, lo: int) -> Seq<TocEntry>
    decreases es.len() - lo,
{
    if lo >= es.len() || lo < 0 {
        Seq::empty()
    } else {
        let rest = prefix_hits(es, p, lo + 1);
        if prefix_hit(es, p, lo) { rest.push(es[lo]) } else { rest }
    }
}

/// Pairs ordered by their first component, then their second.
pub open spec fn pair_lt(a: (u64, u32), b: (u64, u32)) -> bool {
    a.0 < b.0 || (a.0 == b.0 && a.1 < b.1)
}

pub open spec fn pairs_sorted(s: Seq<(u64, u32)>) -> bool {
    forall|i: int, j: int| 0 <= i < j < s.len() ==> pair_lt(#[trigger] s[i], #[trigger] s[j])
}

/// The (hash, position) pairs of the entries.
pub open spec fn hash_pairs(es: Seq<TocEntry>) -> Seq<(u64, u32)> {
    Seq::new(es.len(), |i: int| (es[i].key_hash, i as u32))
}

pub struct Toc {
    pub entries: Vec<TocEntry>,
    pub surf: Surf,
    pub radix_spline: RadixSpline,
    pub hash_index: HashMap<u64, u32>,
}

/// Inserts `x` into the sorted vector `v`.
fn insert_sorted(v: &mut Vec<(u64, u32)>, x: (u64, u32))
    requires
        pairs_sorted(old(v)@),
        !old(v)@.contains(x),
    ensures
        pairs_sorted(final(v)@),
        final(v)@.to_set() == old(v)@.to_set().insert(x),
        final(v)@.len() == old(v)@.len() + 1,
{
    let mut j: usize = 0;
    while j < v.len() && (v[j].0 < x.0 || (v[j].0 == x.0 && v[j].1 < x.1))
        invariant
            j <= v@.len(),
            v@ == old(v)@,
            forall|t: int| 0 <= t < j ==> pair_lt(#[trigger] v@[t], x),
        decreases v@.len() - j,
    {
        j = j + 1;
    }
    let ghost o = v@;
    v.insert(j, x);
    proof {
        let n = v@;
        assert(n =~= o.insert(j as int, x));
        if j < o.len() {
            assert(o[j as int] != x) by {
                assert(o.contains(o[j as int]));
            }
        }
        assert forall|a: int, b: int| 0 <= a < b < n.len() implies pair_lt(#[trigger] n[a], #[trigger] n[b]) by {
            if b < j {
                assert(n[a] == o[a] && n[b] == o[b]);
            } else if b == j {
                assert(n[a] == o[a]);
            } else if a < j {
                assert(n[a] == o[a] && n[b] == o[b - 1]);
                if b - 1 > j {
                    assert(pair_lt(o[j as int], o[b - 1]));
                }
            } else if a == j {
                assert(n[b] == o[b - 1]);
                if b - 1 > j {
                    assert(pair_lt(o[j as int], o[b - 1]));
                }
            } else {
                assert(n[a] == o[a - 1] && n[b] == o[b - 1]);
            }
        }
        assert(n.to_set() =~= o.to_set().insert(x)) by {
            assert forall|y: (u64, u32)| n.to_set().contains(y) <==> o.to_set().insert(x).contains(y) by {
                if n.contains(y) {
                    let t = choose|t: int| 0 <= t < n.len() && n[t] == y;
                    if t < j {
                        assert(o[t] == y);
                    } else if t > j {
                        assert(o[t - 1] == y);
                    }
                }
                if o.contains(y) {
                    let t = choose|t: int| 0 <= t < o.len() && o[t] == y;
                    if t < j {
                        assert(n[t] == y);
                    } else {
                        assert(n[t + 1] == y);
                    }
                }
                if y == x {
                    assert(n[j as int] == x);
                }
            }
        }
    }
}

impl Toc {
    pub open spec fn wf(&self) -> bool {
        &&& self.entries@.len() <= u32::MAX
        &&& self.hash_index@ == index_map(self.entries@)
    }

    pub fn new() -> (r: Self)
        ensures
            r.wf(),
            r.entries@.len() == 0,
    {
        Toc {
            entries: Vec::new(),
            surf: Surf::default(),
            radix_spline: RadixSpline::default(),
            hash_index: HashMap::new(),
        }
    }

    /// A table over `entries`, with the key filter and the hash spline built
    /// from them.
    pub fn build(entries: Vec<TocEntry>) -> (r: Self)
        requires
            entries@.len() <= u32::MAX,
        ensures
            r.wf(),
            r.entries@ == entries@,
            r.surf@.to_set() == entries@.map_values(|e: TocEntry| key_bytes(e.key)).to_set(),
            pairs_sorted(r.radix_spline.keys().zip_with(r.radix_spline.positions())),
            r.radix_spline.keys().zip_with(r.radix_spline.positions()).to_set() == hash_pairs(entries@).to_set(),
    {
        let mut hash_index: HashMap<u64, u32> = HashMap::new();
        let mut keys_ref: Vec<&[u8]> = Vec::new();
        let mut sorted_pairs: Vec<(u64, u32)> = Vec::new();
        let mut i: usize = 0;
        while i < entries.len()
            invariant
                i <= entries@.len() <= u32::MAX,
                hash_index@ == index_map(entries@.take(i as int)),
                slice_views(keys_ref@) == entries@.take(i as int).map_values(|e: TocEntry| key_bytes(e.key)),
                pairs_sorted(sorted_pairs@),
                sorted_pairs@.len() == i,
                sorted_pairs@.to_set() == hash_pairs(entries@).take(i as int).to_set(),
                forall|p: (u64, u32)| sorted_pairs@.contains(p) ==> p.1 < i,
            decreases entries@.len() - i,
        {
            let h = entries[i].key_hash;
            hash_index.insert(h, i as u32);
            let key_ref = entries[i].key.as_str().as_bytes();
            assert(key_ref@ == key_bytes(entries@[i as int].key));
            let ghost old_refs = keys_ref@;
            keys_ref.push(key_ref);
            proof {
                assert(sorted_pairs@.contains((h, i as u32)) ==> false);
            }
            let ghost old_pairs = sorted_pairs@;
            insert_sorted(&mut sorted_pairs, (h, i as u32));
            proof {
                assert forall|p: (u64, u32)| sorted_pairs@.contains(p) implies p.1 < i + 1 by {
                    assert(sorted_pairs@.to_set().contains(p));
                    if p != (h, i as u32) {
                        assert(old_pairs.to_set().contains(p));
                    }
                }
                let t = entries@.take(i + 1);
                assert(t.drop_last() =~= entries@.take(i as int));
                assert(hash_index@ == index_map(t));
                assert(old_refs.len() == i) by {
                    assert(slice_views(old_refs).len() == old_refs.len());
                }
                assert(keys_ref@ == old_refs.push(key_ref));
                assert forall|x: int| 0 <= x < keys_ref@.len() implies slice_views(keys_ref@)[x] == t.map_values(
                    |e: TocEntry| key_bytes(e.key),
                )[x] by {
                    if x < i {
                        assert(keys_ref@[x] == old_refs[x]);
                        assert(slice_views(old_refs)[x] == entries@.take(i as int).map_values(|e: TocEntry| key_bytes(e.key))[x]);
                    }
                }
                assert(slice_views(keys_ref@) =~= t.map_values(|e: TocEntry| key_bytes(e.key)));
                assert(hash_pairs(entries@).take(i + 1) =~= hash_pairs(entries@).take(i as int).push((h, i as u32)));
                hash_pairs(entries@).take(i as int).lemma_push_to_set_commute((h, i as u32));
                assert(hash_pairs(entries@).take(i + 1).to_set() =~= hash_pairs(entries@).take(i as int).to_set().insert((h, i as u32)));
            }
            i = i + 1;
        }
        proof {
            assert(entries@.take(i as int) =~= entries@);
            assert(hash_pairs(entries@).take(i as int) =~= hash_pairs(entries@));
        }
        let mut sorted_keys: Vec<u64> = Vec::new();
        let mut positions: Vec<u32> = Vec::new();
        let mut k: usize = 0;
        while k < sorted_pairs.len()
            invariant
                k <= sorted_pairs@.len(),
                sorted_keys@.len() == k,
                positions@.len() == k,
                forall|t: int| 0 <= t < k ==> #[trigger] sorted_keys@[t] == sorted_pairs@[t].0,
                forall|t: int| 0 <= t < k ==> #[trigger] positions@[t] == sorted_pairs@[t].1,
            decreases sorted_pairs@.len() - k,
        {
            sorted_keys.push(sorted_pairs[k].0);
            positions.push(sorted_pairs[k].1);
            k = k + 1;
        }
        proof {
            assert(sorted_keys@.zip_with(positions@) =~= sorted_pairs@);
            assert(sorted_u64(sorted_keys@)) by {
                assert forall|a: int, b: int| 0 <= a <= b < sorted_keys@.len() implies sorted_keys@[a] <= sorted_keys@[b] by {
                    if a < b {
                        assert(pair_lt(sorted_pairs@[a], sorted_pairs@[b]));
                    }
                }
            }
        }
        let surf = Surf::build(keys_ref.as_slice());
        let radix_spline = RadixSpline::build(sorted_keys.as_slice(), positions.as_slice());
        Toc { entries, surf, radix_spline, hash_index }
    }

    pub fn entry_count(&self) -> (r: usize)
        ensures
            r == self.entries@.len(),
    {
        self.entries.len()
    }

    /// The latest entry of `key`, where it is live.
    pub fn lookup(&self, key: &str) -> (r: Option<&TocEntry>)
        requires
            self.wf(),
        ensures
            match lookup_index(self.entries@, key.spec_bytes()) {
                Some(i) => r == Some(&self.entries@[i]),
                None => r is None,
            },
    {
        let kb = key.as_bytes();
        let hash = xxh64(kb, 0);
        let idx = match self.hash_index.get(&hash) {
            Some(i) => *i,
            None => return None,
        };
        if idx as usize >= self.entries.len() {
            return None;
        }
        let entry = &self.entries[idx as usize];
        let same = bytes_equal(entry.key.as_str().as_bytes(), kb);
        if same && entry.tombstone == 0 {
            Some(entry)
        } else {
            None
        }
    }

    /// The newest live entry of every key that begins with `prefix`, newest first.
    pub fn lookup_prefix(&self, prefix: &str) -> (r: Vec<&TocEntry>)
        ensures
            r@.len() == prefix_hits(self.entries@, prefix.spec_bytes(), 0).len(),
            forall|t: int| 0 <= t < r@.len() ==> *r@[t] == prefix_hits(self.entries@, prefix.spec_bytes(), 0)[t],
    {
        let pb = prefix.as_bytes();
        let ghost es = self.entries@;
        let mut out: Vec<&TocEntry> = Vec::new();
        let mut i: usize = self.entries.len();
        while i > 0
            invariant
                i <= es.len(),
                es == self.entries@,
                pb@ == prefix.spec_bytes(),
                out@.len() == prefix_hits(es, pb@, i as int).len(),
                forall|t: int| 0 <= t < out@.len() ==> *out@[t] == prefix_hits(es, pb@, i as int)[t],
            decreases i,
        {
            i = i - 1;
            let entry = &self.entries[i];
            let kb = entry.key.as_str().as_bytes();
            let mut starts = kb.len() >= pb.len();
            if starts {
                starts = bytes_equal(vstd::slice::slice_subrange(kb, 0, pb.len()), pb);
            }
            let mut newest = true;
            let mut j: usize = i + 1;
            while j < self.entries.len()
                invariant
                    i < j <= es.len(),
                    es == self.entries@,
                    kb@ == key_bytes(es[i as int].key),
                    newest <==> forall|t: int| i < t < j ==> key_bytes(#[trigger] es[t].key) != kb@,
                decreases es.len() - j,
            {
                if bytes_equal(self.entries[j].key.as_str().as_bytes(), kb) {
                    newest = false;
                }
                j = j + 1;
            }
            if starts && newest && entry.tombstone == 0 {
                out.push(entry);
            }
            proof {
                assert(starts == starts_with(key_bytes(es[i as int].key), pb@));
                assert(prefix_hit(es, pb@, i as int) == (starts && newest && entry.tombstone == 0));
            }
        }
        out
    }

    /// Appends an entry and points the hash index at it.
    pub fn add_entry(&mut self, entry: TocEntry)
        requires
            old(self).wf(),
            old(self).entries@.len() < u32::MAX,
        ensures
            final(self).wf(),
            final(self).entries@ == old(self).entries@.push(entry),
    {
        let hash = entry.key_hash;
        let idx = self.entries.len() as u32;
        self.hash_index.insert(hash, idx);
        self.entries.push(entry);
        assert(self.entries@.drop_last() =~= old(self).entries@);
    }

    /// Marks every entry of `key` deleted.
    pub fn tombstone(&mut self, key: &str)
        requires
            old(self).wf(),
        ensures
            final(self).wf(),
            final(self).entries@.len() == old(self).entries@.len(),
            forall|i: int|
                0 <= i < old(self).entries@.len() ==> (#[trigger] final(self).entries@[i]) == (if key_bytes(
                    old(self).entries@[i].key,
                ) == key.spec_bytes() {
                    TocEntry { tombstone: 1, ..old(self).entries@[i] }
                } else {
                    old(self).entries@[i]
                }),
    {
        let kb = key.as_bytes();
        let mut i: usize = 0;
        while i < self.entries.len()
            invariant
                i <= self.entries@.len(),
                kb@ == key.spec_bytes(),
                self.entries@.len() == old(self).entries@.len(),
                self.hash_index@ == old(self).hash_index@,
                index_map(self.entries@) == index_map(old(self).entries@),
                self.entries@.len() <= u32::MAX,
                forall|t: int|
                    0 <= t < i ==> (#[trigger] self.entries@[t]) == (if key_bytes(old(self).entries@[t].key) == kb@ {
                        TocEntry { tombstone: 1, ..old(self).entries@[t] }
                    } else {
                        old(self).entries@[t]
                    }),
                forall|t: int| i <= t < self.entries@.len() ==> (#[trigger] self.entries@[t]) == old(self).entries@[t],
            decreases self.entries@.len() - i,
        {
            let hit = bytes_equal(self.entries[i].key.as_str().as_bytes(), kb);
            if hit {
                let ghost before = self.entries@;
                let mut e = self.entries.remove(i);
                e.tombstone = 1;
                self.entries.insert(i, e);
                proof {
                    assert(self.entries@ =~= before.update(i as int, e));
                    lemma_index_map_same_hashes(before, self.entries@);
                }
            }
            i = i + 1;
        }
    }
}

/// The hash index depends only on the entries' hashes.
proof fn lemma_index_map_same_hashes(a: Seq<TocEntry>, b: Seq<TocEntry>)
    requires
        a.len() == b.len(),
        forall|i: int| 0 <= i < a.len() ==> #[trigger] a[i].key_hash == b[i].key_hash,
    ensures
        index_map(a) == index_map(b),
    decreases a.len(),
{
    if a.len() > 0 {
        lemma_index_map_same_hashes(a.drop_last(), b.drop_last());
    }
}

// ---------------------------------------------------------------------------
// Encoding.

pub open spec fn dims_bytes(ds: Seq<u32>) -> Seq<u8>
    decreases ds.len(),
{
    if ds.len() == 0 {
        Seq::empty()
    } else {
        dims_bytes(ds.drop_last()) + le32(ds.last())
    }
}

pub open spec fn ref_bytes(r: ChunkRef) -> Seq<u8> {
    le16(r.shard_id) + le64(r.chunk_offset) + le32(r.chunk_len)
}

pub open spec fn refs_bytes(rs: Seq<ChunkRef>) -> Seq<u8>
    decreases rs.len(),
{
    if rs.len() == 0 {
        Seq::empty()
    } else {
        refs_bytes(rs.drop_last()) + ref_bytes(rs.last())
    }
}

/// One encoded entry. The key length, dimension count and reference count
/// are stored in 16, 8 and 16 bits.
pub open spec fn toc_entry_bytes(e: TocEntry) -> Seq<u8> {
    let kb = key_bytes(e.key);
    let ab = attrs_block(e.attrs@);
    le64(e.key_hash) + le16(kb.len() as u16) + kb + seq![dtype_code(e.dtype_id), e.shape@.len() as u8]
        + dims_bytes(e.shape@) + le32(ab.len() as u32) + ab + le16(e.chunk_refs@.len() as u16) + refs_bytes(
        e.chunk_refs@,
    ) + seq![e.tombstone]
}

pub open spec fn toc_entries_bytes(es: Seq<TocEntry>) -> Seq<u8>
    decreases es.len(),
{
    if es.len() == 0 {
        Seq::empty()
    } else {
        toc_entries_bytes(es.drop_last()) + toc_entry_bytes(es.last())
    }
}

/// The encoded table: the entry count, then the entries.
pub open spec fn toc_bytes(es: Seq<TocEntry>) -> Seq<u8> {
    le32(es.len() as u32) + toc_entries_bytes(es)
}

// ---------------------------------------------------------------------------
// Decoding.

/// An entry as plain data, its attributes as a map.
pub struct TocModel {
    pub key_hash: u64,
    pub key: Seq<u8>,
    pub dtype: u8,
    pub shape: Seq<u32>,
    pub attrs: Map<Seq<u8>, AttrModel>,
    pub refs: Seq<ChunkRef>,
    pub tombstone: u8,
}

pub open spec fn toc_model(e: TocEntry) -> TocModel {
    TocModel {
        key_hash: e.key_hash,
        key: key_bytes(e.key),
        dtype: dtype_code(e.dtype_id),
        shape: e.shape@,
        attrs: pairs_view(e.attrs@),
        refs: e.chunk_refs@,
        tombstone: e.tombstone,
    }
}

pub open spec fn toc_models(es: Seq<TocEntry>) -> Seq<TocModel> {
    es.map_values(|e: TocEntry| toc_model(e))
}

/// What decoding one entry at a position finds.
pub enum TocStep {
    Entry(TocModel, int),
    Eof,
    BadKey,
    BadDType(u8),
    BadAttrs(AttrStep),
}

pub open spec fn parse_dims(buf: Seq<u8>, p: int, n: nat) -> Seq<u32> {
    Seq::new(n, |i: int| get32(buf, p + 4 * i))
}

pub open spec fn parse_refs(buf: Seq<u8>, p: int, n: nat) -> Seq<ChunkRef> {
    Seq::new(
        n,
        |i: int|
            ChunkRef {
                shard_id: get16(buf, p + 14 * i),
                chunk_offset: get64(buf, p + 14 * i + 2),
                chunk_len: get32(buf, p + 14 * i + 10),
            },
    )
}

/// Decodes the entry at `p`.
#[verifier::opaque]
pub open spec fn toc_step(buf: Seq<u8>, p: int) -> TocStep {
    let n = buf.len() as int;
    if p + 10 > n {
        TocStep::Eof
    } else {
        let h = get64(buf, p);
        let kl = get16(buf, p + 8) as int;
        let p1 = p + 10;
        if p1 + kl > n {
            TocStep::Eof
        } else if !vstd::utf8::valid_utf8(buf.subrange(p1, p1 + kl)) {
            TocStep::BadKey
        } else if p1 + kl + 1 > n {
            TocStep::Eof
        } else if buf[p1 + kl] > 12 {
            TocStep::BadDType(buf[p1 + kl])
        } else if p1 + kl + 2 > n {
            TocStep::Eof
        } else {
            let dt = buf[p1 + kl];
            let nd = buf[p1 + kl + 1] as int;
            let p2 = p1 + kl + 2;
            if p2 + 4 * nd > n {
                TocStep::Eof
            } else {
                let p3 = p2 + 4 * nd;
                if p3 + 4 > n {
                    TocStep::Eof
                } else {
                    let al = get32(buf, p3) as int;
                    let p4 = p3 + 4;
                    if p4 + al > n {
                        TocStep::Eof
                    } else {
                        match parse_all(buf.subrange(p4, p4 + al), 0) {
                            Err(e) => TocStep::BadAttrs(e),
                            Ok(ms) => {
                                let p5 = p4 + al;
                                if p5 + 2 > n {
                                    TocStep::Eof
                                } else {
                                    let rc = get16(buf, p5) as int;
                                    let p6 = p5 + 2;
                                    if p6 + 14 * rc + 1 > n {
                                        TocStep::Eof
                                    } else {
                                        TocStep::Entry(
                                            TocModel {
                                                key_hash: h,
                                                key: buf.subrange(p1, p1 + kl),
                                                dtype: dt,
                                                shape: parse_dims(buf, p2, nd as nat),
                                                attrs: fold_insert(ms),
                                                refs: parse_refs(buf, p6, rc as nat),
                                                tombstone: buf[p6 + 14 * rc],
                                            },
                                            p6 + 14 * rc + 1,
                                        )
                                    }
                                }
                            },
                        }
                    }
                }
            }
        }
    }
}

/// Decodes `k` entries from `p` on.
pub open spec fn parse_toc_entries(buf: Seq<u8>, p: int, k: nat) -> Result<Seq<TocModel>, TocStep>
    decreases k,
{
    if k == 0 {
        Ok(Seq::empty())
    } else {
        match toc_step(buf, p) {
            TocStep::Entry(m, next) => match parse_toc_entries(buf, next, (k - 1) as nat) {
                Ok(rest) => Ok(seq![m] + rest),
                Err(e) => Err(e),
            },
            other => Err(other),
        }
    }
}

/// Decodes a whole table: the entry count, then that many entries.
pub open spec fn parse_toc(buf: Seq<u8>) -> Result<Seq<TocModel>, TocStep> {
    if buf.len() < 4 {
        Err(TocStep::Eof)
    } else {
        parse_toc_entries(buf, 4, get32(buf, 0) as nat)
    }
}

/// Appends the encoding of one entry.
fn write_entry(buf: &mut Vec<u8>, e: &TocEntry)
    ensures
        final(buf)@ == old(buf)@ + toc_entry_bytes(*e),
{
    let ghost start = buf@;
    push64(buf, e.key_hash);
    let kb = e.key.as_str().as_bytes();
    push16(buf, kb.len() as u16);
    push_all(buf, kb);
    buf.push(e.dtype_id.to_u8());
    buf.push(e.shape.len() as u8);
    let mut d: usize = 0;
    let ghost before_dims = buf@;
    while d < e.shape.len()
        invariant
            d <= e.shape@.len(),
            buf@ == before_dims + dims_bytes(e.shape@.take(d as int)),
        decreases e.shape@.len() - d,
    {
        push32(buf, e.shape[d]);
        assert(e.shape@.take(d + 1).drop_last() =~= e.shape@.take(d as int));
        d = d + 1;
    }
    assert(e.shape@.take(d as int) =~= e.shape@);
    let ab = encode_pairs(e.attrs.as_slice());
    push32(buf, ab.len() as u32);
    push_all(buf, ab.as_slice());
    push16(buf, e.chunk_refs.len() as u16);
    let mut c: usize = 0;
    let ghost before_refs = buf@;
    while c < e.chunk_refs.len()
        invariant
            c <= e.chunk_refs@.len(),
            buf@ == before_refs + refs_bytes(e.chunk_refs@.take(c as int)),
        decreases e.chunk_refs@.len() - c,
    {
        let r = e.chunk_refs[c];
        push16(buf, r.shard_id);
        push64(buf, r.chunk_offset);
        push32(buf, r.chunk_len);
        assert(e.chunk_refs@.take(c + 1).drop_last() =~= e.chunk_refs@.take(c as int));
        c = c + 1;
    }
    assert(e.chunk_refs@.take(c as int) =~= e.chunk_refs@);
    buf.push(e.tombstone);
    assert(buf@ =~= start + toc_entry_bytes(*e));
}

impl Toc {
    /// The encoded table.
    pub fn serialize(&self) -> (r: Vec<u8>)
        ensures
            r@ == toc_bytes(self.entries@),
    {
        let mut buf: Vec<u8> = Vec::new();
        push32(&mut buf, self.entries.len() as u32);
        let ghost es = self.entries@;
        let mut i: usize = 0;
        while i < self.entries.len()
            invariant
                es == self.entries@,
                i <= es.len(),
                buf@ == le32(es.len() as u32) + toc_entries_bytes(es.take(i as int)),
            decreases es.len() - i,
        {
            let ghost start = buf@;
            write_entry(&mut buf, &self.entries[i]);
            proof {
                assert(es.take(i + 1).drop_last() =~= es.take(i as int));
                assert(buf@ =~= start + toc_entry_bytes(es[i as int]));
            }
            i = i + 1;
        }
        assert(es.take(i as int) =~= es);
        buf
    }

    /// Decodes a table and builds its indexes.
    pub fn deserialize(buf: &[u8]) -> (r: Result<Self, TpxError>)
        ensures
            match parse_toc(buf@) {
                Ok(ms) => r matches Ok(t) && t.wf() && toc_models(t.entries@) == ms,
                Err(TocStep::Eof) => r matches Err(TpxError::Io(_)),
                Err(TocStep::BadKey) => r matches Err(TpxError::CorruptArchive(_)),
                Err(TocStep::BadDType(d)) => r matches Err(TpxError::InvalidDType(x)) && x == d,
                Err(TocStep::BadAttrs(AttrStep::Eof)) => r matches Err(TpxError::Io(_)),
                Err(TocStep::BadAttrs(AttrStep::BadKey)) => r matches Err(TpxError::CorruptArchive(_)),
                Err(TocStep::BadAttrs(AttrStep::BadValue)) => r matches Err(TpxError::CorruptArchive(_)),
                Err(TocStep::BadAttrs(AttrStep::BadLen(_))) => r matches Err(TpxError::CorruptArchive(_)),
                Err(TocStep::BadAttrs(AttrStep::BadType(t))) => r matches Err(TpxError::InvalidAttrType(x)) && x == t,
                Err(TocStep::BadAttrs(AttrStep::TooLarge(l))) => r matches Err(TpxError::AttrValueTooLarge { len })
                    && len == l,
                Err(_) => false,
            },
    {
        let n = buf.len();
        if n < 4 {
            return Err(TpxError::Io(unexpected_eof()));
        }
        let count = read32(buf, 0);
        let mut entries: Vec<TocEntry> = Vec::new();
        let mut pos: usize = 4;
        let mut k: u32 = 0;
        while k < count
            invariant
                n == buf@.len(),
                4 <= pos <= n,
                k <= count,
                count == get32(buf@, 0),
                entries@.len() == k,
                parse_toc(buf@) == match parse_toc_entries(buf@, pos as int, (count - k) as nat) {
                    Ok(rest) => Ok(toc_models(entries@) + rest),
                    Err(e) => Err::<Seq<TocModel>, TocStep>(e),
                },
            decreases count - k,
        {
            proof {
                reveal(toc_step);
            }
            let ghost p0 = pos as int;
            if n - pos < 10 {
                return Err(TpxError::Io(unexpected_eof()));
            }
            let key_hash = read64(buf, pos);
            let key_len = read16(buf, pos + 8) as usize;
            let p1 = pos + 10;
            if key_len > n - p1 {
                return Err(TpxError::Io(unexpected_eof()));
            }
            let key = match crate::attrs::string_of_bytes(buf, p1, key_len) {
                Ok(s) => s,
                Err(e) => return Err(e),
            };
            let p2 = p1 + key_len;
            if p2 >= n {
                return Err(TpxError::Io(unexpected_eof()));
            }
            let dtype_id = match DTypeId::from_u8(buf[p2]) {
                Ok(d) => d,
                Err(e) => return Err(e),
            };
            if p2 + 1 >= n {
                return Err(TpxError::Io(unexpected_eof()));
            }
            let ndim = buf[p2 + 1] as usize;
            let p3 = p2 + 2;
            if ndim * 4 > n - p3 {
                return Err(TpxError::Io(unexpected_eof()));
            }
            let mut shape: Vec<u32> = Vec::new();
            let mut d: usize = 0;
            while d < ndim
                invariant
                    n == buf@.len(),
                    d <= ndim <= 255,
                    p3 + 4 * ndim <= n,
                    shape@ == parse_dims(buf@, p3 as int, d as nat),
                decreases ndim - d,
            {
                shape.push(read32(buf, p3 + 4 * d));
                assert(shape@ =~= parse_dims(buf@, p3 as int, (d + 1) as nat));
                d = d + 1;
            }
            let p4 = p3 + 4 * ndim;
            if n - p4 < 4 {
                return Err(TpxError::Io(unexpected_eof()));
            }
            let attrs_len = read32(buf, p4) as usize;
            let p5 = p4 + 4;
            if attrs_len > n - p5 {
                return Err(TpxError::Io(unexpected_eof()));
            }
            let attrs_obj = match Attrs::deserialize(vstd::slice::slice_subrange(buf, p5, p5 + attrs_len)) {
                Ok(a) => a,
                Err(e) => return Err(e),
            };
            let p6 = p5 + attrs_len;
            if n - p6 < 2 {
                return Err(TpxError::Io(unexpected_eof()));
            }
            let chunk_count = read16(buf, p6) as usize;
            let p7 = p6 + 2;
            if chunk_count * 14 > n - p7 {
                return Err(TpxError::Io(unexpected_eof()));
            }
            let mut chunk_refs: Vec<ChunkRef> = Vec::new();
            let mut c: usize = 0;
            while c < chunk_count
                invariant
                    n == buf@.len(),
                    c <= chunk_count <= 65535,
                    p7 + 14 * chunk_count <= n,
                    chunk_refs@ == parse_refs(buf@, p7 as int, c as nat),
                decreases chunk_count - c,
            {
                let off = p7 + 14 * c;
                let shard_id = read16(buf, off);
                let chunk_offset = read64(buf, off + 2);
                let chunk_len = read32(buf, off + 10);
                chunk_refs.push(ChunkRef { shard_id, chunk_offset, chunk_len });
                assert(chunk_refs@ =~= parse_refs(buf@, p7 as int, (c + 1) as nat));
                c = c + 1;
            }
            let p8 = p7 + 14 * chunk_count;
            if p8 >= n {
                return Err(TpxError::Io(unexpected_eof()));
            }
            let tombstone = buf[p8];
            let attrs = attrs_obj.entries;
            proof {
                lemma_pairs_view_wf(attrs@);
            }
            let entry = TocEntry { key_hash, key, dtype_id, shape, attrs, chunk_refs, tombstone };
            let ghost m = toc_model(entry);
            proof {
                assert(toc_step(buf@, p0) == TocStep::Entry(m, (p8 + 1) as int));
            }
            let ghost old_entries = entries@;
            entries.push(entry);
            proof {
                assert(toc_models(entries@) =~= toc_models(old_entries).push(m));
                match parse_toc_entries(buf@, (p8 + 1) as int, (count - k - 1) as nat) {
                    Ok(rest) => {
                        assert(toc_models(old_entries) + (seq![m] + rest) =~= toc_models(entries@) + rest);
                    },
                    Err(_) => {},
                }
            }
            pos = p8 + 1;
            k = k + 1;
        }
        proof {
            assert(toc_models(entries@) + Seq::<TocModel>::empty() =~= toc_models(entries@));
        }
        Ok(Self::build(entries))
    }
}


// ---------------------------------------------------------------------------
// Round trip.

/// The fields of an entry fit their encoded widths, and its attributes are
/// a well-formed list whose keys are at most 255 bytes long.
pub open spec fn entry_encodable(e: TocEntry) -> bool {
    &&& key_bytes(e.key).len() <= u16::MAX
    &&& e.shape@.len() <= 255
    &&& e.chunk_refs@.len() <= u16::MAX
    &&& entries_wf(e.attrs@)
    &&& forall|i: int| 0 <= i < e.attrs@.len() ==> (#[trigger] key_bytes(e.attrs@[i].0)).len() <= 255
    &&& attrs_block(e.attrs@).len() <= u32::MAX
}

proof fn lemma_dims_at(ds: Seq<u32>)
    ensures
        dims_bytes(ds).len() == 4 * ds.len(),
        forall|i: int| 0 <= i < ds.len() ==> #[trigger] dims_bytes(ds).subrange(4 * i, 4 * i + 4) == le32(ds[i]),
    decreases ds.len(),
{
    lemma_le_round_trips();
    if ds.len() > 0 {
        let pre = ds.drop_last();
        lemma_dims_at(pre);
        let b = dims_bytes(ds);
        assert forall|i: int| 0 <= i < ds.len() implies #[trigger] dims_bytes(ds).subrange(4 * i, 4 * i + 4) == le32(ds[i]) by {
            if i < pre.len() {
                assert(b.subrange(4 * i, 4 * i + 4) =~= dims_bytes(pre).subrange(4 * i, 4 * i + 4));
            } else {
                assert(b.subrange(4 * i, 4 * i + 4) =~= le32(ds.last()));
            }
        }
    }
}

proof fn lemma_refs_at(rs: Seq<ChunkRef>)
    ensures
        refs_bytes(rs).len() == 14 * rs.len(),
        forall|i: int| 0 <= i < rs.len() ==> #[trigger] refs_bytes(rs).subrange(14 * i, 14 * i + 14) == ref_bytes(rs[i]),
    decreases rs.len(),
{
    lemma_le_round_trips();
    if rs.len() > 0 {
        let pre = rs.drop_last();
        lemma_refs_at(pre);
        let b = refs_bytes(rs);
        assert forall|i: int| 0 <= i < rs.len() implies #[trigger] refs_bytes(rs).subrange(14 * i, 14 * i + 14) == ref_bytes(rs[i]) by {
            if i < pre.len() {
                assert(b.subrange(14 * i, 14 * i + 14) =~= refs_bytes(pre).subrange(14 * i, 14 * i + 14));
            } else {
                assert(b.subrange(14 * i, 14 * i + 14) =~= ref_bytes(rs.last()));
            }
        }
    }
}

/// Where the fields of an encoded entry lie.
#[verifier::rlimit(40)]
proof fn lemma_entry_layout(e: TocEntry)
    requires
        entry_encodable(e),
    ensures
        ({
            let eb = toc_entry_bytes(e);
            let kb = key_bytes(e.key);
            let ab = attrs_block(e.attrs@);
            let kl = kb.len() as int;
            let nd = e.shape@.len() as int;
            let rc = e.chunk_refs@.len() as int;
            let al = ab.len() as int;
            let q2 = 12 + kl;
            let q3 = q2 + 4 * nd;
            let q4 = q3 + 4;
            let q5 = q4 + al;
            let q6 = q5 + 2;
            &&& eb.len() == q6 + 14 * rc + 1
            &&& eb.subrange(0, 8) == le64(e.key_hash)
            &&& eb.subrange(8, 10) == le16(kl as u16)
            &&& eb.subrange(10, 10 + kl) == kb
            &&& eb[10 + kl] == dtype_code(e.dtype_id)
            &&& eb[11 + kl] == nd as u8
            &&& eb.subrange(q2, q3) == dims_bytes(e.shape@)
            &&& eb.subrange(q3, q4) == le32(al as u32)
            &&& eb.subrange(q4, q5) == ab
            &&& eb.subrange(q5, q6) == le16(rc as u16)
            &&& eb.subrange(q6, q6 + 14 * rc) == refs_bytes(e.chunk_refs@)
            &&& eb[q6 + 14 * rc] == e.tombstone
        }),
{
    lemma_le_round_trips();
    lemma_dims_at(e.shape@);
    lemma_refs_at(e.chunk_refs@);
    let kb = key_bytes(e.key);
    let ab = attrs_block(e.attrs@);
    let a = le64(e.key_hash) + le16(kb.len() as u16) + kb;
    let b = seq![dtype_code(e.dtype_id), e.shape@.len() as u8] + dims_bytes(e.shape@) + le32(ab.len() as u32) + ab;
    let c = le16(e.chunk_refs@.len() as u16) + refs_bytes(e.chunk_refs@) + seq![e.tombstone];
    let eb = toc_entry_bytes(e);
    assert(eb =~= a + b + c);
    let kl = kb.len() as int;
    let nd = e.shape@.len() as int;
    let al = ab.len() as int;
    let rc = e.chunk_refs@.len() as int;
    assert(a.len() == 10 + kl);
    assert(b.len() == 2 + 4 * nd + 4 + al);
    assert(eb.subrange(0, 8) =~= le64(e.key_hash));
    assert(eb.subrange(8, 10) =~= le16(kl as u16));
    assert(eb.subrange(10, 10 + kl) =~= kb);
    let q2 = 12 + kl;
    let q3 = q2 + 4 * nd;
    let q4 = q3 + 4;
    let q5 = q4 + al;
    let q6 = q5 + 2;
    assert(eb.subrange(q2, q3) =~= dims_bytes(e.shape@));
    assert(eb.subrange(q3, q4) =~= le32(al as u32));
    assert(eb.subrange(q4, q5) =~= ab);
    assert(eb.subrange(q5, q6) =~= le16(rc as u16));
    assert(eb.subrange(q6, q6 + 14 * rc) =~= refs_bytes(e.chunk_refs@));
}

/// A window of an entry inside a buffer is the same window of the entry.
proof fn lemma_window(pre: Seq<u8>, eb: Seq<u8>, rest: Seq<u8>, a: int, b: int)
    requires
        0 <= a <= b <= eb.len(),
    ensures
        (pre + eb + rest).subrange(pre.len() + a, pre.len() + b) == eb.subrange(a, b),
{
    assert((pre + eb + rest).subrange(pre.len() + a, pre.len() + b) =~= eb.subrange(a, b));
}

#[verifier::rlimit(40)]
proof fn lemma_toc_step(pre: Seq<u8>, e: TocEntry, rest: Seq<u8>)
    requires
        entry_encodable(e),
    ensures
        toc_step(pre + toc_entry_bytes(e) + rest, pre.len() as int) == TocStep::Entry(
            toc_model(e),
            (pre.len() + toc_entry_bytes(e).len()) as int,
        ),
{
    lemma_le_round_trips();
    lemma_entry_layout(e);
    lemma_dims_at(e.shape@);
    lemma_refs_at(e.chunk_refs@);
    let kb = key_bytes(e.key);
    let ab = attrs_block(e.attrs@);
    let eb = toc_entry_bytes(e);
    let buf = pre + eb + rest;
    let p = pre.len() as int;
    let kl = kb.len() as int;
    let nd = e.shape@.len() as int;
    let rc = e.chunk_refs@.len() as int;
    let al = ab.len() as int;
    let q2 = 12 + kl;
    let q3 = q2 + 4 * nd;
    let q4 = q3 + 4;
    let q5 = q4 + al;
    let q6 = q5 + 2;
    lemma_window(pre, eb, rest, 0, 8);
    lemma_window(pre, eb, rest, 8, 10);
    lemma_window(pre, eb, rest, 10, 10 + kl);
    lemma_window(pre, eb, rest, q2, q3);
    lemma_window(pre, eb, rest, q3, q4);
    lemma_window(pre, eb, rest, q4, q5);
    lemma_window(pre, eb, rest, q5, q6);
    lemma_window(pre, eb, rest, q6, q6 + 14 * rc);
    assert(buf[p + 10 + kl] == eb[10 + kl]);
    assert(buf[p + 11 + kl] == eb[11 + kl]);
    assert(buf[p + q6 + 14 * rc] == eb[q6 + 14 * rc]);
    vstd::utf8::encode_utf8_valid_utf8(e.key@);
    let p2 = p + q2;
    let p6 = p + q6;
    assert(parse_dims(buf, p2, nd as nat) =~= e.shape@) by {
        assert forall|i: int| 0 <= i < nd implies #[trigger] get32(buf, p2 + 4 * i) == e.shape@[i] by {
            assert(buf.subrange(p2 + 4 * i, p2 + 4 * i + 4) =~= buf.subrange(p2, p + q3).subrange(4 * i, 4 * i + 4));
        }
    }
    assert(parse_refs(buf, p6, rc as nat) =~= e.chunk_refs@) by {
        assert forall|i: int| 0 <= i < rc implies #[trigger] parse_refs(buf, p6, rc as nat)[i] == e.chunk_refs@[i] by {
            let r = e.chunk_refs@[i];
            let w = buf.subrange(p6 + 14 * i, p6 + 14 * i + 14);
            assert(w =~= buf.subrange(p6, p6 + 14 * rc).subrange(14 * i, 14 * i + 14));
            assert(w == ref_bytes(r));
            assert(buf.subrange(p6 + 14 * i, p6 + 14 * i + 2) =~= w.subrange(0, 2));
            assert(buf.subrange(p6 + 14 * i + 2, p6 + 14 * i + 10) =~= w.subrange(2, 10));
            assert(buf.subrange(p6 + 14 * i + 10, p6 + 14 * i + 14) =~= w.subrange(10, 14));
            assert(w.subrange(0, 2) =~= le16(r.shard_id));
            assert(w.subrange(2, 10) =~= le64(r.chunk_offset));
            assert(w.subrange(10, 14) =~= le32(r.chunk_len));
        }
    }
    lemma_block_of_sorted(e.attrs@);
    lemma_entry_list_round_trip(e.attrs@);
    reveal(toc_step);
}

proof fn lemma_toc_entries_first(es: Seq<TocEntry>)
    requires
        es.len() > 0,
    ensures
        toc_entries_bytes(es) == toc_entry_bytes(es[0]) + toc_entries_bytes(es.drop_first()),
    decreases es.len(),
{
    if es.len() > 1 {
        lemma_toc_entries_first(es.drop_last());
        assert(es.drop_last().drop_first() =~= es.drop_first().drop_last());
        assert(es.drop_last()[0] == es[0]);
        assert(es.drop_first().last() == es.last());
    } else {
        assert(es.drop_first() =~= Seq::<TocEntry>::empty());
        assert(es.drop_last() =~= Seq::<TocEntry>::empty());
    }
}

proof fn lemma_toc_entries(pre: Seq<u8>, es: Seq<TocEntry>)
    requires
        forall|i: int| 0 <= i < es.len() ==> entry_encodable(#[trigger] es[i]),
    ensures
        parse_toc_entries(pre + toc_entries_bytes(es), pre.len() as int, es.len()) == Ok::<Seq<TocModel>, TocStep>(toc_models(es)),
    decreases es.len(),
{
    if es.len() == 0 {
        assert(toc_models(es) =~= Seq::<TocModel>::empty());
    } else {
        lemma_toc_entries_first(es);
        let eb = toc_entry_bytes(es[0]);
        let tail = es.drop_first();
        assert(entry_encodable(es[0]));
        lemma_toc_step(pre, es[0], toc_entries_bytes(tail));
        assert(pre + toc_entries_bytes(es) =~= pre + eb + toc_entries_bytes(tail));
        assert forall|i: int| 0 <= i < tail.len() implies entry_encodable(#[trigger] tail[i]) by {
            assert(tail[i] == es[i + 1]);
        }
        lemma_toc_entries(pre + eb, tail);
        let buf = pre + toc_entries_bytes(es);
        assert((pre + eb) + toc_entries_bytes(tail) =~= buf);
        let next = (pre.len() + eb.len()) as int;
        assert(toc_step(buf, pre.len() as int) == TocStep::Entry(toc_model(es[0]), next));
        assert(parse_toc_entries(buf, next, tail.len()) == Ok::<Seq<TocModel>, TocStep>(toc_models(tail)));
        assert(seq![toc_model(es[0])] + toc_models(tail) =~= toc_models(es));
        assert((es.len() - 1) as nat == tail.len());
    }
}

/// Decoding an encoded table gives back its entries (as plain data), for
/// entries whose fields fit their encoded widths and whose attributes form
/// an attribute set with keys of at most 255 bytes.
pub proof fn lemma_toc_round_trip(es: Seq<TocEntry>)
    requires
        es.len() <= u32::MAX,
        forall|i: int| 0 <= i < es.len() ==> entry_encodable(#[trigger] es[i]),
    ensures
        parse_toc(toc_bytes(es)) == Ok::<Seq<TocModel>, TocStep>(toc_models(es)),
{
    lemma_le_round_trips();
    let b = toc_bytes(es);
    assert(b.subrange(0, 4) =~= le32(es.len() as u32));
    lemma_toc_entries(le32(es.len() as u32), es);
}


/// After every entry of a key is marked deleted, a lookup of the key finds
/// nothing.
pub proof fn lemma_tombstone_hides(es: Seq<TocEntry>, es2: Seq<TocEntry>, k: Seq<u8>)
    requires
        es2.len() == es.len(),
        forall|i: int|
            0 <= i < es.len() ==> (#[trigger] es2[i]) == (if key_bytes(es[i].key) == k {
                TocEntry { tombstone: 1, ..es[i] }
            } else {
                es[i]
            }),
    ensures
        lookup_index(es2, k) is None,
{
    assert forall|i: int| 0 <= i < es.len() implies #[trigger] es[i].key_hash == es2[i].key_hash by {}
    lemma_index_map_same_hashes(es, es2);
}

} // verus!
