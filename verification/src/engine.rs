//! The in-memory state of an archive's shards: each shard's radix tree of
//! chunk locations and its version chains, and the rules that keep them in
//! step with writes, deletions and a table of contents being loaded.
use vstd::prelude::*;
use vstd::string::StringSliceAdditionalSpecFns;
use crate::types::{ChunkRef, DTypeId, OpenMode, TpxError};
use crate::attrs::{AttrModel, AttrValue, Attrs, attr_model, key_bytes, fold_insert, model_entries};
use crate::index::art::{ArtTree, ArtSnapshot};
use crate::index::lex::bytes_equal;
use crate::index::toc::{Toc, TocEntry, lookup_index};
use crate::dedup::content_store::{ContentEntry, ContentStore};
use crate::version::{
    RetentionPolicy, VersionChain, VersionDiff, VersionEntry, all_refs, evict_count, next_version_id, version_ids,
    set_minus_ok, difference,
};

verus! {

/// `news` and `evicted` are what appending a version with the given parts
/// to `olds` makes under `policy`.
pub open spec fn appended(
    olds: Seq<VersionEntry>,
    policy: RetentionPolicy,
    news: Seq<VersionEntry>,
    evicted: Seq<u128>,
    dtype: DTypeId,
    shape: Seq<u32>,
    attrs: Seq<(String, AttrValue)>,
    refs: Seq<u128>,
) -> bool {
    let k = evict_count(policy, olds.len() + 1);
    &&& news.len() == olds.len() + 1 - k
    &&& forall|i: int| 0 <= i < olds.len() - k ==> #[trigger] news[i] == olds[i + k]
    &&& news.last().version_id == next_version_id(olds)
    &&& news.last().dtype_id == dtype
    &&& news.last().shape@ == shape
    &&& news.last().attrs@ == attrs
    &&& news.last().chunk_refs@ == refs
    &&& evicted == all_refs(olds.take(k as int))
}

/// The first chain from position `i` on whose key is `k`.
pub open spec fn chain_from(cs: Seq<VersionChain>, k: Seq<u8>, i: int) -> Option<int>
    decreases cs.len() - i,
{
    if i >= cs.len() || i < 0 {
        None
    } else if key_bytes(cs[i].key) == k {
        Some(i)
    } else {
        chain_from(cs, k, i + 1)
    }
}

/// The position of the chain of key `k`.
pub open spec fn chain_index(cs: Seq<VersionChain>, k: Seq<u8>) -> Option<int> {
    chain_from(cs, k, 0)
}

/// The versions kept for key `k` (none if it has no chain).
pub open spec fn chain_versions(cs: Seq<VersionChain>, k: Seq<u8>) -> Seq<VersionEntry> {
    match chain_index(cs, k) {
        Some(i) => cs[i].versions@,
        None => Seq::empty(),
    }
}

/// The chain of `k` can take one more version id.
pub open spec fn chain_room(cs: Seq<VersionChain>, k: Seq<u8>) -> bool {
    let vs = chain_versions(cs, k);
    vs.len() == 0 || vs.last().version_id < u32::MAX
}

/// No two chains have the same key.
pub open spec fn chains_distinct(cs: Seq<VersionChain>) -> bool {
    forall|i: int, j: int| 0 <= i < j < cs.len() ==> key_bytes(#[trigger] cs[i].key) != key_bytes(#[trigger] cs[j].key)
}

proof fn lemma_chain_from(cs: Seq<VersionChain>, k: Seq<u8>, i: int)
    requires
        0 <= i <= cs.len(),
    ensures
        chain_from(cs, k, i) matches Some(j) ==> i <= j < cs.len() && key_bytes(cs[j].key) == k && forall|t: int|
            i <= t < j ==> key_bytes(#[trigger] cs[t].key) != k,
        chain_from(cs, k, i) is None ==> forall|t: int| i <= t < cs.len() ==> key_bytes(#[trigger] cs[t].key) != k,
    decreases cs.len() - i,
{
    if i < cs.len() && key_bytes(cs[i].key) != k {
        lemma_chain_from(cs, k, i + 1);
    }
}

/// Chains found by their keys: the first position holding `k`.
proof fn lemma_chain_index_at(cs: Seq<VersionChain>, k: Seq<u8>, j: int)
    requires
        0 <= j < cs.len(),
        key_bytes(cs[j].key) == k,
        forall|t: int| 0 <= t < j ==> key_bytes(#[trigger] cs[t].key) != k,
    ensures
        chain_index(cs, k) == Some(j),
{
    lemma_chain_from(cs, k, 0);
    match chain_index(cs, k) {
        Some(x) => {
            if x < j {
                assert(key_bytes(cs[x].key) != k);
            } else if x > j {
                assert(key_bytes(cs[j].key) != k);
            }
        },
        None => {
            assert(key_bytes(cs[j].key) != k);
        },
    }
}

/// The position of the chain of `key`.
fn find_chain(cs: &Vec<VersionChain>, key: &str) -> (r: Option<usize>)
    ensures
        match chain_index(cs@, key.spec_bytes()) {
            Some(i) => r == Some(i as usize),
            None => r is None,
        },
        r matches Some(i) ==> i < cs@.len() && key_bytes(cs@[i as int].key) == key.spec_bytes() && chain_index(
            cs@,
            key.spec_bytes(),
        ) == Some(i as int),
{
    proof {
        lemma_chain_from(cs@, key.spec_bytes(), 0);
    }
    let kb = key.as_bytes();
    let mut i: usize = 0;
    while i < cs.len()
        invariant
            i <= cs@.len(),
            kb@ == key.spec_bytes(),
            chain_from(cs@, kb@, 0) == chain_from(cs@, kb@, i as int),
        decreases cs@.len() - i,
    {
        if bytes_equal(cs[i].key.as_str().as_bytes(), kb) {
            return Some(i);
        }
        i = i + 1;
    }
    None
}

/// The location a chunk is identified by in a version chain: its shard in
/// the high 64 bits, its offset in the low 64.
pub open spec fn ref_hash(c: ChunkRef) -> u128 {
    (c.shard_id as u128 * 0x1_0000_0000_0000_0000 + c.chunk_offset as u128) as u128
}

pub open spec fn ref_hashes(cs: Seq<ChunkRef>) -> Seq<u128> {
    cs.map_values(|c: ChunkRef| ref_hash(c))
}

fn chunk_ref_hash(c: ChunkRef) -> (r: u128)
    ensures
        r == ref_hash(c),
{
    let s: u16 = c.shard_id;
    let o: u64 = c.chunk_offset;
    let r = ((s as u128) << 64u128) | (o as u128);
    assert(((s as u128) << 64u128) | (o as u128) == (s as u128) * 0x1_0000_0000_0000_0000u128 + (o as u128)) by (bit_vector);
    r
}

/// One shard of an archive: the radix tree from keys to their first chunk,
/// the next append position, the version chains and the number of chunks
/// recorded.
pub struct Shard {
    pub id: u16,
    pub art: ArtTree<ChunkRef>,
    pub append_offset: u64,
    pub version_chains: Vec<VersionChain>,
    pub chunk_count: u64,
}

impl Shard {
    pub open spec fn wf(&self) -> bool {
        &&& self.art.wf()
        &&& chains_distinct(self.version_chains@)
    }

    pub fn new(id: u16, start_offset: u64) -> (r: Self)
        ensures
            r.wf(),
            r.id == id,
            r.art@ == Map::<Seq<u8>, ChunkRef>::empty(),
            r.append_offset == start_offset,
            r.version_chains@.len() == 0,
            r.chunk_count == 0,
    {
        Shard { id, art: ArtTree::new(), append_offset: start_offset, version_chains: Vec::new(), chunk_count: 0 }
    }

    /// Reserves `bytes_len` bytes at the append position; returns where they
    /// start. The position wraps around at the top of the `u64` range.
    pub fn allocate_append(&mut self, bytes_len: u64) -> (r: u64)
        ensures
            r == old(self).append_offset,
            final(self).append_offset == old(self).append_offset.wrapping_add(bytes_len),
            final(self).art == old(self).art,
            final(self).version_chains@ == old(self).version_chains@,
            final(self).id == old(self).id,
            final(self).chunk_count == old(self).chunk_count,
    {
        let r = self.append_offset;
        self.append_offset = self.append_offset.wrapping_add(bytes_len);
        r
    }

    /// A copy of the shard's key index.
    pub fn snapshot_art(&self) -> (r: ArtSnapshot<ChunkRef>)
        requires
            self.wf(),
        ensures
            r.wf(),
            r@ == self.art@,
    {
        self.art.snapshot()
    }

    /// The chain of `key`, if it has one.
    pub fn chain(&self, key: &str) -> (r: Option<&VersionChain>)
        ensures
            match chain_index(self.version_chains@, key.spec_bytes()) {
                Some(i) => r == Some(&self.version_chains@[i]),
                None => r is None,
            },
    {
        match find_chain(&self.version_chains, key) {
            Some(i) => Some(&self.version_chains[i]),
            None => None,
        }
    }

    /// Appends a version to the chain of `key`, creating the chain with
    /// `retention` when there is none and applying `retention` to it. Returns
    /// the chunk hashes of the versions that retention evicts.
    fn append_version(
        &mut self,
        key: &str,
        retention: Option<RetentionPolicy>,
        fresh: RetentionPolicy,
        dtype: DTypeId,
        shape: Vec<u32>,
        attrs: Vec<(String, AttrValue)>,
        hashes: Vec<u128>,
    ) -> (evicted: Vec<u128>)
        requires
            chains_distinct(old(self).version_chains@),
            chain_room(old(self).version_chains@, key.spec_bytes()),
        ensures
            chains_distinct(final(self).version_chains@),
            final(self).art == old(self).art,
            final(self).id == old(self).id,
            final(self).append_offset == old(self).append_offset,
            final(self).chunk_count == old(self).chunk_count,
            ({
                let kb = key.spec_bytes();
                let ocs = old(self).version_chains@;
                let ncs = final(self).version_chains@;
                let policy = match chain_index(ocs, kb) {
                    Some(i) => match retention {
                        Some(p) => p,
                        None => ocs[i].retention,
                    },
                    None => match retention {
                        Some(p) => p,
                        None => fresh,
                    },
                };
                &&& chain_index(ncs, kb) matches Some(j) && ncs[j].retention == policy && appended(
                    chain_versions(ocs, kb),
                    policy,
                    ncs[j].versions@,
                    evicted@,
                    dtype,
                    shape@,
                    attrs@,
                    hashes@,
                )
                &&& match chain_index(ocs, kb) {
                    Some(i) => ncs.len() == ocs.len() && forall|t: int| 0 <= t < ocs.len() && t != i ==> #[trigger] ncs[t] == ocs[t],
                    None => ncs.len() == ocs.len() + 1 && forall|t: int| 0 <= t < ocs.len() ==> #[trigger] ncs[t] == ocs[t],
                }
            }),
    {
        let ghost kb = key.spec_bytes();
        let ghost ocs = self.version_chains@;
        proof {
            lemma_chain_from(ocs, kb, 0);
        }
        let idx = match find_chain(&self.version_chains, key) {
            Some(i) => i,
            None => {
                let c = VersionChain::new(key, fresh);
                self.version_chains.push(c);
                proof {
                    assert(key_bytes(c.key) == kb);
                    assert forall|i: int, j: int| 0 <= i < j < self.version_chains@.len() implies key_bytes(
                        #[trigger] self.version_chains@[i].key,
                    ) != key_bytes(#[trigger] self.version_chains@[j].key) by {
                        if j == ocs.len() {
                            assert(self.version_chains@[i] == ocs[i]);
                        } else {
                            assert(self.version_chains@[i] == ocs[i] && self.version_chains@[j] == ocs[j]);
                        }
                    }
                }
                self.version_chains.len() - 1
            },
        };
        let ghost mid = self.version_chains@;
        proof {
            assert(key_bytes(mid[idx as int].key) == kb);
            assert forall|t: int| 0 <= t < idx implies key_bytes(#[trigger] mid[t].key) != kb by {
                if idx as int == ocs.len() {
                    assert(mid[t] == ocs[t]);
                }
            }
            lemma_chain_index_at(mid, kb, idx as int);
        }
        let c = &mut self.version_chains[idx];
        match retention {
            Some(p) => {
                c.retention = p;
            },
            None => {},
        }
        let (_v, evicted) = c.append(dtype, shape, attrs, hashes);
        proof {
            let ncs = self.version_chains@;
            assert forall|t: int| 0 <= t < mid.len() && t != idx implies #[trigger] ncs[t] == mid[t] by {}
            assert(key_bytes(ncs[idx as int].key) == kb);
            assert forall|t: int| 0 <= t < idx implies key_bytes(#[trigger] ncs[t].key) != kb by {
                assert(ncs[t] == mid[t]);
            }
            lemma_chain_index_at(ncs, kb, idx as int);
            assert forall|i: int, j: int| 0 <= i < j < ncs.len() implies key_bytes(#[trigger] ncs[i].key) != key_bytes(
                #[trigger] ncs[j].key,
            ) by {
                if i != idx {
                    assert(ncs[i] == mid[i]);
                }
                if j != idx {
                    assert(ncs[j] == mid[j]);
                }
            }
        }
        evicted
    }

    /// Records a write of `key`: its first chunk goes into the key index and
    /// a new version into its chain, whose retention becomes `retention`.
    /// Returns the chunk hashes that retention evicts.
    pub fn record_put(
        &mut self,
        key: &str,
        refs: &Vec<ChunkRef>,
        dtype: DTypeId,
        shape: Vec<u32>,
        attrs: Vec<(String, AttrValue)>,
        hashes: Vec<u128>,
        retention: RetentionPolicy,
    ) -> (evicted: Vec<u128>)
        requires
            old(self).wf(),
            chain_room(old(self).version_chains@, key.spec_bytes()),
        ensures
            final(self).wf(),
            final(self).id == old(self).id,
            final(self).append_offset == old(self).append_offset,
            final(self).art@ == if refs@.len() > 0 {
                old(self).art@.insert(key.spec_bytes(), refs@[0])
            } else {
                old(self).art@
            },
            final(self).chunk_count == if refs@.len() > 0 {
                old(self).chunk_count.wrapping_add(refs@.len() as u64)
            } else {
                old(self).chunk_count
            },
            ({
                let kb = key.spec_bytes();
                let ocs = old(self).version_chains@;
                let ncs = final(self).version_chains@;
                &&& chain_index(ncs, kb) matches Some(j) && ncs[j].retention == retention && appended(
                    chain_versions(ocs, kb),
                    retention,
                    ncs[j].versions@,
                    evicted@,
                    dtype,
                    shape@,
                    attrs@,
                    hashes@,
                )
                &&& match chain_index(ocs, kb) {
                    Some(i) => ncs.len() == ocs.len() && forall|t: int| 0 <= t < ocs.len() && t != i ==> #[trigger] ncs[t] == ocs[t],
                    None => ncs.len() == ocs.len() + 1 && forall|t: int| 0 <= t < ocs.len() ==> #[trigger] ncs[t] == ocs[t],
                }
            }),
    {
        if refs.len() > 0 {
            self.art.insert(key.as_bytes(), refs[0]);
            self.chunk_count = self.chunk_count.wrapping_add(refs.len() as u64);
        }
        self.append_version(key, Some(retention), retention, dtype, shape, attrs, hashes)
    }

    /// Forgets `key`: drops it from the key index and drops its chain.
    pub fn forget(&mut self, key: &str)
        requires
            old(self).wf(),
        ensures
            final(self).wf(),
            final(self).id == old(self).id,
            final(self).append_offset == old(self).append_offset,
            final(self).chunk_count == old(self).chunk_count,
            final(self).art@ == old(self).art@.remove(key.spec_bytes()),
            chain_index(final(self).version_chains@, key.spec_bytes()) is None,
            match chain_index(old(self).version_chains@, key.spec_bytes()) {
                Some(i) => final(self).version_chains@ == old(self).version_chains@.remove(i),
                None => final(self).version_chains@ == old(self).version_chains@,
            },
    {
        let ghost kb = key.spec_bytes();
        self.art.remove(key.as_bytes());
        let ghost ocs = self.version_chains@;
        match find_chain(&self.version_chains, key) {
            Some(i) => {
                proof {
                    lemma_chain_from(ocs, kb, 0);
                }
                let _ = self.version_chains.remove(i);
                proof {
                    let ncs = self.version_chains@;
                    assert(ncs =~= ocs.remove(i as int));
                    assert forall|t: int| 0 <= t < ncs.len() implies key_bytes(#[trigger] ncs[t].key) != kb by {
                        if t < i {
                            assert(ncs[t] == ocs[t]);
                        } else {
                            assert(ncs[t] == ocs[t + 1]);
                            assert(key_bytes(ocs[i as int].key) != key_bytes(ocs[t + 1].key));
                        }
                    }
                    lemma_chain_from(ncs, kb, 0);
                    assert forall|a: int, b: int| 0 <= a < b < ncs.len() implies key_bytes(#[trigger] ncs[a].key) != key_bytes(
                        #[trigger] ncs[b].key,
                    ) by {
                        let oa = if a < i { a } else { a + 1 };
                        let ob = if b < i { b } else { b + 1 };
                        assert(ncs[a] == ocs[oa] && ncs[b] == ocs[ob]);
                    }
                }
            },
            None => {},
        }
    }

    /// Applies one loaded table-of-contents entry: a live entry puts each of
    /// its chunks under its key in turn and appends a version, its chunks
    /// identified by location, to the key's chain under the retention policy
    /// the entry stores (so versions that the policy evicted before a reopen
    /// are evicted again); a deleted entry forgets the key. Returns the chunk
    /// hashes that the chain's retention evicts.
    pub fn load_entry(&mut self, entry: TocEntry) -> (evicted: Vec<u128>)
        requires
            old(self).wf(),
            entry.tombstone == 0 ==> chain_room(old(self).version_chains@, key_bytes(entry.key)),
        ensures
            final(self).wf(),
            final(self).id == old(self).id,
            final(self).append_offset == old(self).append_offset,
            entry.tombstone == 0 ==> {
                let kb = key_bytes(entry.key);
                let ocs = old(self).version_chains@;
                let ncs = final(self).version_chains@;
                let policy = stored_retention_of(entry.attrs@);
                &&& final(self).art@ == if entry.chunk_refs@.len() > 0 {
                    old(self).art@.insert(kb, entry.chunk_refs@.last())
                } else {
                    old(self).art@
                }
                &&& chain_index(ncs, kb) matches Some(j) && ncs[j].retention == policy && appended(
                        chain_versions(ocs, kb),
                        policy,
                        ncs[j].versions@,
                        evicted@,
                        entry.dtype_id,
                        entry.shape@,
                        entry.attrs@,
                        ref_hashes(entry.chunk_refs@),
                    )
                &&& match chain_index(ocs, kb) {
                    Some(i) => ncs.len() == ocs.len() && forall|t: int| 0 <= t < ocs.len() && t != i ==> #[trigger] ncs[t] == ocs[t],
                    None => ncs.len() == ocs.len() + 1 && forall|t: int| 0 <= t < ocs.len() ==> #[trigger] ncs[t] == ocs[t],
                }
            },
            entry.tombstone != 0 ==> {
                &&& evicted@.len() == 0
                &&& final(self).art@ == old(self).art@.remove(key_bytes(entry.key))
                &&& chain_index(final(self).version_chains@, key_bytes(entry.key)) is None
                &&& match chain_index(old(self).version_chains@, key_bytes(entry.key)) {
                    Some(i) => final(self).version_chains@ == old(self).version_chains@.remove(i),
                    None => final(self).version_chains@ == old(self).version_chains@,
                }
            },
    {
        let ghost e = entry;
        let TocEntry { key: kstr, dtype_id, shape, attrs, chunk_refs, tombstone, .. } = entry;
        let key = kstr.as_str();
        if tombstone != 0 {
            self.forget(key);
            return Vec::new();
        }
        let ghost kb = key_bytes(e.key);
        let ghost oart = self.art@;
        let mut i: usize = 0;
        while i < chunk_refs.len()
            invariant
                self.art.wf(),
                self.id == old(self).id,
                self.append_offset == old(self).append_offset,
                self.version_chains@ == old(self).version_chains@,
                key.spec_bytes() == kb,
                chunk_refs@ == e.chunk_refs@,
                i <= chunk_refs@.len(),
                i == 0 ==> self.art@ == oart,
                i > 0 ==> self.art@ == oart.insert(kb, chunk_refs@[i - 1]),
            decreases chunk_refs@.len() - i,
        {
            self.art.insert(key.as_bytes(), chunk_refs[i]);
            proof {
                if i > 0 {
                    assert(self.art@ =~= oart.insert(kb, chunk_refs@[i as int]));
                }
            }
            i = i + 1;
        }
        let mut hashes: Vec<u128> = Vec::new();
        let mut j: usize = 0;
        while j < chunk_refs.len()
            invariant
                j <= chunk_refs@.len(),
                hashes@ == ref_hashes(chunk_refs@.take(j as int)),
            decreases chunk_refs@.len() - j,
        {
            hashes.push(chunk_ref_hash(chunk_refs[j]));
            assert(ref_hashes(chunk_refs@.take(j + 1)) =~= ref_hashes(chunk_refs@.take(j as int)).push(
                ref_hash(chunk_refs@[j as int]),
            ));
            j = j + 1;
        }
        assert(chunk_refs@.take(j as int) =~= chunk_refs@);
        let policy = stored_retention(&attrs);
        let ev = self.append_version(key, Some(policy), policy, dtype_id, shape, attrs, hashes);
        proof {
            let ocs = old(self).version_chains@;
            let ncs = self.version_chains@;
            let jj = chain_index(ncs, kb)->0;
            assert(appended(
                chain_versions(ocs, kb),
                policy,
                ncs[jj].versions@,
                ev@,
                e.dtype_id,
                e.shape@,
                e.attrs@,
                ref_hashes(e.chunk_refs@),
            ));
            assert(ncs[jj].retention == policy);
            assert(self.art@ == if e.chunk_refs@.len() > 0 {
                old(self).art@.insert(kb, e.chunk_refs@.last())
            } else {
                old(self).art@
            });
            assert(match chain_index(ocs, kb) {
                Some(i) => ncs.len() == ocs.len() && forall|t: int| 0 <= t < ocs.len() && t != i ==> #[trigger] ncs[t] == ocs[t],
                None => ncs.len() == ocs.len() + 1 && forall|t: int| 0 <= t < ocs.len() ==> #[trigger] ncs[t] == ocs[t],
            });
        }
        ev
    }
}


// ---------------------------------------------------------------------------
// Queries over the table of contents.

/// Entry `i` is the last entry of its key.
pub open spec fn last_of_key(es: Seq<TocEntry>, i: int) -> bool {
    forall|j: int| i < j < es.len() ==> key_bytes(#[trigger] es[j].key) != key_bytes(es[i].key)
}

/// Entry `i` names a key that is listed: non-empty, last of its key, live.
pub open spec fn listed(es: Seq<TocEntry>, i: int) -> bool {
    key_bytes(es[i].key).len() > 0 && last_of_key(es, i) && es[i].tombstone == 0
}

/// The listed keys among the first `n` entries, in entry order.
pub open spec fn listed_keys(es: Seq<TocEntry>, n: int) -> Seq<Seq<u8>>
    decreases n,
{
    if n <= 0 {
        Seq::empty()
    } else {
        let rest = listed_keys(es, n - 1);
        if listed(es, n - 1) {
            rest.push(key_bytes(es[n - 1].key))
        } else {
            rest
        }
    }
}

/// The positions below `n` of the live (not deleted) entries of key `k`,
/// in order: the versions of the key's live chain.
pub open spec fn key_positions(es: Seq<TocEntry>, k: Seq<u8>, n: int) -> Seq<int>
    decreases n,
{
    if n <= 0 {
        Seq::empty()
    } else {
        let rest = key_positions(es, k, n - 1);
        if key_bytes(es[n - 1].key) == k && es[n - 1].tombstone == 0 {
            rest.push(n - 1)
        } else {
            rest
        }
    }
}

/// The number of live entries of key `k` below `n`.
pub open spec fn live_count(es: Seq<TocEntry>, k: Seq<u8>, n: int) -> nat
    decreases n,
{
    if n <= 0 {
        0
    } else {
        live_count(es, k, n - 1) + if key_bytes(es[n - 1].key) == k && es[n - 1].tombstone == 0 {
            1nat
        } else {
            0nat
        }
    }
}

proof fn lemma_positions_bound(es: Seq<TocEntry>, k: Seq<u8>, n: int)
    requires
        0 <= n <= es.len(),
    ensures
        key_positions(es, k, n).len() <= n,
        forall|t: int| 0 <= t < key_positions(es, k, n).len() ==> 0 <= #[trigger] key_positions(es, k, n)[t] < n,
        live_count(es, k, n) <= n,
    decreases n,
{
    if n > 0 {
        lemma_positions_bound(es, k, n - 1);
    }
}

/// Every key that the table lists: the non-empty keys whose last entry is
/// live, each once, ordered by that last entry.
pub fn live_keys(toc: &Toc) -> (r: Vec<String>)
    ensures
        r@.len() == listed_keys(toc.entries@, toc.entries@.len() as int).len(),
        forall|t: int| 0 <= t < r@.len() ==> key_bytes(#[trigger] r@[t]) == listed_keys(toc.entries@, toc.entries@.len() as int)[t],
{
    let ghost es = toc.entries@;
    let mut out: Vec<String> = Vec::new();
    let mut i: usize = 0;
    while i < toc.entries.len()
        invariant
            es == toc.entries@,
            i <= es.len(),
            out@.len() == listed_keys(es, i as int).len(),
            forall|t: int| 0 <= t < out@.len() ==> key_bytes(#[trigger] out@[t]) == listed_keys(es, i as int)[t],
        decreases es.len() - i,
    {
        let entry = &toc.entries[i];
        let kb = entry.key.as_str().as_bytes();
        let mut last = true;
        let mut j: usize = i + 1;
        while j < toc.entries.len()
            invariant
                es == toc.entries@,
                i < j <= es.len(),
                kb@ == key_bytes(es[i as int].key),
                last <==> forall|t: int| i < t < j ==> key_bytes(#[trigger] es[t].key) != kb@,
            decreases es.len() - j,
        {
            if bytes_equal(toc.entries[j].key.as_str().as_bytes(), kb) {
                last = false;
            }
            j = j + 1;
        }
        if kb.len() > 0 && last && entry.tombstone == 0 {
            out.push(entry.key.clone());
        }
        proof {
            assert(listed(es, i as int) == (kb@.len() > 0 && last && entry.tombstone == 0));
        }
        i = i + 1;
    }
    out
}

/// The position in the table of version `version` of `key`: the
/// `version`-th live entry of the key, so that data written before a delete
/// is never returned.
fn version_position(toc: &Toc, key: &str, version: u32) -> (r: Option<usize>)
    ensures
        ({
            let ps = key_positions(toc.entries@, key.spec_bytes(), toc.entries@.len() as int);
            &&& version < ps.len() ==> r == Some(ps[version as int] as usize)
            &&& version >= ps.len() ==> r is None
            &&& r matches Some(p) ==> p < toc.entries@.len()
        }),
{
    let ghost es = toc.entries@;
    let kb = key.as_bytes();
    let mut seen: u64 = 0;
    let mut i: usize = 0;
    while i < toc.entries.len()
        invariant
            es == toc.entries@,
            kb@ == key.spec_bytes(),
            i <= es.len(),
            seen == key_positions(es, kb@, i as int).len(),
            seen <= version,
        decreases es.len() - i,
    {
        proof {
            lemma_positions_bound(es, kb@, i as int);
        }
        if bytes_equal(toc.entries[i].key.as_str().as_bytes(), kb) && toc.entries[i].tombstone == 0 {
            if seen == version as u64 {
                proof {
                    lemma_positions_bound(es, kb@, es.len() as int);
                    lemma_positions_prefix(es, kb@, i + 1, es.len() as int);
                }
                return Some(i);
            }
            seen = seen + 1;
        }
        i = i + 1;
    }
    None
}

proof fn lemma_positions_prefix(es: Seq<TocEntry>, k: Seq<u8>, m: int, n: int)
    requires
        0 <= m <= n <= es.len(),
    ensures
        key_positions(es, k, m).len() <= key_positions(es, k, n).len(),
        forall|t: int| 0 <= t < key_positions(es, k, m).len() ==> #[trigger] key_positions(es, k, n)[t] == key_positions(es, k, m)[t],
    decreases n - m,
{
    if m < n {
        lemma_positions_prefix(es, k, m, n - 1);
    }
}

/// The number of live entries of `key`.
fn live_version_count(toc: &Toc, key: &str) -> (r: usize)
    ensures
        r == live_count(toc.entries@, key.spec_bytes(), toc.entries@.len() as int),
{
    let ghost es = toc.entries@;
    let kb = key.as_bytes();
    let mut n: usize = 0;
    let mut i: usize = 0;
    while i < toc.entries.len()
        invariant
            es == toc.entries@,
            kb@ == key.spec_bytes(),
            i <= es.len(),
            n == live_count(es, kb@, i as int),
        decreases es.len() - i,
    {
        proof {
            lemma_positions_bound(es, kb@, i as int);
        }
        if bytes_equal(toc.entries[i].key.as_str().as_bytes(), kb) && toc.entries[i].tombstone == 0 {
            n = n + 1;
        }
        i = i + 1;
    }
    n
}

/// `0, 1, .., n - 1`.
pub open spec fn first_ids(n: nat) -> Seq<u32> {
    Seq::new(n, |i: int| i as u32)
}

/// The versions of `key`: from its chain when the shard has one (an empty
/// chain is not found), else one per live table entry of the key, numbered
/// from 0, when its latest entry is live.
pub fn list_versions(shard: &Shard, toc: &Toc, key: &str) -> (r: Result<Vec<u32>, TpxError>)
    requires
        toc.wf(),
    ensures
        ({
            let kb = key.spec_bytes();
            let es = toc.entries@;
            match chain_index(shard.version_chains@, kb) {
                Some(i) => if shard.version_chains@[i].versions@.len() == 0 {
                    r matches Err(TpxError::KeyNotFound(k)) && k@ == key@
                } else {
                    r matches Ok(v) && v@ == version_ids(shard.version_chains@[i].versions@)
                },
                None => if lookup_index(es, kb) is None || live_count(es, kb, es.len() as int) == 0 {
                    r matches Err(TpxError::KeyNotFound(k)) && k@ == key@
                } else {
                    r matches Ok(v) && v@ == first_ids(live_count(es, kb, es.len() as int))
                },
            }
        }),
{
    match shard.chain(key) {
        Some(vc) => {
            if vc.versions.len() == 0 {
                return Err(TpxError::KeyNotFound(key.to_string()));
            }
            return Ok(vc.list_versions());
        },
        None => {},
    }
    if toc.lookup(key).is_none() {
        return Err(TpxError::KeyNotFound(key.to_string()));
    }
    let count = live_version_count(toc, key);
    if count == 0 {
        return Err(TpxError::KeyNotFound(key.to_string()));
    }
    proof {
        lemma_positions_bound(toc.entries@, key.spec_bytes(), toc.entries@.len() as int);
    }
    let mut ids: Vec<u32> = Vec::new();
    let mut v: usize = 0;
    while v < count
        invariant
            count <= u32::MAX,
            v <= count,
            ids@ == first_ids(v as nat),
        decreases count - v,
    {
        ids.push(v as u32);
        assert(ids@ =~= first_ids((v + 1) as nat));
        v = v + 1;
    }
    Ok(ids)
}

/// The version ids a shard's chain of `key` lists, if it has a chain.
pub open spec fn chain_ids(shard: Shard, k: Seq<u8>) -> Option<Seq<u32>> {
    match chain_index(shard.version_chains@, k) {
        Some(i) => Some(version_ids(shard.version_chains@[i].versions@)),
        None => None,
    }
}

/// Where in the table version `version` of `key` is: refused when the
/// shard's chain of the key does not list it or when the key's latest entry
/// is not live; otherwise the `version`-th live entry of the key.
pub fn select_version(shard: &Shard, toc: &Toc, key: &str, version: u32) -> (r: Result<usize, TpxError>)
    requires
        toc.wf(),
    ensures
        ({
            let kb = key.spec_bytes();
            let es = toc.entries@;
            let ps = key_positions(es, kb, es.len() as int);
            if chain_ids(*shard, kb) matches Some(ids) && !ids.contains(version) {
                r matches Err(TpxError::VersionNotFound { key: k, version: v }) && k@ == key@ && v == version
            } else if lookup_index(es, kb) is None {
                r matches Err(TpxError::KeyNotFound(k)) && k@ == key@
            } else if version < ps.len() {
                r == Ok::<usize, TpxError>(ps[version as int] as usize) && ps[version as int] < es.len()
            } else {
                r matches Err(TpxError::VersionNotFound { key: k, version: v }) && k@ == key@ && v == version
            }
        }),
{
    match shard.chain(key) {
        Some(vc) => {
            let ids = vc.list_versions();
            if !contains_u32(&ids, version) {
                return Err(TpxError::VersionNotFound { key: key.to_string(), version });
            }
        },
        None => {},
    }
    if toc.lookup(key).is_none() {
        return Err(TpxError::KeyNotFound(key.to_string()));
    }
    proof {
        lemma_positions_bound(toc.entries@, key.spec_bytes(), toc.entries@.len() as int);
    }
    match version_position(toc, key, version) {
        Some(p) => Ok(p),
        None => Err(TpxError::VersionNotFound { key: key.to_string(), version }),
    }
}

fn contains_u32(s: &Vec<u32>, x: u32) -> (r: bool)
    ensures
        r == s@.contains(x),
{
    let mut i: usize = 0;
    while i < s.len()
        invariant
            i <= s@.len(),
            forall|t: int| 0 <= t < i ==> s@[t] != x,
        decreases s@.len() - i,
    {
        if s[i] == x {
            return true;
        }
        i = i + 1;
    }
    false
}

/// The chunk offsets of the references, widened.
pub open spec fn ref_offsets(cs: Seq<ChunkRef>) -> Seq<u128> {
    cs.map_values(|c: ChunkRef| c.chunk_offset as u128)
}

fn offsets_of(cs: &Vec<ChunkRef>) -> (r: Vec<u128>)
    ensures
        r@ == ref_offsets(cs@),
{
    let mut out: Vec<u128> = Vec::new();
    let mut i: usize = 0;
    while i < cs.len()
        invariant
            i <= cs@.len(),
            out@ == ref_offsets(cs@.take(i as int)),
        decreases cs@.len() - i,
    {
        out.push(cs[i].chunk_offset as u128);
        assert(ref_offsets(cs@.take(i + 1)) =~= ref_offsets(cs@.take(i as int)).push(cs@[i as int].chunk_offset as u128));
        i = i + 1;
    }
    assert(cs@.take(i as int) =~= cs@);
    out
}

/// The chunk offsets added and removed from version `v1` to version `v2` of
/// `key`, each listed once: refused when the shard's chain of the key lists
/// either version not, when the key has no entry, or when it has too few.
pub fn diff_versions(shard: &Shard, toc: &Toc, key: &str, v1: u32, v2: u32) -> (r: Result<VersionDiff, TpxError>)
    ensures
        ({
            let kb = key.spec_bytes();
            let es = toc.entries@;
            let ps = key_positions(es, kb, es.len() as int);
            if chain_ids(*shard, kb) matches Some(ids) && !ids.contains(v1) {
                r matches Err(TpxError::VersionNotFound { key: k, version: v }) && k@ == key@ && v == v1
            } else if chain_ids(*shard, kb) matches Some(ids) && !ids.contains(v2) {
                r matches Err(TpxError::VersionNotFound { key: k, version: v }) && k@ == key@ && v == v2
            } else if ps.len() == 0 {
                r matches Err(TpxError::KeyNotFound(k)) && k@ == key@
            } else if v1 >= ps.len() {
                r matches Err(TpxError::VersionNotFound { key: k, version: v }) && k@ == key@ && v == v1
            } else if v2 >= ps.len() {
                r matches Err(TpxError::VersionNotFound { key: k, version: v }) && k@ == key@ && v == v2
            } else {
                r matches Ok(d) && set_minus_ok(
                    d.added@,
                    ref_offsets(es[ps[v2 as int]].chunk_refs@),
                    ref_offsets(es[ps[v1 as int]].chunk_refs@),
                ) && set_minus_ok(
                    d.removed@,
                    ref_offsets(es[ps[v1 as int]].chunk_refs@),
                    ref_offsets(es[ps[v2 as int]].chunk_refs@),
                )
            }
        }),
{
    match shard.chain(key) {
        Some(vc) => {
            let ids = vc.list_versions();
            if !contains_u32(&ids, v1) {
                return Err(TpxError::VersionNotFound { key: key.to_string(), version: v1 });
            }
            if !contains_u32(&ids, v2) {
                return Err(TpxError::VersionNotFound { key: key.to_string(), version: v2 });
            }
        },
        None => {},
    }
    proof {
        lemma_positions_bound(toc.entries@, key.spec_bytes(), toc.entries@.len() as int);
    }
    if version_position(toc, key, 0).is_none() {
        return Err(TpxError::KeyNotFound(key.to_string()));
    }
    let p1 = match version_position(toc, key, v1) {
        Some(p) => p,
        None => return Err(TpxError::VersionNotFound { key: key.to_string(), version: v1 }),
    };
    let p2 = match version_position(toc, key, v2) {
        Some(p) => p,
        None => return Err(TpxError::VersionNotFound { key: key.to_string(), version: v2 }),
    };
    let ghost ps = key_positions(toc.entries@, key.spec_bytes(), toc.entries@.len() as int);
    proof {
        lemma_positions_bound(toc.entries@, key.spec_bytes(), toc.entries@.len() as int);
        assert(v1 < ps.len() && v2 < ps.len());
        assert(0 <= ps[v1 as int] < toc.entries.len());
        assert(0 <= ps[v2 as int] < toc.entries.len());
    }
    assert(p1 as int == ps[v1 as int]);
    assert(p2 as int == ps[v2 as int]);
    let h1 = offsets_of(&toc.entries[p1].chunk_refs);
    let h2 = offsets_of(&toc.entries[p2].chunk_refs);
    let added = difference(&h2, &h1);
    let removed = difference(&h1, &h2);
    Ok(VersionDiff { added, removed })
}


// ---------------------------------------------------------------------------
// Batched writes.

/// One encoded chunk of a tensor in a batch.
pub struct ProcessedChunk {
    pub content_hash: u128,
    pub chunk_bytes: Vec<u8>,
}

/// The encoded chunks of one tensor in a batch, and its shard.
pub struct ProcessedTensor {
    pub shard_id: u16,
    pub chunks: Vec<ProcessedChunk>,
}

/// Where a chunk of a batch ends up: a chunk already stored, or a place in
/// the batch's write buffer (its offset there and its length).
#[derive(Clone, Copy, Debug, PartialEq, Eq, Structural)]
pub enum Placement {
    Existing(ChunkRef),
    Buffered(usize, u32),
}

/// A new chunk waiting for the batch's write.
#[derive(Clone, Copy, Debug, PartialEq, Eq, Structural)]
pub struct PendingWrite {
    pub tensor_idx: usize,
    pub chunk_idx: usize,
    pub buffer_offset: usize,
    pub chunk_len: u32,
    pub content_hash: u128,
    pub shard_id: u16,
}

/// The decisions for a batch: the bytes of its new chunks, written in one
/// piece, the new chunks in order, and where each chunk ends up.
pub struct BatchPlan {
    pub buffer: Vec<u8>,
    pub pending: Vec<PendingWrite>,
    pub placements: Vec<Vec<Placement>>,
}

/// A chunk of a batch: tensor position, chunk position, shard, hash, bytes.
pub type BatchItem = (int, int, u16, u128, Seq<u8>);

/// The first `n` chunks of tensor `t`.
pub open spec fn tensor_items(t: int, pt: ProcessedTensor, n: int) -> Seq<BatchItem>
    decreases n,
{
    if n <= 0 {
        Seq::empty()
    } else {
        tensor_items(t, pt, n - 1).push(
            (t, n - 1, pt.shard_id, pt.chunks@[n - 1].content_hash, pt.chunks@[n - 1].chunk_bytes@),
        )
    }
}

/// The chunks of the first `n` tensors, tensor by tensor.
pub open spec fn batch_items(ts: Seq<ProcessedTensor>, n: int) -> Seq<BatchItem>
    decreases n,
{
    if n <= 0 {
        Seq::empty()
    } else {
        batch_items(ts, n - 1) + tensor_items(n - 1, ts[n - 1], ts[n - 1].chunks@.len() as int)
    }
}

/// Among the first `n` items, those whose hash is not in `known`.
pub open spec fn missing(items: Seq<BatchItem>, known: Set<u128>, n: int) -> Seq<BatchItem>
    decreases n,
{
    if n <= 0 {
        Seq::empty()
    } else {
        let r = missing(items, known, n - 1);
        if !known.contains(items[n - 1].3) {
            r.push(items[n - 1])
        } else {
            r
        }
    }
}

/// The bytes of the first `n` items, one after another.
pub open spec fn concat_bytes(items: Seq<BatchItem>, n: int) -> Seq<u8>
    decreases n,
{
    if n <= 0 {
        Seq::empty()
    } else {
        concat_bytes(items, n - 1) + items[n - 1].4
    }
}

/// The location of a stored chunk.
pub open spec fn entry_ref(e: ContentEntry) -> ChunkRef {
    ChunkRef { shard_id: e.shard_id, chunk_offset: e.chunk_offset, chunk_len: e.chunk_len }
}

/// What the plan decides for an item: the stored chunk of its hash, or the
/// place after the bytes of the new chunks before it.
pub open spec fn placement_of(items: Seq<BatchItem>, store: Map<u128, ContentEntry>, i: int) -> Placement {
    if store.contains_key(items[i].3) {
        Placement::Existing(entry_ref(store[items[i].3]))
    } else {
        Placement::Buffered(
            concat_bytes(missing(items, store.dom(), i), missing(items, store.dom(), i).len() as int).len() as usize,
            items[i].4.len() as u32,
        )
    }
}

proof fn lemma_tensor_items(t: int, pt: ProcessedTensor, n: int)
    requires
        0 <= n <= pt.chunks@.len(),
    ensures
        tensor_items(t, pt, n).len() == n,
        forall|c: int|
            0 <= c < n ==> #[trigger] tensor_items(t, pt, n)[c] == (
                t,
                c,
                pt.shard_id,
                pt.chunks@[c].content_hash,
                pt.chunks@[c].chunk_bytes@,
            ),
    decreases n,
{
    if n > 0 {
        lemma_tensor_items(t, pt, n - 1);
    }
}

proof fn lemma_missing_prefix(items: Seq<BatchItem>, known: Set<u128>, m: int, n: int)
    requires
        0 <= m <= n,
    ensures
        missing(items, known, m).len() <= missing(items, known, n).len(),
        forall|k: int| 0 <= k < missing(items, known, m).len() ==> #[trigger] missing(items, known, n)[k] == missing(items, known, m)[k],
    decreases n - m,
{
    if m < n {
        lemma_missing_prefix(items, known, m, n - 1);
    }
}

proof fn lemma_concat_prefix(items: Seq<BatchItem>, m: int, n: int)
    requires
        0 <= m <= n <= items.len(),
    ensures
        concat_bytes(items, m).len() <= concat_bytes(items, n).len(),
        concat_bytes(items, n).subrange(0, concat_bytes(items, m).len() as int) == concat_bytes(items, m),
    decreases n - m,
{
    if m < n {
        lemma_concat_prefix(items, m, n - 1);
        assert(concat_bytes(items, n).subrange(0, concat_bytes(items, n - 1).len() as int) =~= concat_bytes(items, n - 1));
        assert(concat_bytes(items, n).subrange(0, concat_bytes(items, m).len() as int) =~= concat_bytes(
            items,
            n - 1,
        ).subrange(0, concat_bytes(items, m).len() as int));
    } else {
        assert(concat_bytes(items, n).subrange(0, concat_bytes(items, n).len() as int) =~= concat_bytes(items, n));
    }
}

proof fn lemma_missing_same(a: Seq<BatchItem>, b: Seq<BatchItem>, known: Set<u128>, n: int)
    requires
        0 <= n <= a.len(),
        n <= b.len(),
        forall|j: int| 0 <= j < n ==> #[trigger] a[j] == b[j],
    ensures
        missing(a, known, n) == missing(b, known, n),
    decreases n,
{
    if n > 0 {
        lemma_missing_same(a, b, known, n - 1);
        assert(a[n - 1] == b[n - 1]);
    }
}

proof fn lemma_concat_same(a: Seq<BatchItem>, b: Seq<BatchItem>, k: int)
    requires
        0 <= k <= a.len(),
        k <= b.len(),
        forall|j: int| 0 <= j < k ==> #[trigger] a[j] == b[j],
    ensures
        concat_bytes(b, k) == concat_bytes(a, k),
    decreases k,
{
    if k > 0 {
        lemma_concat_same(a, b, k - 1);
        assert(a[k - 1] == b[k - 1]);
    }
}

proof fn lemma_placement_same(a: Seq<BatchItem>, b: Seq<BatchItem>, store: Map<u128, ContentEntry>, i: int)
    requires
        0 <= i < a.len() <= b.len(),
        forall|j: int| 0 <= j < a.len() ==> #[trigger] a[j] == b[j],
    ensures
        placement_of(a, store, i) == placement_of(b, store, i),
{
    lemma_missing_same(a, b, store.dom(), i);
    assert(a[i] == b[i]);
}

proof fn lemma_batch_items_len(ts: Seq<ProcessedTensor>, u: int)
    requires
        0 <= u < ts.len(),
    ensures
        batch_items(ts, u + 1).len() == batch_items(ts, u).len() + ts[u].chunks@.len(),
        batch_items(ts, u + 1) == batch_items(ts, u) + tensor_items(u, ts[u], ts[u].chunks@.len() as int),
{
    lemma_tensor_items(u, ts[u], ts[u].chunks@.len() as int);
}

proof fn lemma_batch_items_prefix(ts: Seq<ProcessedTensor>, m: int, n: int)
    requires
        0 <= m <= n <= ts.len(),
    ensures
        batch_items(ts, m).len() <= batch_items(ts, n).len(),
        forall|j: int| 0 <= j < batch_items(ts, m).len() ==> #[trigger] batch_items(ts, n)[j] == batch_items(ts, m)[j],
    decreases n - m,
{
    if m < n {
        lemma_batch_items_prefix(ts, m, n - 1);
        lemma_batch_items_len(ts, n - 1);
    }
}

/// Decides, chunk by chunk, whether a stored chunk with the same hash is
/// reused or the chunk is new; new chunks are laid end to end in one buffer.
/// Reads the store only: the hashes a batch adds become known after its
/// write, so two equal new chunks of one batch are both written.
pub fn plan_batch(store: &ContentStore, ts: &Vec<ProcessedTensor>) -> (r: BatchPlan)
    ensures
        ({
            let items = batch_items(ts@, ts@.len() as int);
            let miss = missing(items, store@.dom(), items.len() as int);
            &&& r.buffer@ == concat_bytes(miss, miss.len() as int)
            &&& r.pending@.len() == miss.len()
            &&& forall|k: int|
                0 <= k < miss.len() ==> {
                    let pw = #[trigger] r.pending@[k];
                    &&& pw.tensor_idx == miss[k].0
                    &&& pw.chunk_idx == miss[k].1
                    &&& pw.shard_id == miss[k].2
                    &&& pw.content_hash == miss[k].3
                    &&& pw.chunk_len == miss[k].4.len() as u32
                    &&& pw.buffer_offset == concat_bytes(miss, k).len()
                }
            &&& r.placements@.len() == ts@.len()
            &&& forall|t: int| 0 <= t < ts@.len() ==> (#[trigger] r.placements@[t])@.len() == ts@[t].chunks@.len()
            &&& forall|t: int, c: int|
                0 <= t < ts@.len() && 0 <= c < ts@[t].chunks@.len() ==> #[trigger] r.placements@[t]@[c] == placement_of(
                    items,
                    store@,
                    batch_items(ts@, t).len() + c,
                )
        }),
{
    let ghost known = store@.dom();
    let ghost all = batch_items(ts@, ts@.len() as int);
    let mut buffer: Vec<u8> = Vec::new();
    let mut pending: Vec<PendingWrite> = Vec::new();
    let mut placements: Vec<Vec<Placement>> = Vec::new();
    let mut t: usize = 0;
    while t < ts.len()
        invariant
            t <= ts@.len(),
            known == store@.dom(),
            all == batch_items(ts@, ts@.len() as int),
            ({
                let items = batch_items(ts@, t as int);
                let miss = missing(items, known, items.len() as int);
                &&& buffer@ == concat_bytes(miss, miss.len() as int)
                &&& pending@.len() == miss.len()
                &&& forall|k: int|
                    0 <= k < miss.len() ==> {
                        let pw = #[trigger] pending@[k];
                        &&& pw.tensor_idx == miss[k].0
                        &&& pw.chunk_idx == miss[k].1
                        &&& pw.shard_id == miss[k].2
                        &&& pw.content_hash == miss[k].3
                        &&& pw.chunk_len == miss[k].4.len() as u32
                        &&& pw.buffer_offset == concat_bytes(miss, k).len()
                    }
                &&& placements@.len() == t
                &&& forall|u: int| 0 <= u < t ==> (#[trigger] placements@[u])@.len() == ts@[u].chunks@.len()
                &&& forall|u: int, c: int|
                    0 <= u < t && 0 <= c < ts@[u].chunks@.len() ==> #[trigger] placements@[u]@[c] == placement_of(
                        items,
                        store@,
                        batch_items(ts@, u).len() + c,
                    )
            }),
        decreases ts@.len() - t,
    {
        let pt = &ts[t];
        let ghost before = batch_items(ts@, t as int);
        let mut row: Vec<Placement> = Vec::new();
        let mut c: usize = 0;
        proof {
            lemma_tensor_items(t as int, *pt, pt.chunks@.len() as int);
        }
        while c < pt.chunks.len()
            invariant
                t < ts@.len(),
                *pt == ts@[t as int],
                c <= pt.chunks@.len(),
                known == store@.dom(),
                before == batch_items(ts@, t as int),
                tensor_items(t as int, *pt, pt.chunks@.len() as int).len() == pt.chunks@.len(),
                forall|x: int|
                    0 <= x < pt.chunks@.len() ==> #[trigger] tensor_items(t as int, *pt, pt.chunks@.len() as int)[x] == (
                        t as int,
                        x,
                        pt.shard_id,
                        pt.chunks@[x].content_hash,
                        pt.chunks@[x].chunk_bytes@,
                    ),
                ({
                    let items = before + tensor_items(t as int, *pt, c as int);
                    let miss = missing(items, known, items.len() as int);
                    &&& buffer@ == concat_bytes(miss, miss.len() as int)
                    &&& pending@.len() == miss.len()
                    &&& forall|k: int|
                        0 <= k < miss.len() ==> {
                            let pw = #[trigger] pending@[k];
                            &&& pw.tensor_idx == miss[k].0
                            &&& pw.chunk_idx == miss[k].1
                            &&& pw.shard_id == miss[k].2
                            &&& pw.content_hash == miss[k].3
                            &&& pw.chunk_len == miss[k].4.len() as u32
                            &&& pw.buffer_offset == concat_bytes(miss, k).len()
                        }
                    &&& row@.len() == c
                    &&& forall|x: int| 0 <= x < c ==> #[trigger] row@[x] == placement_of(items, store@, before.len() + x)
                }),
            decreases pt.chunks@.len() - c,
        {
            let ghost items0 = before + tensor_items(t as int, *pt, c as int);
            let ghost items1 = before + tensor_items(t as int, *pt, c + 1);
            proof {
                lemma_tensor_items(t as int, *pt, c as int);
                lemma_tensor_items(t as int, *pt, c + 1);
                assert(items1 =~= items0.push(tensor_items(t as int, *pt, pt.chunks@.len() as int)[c as int]));
                assert(items1.drop_last() =~= items0);
                assert(missing(items1, known, items0.len() as int) =~= missing(items0, known, items0.len() as int)) by {
                    lemma_missing_same(items0, items1, known, items0.len() as int);
                }
            }
            let ch = &pt.chunks[c];
            match store.lookup(ch.content_hash) {
                Some(e) => {
                    row.push(Placement::Existing(ChunkRef { shard_id: e.shard_id, chunk_offset: e.chunk_offset, chunk_len: e.chunk_len }));
                },
                None => {
                    let off = buffer.len();
                    buffer.extend_from_slice(ch.chunk_bytes.as_slice());
                    pending.push(
                        PendingWrite {
                            tensor_idx: t,
                            chunk_idx: c,
                            buffer_offset: off,
                            chunk_len: ch.chunk_bytes.len() as u32,
                            content_hash: ch.content_hash,
                            shard_id: pt.shard_id,
                        },
                    );
                    row.push(Placement::Buffered(off, ch.chunk_bytes.len() as u32));
                },
            }
            proof {
                let miss0 = missing(items0, known, items0.len() as int);
                let miss1 = missing(items1, known, items1.len() as int);
                assert forall|x: int| 0 <= x < c + 1 implies #[trigger] row@[x] == placement_of(items1, store@, before.len() + x) by {
                    if x < c {
                        lemma_placement_same(items0, items1, store@, before.len() + x);
                    } else {
                        lemma_missing_same(items0, items1, known, items0.len() as int);
                    }
                }
                if store@.contains_key(ch.content_hash) {
                    assert(miss1 == miss0);
                } else {
                    assert(miss1 == miss0.push(items1[items0.len() as int]));
                    lemma_concat_same(miss0, miss1, miss0.len() as int);
                    assert(items1[items0.len() as int].4 == ch.chunk_bytes@);
                    assert(concat_bytes(miss1, miss1.len() as int) == concat_bytes(miss1, miss0.len() as int) + miss1[miss0.len() as int].4);
                    assert(concat_bytes(miss1, miss1.len() as int) =~= concat_bytes(miss0, miss0.len() as int) + ch.chunk_bytes@);
                    assert forall|k: int| 0 <= k < miss0.len() implies concat_bytes(miss1, k) == concat_bytes(miss0, k) by {
                        lemma_concat_same(miss0, miss1, k);
                    }
                }
            }
            c = c + 1;
        }
        placements.push(row);
        proof {
            let items_t = batch_items(ts@, t + 1);
            assert(items_t =~= before + tensor_items(t as int, *pt, pt.chunks@.len() as int));
            assert forall|u: int, x: int|
                0 <= u < t && 0 <= x < ts@[u].chunks@.len() implies #[trigger] placements@[u]@[x] == placement_of(
                items_t,
                store@,
                batch_items(ts@, u).len() + x,
            ) by {
                lemma_batch_items_prefix(ts@, u + 1, t as int);
                lemma_batch_items_len(ts@, u);
                lemma_tensor_items(u, ts@[u], ts@[u].chunks@.len() as int);
                lemma_placement_same(before, items_t, store@, batch_items(ts@, u).len() + x);
            }
        }
        t = t + 1;
    }
    BatchPlan { buffer, pending, placements }
}


/// Where a planned chunk is, once the buffer is written at `base`.
pub open spec fn resolved(p: Placement, shard_id: u16, base: u64) -> ChunkRef {
    match p {
        Placement::Existing(r) => r,
        Placement::Buffered(off, len) => ChunkRef { shard_id, chunk_offset: (base + off) as u64, chunk_len: len },
    }
}

/// The chunk locations of every tensor of a batch whose buffer was written
/// at `base`.
pub fn resolve_placements(placements: &Vec<Vec<Placement>>, ts: &Vec<ProcessedTensor>, base: u64) -> (r: Vec<Vec<ChunkRef>>)
    requires
        placements@.len() == ts@.len(),
        forall|t: int| 0 <= t < ts@.len() ==> (#[trigger] placements@[t])@.len() == ts@[t].chunks@.len(),
        forall|t: int, c: int|
            0 <= t < placements@.len() && 0 <= c < placements@[t]@.len() ==> (#[trigger] placements@[t]@[c] matches Placement::Buffered(
                off,
                _,
            ) ==> base + off <= u64::MAX),
    ensures
        r@.len() == ts@.len(),
        forall|t: int| 0 <= t < ts@.len() ==> (#[trigger] r@[t])@.len() == ts@[t].chunks@.len(),
        forall|t: int, c: int|
            0 <= t < ts@.len() && 0 <= c < ts@[t].chunks@.len() ==> #[trigger] r@[t]@[c] == resolved(
                placements@[t]@[c],
                ts@[t].shard_id,
                base,
            ),
{
    let mut out: Vec<Vec<ChunkRef>> = Vec::new();
    let mut t: usize = 0;
    while t < placements.len()
        invariant
            t <= placements@.len(),
            placements@.len() == ts@.len(),
            forall|u: int| 0 <= u < ts@.len() ==> (#[trigger] placements@[u])@.len() == ts@[u].chunks@.len(),
            forall|u: int, c: int|
                0 <= u < placements@.len() && 0 <= c < placements@[u]@.len() ==> (#[trigger] placements@[u]@[c] matches Placement::Buffered(
                    off,
                    _,
                ) ==> base + off <= u64::MAX),
            out@.len() == t,
            forall|u: int| 0 <= u < t ==> (#[trigger] out@[u])@.len() == ts@[u].chunks@.len(),
            forall|u: int, c: int|
                0 <= u < t && 0 <= c < ts@[u].chunks@.len() ==> #[trigger] out@[u]@[c] == resolved(
                    placements@[u]@[c],
                    ts@[u].shard_id,
                    base,
                ),
        decreases placements@.len() - t,
    {
        let row = &placements[t];
        let shard_id = ts[t].shard_id;
        let mut refs: Vec<ChunkRef> = Vec::new();
        let mut c: usize = 0;
        while c < row.len()
            invariant
                t < placements@.len(),
                *row == placements@[t as int],
                shard_id == ts@[t as int].shard_id,
                c <= row@.len(),
                forall|x: int| 0 <= x < row@.len() ==> (#[trigger] row@[x] matches Placement::Buffered(off, _) ==> base + off <= u64::MAX),
                refs@.len() == c,
                forall|x: int| 0 <= x < c ==> #[trigger] refs@[x] == resolved(row@[x], shard_id, base),
            decreases row@.len() - c,
        {
            let r = match row[c] {
                Placement::Existing(r) => r,
                Placement::Buffered(off, len) => ChunkRef { shard_id, chunk_offset: base + off as u64, chunk_len: len },
            };
            refs.push(r);
            c = c + 1;
        }
        out.push(refs);
        t = t + 1;
    }
    out
}

/// The store after the batch's new chunks are entered, each with one
/// reference, in order; a hash already entered keeps its first entry.
pub open spec fn registered(m: Map<u128, ContentEntry>, pending: Seq<PendingWrite>, base: u64, n: int) -> Map<u128, ContentEntry>
    decreases n,
{
    if n <= 0 {
        m
    } else {
        let m1 = registered(m, pending, base, n - 1);
        let pw = pending[n - 1];
        if m1.contains_key(pw.content_hash) {
            m1
        } else {
            m1.insert(
                pw.content_hash,
                ContentEntry {
                    shard_id: pw.shard_id,
                    chunk_offset: (base + pw.buffer_offset) as u64,
                    chunk_len: pw.chunk_len,
                    refcount: 1,
                },
            )
        }
    }
}

/// The deduplicating step of a write, for one segment: where the store
/// already holds a chunk with content hash `hash`, adds a reference to it
/// and returns where it lives; otherwise leaves the store as it is and
/// returns `None` (the segment must be encoded and written).
pub fn dedup_step(store: &mut ContentStore, hash: u128) -> (r: Option<ChunkRef>)
    ensures
        old(store)@.contains_key(hash) ==> ({
            let e = old(store)@[hash];
            &&& r == Some(entry_ref(e))
            &&& final(store)@ == old(store)@.insert(hash, ContentEntry { refcount: e.refcount.wrapping_add(1), ..e })
        }),
        !old(store)@.contains_key(hash) ==> r is None && final(store)@ == old(store)@,
{
    match store.lookup(hash) {
        Some(e) => {
            let _ = store.add_ref(hash);
            Some(ChunkRef { shard_id: e.shard_id, chunk_offset: e.chunk_offset, chunk_len: e.chunk_len })
        },
        None => None,
    }
}

/// Records a segment just written: its chunk, `len` bytes at `off` of shard
/// `shard`, enters the store under `hash` with one reference (unless the
/// store holds `hash` already), and the returned reference points at it.
pub fn record_written(store: &mut ContentStore, hash: u128, shard: u16, off: u64, len: u32) -> (r: ChunkRef)
    ensures
        r == (ChunkRef { shard_id: shard, chunk_offset: off, chunk_len: len }),
        final(store)@ == if old(store)@.contains_key(hash) {
            old(store)@
        } else {
            old(store)@.insert(hash, ContentEntry { shard_id: shard, chunk_offset: off, chunk_len: len, refcount: 1 })
        },
{
    let _ = store.insert(hash, ContentEntry::new(shard, off, len, 1));
    ChunkRef { shard_id: shard, chunk_offset: off, chunk_len: len }
}

/// Identical chunks are stored once: after the first copy of a segment is
/// recorded, the store holds its location with one reference, so the next
/// `dedup_step` for the same content hash returns that location and adds a
/// reference in place of a second copy.
pub proof fn lemma_identical_chunk_stored_once(s0: ContentStore, s1: ContentStore, hash: u128, shard: u16, off: u64, len: u32)
    requires
        !s0@.contains_key(hash),
        s1@ == (if s0@.contains_key(hash) {
            s0@
        } else {
            s0@.insert(hash, ContentEntry { shard_id: shard, chunk_offset: off, chunk_len: len, refcount: 1 })
        }),
    ensures
        s1@.contains_key(hash),
        entry_ref(s1@[hash]) == (ChunkRef { shard_id: shard, chunk_offset: off, chunk_len: len }),
        s1@[hash].refcount == 1,
{
}

/// The store after one more reference to `h`, where it holds `h`.
pub open spec fn with_ref(m: Map<u128, ContentEntry>, h: u128) -> Map<u128, ContentEntry> {
    if m.contains_key(h) {
        m.insert(h, ContentEntry { refcount: m[h].refcount.wrapping_add(1), ..m[h] })
    } else {
        m
    }
}

/// The store after one reference fewer to `h`, where it holds `h` (the
/// count wraps below zero, as `release` does).
pub open spec fn without_ref(m: Map<u128, ContentEntry>, h: u128) -> Map<u128, ContentEntry> {
    if m.contains_key(h) {
        m.insert(
            h,
            ContentEntry { refcount: if m[h].refcount == 0 { u32::MAX } else { (m[h].refcount - 1) as u32 }, ..m[h] },
        )
    } else {
        m
    }
}

/// The store after adding (`add`) or dropping a reference for each hash in
/// turn.
pub open spec fn refs_applied(m: Map<u128, ContentEntry>, hs: Seq<u128>, add: bool) -> Map<u128, ContentEntry>
    decreases hs.len(),
{
    if hs.len() == 0 {
        m
    } else {
        let before = refs_applied(m, hs.drop_last(), add);
        if add {
            with_ref(before, hs.last())
        } else {
            without_ref(before, hs.last())
        }
    }
}

/// Adds a reference for each hash in turn; a hash the store does not hold is
/// passed over.
pub fn add_refs(store: &mut ContentStore, hashes: &Vec<u128>)
    ensures
        final(store)@ == refs_applied(old(store)@, hashes@, true),
{
    let mut i: usize = 0;
    while i < hashes.len()
        invariant
            i <= hashes@.len(),
            store@ == refs_applied(old(store)@, hashes@.take(i as int), true),
        decreases hashes@.len() - i,
    {
        let _ = store.add_ref(hashes[i]);
        assert(hashes@.take(i + 1).drop_last() =~= hashes@.take(i as int));
        i = i + 1;
    }
    assert(hashes@.take(i as int) =~= hashes@);
}

/// Drops a reference for each hash in turn (the chunks a retention policy
/// evicted); a hash the store does not hold is passed over.
pub fn release_refs(store: &mut ContentStore, hashes: &Vec<u128>)
    ensures
        final(store)@ == refs_applied(old(store)@, hashes@, false),
{
    let mut i: usize = 0;
    while i < hashes.len()
        invariant
            i <= hashes@.len(),
            store@ == refs_applied(old(store)@, hashes@.take(i as int), false),
        decreases hashes@.len() - i,
    {
        let _ = store.release(hashes[i]);
        assert(hashes@.take(i + 1).drop_last() =~= hashes@.take(i as int));
        i = i + 1;
    }
    assert(hashes@.take(i as int) =~= hashes@);
}

/// The content hashes of the chunks of row `row` that a batch plan places on
/// a chunk already stored, among its first `c` chunks.
pub open spec fn existing_in_row(row: Seq<Placement>, chunks: Seq<ProcessedChunk>, c: int) -> Seq<u128>
    decreases c,
{
    if c <= 0 {
        Seq::empty()
    } else {
        let rest = existing_in_row(row, chunks, c - 1);
        if row[c - 1] is Existing && c - 1 < chunks.len() {
            rest.push(chunks[c - 1].content_hash)
        } else {
            rest
        }
    }
}

/// The content hashes of all the chunks a batch plan places on chunks
/// already stored, tensor by tensor, among the first `t` tensors.
pub open spec fn existing_hashes_of(pl: Seq<Vec<Placement>>, ts: Seq<ProcessedTensor>, t: int) -> Seq<u128>
    decreases t,
{
    if t <= 0 {
        Seq::empty()
    } else {
        existing_hashes_of(pl, ts, t - 1) + if t - 1 < ts.len() {
            existing_in_row(pl[t - 1]@, ts[t - 1].chunks@, pl[t - 1]@.len() as int)
        } else {
            Seq::empty()
        }
    }
}

/// The content hashes of the chunks a batch plan reuses: each of them gets
/// one more reference.
pub fn existing_hashes(placements: &Vec<Vec<Placement>>, ts: &Vec<ProcessedTensor>) -> (r: Vec<u128>)
    ensures
        r@ == existing_hashes_of(placements@, ts@, placements@.len() as int),
{
    let mut out: Vec<u128> = Vec::new();
    let mut t: usize = 0;
    while t < placements.len()
        invariant
            t <= placements@.len(),
            out@ == existing_hashes_of(placements@, ts@, t as int),
        decreases placements@.len() - t,
    {
        let row = &placements[t];
        let ghost before = out@;
        if t < ts.len() {
            let chunks = &ts[t].chunks;
            let mut c: usize = 0;
            while c < row.len()
                invariant
                    t < ts@.len(),
                    row@ == placements@[t as int]@,
                    chunks@ == ts@[t as int].chunks@,
                    c <= row@.len(),
                    out@ == before + existing_in_row(row@, chunks@, c as int),
                decreases row@.len() - c,
            {
                let is_existing = match row[c] {
                    Placement::Existing(_) => true,
                    Placement::Buffered(_, _) => false,
                };
                if is_existing && c < chunks.len() {
                    out.push(chunks[c].content_hash);
                }
                proof {
                    assert(out@ =~= before + existing_in_row(row@, chunks@, c + 1));
                }
                c = c + 1;
            }
        } else {
            assert(out@ =~= before + Seq::<u128>::empty());
        }
        t = t + 1;
    }
    out
}

/// What reopening does with bytes past the footer it recovered to: a file
/// opened for writing is cut back to end with that footer; a read-only one
/// is left as it is.
pub fn recovery_truncation(file_len: u64, footer_offset: u64, mode: OpenMode) -> (r: Option<u64>)
    ensures
        r == if footer_offset + 24 < file_len && mode != OpenMode::ReadOnly {
            Some((footer_offset + 24) as u64)
        } else {
            None::<u64>
        },
{
    if footer_offset < file_len && file_len - footer_offset > 24 && mode != OpenMode::ReadOnly {
        Some(footer_offset + 24)
    } else {
        None
    }
}

/// Enters the batch's new chunks, written at `base`, into the store.
pub fn register_pending(store: &mut ContentStore, pending: &Vec<PendingWrite>, base: u64)
    requires
        forall|k: int| 0 <= k < pending@.len() ==> base + (#[trigger] pending@[k]).buffer_offset <= u64::MAX,
    ensures
        final(store)@ == registered(old(store)@, pending@, base, pending@.len() as int),
{
    let mut k: usize = 0;
    while k < pending.len()
        invariant
            k <= pending@.len(),
            forall|j: int| 0 <= j < pending@.len() ==> base + (#[trigger] pending@[j]).buffer_offset <= u64::MAX,
            store@ == registered(old(store)@, pending@, base, k as int),
        decreases pending@.len() - k,
    {
        let pw = pending[k];
        let actual = base + pw.buffer_offset as u64;
        let _ = store.insert(pw.content_hash, ContentEntry::new(pw.shard_id, actual, pw.chunk_len, 1));
        k = k + 1;
    }
}

impl Shard {
    /// Records one tensor of a batched write: its first chunk goes into the
    /// key index and a new version without attributes into its chain; a new
    /// chain keeps only the latest version, an existing one keeps its
    /// retention. Returns the chunk hashes that retention evicts.
    pub fn record_batch_put(
        &mut self,
        key: &str,
        refs: &Vec<ChunkRef>,
        dtype: DTypeId,
        shape: Vec<u32>,
        hashes: Vec<u128>,
    ) -> (evicted: Vec<u128>)
        requires
            old(self).wf(),
            chain_room(old(self).version_chains@, key.spec_bytes()),
        ensures
            final(self).wf(),
            final(self).id == old(self).id,
            final(self).append_offset == old(self).append_offset,
            final(self).art@ == if refs@.len() > 0 {
                old(self).art@.insert(key.spec_bytes(), refs@[0])
            } else {
                old(self).art@
            },
            final(self).chunk_count == if refs@.len() > 0 {
                old(self).chunk_count.wrapping_add(refs@.len() as u64)
            } else {
                old(self).chunk_count
            },
            ({
                let kb = key.spec_bytes();
                let ocs = old(self).version_chains@;
                let ncs = final(self).version_chains@;
                let policy = match chain_index(ocs, kb) {
                    Some(i) => ocs[i].retention,
                    None => RetentionPolicy::KeepLatest,
                };
                &&& chain_index(ncs, kb) matches Some(j) && ncs[j].retention == policy && appended(
                    chain_versions(ocs, kb),
                    policy,
                    ncs[j].versions@,
                    evicted@,
                    dtype,
                    shape@,
                    Seq::empty(),
                    hashes@,
                )
                &&& match chain_index(ocs, kb) {
                    Some(i) => ncs.len() == ocs.len() && forall|t: int| 0 <= t < ocs.len() && t != i ==> #[trigger] ncs[t] == ocs[t],
                    None => ncs.len() == ocs.len() + 1 && forall|t: int| 0 <= t < ocs.len() ==> #[trigger] ncs[t] == ocs[t],
                }
            }),
    {
        if refs.len() > 0 {
            self.art.insert(key.as_bytes(), refs[0]);
            self.chunk_count = self.chunk_count.wrapping_add(refs.len() as u64);
        }
        let none: Vec<(String, AttrValue)> = Vec::new();
        self.append_version(key, None, RetentionPolicy::KeepLatest, dtype, shape, none, hashes)
    }
}


// ---------------------------------------------------------------------------
// Retention names.

/// The bytes of `keep_forever`.
pub open spec fn keep_forever_tag() -> Seq<u8> {
    seq![107u8, 101, 101, 112, 95, 102, 111, 114, 101, 118, 101, 114]
}

/// The bytes of `keep_last_n:`.
pub open spec fn keep_last_tag() -> Seq<u8> {
    seq![107u8, 101, 101, 112, 95, 108, 97, 115, 116, 95, 110, 58]
}

/// Every byte is an ASCII decimal digit.
pub open spec fn all_digits(d: Seq<u8>) -> bool {
    forall|i: int| 0 <= i < d.len() ==> 48 <= #[trigger] d[i] <= 57
}

/// The number the decimal digits `d` spell.
pub open spec fn digits_value(d: Seq<u8>) -> nat
    decreases d.len(),
{
    if d.len() == 0 {
        0
    } else {
        digits_value(d.drop_last()) * 10 + (d.last() - 48) as nat
    }
}

/// The digits of a number: what follows a leading `+`, if any.
pub open spec fn unsigned_digits(s: Seq<u8>) -> Seq<u8> {
    if s.len() > 0 && s[0] == 43 {
        s.subrange(1, s.len() as int)
    } else {
        s
    }
}

/// A `u32` written in decimal, with an optional leading `+`, as the standard
/// library parses it; `None` for anything else or a value out of range.
pub open spec fn parse_u32(s: Seq<u8>) -> Option<u32> {
    let d = unsigned_digits(s);
    if d.len() > 0 && all_digits(d) && digits_value(d) <= u32::MAX {
        Some(digits_value(d) as u32)
    } else {
        None
    }
}

/// The retention policy a name selects: `keep_forever`; `keep_last_n:`
/// followed by a count (1 where the count does not parse); anything else
/// keeps the latest version only.
pub open spec fn retention_named(s: Seq<u8>) -> RetentionPolicy {
    if s == keep_forever_tag() {
        RetentionPolicy::KeepForever
    } else if s.len() >= 12 && s.subrange(0, 12) == keep_last_tag() {
        RetentionPolicy::KeepLastN(
            match parse_u32(s.subrange(12, s.len() as int)) {
                Some(n) => n,
                None => 1,
            },
        )
    } else {
        RetentionPolicy::KeepLatest
    }
}

proof fn lemma_digits_prefix_le(d: Seq<u8>, k: int)
    requires
        0 <= k <= d.len(),
        all_digits(d),
    ensures
        digits_value(d.subrange(0, k)) <= digits_value(d),
    decreases d.len() - k,
{
    if k < d.len() {
        let d1 = d.subrange(0, k + 1);
        lemma_digits_prefix_le(d, k + 1);
        assert(d1.drop_last() =~= d.subrange(0, k));
        assert(48 <= d1.last() <= 57) by {
            assert(d1.last() == d[k]);
        }
    } else {
        assert(d.subrange(0, k) =~= d);
    }
}

fn parse_u32_bytes(s: &[u8]) -> (r: Option<u32>)
    ensures
        r == parse_u32(s@),
{
    let start: usize = if s.len() > 0 && s[0] == 43 { 1 } else { 0 };
    let ghost d = unsigned_digits(s@);
    proof {
        if start == 0 {
            assert(d =~= s@.subrange(0, s@.len() as int));
        }
    }
    if start == s.len() {
        return None;
    }
    let mut v: u64 = 0;
    let mut i: usize = start;
    while i < s.len()
        invariant
            start <= i <= s@.len(),
            d == unsigned_digits(s@),
            d == s@.subrange(start as int, s@.len() as int),
            all_digits(s@.subrange(start as int, i as int)),
            v == digits_value(s@.subrange(start as int, i as int)),
            v <= u32::MAX,
        decreases s@.len() - i,
    {
        let b = s[i];
        if b < 48 || b > 57 {
            proof {
                assert(d[i - start] == b);
                assert(!all_digits(d));
            }
            return None;
        }
        let ghost pre = s@.subrange(start as int, i as int);
        let ghost pre1 = s@.subrange(start as int, i + 1);
        proof {
            assert(pre1.drop_last() =~= pre);
            assert(pre1.last() == b);
            assert(all_digits(pre1));
            assert(digits_value(pre1) == digits_value(pre) * 10 + (b - 48) as nat);
        }
        v = v * 10 + (b - 48) as u64;
        if v > 0xFFFF_FFFF {
            proof {
                assert(digits_value(pre1) > u32::MAX);
                if all_digits(d) {
                    assert(pre1 =~= d.subrange(0, i + 1 - start));
                    lemma_digits_prefix_le(d, i + 1 - start);
                    assert(digits_value(d) > u32::MAX);
                }
            }
            return None;
        }
        i = i + 1;
    }
    proof {
        assert(s@.subrange(start as int, i as int) =~= d);
    }
    Some(v as u32)
}

fn keep_forever_bytes() -> (r: Vec<u8>)
    ensures
        r@ == keep_forever_tag(),
{
    let r = vec![107u8, 101, 101, 112, 95, 102, 111, 114, 101, 118, 101, 114];
    assert(r@ =~= keep_forever_tag());
    r
}

fn keep_last_bytes() -> (r: Vec<u8>)
    ensures
        r@ == keep_last_tag(),
{
    let r = vec![107u8, 101, 101, 112, 95, 108, 97, 115, 116, 95, 110, 58];
    assert(r@ =~= keep_last_tag());
    r
}

/// `_retention`: the attribute under which a write stores its retention
/// policy, so that a reopened archive applies it again.
pub open spec fn retention_tag() -> Seq<u8> {
    seq![95u8, 114, 101, 116, 101, 110, 116, 105, 111, 110]
}

/// The number a retention policy is stored as: -1 keeps every version, -2
/// the latest only, `n >= 0` the last `n`.
pub open spec fn retention_code(p: RetentionPolicy) -> i64 {
    match p {
        RetentionPolicy::KeepForever => -1i64,
        RetentionPolicy::KeepLatest => -2i64,
        RetentionPolicy::KeepLastN(n) => n as i64,
    }
}

/// The policy a stored number names; a number that names none keeps every
/// version.
pub open spec fn policy_of_code(c: i64) -> RetentionPolicy {
    if c == -2 {
        RetentionPolicy::KeepLatest
    } else if 0 <= c <= u32::MAX {
        RetentionPolicy::KeepLastN(c as u32)
    } else {
        RetentionPolicy::KeepForever
    }
}

/// The retention policy that stored attributes carry: the one the number
/// under the last `_retention` attribute names; keep-forever where there is
/// no such attribute or it holds no number.
pub open spec fn stored_retention_of(attrs: Seq<(String, AttrValue)>) -> RetentionPolicy
    decreases attrs.len(),
{
    if attrs.len() == 0 {
        RetentionPolicy::KeepForever
    } else if key_bytes(attrs.last().0) == retention_tag() {
        match attrs.last().1 {
            AttrValue::Int64(c) => policy_of_code(c),
            _ => RetentionPolicy::KeepForever,
        }
    } else {
        stored_retention_of(attrs.drop_last())
    }
}

/// The retention policy an attribute map carries.
pub open spec fn retention_in(m: Map<Seq<u8>, AttrModel>) -> RetentionPolicy {
    if m.contains_key(retention_tag()) {
        match m[retention_tag()] {
            AttrModel::Int(c) => policy_of_code(c),
            _ => RetentionPolicy::KeepForever,
        }
    } else {
        RetentionPolicy::KeepForever
    }
}

proof fn lemma_stored_retention_of_map(es: Seq<(String, AttrValue)>)
    ensures
        stored_retention_of(es) == retention_in(fold_insert(model_entries(es))),
    decreases es.len(),
{
    if es.len() > 0 {
        lemma_stored_retention_of_map(es.drop_last());
        assert(model_entries(es).drop_last() =~= model_entries(es.drop_last()));
        assert(model_entries(es).last() == (key_bytes(es.last().0), attr_model(es.last().1)));
    }
}

/// The retention policy a write records in its attributes is the one that
/// reopening reads back from the stored entry.
pub proof fn lemma_recorded_retention_read_back(a: Attrs, p: RetentionPolicy)
    requires
        a.view().contains_key(retention_tag()),
        a.view()[retention_tag()] == AttrModel::Int(retention_code(p)),
    ensures
        stored_retention_of(a.entries@) == p,
{
    lemma_stored_retention_of_map(a.entries@);
}

/// The retention policy stored in an entry's attributes.
pub fn stored_retention(attrs: &Vec<(String, AttrValue)>) -> (r: RetentionPolicy)
    ensures
        r == stored_retention_of(attrs@),
{
    let tag: [u8; 10] = [95u8, 114, 101, 116, 101, 110, 116, 105, 111, 110];
    assert(tag@ =~= retention_tag());
    let mut i: usize = attrs.len();
    assert(attrs@.take(i as int) =~= attrs@);
    while i > 0
        invariant
            i <= attrs@.len(),
            tag@ == retention_tag(),
            stored_retention_of(attrs@.take(i as int)) == stored_retention_of(attrs@),
        decreases i,
    {
        let ghost pre = attrs@.take(i as int);
        assert(pre.drop_last() =~= attrs@.take(i - 1));
        assert(pre.last() == attrs@[i - 1]);
        let (k, v) = &attrs[i - 1];
        if bytes_equal(k.as_str().as_bytes(), tag.as_slice()) {
            match v {
                AttrValue::Int64(c) => {
                    let c = *c;
                    if c == -2 {
                        return RetentionPolicy::KeepLatest;
                    } else if 0 <= c && c <= 0xFFFF_FFFF {
                        return RetentionPolicy::KeepLastN(c as u32);
                    } else {
                        return RetentionPolicy::KeepForever;
                    }
                },
                _ => {
                    return RetentionPolicy::KeepForever;
                },
            }
        }
        i = i - 1;
    }
    RetentionPolicy::KeepForever
}

/// Stores `policy` in `attrs` under `_retention`.
pub fn record_retention(attrs: &mut Attrs, policy: RetentionPolicy)
    requires
        old(attrs).wf(),
    ensures
        final(attrs).wf(),
        final(attrs).view() == old(attrs).view().insert(retention_tag(), AttrModel::Int(retention_code(policy))),
        policy_of_code(retention_code(policy)) == policy,
{
    let k = "_retention".to_string();
    proof {
        reveal_strlit("_retention");
    }
    let ks = k.as_str();
    proof {
        vstd::string::is_ascii_spec_bytes(ks);
    }
    assert(vstd::string::is_ascii(ks));
    assert(ks.spec_bytes() =~= retention_tag());
    let code: i64 = match policy {
        RetentionPolicy::KeepForever => -1,
        RetentionPolicy::KeepLatest => -2,
        RetentionPolicy::KeepLastN(n) => n as i64,
    };
    let _ = attrs.set(k, AttrValue::Int64(code));
}

/// The attributes without the `_retention` entries: what the user set.
pub open spec fn user_attrs_of(es: Seq<(String, AttrValue)>) -> Seq<(String, AttrValue)>
    decreases es.len(),
{
    if es.len() == 0 {
        Seq::empty()
    } else if key_bytes(es.last().0) == retention_tag() {
        user_attrs_of(es.drop_last())
    } else {
        user_attrs_of(es.drop_last()).push(es.last())
    }
}

/// The attributes a user set on an entry, in order: the stored retention
/// attribute left out.
pub fn user_attrs(attrs: Vec<(String, AttrValue)>) -> (r: Vec<(String, AttrValue)>)
    ensures
        r@ == user_attrs_of(attrs@),
{
    let ghost all = attrs@;
    let tag: [u8; 10] = [95u8, 114, 101, 116, 101, 110, 116, 105, 111, 110];
    assert(tag@ =~= retention_tag());
    let n = attrs.len();
    let mut rest = attrs;
    let mut out: Vec<(String, AttrValue)> = Vec::new();
    let mut k: usize = 0;
    assert(all.take(0) =~= Seq::<(String, AttrValue)>::empty());
    assert(all.skip(0) =~= all);
    while rest.len() > 0
        invariant
            n == all.len(),
            k <= all.len(),
            rest@ == all.skip(k as int),
            out@ == user_attrs_of(all.take(k as int)),
            tag@ == retention_tag(),
        decreases rest@.len(),
    {
        let e = rest.remove(0);
        assert(e == all[k as int]);
        assert(all.take(k + 1).drop_last() =~= all.take(k as int));
        assert(all.take(k + 1).last() == all[k as int]);
        assert(rest@ =~= all.skip(k + 1));
        if !bytes_equal(e.0.as_str().as_bytes(), tag.as_slice()) {
            out.push(e);
        }
        k = k + 1;
    }
    assert(all.take(k as int) =~= all);
    out
}

/// The retention policy that a write names.
pub fn parse_retention(retain: &str) -> (r: RetentionPolicy)
    ensures
        r == retention_named(retain.spec_bytes()),
{
    let s = retain.as_bytes();
    let forever = keep_forever_bytes();
    if bytes_equal(s, forever.as_slice()) {
        return RetentionPolicy::KeepForever;
    }
    let last = keep_last_bytes();
    if s.len() >= 12 && bytes_equal(vstd::slice::slice_subrange(s, 0, 12), last.as_slice()) {
        let n = match parse_u32_bytes(vstd::slice::slice_subrange(s, 12, s.len())) {
            Some(n) => n,
            None => 1,
        };
        return RetentionPolicy::KeepLastN(n);
    }
    RetentionPolicy::KeepLatest
}

} // verus!
