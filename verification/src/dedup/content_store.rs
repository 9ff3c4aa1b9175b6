//! The content-addressed chunk store: where each distinct chunk lives and
//! how many tensor versions refer to it.
use vstd::prelude::*;
use crate::types::TpxError;
use dashmap::DashMap;

verus! {

/// Where a stored chunk lives and how many references it has.
#[derive(Clone, Copy, Debug, PartialEq, Eq, Structural)]
pub struct ContentEntry {
    pub shard_id: u16,
    pub chunk_offset: u64,
    pub chunk_len: u32,
    pub refcount: u32,
}

impl ContentEntry {
    pub fn new(shard_id: u16, chunk_offset: u64, chunk_len: u32, initial_refcount: u32) -> (r: Self)
        ensures
            r == (ContentEntry { shard_id, chunk_offset, chunk_len, refcount: initial_refcount }),
    {
        ContentEntry { shard_id, chunk_offset, chunk_len, refcount: initial_refcount }
    }
}

#[verifier::external_type_specification]
#[verifier::external_body]
#[verifier::reject_recursive_types(K)]
#[verifier::reject_recursive_types(V)]
#[verifier::reject_recursive_types(S)]
pub struct ExDashMap<K, V, S>(DashMap<K, V, S>);

/// The entries a `DashMap` holds.
pub uninterp spec fn dash_entries(m: DashMap<u128, ContentEntry>) -> Map<u128, ContentEntry>;

/// Calls `DashMap::new`: a map with no entries.
#[verifier::external_body]
fn dash_new() -> (r: DashMap<u128, ContentEntry>)
    ensures
        dash_entries(r).dom() == Set::<u128>::empty(),
{
    DashMap::new()
}

/// Calls `DashMap::get` and copies the entry out: the entry stored under
/// `k`, if any.
#[verifier::external_body]
fn dash_get(m: &DashMap<u128, ContentEntry>, k: u128) -> (r: Option<ContentEntry>)
    ensures
        match r {
            Some(e) => dash_entries(*m).contains_key(k) && dash_entries(*m)[k] == e,
            None => !dash_entries(*m).contains_key(k),
        },
{
    m.get(&k).map(|e| *e.value())
}

/// Calls `DashMap::contains_key`: whether an entry is stored under `k`.
#[verifier::external_body]
fn dash_contains(m: &DashMap<u128, ContentEntry>, k: u128) -> (r: bool)
    ensures
        r == dash_entries(*m).contains_key(k),
{
    m.contains_key(&k)
}

/// Calls `DashMap::insert`: stores `v` under `k`, returning what was there.
#[verifier::external_body]
fn dash_insert(m: &mut DashMap<u128, ContentEntry>, k: u128, v: ContentEntry) -> (r: Option<ContentEntry>)
    ensures
        dash_entries(*final(m)) == dash_entries(*old(m)).insert(k, v),
        match r {
            Some(e) => dash_entries(*old(m)).contains_key(k) && dash_entries(*old(m))[k] == e,
            None => !dash_entries(*old(m)).contains_key(k),
        },
{
    m.insert(k, v)
}

/// Calls `DashMap::remove`: takes out the entry under `k`, if any.
#[verifier::external_body]
fn dash_remove(m: &mut DashMap<u128, ContentEntry>, k: u128) -> (r: Option<ContentEntry>)
    ensures
        dash_entries(*final(m)) == dash_entries(*old(m)).remove(k),
        match r {
            Some(e) => dash_entries(*old(m)).contains_key(k) && dash_entries(*old(m))[k] == e,
            None => !dash_entries(*old(m)).contains_key(k),
        },
{
    m.remove(&k).map(|(_, v)| v)
}

/// Calls `DashMap::len`: the number of entries.
#[verifier::external_body]
fn dash_len(m: &DashMap<u128, ContentEntry>) -> (r: usize)
    ensures
        r == dash_entries(*m).len(),
{
    m.len()
}

/// Calls `DashMap::iter`, copying each entry out: every entry once, in an
/// order the map does not fix.
#[verifier::external_body]
fn dash_items(m: &DashMap<u128, ContentEntry>) -> (r: Vec<(u128, ContentEntry)>)
    ensures
        forall|i: int, j: int| 0 <= i < j < r@.len() ==> #[trigger] r@[i].0 != #[trigger] r@[j].0,
        forall|i: int|
            0 <= i < r@.len() ==> dash_entries(*m).contains_key(#[trigger] r@[i].0) && dash_entries(*m)[r@[i].0]
                == r@[i].1,
        forall|k: u128| dash_entries(*m).contains_key(k) ==> exists|i: int| 0 <= i < r@.len() && #[trigger] r@[i].0 == k,
{
    m.iter().map(|e| (*e.key(), *e.value())).collect()
}

/// The error for a content hash the store does not hold.
fn missing(hash: u128) -> (r: TpxError)
    ensures
        r matches TpxError::KeyNotFound(_),
{
    TpxError::KeyNotFound(hash_text(hash))
}

/// Formats a content hash as 32 lower-case hexadecimal digits.
#[verifier::external_body]
fn hash_text(hash: u128) -> String {
    format!("Content hash {:032x}", hash)
}

/// Chunks by content hash.
pub struct ContentStore {
    shards: DashMap<u128, ContentEntry>,
}

impl ContentStore {
    /// The stored entries by content hash.
    pub closed spec fn view(&self) -> Map<u128, ContentEntry> {
        dash_entries(self.shards)
    }

    pub fn new() -> (r: Self)
        ensures
            r@ == Map::<u128, ContentEntry>::empty(),
    {
        let r = ContentStore { shards: dash_new() };
        assert(r@ =~= Map::<u128, ContentEntry>::empty());
        r
    }

    /// The entry of `hash`, if stored.
    pub fn lookup(&self, hash: u128) -> (r: Option<ContentEntry>)
        ensures
            r == (if self@.contains_key(hash) { Some(self@[hash]) } else { None::<ContentEntry> }),
    {
        dash_get(&self.shards, hash)
    }

    /// Stores `entry` under `hash` unless something is stored there already.
    pub fn insert(&mut self, hash: u128, entry: ContentEntry) -> (r: bool)
        ensures
            r == !old(self)@.contains_key(hash),
            final(self)@ == if r { old(self)@.insert(hash, entry) } else { old(self)@ },
    {
        if dash_contains(&self.shards, hash) {
            return false;
        }
        let _ = dash_insert(&mut self.shards, hash, entry);
        true
    }

    /// Adds a reference to a stored chunk; returns the new count. The count
    /// wraps past its top, as an atomic counter's increment does.
    pub fn add_ref(&mut self, hash: u128) -> (r: Result<u32, TpxError>)
        ensures
            old(self)@.contains_key(hash) ==> ({
                let e = old(self)@[hash];
                &&& r == Ok::<u32, TpxError>(e.refcount.wrapping_add(1))
                &&& final(self)@ == old(self)@.insert(hash, ContentEntry { refcount: e.refcount.wrapping_add(1), ..e })
            }),
            !old(self)@.contains_key(hash) ==> (r matches Err(TpxError::KeyNotFound(_))) && final(self)@ == old(self)@,
    {
        match dash_get(&self.shards, hash) {
            Some(e) => {
                let count = e.refcount.wrapping_add(1);
                let _ = dash_insert(&mut self.shards, hash, ContentEntry { refcount: count, ..e });
                Ok(count)
            },
            None => Err(missing(hash)),
        }
    }

    /// Drops a reference to a stored chunk; returns the new count, which
    /// does not go below zero. The stored count wraps below zero.
    pub fn release(&mut self, hash: u128) -> (r: Result<u32, TpxError>)
        ensures
            old(self)@.contains_key(hash) ==> ({
                let e = old(self)@[hash];
                &&& r == Ok::<u32, TpxError>(if e.refcount == 0 { 0 } else { (e.refcount - 1) as u32 })
                &&& final(self)@ == old(self)@.insert(
                    hash,
                    ContentEntry { refcount: if e.refcount == 0 { u32::MAX } else { (e.refcount - 1) as u32 }, ..e },
                )
            }),
            !old(self)@.contains_key(hash) ==> (r matches Err(TpxError::KeyNotFound(_))) && final(self)@ == old(self)@,
    {
        match dash_get(&self.shards, hash) {
            Some(e) => {
                let stored = e.refcount.wrapping_sub(1);
                let _ = dash_insert(&mut self.shards, hash, ContentEntry { refcount: stored, ..e });
                let count = if e.refcount == 0 { 0 } else { e.refcount - 1 };
                Ok(count)
            },
            None => Err(missing(hash)),
        }
    }

    /// The stored chunks that no reference holds, each once.
    pub fn gc_candidates(&self) -> (r: Vec<(u128, ContentEntry)>)
        ensures
            forall|i: int, j: int| 0 <= i < j < r@.len() ==> #[trigger] r@[i].0 != #[trigger] r@[j].0,
            forall|i: int|
                0 <= i < r@.len() ==> self@.contains_key(#[trigger] r@[i].0) && self@[r@[i].0] == r@[i].1
                    && r@[i].1.refcount == 0,
            forall|k: u128|
                self@.contains_key(k) && self@[k].refcount == 0 ==> exists|i: int| 0 <= i < r@.len() && #[trigger] r@[i].0 == k,
    {
        let items = dash_items(&self.shards);
        let mut out: Vec<(u128, ContentEntry)> = Vec::new();
        let ghost mut pos: Seq<int> = Seq::empty();
        let mut i: usize = 0;
        while i < items.len()
            invariant
                i <= items@.len(),
                pos.len() == out@.len(),
                forall|t: int| 0 <= t < pos.len() ==> 0 <= #[trigger] pos[t] < i && out@[t] == items@[pos[t]],
                forall|s: int, t: int| 0 <= s < t < pos.len() ==> #[trigger] pos[s] < #[trigger] pos[t],
                forall|a: int| 0 <= a < i && (#[trigger] items@[a]).1.refcount == 0 ==> pos.contains(a),
                forall|t: int| 0 <= t < out@.len() ==> (#[trigger] out@[t]).1.refcount == 0,
            decreases items@.len() - i,
        {
            let item = items[i];
            if item.1.refcount == 0 {
                out.push(item);
                proof {
                    let old_pos = pos;
                    pos = pos.push(i as int);
                    assert forall|a: int| 0 <= a < i + 1 && (#[trigger] items@[a]).1.refcount == 0 implies pos.contains(a) by {
                        if a == i {
                            assert(pos[pos.len() - 1] == a);
                        } else {
                            assert(old_pos.contains(a));
                            let t = choose|t: int| 0 <= t < old_pos.len() && old_pos[t] == a;
                            assert(pos[t] == a);
                        }
                    }
                }
            }
            i = i + 1;
        }
        proof {
            assert forall|s: int, t: int| 0 <= s < t < out@.len() implies #[trigger] out@[s].0 != #[trigger] out@[t].0 by {
                assert(pos[s] < pos[t]);
                assert(items@[pos[s]].0 != items@[pos[t]].0);
            }
            assert forall|k: u128| dash_entries(self.shards).contains_key(k) && dash_entries(self.shards)[k].refcount == 0
                implies exists|t: int| 0 <= t < out@.len() && #[trigger] out@[t].0 == k by {
                let a = choose|a: int| 0 <= a < items@.len() && #[trigger] items@[a].0 == k;
                assert(items@[a].1.refcount == 0);
                assert(pos.contains(a));
                let t = choose|t: int| 0 <= t < pos.len() && pos[t] == a;
                assert(out@[t].0 == k);
            }
            assert forall|t: int| 0 <= t < out@.len() implies dash_entries(self.shards).contains_key(#[trigger] out@[t].0)
                && dash_entries(self.shards)[out@[t].0] == out@[t].1 by {
                assert(out@[t] == items@[pos[t]]);
            }
        }
        out
    }

    /// Takes out the entry of `hash`.
    pub fn remove(&mut self, hash: u128) -> (r: Option<ContentEntry>)
        ensures
            final(self)@ == old(self)@.remove(hash),
            r == (if old(self)@.contains_key(hash) { Some(old(self)@[hash]) } else { None::<ContentEntry> }),
    {
        dash_remove(&mut self.shards, hash)
    }

    pub fn len(&self) -> (r: usize)
        ensures
            r == self@.len(),
    {
        dash_len(&self.shards)
    }

    pub fn is_empty(&self) -> (r: bool)
        ensures
            r == (self@.len() == 0),
    {
        dash_len(&self.shards) == 0
    }
}

impl Default for ContentStore {
    fn default() -> (r: Self)
        ensures
            r@ == Map::<u128, ContentEntry>::empty(),
    {
        ContentStore::new()
    }
}


/// Releasing a reference right after adding it gives the store back as it
/// was.
pub proof fn lemma_release_undoes_add_ref(c0: ContentStore, c1: ContentStore, c2: ContentStore, hash: u128)
    requires
        c0@.contains_key(hash),
        c1@ == c0@.insert(hash, ContentEntry { refcount: c0@[hash].refcount.wrapping_add(1), ..c0@[hash] }),
        c2@ == c1@.insert(
            hash,
            ContentEntry {
                refcount: if c1@[hash].refcount == 0 { u32::MAX } else { (c1@[hash].refcount - 1) as u32 },
                ..c1@[hash]
            },
        ),
    ensures
        c2@ == c0@,
{
    assert(c2@ =~= c0@);
}

} // verus!
