//! Per-key version chains with retention policies and structural diffs.
use vstd::prelude::*;
use crate::types::{DTypeId, TpxError};
use crate::attrs::AttrValue;

verus! {

#[derive(Clone, Copy, Debug, PartialEq, Eq, Structural)]
pub enum RetentionPolicy {
    KeepLatest,
    KeepLastN(u32),
    KeepForever,
}

impl RetentionPolicy {
    pub fn default() -> (r: Self)
        ensures
            r == RetentionPolicy::KeepLatest,
    {
        RetentionPolicy::KeepLatest
    }
}

#[verifier::external_type_specification]
#[verifier::external_body]
pub struct ExSystemTime(std::time::SystemTime);

#[verifier::external_type_specification]
#[verifier::external_body]
pub struct ExSystemTimeError(std::time::SystemTimeError);

/// Calls `std::time::SystemTime::now`; the clock reading is not described.
#[verifier::external_body]
fn system_now() -> std::time::SystemTime {
    std::time::SystemTime::now()
}

/// Calls `SystemTime::duration_since` with the Unix epoch; nothing is claimed of the result.
#[verifier::external_body]
fn since_unix_epoch(t: &std::time::SystemTime) -> Result<std::time::Duration, std::time::SystemTimeError> {
    t.duration_since(std::time::UNIX_EPOCH)
}

/// Calls `Duration::as_secs`; nothing is claimed of the result.
#[verifier::external_body]
fn duration_secs(d: &std::time::Duration) -> u64 {
    d.as_secs()
}

/// Seconds since the Unix epoch, 0 when the clock reads earlier.
fn unix_timestamp() -> u64 {
    let now = system_now();
    match since_unix_epoch(&now) {
        Ok(d) => duration_secs(&d),
        Err(_) => 0,
    }
}

#[derive(Clone, Debug, PartialEq)]
pub struct VersionEntry {
    pub version_id: u32,
    pub timestamp: u64,
    pub dtype_id: DTypeId,
    pub shape: Vec<u32>,
    pub attrs: Vec<(String, AttrValue)>,
    pub chunk_refs: Vec<u128>,
}

impl VersionEntry {
    /// A new entry stamped with the current time.
    pub fn new(
        version_id: u32,
        dtype_id: DTypeId,
        shape: Vec<u32>,
        attrs: Vec<(String, AttrValue)>,
        chunk_refs: Vec<u128>,
    ) -> (r: Self)
        ensures
            r.version_id == version_id,
            r.dtype_id == dtype_id,
            r.shape@ == shape@,
            r.attrs@ == attrs@,
            r.chunk_refs@ == chunk_refs@,
    {
        let timestamp = unix_timestamp();
        Self { version_id, timestamp, dtype_id, shape, attrs, chunk_refs }
    }
}

#[derive(Clone, Debug)]
pub struct VersionDiff {
    pub added: Vec<u128>,
    pub removed: Vec<u128>,
}

#[derive(Clone, Debug)]
pub struct VersionChain {
    pub key: String,
    pub versions: Vec<VersionEntry>,
    pub retention: RetentionPolicy,
}

pub open spec fn version_ids(vs: Seq<VersionEntry>) -> Seq<u32> {
    vs.map_values(|e: VersionEntry| e.version_id)
}

/// How many versions a policy keeps, if it bounds them.
pub open spec fn retention_limit(p: RetentionPolicy) -> Option<nat> {
    match p {
        RetentionPolicy::KeepLatest => Some(1),
        RetentionPolicy::KeepLastN(n) => Some(if n >= 1 { n as nat } else { 1 }),
        RetentionPolicy::KeepForever => None,
    }
}

/// Number of the oldest versions that retention drops from `len` versions.
pub open spec fn evict_count(p: RetentionPolicy, len: nat) -> nat {
    match retention_limit(p) {
        Some(limit) => if len > limit { (len - limit) as nat } else { 0 },
        None => 0,
    }
}

/// The chunk hashes of the entries, in order.
pub open spec fn all_refs(vs: Seq<VersionEntry>) -> Seq<u128>
    decreases vs.len(),
{
    if vs.len() == 0 {
        Seq::empty()
    } else {
        all_refs(vs.drop_last()) + vs.last().chunk_refs@
    }
}

/// The id the next appended version gets.
pub open spec fn next_version_id(vs: Seq<VersionEntry>) -> int {
    if vs.len() == 0 { 0 } else { vs.last().version_id + 1 }
}

/// Version ids increase by one from entry to entry.
pub open spec fn consecutive_ids(vs: Seq<VersionEntry>) -> bool {
    forall|i: int| 0 <= i < vs.len() - 1 ==> #[trigger] vs[i + 1].version_id == vs[i].version_id + 1
}

/// `i` is the position of the first entry with id `v`.
pub open spec fn is_first_index(vs: Seq<VersionEntry>, v: u32, i: int) -> bool {
    &&& 0 <= i < vs.len()
    &&& vs[i].version_id == v
    &&& forall|j: int| 0 <= j < i ==> #[trigger] vs[j].version_id != v
}

/// The position of the first entry with id `v`, where one has it.
pub open spec fn first_index(vs: Seq<VersionEntry>, v: u32) -> int {
    choose|i: int| is_first_index(vs, v, i)
}

proof fn lemma_first_index_unique(vs: Seq<VersionEntry>, v: u32, i: int)
    requires
        is_first_index(vs, v, i),
    ensures
        first_index(vs, v) == i,
{
    let k = first_index(vs, v);
    assert(is_first_index(vs, v, k));
    if k < i {
        assert(vs[k].version_id != v);
    } else if i < k {
        assert(vs[i].version_id != v);
    }
}

/// The elements of `b` that are not in `a`, each once.
pub open spec fn set_minus_ok(r: Seq<u128>, b: Seq<u128>, a: Seq<u128>) -> bool {
    &&& r.no_duplicates()
    &&& forall|x: u128| r.contains(x) <==> (b.contains(x) && !a.contains(x))
}

fn contains_u128(s: &Vec<u128>, x: u128) -> (r: bool)
    ensures
        r == s@.contains(x),
{
    let mut i: usize = 0;
    while i < s.len()
        invariant
            i <= s@.len(),
            forall|j: int| 0 <= j < i ==> s@[j] != x,
        decreases s@.len() - i,
    {
        if s[i] == x {
            return true;
        }
        i = i + 1;
    }
    false
}

/// The elements of `b` not in `a`, without repeats, in order of first appearance in `b`.
pub(crate) fn difference(b: &Vec<u128>, a: &Vec<u128>) -> (r: Vec<u128>)
    ensures
        set_minus_ok(r@, b@, a@),
{
    let mut out: Vec<u128> = Vec::new();
    let mut i: usize = 0;
    while i < b.len()
        invariant
            i <= b@.len(),
            out@.no_duplicates(),
            forall|x: u128| out@.contains(x) <==> (b@.take(i as int).contains(x) && !a@.contains(x)),
        decreases b@.len() - i,
    {
        let x = b[i];
        let ghost prev = out@;
        proof {
            assert(b@.take(i + 1) =~= b@.take(i as int).push(x));
            assert forall|y: u128| #[trigger] b@.take(i + 1).contains(y) <==> (y == x || b@.take(i as int).contains(y)) by {
                vstd::seq_lib::lemma_seq_contains_after_push(b@.take(i as int), x, y);
            }
        }
        if !contains_u128(a, x) && !contains_u128(&out, x) {
            out.push(x);
            proof {
                assert forall|y: u128| #[trigger] out@.contains(y) <==> (y == x || prev.contains(y)) by {
                    vstd::seq_lib::lemma_seq_contains_after_push(prev, x, y);
                }
            }
        }
        i = i + 1;
    }
    assert(b@.take(i as int) =~= b@);
    out
}

impl VersionChain {
    pub fn new(key: &str, retention: RetentionPolicy) -> (r: Self)
        ensures
            r.key@ == key@,
            r.versions@.len() == 0,
            r.retention == retention,
    {
        Self { key: key.to_string(), versions: Vec::new(), retention }
    }

    pub fn latest(&self) -> (r: Option<&VersionEntry>)
        ensures
            self.versions@.len() == 0 ==> r is None,
            self.versions@.len() > 0 ==> r == Some(&self.versions@.last()),
    {
        if self.versions.len() == 0 {
            None
        } else {
            Some(&self.versions[self.versions.len() - 1])
        }
    }

    pub fn get_version(&self, version: u32) -> (r: Option<&VersionEntry>)
        ensures
            r is None <==> !version_ids(self.versions@).contains(version),
            r matches Some(e) ==> *e == self.versions@[first_index(self.versions@, version)],
    {
        let mut i: usize = 0;
        while i < self.versions.len()
            invariant
                i <= self.versions@.len(),
                forall|j: int| 0 <= j < i ==> #[trigger] self.versions@[j].version_id != version,
            decreases self.versions@.len() - i,
        {
            if self.versions[i].version_id == version {
                assert(version_ids(self.versions@)[i as int] == version);
                proof {
                    lemma_first_index_unique(self.versions@, version, i as int);
                }
                return Some(&self.versions[i]);
            }
            i = i + 1;
        }
        assert(!version_ids(self.versions@).contains(version)) by {
            if version_ids(self.versions@).contains(version) {
                let t = choose|t: int| 0 <= t < version_ids(self.versions@).len() && version_ids(self.versions@)[t] == version;
                assert(self.versions@[t].version_id == version);
            }
        }
        None
    }

    pub fn list_versions(&self) -> (r: Vec<u32>)
        ensures
            r@ == version_ids(self.versions@),
    {
        let mut out: Vec<u32> = Vec::new();
        let mut i: usize = 0;
        while i < self.versions.len()
            invariant
                i <= self.versions@.len(),
                out@ == version_ids(self.versions@.take(i as int)),
            decreases self.versions@.len() - i,
        {
            out.push(self.versions[i].version_id);
            assert(version_ids(self.versions@.take(i + 1)) =~= version_ids(self.versions@.take(i as int)).push(self.versions@[i as int].version_id));
            i = i + 1;
        }
        assert(self.versions@.take(i as int) =~= self.versions@);
        out
    }

    /// Appends a new version and applies the retention policy. Returns the
    /// new version's id and the chunk hashes of the evicted versions.
    pub fn append(
        &mut self,
        dtype_id: DTypeId,
        shape: Vec<u32>,
        attrs: Vec<(String, AttrValue)>,
        chunk_refs: Vec<u128>,
    ) -> (r: (u32, Vec<u128>))
        requires
            old(self).versions@.len() == 0 || old(self).versions@.last().version_id < u32::MAX,
        ensures
            ({
                let olds = old(self).versions@;
                let k = evict_count(old(self).retention, olds.len() + 1);
                let news = final(self).versions@;
                &&& r.0 == next_version_id(olds)
                &&& news.len() == olds.len() + 1 - k
                &&& forall|i: int| 0 <= i < olds.len() - k ==> #[trigger] news[i] == olds[i + k]
                &&& news.last().version_id == r.0
                &&& news.last().dtype_id == dtype_id
                &&& news.last().shape@ == shape@
                &&& news.last().attrs@ == attrs@
                &&& news.last().chunk_refs@ == chunk_refs@
                &&& r.1@ == all_refs(olds.take(k as int))
            }),
            final(self).key == old(self).key,
            final(self).retention == old(self).retention,
    {
        let next_version_id: u32 = if self.versions.len() == 0 {
            0
        } else {
            self.versions[self.versions.len() - 1].version_id + 1
        };
        let entry = VersionEntry::new(next_version_id, dtype_id, shape, attrs, chunk_refs);
        let ghost olds = self.versions@;
        self.versions.push(entry);
        let evicted = self.apply_retention();
        proof {
            let k = evict_count(self.retention, olds.len() + 1);
            if k > 0 {
                assert(olds.push(entry).take(k as int) =~= olds.take(k as int));
            }
        }
        (next_version_id, evicted)
    }

    fn apply_retention(&mut self) -> (r: Vec<u128>)
        ensures
            ({
                let k = evict_count(old(self).retention, old(self).versions@.len());
                &&& final(self).versions@ == old(self).versions@.skip(k as int)
                &&& r@ == all_refs(old(self).versions@.take(k as int))
            }),
            final(self).key == old(self).key,
            final(self).retention == old(self).retention,
    {
        let len = self.versions.len();
        let to_remove: usize = match self.retention {
            RetentionPolicy::KeepLatest => if len > 1 { len - 1 } else { 0 },
            RetentionPolicy::KeepLastN(n) => {
                let limit: usize = if n >= 1 { n as usize } else { 1 };
                if len > limit { len - limit } else { 0 }
            },
            RetentionPolicy::KeepForever => 0,
        };
        let mut evicted: Vec<u128> = Vec::new();
        if to_remove == 0 {
            assert(self.versions@.skip(0) =~= self.versions@);
            assert(all_refs(self.versions@.take(0)) =~= Seq::<u128>::empty());
            return evicted;
        }
        let mut removed = self.versions.split_off(to_remove);
        std::mem::swap(&mut removed, &mut self.versions);
        let mut i: usize = 0;
        while i < removed.len()
            invariant
                i <= removed@.len(),
                evicted@ == all_refs(removed@.take(i as int)),
            decreases removed@.len() - i,
        {
            evicted.extend_from_slice(removed[i].chunk_refs.as_slice());
            assert(removed@.take(i + 1).drop_last() =~= removed@.take(i as int));
            assert(evicted@ =~= all_refs(removed@.take(i as int)) + removed@[i as int].chunk_refs@);
            i = i + 1;
        }
        assert(removed@.take(i as int) =~= removed@);
        evicted
    }

    /// The chunk hashes added and removed from version `v1` to version `v2`.
    pub fn diff(&self, v1: u32, v2: u32) -> (r: Result<VersionDiff, TpxError>)
        ensures
            !version_ids(self.versions@).contains(v1) ==> (r matches Err(TpxError::VersionNotFound { key, version })
                && key@ == self.key@ && version == v1),
            version_ids(self.versions@).contains(v1) && !version_ids(self.versions@).contains(v2) ==> (r matches Err(
                TpxError::VersionNotFound { key, version },
            ) && key@ == self.key@ && version == v2),
            version_ids(self.versions@).contains(v1) && version_ids(self.versions@).contains(v2) ==> (r matches Ok(d)
                && set_minus_ok(
                d.added@,
                self.versions@[first_index(self.versions@, v2)].chunk_refs@,
                self.versions@[first_index(self.versions@, v1)].chunk_refs@,
            ) && set_minus_ok(
                d.removed@,
                self.versions@[first_index(self.versions@, v1)].chunk_refs@,
                self.versions@[first_index(self.versions@, v2)].chunk_refs@,
            )),
    {
        let e1 = match self.get_version(v1) {
            Some(e) => e,
            None => return Err(TpxError::VersionNotFound { key: self.key.clone(), version: v1 }),
        };
        let e2 = match self.get_version(v2) {
            Some(e) => e,
            None => return Err(TpxError::VersionNotFound { key: self.key.clone(), version: v2 }),
        };
        let added = difference(&e2.chunk_refs, &e1.chunk_refs);
        let removed = difference(&e1.chunk_refs, &e2.chunk_refs);
        let d = VersionDiff { added, removed };
        Ok(d)
    }
}

/// Appending keeps version ids consecutive, and the appended version is the
/// latest one.
pub proof fn lemma_append_keeps_ids_consecutive(olds: Seq<VersionEntry>, news: Seq<VersionEntry>, k: nat, id: u32)
    requires
        consecutive_ids(olds),
        id == next_version_id(olds),
        k <= olds.len() + 1,
        news.len() == olds.len() + 1 - k,
        forall|i: int| 0 <= i < olds.len() - k ==> #[trigger] news[i] == olds[i + k],
        news.last().version_id == id,
    ensures
        consecutive_ids(news),
        news.last().version_id == id,
{
    assert forall|i: int| 0 <= i < news.len() - 1 implies #[trigger] news[i + 1].version_id == news[i].version_id + 1 by {
        assert(news[i] == olds[i + k]);
        if i + 1 < news.len() - 1 {
            assert(news[i + 1] == olds[i + 1 + k]);
            assert(olds[(i + k) + 1].version_id == olds[i + k].version_id + 1);
        } else {
            assert(i + k == olds.len() - 1);
        }
    }
}


/// After an append, a chain holds at least the new version and no more
/// versions than its policy keeps.
pub proof fn lemma_retention_bound(olds: Seq<VersionEntry>, policy: RetentionPolicy, new_len: nat)
    requires
        new_len == olds.len() + 1 - evict_count(policy, olds.len() + 1),
    ensures
        new_len >= 1,
        retention_limit(policy) matches Some(limit) ==> new_len <= limit,
{
}

/// Keep-forever never evicts: an append under it keeps every old version in
/// place, adds the new one at the end and releases no chunk.
pub proof fn lemma_keep_forever_keeps_all(
    olds: Seq<VersionEntry>,
    news: Seq<VersionEntry>,
    evicted: Seq<u128>,
)
    requires
        ({
            let k = evict_count(RetentionPolicy::KeepForever, olds.len() + 1);
            &&& news.len() == olds.len() + 1 - k
            &&& forall|i: int| 0 <= i < olds.len() - k ==> #[trigger] news[i] == olds[i + k]
            &&& evicted == all_refs(olds.take(k as int))
        }),
    ensures
        news.len() == olds.len() + 1,
        forall|i: int| 0 <= i < olds.len() ==> #[trigger] news[i] == olds[i],
        evicted.len() == 0,
{
    assert(olds.take(0) =~= Seq::<VersionEntry>::empty());
}

/// Keep-last-n keeps the newest versions: an append under `KeepLastN(n)`
/// (or keep-latest, `n` = 1) leaves the last `max(n, 1)` of the old versions
/// and the new one, that is, at most `max(n, 1)` versions, dropping only the
/// oldest.
pub proof fn lemma_keep_last_keeps_newest(
    policy: RetentionPolicy,
    olds: Seq<VersionEntry>,
    news: Seq<VersionEntry>,
)
    requires
        policy !is KeepForever,
        ({
            let k = evict_count(policy, olds.len() + 1);
            &&& news.len() == olds.len() + 1 - k
            &&& forall|i: int| 0 <= i < olds.len() - k ==> #[trigger] news[i] == olds[i + k]
        }),
    ensures
        ({
            let limit: int = match policy {
                RetentionPolicy::KeepLastN(n) => if n >= 1 { n as int } else { 1 },
                _ => 1,
            };
            &&& news.len() == if olds.len() + 1 > limit { limit } else { olds.len() + 1 as int }
            &&& forall|i: int| 0 <= i < news.len() - 1 ==> #[trigger] news[i] == olds[olds.len() - (news.len() - 1) + i]
        }),
{
}

} // verus!
