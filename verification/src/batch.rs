//! Access-pattern learning for prefetching: a trigram predictor over key
//! hashes and a bounded history of recent batches.
use vstd::prelude::*;
use std::collections::{HashMap, VecDeque};
use vstd::string::StringSliceAdditionalSpecFns;
use crate::hash::{spec_xxh64, xxh64};

verus! {

broadcast use vstd::std_specs::hash::group_hash_axioms;

/// The number of recent batches a history keeps.
pub const HISTORY_CAPACITY: usize = 32;

/// The map key for the pair of hashes `(k1, k2)`.
pub open spec fn pair_key(k1: u64, k2: u64) -> u128 {
    (k1 as int * 0x1_0000_0000_0000_0000 + k2 as int) as u128
}

fn make_pair_key(k1: u64, k2: u64) -> (r: u128)
    ensures
        r == pair_key(k1, k2),
{
    (k1 as u128) * 0x1_0000_0000_0000_0000u128 + (k2 as u128)
}

/// Two pairs share a key only when they are the same pair.
pub proof fn lemma_pair_key_injective(a1: u64, a2: u64, b1: u64, b2: u64)
    requires
        pair_key(a1, a2) == pair_key(b1, b2),
    ensures
        a1 == b1 && a2 == b2,
{
    if a1 < b1 {
        assert(a1 as int * 0x1_0000_0000_0000_0000 + a2 < b1 as int * 0x1_0000_0000_0000_0000);
    } else if b1 < a1 {
        assert(b1 as int * 0x1_0000_0000_0000_0000 + b2 < a1 as int * 0x1_0000_0000_0000_0000);
    }
}

/// The successors recorded for a key, empty when there are none.
pub open spec fn successors_of(m: Map<u128, Seq<u64>>, k: u128) -> Seq<u64> {
    if m.contains_key(k) { m[k] } else { Seq::empty() }
}

/// The predictor's table after recording every window of three in `s`,
/// window by window from the left.
pub open spec fn record_windows(m: Map<u128, Seq<u64>>, s: Seq<u64>) -> Map<u128, Seq<u64>>
    decreases s.len(),
{
    if s.len() < 3 {
        m
    } else {
        let n = s.len() as int;
        let before = record_windows(m, s.drop_last());
        let k = pair_key(s[n - 3], s[n - 2]);
        before.insert(k, successors_of(before, k).push(s[n - 1]))
    }
}

/// Learns which hash followed each pair of consecutive hashes.
/// After recording a sequence, the successor predicted for a pair is the
/// element that followed the pair's last occurrence in the sequence.
pub proof fn lemma_last_occurrence_wins(m: Map<u128, Seq<u64>>, s: Seq<u64>, i: int)
    requires
        0 <= i,
        i + 2 < s.len(),
        forall|j: int| i < j && j + 2 < s.len() ==> !(#[trigger] s[j] == s[i] && s[j + 1] == s[i + 1]),
    ensures
        successors_of(record_windows(m, s), pair_key(s[i], s[i + 1])).len() > 0,
        successors_of(record_windows(m, s), pair_key(s[i], s[i + 1])).last() == s[i + 2],
    decreases s.len(),
{
    let n = s.len() as int;
    let k = pair_key(s[i], s[i + 1]);
    if i + 3 < n {
        let t = s.drop_last();
        assert forall|j: int| i < j && j + 2 < t.len() implies !(#[trigger] t[j] == t[i] && t[j + 1] == t[i + 1]) by {
            assert(t[j] == s[j] && t[j + 1] == s[j + 1]);
        }
        lemma_last_occurrence_wins(m, t, i);
        assert(t[i] == s[i] && t[i + 1] == s[i + 1] && t[i + 2] == s[i + 2]);
        let k2 = pair_key(s[n - 3], s[n - 2]);
        if k2 == k {
            lemma_pair_key_injective(s[n - 3], s[n - 2], s[i], s[i + 1]);
            assert(s[n - 3] == s[i] && s[(n - 3) + 1] == s[i + 1]);
        }
    }
}

pub struct PatternPredictor {
    ngram: HashMap<u128, Vec<u64>>,
}

impl PatternPredictor {
    /// The table: for each pair key, the successors seen, oldest first.
    pub closed spec fn table(&self) -> Map<u128, Seq<u64>> {
        self.ngram@.map_values(|v: Vec<u64>| v@)
    }

    pub fn new() -> (r: Self)
        ensures
            r.table() == Map::<u128, Seq<u64>>::empty(),
    {
        let r = Self { ngram: HashMap::new() };
        assert(r.table() =~= Map::<u128, Seq<u64>>::empty());
        r
    }

    fn push_successor(&mut self, k: u128, next: u64)
        ensures
            final(self).table() == old(self).table().insert(k, successors_of(old(self).table(), k).push(next)),
    {
        let ghost before = self.table();
        let mut list = match self.ngram.remove(&k) {
            Some(v) => v,
            None => Vec::new(),
        };
        assert(list@ == successors_of(before, k));
        list.push(next);
        self.ngram.insert(k, list);
        assert(self.table() =~= before.insert(k, successors_of(before, k).push(next)));
    }

    /// Records every window of three consecutive hashes in `seq`.
    pub fn record_sequence(&mut self, seq: &[u64])
        ensures
            final(self).table() == record_windows(old(self).table(), seq@),
    {
        let n = seq.len();
        if n < 3 {
            return;
        }
        let mut i: usize = 0;
        assert(seq@.take(2).len() < 3);
        while i + 2 < n
            invariant
                n == seq@.len(),
                n >= 3,
                i + 2 <= n,
                self.table() == record_windows(old(self).table(), seq@.take(i + 2)),
            decreases n - i,
        {
            let k = make_pair_key(seq[i], seq[i + 1]);
            self.push_successor(k, seq[i + 2]);
            proof {
                let t = seq@.take(i + 3);
                assert(t.drop_last() =~= seq@.take(i + 2));
                assert(t[i as int] == seq@[i as int]);
                assert(t[i + 1] == seq@[i + 1]);
                assert(t[i + 2] == seq@[i + 2]);
            }
            i = i + 1;
        }
        assert(seq@.take(n as int) =~= seq@);
    }

    /// The hash most recently seen after `k1, k2`.
    pub fn predict_next(&self, k1: u64, k2: u64) -> (r: Option<u64>)
        ensures
            ({
                let s = successors_of(self.table(), pair_key(k1, k2));
                r == if s.len() > 0 { Some(s.last()) } else { None::<u64> }
            }),
    {
        let k = make_pair_key(k1, k2);
        match self.ngram.get(&k) {
            Some(v) => {
                assert(v@ == successors_of(self.table(), k));
                if v.len() > 0 {
                    Some(v[v.len() - 1])
                } else {
                    None
                }
            },
            None => {
                assert(successors_of(self.table(), k) == Seq::<u64>::empty());
                None
            },
        }
    }
}

impl Default for PatternPredictor {
    fn default() -> (r: Self)
        ensures
            r.table() == Map::<u128, Seq<u64>>::empty(),
    {
        Self::new()
    }
}

/// The most recent batches of key hashes, and a predictor fed by them.
pub struct PrefetchHistory {
    pub recent_sequences: VecDeque<Vec<u64>>,
    pub predictor: PatternPredictor,
}

/// The XXH64 digests (seed 0) of the keys, in order.
pub open spec fn key_hashes(keys: Seq<&str>) -> Seq<u64> {
    keys.map_values(|k: &str| spec_xxh64(k.spec_bytes(), 0))
}

/// The hash sequences of a history, oldest first.
pub open spec fn history_view(h: Seq<Vec<u64>>) -> Seq<Seq<u64>> {
    h.map_values(|v: Vec<u64>| v@)
}

impl PrefetchHistory {
    pub fn new() -> (r: Self)
        ensures
            r.recent_sequences@.len() == 0,
            r.predictor.table() == Map::<u128, Seq<u64>>::empty(),
    {
        Self { recent_sequences: VecDeque::with_capacity(HISTORY_CAPACITY), predictor: PatternPredictor::new() }
    }

    pub fn default() -> (r: Self)
        ensures
            r.recent_sequences@.len() == 0,
            r.predictor.table() == Map::<u128, Seq<u64>>::empty(),
    {
        Self::new()
    }

    /// Feeds a batch to the predictor and appends it to the history,
    /// dropping the oldest batch when the history is full.
    pub fn record(&mut self, hashes: Vec<u64>)
        ensures
            final(self).predictor.table() == record_windows(old(self).predictor.table(), hashes@),
            ({
                let olds = history_view(old(self).recent_sequences@);
                let kept = if olds.len() >= HISTORY_CAPACITY { olds.drop_first() } else { olds };
                history_view(final(self).recent_sequences@) == kept.push(hashes@)
            }),
    {
        self.predictor.record_sequence(hashes.as_slice());
        let ghost olds = self.recent_sequences@;
        if self.recent_sequences.len() >= HISTORY_CAPACITY {
            let _ = self.recent_sequences.pop_front();
            assert(history_view(self.recent_sequences@) =~= history_view(olds).drop_first());
        }
        let ghost mid = self.recent_sequences@;
        self.recent_sequences.push_back(hashes);
        assert(history_view(self.recent_sequences@) =~= history_view(mid).push(hashes@));
    }
}

impl PrefetchHistory {
    /// Records a batch of keys read together: their digests feed the
    /// predictor and join the history, as `record` does.
    pub fn record_keys(&mut self, keys: &[&str])
        ensures
            final(self).predictor.table() == record_windows(old(self).predictor.table(), key_hashes(keys@)),
            ({
                let olds = history_view(old(self).recent_sequences@);
                let kept = if olds.len() >= HISTORY_CAPACITY { olds.drop_first() } else { olds };
                history_view(final(self).recent_sequences@) == kept.push(key_hashes(keys@))
            }),
    {
        let mut hashes: Vec<u64> = Vec::new();
        let mut i: usize = 0;
        while i < keys.len()
            invariant
                i <= keys@.len(),
                hashes@ == key_hashes(keys@.take(i as int)),
            decreases keys@.len() - i,
        {
            let h = xxh64(keys[i].as_bytes(), 0);
            hashes.push(h);
            assert(key_hashes(keys@.take(i + 1)) =~= key_hashes(keys@.take(i as int)).push(h));
            i = i + 1;
        }
        assert(keys@.take(i as int) =~= keys@);
        self.record(hashes);
    }
}

/// A history keeps at most its capacity of batches: recording into a history
/// within the bound leaves it within the bound.
pub proof fn lemma_history_bounded(before: Seq<Seq<u64>>, batch: Seq<u64>)
    requires
        before.len() <= HISTORY_CAPACITY,
    ensures
        ({
            let kept = if before.len() >= HISTORY_CAPACITY { before.drop_first() } else { before };
            kept.push(batch).len() <= HISTORY_CAPACITY
        }),
{
}

} // verus!
