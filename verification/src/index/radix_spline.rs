//! Learned index from sorted 64-bit keys to position ranges.
use vstd::prelude::*;

verus! {

pub open spec fn sorted_u64(s: Seq<u64>) -> bool {
    forall|i: int, j: int| 0 <= i <= j < s.len() ==> #[trigger] s[i] <= #[trigger] s[j]
}

/// Number of keys below `k`.
pub open spec fn count_below(s: Seq<u64>, k: u64) -> nat
    decreases s.len(),
{
    if s.len() == 0 {
        0
    } else {
        count_below(s.drop_last(), k) + if s.last() < k { 1nat } else { 0nat }
    }
}

/// Number of keys not above `k`.
pub open spec fn count_not_above(s: Seq<u64>, k: u64) -> nat
    decreases s.len(),
{
    if s.len() == 0 {
        0
    } else {
        count_not_above(s.drop_last(), k) + if s.last() <= k { 1nat } else { 0nat }
    }
}

/// The position range for `key`: the positions of the first and last
/// copies of `key` when it is present; otherwise the positions around the
/// place where it would be inserted (0 below the first key, the last
/// position above the last key); (0, 0) when there are no keys.
pub open spec fn spline_range(keys: Seq<u64>, positions: Seq<u32>, key: u64) -> (u32, u32) {
    let lo = count_below(keys, key) as int;
    let hi = count_not_above(keys, key) as int;
    if keys.len() == 0 {
        (0, 0)
    } else if lo < hi {
        (positions[lo], positions[hi - 1])
    } else {
        (
            if lo > 0 { positions[lo - 1] } else { 0 },
            if lo < positions.len() { positions[lo] } else { positions[positions.len() - 1] },
        )
    }
}

proof fn lemma_counts(s: Seq<u64>, k: u64)
    requires
        sorted_u64(s),
    ensures
        count_below(s, k) <= count_not_above(s, k) <= s.len(),
        forall|i: int| 0 <= i < s.len() ==> (#[trigger] s[i] < k <==> i < count_below(s, k)),
        forall|i: int| 0 <= i < s.len() ==> (#[trigger] s[i] <= k <==> i < count_not_above(s, k)),
    decreases s.len(),
{
    if s.len() > 0 {
        let t = s.drop_last();
        assert(sorted_u64(t));
        lemma_counts(t, k);
        assert forall|i: int| 0 <= i < s.len() implies (#[trigger] s[i] < k <==> i < count_below(s, k)) by {
            if i < t.len() {
                assert(s[i] == t[i]);
                if s.last() < k {
                    assert(s[i] <= s.last());
                }
            } else {
                if s.last() >= k && count_below(t, k) == t.len() && t.len() > 0 {
                    assert(t[t.len() - 1] < k);
                }
            }
        }
        assert forall|i: int| 0 <= i < s.len() implies (#[trigger] s[i] <= k <==> i < count_not_above(s, k)) by {
            if i < t.len() {
                assert(s[i] == t[i]);
                if s.last() <= k {
                    assert(s[i] <= s.last());
                }
            }
        }
    }
}

#[derive(Debug)]
pub struct RadixSpline {
    keys: Vec<u64>,
    positions: Vec<u32>,
}

impl RadixSpline {
    #[verifier::type_invariant]
    spec fn inv(self) -> bool {
        &&& sorted_u64(self.keys@)
        &&& self.keys@.len() == self.positions@.len()
    }

    pub closed spec fn keys(&self) -> Seq<u64> {
        self.keys@
    }

    pub closed spec fn positions(&self) -> Seq<u32> {
        self.positions@
    }

    pub fn default() -> (r: Self)
        ensures
            r.keys() == Seq::<u64>::empty(),
            r.positions() == Seq::<u32>::empty(),
    {
        Self { keys: Vec::new(), positions: Vec::new() }
    }

    pub fn build(sorted_keys: &[u64], positions: &[u32]) -> (r: Self)
        requires
            sorted_u64(sorted_keys@),
            sorted_keys@.len() == positions@.len(),
        ensures
            r.keys() == sorted_keys@,
            r.positions() == positions@,
    {
        Self { keys: vstd::slice::slice_to_vec(sorted_keys), positions: vstd::slice::slice_to_vec(positions) }
    }

    pub fn lookup(&self, key: u64) -> (r: (u32, u32))
        ensures
            r == spline_range(self.keys(), self.positions(), key),
    {
        proof {
            use_type_invariant(self);
            lemma_counts(self.keys@, key);
        }
        let n = self.keys.len();
        if n == 0 {
            return (0, 0);
        }
        let ghost ks = self.keys@;
        // first index whose key is not below `key`
        let mut a: usize = 0;
        let mut b: usize = n;
        while a < b
            invariant
                ks == self.keys@,
                n == ks.len(),
                a <= b <= n,
                a <= count_below(ks, key) <= b,
                forall|i: int| 0 <= i < ks.len() ==> (#[trigger] ks[i] < key <==> i < count_below(ks, key)),
            decreases b - a,
        {
            let mid = a + (b - a) / 2;
            if self.keys[mid] < key {
                a = mid + 1;
            } else {
                b = mid;
            }
        }
        let lo = a;
        // first index whose key is above `key`
        let mut c: usize = lo;
        let mut d: usize = n;
        while c < d
            invariant
                ks == self.keys@,
                n == ks.len(),
                c <= d <= n,
                c <= count_not_above(ks, key) <= d,
                forall|i: int| 0 <= i < ks.len() ==> (#[trigger] ks[i] <= key <==> i < count_not_above(ks, key)),
            decreases d - c,
        {
            let mid = c + (d - c) / 2;
            if self.keys[mid] <= key {
                c = mid + 1;
            } else {
                d = mid;
            }
        }
        let hi = c;
        if lo < hi {
            (self.positions[lo], self.positions[hi - 1])
        } else {
            let l = if lo > 0 { self.positions[lo - 1] } else { 0 };
            let h = if lo < self.positions.len() { self.positions[lo] } else { self.positions[self.positions.len() - 1] };
            (l, h)
        }
    }
}

/// A present key's range starts at the position of its first copy and
/// ends at the position of its last copy.
pub proof fn lemma_spline_present(keys: Seq<u64>, positions: Seq<u32>, i: int)
    requires
        sorted_u64(keys),
        keys.len() == positions.len(),
        0 <= i < keys.len(),
    ensures
        ({
            let (lo, hi) = spline_range(keys, positions, keys[i]);
            let first = count_below(keys, keys[i]) as int;
            let last = count_not_above(keys, keys[i]) as int - 1;
            &&& 0 <= first <= i <= last < keys.len()
            &&& keys[first] == keys[i] && keys[last] == keys[i]
            &&& lo == positions[first] && hi == positions[last]
        }),
{
    lemma_counts(keys, keys[i]);
    let first = count_below(keys, keys[i]) as int;
    let last = count_not_above(keys, keys[i]) as int - 1;
    assert(keys[first] >= keys[i]);
    assert(keys[first] <= keys[i]);
    assert(keys[last] <= keys[i]);
    assert(keys[last] >= keys[i]);
}

/// An absent key's range brackets the place where it would be inserted:
/// with `i` the number of keys below it, the range runs from the position
/// of key `i - 1` (0 when no key is below it) to the position of key `i`,
/// the first key above it (the last position when no key is above it).
pub proof fn lemma_spline_absent(keys: Seq<u64>, positions: Seq<u32>, key: u64, i: int)
    requires
        sorted_u64(keys),
        keys.len() == positions.len(),
        keys.len() > 0,
        0 <= i <= keys.len(),
        forall|j: int| 0 <= j < i ==> keys[j] < key,
        forall|j: int| i <= j < keys.len() ==> keys[j] > key,
    ensures
        spline_range(keys, positions, key) == (
            if i > 0 { positions[i - 1] } else { 0u32 },
            if i < keys.len() { positions[i] } else { positions[keys.len() - 1] },
        ),
{
    lemma_counts(keys, key);
    let lo = count_below(keys, key) as int;
    let hi = count_not_above(keys, key) as int;
    if lo < i {
        assert(keys[lo] < key);
    }
    if lo > i {
        assert(keys[i] < key);
    }
    if hi > lo {
        assert(keys[lo] <= key);
        assert(!(keys[lo] < key));
    }
}

} // verus!
