//! Succinct range filter: a sorted, duplicate-free key list answering range
//! membership queries without false negatives.
use vstd::prelude::*;
use crate::index::lex::{lex_lt, lex_le, lex_less, bytes_equal, lemma_lex_order};

verus! {

/// Strictly increasing in lexicographic order.
pub open spec fn sorted_strict(s: Seq<Seq<u8>>) -> bool {
    forall|i: int, j: int| 0 <= i < j < s.len() ==> lex_lt(#[trigger] s[i], #[trigger] s[j])
}

pub open spec fn vec_views(v: Seq<Vec<u8>>) -> Seq<Seq<u8>> {
    v.map_values(|k: Vec<u8>| k@)
}

pub open spec fn slice_views(v: Seq<&[u8]>) -> Seq<Seq<u8>> {
    v.map_values(|k: &[u8]| k@)
}

/// The value of the range query: `left` is a key, or some key lies
/// strictly above `left` and not above `right`.
pub open spec fn range_answer(keys: Seq<Seq<u8>>, left: Seq<u8>, right: Seq<u8>) -> bool {
    keys.contains(left) || exists|k: Seq<u8>| keys.contains(k) && lex_lt(left, k) && lex_le(k, right)
}

pub open spec fn total_len(s: Seq<Seq<u8>>) -> nat
    decreases s.len(),
{
    if s.len() == 0 {
        0
    } else {
        total_len(s.drop_last()) + s.last().len()
    }
}

pub struct Surf {
    keys: Vec<Vec<u8>>,
}

impl Surf {
    #[verifier::type_invariant]
    spec fn inv(self) -> bool {
        sorted_strict(vec_views(self.keys@))
    }

    /// The keys in increasing order.
    pub closed spec fn view(&self) -> Seq<Seq<u8>> {
        vec_views(self.keys@)
    }

    pub fn default() -> (r: Self)
        ensures
            r@ == Seq::<Seq<u8>>::empty(),
    {
        let r = Self { keys: Vec::new() };
        assert(r@ =~= Seq::<Seq<u8>>::empty());
        r
    }

    /// Builds the filter from `keys`, sorted and with duplicates removed.
    pub fn build(keys: &[&[u8]]) -> (r: Self)
        ensures
            sorted_strict(r@),
            r@.to_set() == slice_views(keys@).to_set(),
    {
        let mut sorted: Vec<Vec<u8>> = Vec::new();
        let mut i: usize = 0;
        while i < keys.len()
            invariant
                i <= keys@.len(),
                sorted_strict(vec_views(sorted@)),
                forall|x: Seq<u8>|
                    vec_views(sorted@).contains(x) <==> slice_views(keys@).take(i as int).contains(x),
            decreases keys@.len() - i,
        {
            let key = keys[i];
            let ghost old_v = vec_views(sorted@);
            assert(forall|x: Seq<u8>| old_v.contains(x) <==> slice_views(keys@).take(i as int).contains(x));
            let mut j: usize = 0;
            while j < sorted.len() && lex_less(sorted[j].as_slice(), key)
                invariant
                    j <= sorted@.len(),
                    old_v == vec_views(sorted@),
                    forall|t: int| 0 <= t < j ==> lex_lt(#[trigger] old_v[t], key@),
                decreases sorted@.len() - j,
            {
                j = j + 1;
            }
            let present = j < sorted.len() && bytes_equal(sorted[j].as_slice(), key);
            if !present {
                proof {
                    if j < sorted@.len() {
                        lemma_lex_order(old_v[j as int], key@, key@);
                    }
                }
                sorted.insert(j, vstd::slice::slice_to_vec(key));
                proof {
                    let nv = vec_views(sorted@);
                    assert(nv =~= old_v.insert(j as int, key@));
                    assert(nv.len() == old_v.len() + 1);
                    assert(forall|t: int| 0 <= t < j ==> #[trigger] nv[t] == old_v[t]);
                    assert(nv[j as int] == key@);
                    assert(forall|t: int| j < t < nv.len() ==> #[trigger] nv[t] == old_v[t - 1]);
                    assert forall|a: int, b: int| 0 <= a < b < nv.len() implies lex_lt(#[trigger] nv[a], #[trigger] nv[b]) by {
                        if b == j {
                        } else if a == j {
                            assert(lex_lt(key@, old_v[j as int]));
                            if b > j + 1 {
                                lemma_lex_order(key@, old_v[j as int], old_v[b - 1]);
                            }
                        } else if a < j && b > j {
                            assert(lex_lt(old_v[a], old_v[b - 1]));
                        } else if a > j {
                            assert(lex_lt(old_v[a - 1], old_v[b - 1]));
                        }
                    }
                    assert forall|x: Seq<u8>| nv.contains(x) <==> slice_views(keys@).take(i + 1).contains(x) by {
                        assert(slice_views(keys@).take(i + 1) =~= slice_views(keys@).take(i as int).push(key@));
                        if nv.contains(x) {
                            let t = choose|t: int| 0 <= t < nv.len() && nv[t] == x;
                            if t < j {
                                assert(old_v[t] == x);
                                assert(old_v.contains(x));
                                assert(slice_views(keys@).take(i as int).contains(x));
                            } else if t > j {
                                assert(old_v[t - 1] == x);
                                assert(old_v.contains(x));
                                assert(slice_views(keys@).take(i as int).contains(x));
                            } else {
                                assert(x == key@);
                                assert(slice_views(keys@).take(i + 1)[i as int] == key@);
                            }
                        }
                        if slice_views(keys@).take(i + 1).contains(x) {
                            if x == key@ {
                                assert(nv[j as int] == x);
                            } else {
                                assert(slice_views(keys@).take(i as int).contains(x));
                                assert(old_v.contains(x));
                                let t = choose|t: int| 0 <= t < old_v.len() && old_v[t] == x;
                                if t < j {
                                    assert(nv[t] == x);
                                } else {
                                    assert(nv[t + 1] == x);
                                }
                                assert(nv.contains(x));
                            }
                        }
                    }
                }
            } else {
                proof {
                    assert(slice_views(keys@).take(i + 1) =~= slice_views(keys@).take(i as int).push(key@));
                    assert(old_v[j as int] == key@);
                }
            }
            i = i + 1;
        }
        assert(slice_views(keys@).take(i as int) =~= slice_views(keys@));
        let r = Self { keys: sorted };
        assert(r@.to_set() =~= slice_views(keys@).to_set());
        r
    }

    pub fn is_empty(&self) -> (r: bool)
        ensures
            r == (self@.len() == 0),
    {
        self.keys.len() == 0
    }

    pub fn len(&self) -> (r: usize)
        ensures
            r == self@.len(),
    {
        self.keys.len()
    }

    /// Range query: false when no key can lie in `[left, right]`.
    pub fn range_lookup(&self, left: &[u8], right: &[u8]) -> (r: bool)
        ensures
            r == range_answer(self@, left@, right@),
    {
        proof {
            use_type_invariant(self);
        }
        let ghost v = self@;
        let n = self.keys.len();
        if n == 0 {
            return false;
        }
        // first index whose key is not below `left`
        let mut lo: usize = 0;
        let mut hi: usize = n;
        while lo < hi
            invariant
                v == self@,
                sorted_strict(v),
                n == v.len(),
                lo <= hi <= n,
                forall|t: int| 0 <= t < lo ==> lex_lt(#[trigger] v[t], left@),
                forall|t: int| hi <= t < n ==> !lex_lt(#[trigger] v[t], left@),
            decreases hi - lo,
        {
            let mid = lo + (hi - lo) / 2;
            if lex_less(self.keys[mid].as_slice(), left) {
                proof {
                    assert forall|t: int| 0 <= t < mid + 1 implies lex_lt(#[trigger] v[t], left@) by {
                        if t < mid {
                            lemma_lex_order(v[t], v[mid as int], left@);
                        }
                    }
                }
                lo = mid + 1;
            } else {
                proof {
                    assert forall|t: int| mid <= t < n implies !lex_lt(#[trigger] v[t], left@) by {
                        if t > mid {
                            lemma_lex_order(v[mid as int], v[t], left@);
                        }
                    }
                }
                hi = mid;
            }
        }
        let idx = lo;
        if idx < n && bytes_equal(self.keys[idx].as_slice(), left) {
            assert(v.contains(left@)) by {
                assert(v[idx as int] == left@);
            }
            return true;
        }
        if idx < n {
            let r = !lex_less(right, self.keys[idx].as_slice());
            proof {
                let k = v[idx as int];
                lemma_lex_order(k, left@, left@);
                assert(lex_lt(left@, k));
                assert(!v.contains(left@)) by {
                    if v.contains(left@) {
                        let t = choose|t: int| 0 <= t < v.len() && v[t] == left@;
                        lemma_lex_order(left@, left@, left@);
                        if t < idx {
                        } else if t > idx {
                            assert(lex_lt(k, v[t]));
                            lemma_lex_order(left@, k, left@);
                        }
                    }
                }
                if !r {
                    assert forall|k2: Seq<u8>| v.contains(k2) && lex_lt(left@, k2) implies !lex_le(k2, right@) by {
                        let t = choose|t: int| 0 <= t < v.len() && v[t] == k2;
                        if t < idx {
                            lemma_lex_order(left@, k2, left@);
                        } else if t > idx {
                            assert(lex_lt(k, k2));
                            lemma_lex_order(right@, k, k2);
                        }
                    }
                } else {
                    assert(v.contains(k));
                }
            }
            return r;
        }
        proof {
            assert forall|k2: Seq<u8>| v.contains(k2) implies !(k2 == left@) && !lex_lt(left@, k2) by {
                let t = choose|t: int| 0 <= t < v.len() && v[t] == k2;
                lemma_lex_order(k2, left@, left@);
            }
        }
        false
    }

    pub fn approx_mem_usage(&self) -> (r: usize)
        requires
            total_len(self@) + 24 * self@.len() <= usize::MAX,
        ensures
            r == total_len(self@) + 24 * self@.len(),
    {
        let ghost v = self@;
        let mut sum: usize = 0;
        let mut i: usize = 0;
        while i < self.keys.len()
            invariant
                v == self@,
                i <= v.len(),
                total_len(v) + 24 * v.len() <= usize::MAX,
                sum == total_len(v.take(i as int)),
            decreases v.len() - i,
        {
            proof {
                assert(v.take(i + 1).drop_last() =~= v.take(i as int));
                lemma_total_len_prefix(v, i + 1);
            }
            sum = sum + self.keys[i].len();
            i = i + 1;
        }
        assert(v.take(i as int) =~= v);
        sum + self.keys.len() * 24
    }
}

proof fn lemma_total_len_prefix(s: Seq<Seq<u8>>, k: int)
    requires
        0 <= k <= s.len(),
    ensures
        total_len(s.take(k)) <= total_len(s),
    decreases s.len(),
{
    if k < s.len() {
        assert(s.drop_last().take(k) =~= s.take(k));
        lemma_total_len_prefix(s.drop_last(), k);
    } else {
        assert(s.take(k) =~= s);
    }
}

proof fn lemma_sorted_same_elements(a: Seq<Seq<u8>>, b: Seq<Seq<u8>>)
    requires
        sorted_strict(a),
        sorted_strict(b),
        forall|x: Seq<u8>| a.contains(x) <==> b.contains(x),
    ensures
        a == b,
    decreases a.len(),
{
    if a.len() == 0 {
        if b.len() > 0 {
            assert(b.contains(b[0]));
        }
        assert(a =~= b);
    } else {
        assert(a.contains(a[0]));
        assert(b.len() > 0);
        assert(b.contains(b[0]));
        let i = choose|i: int| 0 <= i < a.len() && a[i] == b[0];
        let j = choose|j: int| 0 <= j < b.len() && b[j] == a[0];
        lemma_lex_order(a[0], b[0], a[0]);
        if a[0] != b[0] {
            assert(i > 0 && j > 0);
            assert(lex_lt(a[0], a[i]));
            assert(lex_lt(b[0], b[j]));
        }
        let a1 = a.drop_first();
        let b1 = b.drop_first();
        assert forall|x: Seq<u8>| a1.contains(x) <==> b1.contains(x) by {
            if a1.contains(x) {
                let k = choose|k: int| 0 <= k < a1.len() && a1[k] == x;
                assert(a[k + 1] == x);
                assert(lex_lt(a[0], a[k + 1]));
                lemma_lex_order(x, x, x);
                assert(b.contains(x));
                let t = choose|t: int| 0 <= t < b.len() && b[t] == x;
                assert(t != 0);
                assert(b1[t - 1] == x);
            }
            if b1.contains(x) {
                let k = choose|k: int| 0 <= k < b1.len() && b1[k] == x;
                assert(b[k + 1] == x);
                assert(lex_lt(b[0], b[k + 1]));
                lemma_lex_order(x, x, x);
                assert(a.contains(x));
                let t = choose|t: int| 0 <= t < a.len() && a[t] == x;
                assert(t != 0);
                assert(a1[t - 1] == x);
            }
        }
        assert(sorted_strict(a1)) by {
            assert forall|p: int, q: int| 0 <= p < q < a1.len() implies lex_lt(#[trigger] a1[p], #[trigger] a1[q]) by {
                assert(a1[p] == a[p + 1] && a1[q] == a[q + 1]);
            }
        }
        assert(sorted_strict(b1)) by {
            assert forall|p: int, q: int| 0 <= p < q < b1.len() implies lex_lt(#[trigger] b1[p], #[trigger] b1[q]) by {
                assert(b1[p] == b[p + 1] && b1[q] == b[q + 1]);
            }
        }
        lemma_sorted_same_elements(a1, b1);
        assert(a =~= seq![a[0]] + a1);
        assert(b =~= seq![b[0]] + b1);
    }
}

/// A filter is determined by its set of keys: two filters holding the same
/// keys hold them identically, so what `build` makes of a key list does not
/// depend on the order of the keys or on repeated keys.
pub proof fn lemma_surf_canonical(s1: Surf, s2: Surf)
    requires
        sorted_strict(s1@),
        sorted_strict(s2@),
        s1@.to_set() == s2@.to_set(),
    ensures
        s1@ == s2@,
{
    assert forall|x: Seq<u8>| s1@.contains(x) <==> s2@.contains(x) by {
        assert(s1@.to_set().contains(x) == s1@.contains(x));
        assert(s2@.to_set().contains(x) == s2@.contains(x));
    }
    lemma_sorted_same_elements(s1@, s2@);
}

/// No false negatives: a query whose range holds a stored key answers true.
pub proof fn lemma_surf_no_false_negatives(keys: Seq<Seq<u8>>, k: Seq<u8>, left: Seq<u8>, right: Seq<u8>)
    requires
        keys.contains(k),
        lex_le(left, k),
        lex_le(k, right),
    ensures
        range_answer(keys, left, right),
{
    lemma_lex_order(left, k, right);
    if k != left {
        assert(lex_lt(left, k));
    }
}

} // verus!
