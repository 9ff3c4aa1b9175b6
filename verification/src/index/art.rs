//! Adaptive radix tree over byte-string keys, with nodes of 4, 16, 48 and
//! 256 children that grow as children are added. A key may be a prefix of
//! another: an inner node holds the value of the key that ends at it.
use vstd::prelude::*;

verus! {

/// A node of the tree.
pub enum ArtNode<V> {
    Leaf { key: Vec<u8>, value: V },
    Node4 { keys: Vec<u8>, children: Vec<Option<Box<ArtNode<V>>>>, num_children: u8, val: Option<(Vec<u8>, V)> },
    Node16 { keys: Vec<u8>, children: Vec<Option<Box<ArtNode<V>>>>, num_children: u8, val: Option<(Vec<u8>, V)> },
    Node48 { index: Vec<u8>, children: Vec<Option<Box<ArtNode<V>>>>, num_children: u8, val: Option<(Vec<u8>, V)> },
    Node256 { children: Vec<Option<Box<ArtNode<V>>>>, num_children: u16, val: Option<(Vec<u8>, V)> },
}

/// The marker of a free byte in a 48-child index.
pub const EMPTY_SLOT: u8 = 0xFF;

/// `k` begins with `p`.
pub open spec fn starts(k: Seq<u8>, p: Seq<u8>) -> bool {
    p.len() <= k.len() && k.subrange(0, p.len() as int) == p
}

/// The first position below `num`, from `i` on, whose key byte is `b`.
pub open spec fn first_match(keys: Seq<u8>, num: int, b: u8, i: int) -> Option<int>
    decreases num - i,
{
    if i >= num {
        None
    } else if keys[i] == b {
        Some(i)
    } else {
        first_match(keys, num, b, i + 1)
    }
}

/// The number of occupied child slots.
pub open spec fn count_some<V>(s: Seq<Option<Box<ArtNode<V>>>>) -> nat
    decreases s.len(),
{
    if s.len() == 0 {
        0
    } else {
        count_some(s.drop_last()) + if s.last() is Some { 1nat } else { 0nat }
    }
}

pub open spec fn children_of<V>(n: ArtNode<V>) -> Seq<Option<Box<ArtNode<V>>>> {
    match n {
        ArtNode::Leaf { .. } => Seq::empty(),
        ArtNode::Node4 { children, .. } => children@,
        ArtNode::Node16 { children, .. } => children@,
        ArtNode::Node48 { children, .. } => children@,
        ArtNode::Node256 { children, .. } => children@,
    }
}

pub open spec fn val_of<V>(n: ArtNode<V>) -> Option<(Vec<u8>, V)> {
    match n {
        ArtNode::Leaf { .. } => None,
        ArtNode::Node4 { val, .. } => val,
        ArtNode::Node16 { val, .. } => val,
        ArtNode::Node48 { val, .. } => val,
        ArtNode::Node256 { val, .. } => val,
    }
}

/// The child slot that byte `b` leads to.
pub open spec fn slot_of<V>(n: ArtNode<V>, b: u8) -> Option<int> {
    match n {
        ArtNode::Leaf { .. } => None,
        ArtNode::Node4 { keys, num_children, .. } => first_match(keys@, num_children as int, b, 0),
        ArtNode::Node16 { keys, num_children, .. } => first_match(keys@, num_children as int, b, 0),
        ArtNode::Node48 { index, .. } => if index@[b as int] != EMPTY_SLOT {
            Some(index@[b as int] as int)
        } else {
            None
        },
        ArtNode::Node256 { .. } => Some(b as int),
    }
}

/// The child that byte `b` leads to.
pub open spec fn child_at<V>(n: ArtNode<V>, b: u8) -> Option<ArtNode<V>> {
    match slot_of(n, b) {
        Some(i) => if 0 <= i < children_of(n).len() && children_of(n)[i] is Some {
            Some(*children_of(n)[i]->0)
        } else {
            None
        },
        None => None,
    }
}

/// What a lookup of `k` finds below `n`, the first `d` bytes of `k` having
/// led to `n`.
pub open spec fn node_get<V>(n: ArtNode<V>, k: Seq<u8>, d: nat) -> Option<V>
    decreases k.len() - d,
{
    match n {
        ArtNode::Leaf { key, value } => if key@ == k { Some(value) } else { None },
        _ => if d >= k.len() {
            match val_of(n) {
                Some((_, v)) => Some(v),
                None => None,
            }
        } else {
            match child_at(n, k[d as int]) {
                Some(c) => node_get(c, k, d + 1),
                None => None,
            }
        },
    }
}

pub open spec fn val_ok<V>(val: Option<(Vec<u8>, V)>, p: Seq<u8>) -> bool {
    val matches Some((k, _)) ==> k@ == p
}

/// Node `n`, reached by the path `p`, is well formed: every key below it
/// begins with `p`, a child's path adds its byte, and the child slots are
/// consistent with the node's counts and indexes.
pub open spec fn node_wf<V>(n: ArtNode<V>, p: Seq<u8>) -> bool
    decreases n,
{
    match n {
        ArtNode::Leaf { key, .. } => starts(key@, p),
        ArtNode::Node4 { keys, children, num_children, val } => {
            &&& keys@.len() == 4
            &&& children@.len() == 4
            &&& num_children <= 4
            &&& forall|i: int|
                0 <= i < num_children ==> (#[trigger] children@[i]) is Some && node_wf(
                    *children@[i]->0,
                    p.push(keys@[i]),
                )
            &&& forall|i: int| num_children <= i < 4 ==> (#[trigger] children@[i]) is None
            &&& forall|i: int, j: int| 0 <= i < j < num_children ==> #[trigger] keys@[i] != #[trigger] keys@[j]
            &&& val_ok(val, p)
        },
        ArtNode::Node16 { keys, children, num_children, val } => {
            &&& keys@.len() == 16
            &&& children@.len() == 16
            &&& num_children <= 16
            &&& forall|i: int|
                0 <= i < num_children ==> (#[trigger] children@[i]) is Some && node_wf(
                    *children@[i]->0,
                    p.push(keys@[i]),
                )
            &&& forall|i: int| num_children <= i < 16 ==> (#[trigger] children@[i]) is None
            &&& forall|i: int, j: int| 0 <= i < j < num_children ==> #[trigger] keys@[i] != #[trigger] keys@[j]
            &&& val_ok(val, p)
        },
        ArtNode::Node48 { index, children, num_children, val } => {
            &&& index@.len() == 256
            &&& children@.len() == 48
            &&& num_children <= 48
            &&& count_some(children@) <= num_children
            &&& forall|b: int|
                0 <= b < 256 && #[trigger] index@[b] != EMPTY_SLOT ==> index@[b] < 48 && children@[index@[b] as int] is Some
                    && node_wf(*children@[index@[b] as int]->0, p.push(b as u8))
            &&& forall|b1: int, b2: int|
                0 <= b1 < b2 < 256 && #[trigger] index@[b1] != EMPTY_SLOT ==> index@[b1] != #[trigger] index@[b2]
            &&& forall|s: int|
                0 <= s < 48 && (#[trigger] children@[s]) is Some ==> exists|b: int| 0 <= b < 256 && #[trigger] index@[b] == s
            &&& val_ok(val, p)
        },
        ArtNode::Node256 { children, num_children, val } => {
            &&& children@.len() == 256
            &&& count_some(children@) <= num_children <= count_some(children@) + 48
            &&& forall|b: int|
                0 <= b < 256 && (#[trigger] children@[b]) is Some ==> node_wf(*children@[b]->0, p.push(b as u8))
            &&& val_ok(val, p)
        },
    }
}

/// The slot vectors have their node kind's sizes, the counts fit them, and
/// a 48-child index points into the slots.
pub open spec fn shape_ok<V>(n: ArtNode<V>) -> bool {
    match n {
        ArtNode::Leaf { .. } => true,
        ArtNode::Node4 { keys, children, num_children, .. } => keys@.len() == 4 && children@.len() == 4
            && num_children <= 4,
        ArtNode::Node16 { keys, children, num_children, .. } => keys@.len() == 16 && children@.len() == 16
            && num_children <= 16,
        ArtNode::Node48 { index, children, num_children, .. } => {
            &&& index@.len() == 256
            &&& children@.len() == 48
            &&& num_children <= 48
            &&& forall|b: int| 0 <= b < 256 && #[trigger] index@[b] != EMPTY_SLOT ==> index@[b] < 48
        },
        ArtNode::Node256 { children, .. } => children@.len() == 256,
    }
}

// ---------------------------------------------------------------------------
// Facts.

proof fn lemma_wf_shape<V>(n: ArtNode<V>, p: Seq<u8>)
    requires
        node_wf(n, p),
    ensures
        shape_ok(n),
{
}

proof fn lemma_first_match<V>(keys: Seq<u8>, num: int, b: u8, i: int)
    requires
        0 <= i <= num <= keys.len(),
    ensures
        first_match(keys, num, b, i) matches Some(j) ==> i <= j < num && keys[j] == b,
        first_match(keys, num, b, i) is None ==> forall|j: int| i <= j < num ==> keys[j] != b,
    decreases num - i,
{
    if i < num && keys[i] != b {
        lemma_first_match::<V>(keys, num, b, i + 1);
    }
}

/// With distinct keys, the first match is the position holding the byte.
proof fn lemma_first_match_at<V>(keys: Seq<u8>, num: int, b: u8, j: int)
    requires
        0 <= j < num <= keys.len(),
        keys[j] == b,
        forall|x: int, y: int| 0 <= x < y < num ==> #[trigger] keys[x] != #[trigger] keys[y],
    ensures
        first_match(keys, num, b, 0) == Some(j),
{
    lemma_first_match::<V>(keys, num, b, 0);
    match first_match(keys, num, b, 0) {
        Some(x) => {
            if x != j {
                if x < j {
                    assert(keys[x] != keys[j]);
                } else {
                    assert(keys[j] != keys[x]);
                }
            }
        },
        None => {},
    }
}

proof fn lemma_count_update<V>(s: Seq<Option<Box<ArtNode<V>>>>, i: int, x: Option<Box<ArtNode<V>>>)
    requires
        0 <= i < s.len(),
    ensures
        count_some(s.update(i, x)) + (if s[i] is Some { 1nat } else { 0nat }) == count_some(s) + (if x is Some {
            1nat
        } else {
            0nat
        }),
    decreases s.len(),
{
    let t = s.update(i, x);
    if i == s.len() - 1 {
        assert(t.drop_last() =~= s.drop_last());
    } else {
        lemma_count_update(s.drop_last(), i, x);
        assert(t.drop_last() =~= s.drop_last().update(i, x));
    }
}

proof fn lemma_count_bound<V>(s: Seq<Option<Box<ArtNode<V>>>>)
    ensures
        count_some(s) <= s.len(),
        count_some(s) == s.len() ==> forall|i: int| 0 <= i < s.len() ==> #[trigger] s[i] is Some,
    decreases s.len(),
{
    if s.len() > 0 {
        lemma_count_bound(s.drop_last());
        assert forall|i: int| 0 <= i < s.len() && count_some(s) == s.len() implies #[trigger] s[i] is Some by {
            if i < s.len() - 1 {
                assert(s.drop_last()[i] == s[i]);
            }
        }
    }
}

proof fn lemma_count_prefix<V>(s: Seq<Option<Box<ArtNode<V>>>>, k: int)
    requires
        0 <= k <= s.len(),
        forall|i: int| 0 <= i < k ==> #[trigger] s[i] is Some,
        forall|i: int| k <= i < s.len() ==> #[trigger] s[i] is None,
    ensures
        count_some(s) == k,
    decreases s.len(),
{
    if s.len() > 0 {
        if k == s.len() {
            lemma_count_prefix(s.drop_last(), k - 1);
        } else {
            lemma_count_prefix(s.drop_last(), k);
        }
    }
}

/// Prefix extension by the next byte of a key.
proof fn lemma_starts_push(k: Seq<u8>, p: Seq<u8>)
    requires
        starts(k, p),
        p.len() < k.len(),
    ensures
        starts(k, p.push(k[p.len() as int])),
{
    assert(k.subrange(0, p.len() + 1 as int) =~= p.push(k[p.len() as int]));
}

// ---------------------------------------------------------------------------
// Construction helpers.

fn none_children<V>(n: usize) -> (r: Vec<Option<Box<ArtNode<V>>>>)
    ensures
        r@.len() == n,
        forall|i: int| 0 <= i < n ==> (#[trigger] r@[i]) is None,
{
    let mut v: Vec<Option<Box<ArtNode<V>>>> = Vec::new();
    let mut i: usize = 0;
    while i < n
        invariant
            i <= n,
            v@.len() == i,
            forall|t: int| 0 <= t < i ==> (#[trigger] v@[t]) is None,
        decreases n - i,
    {
        v.push(None);
        i = i + 1;
    }
    v
}

fn filled_bytes(n: usize, b: u8) -> (r: Vec<u8>)
    ensures
        r@ == Seq::new(n as nat, |_i: int| b),
{
    let mut v: Vec<u8> = Vec::new();
    let mut i: usize = 0;
    while i < n
        invariant
            i <= n,
            v@ == Seq::new(i as nat, |_i: int| b),
        decreases n - i,
    {
        v.push(b);
        i = i + 1;
    }
    v
}

fn take_child<V>(children: &mut Vec<Option<Box<ArtNode<V>>>>, i: usize) -> (r: Option<Box<ArtNode<V>>>)
    requires
        i < old(children)@.len(),
    ensures
        r == old(children)@[i as int],
        final(children)@ == old(children)@.update(i as int, None),
{
    let mut x: Option<Box<ArtNode<V>>> = None;
    std::mem::swap(&mut x, &mut children[i]);
    x
}

/// The first empty slot, where fewer slots are occupied than there are.
fn first_free<V>(children: &Vec<Option<Box<ArtNode<V>>>>) -> (r: usize)
    requires
        count_some(children@) < children@.len(),
    ensures
        r < children@.len(),
        children@[r as int] is None,
        forall|j: int| 0 <= j < r ==> (#[trigger] children@[j]) is Some,
{
    let mut i: usize = 0;
    while i < children.len()
        invariant
            i <= children@.len(),
            count_some(children@) < children@.len(),
            forall|j: int| 0 <= j < i ==> (#[trigger] children@[j]) is Some,
        decreases children@.len() - i,
    {
        if children[i].is_none() {
            return i;
        }
        i = i + 1;
    }
    proof {
        lemma_count_prefix(children@, children@.len() as int);
    }
    0
}

fn copy_key(key: &[u8]) -> (r: Vec<u8>)
    ensures
        r@ == key@,
{
    vstd::slice::slice_to_vec(key)
}

impl<V: Copy> ArtNode<V> {
    fn new_leaf(key: Vec<u8>, value: V) -> (r: Self)
        ensures
            r == (ArtNode::Leaf { key, value }),
    {
        ArtNode::Leaf { key, value }
    }

    fn new_node4() -> (r: Self)
        ensures
            r matches ArtNode::Node4 { keys, children, num_children, val } && keys@.len() == 4 && children@.len() == 4
                && num_children == 0 && val is None && forall|i: int| 0 <= i < 4 ==> (#[trigger] children@[i]) is None,
    {
        ArtNode::Node4 { keys: filled_bytes(4, 0), children: none_children(4), num_children: 0, val: None }
    }

    /// The value stored at this inner node, if any.
    fn get_node_val(&self) -> (r: Option<V>)
        ensures
            r == match val_of(*self) {
                Some((_, v)) => Some(v),
                None => None::<V>,
            },
    {
        match self {
            ArtNode::Node4 { val, .. } | ArtNode::Node16 { val, .. } | ArtNode::Node48 { val, .. } | ArtNode::Node256 {
                val,
                ..
            } => match val {
                Some((_, v)) => Some(*v),
                None => None,
            },
            ArtNode::Leaf { .. } => None,
        }
    }
}

impl<V: Copy> ArtNode<V> {
    /// The child slot that byte `b` leads to.
    fn find_slot(&self, b: u8) -> (r: Option<usize>)
        requires
            shape_ok(*self),
        ensures
            match slot_of(*self, b) {
                Some(i) => r == Some(i as usize) && 0 <= i < children_of(*self).len(),
                None => r is None,
            },
    {
        match self {
            ArtNode::Node4 { keys, num_children, .. } | ArtNode::Node16 { keys, num_children, .. } => {
                let mut i: usize = 0;
                while i < *num_children as usize
                    invariant
                        i <= *num_children,
                        *num_children <= keys@.len(),
                        slot_of(*self, b) == first_match(keys@, *num_children as int, b, 0),
                        (*num_children as int) <= children_of(*self).len(),
                        first_match(keys@, *num_children as int, b, 0) == first_match(keys@, *num_children as int, b, i as int),
                    decreases *num_children - i,
                {
                    if keys[i] == b {
                        proof {
                            lemma_first_match::<V>(keys@, *num_children as int, b, i as int);
                        }
                        return Some(i);
                    }
                    i = i + 1;
                }
                None
            },
            ArtNode::Node48 { index, .. } => {
                let s = index[b as usize];
                if s == EMPTY_SLOT {
                    None
                } else {
                    assert(index@[b as int] < 48);
                    Some(s as usize)
                }
            },
            ArtNode::Node256 { .. } => Some(b as usize),
            ArtNode::Leaf { .. } => None,
        }
    }

    fn children_ref(&self) -> (r: &Vec<Option<Box<ArtNode<V>>>>)
        requires
            !(*self is Leaf),
        ensures
            r@ == children_of(*self),
    {
        match self {
            ArtNode::Node4 { children, .. } | ArtNode::Node16 { children, .. } | ArtNode::Node48 { children, .. }
            | ArtNode::Node256 { children, .. } => children,
            ArtNode::Leaf { .. } => {
                assert(false);
                loop
                    invariant
                        false,
                    decreases 0nat,
                {
                }
            },
        }
    }
}

/// Looks `key` up from `root`.
fn node_lookup<V: Copy>(root: &ArtNode<V>, key: &[u8]) -> (r: Option<V>)
    requires
        node_wf(*root, Seq::empty()),
    ensures
        r == node_get(*root, key@, 0),
{
    let mut current: &ArtNode<V> = root;
    let mut depth: usize = 0;
    assert(key@.take(0) =~= Seq::<u8>::empty());
    loop
        invariant
            depth <= key@.len(),
            node_wf(*current, key@.take(depth as int)),
            node_get(*root, key@, 0) == node_get(*current, key@, depth as nat),
        decreases key@.len() - depth,
    {
        match current {
            ArtNode::Leaf { key: lk, value } => {
                if crate::index::lex::bytes_equal(lk.as_slice(), key) {
                    return Some(*value);
                } else {
                    return None;
                }
            },
            _ => {},
        }
        if depth >= key.len() {
            return current.get_node_val();
        }
        let b = key[depth];
        proof {
            lemma_wf_shape(*current, key@.take(depth as int));
        }
        let slot = match current.find_slot(b) {
            Some(s) => s,
            None => return None,
        };
        let children = current.children_ref();
        match &children[slot] {
            Some(c) => {
                proof {
                    lemma_child_wf(*current, key@.take(depth as int), b);
                    assert(key@.take(depth as int).push(b) =~= key@.take(depth + 1));
                }
                current = &**c;
                depth = depth + 1;
            },
            None => return None,
        }
    }
}

/// The child that a byte leads to is well formed for the path extended by
/// that byte.
proof fn lemma_child_wf<V>(n: ArtNode<V>, p: Seq<u8>, b: u8)
    requires
        node_wf(n, p),
        child_at(n, b) is Some,
    ensures
        node_wf(child_at(n, b)->0, p.push(b)),
{
    match n {
        ArtNode::Node4 { keys, num_children, .. } => {
            lemma_first_match::<V>(keys@, num_children as int, b, 0);
        },
        ArtNode::Node16 { keys, num_children, .. } => {
            lemma_first_match::<V>(keys@, num_children as int, b, 0);
        },
        ArtNode::Node48 { index, .. } => {
            assert(index@[b as int] != EMPTY_SLOT);
        },
        ArtNode::Node256 { children, .. } => {
            assert(children@[b as int] is Some);
        },
        ArtNode::Leaf { .. } => {},
    }
}

// ---------------------------------------------------------------------------
// Insertion.

/// `new` answers every lookup on the path so far as `old` does, except
/// that `k0` now finds `v`.
pub open spec fn inserted<V>(old: ArtNode<V>, new: ArtNode<V>, k0: Seq<u8>, v: V, d: nat) -> bool {
    forall|k: Seq<u8>|
        #![trigger node_get(new, k, d)]
        starts(k, k0.take(d as int)) ==> node_get(new, k, d) == if k == k0 {
            Some(v)
        } else {
            node_get(old, k, d)
        }
}

/// Inner nodes with the same value that agree on the child of every byte
/// but `b` answer the same for keys whose next byte is not `b`.
proof fn lemma_same_but<V>(n: ArtNode<V>, n2: ArtNode<V>, k: Seq<u8>, d: nat, b: u8)
    requires
        !(n is Leaf),
        !(n2 is Leaf),
        val_of(n) == val_of(n2),
        d < k.len() ==> k[d as int] != b && child_at(n, k[d as int]) == child_at(n2, k[d as int]),
    ensures
        node_get(n, k, d) == node_get(n2, k, d),
{
}

proof fn lemma_first_match_extend<V>(k1: Seq<u8>, k2: Seq<u8>, n: int, b: u8, x: u8)
    requires
        0 <= n < k1.len(),
        n <= k2.len(),
        forall|i: int| 0 <= i < n ==> #[trigger] k1[i] == k2[i],
        k1[n] == x,
        x != b,
    ensures
        first_match(k1, n + 1, b, 0) == first_match(k2, n, b, 0),
{
    lemma_first_match_extend_from::<V>(k1, k2, n, b, x, 0);
}

proof fn lemma_first_match_extend_from<V>(k1: Seq<u8>, k2: Seq<u8>, n: int, b: u8, x: u8, i: int)
    requires
        0 <= i <= n < k1.len(),
        n <= k2.len(),
        forall|t: int| 0 <= t < n ==> #[trigger] k1[t] == k2[t],
        k1[n] == x,
        x != b,
    ensures
        first_match(k1, n + 1, b, i) == first_match(k2, n, b, i),
    decreases n - i,
{
    if i < n {
        assert(k1[i] == k2[i]);
        lemma_first_match_extend_from::<V>(k1, k2, n, b, x, i + 1);
    } else {
        assert(first_match(k1, n + 1, b, n + 1) is None);
    }
}

/// A node with the given keys and children, holding `val`.
fn small_node<V>(keys: Vec<u8>, children: Vec<Option<Box<ArtNode<V>>>>, num: u8, val: Option<(Vec<u8>, V)>, wide: bool) -> (r: ArtNode<V>)
    ensures
        r == small_node_spec(keys, children, num, val, wide),
{
    if wide {
        ArtNode::Node16 { keys, children, num_children: num, val }
    } else {
        ArtNode::Node4 { keys, children, num_children: num, val }
    }
}

impl<V: Copy> ArtNode<V> {
    /// Inserts into the subtree `node`, reached by the first `depth` bytes of `key`.
    fn insert_rec(node: Box<ArtNode<V>>, key: &[u8], value: V, depth: usize) -> (r: (Box<ArtNode<V>>, Option<V>))
        requires
            depth <= key@.len(),
            node_wf(*node, key@.take(depth as int)),
        ensures
            node_wf(*r.0, key@.take(depth as int)),
            r.1 == node_get(*node, key@, depth as nat),
            inserted(*node, *r.0, key@, value, depth as nat),
        decreases key@.len() - depth, 2nat,
    {
        match *node {
            ArtNode::Leaf { key: lk, value: lv } => Self::insert_into_leaf(lk, lv, key, value, depth),
            other => Self::insert_into_inner(other, key, value, depth),
        }
    }

    fn insert_into_leaf(lk: Vec<u8>, lv: V, key: &[u8], value: V, depth: usize) -> (r: (Box<ArtNode<V>>, Option<V>))
        requires
            depth <= key@.len(),
            starts(lk@, key@.take(depth as int)),
        ensures
            node_wf(*r.0, key@.take(depth as int)),
            r.1 == node_get(ArtNode::Leaf { key: lk, value: lv }, key@, depth as nat),
            inserted(ArtNode::Leaf { key: lk, value: lv }, *r.0, key@, value, depth as nat),
        decreases key@.len() - depth, 0nat,
    {
        let ghost old = ArtNode::Leaf { key: lk, value: lv };
        let ghost p = key@.take(depth as int);
        let ghost lkv = lk@;
        if crate::index::lex::bytes_equal(lk.as_slice(), key) {
            let r = ArtNode::Leaf { key: lk, value };
            proof {
                assert(starts(key@, p));
            }
            return (Box::new(r), Some(lv));
        }
        let has_old = depth < lk.len();
        let has_new = depth < key.len();
        if has_old && has_new && lk[depth] == key[depth] {
            let ob = lk[depth];
            proof {
                lemma_starts_push(lkv, p);
                assert(key@.take(depth + 1) =~= p.push(key@[depth as int]));
            }
            let child = Box::new(ArtNode::Leaf { key: lk, value: lv });
            let (child2, _) = Self::insert_rec(child, key, value, depth + 1);
            let mut keys = filled_bytes(4, 0);
            let mut children = none_children::<V>(4);
            keys[0] = ob;
            children[0] = Some(child2);
            let r = ArtNode::Node4 { keys, children, num_children: 1, val: None };
            proof {
                assert(first_match(keys@, 1, ob, 0) == Some(0int));
                assert(child_at(r, ob) == Some(*child2));
                assert forall|k: Seq<u8>| #![trigger node_get(r, k, depth as nat)] starts(k, p) implies node_get(r, k, depth as nat)
                    == if k == key@ { Some(value) } else { node_get(old, k, depth as nat) } by {
                    if k.len() > depth {
                        if k[depth as int] == ob {
                            assert(k.take(depth + 1) =~= key@.take(depth + 1)) by {
                                assert(k.subrange(0, depth as int) == p);
                            }
                            assert(starts(k, key@.take(depth + 1)));
                            assert(node_get(*child2, k, (depth + 1) as nat) == if k == key@ {
                                Some(value)
                            } else {
                                node_get(old, k, (depth + 1) as nat)
                            });
                            assert(node_get(old, k, (depth + 1) as nat) == node_get(old, k, depth as nat));
                        } else {
                            lemma_first_match::<V>(keys@, 1, k[depth as int], 0);
                            assert(child_at(r, k[depth as int]) is None);
                            assert(k != lkv);
                            assert(k != key@);
                        }
                    } else {
                        assert(k != lkv);
                        assert(k != key@);
                    }
                }
            }
            return (Box::new(r), None);
        }
        let mut keys = filled_bytes(4, 0);
        let mut children = none_children::<V>(4);
        let mut num: u8 = 0;
        let mut val: Option<(Vec<u8>, V)> = None;
        let ghost okey = lk@;
        let nk = copy_key(key);
        let ghost nleaf = ArtNode::Leaf { key: nk, value };
        if has_old {
            keys[0] = lk[0 + depth];
            children[0] = Some(Box::new(ArtNode::Leaf { key: lk, value: lv }));
            num = 1;
        } else {
            val = Some((lk, lv));
        }
        if has_new {
            let nb = key[depth];
            keys[num as usize] = nb;
            children[num as usize] = Some(Box::new(ArtNode::Leaf { key: nk, value }));
            num = num + 1;
        } else {
            val = Some((nk, value));
        }
        let r = ArtNode::Node4 { keys, children, num_children: num, val };
        proof {
            if has_old {
                lemma_starts_push(okey, p);
            }
            if has_new {
                assert(starts(key@, p));
                lemma_starts_push(key@, p);
            }
            if !has_old && !has_new {
                assert(okey =~= key@) by {
                    assert(okey == okey.subrange(0, p.len() as int));
                    assert(key@ == key@.subrange(0, p.len() as int));
                }
            }
            if !has_old {
                assert(okey =~= p);
            }
            if !has_new {
                assert(key@ =~= p);
            }
            assert(node_wf(r, p)) by {
                assert forall|i: int| 0 <= i < num implies (#[trigger] children@[i]) is Some && node_wf(
                    *children@[i]->0,
                    p.push(keys@[i]),
                ) by {
                    if has_old && i == 0 {
                        assert(children@[0] == Some(Box::new(old)));
                        assert(keys@[0] == okey[depth as int]);
                    } else {
                        assert(children@[i] == Some(Box::new(nleaf)));
                        assert(keys@[i] == key@[depth as int]);
                    }
                }
                assert forall|i: int| num <= i < 4 implies (#[trigger] children@[i]) is None by {}
                assert forall|x: int, y: int| 0 <= x < y < num implies #[trigger] keys@[x] != #[trigger] keys@[y] by {
                    assert(x == 0 && y == 1 && has_old && has_new);
                }
                assert(val_ok(val, p));
            }
            assert forall|k: Seq<u8>| #![trigger node_get(r, k, depth as nat)] starts(k, p) implies node_get(r, k, depth as nat)
                == if k == key@ { Some(value) } else { node_get(old, k, depth as nat) } by {
                if k.len() > depth {
                    let b = k[depth as int];
                    lemma_first_match::<V>(keys@, num as int, b, 0);
                    if has_old && b == okey[depth as int] {
                        lemma_first_match_at::<V>(keys@, num as int, b, 0);
                        assert(child_at(r, b) == Some(old));
                        assert(k != key@);
                        assert(node_get(r, k, depth as nat) == node_get(old, k, (depth + 1) as nat));
                        assert(node_get(old, k, (depth + 1) as nat) == node_get(old, k, depth as nat));
                    } else if has_new && b == key@[depth as int] {
                        let j: int = if has_old { 1 } else { 0 };
                        lemma_first_match_at::<V>(keys@, num as int, b, j);
                        assert(child_at(r, b) == Some(nleaf));
                        assert(k != okey);
                        assert(node_get(r, k, depth as nat) == node_get(nleaf, k, (depth + 1) as nat));
                        assert(node_get(nleaf, k, (depth + 1) as nat) == if k == key@ { Some(value) } else { None::<V> });
                        assert(node_get(old, k, depth as nat) == None::<V>);
                    } else {
                        assert(k != okey);
                        assert(k != key@);
                        assert(child_at(r, b) is None);
                    }
                } else {
                    assert(k =~= p) by {
                        assert(k == k.subrange(0, p.len() as int));
                    }
                    assert(node_get(r, k, depth as nat) == match val {
                        Some((_, v)) => Some(v),
                        None => None::<V>,
                    });
                    if has_old && has_new {
                        assert(k != okey);
                        assert(k != key@);
                    }
                }
            }
        }
        (Box::new(r), None)
    }
}

/// `n` with its value replaced.
pub open spec fn with_val<V>(n: ArtNode<V>, val: Option<(Vec<u8>, V)>) -> ArtNode<V> {
    match n {
        ArtNode::Leaf { .. } => n,
        ArtNode::Node4 { keys, children, num_children, .. } => ArtNode::Node4 { keys, children, num_children, val },
        ArtNode::Node16 { keys, children, num_children, .. } => ArtNode::Node16 { keys, children, num_children, val },
        ArtNode::Node48 { index, children, num_children, .. } => ArtNode::Node48 { index, children, num_children, val },
        ArtNode::Node256 { children, num_children, .. } => ArtNode::Node256 { children, num_children, val },
    }
}

impl<V: Copy> ArtNode<V> {
    /// Replaces the value of an inner node; returns the node and the value
    /// it held.
    fn set_node_val(n: ArtNode<V>, key: Vec<u8>, value: V) -> (r: (ArtNode<V>, Option<V>))
        requires
            !(n is Leaf),
        ensures
            r.0 == with_val(n, Some((key, value))),
            r.1 == match val_of(n) {
                Some((_, v)) => Some(v),
                None => None::<V>,
            },
    {
        match n {
            ArtNode::Node4 { keys, children, num_children, val } => {
                let old = match val { Some((_, v)) => Some(v), None => None };
                (ArtNode::Node4 { keys, children, num_children, val: Some((key, value)) }, old)
            },
            ArtNode::Node16 { keys, children, num_children, val } => {
                let old = match val { Some((_, v)) => Some(v), None => None };
                (ArtNode::Node16 { keys, children, num_children, val: Some((key, value)) }, old)
            },
            ArtNode::Node48 { index, children, num_children, val } => {
                let old = match val { Some((_, v)) => Some(v), None => None };
                (ArtNode::Node48 { index, children, num_children, val: Some((key, value)) }, old)
            },
            ArtNode::Node256 { children, num_children, val } => {
                let old = match val { Some((_, v)) => Some(v), None => None };
                (ArtNode::Node256 { children, num_children, val: Some((key, value)) }, old)
            },
            ArtNode::Leaf { key: k, value: v } => {
                proof {
                    assert(false);
                }
                (ArtNode::Leaf { key: k, value: v }, None)
            },
        }
    }

    fn insert_into_inner(n: ArtNode<V>, key: &[u8], value: V, depth: usize) -> (r: (Box<ArtNode<V>>, Option<V>))
        requires
            depth <= key@.len(),
            !(n is Leaf),
            node_wf(n, key@.take(depth as int)),
        ensures
            node_wf(*r.0, key@.take(depth as int)),
            r.1 == node_get(n, key@, depth as nat),
            inserted(n, *r.0, key@, value, depth as nat),
        decreases key@.len() - depth, 1nat,
    {
        let ghost p = key@.take(depth as int);
        if depth == key.len() {
            let (n2, old) = Self::set_node_val(n, copy_key(key), value);
            proof {
                assert(key@ =~= p);
                assert forall|k: Seq<u8>| #![trigger node_get(n2, k, depth as nat)] starts(k, p) implies node_get(n2, k, depth as nat)
                    == if k == key@ { Some(value) } else { node_get(n, k, depth as nat) } by {
                    assert(k.len() >= depth);
                    if k.len() == depth {
                        assert(k =~= p) by {
                            assert(k == k.subrange(0, p.len() as int));
                        }
                    }
                }
            }
            return (Box::new(n2), old);
        }
        match n {
            ArtNode::Node4 { keys, children, num_children, val } => Self::insert_small(
                keys,
                children,
                num_children,
                val,
                false,
                key,
                value,
                depth,
            ),
            ArtNode::Node16 { keys, children, num_children, val } => Self::insert_small(
                keys,
                children,
                num_children,
                val,
                true,
                key,
                value,
                depth,
            ),
            ArtNode::Node48 { index, children, num_children, val } => Self::insert_48(
                index,
                children,
                num_children,
                val,
                key,
                value,
                depth,
            ),
            ArtNode::Node256 { children, num_children, val } => Self::insert_256(
                children,
                num_children,
                val,
                key,
                value,
                depth,
            ),
            ArtNode::Leaf { key: k, value: v } => {
                proof {
                    assert(false);
                }
                (Box::new(ArtNode::Leaf { key: k, value: v }), None)
            },
        }
    }

    fn insert_small(
        keys: Vec<u8>,
        children: Vec<Option<Box<ArtNode<V>>>>,
        num: u8,
        val: Option<(Vec<u8>, V)>,
        wide: bool,
        key: &[u8],
        value: V,
        depth: usize,
    ) -> (r: (Box<ArtNode<V>>, Option<V>))
        requires
            depth < key@.len(),
            node_wf(small_node_spec(keys, children, num, val, wide), key@.take(depth as int)),
        ensures
            node_wf(*r.0, key@.take(depth as int)),
            r.1 == node_get(small_node_spec(keys, children, num, val, wide), key@, depth as nat),
            inserted(small_node_spec(keys, children, num, val, wide), *r.0, key@, value, depth as nat),
        decreases key@.len() - depth, 0nat,
    {
        let ghost p = key@.take(depth as int);
        let ghost old = small_node_spec(keys, children, num, val, wide);
        let ghost ok = keys@;
        let ghost oc = children@;
        let cap: u8 = if wide { 16 } else { 4 };
        let b = key[depth];
        let mut keys = keys;
        let mut children = children;
        proof {
            assert(starts(key@, p));
            assert(key@.take(depth + 1) =~= p.push(b));
        }
        let mut i: usize = 0;
        while i < num as usize
            invariant
                i <= num <= cap,
                keys@ == ok,
                ok.len() == cap,
                first_match(ok, num as int, b, 0) == first_match(ok, num as int, b, i as int),
            ensures
                i <= num,
                i < num ==> ok[i as int] == b,
                first_match(ok, num as int, b, 0) == first_match(ok, num as int, b, i as int),
            decreases num - i,
        {
            if keys[i] == b {
                break;
            }
            i = i + 1;
        }
        proof {
            lemma_first_match::<V>(ok, num as int, b, i as int);
            lemma_first_match::<V>(ok, num as int, b, 0);
        }
        if i < num as usize {
            // The byte has a child: insert below it.
            proof {
                assert(first_match(ok, num as int, b, i as int) == Some(i as int));
                assert(slot_of(old, b) == Some(i as int));
                assert(child_at(old, b) == Some(*oc[i as int]->0));
            }
            let c = take_child(&mut children, i).unwrap();
            let (c2, res) = Self::insert_rec(c, key, value, depth + 1);
            children[i] = Some(c2);
            let r = small_node(keys, children, num, val, wide);
            proof {
                assert(children@ =~= oc.update(i as int, Some(c2)));
                assert(node_wf(r, p)) by {
                    assert forall|j: int| 0 <= j < num implies (#[trigger] children@[j]) is Some && node_wf(
                        *children@[j]->0,
                        p.push(ok[j]),
                    ) by {
                        if j != i {
                            assert(children@[j] == oc[j]);
                        }
                    }
                    assert forall|j: int| num <= j < cap implies (#[trigger] children@[j]) is None by {
                        assert(children@[j] == oc[j]);
                    }
                }
                assert forall|x: u8| x != b implies #[trigger] child_at(r, x) == child_at(old, x) by {
                    lemma_first_match::<V>(ok, num as int, x, 0);
                    match first_match(ok, num as int, x, 0) {
                        Some(j) => {
                            assert(children@[j] == oc[j]);
                        },
                        None => {},
                    }
                }
                assert(child_at(r, b) == Some(*c2));
                lemma_inserted_below(old, r, key@, value, depth as nat, *oc[i as int]->0, *c2);
            }
            return (Box::new(r), res);
        }
        // No child for the byte: add a leaf, growing the node when full.
        let leaf = Box::new(ArtNode::Leaf { key: copy_key(key), value });
        proof {
            lemma_starts_push(key@, p);
            assert(node_wf(*leaf, p.push(b)));
            assert(child_at(old, b) is None);
        }
        if num < cap {
            keys[num as usize] = b;
            children[num as usize] = Some(leaf);
            let r = small_node(keys, children, num + 1, val, wide);
            proof {
                assert(keys@ =~= ok.update(num as int, b));
                assert(children@ =~= oc.update(num as int, Some(leaf)));
                assert(node_wf(r, p)) by {
                    assert forall|j: int| 0 <= j < num + 1 implies (#[trigger] children@[j]) is Some && node_wf(
                        *children@[j]->0,
                        p.push(keys@[j]),
                    ) by {
                        if j < num {
                            assert(children@[j] == oc[j]);
                            assert(keys@[j] == ok[j]);
                        }
                    }
                    assert forall|x: int, y: int| 0 <= x < y < num + 1 implies #[trigger] keys@[x] != #[trigger] keys@[y] by {
                        if y == num {
                            assert(ok[x] != b);
                        } else {
                            assert(keys@[x] == ok[x] && keys@[y] == ok[y]);
                        }
                    }
                    assert forall|j: int| num + 1 <= j < cap implies (#[trigger] children@[j]) is None by {
                        assert(children@[j] == oc[j]);
                    }
                }
                assert forall|x: u8| x != b implies #[trigger] child_at(r, x) == child_at(old, x) by {
                    lemma_first_match_extend::<V>(keys@, ok, num as int, x, b);
                    lemma_first_match::<V>(ok, num as int, x, 0);
                    match first_match(ok, num as int, x, 0) {
                        Some(j) => {
                            assert(children@[j] == oc[j]);
                        },
                        None => {},
                    }
                }
                lemma_first_match_at::<V>(keys@, num + 1, b, num as int);
                assert(child_at(r, b) == Some(*leaf));
                lemma_inserted_new_child(old, r, key@, value, depth as nat, *leaf);
            }
            return (Box::new(r), None);
        }
        if !wide {
            let r = Self::grow_to_16(keys, children, val, b, leaf, Ghost(p));
            proof {
                lemma_inserted_new_child(old, r, key@, value, depth as nat, *leaf);
            }
            return (Box::new(r), None);
        }
        let r = Self::grow_to_48(keys, children, val, b, leaf, Ghost(p));
        proof {
            lemma_inserted_new_child(old, r, key@, value, depth as nat, *leaf);
        }
        (Box::new(r), None)
    }
}

pub open spec fn small_node_spec<V>(keys: Vec<u8>, children: Vec<Option<Box<ArtNode<V>>>>, num: u8, val: Option<(Vec<u8>, V)>, wide: bool) -> ArtNode<V> {
    if wide {
        ArtNode::Node16 { keys, children, num_children: num, val }
    } else {
        ArtNode::Node4 { keys, children, num_children: num, val }
    }
}


/// A new child below a byte that had none: the tree now also finds `key`.
proof fn lemma_inserted_new_child<V>(old: ArtNode<V>, new: ArtNode<V>, key: Seq<u8>, value: V, d: nat, leaf: ArtNode<V>)
    requires
        !(old is Leaf),
        !(new is Leaf),
        val_of(old) == val_of(new),
        d < key.len(),
        child_at(old, key[d as int]) is None,
        child_at(new, key[d as int]) == Some(leaf),
        leaf matches ArtNode::Leaf { key: lk, value: lv } && lk@ == key && lv == value,
        forall|x: u8| x != key[d as int] ==> #[trigger] child_at(new, x) == child_at(old, x),
    ensures
        inserted(old, new, key, value, d),
{
    let b = key[d as int];
    assert forall|k: Seq<u8>| #![trigger node_get(new, k, d)] starts(k, key.take(d as int)) implies node_get(new, k, d)
        == if k == key { Some(value) } else { node_get(old, k, d) } by {
        if k.len() > d {
            let kb = k[d as int];
            if kb == b {
                assert(node_get(leaf, k, d + 1) == if k == key { Some(value) } else { None::<V> });
                assert(node_get(old, k, d) == None::<V>);
            } else {
                assert(child_at(new, kb) == child_at(old, kb));
                lemma_same_but(old, new, k, d, b);
            }
        } else {
            assert(k != key);
        }
    }
}

/// An insertion below the child of `key`'s next byte, all other children
/// kept: the tree now finds `key`.
proof fn lemma_inserted_below<V>(old: ArtNode<V>, new: ArtNode<V>, key: Seq<u8>, value: V, d: nat, c: ArtNode<V>, c2: ArtNode<V>)
    requires
        !(old is Leaf),
        !(new is Leaf),
        val_of(old) == val_of(new),
        d < key.len(),
        child_at(old, key[d as int]) == Some(c),
        child_at(new, key[d as int]) == Some(c2),
        inserted(c, c2, key, value, d + 1),
        forall|x: u8| x != key[d as int] ==> #[trigger] child_at(new, x) == child_at(old, x),
    ensures
        inserted(old, new, key, value, d),
{
    let b = key[d as int];
    assert forall|k: Seq<u8>| #![trigger node_get(new, k, d)] starts(k, key.take(d as int)) implies node_get(new, k, d)
        == if k == key { Some(value) } else { node_get(old, k, d) } by {
        if k.len() > d {
            let kb = k[d as int];
            if kb == b {
                assert(k.take((d + 1) as int) =~= key.take((d + 1) as int)) by {
                    assert(k.subrange(0, d as int) == key.take(d as int));
                }
                assert(starts(k, key.take((d + 1) as int)));
                assert(node_get(c2, k, d + 1) == if k == key { Some(value) } else { node_get(c, k, d + 1) });
            } else {
                assert(child_at(new, kb) == child_at(old, kb));
                lemma_same_but(old, new, k, d, b);
            }
        } else {
            assert(k != key);
        }
    }
}

impl<V: Copy> ArtNode<V> {
    /// A full 4-child node grown to 16 children, with `leaf` added under `b`.
    fn grow_to_16(
        keys: Vec<u8>,
        children: Vec<Option<Box<ArtNode<V>>>>,
        val: Option<(Vec<u8>, V)>,
        b: u8,
        leaf: Box<ArtNode<V>>,
        Ghost(p): Ghost<Seq<u8>>,
    ) -> (r: ArtNode<V>)
        requires
            node_wf(ArtNode::Node4 { keys, children, num_children: 4, val }, p),
            forall|j: int| 0 <= j < 4 ==> keys@[j] != b,
            node_wf(*leaf, p.push(b)),
        ensures
            node_wf(r, p),
            !(r is Leaf),
            val_of(r) == val,
            child_at(r, b) == Some(*leaf),
            forall|x: u8|
                x != b ==> #[trigger] child_at(r, x) == child_at(ArtNode::Node4 { keys, children, num_children: 4, val }, x),
    {
        let ghost old = ArtNode::Node4 { keys, children, num_children: 4u8, val };
        let ghost oc = children@;
        let mut children = children;
        let mut k16 = filled_bytes(16, 0);
        let mut c16 = none_children::<V>(16);
        let mut i: usize = 0;
        while i < 4
            invariant
                i <= 4,
                keys@.len() == 4,
                oc.len() == 4,
                children@.len() == 4,
                k16@.len() == 16,
                c16@.len() == 16,
                forall|j: int| 0 <= j < i ==> #[trigger] k16@[j] == keys@[j],
                forall|j: int| 0 <= j < i ==> #[trigger] c16@[j] == oc[j],
                forall|j: int| i <= j < 16 ==> (#[trigger] c16@[j]) is None,
                forall|j: int| i <= j < 4 ==> (#[trigger] children@[j]) == oc[j],
            decreases 4 - i,
        {
            k16[i] = keys[i];
            let c = take_child(&mut children, i);
            c16[i] = c;
            i = i + 1;
        }
        k16[4] = b;
        c16[4] = Some(leaf);
        let r = ArtNode::Node16 { keys: k16, children: c16, num_children: 5, val };
        proof {
            assert(node_wf(r, p)) by {
                assert forall|j: int| 0 <= j < 5 implies (#[trigger] c16@[j]) is Some && node_wf(*c16@[j]->0, p.push(k16@[j])) by {
                    if j < 4 {
                        assert(c16@[j] == oc[j]);
                        assert(k16@[j] == keys@[j]);
                    }
                }
                assert forall|x: int, y: int| 0 <= x < y < 5 implies #[trigger] k16@[x] != #[trigger] k16@[y] by {
                    if y < 4 {
                        assert(k16@[x] == keys@[x] && k16@[y] == keys@[y]);
                    } else {
                        assert(k16@[x] == keys@[x]);
                    }
                }
                assert forall|j: int| 5 <= j < 16 implies (#[trigger] c16@[j]) is None by {}
            }
            assert forall|x: u8| x != b implies #[trigger] child_at(r, x) == child_at(old, x) by {
                assert forall|t: int| 0 <= t < 4 implies #[trigger] k16@[t] == keys@[t] by {}
                lemma_first_match_extend::<V>(k16@, keys@, 4, x, b);
                lemma_first_match::<V>(keys@, 4, x, 0);
                match first_match(keys@, 4, x, 0) {
                    Some(j) => {
                        assert(c16@[j] == oc[j]);
                    },
                    None => {},
                }
            }
            assert forall|x: int, y: int| 0 <= x < y < 5 implies #[trigger] k16@[x] != #[trigger] k16@[y] by {
                if y < 4 {
                    assert(k16@[x] == keys@[x] && k16@[y] == keys@[y]);
                } else {
                    assert(k16@[x] == keys@[x]);
                }
            }
            lemma_first_match_at::<V>(k16@, 5, b, 4);
        }
        r
    }

    /// A full 16-child node grown to 48 children, with `leaf` added under `b`.
    fn grow_to_48(
        keys: Vec<u8>,
        children: Vec<Option<Box<ArtNode<V>>>>,
        val: Option<(Vec<u8>, V)>,
        b: u8,
        leaf: Box<ArtNode<V>>,
        Ghost(p): Ghost<Seq<u8>>,
    ) -> (r: ArtNode<V>)
        requires
            node_wf(ArtNode::Node16 { keys, children, num_children: 16, val }, p),
            forall|j: int| 0 <= j < 16 ==> keys@[j] != b,
            node_wf(*leaf, p.push(b)),
        ensures
            node_wf(r, p),
            !(r is Leaf),
            val_of(r) == val,
            child_at(r, b) == Some(*leaf),
            forall|x: u8|
                x != b ==> #[trigger] child_at(r, x) == child_at(ArtNode::Node16 { keys, children, num_children: 16, val }, x),
    {
        let ghost old = ArtNode::Node16 { keys, children, num_children: 16u8, val };
        let ghost oc = children@;
        let mut children = children;
        let mut index = filled_bytes(256, EMPTY_SLOT);
        let mut c48 = none_children::<V>(48);
        let mut i: usize = 0;
        while i < 16
            invariant
                i <= 16,
                keys@.len() == 16,
                oc.len() == 16,
                children@.len() == 16,
                index@.len() == 256,
                c48@.len() == 48,
                forall|j: int, l: int| 0 <= j < l < 16 ==> #[trigger] keys@[j] != #[trigger] keys@[l],
                forall|j: int| 0 <= j < i ==> index@[#[trigger] keys@[j] as int] == j,
                forall|x: int|
                    0 <= x < 256 && #[trigger] index@[x] != EMPTY_SLOT ==> index@[x] < i && keys@[index@[x] as int] == x,
                forall|j: int| 0 <= j < i ==> #[trigger] c48@[j] == oc[j],
                forall|j: int| i <= j < 48 ==> (#[trigger] c48@[j]) is None,
                forall|j: int| i <= j < 16 ==> (#[trigger] children@[j]) == oc[j],
            decreases 16 - i,
        {
            let kb = keys[i];
            proof {
                if index@[kb as int] != EMPTY_SLOT {
                    let j = index@[kb as int] as int;
                    assert(keys@[j] == kb);
                    assert(keys@[j] != keys@[i as int]);
                }
            }
            let ghost before = index@;
            index[kb as usize] = i as u8;
            proof {
                assert forall|j: int| 0 <= j < i + 1 implies index@[#[trigger] keys@[j] as int] == j by {
                    if j < i {
                        assert(keys@[j] != keys@[i as int]);
                        assert(before[keys@[j] as int] == j);
                    }
                }
                assert forall|x: int| 0 <= x < 256 && #[trigger] index@[x] != EMPTY_SLOT implies index@[x] < i + 1
                    && keys@[index@[x] as int] == x by {
                    if x != kb as int {
                        assert(index@[x] == before[x]);
                    }
                }
            }
            let c = take_child(&mut children, i);
            c48[i] = c;
            i = i + 1;
        }
        proof {
            if index@[b as int] != EMPTY_SLOT {
                assert(keys@[index@[b as int] as int] == b);
            }
        }
        let ghost mid = index@;
        index[b as usize] = 16;
        c48[16] = Some(leaf);
        let r = ArtNode::Node48 { index, children: c48, num_children: 17, val };
        proof {
            assert forall|x: int| 0 <= x < 256 && #[trigger] index@[x] != EMPTY_SLOT implies (index@[x] < 16 && keys@[index@[x] as int] == x
                && x != b as int) || (index@[x] == 16 && x == b as int) by {
                if x != b as int {
                    assert(index@[x] == mid[x]);
                }
            }
            assert forall|j: int| 0 <= j < 16 implies index@[#[trigger] keys@[j] as int] == j by {
                assert(mid[keys@[j] as int] == j);
            }
            assert forall|j: int| 0 <= j < 17 implies (#[trigger] c48@[j]) is Some by {
                if j < 16 {
                    assert(c48@[j] == oc[j]);
                }
            }
            lemma_count_prefix(c48@, 17);
            assert(node_wf(r, p)) by {
                assert forall|x: int| 0 <= x < 256 && #[trigger] index@[x] != EMPTY_SLOT implies index@[x] < 48
                    && c48@[index@[x] as int] is Some && node_wf(*c48@[index@[x] as int]->0, p.push(x as u8)) by {
                    if x != b as int {
                        let j = index@[x] as int;
                        assert(c48@[j] == oc[j]);
                        assert(keys@[j] == x);
                    }
                }
                assert forall|b1: int, b2: int| 0 <= b1 < b2 < 256 && #[trigger] index@[b1] != EMPTY_SLOT implies index@[b1]
                    != #[trigger] index@[b2] by {
                    if index@[b2] != EMPTY_SLOT && index@[b1] == index@[b2] {
                        if b1 != b as int && b2 != b as int {
                            assert(keys@[index@[b1] as int] == b1);
                            assert(keys@[index@[b2] as int] == b2);
                        }
                    }
                }
                assert forall|s: int| 0 <= s < 48 && (#[trigger] c48@[s]) is Some implies exists|x: int| 0 <= x < 256
                    && #[trigger] index@[x] == s by {
                    if s < 16 {
                        assert(index@[keys@[s] as int] == s);
                    } else if s == 16 {
                        assert(index@[b as int] == s);
                    }
                }
            }
            assert forall|x: u8| x != b implies #[trigger] child_at(r, x) == child_at(old, x) by {
                lemma_first_match::<V>(keys@, 16, x, 0);
                if index@[x as int] != EMPTY_SLOT {
                    let j = index@[x as int] as int;
                    assert(keys@[j] == x);
                    lemma_first_match_at::<V>(keys@, 16, x, j);
                    assert(c48@[j] == oc[j]);
                } else {
                    match first_match(keys@, 16, x, 0) {
                        Some(j) => {
                            assert(index@[keys@[j] as int] == j);
                        },
                        None => {},
                    }
                }
            }
        }
        r
    }

    /// A full 48-child node grown to 256 children, with `leaf` added under `b`.
    fn grow_to_256(
        index: Vec<u8>,
        children: Vec<Option<Box<ArtNode<V>>>>,
        val: Option<(Vec<u8>, V)>,
        b: u8,
        leaf: Box<ArtNode<V>>,
        Ghost(p): Ghost<Seq<u8>>,
    ) -> (r: ArtNode<V>)
        requires
            node_wf(ArtNode::Node48 { index, children, num_children: 48, val }, p),
            index@[b as int] == EMPTY_SLOT,
            node_wf(*leaf, p.push(b)),
        ensures
            node_wf(r, p),
            !(r is Leaf),
            val_of(r) == val,
            child_at(r, b) == Some(*leaf),
            forall|x: u8|
                x != b ==> #[trigger] child_at(r, x) == child_at(ArtNode::Node48 { index, children, num_children: 48, val }, x),
    {
        let ghost old = ArtNode::Node48 { index, children, num_children: 48u8, val };
        let ghost oc = children@;
        let mut children = children;
        let mut c256 = none_children::<V>(256);
        proof {
            lemma_count_prefix(c256@, 0);
        }
        let mut x: usize = 0;
        while x < 256
            invariant
                x <= 256,
                node_wf(old, p),
                old == (ArtNode::Node48 { index, children: old->Node48_children, num_children: 48u8, val }),
                oc == old->Node48_children@,
                index@.len() == 256,
                oc.len() == 48,
                children@.len() == 48,
                c256@.len() == 256,
                forall|y: int| 0 <= y < x ==> #[trigger] c256@[y] == if index@[y] != EMPTY_SLOT {
                    oc[index@[y] as int]
                } else {
                    None
                },
                forall|y: int| x <= y < 256 ==> (#[trigger] c256@[y]) is None,
                forall|y: int|
                    x <= y < 256 && #[trigger] index@[y] != EMPTY_SLOT ==> children@[index@[y] as int] == oc[index@[y] as int],
                count_some(c256@) + count_some(children@) == count_some(oc),
            decreases 256 - x,
        {
            let s = index[x];
            if s != EMPTY_SLOT {
                proof {
                    assert(index@[x as int] < 48);
                    assert forall|y: int| x < y < 256 && #[trigger] index@[y] != EMPTY_SLOT implies index@[y] != s by {
                        assert(index@[x as int] != index@[y]);
                    }
                }
                let ghost cb = children@;
                let ghost vb = c256@;
                let t = take_child(&mut children, s as usize);
                proof {
                    lemma_count_update(cb, s as int, None);
                    lemma_count_update(vb, x as int, t);
                }
                c256[x] = t;
            }
            x = x + 1;
        }
        proof {
            lemma_count_bound(children@);
            assert(c256@[b as int] is None);
        }
        let ghost vb = c256@;
        c256[b as usize] = Some(leaf);
        proof {
            lemma_count_update(vb, b as int, Some(leaf));
        }
        let r = ArtNode::Node256 { children: c256, num_children: 49, val };
        proof {
            assert(node_wf(r, p)) by {
                assert forall|y: int| 0 <= y < 256 && (#[trigger] c256@[y]) is Some implies node_wf(*c256@[y]->0, p.push(y as u8)) by {
                    if y != b as int {
                        assert(c256@[y] == vb[y]);
                    }
                }
            }
            assert forall|y: u8| y != b implies #[trigger] child_at(r, y) == child_at(old, y) by {
                assert(c256@[y as int] == vb[y as int]);
            }
        }
        r
    }

    fn insert_48(
        index: Vec<u8>,
        children: Vec<Option<Box<ArtNode<V>>>>,
        num: u8,
        val: Option<(Vec<u8>, V)>,
        key: &[u8],
        value: V,
        depth: usize,
    ) -> (r: (Box<ArtNode<V>>, Option<V>))
        requires
            depth < key@.len(),
            node_wf(ArtNode::Node48 { index, children, num_children: num, val }, key@.take(depth as int)),
        ensures
            node_wf(*r.0, key@.take(depth as int)),
            r.1 == node_get(ArtNode::Node48 { index, children, num_children: num, val }, key@, depth as nat),
            inserted(ArtNode::Node48 { index, children, num_children: num, val }, *r.0, key@, value, depth as nat),
        decreases key@.len() - depth, 0nat,
    {
        let ghost p = key@.take(depth as int);
        let ghost old = ArtNode::Node48 { index, children, num_children: num, val };
        let ghost oi = index@;
        let ghost oc = children@;
        let b = key[depth];
        let mut index = index;
        let mut children = children;
        proof {
            assert(starts(key@, p));
            assert(key@.take(depth + 1) =~= p.push(b));
        }
        let s = index[b as usize];
        if s != EMPTY_SLOT {
            proof {
                assert(child_at(old, b) == Some(*oc[s as int]->0));
            }
            let c = take_child(&mut children, s as usize).unwrap();
            let (c2, res) = Self::insert_rec(c, key, value, depth + 1);
            children[s as usize] = Some(c2);
            let r = ArtNode::Node48 { index, children, num_children: num, val };
            proof {
                assert(children@ =~= oc.update(s as int, Some(c2)));
                lemma_count_update(oc, s as int, Some(c2));
                assert forall|x: int| 0 <= x < 256 && #[trigger] oi[x] != EMPTY_SLOT && x != b as int implies oi[x] != s by {
                    assert(oi[x] != oi[b as int]);
                }
                assert(node_wf(r, p)) by {
                    assert forall|x: int| 0 <= x < 256 && #[trigger] index@[x] != EMPTY_SLOT implies index@[x] < 48
                        && children@[index@[x] as int] is Some && node_wf(*children@[index@[x] as int]->0, p.push(x as u8)) by {
                        if x != b as int {
                            assert(children@[index@[x] as int] == oc[index@[x] as int]);
                        }
                    }
                    assert forall|t: int| 0 <= t < 48 && (#[trigger] children@[t]) is Some implies exists|x: int| 0 <= x < 256
                        && #[trigger] index@[x] == t by {
                        if t != s as int {
                            assert(oc[t] is Some);
                        } else {
                            assert(index@[b as int] == t);
                        }
                    }
                }
                assert forall|x: u8| x != b implies #[trigger] child_at(r, x) == child_at(old, x) by {
                    if oi[x as int] != EMPTY_SLOT {
                        assert(children@[oi[x as int] as int] == oc[oi[x as int] as int]);
                    }
                }
                lemma_inserted_below(old, r, key@, value, depth as nat, *oc[s as int]->0, *c2);
            }
            return (Box::new(r), res);
        }
        let leaf = Box::new(ArtNode::Leaf { key: copy_key(key), value });
        proof {
            lemma_starts_push(key@, p);
            assert(child_at(old, b) is None);
        }
        if num < 48 {
            let f = first_free(&children);
            proof {
                assert(oc[f as int] is None);
                assert forall|x: int| 0 <= x < 256 && #[trigger] oi[x] != EMPTY_SLOT implies oi[x] != f by {
                    assert(oc[oi[x] as int] is Some);
                }
            }
            index[b as usize] = f as u8;
            children[f] = Some(leaf);
            let r = ArtNode::Node48 { index, children, num_children: num + 1, val };
            proof {
                assert(children@ =~= oc.update(f as int, Some(leaf)));
                assert(index@ =~= oi.update(b as int, f as u8));
                lemma_count_update(oc, f as int, Some(leaf));
                assert(node_wf(r, p)) by {
                    assert forall|x: int| 0 <= x < 256 && #[trigger] index@[x] != EMPTY_SLOT implies index@[x] < 48
                        && children@[index@[x] as int] is Some && node_wf(*children@[index@[x] as int]->0, p.push(x as u8)) by {
                        if x != b as int {
                            assert(index@[x] == oi[x]);
                            assert(children@[oi[x] as int] == oc[oi[x] as int]);
                        }
                    }
                    assert forall|b1: int, b2: int| 0 <= b1 < b2 < 256 && #[trigger] index@[b1] != EMPTY_SLOT implies index@[b1]
                        != #[trigger] index@[b2] by {
                        if b1 != b as int && b2 != b as int {
                            assert(oi[b1] != oi[b2]);
                        } else if b1 == b as int {
                            assert(index@[b2] == oi[b2]);
                        } else {
                            assert(index@[b1] == oi[b1]);
                        }
                    }
                    assert forall|t: int| 0 <= t < 48 && (#[trigger] children@[t]) is Some implies exists|x: int| 0 <= x < 256
                        && #[trigger] index@[x] == t by {
                        if t != f as int {
                            assert(oc[t] is Some);
                            let x = choose|x: int| 0 <= x < 256 && #[trigger] oi[x] == t;
                            assert(x != b as int);
                            assert(index@[x] == t);
                        } else {
                            assert(index@[b as int] == t);
                        }
                    }
                }
                assert forall|x: u8| x != b implies #[trigger] child_at(r, x) == child_at(old, x) by {
                    assert(index@[x as int] == oi[x as int]);
                    if oi[x as int] != EMPTY_SLOT {
                        assert(children@[oi[x as int] as int] == oc[oi[x as int] as int]);
                    }
                }
                lemma_inserted_new_child(old, r, key@, value, depth as nat, *leaf);
            }
            return (Box::new(r), None);
        }
        let r = Self::grow_to_256(index, children, val, b, leaf, Ghost(p));
        proof {
            lemma_inserted_new_child(old, r, key@, value, depth as nat, *leaf);
        }
        (Box::new(r), None)
    }

    fn insert_256(
        children: Vec<Option<Box<ArtNode<V>>>>,
        num: u16,
        val: Option<(Vec<u8>, V)>,
        key: &[u8],
        value: V,
        depth: usize,
    ) -> (r: (Box<ArtNode<V>>, Option<V>))
        requires
            depth < key@.len(),
            node_wf(ArtNode::Node256 { children, num_children: num, val }, key@.take(depth as int)),
        ensures
            node_wf(*r.0, key@.take(depth as int)),
            r.1 == node_get(ArtNode::Node256 { children, num_children: num, val }, key@, depth as nat),
            inserted(ArtNode::Node256 { children, num_children: num, val }, *r.0, key@, value, depth as nat),
        decreases key@.len() - depth, 0nat,
    {
        let ghost p = key@.take(depth as int);
        let ghost old = ArtNode::Node256 { children, num_children: num, val };
        let ghost oc = children@;
        let b = key[depth];
        let mut children = children;
        proof {
            assert(starts(key@, p));
            assert(key@.take(depth + 1) =~= p.push(b));
        }
        if children[b as usize].is_some() {
            let c = take_child(&mut children, b as usize).unwrap();
            let (c2, res) = Self::insert_rec(c, key, value, depth + 1);
            children[b as usize] = Some(c2);
            let r = ArtNode::Node256 { children, num_children: num, val };
            proof {
                assert(children@ =~= oc.update(b as int, Some(c2)));
                lemma_count_update(oc, b as int, Some(c2));
                assert(node_wf(r, p)) by {
                    assert forall|y: int| 0 <= y < 256 && (#[trigger] children@[y]) is Some implies node_wf(
                        *children@[y]->0,
                        p.push(y as u8),
                    ) by {
                        if y != b as int {
                            assert(children@[y] == oc[y]);
                        }
                    }
                }
                assert forall|x: u8| x != b implies #[trigger] child_at(r, x) == child_at(old, x) by {
                    assert(children@[x as int] == oc[x as int]);
                }
                lemma_inserted_below(old, r, key@, value, depth as nat, *oc[b as int]->0, *c2);
            }
            return (Box::new(r), res);
        }
        let leaf = Box::new(ArtNode::Leaf { key: copy_key(key), value });
        proof {
            lemma_starts_push(key@, p);
            lemma_count_bound(oc);
        }
        children[b as usize] = Some(leaf);
        let r = ArtNode::Node256 { children, num_children: num + 1, val };
        proof {
            assert(children@ =~= oc.update(b as int, Some(leaf)));
            lemma_count_update(oc, b as int, Some(leaf));
            assert(node_wf(r, p)) by {
                assert forall|y: int| 0 <= y < 256 && (#[trigger] children@[y]) is Some implies node_wf(
                    *children@[y]->0,
                    p.push(y as u8),
                ) by {
                    if y != b as int {
                        assert(children@[y] == oc[y]);
                    }
                }
            }
            assert forall|x: u8| x != b implies #[trigger] child_at(r, x) == child_at(old, x) by {
                assert(children@[x as int] == oc[x as int]);
            }
            lemma_inserted_new_child(old, r, key@, value, depth as nat, *leaf);
        }
        (Box::new(r), None)
    }
}


// ---------------------------------------------------------------------------
// Removal.

/// `new` answers every lookup on the path so far as `old` does, except
/// that `k0` now finds nothing.
pub open spec fn removed<V>(old: ArtNode<V>, new: ArtNode<V>, k0: Seq<u8>, d: nat) -> bool {
    forall|k: Seq<u8>|
        #![trigger node_get(new, k, d)]
        starts(k, k0.take(d as int)) ==> node_get(new, k, d) == if k == k0 {
            None
        } else {
            node_get(old, k, d)
        }
}

/// A removal below the child of `key`'s next byte, all other children kept.
proof fn lemma_removed_below<V>(old: ArtNode<V>, new: ArtNode<V>, key: Seq<u8>, d: nat, c: ArtNode<V>, c2: ArtNode<V>)
    requires
        !(old is Leaf),
        !(new is Leaf),
        val_of(old) == val_of(new),
        d < key.len(),
        child_at(old, key[d as int]) == Some(c),
        child_at(new, key[d as int]) == Some(c2),
        removed(c, c2, key, d + 1),
        forall|x: u8| x != key[d as int] ==> #[trigger] child_at(new, x) == child_at(old, x),
    ensures
        removed(old, new, key, d),
{
    let b = key[d as int];
    assert forall|k: Seq<u8>| #![trigger node_get(new, k, d)] starts(k, key.take(d as int)) implies node_get(new, k, d)
        == if k == key { None } else { node_get(old, k, d) } by {
        if k.len() > d {
            let kb = k[d as int];
            if kb == b {
                assert(k.take((d + 1) as int) =~= key.take((d + 1) as int)) by {
                    assert(k.subrange(0, d as int) == key.take(d as int));
                }
                assert(starts(k, key.take((d + 1) as int)));
                assert(node_get(c2, k, d + 1) == if k == key { None } else { node_get(c, k, d + 1) });
            } else {
                assert(child_at(new, kb) == child_at(old, kb));
                lemma_same_but(old, new, k, d, b);
            }
        } else {
            assert(k != key);
        }
    }
}

/// The leaf of `key`, a child of `old`, is gone; all other children kept.
proof fn lemma_removed_leaf<V>(old: ArtNode<V>, new: ArtNode<V>, key: Seq<u8>, d: nat, leaf: ArtNode<V>)
    requires
        !(old is Leaf),
        !(new is Leaf),
        val_of(old) == val_of(new),
        d < key.len(),
        child_at(old, key[d as int]) == Some(leaf),
        leaf matches ArtNode::Leaf { key: lk, .. } && lk@ == key,
        child_at(new, key[d as int]) is None,
        forall|x: u8| x != key[d as int] ==> #[trigger] child_at(new, x) == child_at(old, x),
    ensures
        removed(old, new, key, d),
{
    let b = key[d as int];
    assert forall|k: Seq<u8>| #![trigger node_get(new, k, d)] starts(k, key.take(d as int)) implies node_get(new, k, d)
        == if k == key { None } else { node_get(old, k, d) } by {
        if k.len() > d {
            let kb = k[d as int];
            if kb == b {
                assert(node_get(old, k, d) == node_get(leaf, k, d + 1));
            } else {
                assert(child_at(new, kb) == child_at(old, kb));
                lemma_same_but(old, new, k, d, b);
            }
        } else {
            assert(k != key);
        }
    }
}

proof fn lemma_count_positive<V>(s: Seq<Option<Box<ArtNode<V>>>>, i: int)
    requires
        0 <= i < s.len(),
        s[i] is Some,
    ensures
        count_some(s) >= 1,
        count_some(s.update(i, None)) + 1 == count_some(s),
{
    lemma_count_update(s, i, None);
}

/// The value of `n` if it is the leaf of `key`.
fn leaf_hit<V: Copy>(n: &ArtNode<V>, key: &[u8]) -> (r: Option<V>)
    ensures
        r == match *n {
            ArtNode::Leaf { key: lk, value } => if lk@ == key@ {
                Some(value)
            } else {
                None
            },
            _ => None,
        },
{
    match n {
        ArtNode::Leaf { key: lk, value } => {
            if crate::index::lex::bytes_equal(lk.as_slice(), key) {
                Some(*value)
            } else {
                None
            }
        },
        _ => None,
    }
}

/// Removes position `i` of the first `num` slots, moving the later ones
/// down by one.
fn shift_out<V>(keys: &mut Vec<u8>, children: &mut Vec<Option<Box<ArtNode<V>>>>, num: usize, i: usize)
    requires
        i < num <= old(keys)@.len(),
        old(children)@.len() == old(keys)@.len(),
    ensures
        final(keys)@.len() == old(keys)@.len(),
        final(children)@.len() == old(children)@.len(),
        forall|j: int| 0 <= j < i ==> #[trigger] final(keys)@[j] == old(keys)@[j],
        forall|j: int| 0 <= j < i ==> #[trigger] final(children)@[j] == old(children)@[j],
        forall|j: int| i <= j < num - 1 ==> #[trigger] final(keys)@[j] == old(keys)@[j + 1],
        forall|j: int| i <= j < num - 1 ==> #[trigger] final(children)@[j] == old(children)@[j + 1],
        final(children)@[num - 1] is None,
        forall|j: int| num <= j < old(children)@.len() ==> #[trigger] final(children)@[j] == old(children)@[j],
{
    let ghost ok = keys@;
    let ghost oc = children@;
    let _ = take_child(children, i);
    let mut j: usize = i;
    while j + 1 < num
        invariant
            i <= j < num,
            num <= ok.len(),
            keys@.len() == ok.len(),
            children@.len() == oc.len(),
            oc.len() == ok.len(),
            forall|t: int| 0 <= t < i ==> #[trigger] keys@[t] == ok[t],
            forall|t: int| 0 <= t < i ==> #[trigger] children@[t] == oc[t],
            forall|t: int| i <= t < j ==> #[trigger] keys@[t] == ok[t + 1],
            forall|t: int| j < t < ok.len() ==> #[trigger] keys@[t] == ok[t],
            forall|t: int| i <= t < j ==> #[trigger] children@[t] == oc[t + 1],
            children@[j as int] is None,
            forall|t: int| j < t < oc.len() ==> #[trigger] children@[t] == oc[t],
        decreases num - j,
    {
        keys[j] = keys[j + 1];
        let c = take_child(children, j + 1);
        children[j] = c;
        j = j + 1;
    }
}

impl<V: Copy> ArtNode<V> {
    /// Clears the value of an inner node; returns the node and the value
    /// it held.
    fn take_node_val(n: ArtNode<V>) -> (r: (ArtNode<V>, Option<V>))
        requires
            !(n is Leaf),
        ensures
            r.0 == with_val(n, None),
            r.1 == match val_of(n) {
                Some((_, v)) => Some(v),
                None => None::<V>,
            },
    {
        match n {
            ArtNode::Node4 { keys, children, num_children, val } => {
                let old = match val { Some((_, v)) => Some(v), None => None };
                (ArtNode::Node4 { keys, children, num_children, val: None }, old)
            },
            ArtNode::Node16 { keys, children, num_children, val } => {
                let old = match val { Some((_, v)) => Some(v), None => None };
                (ArtNode::Node16 { keys, children, num_children, val: None }, old)
            },
            ArtNode::Node48 { index, children, num_children, val } => {
                let old = match val { Some((_, v)) => Some(v), None => None };
                (ArtNode::Node48 { index, children, num_children, val: None }, old)
            },
            ArtNode::Node256 { children, num_children, val } => {
                let old = match val { Some((_, v)) => Some(v), None => None };
                (ArtNode::Node256 { children, num_children, val: None }, old)
            },
            ArtNode::Leaf { key: k, value: v } => {
                proof {
                    assert(false);
                }
                (ArtNode::Leaf { key: k, value: v }, None)
            },
        }
    }

    /// Removes `key` from the inner node `n`, reached by its first `depth`
    /// bytes. A leaf child that holds the key is dropped; the node keeps its
    /// kind.
    fn remove_rec(n: ArtNode<V>, key: &[u8], depth: usize) -> (r: (ArtNode<V>, Option<V>))
        requires
            depth <= key@.len(),
            !(n is Leaf),
            node_wf(n, key@.take(depth as int)),
        ensures
            node_wf(r.0, key@.take(depth as int)),
            !(r.0 is Leaf),
            r.1 == node_get(n, key@, depth as nat),
            removed(n, r.0, key@, depth as nat),
        decreases key@.len() - depth, 1nat,
    {
        let ghost p = key@.take(depth as int);
        if depth == key.len() {
            let (n2, old) = Self::take_node_val(n);
            proof {
                assert(key@ =~= p);
                assert forall|k: Seq<u8>| #![trigger node_get(n2, k, depth as nat)] starts(k, p) implies node_get(n2, k, depth as nat)
                    == if k == key@ { None } else { node_get(n, k, depth as nat) } by {
                    if k.len() == depth {
                        assert(k =~= p) by {
                            assert(k == k.subrange(0, p.len() as int));
                        }
                    }
                }
            }
            return (n2, old);
        }
        match n {
            ArtNode::Node4 { keys, children, num_children, val } => Self::remove_small(
                keys,
                children,
                num_children,
                val,
                false,
                key,
                depth,
            ),
            ArtNode::Node16 { keys, children, num_children, val } => Self::remove_small(
                keys,
                children,
                num_children,
                val,
                true,
                key,
                depth,
            ),
            ArtNode::Node48 { index, children, num_children, val } => Self::remove_48(
                index,
                children,
                num_children,
                val,
                key,
                depth,
            ),
            ArtNode::Node256 { children, num_children, val } => Self::remove_256(
                children,
                num_children,
                val,
                key,
                depth,
            ),
            ArtNode::Leaf { key: k, value: v } => {
                proof {
                    assert(false);
                }
                (ArtNode::Leaf { key: k, value: v }, None)
            },
        }
    }

    fn remove_small(
        keys: Vec<u8>,
        children: Vec<Option<Box<ArtNode<V>>>>,
        num: u8,
        val: Option<(Vec<u8>, V)>,
        wide: bool,
        key: &[u8],
        depth: usize,
    ) -> (r: (ArtNode<V>, Option<V>))
        requires
            depth < key@.len(),
            node_wf(small_node_spec(keys, children, num, val, wide), key@.take(depth as int)),
        ensures
            node_wf(r.0, key@.take(depth as int)),
            !(r.0 is Leaf),
            r.1 == node_get(small_node_spec(keys, children, num, val, wide), key@, depth as nat),
            removed(small_node_spec(keys, children, num, val, wide), r.0, key@, depth as nat),
        decreases key@.len() - depth, 0nat,
    {
        let ghost p = key@.take(depth as int);
        let ghost old = small_node_spec(keys, children, num, val, wide);
        let ghost ok = keys@;
        let ghost oc = children@;
        let ghost cap: int = if wide { 16 } else { 4 };
        let b = key[depth];
        let mut keys = keys;
        let mut children = children;
        proof {
            assert(starts(key@, p));
            assert(key@.take(depth + 1) =~= p.push(b));
        }
        let mut i: usize = 0;
        while i < num as usize
            invariant
                i <= num <= cap,
                keys@ == ok,
                ok.len() == cap,
                first_match(ok, num as int, b, 0) == first_match(ok, num as int, b, i as int),
            ensures
                i <= num,
                i < num ==> ok[i as int] == b,
                first_match(ok, num as int, b, 0) == first_match(ok, num as int, b, i as int),
            decreases num - i,
        {
            if keys[i] == b {
                break;
            }
            i = i + 1;
        }
        proof {
            lemma_first_match::<V>(ok, num as int, b, i as int);
            lemma_first_match::<V>(ok, num as int, b, 0);
        }
        if i == num as usize {
            let r = small_node(keys, children, num, val, wide);
            proof {
                assert(child_at(old, b) is None);
                assert forall|k: Seq<u8>| #![trigger node_get(r, k, depth as nat)] starts(k, p) implies node_get(r, k, depth as nat)
                    == if k == key@ { None } else { node_get(old, k, depth as nat) } by {}
            }
            return (r, None);
        }
        proof {
            assert(first_match(ok, num as int, b, i as int) == Some(i as int));
            assert(child_at(old, b) == Some(*oc[i as int]->0));
        }
        let c = take_child(&mut children, i).unwrap();
        let hit = leaf_hit(&*c, key);
        if hit.is_some() {
            let ghost leaf = *c;
            proof {
                lemma_count_positive(oc, i as int);
            }
            let ghost ck = children@;
            shift_out(&mut keys, &mut children, num as usize, i);
            let r = small_node(keys, children, num - 1, val, wide);
            proof {
                assert forall|j: int| 0 <= j < num - 1 implies #[trigger] keys@[j] == if j < i { ok[j] } else { ok[j + 1] } by {}
                assert forall|j: int| 0 <= j < num - 1 implies #[trigger] children@[j] == if j < i { oc[j] } else { oc[j + 1] } by {
                    if j < i {
                        assert(ck[j] == oc[j]);
                    } else {
                        assert(ck[j + 1] == oc[j + 1]);
                    }
                }
                assert(node_wf(r, p)) by {
                    assert forall|j: int| 0 <= j < num - 1 implies (#[trigger] children@[j]) is Some && node_wf(
                        *children@[j]->0,
                        p.push(keys@[j]),
                    ) by {}
                    assert forall|j: int| num - 1 <= j < cap implies (#[trigger] children@[j]) is None by {
                        if j >= num {
                            assert(ck[j] == oc[j]);
                        }
                    }
                    assert forall|x: int, y: int| 0 <= x < y < num - 1 implies #[trigger] keys@[x] != #[trigger] keys@[y] by {
                        let ox = if x < i { x } else { x + 1 };
                        let oy = if y < i { y } else { y + 1 };
                        assert(ok[ox] != ok[oy]);
                    }
                }
                assert forall|x: u8| x != b implies #[trigger] child_at(r, x) == child_at(old, x) by {
                    lemma_first_match::<V>(ok, num as int, x, 0);
                    lemma_first_match::<V>(keys@, num - 1, x, 0);
                    match first_match(ok, num as int, x, 0) {
                        Some(j) => {
                            assert(j != i);
                            let nj = if j < i { j } else { j - 1 };
                            assert(keys@[nj] == x);
                            lemma_first_match_at::<V>(keys@, num - 1, x, nj);
                        },
                        None => {
                            match first_match(keys@, num - 1, x, 0) {
                                Some(nj) => {
                                    let j = if nj < i { nj } else { nj + 1 };
                                    assert(ok[j] == x);
                                },
                                None => {},
                            }
                        },
                    }
                }
                assert(node_get(old, key@, depth as nat) == node_get(leaf, key@, (depth + 1) as nat));
                lemma_first_match::<V>(keys@, num - 1, b, 0);
                match first_match(keys@, num - 1, b, 0) {
                    Some(nj) => {
                        let j = if nj < i { nj } else { nj + 1 };
                        assert(ok[j] == b);
                        assert(ok[j] != ok[i as int]);
                    },
                    None => {},
                }
                assert(child_at(r, b) is None);
                lemma_removed_leaf(old, r, key@, depth as nat, leaf);
            }
            return (r, hit);
        }
        if c.is_leaf() {
            let ghost leaf = *c;
            children[i] = Some(c);
            let r = small_node(keys, children, num, val, wide);
            proof {
                assert(children@ =~= oc);
                assert(node_get(old, key@, depth as nat) == node_get(leaf, key@, (depth + 1) as nat));
                assert forall|k: Seq<u8>| #![trigger node_get(r, k, depth as nat)] starts(k, p) implies node_get(r, k, depth as nat)
                    == if k == key@ { None } else { node_get(old, k, depth as nat) } by {}
            }
            return (r, None);
        }
        let ghost c0 = *c;
        let (c2, res) = Self::remove_rec(*c, key, depth + 1);
        children[i] = Some(Box::new(c2));
        let r = small_node(keys, children, num, val, wide);
        proof {
            assert(children@ =~= oc.update(i as int, Some(Box::new(c2))));
            assert(node_wf(r, p)) by {
                assert forall|j: int| 0 <= j < num implies (#[trigger] children@[j]) is Some && node_wf(
                    *children@[j]->0,
                    p.push(ok[j]),
                ) by {
                    if j != i {
                        assert(children@[j] == oc[j]);
                    }
                }
                assert forall|j: int| num <= j < cap implies (#[trigger] children@[j]) is None by {
                    assert(children@[j] == oc[j]);
                }
            }
            assert forall|x: u8| x != b implies #[trigger] child_at(r, x) == child_at(old, x) by {
                lemma_first_match::<V>(ok, num as int, x, 0);
                match first_match(ok, num as int, x, 0) {
                    Some(j) => {
                        assert(children@[j] == oc[j]);
                    },
                    None => {},
                }
            }
            assert(child_at(r, b) == Some(c2));
            lemma_removed_below(old, r, key@, depth as nat, c0, c2);
        }
        (r, res)
    }

    fn is_leaf(&self) -> (r: bool)
        ensures
            r == (*self is Leaf),
    {
        match self {
            ArtNode::Leaf { .. } => true,
            _ => false,
        }
    }

    fn remove_48(
        index: Vec<u8>,
        children: Vec<Option<Box<ArtNode<V>>>>,
        num: u8,
        val: Option<(Vec<u8>, V)>,
        key: &[u8],
        depth: usize,
    ) -> (r: (ArtNode<V>, Option<V>))
        requires
            depth < key@.len(),
            node_wf(ArtNode::Node48 { index, children, num_children: num, val }, key@.take(depth as int)),
        ensures
            node_wf(r.0, key@.take(depth as int)),
            !(r.0 is Leaf),
            r.1 == node_get(ArtNode::Node48 { index, children, num_children: num, val }, key@, depth as nat),
            removed(ArtNode::Node48 { index, children, num_children: num, val }, r.0, key@, depth as nat),
        decreases key@.len() - depth, 0nat,
    {
        let ghost p = key@.take(depth as int);
        let ghost old = ArtNode::Node48 { index, children, num_children: num, val };
        let ghost oi = index@;
        let ghost oc = children@;
        let b = key[depth];
        let mut index = index;
        let mut children = children;
        proof {
            assert(starts(key@, p));
            assert(key@.take(depth + 1) =~= p.push(b));
        }
        let s = index[b as usize];
        if s == EMPTY_SLOT {
            let r = ArtNode::Node48 { index, children, num_children: num, val };
            proof {
                assert forall|k: Seq<u8>| #![trigger node_get(r, k, depth as nat)] starts(k, p) implies node_get(r, k, depth as nat)
                    == if k == key@ { None } else { node_get(old, k, depth as nat) } by {}
            }
            return (r, None);
        }
        proof {
            assert(child_at(old, b) == Some(*oc[s as int]->0));
            assert forall|x: int| 0 <= x < 256 && #[trigger] oi[x] != EMPTY_SLOT && x != b as int implies oi[x] != s by {
                assert(oi[x] != oi[b as int]);
            }
        }
        let c = take_child(&mut children, s as usize).unwrap();
        let hit = leaf_hit(&*c, key);
        if hit.is_some() {
            let ghost leaf = *c;
            proof {
                lemma_count_positive(oc, s as int);
            }
            index[b as usize] = EMPTY_SLOT;
            let r = ArtNode::Node48 { index, children, num_children: num - 1, val };
            proof {
                assert(child_at(old, b) == Some(leaf));
                assert(node_get(old, key@, depth as nat) == node_get(leaf, key@, (depth + 1) as nat));
                assert(children@ =~= oc.update(s as int, None));
                assert(index@ =~= oi.update(b as int, EMPTY_SLOT));
                assert(node_wf(r, p)) by {
                    assert forall|x: int| 0 <= x < 256 && #[trigger] index@[x] != EMPTY_SLOT implies index@[x] < 48
                        && children@[index@[x] as int] is Some && node_wf(*children@[index@[x] as int]->0, p.push(x as u8)) by {
                        assert(index@[x] == oi[x]);
                        assert(children@[oi[x] as int] == oc[oi[x] as int]);
                    }
                    assert forall|b1: int, b2: int| 0 <= b1 < b2 < 256 && #[trigger] index@[b1] != EMPTY_SLOT implies index@[b1]
                        != #[trigger] index@[b2] by {
                        assert(index@[b1] == oi[b1]);
                        if b2 != b as int {
                            assert(index@[b2] == oi[b2]);
                        }
                    }
                    assert forall|t: int| 0 <= t < 48 && (#[trigger] children@[t]) is Some implies exists|x: int| 0 <= x < 256
                        && #[trigger] index@[x] == t by {
                        assert(oc[t] is Some);
                        let x = choose|x: int| 0 <= x < 256 && #[trigger] oi[x] == t;
                        assert(x != b as int);
                        assert(index@[x] == t);
                    }
                }
                assert forall|x: u8| x != b implies #[trigger] child_at(r, x) == child_at(old, x) by {
                    assert(index@[x as int] == oi[x as int]);
                    if oi[x as int] != EMPTY_SLOT {
                        assert(children@[oi[x as int] as int] == oc[oi[x as int] as int]);
                    }
                }
                lemma_removed_leaf(old, r, key@, depth as nat, leaf);
            }
            return (r, hit);
        }
        if c.is_leaf() {
            let ghost leaf = *c;
            children[s as usize] = Some(c);
            let r = ArtNode::Node48 { index, children, num_children: num, val };
            proof {
                assert(children@ =~= oc);
                assert(node_get(old, key@, depth as nat) == node_get(leaf, key@, (depth + 1) as nat));
                assert forall|k: Seq<u8>| #![trigger node_get(r, k, depth as nat)] starts(k, p) implies node_get(r, k, depth as nat)
                    == if k == key@ { None } else { node_get(old, k, depth as nat) } by {}
            }
            return (r, None);
        }
        let ghost c0 = *c;
        let (c2, res) = Self::remove_rec(*c, key, depth + 1);
        children[s as usize] = Some(Box::new(c2));
        let r = ArtNode::Node48 { index, children, num_children: num, val };
        proof {
            assert(children@ =~= oc.update(s as int, Some(Box::new(c2))));
            lemma_count_update(oc, s as int, Some(Box::new(c2)));
            assert(node_wf(r, p)) by {
                assert forall|x: int| 0 <= x < 256 && #[trigger] index@[x] != EMPTY_SLOT implies index@[x] < 48
                    && children@[index@[x] as int] is Some && node_wf(*children@[index@[x] as int]->0, p.push(x as u8)) by {
                    if x != b as int {
                        assert(children@[index@[x] as int] == oc[index@[x] as int]);
                    }
                }
                assert forall|t: int| 0 <= t < 48 && (#[trigger] children@[t]) is Some implies exists|x: int| 0 <= x < 256
                    && #[trigger] index@[x] == t by {
                    if t != s as int {
                        assert(oc[t] is Some);
                    } else {
                        assert(index@[b as int] == t);
                    }
                }
            }
            assert forall|x: u8| x != b implies #[trigger] child_at(r, x) == child_at(old, x) by {
                if oi[x as int] != EMPTY_SLOT {
                    assert(children@[oi[x as int] as int] == oc[oi[x as int] as int]);
                }
            }
            lemma_removed_below(old, r, key@, depth as nat, c0, c2);
        }
        (r, res)
    }

    fn remove_256(
        children: Vec<Option<Box<ArtNode<V>>>>,
        num: u16,
        val: Option<(Vec<u8>, V)>,
        key: &[u8],
        depth: usize,
    ) -> (r: (ArtNode<V>, Option<V>))
        requires
            depth < key@.len(),
            node_wf(ArtNode::Node256 { children, num_children: num, val }, key@.take(depth as int)),
        ensures
            node_wf(r.0, key@.take(depth as int)),
            !(r.0 is Leaf),
            r.1 == node_get(ArtNode::Node256 { children, num_children: num, val }, key@, depth as nat),
            removed(ArtNode::Node256 { children, num_children: num, val }, r.0, key@, depth as nat),
        decreases key@.len() - depth, 0nat,
    {
        let ghost p = key@.take(depth as int);
        let ghost old = ArtNode::Node256 { children, num_children: num, val };
        let ghost oc = children@;
        let b = key[depth];
        let mut children = children;
        proof {
            assert(starts(key@, p));
            assert(key@.take(depth + 1) =~= p.push(b));
        }
        if children[b as usize].is_none() {
            let r = ArtNode::Node256 { children, num_children: num, val };
            proof {
                assert forall|k: Seq<u8>| #![trigger node_get(r, k, depth as nat)] starts(k, p) implies node_get(r, k, depth as nat)
                    == if k == key@ { None } else { node_get(old, k, depth as nat) } by {}
            }
            return (r, None);
        }
        let c = take_child(&mut children, b as usize).unwrap();
        let hit = leaf_hit(&*c, key);
        if hit.is_some() {
            let ghost leaf = *c;
            proof {
                lemma_count_positive(oc, b as int);
            }
            let r = ArtNode::Node256 { children, num_children: num - 1, val };
            proof {
                assert(child_at(old, b) == Some(leaf));
                assert(node_get(old, key@, depth as nat) == node_get(leaf, key@, (depth + 1) as nat));
                assert(node_wf(r, p)) by {
                    assert forall|y: int| 0 <= y < 256 && (#[trigger] children@[y]) is Some implies node_wf(
                        *children@[y]->0,
                        p.push(y as u8),
                    ) by {
                        assert(children@[y] == oc[y]);
                    }
                }
                assert forall|x: u8| x != b implies #[trigger] child_at(r, x) == child_at(old, x) by {
                    assert(children@[x as int] == oc[x as int]);
                }
                lemma_removed_leaf(old, r, key@, depth as nat, leaf);
            }
            return (r, hit);
        }
        if c.is_leaf() {
            let ghost leaf = *c;
            children[b as usize] = Some(c);
            let r = ArtNode::Node256 { children, num_children: num, val };
            proof {
                assert(children@ =~= oc);
                assert(node_get(old, key@, depth as nat) == node_get(leaf, key@, (depth + 1) as nat));
                assert forall|k: Seq<u8>| #![trigger node_get(r, k, depth as nat)] starts(k, p) implies node_get(r, k, depth as nat)
                    == if k == key@ { None } else { node_get(old, k, depth as nat) } by {}
            }
            return (r, None);
        }
        let ghost c0 = *c;
        let (c2, res) = Self::remove_rec(*c, key, depth + 1);
        children[b as usize] = Some(Box::new(c2));
        let r = ArtNode::Node256 { children, num_children: num, val };
        proof {
            assert(children@ =~= oc.update(b as int, Some(Box::new(c2))));
            lemma_count_update(oc, b as int, Some(Box::new(c2)));
            assert(node_wf(r, p)) by {
                assert forall|y: int| 0 <= y < 256 && (#[trigger] children@[y]) is Some implies node_wf(
                    *children@[y]->0,
                    p.push(y as u8),
                ) by {
                    if y != b as int {
                        assert(children@[y] == oc[y]);
                    }
                }
            }
            assert forall|x: u8| x != b implies #[trigger] child_at(r, x) == child_at(old, x) by {
                assert(children@[x as int] == oc[x as int]);
            }
            lemma_removed_below(old, r, key@, depth as nat, c0, c2);
        }
        (r, res)
    }
}


// ---------------------------------------------------------------------------
// Enumeration.

/// `it` is a key below `n`, reached by path `p`, with the value a lookup finds.
pub open spec fn item_in<V>(n: ArtNode<V>, p: Seq<u8>, it: (Vec<u8>, V)) -> bool {
    starts(it.0@, p) && node_get(n, it.0@, p.len()) == Some(it.1)
}

/// Byte `b` has one of the first `i` key positions.
pub open spec fn slot_below(keys: Seq<u8>, num: int, b: u8, i: int) -> bool {
    match first_match(keys, num, b, 0) {
        Some(j) => j < i,
        None => false,
    }
}

/// No key occurs twice among positions `lo..hi`.
pub open spec fn distinct_keys<V>(s: Seq<(Vec<u8>, V)>, lo: int, hi: int) -> bool {
    forall|i: int, j: int| lo <= i < j < hi ==> (#[trigger] s[i]).0@ != (#[trigger] s[j]).0@
}

/// A key through the child of byte `b` is found there.
proof fn lemma_child_get<V>(n: ArtNode<V>, p: Seq<u8>, b: u8, c: ArtNode<V>, k: Seq<u8>)
    requires
        !(n is Leaf),
        child_at(n, b) == Some(c),
        starts(k, p.push(b)),
    ensures
        starts(k, p),
        k.len() > p.len(),
        k[p.len() as int] == b,
        node_get(n, k, p.len()) == node_get(c, k, p.len() + 1),
{
    assert(k.subrange(0, p.len() + 1 as int)[p.len() as int] == b);
    assert(k.subrange(0, p.len() as int) =~= k.subrange(0, p.len() + 1 as int).subrange(0, p.len() as int));
    assert(p.push(b).subrange(0, p.len() as int) =~= p);
}

impl<V: Copy> ArtNode<V> {
    /// Appends the keys below the child `c` of byte `b` of `n`.
    fn collect_child(n: &ArtNode<V>, c: &ArtNode<V>, b: u8, Ghost(p): Ghost<Seq<u8>>, results: &mut Vec<(Vec<u8>, V)>)
        requires
            !(*n is Leaf),
            node_wf(*n, p),
            child_at(*n, b) == Some(*c),
        ensures
            final(results)@.len() >= old(results)@.len(),
            forall|i: int| 0 <= i < old(results)@.len() ==> #[trigger] final(results)@[i] == old(results)@[i],
            forall|i: int|
                old(results)@.len() <= i < final(results)@.len() ==> item_in(*n, p, #[trigger] final(results)@[i])
                    && final(results)@[i].0@.len() > p.len() && final(results)@[i].0@[p.len() as int] == b,
            distinct_keys(final(results)@, old(results)@.len() as int, final(results)@.len() as int),
            forall|k: Seq<u8>|
                starts(k, p) && k.len() > p.len() && k[p.len() as int] == b && #[trigger] node_get(*n, k, p.len()) is Some
                    ==> exists|i: int| old(results)@.len() <= i < final(results)@.len() && (#[trigger] final(results)@[i]).0@ == k,
        decreases *c, 1nat,
    {
        proof {
            lemma_child_wf(*n, p, b);
        }
        let ghost lo = results@.len();
        Self::collect_all(c, Ghost(p.push(b)), results);
        proof {
            assert forall|i: int| lo <= i < results@.len() implies item_in(*n, p, #[trigger] results@[i])
                && results@[i].0@.len() > p.len() && results@[i].0@[p.len() as int] == b by {
                lemma_child_get(*n, p, b, *c, results@[i].0@);
            }
            assert forall|k: Seq<u8>|
                starts(k, p) && k.len() > p.len() && k[p.len() as int] == b && #[trigger] node_get(*n, k, p.len()) is Some
                    implies exists|i: int| lo <= i < results@.len() && (#[trigger] results@[i]).0@ == k by {
                lemma_starts_push(k, p);
                lemma_child_get(*n, p, b, *c, k);
                assert(node_get(*c, k, p.push(b).len()) is Some);
            }
        }
    }

    /// Appends every key below `n`, reached by path `p`, with its value.
    fn collect_all(n: &ArtNode<V>, Ghost(p): Ghost<Seq<u8>>, results: &mut Vec<(Vec<u8>, V)>)
        requires
            node_wf(*n, p),
        ensures
            final(results)@.len() >= old(results)@.len(),
            forall|i: int| 0 <= i < old(results)@.len() ==> #[trigger] final(results)@[i] == old(results)@[i],
            forall|i: int| old(results)@.len() <= i < final(results)@.len() ==> item_in(*n, p, #[trigger] final(results)@[i]),
            distinct_keys(final(results)@, old(results)@.len() as int, final(results)@.len() as int),
            forall|k: Seq<u8>|
                starts(k, p) && #[trigger] node_get(*n, k, p.len()) is Some ==> exists|i: int|
                    old(results)@.len() <= i < final(results)@.len() && (#[trigger] final(results)@[i]).0@ == k,
        decreases *n, 0nat,
    {
        let ghost lo = results@.len();
        let ghost orig = results@;
        let ghost d = p.len();
        match n {
            ArtNode::Leaf { key, value } => {
                results.push((copy_key(key.as_slice()), *value));
                proof {
                    assert(results@[lo as int].0@ == key@);
                }
                return;
            },
            _ => {},
        }
        match n {
            ArtNode::Node4 { val, .. } | ArtNode::Node16 { val, .. } | ArtNode::Node48 { val, .. } | ArtNode::Node256 {
                val,
                ..
            } => {
                match val {
                    Some((k, v)) => {
                        results.push((copy_key(k.as_slice()), *v));
                        proof {
                            assert(results@[lo as int].0@ == p);
                            assert(p.subrange(0, p.len() as int) =~= p);
                        }
                    },
                    None => {},
                }
            },
            ArtNode::Leaf { .. } => {},
        }
        proof {
            assert forall|k: Seq<u8>| starts(k, p) && k.len() == d && #[trigger] node_get(*n, k, d) is Some implies exists|i: int|
                lo <= i < results@.len() && (#[trigger] results@[i]).0@ == k by {
                assert(k =~= p) by {
                    assert(k == k.subrange(0, p.len() as int));
                }
                assert(results@[lo as int].0@ == k);
            }
        }
        match n {
            ArtNode::Node4 { keys, children, num_children, .. } | ArtNode::Node16 { keys, children, num_children, .. } => {
                let num = *num_children as usize;
                let mut i: usize = 0;
                while i < num
                    invariant
                        node_wf(*n, p),
                        !(*n is Leaf),
                        d == p.len(),
                        num == *num_children,
                        num <= keys@.len() == children@.len(),
                        slot_of(*n, 0u8) == slot_of(*n, 0u8),
                        forall|x: u8| #[trigger] slot_of(*n, x) == first_match(keys@, num as int, x, 0),
                        children_of(*n) == children@,
                        forall|a: int, c: int| 0 <= a < c < num ==> #[trigger] keys@[a] != #[trigger] keys@[c],
                        forall|a: int| 0 <= a < num ==> (#[trigger] children@[a]) is Some,
                        i <= num,
                        results@.len() >= lo,
                        forall|t: int| 0 <= t < lo ==> #[trigger] results@[t] == orig[t],
                        forall|t: int|
                            lo <= t < results@.len() ==> item_in(*n, p, #[trigger] results@[t]) && (results@[t].0@.len() == d
                                || slot_below(keys@, num as int, results@[t].0@[d as int], (i) as int)),
                        distinct_keys(results@, lo as int, results@.len() as int),
                        forall|k: Seq<u8>|
                            starts(k, p) && #[trigger] node_get(*n, k, d) is Some && (k.len() == d || slot_below(keys@, num as int, k[d as int], (i) as int)) ==> exists|t: int| lo <= t < results@.len() && (#[trigger] results@[t]).0@ == k,
                    decreases num - i,
                {
                    let b = keys[i];
                    proof {
                        lemma_first_match_at::<V>(keys@, num as int, b, i as int);
                        assert(slot_of(*n, b) == Some(i as int));
                    }
                    match &children[i] {
                        Some(c) => {
                            let ghost before = results@;
                            Self::collect_child(n, &**c, b, Ghost(p), results);
                            proof {
                                assert forall|t: int|
                                    lo <= t < results@.len() implies item_in(*n, p, #[trigger] results@[t]) && (results@[t].0@.len()
                                    == d || slot_below(keys@, num as int, results@[t].0@[d as int], (i + 1) as int)) by {
                                    if t < before.len() {
                                        assert(results@[t] == before[t]);
                                    }
                                }
                                assert forall|x: int, y: int| lo <= x < y < results@.len() implies (#[trigger] results@[x]).0@
                                    != (#[trigger] results@[y]).0@ by {
                                    if y >= before.len() && x < before.len() {
                                        assert(results@[x] == before[x]);
                                        let kx = results@[x].0@;
                                        if kx.len() != d {
                                            lemma_first_match::<V>(keys@, num as int, kx[d as int], 0);
                                        }
                                    } else if y < before.len() {
                                        assert(results@[x] == before[x]);
                                        assert(results@[y] == before[y]);
                                    }
                                }
                                assert forall|k: Seq<u8>|
                                    starts(k, p) && #[trigger] node_get(*n, k, d) is Some && (k.len() == d || slot_below(keys@, num as int, k[d as int], (i + 1) as int)) implies exists|t: int| lo <= t < results@.len()
                                    && (#[trigger] results@[t]).0@ == k by {
                                    if k.len() != d && first_match(keys@, num as int, k[d as int], 0) == Some(i as int) {
                                        lemma_first_match::<V>(keys@, num as int, k[d as int], 0);
                                    } else {
                                        let t = choose|t: int| lo <= t < before.len() && (#[trigger] before[t]).0@ == k;
                                        assert(results@[t] == before[t]);
                                    }
                                }
                            }
                        },
                        None => {},
                    }
                    i = i + 1;
                }
                proof {
                    assert forall|k: Seq<u8>| starts(k, p) && #[trigger] node_get(*n, k, d) is Some implies exists|t: int|
                        lo <= t < results@.len() && (#[trigger] results@[t]).0@ == k by {
                        if k.len() != d {
                            lemma_first_match::<V>(keys@, num as int, k[d as int], 0);
                        }
                    }
                }
            },
            ArtNode::Node48 { index, children, .. } => {
                let mut x: usize = 0;
                while x < 256
                    invariant
                        node_wf(*n, p),
                        !(*n is Leaf),
                        d == p.len(),
                        index@.len() == 256,
                        children@.len() == 48,
                        children_of(*n) == children@,
                        forall|y: u8| #[trigger] slot_of(*n, y) == if index@[y as int] != EMPTY_SLOT {
                            Some(index@[y as int] as int)
                        } else {
                            None
                        },
                        x <= 256,
                        results@.len() >= lo,
                        forall|t: int| 0 <= t < lo ==> #[trigger] results@[t] == orig[t],
                        forall|t: int|
                            lo <= t < results@.len() ==> item_in(*n, p, #[trigger] results@[t]) && (results@[t].0@.len() == d
                                || results@[t].0@[d as int] < x),
                        distinct_keys(results@, lo as int, results@.len() as int),
                        forall|k: Seq<u8>|
                            starts(k, p) && #[trigger] node_get(*n, k, d) is Some && (k.len() == d || k[d as int] < x)
                                ==> exists|t: int| lo <= t < results@.len() && (#[trigger] results@[t]).0@ == k,
                    decreases 256 - x,
                {
                    let b = x as u8;
                    let s = index[x];
                    if s != EMPTY_SLOT {
                        match &children[s as usize] {
                            Some(c) => {
                                let ghost before = results@;
                                proof {
                                    assert(slot_of(*n, b) == Some(s as int));
                                }
                                Self::collect_child(n, &**c, b, Ghost(p), results);
                                proof {
                                    assert forall|t: int| lo <= t < results@.len() implies item_in(*n, p, #[trigger] results@[t])
                                        && (results@[t].0@.len() == d || results@[t].0@[d as int] < x + 1) by {
                                        if t < before.len() {
                                            assert(results@[t] == before[t]);
                                        }
                                    }
                                    assert forall|y: int, z: int| lo <= y < z < results@.len() implies (#[trigger] results@[y]).0@
                                        != (#[trigger] results@[z]).0@ by {
                                        if y < before.len() {
                                            assert(results@[y] == before[y]);
                                        }
                                        if z < before.len() {
                                            assert(results@[z] == before[z]);
                                        }
                                    }
                                    assert forall|k: Seq<u8>|
                                        starts(k, p) && #[trigger] node_get(*n, k, d) is Some && (k.len() == d || k[d as int]
                                            < x + 1) implies exists|t: int| lo <= t < results@.len() && (#[trigger] results@[t]).0@
                                        == k by {
                                        if k.len() == d || k[d as int] < x {
                                            let t = choose|t: int| lo <= t < before.len() && (#[trigger] before[t]).0@ == k;
                                            assert(results@[t] == before[t]);
                                        }
                                    }
                                }
                            },
                            None => {},
                        }
                    } else {
                        proof {
                            assert forall|k: Seq<u8>|
                                starts(k, p) && #[trigger] node_get(*n, k, d) is Some && (k.len() == d || k[d as int] < x + 1)
                                    implies exists|t: int| lo <= t < results@.len() && (#[trigger] results@[t]).0@ == k by {
                                if k.len() != d && k[d as int] == x {
                                    assert(slot_of(*n, k[d as int]) is None);
                                }
                            }
                        }
                    }
                    x = x + 1;
                }
            },
            ArtNode::Node256 { children, .. } => {
                let mut x: usize = 0;
                while x < 256
                    invariant
                        node_wf(*n, p),
                        !(*n is Leaf),
                        d == p.len(),
                        children@.len() == 256,
                        children_of(*n) == children@,
                        forall|y: u8| #[trigger] slot_of(*n, y) == Some(y as int),
                        x <= 256,
                        results@.len() >= lo,
                        forall|t: int| 0 <= t < lo ==> #[trigger] results@[t] == orig[t],
                        forall|t: int|
                            lo <= t < results@.len() ==> item_in(*n, p, #[trigger] results@[t]) && (results@[t].0@.len() == d
                                || results@[t].0@[d as int] < x),
                        distinct_keys(results@, lo as int, results@.len() as int),
                        forall|k: Seq<u8>|
                            starts(k, p) && #[trigger] node_get(*n, k, d) is Some && (k.len() == d || k[d as int] < x)
                                ==> exists|t: int| lo <= t < results@.len() && (#[trigger] results@[t]).0@ == k,
                    decreases 256 - x,
                {
                    let b = x as u8;
                    match &children[x] {
                        Some(c) => {
                            let ghost before = results@;
                            Self::collect_child(n, &**c, b, Ghost(p), results);
                            proof {
                                assert forall|t: int| lo <= t < results@.len() implies item_in(*n, p, #[trigger] results@[t])
                                    && (results@[t].0@.len() == d || results@[t].0@[d as int] < x + 1) by {
                                    if t < before.len() {
                                        assert(results@[t] == before[t]);
                                    }
                                }
                                assert forall|y: int, z: int| lo <= y < z < results@.len() implies (#[trigger] results@[y]).0@
                                    != (#[trigger] results@[z]).0@ by {
                                    if y < before.len() {
                                        assert(results@[y] == before[y]);
                                    }
                                    if z < before.len() {
                                        assert(results@[z] == before[z]);
                                    }
                                }
                                assert forall|k: Seq<u8>|
                                    starts(k, p) && #[trigger] node_get(*n, k, d) is Some && (k.len() == d || k[d as int] < x + 1)
                                        implies exists|t: int| lo <= t < results@.len() && (#[trigger] results@[t]).0@ == k by {
                                    if k.len() == d || k[d as int] < x {
                                        let t = choose|t: int| lo <= t < before.len() && (#[trigger] before[t]).0@ == k;
                                        assert(results@[t] == before[t]);
                                    }
                                }
                            }
                        },
                        None => {
                            proof {
                                assert forall|k: Seq<u8>|
                                    starts(k, p) && #[trigger] node_get(*n, k, d) is Some && (k.len() == d || k[d as int] < x + 1)
                                        implies exists|t: int| lo <= t < results@.len() && (#[trigger] results@[t]).0@ == k by {
                                    if k.len() != d && k[d as int] == x {
                                        assert(child_at(*n, k[d as int]) is None);
                                    }
                                }
                            }
                        },
                    }
                    x = x + 1;
                }
            },
            ArtNode::Leaf { .. } => {},
        }
    }
}


/// `k` begins with `prefix`.
fn has_prefix(k: &[u8], prefix: &[u8]) -> (r: bool)
    ensures
        r == starts(k@, prefix@),
{
    if prefix.len() > k.len() {
        return false;
    }
    let mut i: usize = 0;
    while i < prefix.len()
        invariant
            prefix@.len() <= k@.len(),
            i <= prefix@.len(),
            forall|t: int| 0 <= t < i ==> k@[t] == prefix@[t],
        decreases prefix@.len() - i,
    {
        if k[i] != prefix[i] {
            proof {
                assert(k@.subrange(0, prefix@.len() as int)[i as int] != prefix@[i as int]);
            }
            return false;
        }
        i = i + 1;
    }
    proof {
        assert(k@.subrange(0, prefix@.len() as int) =~= prefix@);
    }
    true
}

impl<V: Copy> ArtNode<V> {
    /// Appends the keys below `n` that begin with `prefix`, `n` being
    /// reached by its first `depth` bytes.
    fn collect_prefix(n: &ArtNode<V>, prefix: &[u8], depth: usize, results: &mut Vec<(Vec<u8>, V)>)
        requires
            depth <= prefix@.len(),
            node_wf(*n, prefix@.take(depth as int)),
        ensures
            final(results)@.len() >= old(results)@.len(),
            forall|i: int| 0 <= i < old(results)@.len() ==> #[trigger] final(results)@[i] == old(results)@[i],
            forall|i: int|
                old(results)@.len() <= i < final(results)@.len() ==> item_in(*n, prefix@.take(depth as int), #[trigger] final(results)@[i])
                    && starts(final(results)@[i].0@, prefix@),
            distinct_keys(final(results)@, old(results)@.len() as int, final(results)@.len() as int),
            forall|k: Seq<u8>|
                starts(k, prefix@) && #[trigger] node_get(*n, k, depth as nat) is Some ==> exists|i: int|
                    old(results)@.len() <= i < final(results)@.len() && (#[trigger] final(results)@[i]).0@ == k,
        decreases prefix@.len() - depth,
    {
        let ghost p = prefix@.take(depth as int);
        let ghost lo = results@.len();
        if depth >= prefix.len() {
            proof {
                assert(p =~= prefix@);
            }
            Self::collect_all(n, Ghost(p), results);
            return;
        }
        match n {
            ArtNode::Node4 { val, .. } | ArtNode::Node16 { val, .. } | ArtNode::Node48 { val, .. } | ArtNode::Node256 {
                val,
                ..
            } => {
                match val {
                    Some((k, v)) => {
                        if has_prefix(k.as_slice(), prefix) {
                            results.push((copy_key(k.as_slice()), *v));
                        }
                    },
                    None => {},
                }
            },
            ArtNode::Leaf { .. } => {},
        }
        proof {
            assert(results@.len() == lo);
        }
        let target = prefix[depth];
        match n {
            ArtNode::Leaf { key, value } => {
                if has_prefix(key.as_slice(), prefix) {
                    results.push((copy_key(key.as_slice()), *value));
                    proof {
                        assert(results@[lo as int].0@ == key@);
                    }
                }
                return;
            },
            _ => {},
        }
        proof {
            lemma_wf_shape(*n, p);
            assert(prefix@.take(depth + 1) =~= p.push(target));
        }
        match n.find_slot(target) {
            Some(s) => {
                let children = n.children_ref();
                match &children[s] {
                    Some(c) => {
                        proof {
                            assert(child_at(*n, target) == Some(**c));
                            lemma_child_wf(*n, p, target);
                        }
                        Self::collect_prefix(&**c, prefix, depth + 1, results);
                        proof {
                            assert forall|i: int| lo <= i < results@.len() implies item_in(*n, p, #[trigger] results@[i])
                                && starts(results@[i].0@, prefix@) by {
                                lemma_child_get(*n, p, target, **c, results@[i].0@);
                            }
                            assert forall|k: Seq<u8>| starts(k, prefix@) && #[trigger] node_get(*n, k, depth as nat) is Some implies exists|i: int|
                                lo <= i < results@.len() && (#[trigger] results@[i]).0@ == k by {
                                assert(k[depth as int] == prefix@.subrange(0, prefix@.len() as int)[depth as int]);
                                assert(node_get(*n, k, depth as nat) == node_get(**c, k, (depth + 1) as nat));
                            }
                        }
                    },
                    None => {
                        proof {
                            assert forall|k: Seq<u8>| starts(k, prefix@) && #[trigger] node_get(*n, k, depth as nat) is Some implies exists|i: int|
                                lo <= i < results@.len() && (#[trigger] results@[i]).0@ == k by {
                                assert(k[depth as int] == prefix@.subrange(0, prefix@.len() as int)[depth as int]);
                            }
                        }
                    },
                }
            },
            None => {
                proof {
                    assert forall|k: Seq<u8>| starts(k, prefix@) && #[trigger] node_get(*n, k, depth as nat) is Some implies exists|i: int|
                        lo <= i < results@.len() && (#[trigger] results@[i]).0@ == k by {
                        assert(k[depth as int] == prefix@.subrange(0, prefix@.len() as int)[depth as int]);
                    }
                }
            },
        }
    }
}

// ---------------------------------------------------------------------------
// The tree.

/// A map from byte-string keys to values, held in an adaptive radix tree.
pub struct ArtTree<V> {
    root: Option<Box<ArtNode<V>>>,
}

impl<V> ArtTree<V> {
    /// The tree is well formed.
    pub closed spec fn wf(&self) -> bool {
        match self.root {
            Some(n) => node_wf(*n, Seq::empty()),
            None => true,
        }
    }

    /// What a lookup of `k` finds.
    pub closed spec fn lookup(&self, k: Seq<u8>) -> Option<V> {
        match self.root {
            Some(n) => node_get(*n, k, 0),
            None => None,
        }
    }
}

impl<V> View for ArtTree<V> {
    type V = Map<Seq<u8>, V>;

    closed spec fn view(&self) -> Map<Seq<u8>, V> {
        Map::new(|k: Seq<u8>| self.lookup(k) is Some, |k: Seq<u8>| self.lookup(k)->0)
    }
}

proof fn lemma_starts_empty(k: Seq<u8>)
    ensures
        starts(k, Seq::empty()),
        starts(k, k.take(0)),
{
    assert(k.subrange(0, 0) =~= Seq::<u8>::empty());
}

impl<V: Copy> ArtTree<V> {
    pub fn new() -> (r: Self)
        ensures
            r.wf(),
            r@ == Map::<Seq<u8>, V>::empty(),
    {
        let r = ArtTree { root: None };
        proof {
            assert(r@ =~= Map::<Seq<u8>, V>::empty());
        }
        r
    }

    /// Stores `value` under `key`; returns the value it replaced.
    pub fn insert(&mut self, key: &[u8], value: V) -> (r: Option<V>)
        requires
            old(self).wf(),
        ensures
            final(self).wf(),
            final(self)@ == old(self)@.insert(key@, value),
            r == if old(self)@.dom().contains(key@) {
                Some(old(self)@[key@])
            } else {
                None::<V>
            },
    {
        let ghost before = *self;
        let mut root: Option<Box<ArtNode<V>>> = None;
        std::mem::swap(&mut root, &mut self.root);
        match root {
            None => {
                self.root = Some(Box::new(ArtNode::Leaf { key: copy_key(key), value }));
                proof {
                    lemma_starts_empty(key@);
                    assert(self@ =~= before@.insert(key@, value));
                }
                None
            },
            Some(n) => {
                let ghost n0 = *n;
                proof {
                    lemma_starts_empty(key@);
                    assert(key@.take(0) =~= Seq::<u8>::empty());
                }
                let (n2, old) = ArtNode::insert_rec(n, key, value, 0);
                self.root = Some(n2);
                proof {
                    assert forall|k: Seq<u8>| #[trigger] self.lookup(k) == if k == key@ {
                        Some(value)
                    } else {
                        before.lookup(k)
                    } by {
                        lemma_starts_empty(k);
                        assert(node_get(*n2, k, 0) == if k == key@ { Some(value) } else { node_get(n0, k, 0) });
                    }
                    assert(self@ =~= before@.insert(key@, value));
                }
                old
            },
        }
    }

    /// The value stored under `key`.
    pub fn get(&self, key: &[u8]) -> (r: Option<V>)
        requires
            self.wf(),
        ensures
            r == if self@.dom().contains(key@) {
                Some(self@[key@])
            } else {
                None::<V>
            },
    {
        match &self.root {
            None => None,
            Some(n) => node_lookup(&**n, key),
        }
    }

    /// Removes `key`; returns the value it held.
    pub fn remove(&mut self, key: &[u8]) -> (r: Option<V>)
        requires
            old(self).wf(),
        ensures
            final(self).wf(),
            final(self)@ == old(self)@.remove(key@),
            r == if old(self)@.dom().contains(key@) {
                Some(old(self)@[key@])
            } else {
                None::<V>
            },
    {
        let ghost before = *self;
        let mut root: Option<Box<ArtNode<V>>> = None;
        std::mem::swap(&mut root, &mut self.root);
        match root {
            None => {
                proof {
                    assert(self@ =~= before@.remove(key@));
                }
                None
            },
            Some(n) => {
                let ghost n0 = *n;
                if n.is_leaf() {
                    let hit = leaf_hit(&*n, key);
                    if hit.is_some() {
                        proof {
                            assert(self@ =~= before@.remove(key@));
                        }
                        return hit;
                    }
                    self.root = Some(n);
                    proof {
                        assert(self@ =~= before@.remove(key@));
                    }
                    return None;
                }
                proof {
                    assert(key@.take(0) =~= Seq::<u8>::empty());
                }
                let (n2, res) = ArtNode::remove_rec(*n, key, 0);
                self.root = Some(Box::new(n2));
                proof {
                    assert forall|k: Seq<u8>| #[trigger] self.lookup(k) == if k == key@ {
                        None
                    } else {
                        before.lookup(k)
                    } by {
                        lemma_starts_empty(k);
                        assert(node_get(n2, k, 0) == if k == key@ { None } else { node_get(n0, k, 0) });
                    }
                    assert(self@ =~= before@.remove(key@));
                }
                res
            },
        }
    }

    /// Every stored key that begins with `prefix`, with its value, each key
    /// once.
    pub fn get_prefix(&self, prefix: &[u8]) -> (r: Vec<(Vec<u8>, V)>)
        requires
            self.wf(),
        ensures
            forall|i: int|
                0 <= i < r@.len() ==> starts((#[trigger] r@[i]).0@, prefix@) && self@.dom().contains(r@[i].0@)
                    && self@[r@[i].0@] == r@[i].1,
            forall|k: Seq<u8>| #[trigger] self@.dom().contains(k) && starts(k, prefix@) ==> exists|i: int| 0 <= i < r@.len() && (#[trigger] r@[i]).0@ == k,
            distinct_keys(r@, 0, r@.len() as int),
    {
        let mut results: Vec<(Vec<u8>, V)> = Vec::new();
        match &self.root {
            None => {},
            Some(n) => {
                proof {
                    assert(prefix@.take(0) =~= Seq::<u8>::empty());
                }
                ArtNode::collect_prefix(&**n, prefix, 0, &mut results);
                proof {
                    assert forall|k: Seq<u8>| #[trigger] self@.dom().contains(k) && starts(k, prefix@) implies exists|i: int|
                        0 <= i < results@.len() && (#[trigger] results@[i]).0@ == k by {
                        assert(node_get(**n, k, 0) is Some);
                    }
                }
            },
        }
        results
    }

    /// A copy of the tree's contents, for reads that must not see later
    /// writes.
    pub fn snapshot(&self) -> (r: ArtSnapshot<V>)
        requires
            self.wf(),
        ensures
            r.wf(),
            r@ == self@,
    {
        let none: Vec<u8> = Vec::new();
        let items = self.get_prefix(none.as_slice());
        let r = ArtSnapshot { items };
        proof {
            assert forall|k: Seq<u8>| #[trigger] self@.dom().contains(k) implies r@.dom().contains(k) && r@[k] == self@[k] by {
                lemma_starts_empty(k);
                let i = choose|i: int| 0 <= i < items@.len() && (#[trigger] items@[i]).0@ == k;
                r.lemma_item_value(i);
            }
            assert forall|k: Seq<u8>| #[trigger] r@.dom().contains(k) implies self@.dom().contains(k) by {
                let i = choose|i: int| 0 <= i < items@.len() && (#[trigger] items@[i]).0@ == k;
                assert(starts(items@[i].0@, none@) && self@.dom().contains(items@[i].0@));
            }
            assert(r@.dom() =~= self@.dom());
            assert(r@ =~= self@);
        }
        r
    }
}

impl<V: Copy> Default for ArtTree<V> {
    fn default() -> (r: Self)
        ensures
            r.wf(),
            r@ == Map::<Seq<u8>, V>::empty(),
    {
        ArtTree::new()
    }
}

/// The contents of a tree at one moment, as a list of entries.
pub struct ArtSnapshot<V> {
    items: Vec<(Vec<u8>, V)>,
}

impl<V> ArtSnapshot<V> {
    /// No key is listed twice.
    pub closed spec fn wf(&self) -> bool {
        distinct_keys(self.items@, 0, self.items@.len() as int)
    }

    /// The value listed under the key at position `i`.
    proof fn lemma_item_value(&self, i: int)
        requires
            self.wf(),
            0 <= i < self.items@.len(),
        ensures
            self@.dom().contains(self.items@[i].0@),
            self@[self.items@[i].0@] == self.items@[i].1,
    {
        let k = self.items@[i].0@;
        let j = choose|j: int| 0 <= j < self.items@.len() && (#[trigger] self.items@[j]).0@ == k;
        if j != i {
            if i < j {
                assert(self.items@[i].0@ != self.items@[j].0@);
            } else {
                assert(self.items@[j].0@ != self.items@[i].0@);
            }
        }
    }
}

impl<V> View for ArtSnapshot<V> {
    type V = Map<Seq<u8>, V>;

    closed spec fn view(&self) -> Map<Seq<u8>, V> {
        Map::new(
            |k: Seq<u8>| exists|i: int| 0 <= i < self.items@.len() && (#[trigger] self.items@[i]).0@ == k,
            |k: Seq<u8>| self.items@[choose|i: int| 0 <= i < self.items@.len() && (#[trigger] self.items@[i]).0@ == k].1,
        )
    }
}

impl<V: Copy> ArtSnapshot<V> {
    /// The value listed under `key`.
    pub fn get(&self, key: &[u8]) -> (r: Option<V>)
        requires
            self.wf(),
        ensures
            r == if self@.dom().contains(key@) {
                Some(self@[key@])
            } else {
                None::<V>
            },
    {
        let mut i: usize = 0;
        while i < self.items.len()
            invariant
                self.wf(),
                i <= self.items@.len(),
                forall|t: int| 0 <= t < i ==> (#[trigger] self.items@[t]).0@ != key@,
            decreases self.items@.len() - i,
        {
            if crate::index::lex::bytes_equal(self.items[i].0.as_slice(), key) {
                proof {
                    self.lemma_item_value(i as int);
                }
                return Some(self.items[i].1);
            }
            i = i + 1;
        }
        None
    }

    /// The listed entries whose keys begin with `prefix`, in listed order.
    pub fn get_prefix(&self, prefix: &[u8]) -> (r: Vec<(Vec<u8>, V)>)
        requires
            self.wf(),
        ensures
            forall|i: int|
                0 <= i < r@.len() ==> starts((#[trigger] r@[i]).0@, prefix@) && self@.dom().contains(r@[i].0@)
                    && self@[r@[i].0@] == r@[i].1,
            forall|k: Seq<u8>| #[trigger] self@.dom().contains(k) && starts(k, prefix@) ==> exists|i: int| 0 <= i < r@.len() && (#[trigger] r@[i]).0@ == k,
            distinct_keys(r@, 0, r@.len() as int),
    {
        let mut out: Vec<(Vec<u8>, V)> = Vec::new();
        let ghost src: Seq<int> = Seq::empty();
        let mut i: usize = 0;
        while i < self.items.len()
            invariant
                self.wf(),
                i <= self.items@.len(),
                src.len() == out@.len(),
                forall|t: int| 0 <= t < out@.len() ==> 0 <= #[trigger] src[t] < i && out@[t].0@ == self.items@[src[t]].0@
                    && out@[t].1 == self.items@[src[t]].1 && starts(out@[t].0@, prefix@),
                forall|t1: int, t2: int| 0 <= t1 < t2 < out@.len() ==> #[trigger] src[t1] < #[trigger] src[t2],
                forall|j: int| 0 <= j < i && starts(#[trigger] self.items@[j].0@, prefix@) ==> exists|t: int| 0 <= t < src.len() && src[t] == j,
            decreases self.items@.len() - i,
        {
            let (k, v) = (&self.items[i].0, self.items[i].1);
            if has_prefix(k.as_slice(), prefix) {
                out.push((copy_key(k.as_slice()), v));
                let ghost prev = src;
                proof {
                    assert(out@[out@.len() - 1].0@ == self.items@[i as int].0@);
                    assert(out@[out@.len() - 1].1 == self.items@[i as int].1);
                    src = src.push(i as int);
                    assert forall|j: int| 0 <= j < i + 1 && starts(#[trigger] self.items@[j].0@, prefix@) implies exists|t: int|
                        0 <= t < src.len() && src[t] == j by {
                        if j == i {
                            assert(src[src.len() - 1] == j);
                        } else {
                            let t = choose|t: int| 0 <= t < prev.len() && prev[t] == j;
                            assert(src[t] == j);
                        }
                    }
                }
            }
            i = i + 1;
        }
        proof {
            assert forall|t: int| 0 <= t < out@.len() implies starts((#[trigger] out@[t]).0@, prefix@) && self@.dom().contains(out@[t].0@)
                && self@[out@[t].0@] == out@[t].1 by {
                self.lemma_item_value(src[t]);
            }
            assert forall|k: Seq<u8>| #[trigger] self@.dom().contains(k) && starts(k, prefix@) implies exists|t: int| 0 <= t < out@.len()
                && (#[trigger] out@[t]).0@ == k by {
                let j = choose|j: int| 0 <= j < self.items@.len() && (#[trigger] self.items@[j]).0@ == k;
                let t = choose|t: int| 0 <= t < src.len() && src[t] == j;
                assert(out@[t].0@ == k);
            }
            assert forall|t1: int, t2: int| 0 <= t1 < t2 < out@.len() implies (#[trigger] out@[t1]).0@ != (#[trigger] out@[t2]).0@ by {
                assert(src[t1] < src[t2]);
                assert(self.items@[src[t1]].0@ != self.items@[src[t2]].0@);
            }
        }
        out
    }
}




// ---------------------------------------------------------------------------
// Laws.

/// After `insert(k, v)` a lookup of `k` finds `v`, and every other key finds
/// what it found before.
pub proof fn lemma_art_get_after_insert<V>(t1: ArtTree<V>, t2: ArtTree<V>, k: Seq<u8>, v: V, other: Seq<u8>)
    requires
        t2@ == t1@.insert(k, v),
        other != k,
    ensures
        t2@.dom().contains(k),
        t2@[k] == v,
        t2@.dom().contains(other) == t1@.dom().contains(other),
        t1@.dom().contains(other) ==> t2@[other] == t1@[other],
{
}

/// After `remove(k)` a lookup of `k` finds nothing, and every other key
/// finds what it found before.
pub proof fn lemma_art_get_after_remove<V>(t1: ArtTree<V>, t2: ArtTree<V>, k: Seq<u8>, other: Seq<u8>)
    requires
        t2@ == t1@.remove(k),
        other != k,
    ensures
        !t2@.dom().contains(k),
        t2@.dom().contains(other) == t1@.dom().contains(other),
        t1@.dom().contains(other) ==> t2@[other] == t1@[other],
{
}

/// Removing a key that an insertion added gives back the contents from
/// before the insertion.
pub proof fn lemma_art_remove_undoes_insert<V>(t0: ArtTree<V>, t1: ArtTree<V>, t2: ArtTree<V>, k: Seq<u8>, v: V)
    requires
        !t0@.dom().contains(k),
        t1@ == t0@.insert(k, v),
        t2@ == t1@.remove(k),
    ensures
        t2@ == t0@,
{
    assert(t2@ =~= t0@);
}

/// A snapshot answers every lookup as the tree did when it was taken.
pub proof fn lemma_art_snapshot_agrees<V>(t: ArtTree<V>, s: ArtSnapshot<V>, k: Seq<u8>)
    requires
        s@ == t@,
    ensures
        s@.dom().contains(k) == t@.dom().contains(k),
        t@.dom().contains(k) ==> s@[k] == t@[k],
{
}

} // verus!
