//! Byte-level shuffle: groups the bytes of equal significance of all
//! elements together, which turns repeating patterns into long runs.
use vstd::prelude::*;
use vstd::arithmetic::div_mod::{lemma_fundamental_div_mod, lemma_fundamental_div_mod_converse};

verus! {

/// Number of whole elements of size `es` in `len` bytes.
pub open spec fn whole(len: int, es: int) -> int {
    len / es
}

/// Shuffled image: byte `b` of element `i` goes to `b * n + i`; the bytes
/// after the last whole element stay in place.
pub open spec fn shuffled(d: Seq<u8>, es: int) -> Seq<u8> {
    let n = whole(d.len() as int, es);
    Seq::new(
        d.len(),
        |k: int|
            if es <= 1 || k >= n * es {
                d[k]
            } else {
                d[(k % n) * es + k / n]
            },
    )
}

/// Inverse image: position `b * n + i` goes back to byte `b` of element `i`.
pub open spec fn unshuffled(d: Seq<u8>, es: int) -> Seq<u8> {
    let n = whole(d.len() as int, es);
    Seq::new(
        d.len(),
        |k: int|
            if es <= 1 || k >= n * es {
                d[k]
            } else {
                d[(k % es) * n + k / es]
            },
    )
}

proof fn lemma_split(b: int, n: int, i: int)
    requires
        n > 0,
        0 <= i < n,
        b >= 0,
    ensures
        (b * n + i) / n == b,
        (b * n + i) % n == i,
{
    lemma_fundamental_div_mod_converse(b * n + i, n, b, i);
}

proof fn lemma_index_bounds(b: int, n: int, i: int, es: int)
    requires
        0 <= i < n,
        0 <= b < es,
    ensures
        0 <= b * n + i < n * es,
        0 <= i * es + b < n * es,
{
    assert(b * n + i < n * es) by (nonlinear_arith)
        requires 0 <= i < n, 0 <= b < es;
    assert(i * es + b < n * es) by (nonlinear_arith)
        requires 0 <= i < n, 0 <= b < es;
    assert(0 <= b * n) by (nonlinear_arith)
        requires 0 <= b, 0 <= n;
    assert(0 <= i * es) by (nonlinear_arith)
        requires 0 <= i, 0 <= es;
}

proof fn lemma_whole_bound(len: int, es: int)
    requires
        es > 0,
        len >= 0,
    ensures
        0 <= whole(len, es) * es <= len,
        whole(len, es) >= 0,
{
    let n = whole(len, es);
    assert(0 <= n * es <= len) by (nonlinear_arith)
        requires n == len / es, es > 0, len >= 0;
    assert(n >= 0) by (nonlinear_arith)
        requires n == len / es, es > 0, len >= 0;
}

/// Position `k` inside the element area splits into element and byte index.
proof fn lemma_cell(k: int, n: int, es: int)
    requires
        es > 1,
        n >= 0,
        0 <= k < n * es,
    ensures
        n > 0,
        k == (k / es) * es + k % es,
        k == (k / n) * n + k % n,
        0 <= k % n < n,
        0 <= k / n < es,
        0 <= k % es < es,
        0 <= k / es < n,
        (k % n) * es + k / n < n * es,
        (k % es) * n + k / es < n * es,
{
    assert(n > 0) by (nonlinear_arith)
        requires 0 <= k < n * es, n >= 0, es > 1;
    lemma_fundamental_div_mod(k, es);
    lemma_fundamental_div_mod(k, n);
    assert(es * (k / es) == (k / es) * es) by (nonlinear_arith);
    assert(n * (k / n) == (k / n) * n) by (nonlinear_arith);
    assert(0 <= k / n < es) by (nonlinear_arith)
        requires 0 <= k < n * es, n > 0, es > 1;
    assert(0 <= k / es < n) by (nonlinear_arith)
        requires 0 <= k < n * es, n > 0, es > 1;
    assert(0 <= k % n < n) by (nonlinear_arith)
        requires n > 0, 0 <= k;
    assert(0 <= k % es < es) by (nonlinear_arith)
        requires es > 0, 0 <= k;
    assert(0 <= (k % n) * es + k / n < n * es) by (nonlinear_arith)
        requires 0 <= k % n < n, 0 <= k / n < es;
    assert(0 <= (k % es) * n + k / es < n * es) by (nonlinear_arith)
        requires 0 <= k % es < es, 0 <= k / es < n;
}

pub fn shuffle_scalar(data: &[u8], elem_size: usize) -> (r: Vec<u8>)
    ensures
        r@ == shuffled(data@, elem_size as int),
{
    if data.len() == 0 || elem_size <= 1 {
        let r = vstd::slice::slice_to_vec(data);
        assert(r@ =~= shuffled(data@, elem_size as int));
        return r;
    }
    let len = data.len();
    let num_elements = len / elem_size;
    proof {
        lemma_whole_bound(len as int, elem_size as int);
    }
    let ghost n = num_elements as int;
    let ghost es = elem_size as int;
    let mut out: Vec<u8> = vec![0u8; len];
    let mut b: usize = 0;
    while b < elem_size
        invariant
            len == data@.len(),
            out@.len() == len,
            n == num_elements,
            es == elem_size,
            es > 1,
            0 <= n * es <= len,
            n == whole(len as int, es),
            b <= elem_size,
            forall|k: int| 0 <= k < b * n ==> #[trigger] out@[k] == data@[(k % n) * es + k / n],
        decreases elem_size - b,
    {
        assert(b * n + n <= n * es) by (nonlinear_arith)
            requires b < es, n >= 0;
        assert(0 <= b * n) by (nonlinear_arith)
            requires b >= 0, n >= 0;
        let dest_offset = b * num_elements;
        let mut i: usize = 0;
        while i < num_elements
            invariant
                len == data@.len(),
                out@.len() == len,
                n == num_elements,
                es == elem_size,
                es > 1,
                0 <= n * es <= len,
                b < elem_size,
                dest_offset == b * n,
                b * n + n <= n * es,
                i <= num_elements,
                forall|k: int| 0 <= k < b * n + i ==> #[trigger] out@[k] == data@[(k % n) * es + k / n],
            decreases num_elements - i,
        {
            proof {
                lemma_index_bounds(b as int, n, i as int, es);
                lemma_split(b as int, n, i as int);
            }
            let v = data[i * elem_size + b];
            out.set(dest_offset + i, v);
            i = i + 1;
        }
        assert((b + 1) * n == b * n + n) by (nonlinear_arith);
        b = b + 1;
    }
    assert(b * n == n * es) by (nonlinear_arith)
        requires b == es;
    let tail_start = num_elements * elem_size;
    let mut k: usize = tail_start;
    while k < len
        invariant
            len == data@.len(),
            out@.len() == len,
            n == num_elements,
            es == elem_size,
            es > 1,
            tail_start == n * es,
            0 <= n * es <= len,
            tail_start <= k <= len,
            forall|j: int| 0 <= j < n * es ==> #[trigger] out@[j] == data@[(j % n) * es + j / n],
            forall|j: int| tail_start <= j < k ==> #[trigger] out@[j] == data@[j],
        decreases len - k,
    {
        out.set(k, data[k]);
        k = k + 1;
    }
    assert(out@ =~= shuffled(data@, es));
    out
}

pub fn unshuffle_scalar(data: &[u8], elem_size: usize) -> (r: Vec<u8>)
    ensures
        r@ == unshuffled(data@, elem_size as int),
{
    if data.len() == 0 || elem_size <= 1 {
        let r = vstd::slice::slice_to_vec(data);
        assert(r@ =~= unshuffled(data@, elem_size as int));
        return r;
    }
    let len = data.len();
    let num_elements = len / elem_size;
    proof {
        lemma_whole_bound(len as int, elem_size as int);
    }
    let ghost n = num_elements as int;
    let ghost es = elem_size as int;
    let mut out: Vec<u8> = vec![0u8; len];
    let mut b: usize = 0;
    while b < elem_size
        invariant
            len == data@.len(),
            out@.len() == len,
            n == num_elements,
            es == elem_size,
            es > 1,
            0 <= n * es <= len,
            n == whole(len as int, es),
            b <= elem_size,
            forall|k: int|
                0 <= k < n * es && k % es < b ==> #[trigger] out@[k] == data@[(k % es) * n + k / es],
        decreases elem_size - b,
    {
        assert(b * n + n <= n * es) by (nonlinear_arith)
            requires b < es, n >= 0;
        assert(0 <= b * n) by (nonlinear_arith)
            requires b >= 0, n >= 0;
        let src_offset = b * num_elements;
        let mut i: usize = 0;
        while i < num_elements
            invariant
                len == data@.len(),
                out@.len() == len,
                n == num_elements,
                es == elem_size,
                es > 1,
                0 <= n * es <= len,
                b < elem_size,
                src_offset == b * n,
                i <= num_elements,
                forall|k: int|
                    0 <= k < n * es && (k % es < b || (k % es == b && k / es < i)) ==> #[trigger] out@[k]
                        == data@[(k % es) * n + k / es],
            decreases num_elements - i,
        {
            proof {
                lemma_index_bounds(b as int, n, i as int, es);
                lemma_split(i as int, es, b as int);
            }
            let v = data[src_offset + i];
            out.set(i * elem_size + b, v);
            proof {
                assert forall|k: int|
                    0 <= k < n * es && (k % es < b || (k % es == b && k / es < i + 1)) implies #[trigger] out@[k]
                        == data@[(k % es) * n + k / es] by {
                    if k != i * es + b {
                        lemma_cell(k, n, es);
                    }
                }
            }
            i = i + 1;
        }
        proof {
            assert forall|k: int| 0 <= k < n * es && k % es < b + 1 implies #[trigger] out@[k] == data@[(k % es) * n + k / es] by {
                lemma_cell(k, n, es);
            }
        }
        b = b + 1;
    }
    let tail_start = num_elements * elem_size;
    let mut k: usize = tail_start;
    while k < len
        invariant
            len == data@.len(),
            out@.len() == len,
            n == num_elements,
            es == elem_size,
            es > 1,
            tail_start == n * es,
            0 <= n * es <= len,
            tail_start <= k <= len,
            forall|j: int| 0 <= j < n * es ==> #[trigger] out@[j] == data@[(j % es) * n + j / es],
            forall|j: int| tail_start <= j < k ==> #[trigger] out@[j] == data@[j],
        decreases len - k,
    {
        out.set(k, data[k]);
        k = k + 1;
    }
    proof {
        assert forall|j: int| 0 <= j < n * es implies #[trigger] out@[j] == data@[(j % es) * n + j / es] by {
            lemma_cell(j, n, es);
        }
    }
    assert(out@ =~= unshuffled(data@, es));
    out
}

pub fn shuffle(data: &[u8], elem_size: usize) -> (r: Vec<u8>)
    ensures
        r@ == shuffled(data@, elem_size as int),
{
    shuffle_scalar(data, elem_size)
}

pub fn unshuffle(data: &[u8], elem_size: usize) -> (r: Vec<u8>)
    ensures
        r@ == unshuffled(data@, elem_size as int),
{
    unshuffle_scalar(data, elem_size)
}

/// Unshuffling a shuffled buffer gives the buffer back, for every element size.
pub proof fn lemma_unshuffle_shuffle(d: Seq<u8>, es: int)
    ensures
        unshuffled(shuffled(d, es), es) == d,
{
    let s = shuffled(d, es);
    let u = unshuffled(s, es);
    let n = whole(d.len() as int, es);
    assert forall|k: int| 0 <= k < d.len() implies #[trigger] u[k] == d[k] by {
        if es > 1 && k < n * es {
            lemma_whole_bound(d.len() as int, es);
            assert(n > 0) by (nonlinear_arith)
                requires k < n * es, 0 <= k, es > 1;
            lemma_cell(k, n, es);
            let p = (k % es) * n + k / es;
            lemma_split(k % es, n, k / es);
            assert(s[p] == d[(p % n) * es + p / n]);
            lemma_fundamental_div_mod_converse(k, es, k / es, k % es);
        }
    }
    assert(u =~= d);
}

/// Shuffling an unshuffled buffer gives the buffer back, for every element size.
pub proof fn lemma_shuffle_unshuffle(d: Seq<u8>, es: int)
    ensures
        shuffled(unshuffled(d, es), es) == d,
{
    let u = unshuffled(d, es);
    let s = shuffled(u, es);
    let n = whole(d.len() as int, es);
    assert forall|k: int| 0 <= k < d.len() implies #[trigger] s[k] == d[k] by {
        if es > 1 && k < n * es {
            lemma_whole_bound(d.len() as int, es);
            assert(n > 0) by (nonlinear_arith)
                requires k < n * es, 0 <= k, es > 1;
            lemma_cell(k, n, es);
            let p = (k % n) * es + k / n;
            lemma_split(k % n, es, k / n);
            assert(u[p] == d[(p % es) * n + p / es]);
            lemma_fundamental_div_mod_converse(k, n, k / n, k % n);
        }
    }
    assert(s =~= d);
}

/// Where shuffling puts each byte: with `n` whole elements of `es` bytes,
/// byte `b` of element `i` lands at `b * n + i`; the bytes after the last
/// whole element stay where they are, and the length is kept.
pub proof fn lemma_shuffle_places_bytes(d: Seq<u8>, es: int)
    requires
        es >= 1,
    ensures
        shuffled(d, es).len() == d.len(),
        forall|b: int, i: int|
            0 <= b < es && 0 <= i < d.len() as int / es ==> #[trigger] shuffled(d, es)[b * (d.len() as int / es) + i]
                == d[i * es + b],
        forall|k: int| (d.len() as int / es) * es <= k < d.len() ==> #[trigger] shuffled(d, es)[k] == d[k],
{
    let n = d.len() as int / es;
    let s = shuffled(d, es);
    assert forall|b: int, i: int| 0 <= b < es && 0 <= i < n implies #[trigger] s[b * n + i] == d[i * es + b] by {
        lemma_index_bounds(b, n, i, es);
        lemma_whole_bound(d.len() as int, es);
        if es > 1 {
            lemma_split(b, n, i);
        } else {
            assert(b == 0);
            assert(b * n + i == i) by (nonlinear_arith)
                requires b == 0;
            assert(i * es + b == i) by (nonlinear_arith)
                requires es == 1, b == 0;
        }
    }
}

} // verus!
