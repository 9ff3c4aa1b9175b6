//! Bit-level shuffle: bit `b` of byte `i` moves to bit position `b * n + i`
//! of the output, transposing the buffer into eight bit planes.
use vstd::prelude::*;
use vstd::arithmetic::div_mod::{lemma_fundamental_div_mod, lemma_fundamental_div_mod_converse};

verus! {

/// Packs eight bits (lowest first) into a byte.
pub open spec fn pack8(b0: u8, b1: u8, b2: u8, b3: u8, b4: u8, b5: u8, b6: u8, b7: u8) -> u8 {
    b0 | (b1 << 1u8) | (b2 << 2u8) | (b3 << 3u8) | (b4 << 4u8) | (b5 << 5u8) | (b6 << 6u8) | (b7 << 7u8)
}

/// Bit `k` of byte `x`.
pub open spec fn bit(x: u8, k: int) -> u8 {
    (x >> (k as u8)) & 1u8
}

/// Bit at global position `p` of the bit-plane layout of `d`: bit `p / n` of byte `p % n`.
pub open spec fn plane_bit(d: Seq<u8>, p: int) -> u8 {
    bit(d[p % (d.len() as int)], p / (d.len() as int))
}

/// Bit at global position `p` of `d` in plain order: bit `p % 8` of byte `p / 8`.
pub open spec fn flat_bit(d: Seq<u8>, p: int) -> u8 {
    bit(d[p / 8], p % 8)
}

pub open spec fn bit_shuffled(d: Seq<u8>) -> Seq<u8> {
    Seq::new(
        d.len(),
        |j: int|
            pack8(
                plane_bit(d, 8 * j),
                plane_bit(d, 8 * j + 1),
                plane_bit(d, 8 * j + 2),
                plane_bit(d, 8 * j + 3),
                plane_bit(d, 8 * j + 4),
                plane_bit(d, 8 * j + 5),
                plane_bit(d, 8 * j + 6),
                plane_bit(d, 8 * j + 7),
            ),
    )
}

pub open spec fn bit_unshuffled(d: Seq<u8>) -> Seq<u8> {
    let n = d.len() as int;
    Seq::new(
        d.len(),
        |i: int|
            pack8(
                flat_bit(d, i),
                flat_bit(d, n + i),
                flat_bit(d, 2 * n + i),
                flat_bit(d, 3 * n + i),
                flat_bit(d, 4 * n + i),
                flat_bit(d, 5 * n + i),
                flat_bit(d, 6 * n + i),
                flat_bit(d, 7 * n + i),
            ),
    )
}

/// Selects one of eight values by index.
pub open spec fn pick8(b0: u8, b1: u8, b2: u8, b3: u8, b4: u8, b5: u8, b6: u8, b7: u8, u: u8) -> u8 {
    if u == 0 { b0 } else if u == 1 { b1 } else if u == 2 { b2 } else if u == 3 { b3 } else if u == 4 { b4 } else if u == 5 { b5 } else if u == 6 { b6 } else { b7 }
}

proof fn lemma_pack_bit(b0: u8, b1: u8, b2: u8, b3: u8, b4: u8, b5: u8, b6: u8, b7: u8, u: u8)
    requires
        b0 <= 1 && b1 <= 1 && b2 <= 1 && b3 <= 1 && b4 <= 1 && b5 <= 1 && b6 <= 1 && b7 <= 1,
        u < 8,
    ensures
        (pack8(b0, b1, b2, b3, b4, b5, b6, b7) >> u) & 1u8 == pick8(b0, b1, b2, b3, b4, b5, b6, b7, u),
{
    assert((b0 <= 1 && b1 <= 1 && b2 <= 1 && b3 <= 1 && b4 <= 1 && b5 <= 1 && b6 <= 1 && b7 <= 1 && u < 8) ==> ((b0 | (b1 << 1u8) | (b2 << 2u8) | (b3 << 3u8) | (b4 << 4u8) | (b5 << 5u8) | (b6 << 6u8) | (b7 << 7u8)) >> u) & 1u8 == (if u == 0 { b0 } else if u == 1 { b1 } else if u == 2 { b2 } else if u == 3 { b3 } else if u == 4 { b4 } else if u == 5 { b5 } else if u == 6 { b6 } else { b7 })) by (bit_vector);
}

proof fn lemma_pack_bits_of(x: u8)
    ensures
        pack8(bit(x, 0), bit(x, 1), bit(x, 2), bit(x, 3), bit(x, 4), bit(x, 5), bit(x, 6), bit(x, 7)) == x,
{
    assert(((x >> 0u8) & 1u8) | (((x >> 1u8) & 1u8) << 1u8) | (((x >> 2u8) & 1u8) << 2u8) | (((x >> 3u8) & 1u8) << 3u8) | (((x >> 4u8) & 1u8) << 4u8) | (((x >> 5u8) & 1u8) << 5u8) | (((x >> 6u8) & 1u8) << 6u8) | (((x >> 7u8) & 1u8) << 7u8) == x) by (bit_vector);
}

proof fn lemma_bit_le1(x: u8, k: int)
    ensures
        bit(x, k) <= 1,
{
    let s = k as u8;
    assert((x >> s) & 1u8 <= 1) by (bit_vector);
}

/// Bit `u` of a packed byte is the `u`-th packed bit, when all are bits.
proof fn lemma_bit_of_pack(b0: u8, b1: u8, b2: u8, b3: u8, b4: u8, b5: u8, b6: u8, b7: u8, u: int)
    requires
        b0 <= 1 && b1 <= 1 && b2 <= 1 && b3 <= 1 && b4 <= 1 && b5 <= 1 && b6 <= 1 && b7 <= 1,
        0 <= u < 8,
    ensures
        bit(pack8(b0, b1, b2, b3, b4, b5, b6, b7), u) == pick8(b0, b1, b2, b3, b4, b5, b6, b7, u as u8),
{
    lemma_pack_bit(b0, b1, b2, b3, b4, b5, b6, b7, u as u8);
}

fn plane_bit_exec(data: &[u8], n: usize, p: usize) -> (r: u8)
    requires
        n == data@.len(),
        n > 0,
        p < 8 * n,
    ensures
        r == plane_bit(data@, p as int),
        r <= 1,
{
    let q = p / n;
    assert(q < 8) by (nonlinear_arith)
        requires q == p / n, p < 8 * n, n > 0;
    proof {
        lemma_bit_le1(data@[(p % n) as int], q as int);
    }
    (data[p % n] >> (q as u8)) & 1u8
}

fn flat_bit_exec(data: &[u8], p: usize) -> (r: u8)
    requires
        p < 8 * data@.len(),
    ensures
        r == flat_bit(data@, p as int),
        r <= 1,
{
    proof {
        lemma_bit_le1(data@[(p / 8) as int], (p % 8) as int);
    }
    (data[p / 8] >> ((p % 8) as u8)) & 1u8
}

pub fn bit_shuffle(data: &[u8]) -> (r: Vec<u8>)
    requires
        data@.len() <= usize::MAX / 8,
    ensures
        r@ == bit_shuffled(data@),
{
    let n = data.len();
    if n == 0 {
        let r: Vec<u8> = Vec::new();
        assert(r@ =~= bit_shuffled(data@));
        return r;
    }
    let mut out: Vec<u8> = Vec::new();
    let mut j: usize = 0;
    while j < n
        invariant
            n == data@.len(),
            0 < n <= usize::MAX / 8,
            j <= n,
            out@.len() == j,
            forall|k: int| 0 <= k < j ==> #[trigger] out@[k] == bit_shuffled(data@)[k],
        decreases n - j,
    {
        let base = 8 * j;
        let b0 = plane_bit_exec(data, n, base);
        let b1 = plane_bit_exec(data, n, base + 1);
        let b2 = plane_bit_exec(data, n, base + 2);
        let b3 = plane_bit_exec(data, n, base + 3);
        let b4 = plane_bit_exec(data, n, base + 4);
        let b5 = plane_bit_exec(data, n, base + 5);
        let b6 = plane_bit_exec(data, n, base + 6);
        let b7 = plane_bit_exec(data, n, base + 7);
        let byte = b0 | (b1 << 1u8) | (b2 << 2u8) | (b3 << 3u8) | (b4 << 4u8) | (b5 << 5u8) | (b6 << 6u8) | (b7 << 7u8);
        out.push(byte);
        j = j + 1;
    }
    assert(out@ =~= bit_shuffled(data@));
    out
}

pub fn bit_unshuffle(data: &[u8]) -> (r: Vec<u8>)
    requires
        data@.len() <= usize::MAX / 8,
    ensures
        r@ == bit_unshuffled(data@),
{
    let n = data.len();
    if n == 0 {
        let r: Vec<u8> = Vec::new();
        assert(r@ =~= bit_unshuffled(data@));
        return r;
    }
    let mut out: Vec<u8> = Vec::new();
    let mut i: usize = 0;
    while i < n
        invariant
            n == data@.len(),
            0 < n <= usize::MAX / 8,
            i <= n,
            out@.len() == i,
            forall|k: int| 0 <= k < i ==> #[trigger] out@[k] == bit_unshuffled(data@)[k],
        decreases n - i,
    {
        let b0 = flat_bit_exec(data, i);
        let b1 = flat_bit_exec(data, n + i);
        let b2 = flat_bit_exec(data, 2 * n + i);
        let b3 = flat_bit_exec(data, 3 * n + i);
        let b4 = flat_bit_exec(data, 4 * n + i);
        let b5 = flat_bit_exec(data, 5 * n + i);
        let b6 = flat_bit_exec(data, 6 * n + i);
        let b7 = flat_bit_exec(data, 7 * n + i);
        let byte = b0 | (b1 << 1u8) | (b2 << 2u8) | (b3 << 3u8) | (b4 << 4u8) | (b5 << 5u8) | (b6 << 6u8) | (b7 << 7u8);
        out.push(byte);
        i = i + 1;
    }
    assert(out@ =~= bit_unshuffled(data@));
    out
}

/// Plain-order bit `p` of the shuffled buffer is plane bit `p` of the input.
proof fn lemma_flat_of_shuffled(d: Seq<u8>, p: int)
    requires
        0 <= p < 8 * d.len(),
    ensures
        flat_bit(bit_shuffled(d), p) == plane_bit(d, p),
{
    let s = bit_shuffled(d);
    let j = p / 8;
    let u = p % 8;
    lemma_fundamental_div_mod(p, 8);
    assert(0 <= j < d.len());
    let n = d.len() as int;
    lemma_bit_le1(d[(8 * j) % n], (8 * j) / n);
    lemma_bit_le1(d[(8 * j + 1) % n], (8 * j + 1) / n);
    lemma_bit_le1(d[(8 * j + 2) % n], (8 * j + 2) / n);
    lemma_bit_le1(d[(8 * j + 3) % n], (8 * j + 3) / n);
    lemma_bit_le1(d[(8 * j + 4) % n], (8 * j + 4) / n);
    lemma_bit_le1(d[(8 * j + 5) % n], (8 * j + 5) / n);
    lemma_bit_le1(d[(8 * j + 6) % n], (8 * j + 6) / n);
    lemma_bit_le1(d[(8 * j + 7) % n], (8 * j + 7) / n);
    lemma_bit_of_pack(
        plane_bit(d, 8 * j),
        plane_bit(d, 8 * j + 1),
        plane_bit(d, 8 * j + 2),
        plane_bit(d, 8 * j + 3),
        plane_bit(d, 8 * j + 4),
        plane_bit(d, 8 * j + 5),
        plane_bit(d, 8 * j + 6),
        plane_bit(d, 8 * j + 7),
        u,
    );
}

/// Plane bit `p` of the unshuffled buffer is plain-order bit `p` of the input.
proof fn lemma_plane_of_unshuffled(d: Seq<u8>, p: int)
    requires
        0 <= p < 8 * d.len(),
    ensures
        plane_bit(bit_unshuffled(d), p) == flat_bit(d, p),
{
    let u = bit_unshuffled(d);
    let n = d.len() as int;
    let i = p % n;
    let t = p / n;
    lemma_fundamental_div_mod(p, n);
    assert(0 <= t < 8) by (nonlinear_arith)
        requires t == p / n, 0 <= p < 8 * n, n > 0;
    assert(0 <= i < n);
    assert(p == t * n + i) by (nonlinear_arith)
        requires p == n * (p / n) + p % n, t == p / n, i == p % n;
    lemma_bit_le1(d[i / 8], i % 8);
    lemma_bit_le1(d[(n + i) / 8], (n + i) % 8);
    lemma_bit_le1(d[(2 * n + i) / 8], (2 * n + i) % 8);
    lemma_bit_le1(d[(3 * n + i) / 8], (3 * n + i) % 8);
    lemma_bit_le1(d[(4 * n + i) / 8], (4 * n + i) % 8);
    lemma_bit_le1(d[(5 * n + i) / 8], (5 * n + i) % 8);
    lemma_bit_le1(d[(6 * n + i) / 8], (6 * n + i) % 8);
    lemma_bit_le1(d[(7 * n + i) / 8], (7 * n + i) % 8);
    assert(0 <= (7 * n + i) / 8 < n);
    lemma_bit_of_pack(
        flat_bit(d, i),
        flat_bit(d, n + i),
        flat_bit(d, 2 * n + i),
        flat_bit(d, 3 * n + i),
        flat_bit(d, 4 * n + i),
        flat_bit(d, 5 * n + i),
        flat_bit(d, 6 * n + i),
        flat_bit(d, 7 * n + i),
        t,
    );
    if t == 0 { assert(t * n == 0 * n) by (nonlinear_arith) requires t == 0; } else if t == 1 { assert(t * n == 1 * n) by (nonlinear_arith) requires t == 1; } else if t == 2 { assert(t * n == 2 * n) by (nonlinear_arith) requires t == 2; }
    else if t == 3 { assert(t * n == 3 * n) by (nonlinear_arith) requires t == 3; } else if t == 4 { assert(t * n == 4 * n) by (nonlinear_arith) requires t == 4; } else if t == 5 { assert(t * n == 5 * n) by (nonlinear_arith) requires t == 5; }
    else if t == 6 { assert(t * n == 6 * n) by (nonlinear_arith) requires t == 6; } else { assert(t * n == 7 * n) by (nonlinear_arith) requires t == 7; }
}

/// Bit-unshuffling a bit-shuffled buffer gives the buffer back.
pub proof fn lemma_bit_unshuffle_shuffle(d: Seq<u8>)
    ensures
        bit_unshuffled(bit_shuffled(d)) == d,
{
    let s = bit_shuffled(d);
    let u = bit_unshuffled(s);
    let n = d.len() as int;
    assert forall|i: int| 0 <= i < n implies #[trigger] u[i] == d[i] by {
        assert forall|t: int| 0 <= t < 8 implies #[trigger] flat_bit(s, t * n + i) == bit(d[i], t) by {
            assert(0 <= t * n + i < 8 * n) by (nonlinear_arith)
                requires 0 <= t < 8, 0 <= i < n;
            lemma_flat_of_shuffled(d, t * n + i);
            lemma_fundamental_div_mod_converse(t * n + i, n, t, i);
        }
        assert(flat_bit(s, 0 * n + i) == bit(d[i], 0));
        assert(flat_bit(s, 1 * n + i) == bit(d[i], 1));
        assert(flat_bit(s, 2 * n + i) == bit(d[i], 2));
        assert(flat_bit(s, 3 * n + i) == bit(d[i], 3));
        assert(flat_bit(s, 4 * n + i) == bit(d[i], 4));
        assert(flat_bit(s, 5 * n + i) == bit(d[i], 5));
        assert(flat_bit(s, 6 * n + i) == bit(d[i], 6));
        assert(flat_bit(s, 7 * n + i) == bit(d[i], 7));
        lemma_pack_bits_of(d[i]);
    }
    assert(u =~= d);
}

/// Bit-shuffling a bit-unshuffled buffer gives the buffer back.
pub proof fn lemma_bit_shuffle_unshuffle(d: Seq<u8>)
    ensures
        bit_shuffled(bit_unshuffled(d)) == d,
{
    let u = bit_unshuffled(d);
    let s = bit_shuffled(u);
    let n = d.len() as int;
    assert forall|j: int| 0 <= j < n implies #[trigger] s[j] == d[j] by {
        assert forall|t: int| 0 <= t < 8 implies #[trigger] plane_bit(u, 8 * j + t) == bit(d[j], t) by {
            lemma_plane_of_unshuffled(d, 8 * j + t);
            lemma_fundamental_div_mod_converse(8 * j + t, 8, j, t);
        }
        assert(plane_bit(u, 8 * j + 0) == bit(d[j], 0));
        assert(plane_bit(u, 8 * j + 1) == bit(d[j], 1));
        assert(plane_bit(u, 8 * j + 2) == bit(d[j], 2));
        assert(plane_bit(u, 8 * j + 3) == bit(d[j], 3));
        assert(plane_bit(u, 8 * j + 4) == bit(d[j], 4));
        assert(plane_bit(u, 8 * j + 5) == bit(d[j], 5));
        assert(plane_bit(u, 8 * j + 6) == bit(d[j], 6));
        assert(plane_bit(u, 8 * j + 7) == bit(d[j], 7));
        lemma_pack_bits_of(d[j]);
    }
    assert(s =~= d);
}

/// Where bit shuffling puts each bit: with `n` bytes, bit `t` of byte `i`
/// becomes bit `t * n + i` of the output, counting bits from the lowest bit
/// of byte 0; the length is kept.
pub proof fn lemma_bit_shuffle_places_bits(d: Seq<u8>)
    ensures
        bit_shuffled(d).len() == d.len(),
        forall|t: int, i: int|
            0 <= t < 8 && 0 <= i < d.len() ==> #[trigger] bit(
                bit_shuffled(d)[(t * d.len() + i) / 8],
                (t * d.len() + i) % 8,
            ) == bit(#[trigger] d[i], t),
{
    let s = bit_shuffled(d);
    let n = d.len() as int;
    assert forall|t: int, i: int| 0 <= t < 8 && 0 <= i < n implies #[trigger] bit(s[(t * n + i) / 8], (t * n + i) % 8)
        == bit(#[trigger] d[i], t) by {
        assert(0 <= t * n + i < 8 * n) by (nonlinear_arith)
            requires 0 <= t < 8, 0 <= i < n;
        lemma_flat_of_shuffled(d, t * n + i);
        lemma_fundamental_div_mod_converse(t * n + i, n, t, i);
    }
}

} // verus!
