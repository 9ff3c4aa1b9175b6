//! Delta + ZigZag encoding for integer tensors: each element is replaced by
//! the ZigZag code of its wrapping difference from the previous element, so
//! monotonic data becomes small non-negative numbers.
use vstd::prelude::*;
use vstd::bytes::*;
use vstd::arithmetic::div_mod::lemma_fundamental_div_mod_converse;
use crate::types::{DTypeId, dtype_size};
use crate::wire::{le16, le32, le64, get16, get32, get64, lemma_le_round_trips, read16, read32, read64, push16, push32, push64, push_all};

verus! {

/// Element width in bytes that the filter works on; 0 for float types,
/// which pass through unchanged.
pub open spec fn dz_width(d: DTypeId) -> int {
    match d {
        DTypeId::Int64 | DTypeId::UInt64 => 8,
        DTypeId::Int32 | DTypeId::UInt32 => 4,
        DTypeId::Int16 | DTypeId::UInt16 => 2,
        DTypeId::Int8 | DTypeId::UInt8 | DTypeId::Bool => 1,
        _ => 0,
    }
}

pub open spec fn valid_width(w: int) -> bool {
    w == 1 || w == 2 || w == 4 || w == 8
}

/// Number of distinct values of a `w`-byte word.
pub open spec fn modulus(w: int) -> int {
    if w == 8 {
        0x1_0000_0000_0000_0000
    } else if w == 4 {
        0x1_0000_0000
    } else if w == 2 {
        0x10000
    } else {
        0x100
    }
}

/// Little-endian image of a `w`-byte word.
pub open spec fn le_w(w: int, x: int) -> Seq<u8> {
    if w == 8 {
        le64(x as u64)
    } else if w == 4 {
        le32(x as u32)
    } else if w == 2 {
        le16(x as u16)
    } else {
        seq![x as u8]
    }
}

/// The `w`-byte little-endian word at byte offset `off`.
pub open spec fn get_w(b: Seq<u8>, w: int, off: int) -> int {
    if w == 8 {
        get64(b, off) as int
    } else if w == 4 {
        get32(b, off) as int
    } else if w == 2 {
        get16(b, off) as int
    } else {
        b[off] as int
    }
}

/// Element `i` of `d` as an unsigned `w`-byte word.
pub open spec fn word(d: Seq<u8>, w: int, i: int) -> int {
    get_w(d, w, i * w)
}

/// ZigZag code of the word `x` read as a two's-complement number.
pub open spec fn zz(x: int, m: int) -> int {
    if x < m / 2 {
        2 * x
    } else {
        2 * (m - x) - 1
    }
}

/// Inverse of `zz`, giving the two's-complement word back.
pub open spec fn unzz(z: int, m: int) -> int {
    if z % 2 == 0 {
        z / 2
    } else {
        m - (z + 1) / 2
    }
}

/// The encoded word for element `i`: ZigZag of the wrapping difference
/// from the previous element (from 0 for the first).
pub open spec fn enc_val(d: Seq<u8>, w: int, i: int) -> int {
    let prev = if i == 0 { 0 } else { word(d, w, i - 1) };
    zz((word(d, w, i) - prev) % modulus(w), modulus(w))
}

/// The decoded word for element `i`: running wrapping sum of the decoded differences.
pub open spec fn dec_val(e: Seq<u8>, w: int, i: nat) -> int
    decreases i,
{
    let prev = if i == 0 { 0 } else { dec_val(e, w, (i - 1) as nat) };
    (prev + unzz(word(e, w, i as int), modulus(w))) % modulus(w)
}

/// The images of `f(0)`, ..., `f(m - 1)` one after the other.
pub open spec fn concat_le(f: spec_fn(int) -> int, w: int, m: nat) -> Seq<u8>
    decreases m,
{
    if m == 0 {
        Seq::empty()
    } else {
        concat_le(f, w, (m - 1) as nat) + le_w(w, f(m - 1))
    }
}

pub open spec fn enc_words(d: Seq<u8>, w: int, m: nat) -> Seq<u8> {
    concat_le(|j: int| enc_val(d, w, j), w, m)
}

pub open spec fn dec_words(e: Seq<u8>, w: int, m: nat) -> Seq<u8> {
    concat_le(|j: int| dec_val(e, w, j as nat), w, m)
}

/// Encoded image: the encoded words of all whole elements followed by the
/// trailing bytes unchanged; unchanged when there is no whole element or
/// the type is not an integer type.
pub open spec fn dz_encoded(d: Seq<u8>, w: int) -> Seq<u8> {
    if !valid_width(w) || (d.len() as int) / w == 0 {
        d
    } else {
        let n = (d.len() as int) / w;
        enc_words(d, w, n as nat) + d.subrange(n * w, d.len() as int)
    }
}

pub open spec fn dz_decoded(e: Seq<u8>, w: int) -> Seq<u8> {
    if !valid_width(w) || (e.len() as int) / w == 0 {
        e
    } else {
        let n = (e.len() as int) / w;
        dec_words(e, w, n as nat) + e.subrange(n * w, e.len() as int)
    }
}

proof fn lemma_le_w(w: int, x: int)
    requires
        valid_width(w),
        0 <= x < modulus(w),
    ensures
        le_w(w, x).len() == w,
        get_w(le_w(w, x), w, 0) == x,
{
    lemma_le_round_trips();
    let s = le_w(w, x);
    assert(s.subrange(0, w) =~= s);
}

proof fn lemma_get_w(b: Seq<u8>, w: int, off: int)
    requires
        valid_width(w),
        0 <= off,
        off + w <= b.len(),
    ensures
        0 <= get_w(b, w, off) < modulus(w),
        le_w(w, get_w(b, w, off)) == b.subrange(off, off + w),
{
    lemma_auto_spec_u16_to_from_le_bytes();
    lemma_auto_spec_u32_to_from_le_bytes();
    lemma_auto_spec_u64_to_from_le_bytes();
    if w == 1 {
        assert(le_w(w, get_w(b, w, off)) =~= b.subrange(off, off + w));
    } else if w == 2 {
        assert(le16(get16(b, off)) == b.subrange(off, off + 2));
    } else if w == 4 {
        assert(le32(get32(b, off)) == b.subrange(off, off + 4));
    } else {
        assert(le64(get64(b, off)) == b.subrange(off, off + 8));
    }
}

proof fn lemma_concat_len(f: spec_fn(int) -> int, w: int, m: nat)
    requires
        valid_width(w),
        forall|j: int| 0 <= j < m ==> 0 <= #[trigger] f(j) < modulus(w),
    ensures
        concat_le(f, w, m).len() == m * w,
    decreases m,
{
    if m > 0 {
        lemma_concat_len(f, w, (m - 1) as nat);
        lemma_le_w(w, f(m - 1));
        assert(m * w == (m - 1) * w + w) by (nonlinear_arith);
    }
}

/// Word `j` of a concatenation of word images (followed by anything) is `f(j)`.
proof fn lemma_concat_get(f: spec_fn(int) -> int, w: int, m: nat, rest: Seq<u8>, j: int)
    requires
        valid_width(w),
        forall|k: int| 0 <= k < m ==> 0 <= #[trigger] f(k) < modulus(w),
        0 <= j < m,
    ensures
        get_w(concat_le(f, w, m) + rest, w, j * w) == f(j),
    decreases m,
{
    let s = concat_le(f, w, (m - 1) as nat);
    lemma_concat_len(f, w, (m - 1) as nat);
    lemma_le_w(w, f(m - 1));
    let img = le_w(w, f(m - 1));
    let b = concat_le(f, w, m) + rest;
    assert(b == s + (img + rest));
    if j < m - 1 {
        lemma_concat_get(f, w, (m - 1) as nat, img + rest, j);
        assert(j * w + w <= (m - 1) * w) by (nonlinear_arith)
            requires j < m - 1, w > 0;
        assert(0 <= j * w) by (nonlinear_arith)
            requires 0 <= j, w > 0;
        assert(b.subrange(j * w, j * w + w) =~= (s + (img + rest)).subrange(j * w, j * w + w));
    } else {
        assert(j * w == (m - 1) * w);
        assert(b.subrange(j * w, j * w + w) =~= img);
        assert(img.subrange(0, w) =~= img);
    }
}

/// Concatenating the images of the words of `d` gives back the bytes they came from.
proof fn lemma_concat_words(d: Seq<u8>, w: int, m: nat)
    requires
        valid_width(w),
        m * w <= d.len(),
    ensures
        concat_le(|j: int| word(d, w, j), w, m) == d.subrange(0, m * w),
    decreases m,
{
    if m > 0 {
        assert((m - 1) * w + w == m * w) by (nonlinear_arith);
        assert(0 <= (m - 1) * w) by (nonlinear_arith)
            requires m >= 1, w > 0;
        lemma_concat_words(d, w, (m - 1) as nat);
        lemma_get_w(d, w, (m - 1) * w);
        assert(d.subrange(0, m * w) =~= d.subrange(0, (m - 1) * w) + d.subrange((m - 1) * w, m * w));
        assert(concat_le(|j: int| word(d, w, j), w, m) == concat_le(|j: int| word(d, w, j), w, (m - 1) as nat) + le_w(w, word(d, w, m - 1)));
    } else {
        assert(m * w == 0) by (nonlinear_arith)
            requires m == 0;
        assert(d.subrange(0, m * w) =~= Seq::<u8>::empty());
    }
}

proof fn lemma_zz_range(x: int, m: int)
    requires
        m >= 256,
        m % 2 == 0,
        0 <= x < m,
    ensures
        0 <= zz(x, m) < m,
        unzz(zz(x, m), m) == x,
{
    if x < m / 2 {
        lemma_fundamental_div_mod_converse(2 * x, 2, x, 0);
    } else {
        lemma_fundamental_div_mod_converse(2 * (m - x) - 1, 2, m - x - 1, 1);
        lemma_fundamental_div_mod_converse(2 * (m - x), 2, m - x, 0);
    }
}

proof fn lemma_unzz_range(z: int, m: int)
    requires
        m >= 256,
        m % 2 == 0,
        0 <= z < m,
    ensures
        0 <= unzz(z, m) < m,
{
}

proof fn lemma_sub_add_mod(a: int, b: int, m: int)
    requires
        0 <= a < m,
        0 <= b < m,
    ensures
        0 <= (b - a) % m < m,
        (a + (b - a) % m) % m == b,
{
    if b >= a {
        lemma_fundamental_div_mod_converse(b - a, m, 0, b - a);
        lemma_fundamental_div_mod_converse(b, m, 0, b);
    } else {
        lemma_fundamental_div_mod_converse(b - a, m, -1, b - a + m);
        lemma_fundamental_div_mod_converse(b + m, m, 1, b);
    }
}

proof fn lemma_modulus(w: int)
    requires
        valid_width(w),
    ensures
        modulus(w) >= 256,
        modulus(w) % 2 == 0,
{
}

fn read_word(b: &[u8], off: usize, w: usize) -> (r: u64)
    requires
        valid_width(w as int),
        off + w <= b@.len(),
    ensures
        r == get_w(b@, w as int, off as int),
        r < modulus(w as int),
{
    proof {
        lemma_get_w(b@, w as int, off as int);
    }
    if w == 8 {
        read64(b, off)
    } else if w == 4 {
        read32(b, off) as u64
    } else if w == 2 {
        read16(b, off) as u64
    } else {
        b[off] as u64
    }
}

fn push_word(out: &mut Vec<u8>, w: usize, x: u64)
    requires
        valid_width(w as int),
        x < modulus(w as int),
    ensures
        final(out)@ == old(out)@ + le_w(w as int, x as int),
{
    if w == 8 {
        push64(out, x);
    } else if w == 4 {
        push32(out, x as u32);
    } else if w == 2 {
        push16(out, x as u16);
    } else {
        out.push(x as u8);
        assert(final(out)@ =~= old(out)@ + le_w(w as int, x as int));
    }
}

/// The largest word value of width `w`.
fn word_max(w: usize) -> (r: u64)
    requires
        valid_width(w as int),
    ensures
        r == modulus(w as int) - 1,
{
    if w == 8 {
        0xFFFF_FFFF_FFFF_FFFF
    } else if w == 4 {
        0xFFFF_FFFF
    } else if w == 2 {
        0xFFFF
    } else {
        0xFF
    }
}

fn sub_word(a: u64, b: u64, w: usize) -> (r: u64)
    requires
        valid_width(w as int),
        a < modulus(w as int),
        b < modulus(w as int),
    ensures
        r == (a - b) % modulus(w as int),
{
    let mx = word_max(w);
    if a >= b {
        proof {
            lemma_fundamental_div_mod_converse(a - b, modulus(w as int), 0, a - b);
        }
        a - b
    } else {
        proof {
            lemma_fundamental_div_mod_converse(a - b, modulus(w as int), -1, a - b + modulus(w as int));
        }
        (mx - b) + a + 1
    }
}

fn add_word(a: u64, b: u64, w: usize) -> (r: u64)
    requires
        valid_width(w as int),
        a < modulus(w as int),
        b < modulus(w as int),
    ensures
        r == (a + b) % modulus(w as int),
{
    let mx = word_max(w);
    if b <= mx - a {
        proof {
            lemma_fundamental_div_mod_converse(a + b, modulus(w as int), 0, a + b);
        }
        a + b
    } else {
        proof {
            lemma_fundamental_div_mod_converse(a + b, modulus(w as int), 1, a + b - modulus(w as int));
        }
        b - (mx - a) - 1
    }
}

fn zz_word(x: u64, w: usize) -> (r: u64)
    requires
        valid_width(w as int),
        x < modulus(w as int),
    ensures
        r == zz(x as int, modulus(w as int)),
        r < modulus(w as int),
{
    proof {
        lemma_modulus(w as int);
        lemma_zz_range(x as int, modulus(w as int));
    }
    let mx = word_max(w);
    if x <= mx / 2 {
        2 * x
    } else {
        2 * (mx - x) + 1
    }
}

fn unzz_word(z: u64, w: usize) -> (r: u64)
    requires
        valid_width(w as int),
        z < modulus(w as int),
    ensures
        r == unzz(z as int, modulus(w as int)),
        r < modulus(w as int),
{
    proof {
        lemma_modulus(w as int);
        lemma_unzz_range(z as int, modulus(w as int));
    }
    let mx = word_max(w);
    if z % 2 == 0 {
        z / 2
    } else {
        mx - z / 2
    }
}

fn width_exec(dtype: DTypeId) -> (r: usize)
    ensures
        r == dz_width(dtype),
{
    match dtype {
        DTypeId::Int64 | DTypeId::UInt64 => 8,
        DTypeId::Int32 | DTypeId::UInt32 => 4,
        DTypeId::Int16 | DTypeId::UInt16 => 2,
        DTypeId::Int8 | DTypeId::UInt8 | DTypeId::Bool => 1,
        _ => 0,
    }
}

pub fn encode(data: &[u8], dtype: DTypeId) -> (r: Vec<u8>)
    ensures
        r@ == dz_encoded(data@, dz_width(dtype)),
{
    let w = width_exec(dtype);
    if w == 0 {
        return vstd::slice::slice_to_vec(data);
    }
    let len = data.len();
    let count = len / w;
    if count == 0 {
        return vstd::slice::slice_to_vec(data);
    }
    let ghost d = data@;
    let ghost wi = w as int;
    assert(count * w <= len) by (nonlinear_arith)
        requires count == len / w, w > 0;
    let mut out: Vec<u8> = Vec::new();
    let mut prev: u64 = 0;
    let mut i: usize = 0;
    while i < count
        invariant
            d == data@,
            wi == w,
            valid_width(wi),
            len == d.len(),
            count == len / w,
            count * w <= len,
            i <= count,
            out@ == enc_words(d, wi, i as nat),
            prev == if i == 0 { 0 } else { word(d, wi, i - 1) },
            prev < modulus(wi),
        decreases count - i,
    {
        assert(i * w + w <= count * w) by (nonlinear_arith)
            requires i < count, w > 0;
        let val = read_word(data, i * w, w);
        let delta = sub_word(val, prev, w);
        proof {
            lemma_sub_add_mod(prev as int, val as int, modulus(wi));
        }
        let z = zz_word(delta, w);
        push_word(&mut out, w, z);
        assert(z == enc_val(d, wi, i as int));
        prev = val;
        i = i + 1;
    }
    let tail = vstd::slice::slice_subrange(data, count * w, len);
    push_all(&mut out, tail);
    out
}

pub fn decode(data: &[u8], dtype: DTypeId) -> (r: Vec<u8>)
    ensures
        r@ == dz_decoded(data@, dz_width(dtype)),
{
    let w = width_exec(dtype);
    if w == 0 {
        return vstd::slice::slice_to_vec(data);
    }
    let len = data.len();
    let count = len / w;
    if count == 0 {
        return vstd::slice::slice_to_vec(data);
    }
    let ghost e = data@;
    let ghost wi = w as int;
    assert(count * w <= len) by (nonlinear_arith)
        requires count == len / w, w > 0;
    let mut out: Vec<u8> = Vec::new();
    let mut prev: u64 = 0;
    let mut i: usize = 0;
    while i < count
        invariant
            e == data@,
            wi == w,
            valid_width(wi),
            len == e.len(),
            count == len / w,
            count * w <= len,
            i <= count,
            out@ == dec_words(e, wi, i as nat),
            prev == if i == 0 { 0 } else { dec_val(e, wi, (i - 1) as nat) },
            prev < modulus(wi),
        decreases count - i,
    {
        assert(i * w + w <= count * w) by (nonlinear_arith)
            requires i < count, w > 0;
        let z = read_word(data, i * w, w);
        let delta = unzz_word(z, w);
        let val = add_word(prev, delta, w);
        assert(val == dec_val(e, wi, i as nat));
        push_word(&mut out, w, val);
        prev = val;
        i = i + 1;
    }
    let tail = vstd::slice::slice_subrange(data, count * w, len);
    push_all(&mut out, tail);
    out
}

/// Decoding an encoded buffer gives the buffer back, for every dtype.
pub proof fn lemma_dz_round_trip(d: Seq<u8>, dtype: DTypeId)
    ensures
        dz_decoded(dz_encoded(d, dz_width(dtype)), dz_width(dtype)) == d,
{
    let w = dz_width(dtype);
    if valid_width(w) && (d.len() as int) / w != 0 {
        let n = (d.len() as int) / w;
        assert(n * w <= d.len()) by (nonlinear_arith)
            requires n == (d.len() as int) / w, w > 0;
        lemma_modulus(w);
        let m = modulus(w);
        let f = |j: int| enc_val(d, w, j);
        assert forall|j: int| 0 <= j < n implies 0 <= #[trigger] f(j) < m by {
            assert(0 <= j * w && j * w + w <= n * w) by (nonlinear_arith)
                requires 0 <= j < n, w > 0;
            lemma_get_w(d, w, j * w);
            if j > 0 {
                assert(0 <= (j - 1) * w && (j - 1) * w + w <= n * w) by (nonlinear_arith)
                    requires 1 <= j < n, w > 0;
                lemma_get_w(d, w, (j - 1) * w);
            }
            let prev = if j == 0 { 0 } else { word(d, w, j - 1) };
            lemma_sub_add_mod(prev, word(d, w, j), m);
            lemma_zz_range((word(d, w, j) - prev) % m, m);
        }
        lemma_concat_len(f, w, n as nat);
        let tail = d.subrange(n * w, d.len() as int);
        let e = enc_words(d, w, n as nat) + tail;
        assert(e == dz_encoded(d, w));
        assert(e.len() == d.len());
        // every decoded word equals the original word
        assert forall|j: nat| j < n implies #[trigger] dec_val(e, w, j) == word(d, w, j as int) by {
            lemma_dec_val(d, w, n as nat, tail, j);
        }
        let g = |j: int| dec_val(e, w, j as nat);
        let h = |j: int| word(d, w, j);
        lemma_concat_ext(g, h, w, n as nat);
        lemma_concat_words(d, w, n as nat);
        assert(e.subrange(n * w, e.len() as int) =~= tail);
        assert(dz_decoded(e, w) =~= d.subrange(0, n * w) + tail);
        assert(d.subrange(0, n * w) + tail =~= d);
    }
}

proof fn lemma_zz_unzz(z: int, m: int)
    requires
        m >= 256,
        m % 2 == 0,
        0 <= z < m,
    ensures
        zz(unzz(z, m), m) == z,
{
    let q = z / 2;
    let r = z % 2;
    lemma_fundamental_div_mod_converse(z, 2, q, r);
    assert(z == 2 * q + r && (r == 0 || r == 1)) by (nonlinear_arith)
        requires q == z / 2, r == z % 2, 0 <= z;
    let hm = m / 2;
    assert(m == 2 * hm) by (nonlinear_arith)
        requires hm == m / 2, m % 2 == 0, m >= 256;
    if r == 0 {
        assert(unzz(z, m) == q);
    } else {
        let q1 = (z + 1) / 2;
        assert(q1 == q + 1) by (nonlinear_arith)
            requires z == 2 * q + 1, q1 == (z + 1) / 2;
        assert(unzz(z, m) == m - q1);
    }
}

proof fn lemma_diff_of_sum(p: int, u: int, m: int)
    requires
        m > 0,
        0 <= p < m,
        0 <= u < m,
    ensures
        0 <= (p + u) % m < m,
        ((p + u) % m - p) % m == u,
{
    if p + u < m {
        lemma_fundamental_div_mod_converse(p + u, m, 0, p + u);
        lemma_fundamental_div_mod_converse(u, m, 0, u);
    } else {
        lemma_fundamental_div_mod_converse(p + u, m, 1, p + u - m);
        lemma_fundamental_div_mod_converse(u - m, m, -1, u);
    }
}

/// Encoding a decoded buffer gives the buffer back, for every dtype: the
/// two directions are inverse to each other.
pub proof fn lemma_dz_encode_decode(e: Seq<u8>, dtype: DTypeId)
    ensures
        dz_encoded(dz_decoded(e, dz_width(dtype)), dz_width(dtype)) == e,
{
    let w = dz_width(dtype);
    if valid_width(w) && (e.len() as int) / w != 0 {
        let n = (e.len() as int) / w;
        assert(n * w <= e.len() && e.len() < n * w + w) by (nonlinear_arith)
            requires n == (e.len() as int) / w, w > 0;
        lemma_modulus(w);
        let m = modulus(w);
        let g = |j: int| dec_val(e, w, j as nat);
        assert forall|j: int| 0 <= j < n implies 0 <= #[trigger] g(j) < m by {
            let prev = if j == 0 { 0 } else { dec_val(e, w, (j - 1) as nat) };
            let x = prev + unzz(word(e, w, j), m);
            assert(0 <= x % m < m) by (nonlinear_arith)
                requires m > 0;
        }
        lemma_concat_len(g, w, n as nat);
        let tail = e.subrange(n * w, e.len() as int);
        let d = dec_words(e, w, n as nat) + tail;
        assert(d == dz_decoded(e, w));
        assert(d.len() == e.len());
        assert(d.subrange(n * w, d.len() as int) =~= tail);
        assert forall|j: int| 0 <= j < n implies #[trigger] enc_val(d, w, j) == word(e, w, j) by {
            assert(0 <= j * w && j * w + w <= n * w) by (nonlinear_arith)
                requires 0 <= j < n, w > 0;
            lemma_get_w(e, w, j * w);
            lemma_concat_get(g, w, n as nat, tail, j);
            let prev = if j == 0 { 0 } else { dec_val(e, w, (j - 1) as nat) };
            if j > 0 {
                lemma_concat_get(g, w, n as nat, tail, j - 1);
            }
            assert(word(d, w, j) == dec_val(e, w, j as nat));
            let u = unzz(word(e, w, j), m);
            lemma_unzz_range(word(e, w, j), m);
            assert(0 <= prev < m);
            lemma_diff_of_sum(prev, u, m);
            lemma_zz_unzz(word(e, w, j), m);
        }
        let f = |j: int| enc_val(d, w, j);
        let h = |j: int| word(e, w, j);
        lemma_concat_ext(f, h, w, n as nat);
        lemma_concat_words(e, w, n as nat);
        assert(dz_encoded(d, w) =~= e.subrange(0, n * w) + tail);
        assert(e.subrange(0, n * w) + tail =~= e);
    }
}

proof fn lemma_concat_ext(f: spec_fn(int) -> int, g: spec_fn(int) -> int, w: int, m: nat)
    requires
        forall|j: int| 0 <= j < m ==> #[trigger] f(j) == g(j),
    ensures
        concat_le(f, w, m) == concat_le(g, w, m),
    decreases m,
{
    if m > 0 {
        lemma_concat_ext(f, g, w, (m - 1) as nat);
    }
}

proof fn lemma_dec_val(d: Seq<u8>, w: int, n: nat, tail: Seq<u8>, j: nat)
    requires
        valid_width(w),
        n * w <= d.len(),
        j < n,
        forall|k: int| 0 <= k < n ==> 0 <= #[trigger] enc_val(d, w, k) < modulus(w),
    ensures
        dec_val(enc_words(d, w, n) + tail, w, j) == word(d, w, j as int),
    decreases j,
{
    let e = enc_words(d, w, n) + tail;
    let m = modulus(w);
    lemma_modulus(w);
    lemma_concat_get(|k: int| enc_val(d, w, k), w, n, tail, j as int);
    assert(word(e, w, j as int) == enc_val(d, w, j as int));
    assert(0 <= j * w && j * w + w <= n * w) by (nonlinear_arith)
        requires j < n, w > 0;
    lemma_get_w(d, w, j * w);
    let prev = if j == 0 { 0 } else { word(d, w, j - 1) };
    if j > 0 {
        lemma_dec_val(d, w, n, tail, (j - 1) as nat);
        assert(0 <= (j - 1) * w && (j - 1) * w + w <= n * w) by (nonlinear_arith)
            requires 1 <= j < n, w > 0;
        lemma_get_w(d, w, (j - 1) * w);
    }
    lemma_sub_add_mod(prev, word(d, w, j as int), m);
    lemma_zz_range((word(d, w, j as int) - prev) % m, m);
}

/// The encoded image has the length of the input.
pub proof fn lemma_dz_len(d: Seq<u8>, w: int)
    ensures
        dz_encoded(d, w).len() == d.len(),
{
    if valid_width(w) && (d.len() as int) / w != 0 {
        let n = (d.len() as int) / w;
        assert(n * w <= d.len()) by (nonlinear_arith)
            requires n == (d.len() as int) / w, w > 0;
        lemma_modulus(w);
        let m = modulus(w);
        let f = |j: int| enc_val(d, w, j);
        assert forall|j: int| 0 <= j < n implies 0 <= #[trigger] f(j) < m by {
            let prev = if j == 0 { 0 } else { word(d, w, j - 1) };
            let x = (word(d, w, j) - prev) % m;
            assert(0 <= x < m);
            lemma_zz_range(x, m);
        }
        lemma_concat_len(f, w, n as nat);
    }
}

/// The filter works on whole elements: for every integer type its word is
/// the element, and floating-point types are not transformed.
pub proof fn lemma_dz_width_is_element_size(dtype: DTypeId, d: Seq<u8>)
    ensures
        dtype != DTypeId::Float32 && dtype != DTypeId::Float64 && dtype != DTypeId::Float16 && dtype
            != DTypeId::BFloat16 ==> dz_width(dtype) == dtype_size(dtype),
        dtype == DTypeId::Float32 || dtype == DTypeId::Float64 || dtype == DTypeId::Float16 || dtype
            == DTypeId::BFloat16 ==> dz_encoded(d, dz_width(dtype)) == d,
{
}

/// A run of equal elements encodes to zeros: where every whole element of
/// an integer buffer has the bytes of the first, each encoded element after
/// the first reads as 0 in the element's width.
pub proof fn lemma_dz_constant_run(d: Seq<u8>, dtype: DTypeId)
    requires
        dtype != DTypeId::Float32 && dtype != DTypeId::Float64 && dtype != DTypeId::Float16 && dtype
            != DTypeId::BFloat16,
        forall|j: int|
            0 <= j < d.len() as int / (dtype_size(dtype) as int) ==> #[trigger] d.subrange(
                j * dtype_size(dtype),
                j * dtype_size(dtype) + dtype_size(dtype),
            ) == d.subrange(0, dtype_size(dtype) as int),
    ensures
        forall|j: int|
            1 <= j < d.len() as int / (dtype_size(dtype) as int) ==> get_w(
                dz_encoded(d, dz_width(dtype)),
                dtype_size(dtype) as int,
                #[trigger] (j * dtype_size(dtype)),
            ) == 0,
{
    let w = dz_width(dtype);
    assert(w == dtype_size(dtype));
    assert(valid_width(w));
    let n = (d.len() as int) / w;
    if n >= 2 {
        assert(n * w <= d.len()) by (nonlinear_arith)
            requires n == (d.len() as int) / w, w > 0;
        lemma_modulus(w);
        let m = modulus(w);
        assert(0 + w <= n * w) by (nonlinear_arith)
            requires n >= 2, w > 0;
        lemma_get_w(d, w, 0);
        let x0 = get_w(d, w, 0);
        assert(d.subrange(0 * w, 0 * w + w) == d.subrange(0, w));
        assert forall|j: int| 0 <= j < n implies #[trigger] word(d, w, j) == x0 by {
            assert(0 <= j * w && j * w + w <= n * w) by (nonlinear_arith)
                requires 0 <= j < n, w > 0;
            lemma_get_w(d, w, j * w);
            let xj = get_w(d, w, j * w);
            assert(le_w(w, xj) == le_w(w, x0));
            lemma_le_w(w, xj);
            lemma_le_w(w, x0);
        }
        let f = |j: int| enc_val(d, w, j);
        assert forall|j: int| 0 <= j < n implies 0 <= #[trigger] f(j) < m by {
            let prev = if j == 0 { 0 } else { word(d, w, j - 1) };
            assert(0 <= x0 < m);
            lemma_sub_add_mod(prev, word(d, w, j), m);
            lemma_zz_range((word(d, w, j) - prev) % m, m);
        }
        let tail = d.subrange(n * w, d.len() as int);
        assert(dz_encoded(d, w) == enc_words(d, w, n as nat) + tail);
        assert forall|j: int| 1 <= j < n implies get_w(dz_encoded(d, w), w, #[trigger] (j * w)) == 0 by {
            lemma_concat_get(f, w, n as nat, tail, j);
            assert(word(d, w, j) == x0 && word(d, w, j - 1) == x0);
            assert((x0 - x0) % m == 0);
            assert(zz(0, m) == 0);
        }
    }
}

} // verus!
