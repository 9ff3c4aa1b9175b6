//! Chimp128: XOR-delta compression of 64-bit words against the previous word
//! and a ring of the last 128 words, with leading and trailing zero
//! suppression. Floats are coded through their IEEE-754 bit patterns.
use vstd::prelude::*;
use vstd::std_specs::bits::{u64_leading_zeros, u64_trailing_zeros};
use crate::types::{DTypeId, TpxError};
use crate::wire::{get32, get64, le32, le64, push32, push64, push_all, read32, read64};
use crate::codec::bitstream::{
    BitReader, BitWriter, bits_of, field_value, fits, pack, stream_bit, stream_window,
    lemma_read_back,
};

verus! {

/// Size of the ring of recent words.
pub const HISTORY_LEN: usize = 128;

/// Zero bounds not yet stored.
pub const NO_ZEROS: u8 = 255;

/// The state that encoder and decoder keep in step.
pub struct ChimpModel {
    pub history: Seq<u64>,
    pub slot: nat,
    pub prev: u64,
    pub prev_lz: u8,
    pub prev_tz: u8,
}

pub open spec fn model_init() -> ChimpModel {
    ChimpModel { history: Seq::new(128, |_i: int| 0u64), slot: 0, prev: 0, prev_lz: NO_ZEROS, prev_tz: NO_ZEROS }
}

pub open spec fn model_wf(m: ChimpModel) -> bool {
    m.history.len() == 128 && m.slot < 128
}

/// The state after a word has been coded.
pub open spec fn advance(m: ChimpModel, v: u64) -> ChimpModel {
    ChimpModel { history: m.history.update(m.slot as int, v), slot: ((m.slot + 1) % 128) as nat, prev: v, ..m }
}

/// The number of payload bits for the zero bounds `lz`, `tz`.
pub open spec fn sigbits(lz: u8, tz: u8) -> u8 {
    let a: int = if lz <= 64 { 64 - lz } else { 0 };
    let b: int = if tz <= a { a - tz } else { 0 };
    if b < 1 { 1 } else { b as u8 }
}

/// Leading zeros, trailing zeros, payload width and payload of an XOR.
pub open spec fn xor_fields(x: u64) -> (u8, u8, u8, u64) {
    if x == 0 {
        (63, 0, 1, 0)
    } else {
        let lz: u8 = if u64_leading_zeros(x) > 63 { 63 } else { u64_leading_zeros(x) as u8 };
        let tz: u8 = if u64_trailing_zeros(x) > 63 { 63 } else { u64_trailing_zeros(x) as u8 };
        (lz, tz, sigbits(lz, tz), x >> (tz as u64))
    }
}

/// The bits that code an XOR, and the state after them.
pub open spec fn payload_bits(m: ChimpModel, x: u64) -> (ChimpModel, Seq<bool>) {
    let (lz, tz, sig, val) = xor_fields(x);
    if m.prev_lz != NO_ZEROS && lz == m.prev_lz && tz == m.prev_tz {
        (m, seq![false] + bits_of(val, sig as nat))
    } else {
        (
            ChimpModel { prev_lz: lz, prev_tz: tz, ..m },
            seq![true] + bits_of(lz as u64, 6) + bits_of(tz as u64, 6) + bits_of(val, sig as nat),
        )
    }
}

/// The history entry, from position `i` on, whose XOR with `v` has more
/// leading zeros than `best`, each later one beating the one before.
pub open spec fn search(h: Seq<u64>, v: u64, best: u64, idx: Option<nat>, i: nat) -> (u64, Option<nat>)
    decreases 128 - i,
{
    if i >= 128 {
        (best, idx)
    } else {
        let c = v ^ h[i as int];
        if u64_leading_zeros(c) > u64_leading_zeros(best) {
            search(h, v, c, Some(i), i + 1)
        } else {
            search(h, v, best, idx, i + 1)
        }
    }
}

/// The bits that code `v` after at least one word, and the state after them.
pub open spec fn step_bits(m: ChimpModel, v: u64) -> (ChimpModel, Seq<bool>) {
    let x = v ^ m.prev;
    if x == 0 {
        (advance(m, v), seq![false, false])
    } else {
        let (bx, bi) = search(m.history, v, x, None, 0);
        match bi {
            Some(i) => {
                let (m2, pb) = payload_bits(m, bx);
                (advance(m2, v), seq![false, true] + bits_of(i as u64, 7) + pb)
            },
            None => {
                let (m2, pb) = payload_bits(m, x);
                (advance(m2, v), seq![true] + pb)
            },
        }
    }
}

/// The bits that code `vals`, and the state after them.
pub open spec fn encode_model(vals: Seq<u64>) -> (ChimpModel, Seq<bool>)
    decreases vals.len(),
{
    if vals.len() == 0 {
        (model_init(), Seq::empty())
    } else {
        let (m, b) = encode_model(vals.drop_last());
        let v = vals.last();
        let (m2, b2) = if vals.len() == 1 { (advance(m, v), bits_of(v, 64)) } else { step_bits(m, v) };
        (m2, b + b2)
    }
}

/// The coded form of `vals`: their count, then their bits packed into bytes.
pub open spec fn chimp_bytes(vals: Seq<u64>) -> Seq<u8> {
    le32(vals.len() as u32) + pack(encode_model(vals).1)
}

/// The `n`-bit field of the stream in `src` at `p`.
pub open spec fn read_field(src: Seq<u8>, p: int, n: nat) -> u64 {
    field_value(stream_window(src, p, n), n)
}

/// Decodes an XOR at `p`: the state, the XOR and the position after it;
/// `None` where it reuses zero bounds that were never stored.
pub open spec fn dec_payload(m: ChimpModel, src: Seq<u8>, p: int) -> Option<(ChimpModel, u64, int)> {
    if stream_bit(src, p) {
        let lz = read_field(src, p + 1, 6) as u8;
        let tz = read_field(src, p + 7, 6) as u8;
        let sig = sigbits(lz, tz);
        let val = read_field(src, p + 13, sig as nat);
        Some((ChimpModel { prev_lz: lz, prev_tz: tz, ..m }, val << (tz as u64), p + 13 + sig))
    } else if m.prev_tz >= 64 {
        None
    } else {
        let sig = sigbits(m.prev_lz, m.prev_tz);
        let val = read_field(src, p + 1, sig as nat);
        Some((m, val << (m.prev_tz as u64), p + 1 + sig))
    }
}

/// Decodes one word at `p`: the state, the word and the position after it.
pub open spec fn dec_value(m: ChimpModel, first: bool, src: Seq<u8>, p: int) -> Option<(ChimpModel, u64, int)> {
    if first {
        let v = read_field(src, p, 64);
        Some((advance(m, v), v, p + 64))
    } else if !stream_bit(src, p) {
        if !stream_bit(src, p + 1) {
            Some((advance(m, m.prev), m.prev, p + 2))
        } else {
            let i = read_field(src, p + 2, 7);
            let base = m.history[(i % 128) as int];
            match dec_payload(m, src, p + 9) {
                Some((m2, x, p2)) => Some((advance(m2, base ^ x), base ^ x, p2)),
                None => None,
            }
        }
    } else {
        match dec_payload(m, src, p + 1) {
            Some((m2, x, p2)) => Some((advance(m2, m.prev ^ x), m.prev ^ x, p2)),
            None => None,
        }
    }
}

/// The words decoded from `src` from state `m` at `p`, at most `remaining`
/// more of them, after those in `acc`; decoding stops at a malformed word.
pub open spec fn run(src: Seq<u8>, m: ChimpModel, first: bool, p: int, remaining: nat, acc: Seq<u64>) -> Seq<u64>
    decreases remaining,
{
    if remaining == 0 {
        acc
    } else {
        match dec_value(m, first, src, p) {
            Some((m2, v, p2)) => run(src, m2, false, p2, (remaining - 1) as nat, acc.push(v)),
            None => acc,
        }
    }
}

/// The words that the coded bytes `data` decode to.
pub open spec fn chimp_decode(data: Seq<u8>) -> Seq<u64> {
    if data.len() < 4 {
        Seq::empty()
    } else {
        run(data.skip(4), model_init(), true, 0, get32(data, 0) as nat, Seq::empty())
    }
}

// ---------------------------------------------------------------------------
// Facts about the fields of an XOR.

proof fn lemma_shr_shr_zero(x: u64, a: u64, b: u64)
    requires
        a + b <= 64,
        b < 64,
        x >> (a + b) as u64 == 0u64,
    ensures
        (x >> a) >> b == 0u64,
{
    assert((x >> a) >> b == 0u64) by (bit_vector)
        requires
            a + b <= 64,
            b < 64,
            x >> (a + b) as u64 == 0u64,
    ;
}

proof fn lemma_shr_shl(x: u64, t: u64)
    requires
        t < 64,
        x << (64 - t) as u64 == 0u64 || t == 0,
    ensures
        (x >> t) << t == x,
{
    assert((x >> t) << t == x) by (bit_vector)
        requires
            t < 64,
            x << (64 - t) as u64 == 0u64 || t == 0,
    ;
}

/// The fields of an XOR read back to it: the bounds fit six bits, the
/// payload fits its width, and shifting it back gives the XOR.
pub proof fn lemma_xor_fields(x: u64)
    ensures
        ({
            let (lz, tz, sig, val) = xor_fields(x);
            &&& lz <= 63
            &&& tz <= 63
            &&& sig == sigbits(lz, tz)
            &&& 1 <= sig <= 64
            &&& fits(val, sig as nat)
            &&& val << (tz as u64) == x
        }),
{
    if x == 0 {
        assert(0u64 >> 1u64 == 0u64) by (bit_vector);
        assert(0u64 << 0u64 == 0u64) by (bit_vector);
    } else {
        vstd::std_specs::bits::axiom_u64_leading_zeros(x);
        vstd::std_specs::bits::axiom_u64_trailing_zeros(x);
        let l = u64_leading_zeros(x);
        let t = u64_trailing_zeros(x);
        assert(l < 64);
        assert(t < 64);
        if 63 - l < t {
            let j = (63 - l) as u64;
            assert((x >> j) & 1u64 == 0u64);
        }
        assert(l + t <= 63);
        let (lz, tz, sig, val) = xor_fields(x);
        assert(lz == l && tz == t);
        assert(sig == 64 - l - t);
        if sig < 64 {
            lemma_shr_shr_zero(x, t as u64, sig as u64);
        }
        lemma_shr_shl(x, t as u64);
    }
}

proof fn lemma_flag_bits()
    ensures
        bits_of(0u64, 2) == seq![false, false],
        bits_of(1u64, 2) == seq![false, true],
        bits_of(1u64, 1) == seq![true],
{
    assert((0u64 >> 1u64) & 1u64 == 0u64) by (bit_vector);
    assert((0u64 >> 0u64) & 1u64 == 0u64) by (bit_vector);
    assert((1u64 >> 1u64) & 1u64 == 0u64) by (bit_vector);
    assert((1u64 >> 0u64) & 1u64 == 1u64) by (bit_vector);
    assert(bits_of(0u64, 2) =~= seq![false, false]);
    assert(bits_of(1u64, 2) =~= seq![false, true]);
    assert(bits_of(1u64, 1) =~= seq![true]);
}

proof fn lemma_xor_back(a: u64, b: u64)
    ensures
        a ^ (a ^ b) == b,
        (a ^ b) ^ a == b,
        a ^ b == b ^ a,
{
    assert(a ^ (a ^ b) == b) by (bit_vector);
    assert((a ^ b) ^ a == b) by (bit_vector);
    assert(a ^ b == b ^ a) by (bit_vector);
}

proof fn lemma_sub_of_sub(s: Seq<bool>, p: int, whole: Seq<bool>, off: int, part: Seq<bool>)
    requires
        0 <= p,
        0 <= off,
        off + part.len() <= whole.len(),
        p + whole.len() <= s.len(),
        s.subrange(p, p + whole.len()) == whole,
        whole.subrange(off, off + part.len()) == part,
    ensures
        s.subrange(p + off, p + off + part.len()) == part,
{
    assert forall|j: int| 0 <= j < part.len() implies s.subrange(p + off, p + off + part.len())[j] == part[j] by {
        assert(whole.subrange(off, off + part.len())[j] == whole[off + j]);
        assert(s.subrange(p, p + whole.len())[off + j] == s[p + off + j]);
    }
    assert(s.subrange(p + off, p + off + part.len()) =~= part);
}

proof fn lemma_xor_zero(a: u64, b: u64)
    ensures
        a ^ b == 0u64 ==> a == b,
{
    assert(a ^ b == 0u64 ==> a == b) by (bit_vector);
}

proof fn lemma_fits_small(v: u64, n: nat, bound: u64)
    requires
        v < bound,
        n == 6 && bound == 64 || n == 7 && bound == 128,
    ensures
        fits(v, n),
{
    if n == 6 {
        assert(v >> 6u64 == 0u64) by (bit_vector)
            requires
                v < 64,
        ;
    } else {
        assert(v >> 7u64 == 0u64) by (bit_vector)
            requires
                v < 128,
        ;
    }
}

proof fn lemma_search_found(h: Seq<u64>, v: u64, best: u64, idx: Option<nat>, i: nat)
    requires
        h.len() == 128,
        idx matches Some(k) ==> k < 128 && best == v ^ h[k as int],
    ensures
        ({
            let (bx, bi) = search(h, v, best, idx, i);
            bi matches Some(k) ==> k < 128 && bx == v ^ h[k as int]
        }),
        (search(h, v, best, idx, i).1 is None) ==> idx is None && search(h, v, best, idx, i).0 == best,
    decreases 128 - i,
{
    if i < 128 {
        let c = v ^ h[i as int];
        if u64_leading_zeros(c) > u64_leading_zeros(best) {
            lemma_search_found(h, v, c, Some(i), i + 1);
        } else {
            lemma_search_found(h, v, best, idx, i + 1);
        }
    }
}

// ---------------------------------------------------------------------------
// Decoding what was encoded.

/// Where the bits from `p` on code an XOR from state `m`, decoding there
/// gives the state after it, the XOR and the position after its bits.
proof fn lemma_payload_round_trip(m: ChimpModel, s: Seq<bool>, p: int, x: u64)
    requires
        0 <= p,
        p + payload_bits(m, x).1.len() <= s.len(),
        s.subrange(p, p + payload_bits(m, x).1.len()) == payload_bits(m, x).1,
        m.prev_lz == NO_ZEROS || (m.prev_lz <= 63 && m.prev_tz <= 63),
    ensures
        dec_payload(m, pack(s), p) == Some((payload_bits(m, x).0, x, p + payload_bits(m, x).1.len())),
{
    let (lz, tz, sig, val) = xor_fields(x);
    lemma_xor_fields(x);
    let pb = payload_bits(m, x).1;
    let src = pack(s);
    crate::codec::bitstream::lemma_pack_stream(s, p);
    assert(s[p] == pb[0]);
    if m.prev_lz != NO_ZEROS && lz == m.prev_lz && tz == m.prev_tz {
        assert(!stream_bit(src, p));
        let vb = bits_of(val, sig as nat);
        assert(pb.subrange(1, 1 + vb.len() as int) =~= vb);
        lemma_sub_of_sub(s, p, pb, 1, vb);
        lemma_read_back(s, p + 1, val, sig as nat);
    } else {
        assert(stream_bit(src, p));
        lemma_fits_small(lz as u64, 6, 64);
        lemma_fits_small(tz as u64, 6, 64);
        let lb = bits_of(lz as u64, 6);
        let tb = bits_of(tz as u64, 6);
        let vb = bits_of(val, sig as nat);
        assert(pb.subrange(1, 7) =~= lb);
        assert(pb.subrange(7, 13) =~= tb);
        assert(pb.subrange(13, 13 + vb.len() as int) =~= vb);
        lemma_sub_of_sub(s, p, pb, 1, lb);
        lemma_sub_of_sub(s, p, pb, 7, tb);
        lemma_sub_of_sub(s, p, pb, 13, vb);
        lemma_read_back(s, p + 1, lz as u64, 6);
        lemma_read_back(s, p + 7, tz as u64, 6);
        lemma_read_back(s, p + 13, val, sig as nat);
        assert(read_field(src, p + 1, 6) as u8 == lz);
        assert(read_field(src, p + 7, 6) as u8 == tz);
    }
}

#[verifier::rlimit(100)]
#[verifier::spinoff_prover]
proof fn lemma_history_case(m: ChimpModel, s: Seq<bool>, p: int, v: u64)
    requires
        0 <= p,
        model_wf(m),
        m.prev_lz == NO_ZEROS || (m.prev_lz <= 63 && m.prev_tz <= 63),
        v ^ m.prev != 0,
        search(m.history, v, v ^ m.prev, None, 0).1 is Some,
        ({
            let b = step_bits(m, v).1;
            p + b.len() <= s.len() && s.subrange(p, p + b.len()) == b
        }),
    ensures
        dec_value(m, false, pack(s), p) == Some((step_bits(m, v).0, v, p + step_bits(m, v).1.len())),
{
    let x = v ^ m.prev;
    let b = step_bits(m, v).1;
    let (bx, bi) = search(m.history, v, x, None, 0);
    let i = bi.unwrap();
    lemma_search_found(m.history, v, x, None, 0);
    lemma_flag_bits();
    crate::codec::bitstream::lemma_pack_stream(s, p);
    crate::codec::bitstream::lemma_pack_stream(s, p + 1);
    let pl = payload_bits(m, bx).1;
    assert(b == seq![false, true] + bits_of(i as u64, 7) + pl);
    assert(s[p] == b[0]);
    assert(s[p + 1] == b[1]);
    lemma_fits_small(i as u64, 7, 128);
    let ib = bits_of(i as u64, 7);
    assert(b.subrange(2, 9) =~= ib);
    assert(b.subrange(9, 9 + pl.len() as int) =~= pl);
    lemma_sub_of_sub(s, p, b, 2, ib);
    lemma_sub_of_sub(s, p, b, 9, pl);
    lemma_read_back(s, p + 2, i as u64, 7);
    lemma_payload_round_trip(m, s, p + 9, bx);
    let h = m.history[i as int];
    lemma_xor_back(h, v);
    let src = pack(s);
    assert(!stream_bit(src, p));
    assert(stream_bit(src, p + 1));
    assert(read_field(src, p + 2, 7) == i as u64);
    assert(m.history[((i as u64) % 128) as int] == h);
    assert(h ^ bx == v);
    let m2 = payload_bits(m, bx).0;
    assert(dec_payload(m, src, p + 9) == Some((m2, bx, p + 9 + pl.len())));
    assert(step_bits(m, v) == (advance(m2, v), b));
}

proof fn lemma_delta_case(m: ChimpModel, s: Seq<bool>, p: int, v: u64)
    requires
        0 <= p,
        model_wf(m),
        m.prev_lz == NO_ZEROS || (m.prev_lz <= 63 && m.prev_tz <= 63),
        v ^ m.prev != 0,
        search(m.history, v, v ^ m.prev, None, 0).1 is None,
        ({
            let b = step_bits(m, v).1;
            p + b.len() <= s.len() && s.subrange(p, p + b.len()) == b
        }),
    ensures
        dec_value(m, false, pack(s), p) == Some((step_bits(m, v).0, v, p + step_bits(m, v).1.len())),
{
    let x = v ^ m.prev;
    let b = step_bits(m, v).1;
    lemma_search_found(m.history, v, x, None, 0);
    lemma_flag_bits();
    crate::codec::bitstream::lemma_pack_stream(s, p);
    let pl = payload_bits(m, x).1;
    assert(b == seq![true] + pl);
    assert(s[p] == b[0]);
    assert(b.subrange(1, 1 + pl.len() as int) =~= pl);
    lemma_sub_of_sub(s, p, b, 1, pl);
    lemma_payload_round_trip(m, s, p + 1, x);
    lemma_xor_back(m.prev, v);
}

/// Decoding at the start of the bits that code a word gives the word, the
/// state the encoder had after it, and the position after its bits.
proof fn lemma_value_round_trip(m: ChimpModel, first: bool, s: Seq<bool>, p: int, v: u64)
    requires
        0 <= p,
        model_wf(m),
        m.prev_lz == NO_ZEROS || (m.prev_lz <= 63 && m.prev_tz <= 63),
        ({
            let b = if first { bits_of(v, 64) } else { step_bits(m, v).1 };
            p + b.len() <= s.len() && s.subrange(p, p + b.len()) == b
        }),
    ensures
        ({
            let (m2, b) = if first { (advance(m, v), bits_of(v, 64)) } else { step_bits(m, v) };
            dec_value(m, first, pack(s), p) == Some((m2, v, p + b.len()))
        }),
{
    if first {
        lemma_read_back(s, p, v, 64);
    } else {
        let x = v ^ m.prev;
        if x == 0 {
            let b = step_bits(m, v).1;
            lemma_flag_bits();
            crate::codec::bitstream::lemma_pack_stream(s, p);
            crate::codec::bitstream::lemma_pack_stream(s, p + 1);
            assert(s[p] == b[0]);
            assert(s[p + 1] == b[1]);
            lemma_xor_zero(v, m.prev);
        } else if search(m.history, v, x, None, 0).1 is Some {
            lemma_history_case(m, s, p, v);
        } else {
            lemma_delta_case(m, s, p, v);
        }
    }
}

/// The encoder's state keeps the bounds it stores within six bits.
proof fn lemma_encode_model_wf(vals: Seq<u64>)
    ensures
        model_wf(encode_model(vals).0),
        encode_model(vals).0.prev_lz == NO_ZEROS || (encode_model(vals).0.prev_lz <= 63
            && encode_model(vals).0.prev_tz <= 63),
    decreases vals.len(),
{
    if vals.len() > 0 {
        lemma_encode_model_wf(vals.drop_last());
        let m = encode_model(vals.drop_last()).0;
        let v = vals.last();
        if vals.len() > 1 {
            let x = v ^ m.prev;
            if x != 0 {
                lemma_xor_fields(x);
                let (bx, bi) = search(m.history, v, x, None, 0);
                lemma_xor_fields(bx);
            }
        }
    }
}

/// The bits that code a prefix of `vals` begin the bits that code `vals`.
proof fn lemma_encode_prefix(vals: Seq<u64>, k: nat)
    requires
        k <= vals.len(),
    ensures
        encode_model(vals.take(k as int)).1.len() <= encode_model(vals).1.len(),
        encode_model(vals).1.take(encode_model(vals.take(k as int)).1.len() as int)
            == encode_model(vals.take(k as int)).1,
    decreases vals.len(),
{
    if k == vals.len() {
        assert(vals.take(k as int) =~= vals);
    } else {
        let pre = vals.drop_last();
        assert(pre.take(k as int) =~= vals.take(k as int));
        lemma_encode_prefix(pre, k);
        let a = encode_model(vals.take(k as int)).1;
        let b = encode_model(pre).1;
        let c = encode_model(vals).1;
        assert(c.take(b.len() as int) =~= b);
        assert(c.take(a.len() as int) =~= b.take(a.len() as int));
    }
}

proof fn lemma_run_from(vals: Seq<u64>, s: Seq<bool>, k: nat)
    requires
        k <= vals.len(),
        s == encode_model(vals).1,
    ensures
        ({
            let (m, b) = encode_model(vals.take(k as int));
            run(pack(s), m, k == 0, b.len() as int, (vals.len() - k) as nat, vals.take(k as int)) == vals
        }),
    decreases vals.len() - k,
{
    let (m, b) = encode_model(vals.take(k as int));
    if k == vals.len() {
        assert(vals.take(k as int) =~= vals);
    } else {
        let v = vals[k as int];
        let t1 = vals.take(k + 1 as int);
        assert(t1.drop_last() =~= vals.take(k as int));
        assert(t1.last() == v);
        lemma_encode_model_wf(vals.take(k as int));
        lemma_encode_prefix(vals, k + 1);
        lemma_encode_prefix(vals, k);
        let (m2, b2) = encode_model(t1);
        let step = if k == 0 { bits_of(v, 64) } else { step_bits(m, v).1 };
        assert(b2 == b + step);
        assert(s.subrange(b.len() as int, (b.len() + step.len()) as int) =~= step) by {
            assert(s.take(b2.len() as int) == b2);
            assert forall|j: int| 0 <= j < step.len() implies s.subrange(b.len() as int, (b.len() + step.len()) as int)[j] == step[j] by {
                assert(s[b.len() + j] == s.take(b2.len() as int)[b.len() + j]);
                assert(b2[b.len() + j] == step[j]);
            }
        }
        lemma_value_round_trip(m, k == 0, s, b.len() as int, v);
        lemma_run_from(vals, s, k + 1);
        assert(vals.take(k as int).push(v) =~= t1);
    }
}

/// Decoding the coded form of a sequence of words gives the words back.
pub proof fn lemma_chimp_round_trip(vals: Seq<u64>)
    requires
        vals.len() <= u32::MAX,
    ensures
        chimp_decode(chimp_bytes(vals)) == vals,
{
    let s = encode_model(vals).1;
    let data = chimp_bytes(vals);
    crate::wire::lemma_le_round_trips();
    assert(data.skip(4) =~= pack(s));
    assert(data.subrange(0, 4) =~= le32(vals.len() as u32));
    assert(get32(data, 0) == vals.len());
    lemma_run_from(vals, s, 0);
    assert(vals.take(0) =~= Seq::<u64>::empty());
}

// ---------------------------------------------------------------------------
// Run facts the decoder needs.

proof fn lemma_run_prefix(src: Seq<u8>, m: ChimpModel, first: bool, p: int, remaining: nat, acc: Seq<u64>)
    ensures
        acc.len() <= run(src, m, first, p, remaining, acc).len() <= acc.len() + remaining,
        run(src, m, first, p, remaining, acc).take(acc.len() as int) == acc,
    decreases remaining,
{
    if remaining > 0 {
        match dec_value(m, first, src, p) {
            Some((m2, v, p2)) => {
                lemma_run_prefix(src, m2, false, p2, (remaining - 1) as nat, acc.push(v));
                let r = run(src, m2, false, p2, (remaining - 1) as nat, acc.push(v));
                assert(r.take(acc.len() as int) =~= r.take((acc.len() + 1) as int).take(acc.len() as int));
                assert(acc.push(v).take(acc.len() as int) =~= acc);
            },
            None => {
                assert(acc.take(acc.len() as int) =~= acc);
            },
        }
    } else {
        assert(acc.take(acc.len() as int) =~= acc);
    }
}

// ---------------------------------------------------------------------------
// Encoder.

/// Codes a sequence of 64-bit words.
pub struct Chimp128Encoder {
    history: Vec<u64>,
    slot: usize,
    prev_val: u64,
    prev_leading_zeros: u8,
    prev_trailing_zeros: u8,
    writer: BitWriter,
    count: u32,
    values: Ghost<Seq<u64>>,
}

fn zero_history() -> (r: Vec<u64>)
    ensures
        r@ == Seq::new(128, |_i: int| 0u64),
{
    let mut h: Vec<u64> = Vec::with_capacity(HISTORY_LEN);
    let mut i: usize = 0;
    while i < HISTORY_LEN
        invariant
            i <= HISTORY_LEN,
            h@ == Seq::new(i as nat, |_i: int| 0u64),
        decreases HISTORY_LEN - i,
    {
        h.push(0u64);
        i = i + 1;
    }
    h
}

/// The fields of an XOR, as `xor_fields` states them.
fn compute_xor_fields(x: u64) -> (r: (u8, u8, u8, u64))
    ensures
        r == xor_fields(x),
{
    if x == 0 {
        (63, 0, 1, 0)
    } else {
        let lz32 = x.leading_zeros();
        let tz32 = x.trailing_zeros();
        let lz: u8 = if lz32 > 63 { 63 } else { lz32 as u8 };
        let tz: u8 = if tz32 > 63 { 63 } else { tz32 as u8 };
        let a: u8 = if lz <= 64 { 64 - lz } else { 0 };
        let b: u8 = if tz <= a { a - tz } else { 0 };
        let sig: u8 = if b < 1 { 1 } else { b };
        (lz, tz, sig, x >> (tz as u64))
    }
}

impl Chimp128Encoder {
    pub closed spec fn model(&self) -> ChimpModel {
        ChimpModel {
            history: self.history@,
            slot: self.slot as nat,
            prev: self.prev_val,
            prev_lz: self.prev_leading_zeros,
            prev_tz: self.prev_trailing_zeros,
        }
    }

    /// The words coded so far.
    pub closed spec fn values(&self) -> Seq<u64> {
        self.values@
    }

    pub closed spec fn wf(&self) -> bool {
        &&& self.history@.len() == 128
        &&& self.slot < 128
        &&& self.writer.wf()
        &&& self.count == self.values@.len()
        &&& encode_model(self.values@) == (self.model(), self.writer.written())
    }

    pub fn new() -> (r: Self)
        ensures
            r.wf(),
            r.values() == Seq::<u64>::empty(),
    {
        let r = Chimp128Encoder {
            history: zero_history(),
            slot: 0,
            prev_val: 0,
            prev_leading_zeros: NO_ZEROS,
            prev_trailing_zeros: NO_ZEROS,
            writer: BitWriter::new(),
            count: 0,
            values: Ghost(Seq::empty()),
        };
        assert(r.model() =~= model_init());
        r
    }

    fn encode_xor_payload(&mut self, x: u64)
        requires
            old(self).writer.wf(),
        ensures
            final(self).writer.wf(),
            ({
                let (m2, pb) = payload_bits(old(self).model(), x);
                &&& final(self).model() == m2
                &&& final(self).writer.written() == old(self).writer.written() + pb
            }),
            final(self).values@ == old(self).values@,
            final(self).count == old(self).count,
    {
        let (lz, tz, sig, val) = compute_xor_fields(x);
        proof {
            lemma_xor_fields(x);
        }
        let ghost w0 = self.writer.written();
        if self.prev_leading_zeros != NO_ZEROS && lz == self.prev_leading_zeros && tz == self.prev_trailing_zeros {
            self.writer.write_bit(false);
            self.writer.write_bits(val, sig);
            assert(self.writer.written() =~= w0 + (seq![false] + bits_of(val, sig as nat)));
        } else {
            self.writer.write_bit(true);
            self.writer.write_bits(lz as u64, 6);
            self.writer.write_bits(tz as u64, 6);
            self.writer.write_bits(val, sig);
            self.prev_leading_zeros = lz;
            self.prev_trailing_zeros = tz;
            assert(self.writer.written() =~= w0 + (seq![true] + bits_of(lz as u64, 6) + bits_of(tz as u64, 6)
                + bits_of(val, sig as nat)));
        }
    }

    /// Codes one more word.
    pub fn encode_u64(&mut self, val: u64)
        requires
            old(self).wf(),
            old(self).values().len() < u32::MAX,
        ensures
            final(self).wf(),
            final(self).values() == old(self).values().push(val),
    {
        let ghost vals = self.values@;
        let ghost m0 = self.model();
        let ghost w0 = self.writer.written();
        proof {
            lemma_flag_bits();
        }
        if self.count == 0 {
            self.writer.write_bits(val, 64);
        } else {
            let x = val ^ self.prev_val;
            if x == 0 {
                self.writer.write_bits(0, 2);
            } else {
                let mut best_xor = x;
                let mut best_idx: Option<usize> = None;
                let mut i: usize = 0;
                while i < HISTORY_LEN
                    invariant
                        i <= HISTORY_LEN,
                        self.history@.len() == 128,
                        self.history@ == m0.history,
                        search(m0.history, val, x, None, 0) == search(
                            m0.history,
                            val,
                            best_xor,
                            match best_idx {
                                Some(k) => Some(k as nat),
                                None => None,
                            },
                            i as nat,
                        ),
                    decreases HISTORY_LEN - i,
                {
                    let c = val ^ self.history[i];
                    if c.leading_zeros() > best_xor.leading_zeros() {
                        best_xor = c;
                        best_idx = Some(i);
                    }
                    i = i + 1;
                }
                match best_idx {
                    Some(k) => {
                        self.writer.write_bits(1, 2);
                        self.writer.write_bits(k as u64, 7);
                        self.encode_xor_payload(best_xor);
                    },
                    None => {
                        self.writer.write_bits(1, 1);
                        self.encode_xor_payload(x);
                    },
                }
            }
        }
        self.prev_val = val;
        self.history.set(self.slot, val);
        self.slot = (self.slot + 1) % HISTORY_LEN;
        self.count = self.count + 1;
        self.values = Ghost(vals.push(val));
        proof {
            let nv = vals.push(val);
            assert(nv.drop_last() =~= vals);
            if vals.len() == 0 {
                assert(self.model() =~= advance(m0, val));
                assert(self.writer.written() =~= w0 + bits_of(val, 64));
            } else {
                let (m2, b2) = step_bits(m0, val);
                assert(self.model() =~= m2);
                assert(self.writer.written() =~= w0 + b2);
            }
        }
    }

    /// The coded bytes: the word count, little-endian, then the bits.
    pub fn finish(self) -> (r: Vec<u8>)
        requires
            self.wf(),
        ensures
            r@ == chimp_bytes(self.values()),
    {
        let ghost vals = self.values@;
        let count = self.count;
        let bytes = self.writer.into_bytes();
        let mut out: Vec<u8> = Vec::new();
        push32(&mut out, count);
        push_all(&mut out, bytes.as_slice());
        out
    }
}

// ---------------------------------------------------------------------------
// Decoder.

/// Decodes the words of a coded byte slice one by one.
pub struct Chimp128Decoder<'a> {
    reader: BitReader<'a>,
    history: Vec<u64>,
    slot: usize,
    prev_val: u64,
    prev_leading_zeros: u8,
    prev_trailing_zeros: u8,
    total_count: u32,
    decoded_count: u32,
    exhausted: bool,
    decoded: Ghost<Seq<u64>>,
    data: Ghost<Seq<u8>>,
}

impl<'a> Chimp128Decoder<'a> {
    pub closed spec fn model(&self) -> ChimpModel {
        ChimpModel {
            history: self.history@,
            slot: self.slot as nat,
            prev: self.prev_val,
            prev_lz: self.prev_leading_zeros,
            prev_tz: self.prev_trailing_zeros,
        }
    }

    /// The bytes being decoded.
    pub closed spec fn input(&self) -> Seq<u8> {
        self.data@
    }

    /// The words returned so far.
    pub closed spec fn decoded(&self) -> Seq<u64> {
        self.decoded@
    }

    pub closed spec fn wf(&self) -> bool {
        &&& self.history@.len() == 128
        &&& self.slot < 128
        &&& self.reader.wf()
        &&& self.data@.len() >= 4
        &&& self.reader.source() == self.data@.skip(4)
        &&& self.total_count == get32(self.data@, 0)
        &&& self.decoded_count <= self.total_count
        &&& self.decoded_count == self.decoded@.len()
        &&& (!self.exhausted ==> self.reader.position() <= 86 * self.decoded_count)
        &&& (self.decoded_count == 0 ==> self.model() == model_init())
        &&& (self.prev_leading_zeros == NO_ZEROS || (self.prev_leading_zeros <= 63 && self.prev_trailing_zeros <= 63))
        &&& (self.exhausted ==> chimp_decode(self.data@) == self.decoded@)
        &&& (!self.exhausted ==> chimp_decode(self.data@) == run(
            self.reader.source(),
            self.model(),
            self.decoded_count == 0,
            self.reader.position() as int,
            (self.total_count - self.decoded_count) as nat,
            self.decoded@,
        ))
    }

    /// A decoder of `data`, which must hold at least the four-byte word count.
    pub fn new(data: &'a [u8]) -> (r: Result<Self, TpxError>)
        ensures
            data@.len() < 4 <==> r is Err,
            r matches Err(e) ==> e matches TpxError::BufferTooSmall { required, provided, .. }
                && required == 4 && provided == data@.len(),
            r matches Ok(d) ==> d.wf() && d.input() == data@ && d.decoded() == Seq::<u64>::empty(),
    {
        if data.len() < 4 {
            return Err(TpxError::BufferTooSmall { component: "Chimp128Decoder", required: 4, provided: data.len() });
        }
        let total_count = read32(data, 0);
        let d = Chimp128Decoder {
            reader: BitReader::new(data, 4),
            history: zero_history(),
            slot: 0,
            prev_val: 0,
            prev_leading_zeros: NO_ZEROS,
            prev_trailing_zeros: NO_ZEROS,
            total_count,
            decoded_count: 0,
            exhausted: false,
            decoded: Ghost(Seq::empty()),
            data: Ghost(data@),
        };
        assert(d.model() =~= model_init());
        Ok(d)
    }

    fn decode_xor_payload(&mut self) -> (r: Option<u64>)
        requires
            old(self).reader.wf(),
            old(self).prev_leading_zeros == NO_ZEROS || (old(self).prev_leading_zeros <= 63
                && old(self).prev_trailing_zeros <= 63),
            old(self).reader.position() + 77 <= u64::MAX,
        ensures
            final(self).reader.wf(),
            final(self).reader.source() == old(self).reader.source(),
            final(self).history@ == old(self).history@,
            final(self).slot == old(self).slot,
            final(self).prev_val == old(self).prev_val,
            final(self).total_count == old(self).total_count,
            final(self).decoded_count == old(self).decoded_count,
            final(self).exhausted == old(self).exhausted,
            final(self).decoded@ == old(self).decoded@,
            final(self).data@ == old(self).data@,
            match dec_payload(old(self).model(), old(self).reader.source(), old(self).reader.position() as int) {
                Some((m2, x, p2)) => r == Some(x) && final(self).model() == m2 && final(self).reader.position() == p2,
                None => r is None,
            },
            final(self).reader.position() <= old(self).reader.position() + 77,
            final(self).prev_leading_zeros == NO_ZEROS || (final(self).prev_leading_zeros <= 63
                && final(self).prev_trailing_zeros <= 63),
    {
        let is_new_zeros = self.reader.read_bit();
        if is_new_zeros {
            let lz = self.reader.read_bits(6);
            let tz = self.reader.read_bits(6);
            proof {
                crate::codec::bitstream::lemma_field_value_fits(
                    stream_window(old(self).reader.source(), old(self).reader.position() as int + 1, 6), 6);
                crate::codec::bitstream::lemma_field_value_fits(
                    stream_window(old(self).reader.source(), old(self).reader.position() as int + 7, 6), 6);
                lemma_small_of_fits6(lz);
                lemma_small_of_fits6(tz);
            }
            let lz8 = lz as u8;
            let tz8 = tz as u8;
            self.prev_leading_zeros = lz8;
            self.prev_trailing_zeros = tz8;
            let sig = significant_bits(lz8, tz8);
            let meaningful = self.reader.read_bits(sig);
            Some(meaningful << (tz8 as u64))
        } else {
            if self.prev_trailing_zeros >= 64 {
                return None;
            }
            let sig = significant_bits(self.prev_leading_zeros, self.prev_trailing_zeros);
            let meaningful = self.reader.read_bits(sig);
            Some(meaningful << (self.prev_trailing_zeros as u64))
        }
    }

    /// The next word, or `None` once all words have been returned or the
    /// input turns out malformed.
    pub fn decode_u64(&mut self) -> (r: Option<u64>)
        requires
            old(self).wf(),
        ensures
            final(self).wf(),
            final(self).input() == old(self).input(),
            old(self).decoded().len() < chimp_decode(old(self).input()).len() ==> r == Some(
                chimp_decode(old(self).input())[old(self).decoded().len() as int],
            ),
            old(self).decoded().len() >= chimp_decode(old(self).input()).len() ==> r is None,
            match r {
                Some(v) => final(self).decoded() == old(self).decoded().push(v),
                None => final(self).decoded() == old(self).decoded(),
            },
    {
        let ghost src = self.reader.source();
        let ghost m0 = self.model();
        let ghost p0 = self.reader.position() as int;
        let ghost first = self.decoded_count == 0;
        let ghost rem = (self.total_count - self.decoded_count) as nat;
        let ghost all = chimp_decode(self.data@);
        if self.exhausted {
            assert(self.decoded@ =~= all.take(self.decoded@.len() as int));
            return None;
        }
        proof {
            lemma_run_prefix(src, m0, first, p0, rem, self.decoded@);
        }
        if self.decoded_count >= self.total_count {
            self.exhausted = true;
            return None;
        }
        let val: u64;
        if self.decoded_count == 0 {
            val = self.reader.read_bits(64);
        } else {
            let first_bit = self.reader.read_bit();
            if !first_bit {
                let second_bit = self.reader.read_bit();
                if !second_bit {
                    val = self.prev_val;
                } else {
                    let hist_idx = self.reader.read_bits(7);
                    let base = self.history[(hist_idx % 128) as usize];
                    match self.decode_xor_payload() {
                        Some(x) => {
                            val = base ^ x;
                        },
                        None => {
                            self.exhausted = true;
                            proof {
                                assert(dec_value(m0, first, src, p0) is None);
                            }
                            return None;
                        },
                    }
                }
            } else {
                match self.decode_xor_payload() {
                    Some(x) => {
                        val = self.prev_val ^ x;
                    },
                    None => {
                        self.exhausted = true;
                        proof {
                            assert(dec_value(m0, first, src, p0) is None);
                        }
                        return None;
                    },
                }
            }
        }
        self.prev_val = val;
        self.history.set(self.slot, val);
        self.slot = (self.slot + 1) % HISTORY_LEN;
        self.decoded_count = self.decoded_count + 1;
        self.decoded = Ghost(self.decoded@.push(val));
        proof {
            let (m2, v2, p2) = dec_value(m0, first, src, p0).unwrap();
            assert(v2 == val);
            assert(self.model() =~= m2);
            assert(p2 == self.reader.position());
            lemma_run_prefix(src, m2, false, p2, (rem - 1) as nat, old(self).decoded@.push(val));
            let r2 = run(src, m2, false, p2, (rem - 1) as nat, old(self).decoded@.push(val));
            assert(r2[old(self).decoded@.len() as int] == r2.take((old(self).decoded@.len() + 1) as int)[old(self).decoded@.len() as int]);
        }
        Some(val)
    }
}

/// Sixty-four minus both zero counts, saturating, and at least one.
fn significant_bits(lz: u8, tz: u8) -> (r: u8)
    ensures
        r == sigbits(lz, tz),
        1 <= r <= 64,
{
    let a: u8 = if lz <= 64 { 64 - lz } else { 0 };
    let b: u8 = if tz <= a { a - tz } else { 0 };
    if b < 1 { 1 } else { b }
}

proof fn lemma_small_of_fits6(v: u64)
    requires
        fits(v, 6),
    ensures
        v < 64,
{
    assert(v < 64) by (bit_vector)
        requires
            v >> 6u64 == 0u64,
    ;
}

/// The words decoded from `data`, all of them.
pub fn decode_all(data: &[u8]) -> (r: Result<Vec<u64>, TpxError>)
    ensures
        data@.len() < 4 <==> r is Err,
        r matches Err(e) ==> e matches TpxError::BufferTooSmall { required, provided, .. }
            && required == 4 && provided == data@.len(),
        r matches Ok(v) ==> v@ == chimp_decode(data@),
{
    let mut d = match Chimp128Decoder::new(data) {
        Ok(d) => d,
        Err(e) => return Err(e),
    };
    let mut out: Vec<u64> = Vec::new();
    loop
        invariant
            d.wf(),
            d.input() == data@,
            out@ == d.decoded(),
            d.decoded().len() <= chimp_decode(data@).len(),
            d.decoded() == chimp_decode(data@).take(d.decoded().len() as int),
        ensures
            out@ == chimp_decode(data@),
        decreases chimp_decode(data@).len() - d.decoded().len(),
    {
        let ghost before = d.decoded();
        match d.decode_u64() {
            Some(v) => {
                out.push(v);
                assert(d.decoded() =~= chimp_decode(data@).take(d.decoded().len() as int));
            },
            None => {
                assert(before =~= chimp_decode(data@));
                break;
            },
        }
    }
    Ok(out)
}

/// Codes a sequence of words.
pub fn encode_all(vals: &[u64]) -> (r: Vec<u8>)
    requires
        vals@.len() <= u32::MAX,
    ensures
        r@ == chimp_bytes(vals@),
{
    let mut enc = Chimp128Encoder::new();
    let mut i: usize = 0;
    while i < vals.len()
        invariant
            i <= vals@.len() <= u32::MAX,
            enc.wf(),
            enc.values() == vals@.take(i as int),
        decreases vals@.len() - i,
    {
        enc.encode_u64(vals[i]);
        assert(vals@.take(i + 1) =~= vals@.take(i as int).push(vals@[i as int]));
        i = i + 1;
    }
    assert(vals@.take(i as int) =~= vals@);
    enc.finish()
}

// ---------------------------------------------------------------------------
// Tensor bytes as words.

/// Bytes per coded element: eight for `Float64`, four for everything else.
/// A decoder over the bytes an encoder finished with replays the encoded
/// words: by the contract of `decode_u64`, its `i`-th call returns word `i`
/// and every call after the last word returns `None`.
pub proof fn lemma_decoder_replays_encoder(vals: Seq<u64>, d: Chimp128Decoder)
    requires
        vals.len() <= u32::MAX,
        d.input() == chimp_bytes(vals),
    ensures
        chimp_decode(d.input()) == vals,
{
    lemma_chimp_round_trip(vals);
}

pub open spec fn word_width(dtype: DTypeId) -> nat {
    if dtype == DTypeId::Float64 { 8 } else { 4 }
}

/// Element `i` of `data` as a word: a 64-bit value as it stands, a 32-bit
/// value in the upper half.
pub open spec fn to_word(data: Seq<u8>, dtype: DTypeId, i: int) -> u64 {
    if dtype == DTypeId::Float64 {
        get64(data, 8 * i)
    } else {
        (get32(data, 4 * i) as u64) << 32u64
    }
}

/// The words of the whole elements of `data`; trailing bytes are left out.
pub open spec fn chimp_words(data: Seq<u8>, dtype: DTypeId) -> Seq<u64> {
    Seq::new(data.len() / word_width(dtype), |i: int| to_word(data, dtype, i))
}

/// The bytes of one decoded word.
pub open spec fn word_bytes(w: u64, dtype: DTypeId) -> Seq<u8> {
    if dtype == DTypeId::Float64 {
        le64(w)
    } else {
        le32((w >> 32u64) as u32)
    }
}

/// The bytes of decoded words, in order.
pub open spec fn words_bytes(ws: Seq<u64>, dtype: DTypeId) -> Seq<u8>
    decreases ws.len(),
{
    if ws.len() == 0 {
        Seq::empty()
    } else {
        words_bytes(ws.drop_last(), dtype) + word_bytes(ws.last(), dtype)
    }
}

proof fn lemma_word_bytes_len(ws: Seq<u64>, dtype: DTypeId)
    ensures
        words_bytes(ws, dtype).len() == ws.len() * word_width(dtype),
    decreases ws.len(),
{
    crate::wire::lemma_le_round_trips();
    if ws.len() > 0 {
        lemma_word_bytes_len(ws.drop_last(), dtype);
        assert(word_bytes(ws.last(), dtype).len() == word_width(dtype));
        assert(ws.len() * word_width(dtype) == (ws.len() - 1) * word_width(dtype) + word_width(dtype)) by (nonlinear_arith);
    }
}

proof fn lemma_word_of_bytes(data: Seq<u8>, dtype: DTypeId, i: int)
    requires
        0 <= i,
        (i + 1) * word_width(dtype) <= data.len(),
    ensures
        word_bytes(to_word(data, dtype, i), dtype) == data.subrange(i * word_width(dtype), (i + 1) * word_width(dtype)),
{
    vstd::bytes::lemma_auto_spec_u32_to_from_le_bytes();
    vstd::bytes::lemma_auto_spec_u64_to_from_le_bytes();
    if dtype == DTypeId::Float64 {
        let sub = data.subrange(8 * i, 8 * i + 8);
        assert(vstd::bytes::spec_u64_to_le_bytes(vstd::bytes::spec_u64_from_le_bytes(sub)) == sub);
    } else {
        let sub = data.subrange(4 * i, 4 * i + 4);
        let x = get32(data, 4 * i);
        assert((((x as u64) << 32u64) >> 32u64) as u32 == x) by (bit_vector);
        assert(vstd::bytes::spec_u32_to_le_bytes(vstd::bytes::spec_u32_from_le_bytes(sub)) == sub);
    }
}

proof fn lemma_words_bytes_prefix(data: Seq<u8>, dtype: DTypeId, k: nat)
    requires
        k * word_width(dtype) <= data.len(),
    ensures
        words_bytes(Seq::new(k, |i: int| to_word(data, dtype, i)), dtype) == data.take((k * word_width(dtype)) as int),
    decreases k,
{
    let w = word_width(dtype);
    let ws = Seq::new(k, |i: int| to_word(data, dtype, i));
    if k == 0 {
        assert(data.take(0) =~= Seq::<u8>::empty());
    } else {
        let k1 = (k - 1) as nat;
        assert(k1 * w <= k * w) by (nonlinear_arith)
            requires
                k1 < k,
        ;
        assert(k * w == k1 * w + w) by (nonlinear_arith)
            requires
                k1 == k - 1,
        ;
        lemma_words_bytes_prefix(data, dtype, k1);
        assert(ws.drop_last() =~= Seq::new(k1, |i: int| to_word(data, dtype, i)));
        lemma_word_of_bytes(data, dtype, k1 as int);
        assert(data.take((k * w) as int) =~= data.take((k1 * w) as int) + data.subrange((k1 * w) as int, (k * w) as int));
    }
}

/// Turning whole elements into words and the words back into bytes gives the
/// elements' bytes.
pub proof fn lemma_words_round_trip(data: Seq<u8>, dtype: DTypeId)
    requires
        data.len() % word_width(dtype) == 0,
    ensures
        words_bytes(chimp_words(data, dtype), dtype) == data,
{
    let w = word_width(dtype);
    let k = data.len() / w;
    assert(k * w == data.len()) by (nonlinear_arith)
        requires
            data.len() % w == 0,
            k == data.len() / w,
            w > 0,
    ;
    lemma_words_bytes_prefix(data, dtype, k);
    assert(data.take(data.len() as int) =~= data);
}

/// The outcome of decompressing `data` into `uncompressed_len` bytes.
pub open spec fn chimp_decompressed(data: Seq<u8>, uncompressed_len: usize, dtype: DTypeId) -> Result<Seq<u8>, ()> {
    let out = words_bytes(chimp_decode(data), dtype);
    if data.len() < 4 || out.len() != uncompressed_len {
        Err(())
    } else {
        Ok(out)
    }
}

/// Decompressing what compression produced gives back whole-element data.
pub proof fn lemma_chimp_codec_round_trip(data: Seq<u8>, dtype: DTypeId)
    requires
        data.len() % word_width(dtype) == 0,
        data.len() / word_width(dtype) <= u32::MAX,
        data.len() <= usize::MAX,
    ensures
        chimp_decompressed(chimp_bytes(chimp_words(data, dtype)), data.len() as usize, dtype) == Ok::<Seq<u8>, ()>(data),
{
    let ws = chimp_words(data, dtype);
    lemma_chimp_round_trip(ws);
    lemma_words_round_trip(data, dtype);
    crate::wire::lemma_le_round_trips();
    assert(chimp_bytes(ws).len() >= 4);
}

pub struct Chimp128Codec;

impl Chimp128Codec {
    /// The elements of `data` coded as words.
    pub fn compress_bytes(data: &[u8], dtype: DTypeId) -> (r: Vec<u8>)
        requires
            data@.len() / word_width(dtype) <= u32::MAX,
        ensures
            r@ == chimp_bytes(chimp_words(data@, dtype)),
    {
        let mut enc = Chimp128Encoder::new();
        let w: usize = if dtype == DTypeId::Float64 { 8 } else { 4 };
        let n = data.len();
        let count = n / w;
        let ghost ws = chimp_words(data@, dtype);
        let mut i: usize = 0;
        while i < count
            invariant
                w == word_width(dtype),
                n == data@.len(),
                count == data@.len() / (w as nat),
                count <= u32::MAX,
                ws == chimp_words(data@, dtype),
                i <= count,
                enc.wf(),
                enc.values() == ws.take(i as int),
            decreases count - i,
        {
            assert(i * w + w <= data@.len()) by (nonlinear_arith)
                requires
                    i < count,
                    count == data@.len() / (w as nat),
                    w > 0,
            ;
            let v: u64 = if dtype == DTypeId::Float64 {
                read64(data, i * w)
            } else {
                (read32(data, i * w) as u64) << 32u64
            };
            assert(v == ws[i as int]);
            enc.encode_u64(v);
            assert(ws.take(i + 1) =~= ws.take(i as int).push(v));
            i = i + 1;
        }
        assert(ws.take(count as int) =~= ws);
        enc.finish()
    }

    /// The decoded elements, or an error when `data` lacks the word count or
    /// decodes to another length than `uncompressed_len`.
    pub fn decompress_bytes(data: &[u8], uncompressed_len: usize, dtype: DTypeId) -> (r: Result<Vec<u8>, TpxError>)
        ensures
            match chimp_decompressed(data@, uncompressed_len, dtype) {
                Ok(out) => r matches Ok(v) && v@ == out,
                Err(_) => r is Err,
            },
            r matches Err(TpxError::BufferTooSmall { required, provided, .. }) ==> data@.len() < 4 && required == 4
                && provided == data@.len(),
            r matches Err(TpxError::DecompressLengthMismatch { expected, got }) ==> data@.len() >= 4
                && expected == uncompressed_len && got == words_bytes(chimp_decode(data@), dtype).len(),
            r is Err ==> (r matches Err(TpxError::BufferTooSmall { .. })) || (r matches Err(
                TpxError::DecompressLengthMismatch { .. },
            )),
    {
        let ws = match decode_all(data) {
            Ok(ws) => ws,
            Err(e) => return Err(e),
        };
        let mut out: Vec<u8> = Vec::new();
        let mut i: usize = 0;
        while i < ws.len()
            invariant
                i <= ws@.len(),
                out@ == words_bytes(ws@.take(i as int), dtype),
            decreases ws@.len() - i,
        {
            if dtype == DTypeId::Float64 {
                push64(&mut out, ws[i]);
            } else {
                push32(&mut out, (ws[i] >> 32u64) as u32);
            }
            assert(ws@.take(i + 1).drop_last() =~= ws@.take(i as int));
            i = i + 1;
        }
        assert(ws@.take(i as int) =~= ws@);
        if out.len() != uncompressed_len {
            return Err(TpxError::DecompressLengthMismatch { expected: uncompressed_len, got: out.len() });
        }
        Ok(out)
    }
}

} // verus!
