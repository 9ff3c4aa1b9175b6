//! Most-significant-bit-first bit streams packed into bytes.
use vstd::prelude::*;

verus! {

/// Bit `i` (counting from the least significant) of `v`.
pub open spec fn bit_at(v: u64, i: nat) -> bool {
    i < 64 && (v >> (i as u64)) & 1u64 == 1u64
}

/// The low `n` bits of `v`, most significant first.
pub open spec fn bits_of(v: u64, n: nat) -> Seq<bool> {
    Seq::new(n, |j: int| bit_at(v, (n - 1 - j) as nat))
}

/// `v` has no set bit at position `n` or above.
pub open spec fn fits(v: u64, n: nat) -> bool {
    n >= 64 || v >> (n as u64) == 0u64
}

/// The number whose bits, most significant first, are the first `n` of `s`.
pub open spec fn field_value(s: Seq<bool>, n: nat) -> u64
    decreases n,
{
    if n == 0 {
        0u64
    } else {
        (field_value(s, (n - 1) as nat) << 1u64) | (if s[n - 1] { 1u64 } else { 0u64 })
    }
}

/// Bit `p` of `s`, false past its end.
pub open spec fn padded_bit(s: Seq<bool>, p: int) -> bool {
    0 <= p < s.len() && s[p]
}

/// The `n` bits of `s` from position `p` on, false past its end.
pub open spec fn window(s: Seq<bool>, p: int, n: nat) -> Seq<bool> {
    Seq::new(n, |j: int| padded_bit(s, p + j))
}

/// The byte made of the eight bits of `s` from position `p` on.
pub open spec fn byte_at(s: Seq<bool>, p: int) -> u8 {
    field_value(window(s, p, 8), 8) as u8
}

/// `s` packed into bytes, eight bits a byte, the last byte padded with zeros.
pub open spec fn pack(s: Seq<bool>) -> Seq<u8> {
    Seq::new(((s.len() + 7) / 8) as nat, |k: int| byte_at(s, 8 * k))
}

/// Bit `p` of the stream that `bytes` hold, false past their end.
pub open spec fn stream_bit(bytes: Seq<u8>, p: int) -> bool {
    0 <= p && p / 8 < bytes.len() && bit_at(bytes[p / 8] as u64, (7 - p % 8) as nat)
}

/// The `n` bits of the stream in `bytes` from position `p` on.
pub open spec fn stream_window(bytes: Seq<u8>, p: int, n: nat) -> Seq<bool> {
    Seq::new(n, |j: int| stream_bit(bytes, p + j))
}

proof fn lemma_shift_step(v: u64, s: u64)
    requires
        s < 64,
    ensures
        ((v >> (s + 1) as u64) << 1u64) | ((v >> s) & 1u64) == v >> s,
{
    assert(((v >> (s + 1) as u64) << 1u64) | ((v >> s) & 1u64) == v >> s) by (bit_vector)
        requires
            s < 64,
    ;
}

proof fn lemma_push_bit(x: u64, b: u64, t: u64)
    requires
        b <= 1,
        t < 63,
        x >> 63u64 == 0u64,
    ensures
        (((x << 1u64) | b) >> 0u64) & 1u64 == b,
        (((x << 1u64) | b) >> (t + 1) as u64) & 1u64 == (x >> t) & 1u64,
{
    assert((((x << 1u64) | b) >> 0u64) & 1u64 == b) by (bit_vector)
        requires
            b <= 1,
    ;
    assert((((x << 1u64) | b) >> (t + 1) as u64) & 1u64 == (x >> t) & 1u64) by (bit_vector)
        requires
            b <= 1,
            t < 63,
    ;
}

proof fn lemma_fits_push(x: u64, b: u64, k: u64)
    requires
        b <= 1,
        1 <= k <= 64,
        k - 1 >= 64 || x >> (k - 1) as u64 == 0u64,
    ensures
        k >= 64 || ((x << 1u64) | b) >> k == 0u64,
        k - 1 < 64 ==> x >> 63u64 == 0u64,
{
    assert(k >= 64 || ((x << 1u64) | b) >> k == 0u64) by (bit_vector)
        requires
            b <= 1,
            1 <= k <= 64,
            k - 1 >= 64 || x >> (k - 1) as u64 == 0u64,
    ;
    assert(k - 1 < 64 ==> x >> 63u64 == 0u64) by (bit_vector)
        requires
            1 <= k <= 64,
            k - 1 >= 64 || x >> (k - 1) as u64 == 0u64,
    ;
}

/// A field value depends only on the first `n` bits.
pub proof fn lemma_field_value_prefix(s1: Seq<bool>, s2: Seq<bool>, n: nat)
    requires
        n <= s1.len(),
        n <= s2.len(),
        forall|j: int| 0 <= j < n ==> s1[j] == s2[j],
    ensures
        field_value(s1, n) == field_value(s2, n),
    decreases n,
{
    if n > 0 {
        lemma_field_value_prefix(s1, s2, (n - 1) as nat);
    }
}

/// A field of `n` bits holds a value below `2^n`.
pub proof fn lemma_field_value_fits(s: Seq<bool>, n: nat)
    requires
        n <= 64,
        n <= s.len(),
    ensures
        fits(field_value(s, n), n),
        n < 64 ==> field_value(s, n) >> 63u64 == 0u64,
    decreases n,
{
    if n == 0 {
        assert(0u64 >> 0u64 == 0u64) by (bit_vector);
        assert(0u64 >> 63u64 == 0u64) by (bit_vector);
    } else {
        lemma_field_value_fits(s, (n - 1) as nat);
        let x = field_value(s, (n - 1) as nat);
        let b: u64 = if s[n - 1] { 1 } else { 0 };
        lemma_fits_push(x, b, n as u64);
        let w = (x << 1u64) | b;
        if n < 64 {
            let nn = n as u64;
            assert(w >> 63u64 == 0u64) by (bit_vector)
                requires
                    w >> nn == 0u64,
                    nn < 64,
            ;
        }
    }
}

/// Writing the low `n` bits of a value that fits and reading them back gives
/// the value.
pub proof fn lemma_field_of_bits(v: u64, n: nat)
    requires
        n <= 64,
        fits(v, n),
    ensures
        field_value(bits_of(v, n), n) == v,
{
    lemma_field_of_bits_prefix(v, n, n);
    assert(v >> 0u64 == v) by (bit_vector);
}

proof fn lemma_field_of_bits_prefix(v: u64, n: nat, k: nat)
    requires
        n <= 64,
        k <= n,
        fits(v, n),
    ensures
        field_value(bits_of(v, n), k) == v >> ((n - k) as u64),
    decreases k,
{
    if k == 0 {
        if n == 64 {
            assert(v >> 64u64 == 0u64) by (bit_vector);
        }
    } else {
        lemma_field_of_bits_prefix(v, n, (k - 1) as nat);
        let s = (n - k) as u64;
        lemma_shift_step(v, s);
        assert(bits_of(v, n)[k - 1] == bit_at(v, (n - k) as nat));
        assert((v >> s) & 1u64 == 0u64 || (v >> s) & 1u64 == 1u64) by (bit_vector);
    }
}

/// Reading a field and writing its bits back gives the field's bits.
pub proof fn lemma_bits_of_field(s: Seq<bool>, n: nat)
    requires
        n <= 64,
        n <= s.len(),
    ensures
        bits_of(field_value(s, n), n) == s.take(n as int),
    decreases n,
{
    if n > 0 {
        lemma_bits_of_field(s, (n - 1) as nat);
        lemma_field_value_fits(s, (n - 1) as nat);
        let x = field_value(s, (n - 1) as nat);
        let b: u64 = if s[n - 1] { 1 } else { 0 };
        let w = field_value(s, n);
        assert(w == (x << 1u64) | b);
        assert forall|j: int| 0 <= j < n implies #[trigger] bits_of(w, n)[j] == s[j] by {
            if j == n - 1 {
                lemma_push_bit(x, b, 0);
            } else {
                let t = (n - 2 - j) as u64;
                lemma_push_bit(x, b, t);
                assert(bits_of(x, (n - 1) as nat)[j] == s.take(n - 1)[j]);
            }
        }
        assert(bits_of(w, n) =~= s.take(n as int));
    }
}

proof fn lemma_u8_bit(b: u8, s: u8)
    requires
        s < 8,
    ensures
        ((b >> s) & 1u8) as u64 == ((b as u64) >> (s as u64)) & 1u64,
{
    assert(((b >> s) & 1u8) as u64 == ((b as u64) >> (s as u64)) & 1u64) by (bit_vector)
        requires
            s < 8,
    ;
}

/// The stream of packed bits is the bit sequence, with false past its end.
pub proof fn lemma_pack_stream(s: Seq<bool>, p: int)
    requires
        0 <= p,
    ensures
        stream_bit(pack(s), p) == padded_bit(s, p),
{
    let k = p / 8;
    let j = p % 8;
    if k < pack(s).len() {
        let wv = window(s, 8 * k, 8);
        lemma_field_value_fits(wv, 8);
        lemma_bits_of_field(wv, 8);
        let f = field_value(wv, 8);
        assert(f >> 8u64 == 0u64);
        assert((f as u8) as u64 == f) by (bit_vector)
            requires
                f >> 8u64 == 0u64,
        ;
        assert(pack(s)[k] == f as u8);
        assert(bits_of(f, 8)[j] == wv[j]);
        assert(8 * k + j == p);
    } else {
        assert(p >= s.len());
    }
}

/// The bits a stream of packed bits shows from `p` on are those of the
/// sequence there.
pub proof fn lemma_pack_window(s: Seq<bool>, p: int, n: nat)
    requires
        0 <= p,
    ensures
        stream_window(pack(s), p, n) == window(s, p, n),
{
    assert forall|j: int| 0 <= j < n implies #[trigger] stream_window(pack(s), p, n)[j] == window(s, p, n)[j] by {
        lemma_pack_stream(s, p + j);
    }
    assert(stream_window(pack(s), p, n) =~= window(s, p, n));
}

/// Where the bits of `s` from `p` on are those of `v`, the field read there is `v`.
pub proof fn lemma_read_back(s: Seq<bool>, p: int, v: u64, n: nat)
    requires
        0 <= p,
        p + n <= s.len(),
        n <= 64,
        fits(v, n),
        s.subrange(p, p + n) == bits_of(v, n),
    ensures
        field_value(stream_window(pack(s), p, n), n) == v,
{
    lemma_pack_window(s, p, n);
    assert forall|j: int| 0 <= j < n implies window(s, p, n)[j] == bits_of(v, n)[j] by {
        assert(s.subrange(p, p + n)[j] == s[p + j]);
    }
    lemma_field_value_prefix(window(s, p, n), bits_of(v, n), n);
    lemma_field_of_bits(v, n);
}

/// Bits appended to a byte vector, most significant first.
pub struct BitWriter {
    bytes: Vec<u8>,
    buffer: u64,
    pending: u8,
    bits: Ghost<Seq<bool>>,
}

impl BitWriter {
    /// The bits written so far.
    pub closed spec fn written(&self) -> Seq<bool> {
        self.bits@
    }

    pub closed spec fn wf(&self) -> bool {
        let n = self.bytes@.len() as int;
        &&& self.pending < 8
        &&& self.bits@.len() == 8 * n + self.pending
        &&& forall|k: int| 0 <= k < n ==> #[trigger] self.bytes@[k] == byte_at(self.bits@, 8 * k)
        &&& self.buffer == field_value(self.bits@.subrange(8 * n, self.bits@.len() as int), self.pending as nat)
    }

    pub fn new() -> (r: Self)
        ensures
            r.wf(),
            r.written() == Seq::<bool>::empty(),
    {
        let r = BitWriter { bytes: Vec::new(), buffer: 0, pending: 0, bits: Ghost(Seq::empty()) };
        r
    }

    pub fn write_bit(&mut self, bit: bool)
        requires
            old(self).wf(),
        ensures
            final(self).wf(),
            final(self).written() == old(self).written().push(bit),
    {
        let ghost old_bits = self.bits@;
        let ghost n0: int = self.bytes@.len() as int;
        let b: u64 = if bit { 1 } else { 0 };
        proof {
            let tail = old_bits.subrange(8 * n0, old_bits.len() as int);
            lemma_field_value_fits(tail, self.pending as nat);
        }
        self.buffer = (self.buffer << 1u64) | b;
        self.pending = self.pending + 1;
        self.bits = Ghost(old_bits.push(bit));
        proof {
            let nb = self.bits@;
            let tail0 = old_bits.subrange(8 * n0, old_bits.len() as int);
            let tail1 = nb.subrange(8 * n0, nb.len() as int);
            assert(tail1.len() == self.pending);
            lemma_field_value_prefix(tail0, tail1, (self.pending - 1) as nat);
            assert(tail1[self.pending - 1] == bit);
            assert(self.buffer == field_value(tail1, self.pending as nat));
            assert forall|k: int| 0 <= k < n0 implies #[trigger] self.bytes@[k] == byte_at(nb, 8 * k) by {
                assert(window(nb, 8 * k, 8) =~= window(old_bits, 8 * k, 8));
            }
        }
        if self.pending == 8 {
            proof {
                let nb = self.bits@;
                let tail1 = nb.subrange(8 * n0, nb.len() as int);
                lemma_field_value_fits(tail1, 8);
                assert forall|j: int| 0 <= j < 8 implies tail1[j] == window(nb, 8 * n0, 8)[j] by {
                }
                lemma_field_value_prefix(tail1, window(nb, 8 * n0, 8), 8);
                let f = self.buffer;
                assert(f >> 8u64 == 0u64);
            }
            self.bytes.push(self.buffer as u8);
            self.buffer = 0;
            self.pending = 0;
            proof {
                let nb = self.bits@;
                assert forall|k: int| 0 <= k < self.bytes@.len() implies #[trigger] self.bytes@[k] == byte_at(nb, 8 * k) by {
                }
            }
        }
    }

    /// Appends the low `n` bits of `value`, most significant first.
    pub fn write_bits(&mut self, value: u64, n: u8)
        requires
            old(self).wf(),
            n <= 64,
        ensures
            final(self).wf(),
            final(self).written() == old(self).written() + bits_of(value, n as nat),
    {
        let mut i: u8 = n;
        while i > 0
            invariant
                i <= n <= 64,
                self.wf(),
                self.written() == old(self).written() + bits_of(value, n as nat).take(n - i),
            decreases i,
        {
            let ghost before = self.written();
            let bit = (value >> ((i - 1) as u64)) & 1u64 == 1u64;
            self.write_bit(bit);
            proof {
                let bs = bits_of(value, n as nat);
                assert(bs[n - i] == bit);
                assert(bs.take(n - i + 1) =~= bs.take(n - i).push(bit));
            }
            i = i - 1;
        }
        assert(bits_of(value, n as nat).take(n as int) =~= bits_of(value, n as nat));
    }

    /// The bytes written, the last one padded with zero bits.
    pub fn into_bytes(self) -> (r: Vec<u8>)
        requires
            self.wf(),
        ensures
            r@ == pack(self.written()),
    {
        let ghost s = self.bits@;
        let ghost n0: int = self.bytes@.len() as int;
        let mut bytes = self.bytes;
        if self.pending > 0 {
            let shift = (8 - self.pending) as u64;
            proof {
                let tail = s.subrange(8 * n0, s.len() as int);
                lemma_pad_field(tail, self.pending as nat, (8 - self.pending) as nat);
                lemma_field_value_fits(tail, self.pending as nat);
                let w = window(s, 8 * n0, 8);
                let padded = Seq::new(8, |j: int| j < self.pending && tail[j]);
                assert forall|j: int| 0 <= j < 8 implies w[j] == padded[j] by {
                }
                lemma_field_value_prefix(w, padded, 8);
            }
            let byte = (self.buffer << shift) as u8;
            proof {
                let tail = s.subrange(8 * n0, s.len() as int);
                let padded = Seq::new(8, |j: int| j < self.pending && tail[j]);
                let f = field_value(padded, 8);
                assert(f == self.buffer << shift);
                lemma_field_value_fits(padded, 8);
                assert((f as u8) == byte);
            }
            bytes.push(byte);
        }
        proof {
            assert forall|k: int| 0 <= k < pack(s).len() implies #[trigger] bytes@[k] == pack(s)[k] by {
            }
            assert(bytes@ =~= pack(s));
        }
        bytes
    }
}

/// Padding a field with zero bits shifts its value left.
proof fn lemma_pad_field(tail: Seq<bool>, c: nat, z: nat)
    requires
        c <= tail.len(),
        1 <= c,
        c + z == 8,
    ensures
        field_value(Seq::new(8, |j: int| j < c && tail[j]), 8) == field_value(tail, c) << (z as u64),
{
    let padded = Seq::new(8, |j: int| j < c && tail[j]);
    lemma_pad_field_rec(tail, c, z, padded);
}

proof fn lemma_pad_field_rec(tail: Seq<bool>, c: nat, z: nat, padded: Seq<bool>)
    requires
        c <= tail.len(),
        c + z <= 8,
        padded.len() == 8,
        forall|j: int| 0 <= j < 8 ==> padded[j] == (j < c && tail[j]),
    ensures
        field_value(padded, c + z) == field_value(tail, c) << (z as u64),
    decreases z,
{
    if z == 0 {
        lemma_field_value_prefix(padded, tail, c);
        let x = field_value(tail, c);
        assert(x << 0u64 == x) by (bit_vector);
    } else {
        lemma_pad_field_rec(tail, c, (z - 1) as nat, padded);
        let x = field_value(tail, c);
        let zz = (z - 1) as u64;
        assert(((x << zz) << 1u64) | 0u64 == x << (zz + 1) as u64) by (bit_vector)
            requires
                zz < 8,
        ;
    }
}

/// Bits read from a byte slice, most significant first, as zeros past its end.
pub struct BitReader<'a> {
    data: &'a [u8],
    start: usize,
    pos: u64,
}

impl<'a> BitReader<'a> {
    /// The bytes the stream is read from.
    pub closed spec fn source(&self) -> Seq<u8> {
        self.data@.skip(self.start as int)
    }

    /// The position, in bits from the start of the stream, of the next bit.
    pub closed spec fn position(&self) -> nat {
        self.pos as nat
    }

    pub closed spec fn wf(&self) -> bool {
        self.start <= self.data@.len()
    }

    /// A reader of the bytes of `data` from `start` on.
    pub fn new(data: &'a [u8], start: usize) -> (r: Self)
        requires
            start <= data@.len(),
        ensures
            r.wf(),
            r.source() == data@.skip(start as int),
            r.position() == 0,
    {
        BitReader { data, start, pos: 0 }
    }

    pub fn read_bit(&mut self) -> (r: bool)
        requires
            old(self).wf(),
            old(self).position() < u64::MAX,
        ensures
            final(self).wf(),
            final(self).source() == old(self).source(),
            final(self).position() == old(self).position() + 1,
            r == stream_bit(old(self).source(), old(self).position() as int),
    {
        let len = self.data.len() - self.start;
        let idx = self.pos / 8;
        let r = if idx < len as u64 {
            let byte = self.data[self.start + idx as usize];
            let shift = (7 - self.pos % 8) as u8;
            proof {
                lemma_u8_bit(byte, shift);
                assert(self.source()[idx as int] == byte);
            }
            (byte >> shift) & 1u8 == 1u8
        } else {
            false
        };
        self.pos = self.pos + 1;
        r
    }

    /// Reads `n` bits as a number, most significant first.
    pub fn read_bits(&mut self, n: u8) -> (r: u64)
        requires
            old(self).wf(),
            n <= 64,
            old(self).position() + n <= u64::MAX,
        ensures
            final(self).wf(),
            final(self).source() == old(self).source(),
            final(self).position() == old(self).position() + n,
            r == field_value(stream_window(old(self).source(), old(self).position() as int, n as nat), n as nat),
    {
        let ghost p0 = self.position() as int;
        let ghost src = self.source();
        let mut r: u64 = 0;
        let mut i: u8 = 0;
        while i < n
            invariant
                i <= n <= 64,
                self.wf(),
                self.source() == src,
                self.position() == p0 + i,
                p0 + n <= u64::MAX,
                r == field_value(stream_window(src, p0, n as nat), i as nat),
            decreases n - i,
        {
            let bit = self.read_bit();
            let b: u64 = if bit { 1 } else { 0 };
            assert(stream_window(src, p0, n as nat)[i as int] == bit);
            r = (r << 1u64) | b;
            i = i + 1;
        }
        r
    }
}

} // verus!
