//! The 24-byte footer that closes every checkpoint, and the backward scan
//! that finds the most recent one.
use vstd::prelude::*;
use crate::types::{TpxError, FOOTER_SIZE, MAGIC_END_CHECKPOINT, MAGIC_END_FINAL};
use crate::wire::{le32, le64, get32, get64, lemma_le_round_trips, push_all, push32, push64, read4, read32, read64, same4};

verus! {

broadcast use vstd::array::group_array_axioms;

#[derive(Clone, Copy, Debug, PartialEq, Eq)]
pub struct Footer {
    pub toc_offset: u64,
    pub total_chunks: u32,
    pub checksum: u64,
    pub magic_end: [u8; 4],
}

pub open spec fn footer_bytes(f: Footer) -> Seq<u8> {
    le64(f.toc_offset) + le32(f.total_chunks) + le64(f.checksum) + f.magic_end@
}

/// The footer fields held by a 24-byte image.
pub open spec fn parse_footer(b: Seq<u8>) -> Footer {
    Footer {
        toc_offset: get64(b, 0),
        total_chunks: get32(b, 8),
        checksum: get64(b, 12),
        magic_end: [b[20], b[21], b[22], b[23]],
    }
}

/// A footer ends with one of the two end markers.
pub open spec fn footer_valid(f: Footer) -> bool {
    f.magic_end@ == MAGIC_END_FINAL@ || f.magic_end@ == MAGIC_END_CHECKPOINT@
}

/// The last 24 bytes of a buffer.
pub open spec fn footer_tail(b: Seq<u8>) -> Seq<u8> {
    b.subrange(b.len() - FOOTER_SIZE, b.len() as int)
}

impl Footer {
    pub fn default() -> (r: Self)
        ensures
            r.toc_offset == 0 && r.total_chunks == 0 && r.checksum == 0,
            r.magic_end@ == MAGIC_END_FINAL@,
    {
        Self { toc_offset: 0, total_chunks: 0, checksum: 0, magic_end: MAGIC_END_FINAL }
    }

    pub fn new(toc_offset: u64, total_chunks: u32, checksum: u64, is_checkpoint: bool) -> (r: Self)
        ensures
            r.toc_offset == toc_offset,
            r.total_chunks == total_chunks,
            r.checksum == checksum,
            r.magic_end@ == if is_checkpoint { MAGIC_END_CHECKPOINT@ } else { MAGIC_END_FINAL@ },
    {
        Self {
            toc_offset,
            total_chunks,
            checksum,
            magic_end: if is_checkpoint { MAGIC_END_CHECKPOINT } else { MAGIC_END_FINAL },
        }
    }

    pub fn is_checkpoint(&self) -> (r: bool)
        ensures
            r == (self.magic_end@ == MAGIC_END_CHECKPOINT@),
    {
        same4(&self.magic_end, &MAGIC_END_CHECKPOINT)
    }

    pub fn is_final(&self) -> (r: bool)
        ensures
            r == (self.magic_end@ == MAGIC_END_FINAL@),
    {
        same4(&self.magic_end, &MAGIC_END_FINAL)
    }

    pub fn serialize(&self) -> (r: [u8; FOOTER_SIZE])
        ensures
            r@ == footer_bytes(*self),
    {
        let mut v: Vec<u8> = Vec::new();
        push64(&mut v, self.toc_offset);
        push32(&mut v, self.total_chunks);
        push64(&mut v, self.checksum);
        push_all(&mut v, self.magic_end.as_slice());
        proof {
            lemma_le_round_trips();
        }
        let mut out = [0u8; FOOTER_SIZE];
        let mut i: usize = 0;
        while i < FOOTER_SIZE
            invariant
                v@ == footer_bytes(*self),
                v@.len() == FOOTER_SIZE,
                i <= FOOTER_SIZE,
                out@.len() == FOOTER_SIZE,
                forall|j: int| 0 <= j < i ==> out@[j] == v@[j],
            decreases FOOTER_SIZE - i,
        {
            out[i] = v[i];
            i = i + 1;
        }
        assert(out@ =~= v@);
        out
    }

    /// Reads the footer held by the last 24 bytes of `buf`.
    pub fn deserialize(buf: &[u8]) -> (r: Result<Self, TpxError>)
        ensures
            buf@.len() >= FOOTER_SIZE && footer_valid(parse_footer(footer_tail(buf@))) ==> (r matches Ok(f)
                && f == parse_footer(footer_tail(buf@))),
            buf@.len() >= FOOTER_SIZE && !footer_valid(parse_footer(footer_tail(buf@))) ==> (r matches Err(
                TpxError::InvalidEndMagic(m),
            ) && m == parse_footer(footer_tail(buf@)).magic_end),
            buf@.len() < FOOTER_SIZE ==> (r matches Err(TpxError::BufferTooSmall { component, required, provided })
                && component@ == "Footer"@ && required == FOOTER_SIZE && provided == buf@.len()),
    {
        if buf.len() < FOOTER_SIZE {
            return Err(
                TpxError::BufferTooSmall {
                    component: "Footer",
                    required: FOOTER_SIZE,
                    provided: buf.len(),
                },
            );
        }
        let slice = vstd::slice::slice_subrange(buf, buf.len() - FOOTER_SIZE, buf.len());
        assert(slice@ == footer_tail(buf@));
        let toc_offset = read64(slice, 0);
        let total_chunks = read32(slice, 8);
        let checksum = read64(slice, 12);
        let magic_end = read4(slice, 20);
        let ghost p = parse_footer(slice@);
        assert(magic_end =~= p.magic_end);
        if !same4(&magic_end, &MAGIC_END_FINAL) && !same4(&magic_end, &MAGIC_END_CHECKPOINT) {
            return Err(TpxError::InvalidEndMagic(magic_end));
        }
        Ok(Self { toc_offset, total_chunks, checksum, magic_end })
    }
}

/// Reading back a written footer gives the same footer.
pub proof fn lemma_footer_round_trip(f: Footer)
    ensures
        footer_bytes(f).len() == FOOTER_SIZE,
        footer_tail(footer_bytes(f)) == footer_bytes(f),
        parse_footer(footer_bytes(f)) == f,
{
    lemma_le_round_trips();
    let b = footer_bytes(f);
    assert(b.subrange(0, 8) =~= le64(f.toc_offset));
    assert(b.subrange(8, 12) =~= le32(f.total_chunks));
    assert(b.subrange(12, 20) =~= le64(f.checksum));
    assert(footer_tail(b) =~= b);
    let p = parse_footer(b);
    assert(p.magic_end =~= f.magic_end);
}

/// A footer image stored at `off` in `data` that decodes to a valid footer
/// whose table of contents starts before it.
pub open spec fn footer_at(data: Seq<u8>, off: int) -> bool {
    &&& 0 <= off
    &&& off + FOOTER_SIZE <= data.len()
    &&& footer_valid(parse_footer(data.subrange(off, off + FOOTER_SIZE)))
    &&& parse_footer(data.subrange(off, off + FOOTER_SIZE)).toc_offset < off
}

/// The first of the aligned probe offsets `m*align - 24`, `(m-1)*align - 24`,
/// ..., `align - 24` that holds a footer.
pub open spec fn scan_aligned(data: Seq<u8>, m: nat, align: int) -> Option<int>
    decreases m,
{
    if m == 0 {
        None
    } else if footer_at(data, m * align - FOOTER_SIZE) {
        Some(m * align - FOOTER_SIZE)
    } else {
        scan_aligned(data, (m - 1) as nat, align)
    }
}

/// The probe alignment used by the scan: the chunk alignment, at least 512.
pub open spec fn scan_align(chunk_align: u32) -> int {
    if chunk_align >= 512 { chunk_align as int } else { 512 }
}

/// Where the backward scan finds a footer: first the one ending at
/// `file_len`, then the aligned probes from the highest down.
pub open spec fn footer_scan(data: Seq<u8>, file_len: int, chunk_align: u32) -> Option<int> {
    if file_len < FOOTER_SIZE {
        None
    } else if footer_at(data, file_len - FOOTER_SIZE) {
        Some(file_len - FOOTER_SIZE)
    } else {
        scan_aligned(data, (file_len / scan_align(chunk_align)) as nat, scan_align(chunk_align))
    }
}

/// How many bytes a positioned read of `want` bytes at `offset` gets from a
/// source of `len` bytes: none at or past the end, else as many as are
/// there, at most `want`.
pub open spec fn read_len(len: nat, offset: u64, want: nat) -> nat {
    if offset >= len {
        0
    } else if len - offset < want {
        (len - offset) as nat
    } else {
        want
    }
}

/// A byte source that can be read at a position.
pub trait ReadAt {
    /// The bytes the source holds.
    spec fn source(&self) -> Seq<u8>;

    /// Whether reads of this source always succeed (an in-memory source).
    spec fn infallible(&self) -> bool;

    /// Reads into `buf` the bytes from `offset` on, as many as `read_len`
    /// says, and returns their count; the rest of `buf` is left as it was.
    fn read_at(&self, offset: u64, buf: &mut [u8]) -> (r: Result<usize, std::io::Error>)
        ensures
            final(buf)@.len() == old(buf)@.len(),
            r matches Ok(n) ==> {
                &&& n == read_len(self.source().len(), offset, old(buf)@.len())
                &&& forall|j: int| 0 <= j < n ==> final(buf)@[j] == self.source()[offset + j]
                &&& forall|j: int| n <= j < old(buf)@.len() ==> final(buf)@[j] == old(buf)@[j]
            },
            self.infallible() ==> r is Ok,
    ;
}

impl ReadAt for [u8] {
    open spec fn source(&self) -> Seq<u8> {
        self@
    }

    open spec fn infallible(&self) -> bool {
        true
    }

    fn read_at(&self, offset: u64, buf: &mut [u8]) -> (r: Result<usize, std::io::Error>)
        ensures
            r is Ok,
    {
        if offset >= self.len() as u64 {
            return Ok(0);
        }
        let len = self.len();
        let off = offset as usize;
        let available = len - off;
        let to_read = if available < buf.len() { available } else { buf.len() };
        let ghost orig = buf@;
        let mut i: usize = 0;
        while i < to_read
            invariant
                orig == old(buf)@,
                buf@.len() == orig.len(),
                to_read <= orig.len(),
                len == self@.len(),
                off + to_read <= len,
                i <= to_read,
                forall|j: int| 0 <= j < i ==> buf@[j] == self@[off + j],
                forall|j: int| i <= j < orig.len() ==> buf@[j] == orig[j],
            decreases to_read - i,
        {
            let b = self[off + i];
            buf[i] = b;
            i = i + 1;
        }
        Ok(to_read)
    }
}

impl ReadAt for Vec<u8> {
    open spec fn source(&self) -> Seq<u8> {
        self@
    }

    open spec fn infallible(&self) -> bool {
        true
    }

    fn read_at(&self, offset: u64, buf: &mut [u8]) -> (r: Result<usize, std::io::Error>)
        ensures
            r is Ok,
    {
        self.as_slice().read_at(offset, buf)
    }
}

/// Checks whether a footer is stored at `off` of the source.
fn probe_footer<R: ReadAt + ?Sized>(reader: &R, off: u64) -> (r: Result<Option<Footer>, std::io::Error>)
    ensures
        r matches Ok(o) ==> {
            &&& (o is Some <==> footer_at(reader.source(), off as int))
            &&& (o matches Some(f) ==> f == parse_footer(reader.source().subrange(off as int, off + FOOTER_SIZE)))
        },
        reader.infallible() ==> r is Ok,
{
    let mut buf: Vec<u8> = vec![0u8; FOOTER_SIZE];
    let read = match reader.read_at(off, buf.as_mut_slice()) {
        Ok(n) => n,
        Err(e) => return Err(e),
    };
    let ghost data = reader.source();
    if read != FOOTER_SIZE {
        return Ok(None);
    }
    assert(off + FOOTER_SIZE <= data.len());
    assert(buf@ =~= data.subrange(off as int, off + FOOTER_SIZE));
    assert(footer_tail(buf@) =~= buf@);
    match Footer::deserialize(buf.as_slice()) {
        Ok(footer) => {
            if footer.toc_offset < off {
                Ok(Some(footer))
            } else {
                Ok(None)
            }
        },
        Err(_) => Ok(None),
    }
}

/// Scans backward from the end of the source for the most recent valid
/// footer. Returns the footer and its offset; a failed read is returned as
/// an I/O error.
pub fn scan_for_footer<R: ReadAt + ?Sized>(reader: &R, file_len: u64, chunk_align: u32) -> (r: Result<
    Option<(Footer, u64)>,
    TpxError,
>)
    ensures
        r matches Ok(res) ==> match footer_scan(reader.source(), file_len as int, chunk_align) {
            None => res is None,
            Some(off) => res matches Some((f, o)) && o == off && f == parse_footer(
                reader.source().subrange(off, off + FOOTER_SIZE),
            ),
        },
        r matches Err(e) ==> e is Io,
        reader.infallible() ==> r is Ok,
{
    if file_len < FOOTER_SIZE as u64 {
        return Ok(None);
    }
    let eof_offset = file_len - FOOTER_SIZE as u64;
    match probe_footer(reader, eof_offset) {
        Ok(Some(footer)) => return Ok(Some((footer, eof_offset))),
        Ok(None) => {},
        Err(e) => return Err(TpxError::Io(e)),
    }
    let align: u64 = if chunk_align >= 512 { chunk_align as u64 } else { 512 };
    let ghost a = scan_align(chunk_align);
    let ghost data = reader.source();
    let top = file_len / align;
    assert(top * align <= file_len) by (nonlinear_arith)
        requires top == file_len / align, align > 0;
    let mut current = top * align;
    let ghost mut m: nat = top as nat;
    while current >= FOOTER_SIZE as u64
        invariant
            align as int == a,
            a >= 512,
            current == m * a,
            data == reader.source(),
            scan_aligned(data, m, a) == footer_scan(data, file_len as int, chunk_align),
            file_len >= FOOTER_SIZE,
            !footer_at(data, file_len - FOOTER_SIZE),
            top == file_len / align,
        decreases current,
    {
        assert(m > 0) by (nonlinear_arith)
            requires current == m * a, current >= 24;
        let probe_offset = current - FOOTER_SIZE as u64;
        match probe_footer(reader, probe_offset) {
            Ok(Some(footer)) => return Ok(Some((footer, probe_offset))),
            Ok(None) => {},
            Err(e) => return Err(TpxError::Io(e)),
        }
        if current <= align {
            assert(m == 1) by (nonlinear_arith)
                requires current == m * a, current <= a, m > 0, a > 0;
            assert(scan_aligned(data, 0, a) is None);
            return Ok(None);
        }
        current = current - align;
        proof {
            assert(current == (m - 1) * a) by (nonlinear_arith)
                requires current == m * a - a, m > 0;
            m = (m - 1) as nat;
        }
    }
    assert(m == 0) by (nonlinear_arith)
        requires current == m * a, current < 24, a >= 512;
    Ok(None)
}

proof fn lemma_scan_aligned_highest(data: Seq<u8>, m: nat, a: int)
    requires
        a > 0,
    ensures
        scan_aligned(data, m, a) matches Some(off) ==> {
            &&& footer_at(data, off)
            &&& exists|k: nat| 1 <= k <= m && off == #[trigger] (k * a) - FOOTER_SIZE
            &&& forall|k: nat| 1 <= k <= m && #[trigger] (k * a) - FOOTER_SIZE > off ==> !footer_at(data, k * a - FOOTER_SIZE)
        },
        scan_aligned(data, m, a) is None ==> forall|k: nat| 1 <= k <= m ==> !footer_at(data, #[trigger] (k * a) - FOOTER_SIZE),
    decreases m,
{
    if m > 0 {
        lemma_scan_aligned_highest(data, (m - 1) as nat, a);
        if footer_at(data, m * a - FOOTER_SIZE) {
            assert forall|k: nat| 1 <= k <= m && #[trigger] (k * a) - FOOTER_SIZE > m * a - FOOTER_SIZE implies !footer_at(
                data,
                k * a - FOOTER_SIZE,
            ) by {
                assert(k * a <= m * a) by (nonlinear_arith)
                    requires k <= m, a > 0;
            }
        } else {
            match scan_aligned(data, (m - 1) as nat, a) {
                Some(off) => {
                    let k0: nat = choose|k: nat| 1 <= k <= m - 1 && off == #[trigger] (k * a) - FOOTER_SIZE;
                    assert(1 <= k0 <= m && off == k0 * a - FOOTER_SIZE);
                },
                None => {},
            }
        }
    }
}

/// The scan finds the highest valid footer among the places it probes: the
/// one ending at `file_len`, else the aligned probes `k * align - 24` that
/// end within `file_len`; where it finds none, none of them holds one.
pub proof fn lemma_scan_finds_highest(data: Seq<u8>, file_len: int, chunk_align: u32)
    requires
        file_len >= 0,
    ensures
        ({
            let a = scan_align(chunk_align);
            match footer_scan(data, file_len, chunk_align) {
                Some(off) => {
                    &&& footer_at(data, off)
                    &&& (off == file_len - FOOTER_SIZE || {
                        &&& !footer_at(data, file_len - FOOTER_SIZE)
                        &&& exists|k: nat| 1 <= k && k * a <= file_len && off == #[trigger] (k * a) - FOOTER_SIZE
                        &&& forall|k: nat|
                            1 <= k && k * a <= file_len && #[trigger] (k * a) - FOOTER_SIZE > off ==> !footer_at(
                                data,
                                k * a - FOOTER_SIZE,
                            )
                    })
                },
                None => file_len >= FOOTER_SIZE ==> {
                    &&& !footer_at(data, file_len - FOOTER_SIZE)
                    &&& forall|k: nat| 1 <= k && k * a <= file_len ==> !footer_at(data, #[trigger] (k * a) - FOOTER_SIZE)
                },
            }
        }),
{
    let a = scan_align(chunk_align);
    if file_len >= FOOTER_SIZE && !footer_at(data, file_len - FOOTER_SIZE) {
        let m = (file_len / a) as nat;
        lemma_scan_aligned_highest(data, m, a);
        assert forall|k: nat| 1 <= k && #[trigger] (k * a) <= file_len implies k <= m by {
            assert(k <= file_len / a) by (nonlinear_arith)
                requires k * a <= file_len, a > 0, k >= 1;
        }
        assert forall|k: nat| 1 <= k <= m implies #[trigger] (k * a) <= file_len by {
            assert(k * a <= (file_len / a) * a) by (nonlinear_arith)
                requires k <= file_len / a, a > 0;
            assert((file_len / a) * a <= file_len) by (nonlinear_arith)
                requires a > 0, file_len >= 0;
        }
    }
}

/// Recovery after a crash: when the bytes after the last aligned footer are
/// shorter than the probe alignment and do not themselves end in a footer,
/// the scan finds that footer.
pub proof fn lemma_scan_finds_last_checkpoint(
    prefix: Seq<u8>,
    f: Footer,
    garbage: Seq<u8>,
    chunk_align: u32,
)
    requires
        footer_valid(f),
        f.toc_offset < prefix.len(),
        (prefix.len() + FOOTER_SIZE) % scan_align(chunk_align) == 0,
        garbage.len() < scan_align(chunk_align),
        garbage.len() == 0 || !footer_at(prefix + footer_bytes(f) + garbage, (prefix.len() + FOOTER_SIZE + garbage.len()) - FOOTER_SIZE),
    ensures
        footer_scan(prefix + footer_bytes(f) + garbage, (prefix.len() + FOOTER_SIZE + garbage.len()) as int, chunk_align)
            == Some(prefix.len() as int),
{
    lemma_footer_round_trip(f);
    let data = prefix + footer_bytes(f) + garbage;
    let a = scan_align(chunk_align);
    let p = prefix.len() as int;
    let n = p + FOOTER_SIZE + garbage.len();
    assert(data.len() == n);
    assert(data.subrange(p as int, p + FOOTER_SIZE) =~= footer_bytes(f));
    assert(footer_at(data, p as int));
    if garbage.len() != 0 {
        let k = (p + FOOTER_SIZE) / a;
        assert(k * a == p + FOOTER_SIZE) by (nonlinear_arith)
            requires k == (p + FOOTER_SIZE) / a, (p + FOOTER_SIZE) % a == 0, a > 0;
        assert(n / a == k) by (nonlinear_arith)
            requires k * a == p + FOOTER_SIZE, n == p + FOOTER_SIZE + garbage.len(), garbage.len() < a, a > 0;
        assert(k > 0) by (nonlinear_arith)
            requires k * a == p + FOOTER_SIZE, a > 0, p >= 0;
        assert(k * a - FOOTER_SIZE == p);
    }
}

} // verus!
