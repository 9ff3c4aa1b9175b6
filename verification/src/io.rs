//! I/O tiers, the hints that steer their choice, huge-page buffers, and the
//! write coalescing of a file backend: appends gather in a buffer that is
//! written out in large pieces, and every read or positioned write sees the
//! file as if each append had been written at once.
use vstd::prelude::*;

verus! {

/// The I/O mechanism a backend uses, fastest first.
#[derive(Debug, Clone, Copy, PartialEq, Eq, Structural)]
pub enum IoTier {
    Spdk,
    IoUring { sqpoll: bool, iopoll: bool },
    PosixVectored,
    Mmap,
}

/// Requests that steer the choice of I/O tier.
#[derive(Clone, Copy, Debug, PartialEq, Eq, Structural)]
pub struct IoHints {
    pub direct_io: bool,
    pub sqpoll: bool,
    pub iopoll: bool,
    pub spdk: bool,
}

impl Default for IoHints {
    fn default() -> (r: Self)
        ensures
            !r.direct_io && !r.sqpoll && !r.iopoll && !r.spdk,
    {
        IoHints { direct_io: false, sqpoll: false, iopoll: false, spdk: false }
    }
}

/// A zero-filled buffer for large tensor workloads.
pub struct HugePageBuffer {
    pub data: Vec<u8>,
}

/// A source of huge-page buffers.
pub struct HugePagePool;

impl HugePagePool {
    /// A pool is always available.
    pub fn try_new() -> (r: Option<Self>)
        ensures
            r is Some,
    {
        Some(HugePagePool)
    }

    /// A zero-filled buffer of `size` bytes.
    pub fn allocate(&self, size: usize) -> (r: Option<HugePageBuffer>)
        ensures
            r matches Some(b) && b.data@ == Seq::new(size as nat, |_i: int| 0u8),
    {
        let mut data: Vec<u8> = Vec::with_capacity(size);
        let mut i: usize = 0;
        while i < size
            invariant
                i <= size,
                data@ == Seq::new(i as nat, |_i: int| 0u8),
            decreases size - i,
        {
            data.push(0u8);
            i = i + 1;
        }
        Some(HugePageBuffer { data })
    }
}


/// Appends gather until the buffer holds this many bytes.
pub const WRITE_BUFFER_LIMIT: usize = 1048576;

/// A write the backend performs on its file.
pub struct FileWrite {
    pub offset: u64,
    pub bytes: Vec<u8>,
}

/// `f` after writing `b` at `off`: a write past the end leaves a gap of
/// zero bytes; writing nothing changes nothing.
pub open spec fn written(f: Seq<u8>, off: int, b: Seq<u8>) -> Seq<u8> {
    let n = if f.len() >= off + b.len() { f.len() as int } else { off + b.len() };
    if b.len() == 0 {
        f
    } else {
        Seq::new(
        n as nat,
        |i: int|
            if off <= i < off + b.len() {
                b[i - off]
            } else if i < f.len() {
                f[i]
            } else {
                0u8
            },
        )
    }
}

/// `f` after the writes, in order.
pub open spec fn apply_writes(f: Seq<u8>, ws: Seq<FileWrite>) -> Seq<u8>
    decreases ws.len(),
{
    if ws.len() == 0 {
        f
    } else {
        written(apply_writes(f, ws.drop_last()), ws.last().offset as int, ws.last().bytes@)
    }
}

proof fn lemma_apply_one(disk: Seq<u8>, ws: Seq<FileWrite>)
    requires
        ws.len() == 1,
    ensures
        apply_writes(disk, ws) == written(disk, ws[0].offset as int, ws[0].bytes@),
{
    assert(ws.drop_last() =~= Seq::<FileWrite>::empty());
    assert(apply_writes(disk, ws.drop_last()) == disk);
}

proof fn lemma_apply_two(disk: Seq<u8>, ws: Seq<FileWrite>)
    requires
        ws.len() == 2,
    ensures
        apply_writes(disk, ws) == written(written(disk, ws[0].offset as int, ws[0].bytes@), ws[1].offset as int, ws[1].bytes@),
{
    lemma_apply_one(disk, ws.drop_last());
}

/// Two adjacent writes are one write of both.
pub proof fn lemma_written_adjacent(f: Seq<u8>, s: int, a: Seq<u8>, b: Seq<u8>)
    requires
        0 <= s,
    ensures
        written(written(f, s, a), s + a.len(), b) == written(f, s, a + b),
{
    assert(written(written(f, s, a), s + a.len(), b) =~= written(f, s, a + b));
}

/// What the writes leave behind: the bytes written last, and the rest of
/// the file.
pub proof fn lemma_read_back(f: Seq<u8>, off: int, b: Seq<u8>)
    requires
        0 <= off,
        b.len() > 0,
    ensures
        written(f, off, b).subrange(off, off + b.len()) == b,
        written(f, off, b).len() >= off + b.len(),
{
    assert(written(f, off, b).subrange(off, off + b.len()) =~= b);
}

/// The file position state of a backend: the length of the file as its
/// users see it, where the pending bytes go, and the pending bytes.
pub struct WriteBuffer {
    pub logical_len: u64,
    pub buffer_start: u64,
    pub buffer: Vec<u8>,
}

impl WriteBuffer {
    /// The pending bytes end where the file ends, and there are fewer of
    /// them than the limit.
    pub open spec fn wf(&self) -> bool {
        &&& self.buffer_start + self.buffer@.len() == self.logical_len
        &&& self.buffer@.len() < WRITE_BUFFER_LIMIT
    }

    /// The file as users see it, given what is on disk.
    pub open spec fn logical(&self, disk: Seq<u8>) -> Seq<u8> {
        written(disk, self.buffer_start as int, self.buffer@)
    }

    pub fn new(initial_len: u64) -> (r: Self)
        ensures
            r.wf(),
            r.logical_len == initial_len,
            r.buffer_start == initial_len,
            r.buffer@.len() == 0,
    {
        WriteBuffer { logical_len: initial_len, buffer_start: initial_len, buffer: Vec::new() }
    }

    /// The writes that put the pending bytes on disk; none remain pending.
    pub fn flush(&mut self) -> (ws: Vec<FileWrite>)
        requires
            old(self).wf(),
        ensures
            final(self).wf(),
            final(self).buffer@.len() == 0,
            final(self).logical_len == old(self).logical_len,
            final(self).buffer_start == old(self).logical_len,
            forall|disk: Seq<u8>| #[trigger] apply_writes(disk, ws@) == old(self).logical(disk),
    {
        let mut ws: Vec<FileWrite> = Vec::new();
        if self.buffer.len() == 0 {
            proof {
                assert forall|disk: Seq<u8>| #[trigger] apply_writes(disk, ws@) == old(self).logical(disk) by {}
            }
            return ws;
        }
        let mut pending: Vec<u8> = Vec::new();
        std::mem::swap(&mut pending, &mut self.buffer);
        let start = self.buffer_start;
        self.buffer_start = start + pending.len() as u64;
        let ghost gp = pending@;
        ws.push(FileWrite { offset: start, bytes: pending });
        proof {
            assert(ws@[0].bytes@ == gp);
            assert forall|disk: Seq<u8>| #[trigger] apply_writes(disk, ws@) == old(self).logical(disk) by {
                lemma_apply_one(disk, ws@);
            }
        }
        ws
    }

    /// Appends `data` at the end of the file; returns where it starts and
    /// the writes to perform now. Data of at least the limit is written at
    /// once, after the pending bytes; smaller data is buffered, and the
    /// buffer is written when it reaches the limit.
    pub fn append(&mut self, data: &[u8]) -> (r: (u64, Vec<FileWrite>))
        requires
            old(self).wf(),
            old(self).logical_len + data@.len() <= u64::MAX,
        ensures
            final(self).wf(),
            r.0 == old(self).logical_len,
            final(self).logical_len == old(self).logical_len + data@.len(),
            forall|disk: Seq<u8>|
                #[trigger] final(self).logical(apply_writes(disk, r.1@)) == written(old(self).logical(disk), r.0 as int, data@),
    {
        let ghost s0 = *self;
        let off = self.logical_len;
        self.logical_len = off + data.len() as u64;
        let mut ws: Vec<FileWrite> = Vec::new();
        if data.len() >= WRITE_BUFFER_LIMIT {
            if self.buffer.len() > 0 {
                let mut pending: Vec<u8> = Vec::new();
                std::mem::swap(&mut pending, &mut self.buffer);
                ws.push(FileWrite { offset: self.buffer_start, bytes: pending });
            }
            let ghost n0 = ws@.len();
            proof {
                assert(n0 > 0 ==> ws@[0].offset == s0.buffer_start && ws@[0].bytes@ == s0.buffer@);
            }
            ws.push(FileWrite { offset: off, bytes: vstd::slice::slice_to_vec(data) });
            self.buffer_start = off + data.len() as u64;
            proof {
                assert(ws@[n0 as int].offset == off && ws@[n0 as int].bytes@ == data@);
                assert forall|disk: Seq<u8>| #[trigger] self.logical(apply_writes(disk, ws@)) == written(
                    s0.logical(disk),
                    off as int,
                    data@,
                ) by {
                    if n0 > 0 {
                        lemma_apply_two(disk, ws@);
                    } else {
                        lemma_apply_one(disk, ws@);
                    }
                }
            }
            return (off, ws);
        }
        self.buffer.extend_from_slice(data);
        proof {
            assert forall|disk: Seq<u8>| #[trigger] self.logical(disk) == written(s0.logical(disk), off as int, data@) by {
                lemma_written_adjacent(disk, s0.buffer_start as int, s0.buffer@, data@);
                assert(self.buffer@ =~= s0.buffer@ + data@);
            }
        }
        if self.buffer.len() >= WRITE_BUFFER_LIMIT {
            let ghost s1 = *self;
            let mut pending: Vec<u8> = Vec::new();
            std::mem::swap(&mut pending, &mut self.buffer);
            let start = self.buffer_start;
            self.buffer_start = start + pending.len() as u64;
            let ghost gp = pending@;
            ws.push(FileWrite { offset: start, bytes: pending });
            proof {
                assert(ws@[0].bytes@ == gp && ws@[0].offset == start);
                assert forall|disk: Seq<u8>| #[trigger] self.logical(apply_writes(disk, ws@)) == written(
                    s0.logical(disk),
                    off as int,
                    data@,
                ) by {
                    lemma_apply_one(disk, ws@);
                    assert(s1.logical(disk) == written(s0.logical(disk), off as int, data@));
                }
            }
        }
        (off, ws)
    }
}


impl WriteBuffer {
    /// Writes `data` at `offset` after putting the pending bytes on disk;
    /// returns the writes to perform. The file grows to cover the write.
    pub fn write_at(&mut self, offset: u64, data: &[u8]) -> (ws: Vec<FileWrite>)
        requires
            old(self).wf(),
            offset + data@.len() <= u64::MAX,
        ensures
            final(self).wf(),
            final(self).buffer@.len() == 0,
            final(self).logical_len == if old(self).logical_len >= offset + data@.len() {
                old(self).logical_len as int
            } else {
                offset + data@.len()
            },
            forall|disk: Seq<u8>|
                #[trigger] final(self).logical(apply_writes(disk, ws@)) == written(old(self).logical(disk), offset as int, data@),
    {
        let ghost s0 = *self;
        let mut ws = self.flush();
        let ghost fw = ws@;
        ws.push(FileWrite { offset, bytes: vstd::slice::slice_to_vec(data) });
        let end = offset + data.len() as u64;
        if end > self.logical_len {
            self.logical_len = end;
        }
        if end > self.buffer_start {
            self.buffer_start = end;
        }
        proof {
            assert(ws@.drop_last() =~= fw);
            assert forall|disk: Seq<u8>| #[trigger] self.logical(apply_writes(disk, ws@)) == written(
                s0.logical(disk),
                offset as int,
                data@,
            ) by {
                assert(apply_writes(disk, fw) == s0.logical(disk));
            }
        }
        ws
    }

    /// A read of `len` bytes at `offset` must first put the pending bytes
    /// on disk: it reaches where they start.
    pub fn must_flush_before_read(&self, offset: u64, len: usize) -> (r: bool)
        requires
            offset + len <= u64::MAX,
        ensures
            r == (offset + len > self.buffer_start),
    {
        offset + len as u64 > self.buffer_start
    }

    /// Sets the file length to `len`; pending bytes are dropped.
    pub fn truncate(&mut self, len: u64)
        ensures
            final(self).wf(),
            final(self).buffer@.len() == 0,
            final(self).buffer_start == len,
            final(self).logical_len == len,
    {
        self.buffer = Vec::new();
        self.buffer_start = len;
        self.logical_len = len;
    }
}

/// A read that ends before the pending bytes sees on disk what users see.
pub proof fn lemma_read_without_flush(b: WriteBuffer, disk: Seq<u8>, offset: int, len: int)
    requires
        0 <= offset,
        0 <= len,
        offset + len <= b.buffer_start,
        offset + len <= disk.len(),
    ensures
        b.logical(disk).subrange(offset, offset + len) == disk.subrange(offset, offset + len),
{
    assert(b.logical(disk).subrange(offset, offset + len) =~= disk.subrange(offset, offset + len));
}

/// What an append wrote reads back.
pub proof fn lemma_append_then_read(b0: WriteBuffer, b1: WriteBuffer, disk: Seq<u8>, ws: Seq<FileWrite>, off: u64, data: Seq<u8>)
    requires
        data.len() > 0,
        b1.logical(apply_writes(disk, ws)) == written(b0.logical(disk), off as int, data),
    ensures
        b1.logical(apply_writes(disk, ws)).subrange(off as int, off + data.len()) == data,
{
    lemma_read_back(b0.logical(disk), off as int, data);
}

} // verus!
