//! When to checkpoint, and the block a checkpoint appends: the encoded table
//! of contents, zero padding, and a footer pointing back at the table.
use vstd::prelude::*;
use crate::types::{FOOTER_SIZE, MAGIC_END_CHECKPOINT, MAGIC_END_FINAL};
use crate::footer::{Footer, footer_bytes, footer_at, footer_scan, footer_valid, parse_footer, lemma_footer_round_trip};
use crate::hash::{xxh64, spec_xxh64};
use crate::wire::push_all;

verus! {

/// The alignment a checkpoint block ends on.
pub const CHECKPOINT_ALIGN: u64 = 4096;

/// Whether to checkpoint: enough bytes were written since the last one, or
/// the interval has passed and something was written.
pub fn should_checkpoint(written: u64, interval_bytes: u64, elapsed_ms: u64, interval_ms: u64) -> (r: bool)
    ensures
        r == (written >= interval_bytes || (elapsed_ms >= interval_ms && written > 0)),
{
    if written >= interval_bytes {
        return true;
    }
    elapsed_ms >= interval_ms && written > 0
}

/// Zero bytes that bring the table plus a footer to a multiple of 4096.
pub open spec fn checkpoint_padding(toc_len: nat) -> nat {
    let rem = (toc_len + FOOTER_SIZE) % 4096;
    if rem == 0 { 0 } else { (4096 - rem) as nat }
}

/// The footer of a checkpoint whose table starts at `toc_offset`.
pub open spec fn checkpoint_footer(toc: Seq<u8>, toc_offset: u64, total_chunks: u32, is_final: bool) -> Footer {
    Footer {
        toc_offset,
        total_chunks,
        checksum: spec_xxh64(toc, toc_offset),
        magic_end: if is_final { MAGIC_END_FINAL } else { MAGIC_END_CHECKPOINT },
    }
}

/// The block a checkpoint appends.
pub open spec fn checkpoint_image(toc: Seq<u8>, toc_offset: u64, total_chunks: u32, is_final: bool) -> Seq<u8> {
    toc + Seq::new(checkpoint_padding(toc.len()), |_i: int| 0u8) + footer_bytes(
        checkpoint_footer(toc, toc_offset, total_chunks, is_final),
    )
}

/// The footer and the block of a checkpoint of the table `toc`, to be
/// appended at `toc_offset`.
pub fn checkpoint_block(toc: &[u8], toc_offset: u64, total_chunks: u32, is_final: bool) -> (r: (Footer, Vec<u8>))
    requires
        toc@.len() + 4096 + FOOTER_SIZE <= usize::MAX,
    ensures
        r.0 == checkpoint_footer(toc@, toc_offset, total_chunks, is_final),
        r.1@ == checkpoint_image(toc@, toc_offset, total_chunks, is_final),
        (r.1@.len() as int) % 4096 == 0,
{
    let checksum = xxh64(toc, toc_offset);
    let footer = Footer::new(toc_offset, total_chunks, checksum, !is_final);
    let footer_image = footer.serialize();
    let raw_len = toc.len() + FOOTER_SIZE;
    let rem = raw_len % 4096;
    let pad_len: usize = if rem == 0 { 0 } else { 4096 - rem };
    let mut block: Vec<u8> = Vec::new();
    push_all(&mut block, toc);
    let mut i: usize = 0;
    while i < pad_len
        invariant
            i <= pad_len,
            block@ == toc@ + Seq::new(i as nat, |_i: int| 0u8),
        decreases pad_len - i,
    {
        block.push(0u8);
        i = i + 1;
        assert(block@ =~= toc@ + Seq::new(i as nat, |_i: int| 0u8));
    }
    push_all(&mut block, footer_image.as_slice());
    proof {
        assert(footer.magic_end@ == checkpoint_footer(toc@, toc_offset, total_chunks, is_final).magic_end@);
        assert(footer.magic_end =~= checkpoint_footer(toc@, toc_offset, total_chunks, is_final).magic_end);
        crate::wire::lemma_le_round_trips();
        assert(footer_bytes(footer).len() == FOOTER_SIZE);
        let t = toc@.len() as int;
        assert((t + pad_len + FOOTER_SIZE) % 4096 == 0) by (nonlinear_arith)
            requires
                rem == (t + FOOTER_SIZE) % 4096,
                pad_len == if rem == 0 { 0 } else { 4096 - rem },
                t >= 0,
        ;
    }
    (footer, block)
}

/// A file that ends with a checkpoint block: the scan for the latest footer
/// finds the block's footer, which points back at the table, and the bytes
/// from the table to the footer are the table followed by zeros.
pub proof fn lemma_checkpoint_found(prefix: Seq<u8>, toc: Seq<u8>, total_chunks: u32, is_final: bool, chunk_align: u32)
    requires
        toc.len() > 0,
        prefix.len() <= u64::MAX,
    ensures
        ({
            let off = prefix.len() as u64;
            let data = prefix + checkpoint_image(toc, off, total_chunks, is_final);
            let footer_off = data.len() - FOOTER_SIZE;
            &&& footer_scan(data, data.len() as int, chunk_align) == Some(footer_off)
            &&& parse_footer(data.subrange(footer_off, footer_off + FOOTER_SIZE)) == checkpoint_footer(
                toc,
                off,
                total_chunks,
                is_final,
            )
            &&& data.subrange(off as int, footer_off) == toc + Seq::new(checkpoint_padding(toc.len()), |_i: int| 0u8)
        }),
{
    let off = prefix.len() as u64;
    let f = checkpoint_footer(toc, off, total_chunks, is_final);
    let data = prefix + checkpoint_image(toc, off, total_chunks, is_final);
    lemma_footer_round_trip(f);
    crate::wire::lemma_le_round_trips();
    let fb = footer_bytes(f);
    assert(fb.len() == FOOTER_SIZE);
    let footer_off = data.len() - FOOTER_SIZE;
    assert(data.subrange(footer_off, footer_off + FOOTER_SIZE) =~= fb);
    assert(footer_valid(f)) by {
        if is_final {
            assert(f.magic_end@ == MAGIC_END_FINAL@);
        } else {
            assert(f.magic_end@ == MAGIC_END_CHECKPOINT@);
        }
    }
    assert(footer_at(data, footer_off));
    assert(data.subrange(off as int, footer_off) =~= toc + Seq::new(checkpoint_padding(toc.len()), |_i: int| 0u8));
}

} // verus!
