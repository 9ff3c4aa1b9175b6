# tpx

A storage format for deep-learning tensors, written in Verus: every
function under `src/` carries a `requires`/`ensures` contract that Verus
proves, and the properties the format relies on are stated as proof
functions (`lemma_*`).

## Layout

- `src/` — the verified library.
  - `types.rs`, `wire.rs` — identifiers, errors, little-endian helpers.
  - `header.rs`, `footer.rs`, `chunk.rs`, `record.rs` — the on-disk
    layout: file header, 24-byte checkpoint footer and its backward scan,
    chunk headers and block tables, framed chunk records.
  - `filter/` — byte shuffle, bit shuffle, delta-zigzag, each with its
    inverse.
  - `codec/` — raw, LZ4, Zstandard (plain and with a trained dictionary)
    and the Chimp128 float codec over a bit stream; codec choice.
  - `hash.rs` — xxHash and CRC32 through their crates.
  - `dedup/` — content-defined chunking and the reference-counted
    content store.
  - `index/` — the adaptive radix tree, the table of contents, the SuRF
    prefix filter and the radix spline.
  - `attrs.rs`, `version.rs` — tensor attributes and version chains with
    retention.
  - `io.rs`, `checkpoint.rs`, `router.rs`, `engine.rs`, `batch.rs` — the
    write buffer, checkpoint decisions, key routing, the per-shard state
    and queries of the engine, batch planning and read-ahead history.
  - `baseline.rs` — the byte layouts of the formats used for comparison.
- `tests/` — tests of the library on concrete values.
- `app/` — the command-line tool and everything that touches files,
  threads, locks, clocks or floating point.
