# rockduck

The storage core of a columnar database, written in Verus: every function states
what it returns or changes, and Verus proves it.

Rows live in segments. A segment is not rewritten when a row changes. Deletes go
to masks, updates to masks and delta stores, and newer versions of cells go
through three layers: a store in memory, patch files guarded by ranges of rows,
and frozen patches. Reads put the layers together; background work merges the
patches of a guard and moves patches down.

## Layout

- `src/segment` - what belongs to one segment: file names, metadata, column
  statistics and encodings, delete and update masks, sparse primary-key indexes,
  projections, the multi-version delta store, and what a transaction sees.
- `src/storage` - granules with their statistics, zone maps and Bloom filters,
  choice of integer and decimal encodings, column files and files for exchange,
  mapped files and open files.
- `src/storage/delta` - the layers of deltas: cells and patches, the merger, the
  stores of the three layers, the stack that reads them together, and the engine
  that decides what is flushed and compacted.
- `src/column.rs`, `src/buffers.rs`, `src/ipc.rs`, `src/ipc_layout.rs` - columns
  of typed values, how Arrow lays them in buffers, files in Arrow's form, and
  what is asked of such a file before it is read.
- `src/ordmap.rs`, `src/sums.rs`, `src/codec.rs`, `src/text.rs`,
  `src/numeral.rs`, `src/ratio.rs` - ordered maps and sums over maps, bytes,
  texts, numerals and fractions.
- `src/bitmap.rs`, `src/roaring_set.rs`, `src/bits.rs` - bitmaps and bit vectors
  of other crates, with what is believed of them.
- `app` - files, threads, floating-point estimates and the Vortex format.
- `tests` - tests of the library from outside.

## What is believed

Calls into other crates stand in small functions marked
`#[verifier::external_body]`. The comment above each says which function it calls
and what is taken for granted of it. Nothing else is taken for granted.

Fractions that decide something are held as exact ratios, and floating-point
values as their bit patterns, so that no decision of the library rests on
rounding.
