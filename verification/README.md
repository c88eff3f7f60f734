# basalt_engine

The storage engine of the Basalt database: a copy-on-write B+-tree over
fixed-size pages, a write-ahead log with redo recovery, and snapshot reads
with deferred page reclamation.

The library under `src/` is written in Verus and verified:

- `crc32c`: CRC-32C (Castagnoli), proved equal to the bitwise definition.
- `le`: little-endian fields inside byte buffers.
- `order`: byte-wise key order.
- `node`: the slotted page layout of tree nodes; encoding and decoding are
  proved inverse.
- `tree_model`: what a set of pages means as a tree (its entries in key
  order), and the laws of lookup, insert, delete and range over it.
- `btree`: the copy-on-write B+-tree over a `NodeStore`. Every operation is
  proved against `tree_model` for a store that meets the trait's contract
  (as `mem_store` does): the result when it succeeds, which of the tree's
  own errors can come and on exactly which pages, which pages each
  operation writes and from which base page, and that old roots keep their
  contents. Whether a store's reads and writes succeed is the
  store's affair.
- `mem_store`: a `NodeStore` kept in memory.
- `pager`: the data file's format and every free-list decision.
- `mem_pager`: the pager over a data file held in memory.
- `wal`: log records, page diffs, and what redo recovery takes from a log.
- `engine`: generations, open snapshots, pages awaiting reclamation and the
  dirty-page table.
- `text`: decimal text of numbers for error messages.

`app/` holds the database on real files (`<prefix>.data.bin`,
`<prefix>.log.bin`): it performs the reads, writes and syncs the library
decides on. Its file-backed node stores are ordinary Rust that describe no
page map, so no proof about the tree covers them; the tests run the same
tree code over `mem_store`. `tests/` exercises the library.
