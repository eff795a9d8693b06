# btree6

A B+Tree keyed by integers, text or raw bytes, with values of raw bytes.
Nodes live in pages of a page store; leaves are linked left to right, so
scans and range queries walk the leaf chain.

The library is written in Verus and proved against its contracts:

- `src/key.rs` — keys, their order (variant first, then value; text by its
  UTF-8 bytes) and the comparison that decides it.
- `src/node.rs`, `src/codec.rs` — nodes and the byte format a page stores
  them in, with a proof that decoding gives back what encoding wrote.
- `src/page.rs` — pages: header, free-space offset, CRC-32 checksum.
- `src/storage/` — the page-store trait, the in-memory store, and the store
  of a tree file's pages.
- `src/shape.rs`, `src/chain.rs` — the mathematical model of a tree: its
  shape, key ranges, lookup by routing, the leaf chain and the records read
  along it.
- `src/insert_proofs.rs`, `src/delete_proofs.rs` — how splits, borrows and
  merges keep a tree well formed and keep what it holds.
- `src/fill.rs` — how full a node may be for a given order, and how splits,
  borrows and merges keep every node within it.
- `src/tree.rs` — `BPlusTree`: insert, get, delete with rebalancing, scan,
  range; every operation keeps the tree's invariant and is specified over
  the map of key-value pairs the tree holds.
- `src/cursor.rs` — a cursor over the records in key order.
- `src/laws.rs` — properties across operations (read after write, counts,
  uniqueness of the key-ordered listing, checksums).

`app/` holds the command-line tool and the file I/O of file-backed trees:
it reads a file's page slots into a `FileStore` and writes the pages back
with bincode.
