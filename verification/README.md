# pocket_huim

High-utility itemset mining with the core written in Verus and proved against its
contracts. The miners take the transactions in memory and account for the
structures they build with a memory guard; the page store (checksummed, optionally
LZ4-compressed pages), the chunker that packs transactions into pages and the
buffer pool are separate components of the library, not yet used by the miners.

## Layout

- `src/` — the verified library.
  - `types/` — transactions, itemsets, utility lists, page metadata.
  - `storage/` — page layout with checksums, LZ4 page compression, the chunk
    store interface, little-endian encoding.
  - `preprocessing/` — the SPMF reader, TWU filtering, the chunker that packs
    filtered transactions into pages, and the synthetic dataset generator.
  - `buffer_pool/` — frames, pinning, eviction (LRU), metrics and the pool
    itself, over a `dashmap` of frames.
  - `mining/` — the miners (Two-Phase, HUP-Miner, TKU, UP-Growth, UP-Growth+,
    IHUP, HUI-Trie, EFIM-Closed, HUIM-MMU and the miners that delegate to
    Two-Phase), the utility-list join, the pair structure (EUCS), the memory
    guard, exact utilities, dataset statistics and the lemmas behind them.
  - `experiment/` — comparison of result listings, experiment configuration.
  - `prefetch/`, `progress.rs`, `config.rs` — supporting types.
- `tests/` — tests of the library on concrete values.
- `app/` — the command-line program: argument handling and the interactive
  wizard, file I/O, the live dashboard, the floating-point eviction and
  prefetch scoring, and experiment reports.

## What is proved

Among others: Two-Phase reports exactly the high-utility itemsets of a
database without repeated items whose utilities are non-negative and covered by
the transaction utilities (for a positive threshold, when its memory guard
admits the array of transaction utilities), and succeeds on every such database;
the miners
report exact utilities (HUP-Miner and TKU when no transaction repeats an item,
EFIM-Closed when every transaction lists its items in increasing order);
in such a database HUP-Miner reports every single item and every pair whose
utility reaches the threshold, and TKU every such single item; TKU's ranking of
capacity `k`, offered `n` itemsets in turn, keeps `min(k, n)` of them, and each
one let go ranks no higher than every one kept;
HUIM-MMU covers every transaction with its windows and reports every itemset
that is high-utility within a window; page encodings, utility-list bodies and
transaction entries decode to what was encoded; the buffer pool never evicts a
pinned page and admits a page only when its bytes fit the budget.
