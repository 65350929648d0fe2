# mini-lsm

A log-structured merge tree, written in Rust and verified with Verus.

Writes go into a memtable, a skip list in memory, and into its log. A full memtable is frozen,
and later flushed to a sorted string table. Compactions merge tables, by one of three strategies
(simple leveled, tiered, leveled) or all at once. Reads merge what the memtables and the tables
hold; the newest value of a key counts, and an empty value stands for a deletion.

## Layout

- `src/` is the library. Verus proves the contract of every function in it, except of those that
  only call an outside crate.
  - `key`, `bound`, `codec`, `hashing`: versioned keys and their order, ranges, byte order,
    checksums and fingerprints
  - `block`, `table`: the file formats, and reading and writing them
  - `iterators`, `lsm_iterator`: merging, and what a reader sees at a timestamp
  - `versions`, `mem_table`, `wal`, `manifest`: memtables and the records on disk
  - `compact`: what the strategies decide, and which versions a compaction keeps
  - `lsm_storage`: the engine; its submodules hold the operations and the laws about them
  - `mvcc`: transactions and the watermark
- `app/` is the engine on disk: files, locks, threads, and the comparisons that are made in
  floating point. It refuses to write a key or a value that no block can hold.
- `tests/` runs the library.

## What is proved

The contracts speak of sequences of entries. `LsmStorageInner::find` is the value that the engine
holds for a key; `get` and `scan` are proved to give what it says. The functions whose names begin
with `law_` state what holds of several operations together, among them:

- a write is read back, other keys keep their values, and a scan of plain user keys shows what
  gets show;
- freezing and flushing a memtable, be it an empty one, do not change what is read;
- compacting an orderly engine of plain user keys, whose tables are shorter than 4 GiB and whose
  ids are not used up, does not change what is read: by the simple strategy, if the engine has the
  levels that it asks for, and by tiers; by levels where no merged table of L0 is put below a table
  that holds one of its keys;
  all at once where the levels below the first one are empty;
- versions that a reader at or above the watermark sees are seen after any compaction;
- under the same conditions, writing, freezing, flushing and compacting keep the engine orderly:
  well-formed, with no table in two places; opening it again does so too, with logs where no table
  has a larger id than the memtable;
- a log gives back what was written to it, and the manifest leads back to the layout of the engine;
- a table that is opened again holds what it held, and an engine of plain user keys that is opened
  again, from its manifest, its tables and its logs, tells what it told.

What is not proved is stated where it is assumed: the contracts of the items marked `external_body`
are believed, and say what the crates `bytes`, `crc32fast`, `farmhash` and `crossbeam-skiplist` do.
