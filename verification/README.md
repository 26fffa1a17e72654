# supertable

The write side of a table that keeps its rows in superfiles on object storage: a
columnar file with a vector index and a full-text index inside. The library is
written in Verus, so every function in `src/` is proved against its contract.

- `writer`, `mutation`, `wal_store`, `log_laws`: the single writer, its buffered
  rows, updates and deletes, and the log that a mutation lives in until it is
  carried out.
- `fanout`, `cells`, `packed`, `rows`, `superfile`, `open_ranges`: how the rows of
  a commit are divided into superfiles, and what the manifest says of each.
- `publish`: the optimistic commit, with its retries.
- `drain`, `drain_run`, `drain_finish`, `serving`: moving rows from user
  superfiles into the cells of the hidden index, and what serves them.
- `split`, `split_pass`, `split_run`, `families`, `superseded`: splitting cells
  that have grown too large; `split_laws` shows that no row is lost on the way.
- `slow_state`, `centroids`: the state of a generation and its centroid section.
- `probe_laws`: how many cells a search has to probe, measured anew.
- `arith`, `order`, `text`, `wire`, `hashing`, `cell_map`, `shared_bytes`: what the
  others are built on.

`app/` is ordinary Rust around the library: object storage, the asynchronous
loops, the JSON documents, and whatever works on floating-point vectors. It asks
an engine, given as a trait, for everything that only the index can do.

What the proofs rest on besides Verus itself stands in `text`, `hashing`, `rows`
and `shared_bytes`, one small function for each outside call.
