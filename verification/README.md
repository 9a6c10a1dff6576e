# rsearch

Local full-text search over a directory tree: an inverted index ranked with
Okapi BM25, kept up to date incrementally, and a vim-style terminal screen
to search it.

- `src/` is the library, verified with Verus: the tokenizer, the inverted
  index with tombstoning (`index.rs`), the integer side of BM25 ranking
  (`bm25.rs`), the bookkeeping of an incremental refresh and the index file
  location (`storage.rs`), what counts as a text file (`walker.rs`), and the
  decisions of the search screen: keys, selection, result previews and
  status lines (`app.rs`).
- `app/` is the program around it: argument handling, walking the tree,
  reading files, the `bincode` index file, BM25's floating-point scores, and
  the `ratatui`/`crossterm` screen.
- `tests/` exercises the library.
