# sylph

The storage and indexing core of Sylph, an experimental full-text database,
written in Verus. The library's functions in `src/` carry contracts that Verus
proves; the few calls into the standard library, `ahash` and `rkyv` go through
small trusted wrappers whose contracts are stated, not proved.

Layout:

- `src/config.rs`: the document-bucket configuration and the binary search that
  locates an article in its bucket.
- `src/storage/`: appending documents to the active bucket (deciding when it is
  flushed) and framing a bucket's contents as bytes with rkyv.
- `src/tokenizer.rs`: splitting text into sentences and words, mapping words to
  ids through an `AHashMap` vocabulary, and producing 1-, 2- and 3-grams.
- `src/index/`: the flat trie nodes for terms and n-grams, the shared layout
  lemmas, and the gap-compressed posting list (`GapVec`).
- `app/`: file I/O, the rkyv/thiserror derives on copies of the library's types,
  and the loop that writes a flushed bucket to disk.
- `tests/`: tests run against the compiled library with the real outside crates.
