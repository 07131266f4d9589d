# mini-hybrid-retrieval

A small in-memory retrieval engine: full-text search over an inverted index
with BM25 ranking, nearest-neighbour search over document embeddings,
breadth-first search over a knowledge graph, and hybrid search that fuses
the text and vector rankings by reciprocal rank fusion, optionally limited
to the documents linked to an entity and its graph neighbours.

## Layout

- `src/` — the verified library (Verus). Every function in it carries a
  `requires`/`ensures` contract that Verus proves, except the four thin
  wrappers around std text functions in `unicode.rs`, whose contracts are
  trusted; `app/` is ordinary Rust and is not verified.
  - `fst.rs` — a finite state transducer from byte strings to `u64`: the
    builder, exact lookup and prefix search.
  - `text.rs`, `text_index.rs` — tokenization, snippets, and the inverted
    index (document ids, posting lists sorted by document, the term
    dictionary, and query term resolution by exact and prefix match).
  - `wand.rs` — posting cursors and the integer steps of a WAND traversal,
    and the grouping of postings by document for an exhaustive scan.
  - `graph.rs` — the bidirectional adjacency of triples and breadth-first
    search with hop counts; `candidates.rs` — the entity filter of hybrid
    search.
  - `fusion.rs`, `grouping.rs` — the rank bookkeeping of reciprocal rank
    fusion.
  - `loader.rs` — the vector dimension check on loaded documents.
  - `byte_order.rs`, `stable_sort.rs`, `unicode.rs` — byte order, stable
    sorting, and the few std text primitives the library trusts.
- `app/` — the command-line program: JSON loading, the floating-point
  scoring (BM25, cosine similarity, fused scores, hop decay), and the
  engine that ties the indexes together.
- `tests/` — tests of the library.
