# vera_core

Verified retrieval logic of a code search engine, written in Verus.

- `src/multi_hop.rs`: the symbol graph and its traversals, over the graph theory of
  `digraph.rs`, the algorithms of `search.rs`, `components.rs` and `ordering.rs`, and
  `renaming.rs`, which carries their results from positions to names. What holds of
  all of them together stands in `graph_laws.rs`.
- `src/context_enrichment.rs`: parent scopes and the merging of sibling chunks, with
  its laws in `enrichment_laws.rs`.
- `src/retrieval.rs`: filters, subqueries, fusion and the read cap.
- `src/ranking.rs`, `src/path_query.rs`, `src/mmr.rs`: the order of results.
- `src/score.rs`, `src/text.rs`, `src/types.rs`: scores by their bits, text by its
  characters, and the results themselves.
- `app/`: floating-point arithmetic and the metadata on disk.
- `tests/`: the library on concrete values.

Ranking asks what implements `Heuristics`, and selection and filters the functions handed in.
Their contracts say what they make of whatever comes back.
