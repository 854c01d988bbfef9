//! Verified retrieval logic of a code search engine.

pub mod components;
pub mod context_enrichment;
pub mod digraph;
pub mod enrichment_laws;
pub mod graph_laws;
pub mod merge_laws;
pub mod mmr;
pub mod mmr_laws;
pub mod multi_hop;
pub mod ordering;
pub mod path_laws;
pub mod path_query;
pub mod ranking;
pub mod ranking_laws;
pub mod renaming;
pub mod retrieval;
pub mod retrieval_laws;
pub mod scope_laws;
pub mod score;
pub mod score_laws;
pub mod search;
pub mod symbol_laws;
pub mod text;
pub mod text_laws;
pub mod types;
