//! A discrete hypergraph rewriting simulator: a sparse hypergraph with degree
//! bookkeeping evolves step by step under randomly selected local rewrite rules,
//! with periodic compaction that prunes orphaned node ids.

pub mod driver;
pub mod hypergraph;
pub mod model;
pub mod rules;
