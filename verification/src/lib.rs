//! A personal knowledge-graph engine: entities, typed relations, and the
//! notes ("memories") that mention them, with alias resolution, entity
//! merging, relevance-scored retrieval, time normalization, and a defensive
//! repair pass for truncated JSON payloads.

pub mod attrs;
pub mod ingest;
pub mod modelcfg;
pub mod naming;
pub mod repair;
pub mod retrieval;
pub mod store;
pub mod timenorm;
pub mod text;

