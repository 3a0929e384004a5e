//! Code splitting for a bundler: partitions a module dependency graph into
//! chunks that load together.

pub mod async_split;
pub mod chunk;
pub mod chunk_graph;
pub mod coverage;
pub mod example;
pub mod module_graph;
pub mod parallel_limit;
pub mod placement;
pub mod placement_key;
pub mod pruning;
pub mod reachability;
pub mod roots;
pub mod seeding;
pub mod shared_chunks;
pub mod splitter;
pub mod traversal;
