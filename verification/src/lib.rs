//! Graph data science library: graph types, traversals, validation,
//! builders, generators and related algorithms, with machine-checked contracts.

pub mod text;
pub mod error;
pub mod exceptions;
pub mod walks;
pub mod types;
pub mod traversal;
pub mod validation;
pub mod builders;
pub mod generators;
pub mod subgraphs;
pub mod serialization;
pub mod mst;
pub mod rng;
pub mod traits;
pub mod laws;
pub mod metrics;
pub mod links;
pub mod components;
pub mod layout;
pub mod records;
pub mod hops;
pub mod retain;
pub mod incident;
pub mod matrix;
pub mod minheap;
pub mod prim;
pub mod graphml;
pub mod rewiring;
pub mod ascii;
pub mod lines;
pub mod shortest;
pub mod sparse;
