//! Verified data structures and layout algorithms for diagram processing.
use vstd::prelude::*;

pub mod art;
pub mod seq_sum;
pub mod egraph_ordering;
pub mod succinct;
pub mod quotient_filter;
pub mod adapton;
pub mod cache_oblivious;
pub mod egraph_crossing;
pub mod taxonomy;
pub mod pressure;
pub mod budget;
pub mod degradation;
pub mod text;
pub mod diagnostics;
pub mod graph_ir;
pub mod model;
pub mod directed;
pub mod config;
pub mod lens;
pub mod capability;
pub mod trace_ids;
pub mod ir_queries;
pub mod centrality;
pub mod epoch;
pub mod style;
pub mod cascade;

verus! {

} // verus!
