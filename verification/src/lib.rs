//! Verified core of an audio-graph engine: the scheduling of node graphs,
//! node signatures and de-duplication, and the sample-interval bookkeeping
//! of sequencers.
use vstd::prelude::*;

pub mod generator;
pub mod graph;
pub mod input_buffer;
pub mod media;
pub mod node;
pub mod node_signature;
pub mod scheduler;
pub mod sequence;

verus! {

} // verus!
