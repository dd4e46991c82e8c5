//! Incremental reconstruction of two graphs over a running symbolic-execution
//! host: a lineage graph of fork/merge relationships between execution states
//! and a control-flow graph of basic-block transitions, together with the
//! snapshot messages that stream both graphs to an out-of-process observer.

mod cmd;
mod codec;
mod disjoint_sets;
mod graph;
mod http;
mod small_set;
mod snapshot;
mod tracker;

pub use cmd::Cmd;
pub use codec::{
    encode_frame, encode_message, lemma_frame_self_delimiting, split_frame,
};
pub use disjoint_sets::DisjointSets;
pub use graph::Graph;
pub use http::{http_step, HttpStep, MAX_HTTP_HOPS};
pub use small_set::SmallU64Set;
pub use snapshot::{GraphIpc, GraphIpcBuilder, IpcError, IpcMessage};
pub use tracker::{
    lemma_fork_inherits_position, lemma_fork_preserves_lineage, lemma_generation_counting,
    lemma_merge_additive, ContractViolation, GenEntry, StateTracker, MAX_STATES, NO_PREDECESSOR,
};
