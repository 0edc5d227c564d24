//! unbase: a causal, coordination-free distributed data-persistence framework.
//!
//! This crate holds the logic of unbase as verified Rust: the memo data model
//! and the slab's memo storage, causal heads (`MemoRefHead`), projection of
//! values, relations and edges along the causal history, the query context
//! stash with its compaction, buffer conversions and the network buffer,
//! transports, slab references and a simulated network, the decisions of a
//! slab's agent, and the small codecs used by the persistent slab store.

pub mod error;
pub mod memorefhead;
pub mod slab;
pub mod network;
pub mod causal;
pub mod projection;
pub mod stash;
pub mod text;
pub mod context;
pub mod buffer;
pub mod agent;
pub mod store;
pub mod netbuf;
pub mod simulator;
pub mod slabref;
