//! A persistent directed property graph: nodes and edges that carry labels of
//! the caller's choosing, an overlay of annotations per node, and a byte
//! encoding of the whole state that decodes back to the same state.
//!
//! - `graph`: the graph itself, `AppGraph`, with its nodes, edges and ids.
//! - `overlay`: the annotations, a set of texts under each key of a node.
//! - `codec`: the stored form, framed and checksummed, and the laws of the
//!   round trip.
//! - `label`: what a label has to offer to be stored and shown.
//! - `wire`, `assoc`, `order`, `text`: how values become bytes, and the
//!   ordered maps and texts that the overlay is made of.
//! - `topology`, `clock`: the two places where the library leans on other
//!   crates, `petgraph` for the shape of the graph and `time` for timestamps.
//! - `cache`, `data`: a small cache, and the traits of stores and models.

pub mod assoc;
pub mod cache;
pub mod clock;
pub mod codec;
pub mod data;
pub mod graph;
pub mod label;
pub mod order;
pub mod overlay;
pub mod text;
pub mod topology;
pub mod wire;
