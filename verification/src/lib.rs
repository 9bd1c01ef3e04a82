//! An incremental recomputation engine.
//!
//! Application code builds a directed acyclic graph of computations over
//! mutable input cells. When inputs change, the engine recomputes only the
//! downstream values that are strictly necessary, in order of height.
//!
//! The graph keeps a record for every computation ([`node`]) in a store of
//! slots that are reused through a free list ([`graph`], [`free_list`]), and
//! the nodes that wait for recalculation in a queue by height ([`queue`]).
//! A node that reads another one stands higher than it; raising heights is
//! also how cycles are found ([`height`]). The edges between nodes are the
//! clean parents, along which the news of a change travels upwards
//! ([`dirty`]), and the necessary children, along which demand travels
//! downwards ([`node_guard`], [`context_mut`]).
//!
//! A computation implements [`expert::AnchorCore`] and asks for its inputs
//! through an [`expert::UpdateContext`]. The [`engine`] polls computations
//! until nothing is queued. The computations that come with the library are
//! inputs ([`variable`]), constants ([`constant`]) and the nodes made by
//! `map`, `map_mut`, `refmap`, `cutoff` and `then` ([`map`], [`map_mut`],
//! [`refmap`], [`cutoff`], [`then_node`]); [`computation`] is their sum, and
//! [`builder`] mounts them.
//!
//! What holds of the engine as a whole is stated in [`laws`], and what a
//! read returns for a node that asks nothing, and for a map over such a
//! node, in [`reading`].

pub mod anchor;
pub mod builder;
pub mod collections;
pub mod computation;
pub mod constant;
pub mod context;
pub mod context_mut;
pub mod cutoff;
pub mod dirty;
pub mod engine;
pub mod expert;
pub mod free_list;
pub mod generation;
pub mod graph;
pub mod height;
pub mod inputs;
pub mod laws;
pub mod map;
pub mod map_mut;
pub mod node;
pub mod node_guard;
pub mod ord_map;
pub mod queue;
pub mod reading;
pub mod refmap;
pub mod then_node;
pub mod variable;
