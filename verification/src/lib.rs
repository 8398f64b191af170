//! Generational handle storage, a registry of values of many kinds with
//! scoped views, deferred destruction and event dispatch, and a forest that
//! stays free of cycles however its nodes are re-parented.

pub mod handle;
pub mod id;
pub mod seqs;
pub mod sparse;
pub mod dense;
pub mod maps;
pub mod world_map;
pub mod ordered;
pub mod keyed;
pub mod tree;
pub mod walker;
pub mod link;
pub mod world;
pub mod queue;
pub mod view;
pub mod pearl;
pub mod color;
