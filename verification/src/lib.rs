//! Event-sourced change pipeline for a shared object editor: the offset-ordered
//! change log, the projection that answers point-in-time queries, and the
//! undo/redo inversion engine.

pub mod cache;
pub mod gateway;
pub mod geometry;
pub mod history;
pub mod invert;
pub mod laws;
pub mod log;
pub mod model;
pub mod pipeline;
pub mod projection;
pub mod stacks;
pub mod table;
pub mod undo;
