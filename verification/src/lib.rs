//! A key-value store that keeps its data in a log, and the protocol by which
//! clients reach it.

pub mod engine;
pub mod err;
pub mod json;
pub mod network;
pub mod op;
pub mod selection;
pub mod shape;
pub mod thread_pool;
