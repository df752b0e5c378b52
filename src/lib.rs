//! An in-memory store of task records with verified create, list, get,
//! update and delete operations, and a lock-guarded shared state around it.

pub mod laws;
pub mod store;
mod system;
pub mod state;
pub mod task;
