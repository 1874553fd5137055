//! Facilities a node embeds: per-node context storage.

pub mod context_holder;
pub mod effect_manager;
pub mod input_manager;
pub mod state_manager;
pub mod storage_manager;
