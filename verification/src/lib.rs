//! A reactive component-tree runtime.
//!
//! A host manages a dynamically evolving tree of user-defined components.
//! On every render step a component produces a list of child seeds; the host
//! reconciles those seeds against the existing children (reusing nodes whose
//! identity matches, replacing those whose identity differs, unlinking those
//! no longer produced), propagates fresh inputs into reused nodes, and
//! schedules further render work from self-render requests and external
//! signals.

mod channel;
pub mod embeddable;
pub mod input_manager;
pub mod key;
pub mod node;
pub mod node_host;
pub mod node_seed;
pub mod param_manager;
pub mod patch_manager;
pub mod typedef;
