//! Conversation threading for mail: a forest of containers assembled from
//! Message-ID, References and In-Reply-To linkage, together with a few small
//! text and configuration helpers.

pub mod actions;
pub mod arena;
pub mod backends;
pub mod bindings;
pub mod builder;
pub mod compose;
pub mod conf;
pub mod container;
pub mod directive;
pub mod envelope;
pub mod flatten;
pub mod forest;
pub mod harvest;
pub mod id_index;
pub mod keys;
pub mod laws;
pub mod listing;
pub mod reach;
pub mod text_processing;
