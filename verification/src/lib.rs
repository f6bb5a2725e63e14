//! Process-aware coordination kernel for concurrent local agents.

pub mod access;
pub mod agents;
pub mod claims;
pub mod codec;
pub mod guarantees;
pub mod integrity;
pub mod journal;
pub mod laws;
pub mod mesh;
pub mod messaging;
pub mod pacing;
pub mod ranking;
pub mod records;
pub mod requests;
pub mod search;
pub mod seqs;
pub mod status;
pub mod store;
pub mod system;
pub mod text;
