//! A state machine that syncs the state of a block, with or without proofs.

pub mod entry_laws;
pub mod hash;
pub mod import_laws;
pub mod inline;
pub mod keys;
pub mod laws;
pub mod level;
pub mod nibbles;
pub mod node;
pub mod node_laws;
pub mod order;
pub mod proof_db;
pub mod resumption;
pub mod schema;
pub mod soundness;
pub mod state_sync;
pub mod storage;
pub mod sync_view;
pub mod walk;
pub mod walk_laws;
