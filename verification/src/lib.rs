//! git-local-issue (`gli`): a distributed, offline-first issue tracker stored
//! natively in Git under `refs/issues/*`.
pub mod text;
pub mod trailer;
pub mod error;
pub mod keyed;
pub mod model;
pub mod wire;
pub mod laws;
pub mod id;
pub mod git;
pub mod store;
pub mod cache;
pub mod fsck;
pub mod output;
pub mod cli;
