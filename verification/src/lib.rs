//! Patch-stack bookkeeping for a repository that carries local patches on
//! top of an upstream checkout.

pub mod config;
pub mod git;
pub mod patch;
pub mod patcher;
pub mod series;
pub mod signature;
pub mod state;
pub mod sync_strategy;
pub mod text;
