//! Core of a parallel coding-agent orchestrator: per-agent terminal session
//! bookkeeping, latency-bounded output batching, git worktree isolation and
//! change-set computation.

pub mod batcher;
pub mod changes;
pub mod error;
pub mod plans;
pub mod registry;
pub mod spawn;
pub mod text;
pub mod worktree;
