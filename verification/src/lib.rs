//! Branch propagation tracker.
//!
//! Tracks whether a source-control change that was merged into a base branch
//! has propagated into the hierarchy of downstream release branches, and
//! computes the notification deltas owed to each subscriber.
//!
//! The core pieces are:
//! - an acceptance tree mirroring the branch successor graph, with a
//!   tri-state judgment per branch (`tree`, `topology`);
//! - the policy that turns a change's status and an ancestry query into the
//!   accepted-branch set (`policy`);
//! - the notification differ that compares the current accepted set against
//!   the set already reported to a subscriber (`notify`);
//! - the codec for persisted subscriber records (`store`).

pub mod names;
pub mod notify;
pub mod policy;
pub mod store;
pub mod topology;
pub mod tree;
