//! The engine's scheduling core: priority queues with cooperative cancellation,
//! outward prefetch planning, the bounded persistence lane, and the decisions
//! that workers take between the stages of a render.
//!
//! - Declarative interactive planning: on every navigation the desired display
//!   job set is recomputed and synced; queued interactive jobs outside it
//!   vanish, running jobs outside it are cancelled, and jobs still wanted keep
//!   running. Epochs make stale queue entries inert. Folder-wide Browse warming
//!   uses a separate persistent lane that survives navigation replans.
//! - Outward wave, 3:1 forward-biased: priority sorts by class, effective
//!   distance and arrival, where backward distance counts three times.

pub mod engine;
pub mod ids;
pub mod navigation;
pub mod outcomes;
pub mod persistence;
pub mod pipeline;
pub mod queue;
pub mod schedule;
