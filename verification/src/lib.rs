//! Deferred execution without threads: a computation is cut into an ordered
//! queue of steps over a piece of state, and a caller drives it one tick at a
//! time. A step may hand back a nested execution, which is then run in its
//! place.
//!
//! * [`Context`] is what an execution holds: a plain state or a nested
//!   execution.
//! * [`Deferred`] is an execution: a queue of steps ([`Part`]) and a context.
//! * [`DeferredManager`] keeps many executions under identifiers and
//!   advances them one by one or all together.
//! * [`Value`] holds a state of any type, for executions whose steps do not
//!   all work on the same type.
//!
//! Contracts speak of an execution through its [`Chain`]: the state it has
//! reached and the queues of steps still to run, one per level of nesting.
//! `Chain::tick` says what one call of `Deferred::resume` does to it, and
//! `Chain::final_state` what `Deferred::consume` hands back. The module
//! `laws` holds what follows for every chain: steps compose in
//! order, nesting does not change the final state, a tick is never spent on
//! entering or leaving a nested execution.

pub mod chain;
pub mod context;
pub mod deferred;
pub mod deferred_manager;
pub mod laws;
pub mod value;

pub use crate::chain::Chain;
pub use crate::context::Context;
pub use crate::deferred::Deferred;
pub use crate::deferred::Part;
pub use crate::deferred_manager::DeferredManager;
pub use crate::deferred_manager::Id;
pub use crate::value::Payload;
pub use crate::value::Value;
