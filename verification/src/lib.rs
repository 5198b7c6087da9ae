//! Deferred-action scheduling for a single-threaded, cooperative runtime.
//!
//! The crate provides a one-shot awaitable [`timer::Timer`] together with two
//! scheduled-action wrappers built on it: [`once::TimerActionOnce`], which runs
//! an action exactly once after a delay, and [`repeat::TimerActionRepeat`],
//! which repeatedly asks a generator for the next delay until it signals stop.
//!
//! The reactor (timer registration table), the task queues and the monotonic
//! clock are collaborators of this layer, not part of it.  They are modelled
//! explicitly by [`runtime::Runtime`]: a deterministic, single-threaded record
//! of the clock, the pending registrations and the spawned tasks, driven by
//! cooperative polling.  Every lifecycle rule — registration released on drop,
//! re-basing without losing the waiter, idempotent removal, best-effort
//! cancellation observed only at suspension points — is stated in the
//! contracts and proved.

pub mod once;
pub mod repeat;
pub mod runtime;
pub mod timer;

pub use once::OnceAction;
pub use once::TimerActionOnce;
pub use repeat::RepeatGenerator;
pub use repeat::TimerActionRepeat;
pub use runtime::QueueNotFoundError;
pub use runtime::Runtime;
pub use runtime::TaskQueueHandle;
pub use runtime::Waker;
pub use timer::Timer;
