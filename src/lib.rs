//! Monotone queues that report the minimizer of every window of a stream.
pub mod engine;
pub mod queue;
pub mod slots;
pub mod window;

pub use queue::{ImplicitMinimizerQueue, MinimizerQueue};
