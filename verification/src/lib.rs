//! Bookkeeping for groups of concurrently running tasks.
//!
//! A [`ThreadGroup`] keeps the handles of the tasks it was asked to launch in
//! the order in which they were spawned, joins them oldest first, and keeps a
//! ledger of every task that ended abnormally.

pub mod error;
pub mod group;
pub mod laws;
pub mod ledger;
pub mod naming;

pub use error::{Error, ErrorView};
pub use group::{GroupView, TaskView, ThreadGroup};
pub use ledger::Failures;
pub use naming::thread_id;
