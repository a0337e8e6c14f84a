//! Priority dispatch for tasks that receive on several channels.
//!
//! A task listens on one or more user-defined channels, each with its own **priority**
//! and **capacity**. [`TaskBuilder`] declares them and hands out a [`Channel`] token for
//! each; [`open_task`] makes them and gives the [`TaskHandler`] that producers send
//! through. A scheduler decides which message the task processes next:
//! [`FairPriority`], the default, or [`StrictPriority`].
//!
//! The channels are tokio's. What is taken on trust about them stands in [`endpoint`];
//! everything else is proved. Waiting for a message and running the tasks is left to
//! the caller, who alternates it with the decisions made here.
use vstd::prelude::*;

pub mod builder;
pub mod channel;
pub mod control;
pub mod endpoint;
pub mod error;
pub mod guarantees;
pub mod handler;
pub mod laws;
pub mod order;
pub mod runs;
pub mod scan;
pub mod scheduler;

pub use builder::{Channel, ChannelSpec, TaskBuilder};
pub use channel::{
    finish_send, make_channel, make_plain_channel, Capacity, DynReceiver, DynSender, Polled,
    SendStep,
};
pub use control::Control;
pub use endpoint::{Observation, Plain};
pub use error::{SendError, SpawnError, TryRecvError, TrySendError};
pub use handler::{open_plain_task, open_task, TaskChannels, TaskHandler};
pub use order::{relief_order, sort_order};
pub use scan::poll_any;
pub use scheduler::{Dispatch, FairPriority, StrictPriority};

verus! {

} // verus!
