//! Verified core of a local task scheduler.
//!
//! Tasks carry a cron-style schedule and a shell command line. A background
//! clock decides once per second which tasks are due (`clock`), a dispatcher
//! marks them running, hands the command to a process runner and records the
//! outcome (`store`), while the runner's output is decoded (`decode`),
//! truncated and turned into a final status text (`output`). Live executions
//! are tracked in a registry used for cancellation (`registry`), and the whole
//! task list is persisted as a JSON document (`codec`).
//!
//! All process, file and thread handling lives outside this crate; the
//! functions here take plain values (byte chunks, exit codes, clock readings)
//! and return plain values, so that every decision the scheduler makes is
//! covered by a contract.

pub mod clock;
pub mod codec;
pub mod decode;
pub mod output;
pub mod registry;
pub mod store;
pub mod task;
