//! A scope profiler: instrumented code brackets regions with `enter` and
//! `leave`, the engine records the events per thread, and every `flip` folds
//! the events recorded since the previous one into a frame of call trees.
//!
//! All state lives in an [`Engine`] value that the caller owns, and threads
//! are told apart by a number that the caller brings. The functions that
//! take no tick read the engine's clock themselves. Each has a sibling that
//! takes the tick as an argument and whose contract says exactly what the
//! engine looks like afterwards: `init_with` for `init`, and the name with
//! `_at` behind it for the others.
//!
//! The library writes no file and starts no thread. A report comes back as
//! bytes together with the path it is meant for, and automatic flips are
//! made when the caller's timer calls `auto_flip`.
//!
//! - `clock`: ticks, their distance across a wrap, and wall time
//! - `registry`: tokens and groups
//! - `recorder`: the stack and the event buffer of one thread
//! - `tree`: the call tree of one thread in one frame
//! - `frame`: frames and spikes
//! - `report`: the table and the page
//! - `engine`: the state, and the model of every operation on it
//! - `instrument`, `scheduler`, `export`, `lifecycle`: the operations
//! - `tree_laws`, `recorder_laws`, `report_laws`, `engine_laws`: what is proved
//!   of them

pub mod clock;
pub mod engine;
pub mod engine_laws;
pub mod export;
pub mod frame;
pub mod instrument;
pub mod lifecycle;
pub mod recorder;
pub mod recorder_laws;
pub mod registry;
pub mod report;
pub mod report_laws;
pub mod scheduler;
pub mod tree;
pub mod tree_laws;

pub use crate::clock::{Seconds, TickSource};
pub use crate::engine::{Config, Diagnostics, Engine, ProfileError, ReportFile, Scheduler};
pub use crate::export::{
    dump_file, dump_file_immediately, dump_file_immediately_at, report_write_failed,
};
pub use crate::frame::{Frame, ThreadFrame};
pub use crate::instrument::{
    enter, enter_at, get_token, leave, leave_at, on_thread_create, on_thread_exit,
    set_enable_all_groups, CallSite, MicroProfileDroppable,
};
pub use crate::lifecycle::{
    diagnostics, frames, init, init_with, is_alive, shutdown, shutdown_at, tick, tick_at,
    ticks_per_second_cpu, ticks_to_seconds,
};
pub use crate::registry::NO_TOKEN;
pub use crate::scheduler::{
    auto_flip, auto_flip_at, auto_flip_period, flip, flip_at, start_auto_flip, stop_auto_flip,
};
pub use crate::tree::{build_call_tree, CallTree, EventKind, Node, ScopeEvent};
