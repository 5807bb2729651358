//! Mischief Managed: the bookkeeping behind toggling the visible applications
//! of a desktop session between "everything hidden" and "everything shown".
//!
//! A run either hides every visible application (Hide mode) or brings back
//! what the previous run hid (Show mode); the state saved between runs says
//! which, and which process ids were hidden by the program or were hidden
//! already. The library decides what a run does; the program around it asks
//! the window server for the running applications and windows, carries out
//! the requests, and reads and writes the state file.
//!
//! - [`toggle`]: the cycle over all running applications.
//! - [`windowed`]: the cycle over the applications that own an on-screen
//!   window, which also remembers the window order.
//! - [`windows`] and [`running`]: the windows and running applications a
//!   run works with.

mod apps;
mod mode;
mod pids;
pub mod running;
pub mod toggle;
mod window_order;
pub mod windowed;
pub mod windows;

pub use apps::{Action, AppInfo};
pub use mode::{lemma_toggle_involution, opposite, ToggleMode};
pub use pids::{
    group_of, in_group, lemma_with_pids_insert, lemma_with_pids_members, lemma_without_pids_compose,
    lemma_without_pids_insert, lemma_without_pids_members, with_pid, with_pids, without_pid, without_pids, HiddenState,
    PidTable,
};
pub use window_order::index_set_items;
