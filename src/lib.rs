//! Gap-free workspace numbering for a tiling compositor: every workspace
//! gets the number `group * 10 + position`, where the group is the rank of
//! its output and the position its rank within that output.

pub mod cli;
pub mod manager;
pub mod numberer;
pub mod positioner;
pub mod snapshot;
pub mod text;

pub use cli::{Action, Cli};
pub use manager::{Info, Manager, Plan};
pub use numberer::{LayoutError, Numberer};
pub use positioner::Positioner;
pub use snapshot::{process_event, Event, Output, Workspace, WorkspaceChange};
