use vstd::prelude::*;

verus! {

/// One workspace as the compositor reports it.
pub struct Workspace {
    /// Stable identity assigned by the compositor.
    pub id: i64,
    /// Current number, or a negative value for a workspace without one.
    pub num: i32,
    /// Display name; it may start with the digits of `num`.
    pub name: String,
    /// Name of the output that shows the workspace.
    pub output: String,
    pub focused: bool,
}

/// One output (display) with the corner of its rectangle.
pub struct Output {
    pub name: String,
    pub x: i32,
    pub y: i32,
}

/// How a workspace changed.
#[derive(Clone, Copy, Debug, PartialEq, Eq, Structural)]
pub enum WorkspaceChange {
    Init,
    Empty,
    Other,
}

/// The compositor events that the daemon listens to.
#[derive(Clone, Copy, Debug, PartialEq, Eq, Structural)]
pub enum Event {
    Workspace(WorkspaceChange),
    Output,
    Other,
}

/// Largest magnitude of a workspace number for which `group * 10 + position`
/// arithmetic cannot overflow.
pub const NUM_LIMIT: i32 = 2147483639;

/// Truncating division by ten, as Rust's `/` on a signed value.
pub open spec fn tdiv(n: int) -> int {
    if n >= 0 {
        n / 10
    } else {
        -((-n) / 10)
    }
}

/// Remainder of the truncating division by ten, as Rust's `%`.
pub open spec fn trem(n: int) -> int {
    n - 10 * tdiv(n)
}

pub fn div10(n: i32) -> (r: i32)
    requires
        -NUM_LIMIT <= n <= NUM_LIMIT,
    ensures
        r == tdiv(n as int),
        -214748363 <= r <= 214748363,
{
    if n >= 0 {
        ((n as u32) / 10) as i32
    } else {
        let m: i32 = -n;
        -(((m as u32) / 10) as i32)
    }
}

pub fn rem10(n: i32) -> (r: i32)
    requires
        -NUM_LIMIT <= n <= NUM_LIMIT,
    ensures
        r == trem(n as int),
        -9 <= r <= 9,
        n >= 0 ==> r >= 0,
{
    let q = div10(n);
    n - q * 10
}

/// Whether a compositor event calls for a reorder of all workspaces.
pub open spec fn needs_reorder(event: Event) -> bool {
    match event {
        Event::Workspace(WorkspaceChange::Init) => true,
        Event::Workspace(WorkspaceChange::Empty) => true,
        Event::Output => true,
        _ => false,
    }
}

/// Decides whether `event` is one after which the numbering must be healed:
/// a workspace was created or emptied, or an output changed.
pub fn process_event(event: Event) -> (r: bool)
    ensures
        r == needs_reorder(event),
{
    match event {
        Event::Workspace(WorkspaceChange::Init) => true,
        Event::Workspace(WorkspaceChange::Empty) => true,
        Event::Workspace(_) => false,
        Event::Output => true,
        Event::Other => false,
    }
}

} // verus!
