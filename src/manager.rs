use vstd::prelude::*;

use crate::numberer::{canonical, lemma_canonical_range, shifted, too_many_groups, too_many_positions, LayoutError, Numberer};
use crate::positioner::{has_focused, nums_in_range, saturate, saturate_to, wrap, wrap_to, Positioner};
use crate::snapshot::{div10, tdiv, Output, Workspace};
use crate::text::{decimal, decimal_text, views};

verus! {

/// What the manager knows of the focused workspace.
pub struct Info {
    pub positioner: Positioner,
    /// The focused workspace's tree node has at most one child.
    pub is_alone: bool,
}

/// One snapshot of the compositor, and the decisions taken on it.
pub struct Manager {
    pub workspaces: Vec<Workspace>,
    pub outputs: Vec<Output>,
    pub info: Info,
    pub numberer: Numberer,
}

/// What to send to the compositor: first, when present, the renames that
/// bring the live workspaces to the numberer's targets (computed against a
/// fresh list of workspaces), then the commands, in order.
pub struct Plan {
    pub renumber: Option<Numberer>,
    pub commands: Vec<String>,
}

pub open spec fn focus_command(n: int) -> Seq<char> {
    "workspace number "@ + decimal(n)
}

pub open spec fn move_command(n: int) -> Seq<char> {
    "[con_id=__focused__] move container to workspace number "@ + decimal(n) + ", focus"@
}

pub open spec fn focus_output_command(output: Seq<char>) -> Seq<char> {
    "focus output "@ + output
}

pub open spec fn move_output_command(output: Seq<char>) -> Seq<char> {
    "[con_id=__focused__] move container to output "@ + output + ", focus"@
}

fn focus_text(n: i32) -> (r: String)
    ensures
        r@ == focus_command(n as int),
{
    let mut s = String::from_str("workspace number ");
    s.append(decimal_text(n).as_str());
    s
}

fn move_text(n: i32) -> (r: String)
    ensures
        r@ == move_command(n as int),
{
    let mut s = String::from_str("[con_id=__focused__] move container to workspace number ");
    s.append(decimal_text(n).as_str());
    s.append(", focus");
    s
}

fn focus_output_text(output: &String) -> (r: String)
    ensures
        r@ == focus_output_command(output@),
{
    let mut s = String::from_str("focus output ");
    s.append(output.as_str());
    s
}

fn move_output_text(output: &String) -> (r: String)
    ensures
        r@ == move_output_command(output@),
{
    let mut s = String::from_str("[con_id=__focused__] move container to output ");
    s.append(output.as_str());
    s.append(", focus");
    s
}

/// Index of the first workspace at or after `i` whose number lies in group `g`.
pub open spec fn find_group(wss: Seq<Workspace>, g: int, i: int) -> Option<int>
    decreases wss.len() - i,
{
    if i < 0 || i >= wss.len() {
        None
    } else if tdiv(wss[i].num as int) == g {
        Some(i)
    } else {
        find_group(wss, g, i + 1)
    }
}

/// The focused workspace sits at the end of a group that has room, and
/// carries more than itself: moving on opens a new position after it.
pub open spec fn opens_after(info: Info) -> bool {
    &&& info.positioner.position == info.positioner.position_highest
    &&& info.positioner.position_highest < 9
    &&& !info.is_alone
}

/// As `opens_after`, at the start of the group: a position opens before it.
pub open spec fn opens_before(info: Info) -> bool {
    &&& info.positioner.position == 1
    &&& info.positioner.position_highest < 9
    &&& !info.is_alone
}

/// The number that "next" reaches within the group.
pub open spec fn next_target(info: Info) -> int {
    let p = info.positioner;
    if opens_after(info) {
        p.group * 10 + p.position + 1
    } else {
        p.group * 10 + wrap(p.position + 1, p.position_highest as int)
    }
}

/// The number that "prev" reaches within the group.
pub open spec fn prev_target(info: Info) -> int {
    let p = info.positioner;
    if opens_before(info) {
        p.group * 10 + 1
    } else {
        p.group * 10 + wrap(p.position - 1, p.position_highest as int)
    }
}

/// The group that a move or focus to group `g` lands in.
pub open spec fn group_target(info: Info, g: int) -> int {
    saturate(g, info.positioner.group_highest as int)
}

impl Manager {
    pub open spec fn wf(&self) -> bool {
        &&& self.info.positioner.inv()
        &&& nums_in_range(self.workspaces@)
        &&& forall|i: int| 0 <= i < self.numberer@.len() ==> (#[trigger] self.numberer@[i]).1 <= 99
    }

    /// The renumbering that opens a slot for "next" or "prev", if any.
    pub open spec fn slot(&self, after: bool) -> Option<Seq<(i64, i32)>> {
        let p = self.info.positioner;
        if after && opens_after(self.info) {
            Some(shifted(self.numberer@, p.group * 10 + p.position + 1))
        } else if !after && opens_before(self.info) {
            Some(shifted(self.numberer@, p.group * 10 + 1))
        } else {
            None
        }
    }

    /// The commands that bring focus, or the focused container when
    /// `carry`, to group `g`: to the output of the group's first workspace,
    /// if it has one, then to the same position in that group.
    pub open spec fn group_commands(&self, g: int, carry: bool) -> Seq<Seq<char>> {
        let t = group_target(self.info, g);
        let n = t * 10 + self.info.positioner.position;
        let last = if carry { move_command(n) } else { focus_command(n) };
        match find_group(self.workspaces@, t, 0) {
            Some(k) => seq![
                if carry {
                    move_output_command(self.workspaces@[k].output@)
                } else {
                    focus_output_command(self.workspaces@[k].output@)
                },
                last,
            ],
            None => seq![last],
        }
    }
}

impl Manager {
    /// Takes a snapshot: the workspaces and outputs, and whether the focused
    /// workspace is alone in its tree node. Fails when the snapshot has no
    /// canonical numbering.
    pub fn new(workspaces: Vec<Workspace>, outputs: Vec<Output>, is_alone: bool) -> (r: Result<Self, LayoutError>)
        requires
            has_focused(workspaces@),
            nums_in_range(workspaces@),
        ensures
            too_many_groups(outputs@, workspaces@) ==> r == Err::<Self, _>(LayoutError::TooManyGroups),
            !too_many_groups(outputs@, workspaces@) && too_many_positions(outputs@, workspaces@)
                ==> r == Err::<Self, _>(LayoutError::TooManyPositions),
            !too_many_groups(outputs@, workspaces@) && !too_many_positions(outputs@, workspaces@) ==> r is Ok,
            r is Ok ==> {
                let m = r.unwrap();
                &&& m.wf()
                &&& m.workspaces@ == workspaces@
                &&& m.outputs@ == outputs@
                &&& m.info.is_alone == is_alone
                &&& exists|f: int| m.info.positioner.describes(workspaces@, f)
                &&& m.numberer@ == canonical(outputs@, workspaces@, workspaces@.len() as int)
            },
    {
        let numberer = match Numberer::new(workspaces.as_slice(), outputs.as_slice()) {
            Ok(n) => n,
            Err(e) => {
                return Err(e);
            },
        };
        proof {
            lemma_canonical_range(outputs@, workspaces@);
        }
        let positioner = Positioner::new(workspaces.as_slice());
        let m = Manager { workspaces, outputs, info: Info { positioner, is_alone }, numberer };
        assert(m.info.positioner.inv());
        assert(nums_in_range(m.workspaces@));
        assert(m.wf());
        assert(exists|f: int| m.info.positioner.describes(m.workspaces@, f));
        Ok(m)
    }
}

fn find_group_exec(wss: &Vec<Workspace>, g: i32) -> (r: Option<usize>)
    requires
        nums_in_range(wss@),
    ensures
        r matches Some(k) ==> find_group(wss@, g as int, 0) == Some(k as int) && k < wss@.len(),
        r is None ==> find_group(wss@, g as int, 0) is None,
{
    let mut i: usize = 0;
    while i < wss.len()
        invariant
            0 <= i <= wss@.len(),
            nums_in_range(wss@),
            find_group(wss@, g as int, 0) == find_group(wss@, g as int, i as int),
        decreases wss@.len() - i,
    {
        if div10(wss[i].num) == g {
            return Some(i);
        }
        i = i + 1;
    }
    None
}

impl Manager {
    /// Heals the numbering: every workspace is renamed to its canonical number.
    pub fn reorder(self) -> (r: Plan)
        ensures
            r.renumber matches Some(n) && n@ == self.numberer@,
            r.commands@.len() == 0,
    {
        Plan { renumber: Some(self.numberer), commands: Vec::new() }
    }

    /// Opens an empty slot in the numbering: at `num` when `prepend`, right
    /// after it otherwise. Only the renames are planned.
    pub fn empty_at(self, num: i32, prepend: bool) -> (r: Plan)
        requires
            self.wf(),
            num < i32::MAX,
        ensures
            r.renumber matches Some(n) && n@ == shifted(self.numberer@, if prepend { num as int } else { num + 1 }),
            r.commands@.len() == 0,
    {
        let mut numberer = self.numberer;
        if prepend {
            numberer.prepend_at(num);
        } else {
            numberer.append_at(num);
        }
        Plan { renumber: Some(numberer), commands: Vec::new() }
    }

    /// The number that "next" reaches, and the numberer with a slot opened
    /// for it when one is needed.
    fn step_next(self) -> (r: (i32, Option<Numberer>))
        requires
            self.wf(),
        ensures
            r.0 == next_target(self.info),
            r.1 matches Some(n) ==> self.slot(true) == Some(n@),
            r.1 is None ==> self.slot(true) is None,
    {
        let p = self.info.positioner;
        if p.is_end() && !p.is_full() && !self.info.is_alone {
            let mut numberer = self.numberer;
            let t = numberer.append_at(p.num());
            (t, Some(numberer))
        } else {
            (p.wrapping_position_add(1), None)
        }
    }

    /// The number that "prev" reaches, and the numberer with a slot opened
    /// for it when one is needed.
    fn step_prev(self) -> (r: (i32, Option<Numberer>))
        requires
            self.wf(),
        ensures
            r.0 == prev_target(self.info),
            r.1 matches Some(n) ==> self.slot(false) == Some(n@),
            r.1 is None ==> self.slot(false) is None,
    {
        let p = self.info.positioner;
        if p.is_start() && !p.is_full() && !self.info.is_alone {
            let mut numberer = self.numberer;
            let t = numberer.prepend_at(p.num());
            (t, Some(numberer))
        } else {
            (p.wrapping_position_add(-1), None)
        }
    }

    /// Focuses the next position of the group. At the end of a group with
    /// room, and with more than one container, a new position is opened
    /// after the focused one and focused; otherwise focus wraps to position 1.
    pub fn position_focus_next(self) -> (r: Plan)
        requires
            self.wf(),
        ensures
            self.slot(true) matches Some(e) ==> r.renumber matches Some(n) && n@ == e,
            self.slot(true) is None ==> r.renumber is None,
            views(r.commands@) == seq![focus_command(next_target(self.info))],
    {
        let (t, renumber) = self.step_next();
        Plan { renumber, commands: vec![focus_text(t)] }
    }

    /// Focuses the previous position of the group, opening a position 1
    /// before the focused one under the same conditions as
    /// `position_focus_next`; otherwise focus wraps to the highest position.
    pub fn position_focus_prev(self) -> (r: Plan)
        requires
            self.wf(),
        ensures
            self.slot(false) matches Some(e) ==> r.renumber matches Some(n) && n@ == e,
            self.slot(false) is None ==> r.renumber is None,
            views(r.commands@) == seq![focus_command(prev_target(self.info))],
    {
        let (t, renumber) = self.step_prev();
        Plan { renumber, commands: vec![focus_text(t)] }
    }

    /// Focuses `position` of the focused group, clamped into `1..=9`.
    pub fn position_focus_to(self, position: i32) -> (r: Plan)
        requires
            self.wf(),
        ensures
            r.renumber is None,
            views(r.commands@) == seq![
                focus_command(self.info.positioner.group * 10 + saturate(position as int, 9)),
            ],
    {
        let n = self.info.positioner.group * 10 + saturate_to(position, 9);
        Plan { renumber: None, commands: vec![focus_text(n)] }
    }

    /// Moves the focused container to the next position, as
    /// `position_focus_next` chooses it, and follows it.
    pub fn position_move_next(self) -> (r: Plan)
        requires
            self.wf(),
        ensures
            self.slot(true) matches Some(e) ==> r.renumber matches Some(n) && n@ == e,
            self.slot(true) is None ==> r.renumber is None,
            views(r.commands@) == seq![move_command(next_target(self.info))],
    {
        let (t, renumber) = self.step_next();
        Plan { renumber, commands: vec![move_text(t)] }
    }

    /// Moves the focused container to the previous position, as
    /// `position_focus_prev` chooses it, and follows it.
    pub fn position_move_prev(self) -> (r: Plan)
        requires
            self.wf(),
        ensures
            self.slot(false) matches Some(e) ==> r.renumber matches Some(n) && n@ == e,
            self.slot(false) is None ==> r.renumber is None,
            views(r.commands@) == seq![move_command(prev_target(self.info))],
    {
        let (t, renumber) = self.step_prev();
        Plan { renumber, commands: vec![move_text(t)] }
    }

    /// Moves the focused container to `position` of the focused group,
    /// clamped into `1..=9`, and follows it.
    pub fn position_move_to(self, position: i32) -> (r: Plan)
        requires
            self.wf(),
        ensures
            r.renumber is None,
            views(r.commands@) == seq![
                move_command(self.info.positioner.group * 10 + saturate(position as int, 9)),
            ],
    {
        let n = self.info.positioner.group * 10 + saturate_to(position, 9);
        Plan { renumber: None, commands: vec![move_text(n)] }
    }

    /// Focuses the next group, wrapping past the highest to group 1.
    pub fn group_focus_next(self) -> (r: Plan)
        requires
            self.wf(),
        ensures
            r.renumber is None,
            views(r.commands@) == self.group_commands(
                wrap(self.info.positioner.group + 1, self.info.positioner.group_highest as int),
                false,
            ),
    {
        let g = wrap_to(self.info.positioner.group + 1, self.info.positioner.group_highest);
        self.group_to(g, false)
    }

    /// Focuses the previous group, wrapping below group 1 to the highest.
    pub fn group_focus_prev(self) -> (r: Plan)
        requires
            self.wf(),
        ensures
            r.renumber is None,
            views(r.commands@) == self.group_commands(
                wrap(self.info.positioner.group - 1, self.info.positioner.group_highest as int),
                false,
            ),
    {
        let g = wrap_to(self.info.positioner.group - 1, self.info.positioner.group_highest);
        self.group_to(g, false)
    }

    /// Focuses group `group`, clamped into `1..=group_highest`, at the same
    /// position: first its output, when a workspace of the group is known.
    pub fn group_focus_to(self, group: i32) -> (r: Plan)
        requires
            self.wf(),
        ensures
            r.renumber is None,
            views(r.commands@) == self.group_commands(group as int, false),
    {
        self.group_to(group, false)
    }

    /// Moves the focused container to the next group, wrapping as
    /// `group_focus_next` does, and follows it.
    pub fn group_move_next(self) -> (r: Plan)
        requires
            self.wf(),
        ensures
            r.renumber is None,
            views(r.commands@) == self.group_commands(
                wrap(self.info.positioner.group + 1, self.info.positioner.group_highest as int),
                true,
            ),
    {
        let g = wrap_to(self.info.positioner.group + 1, self.info.positioner.group_highest);
        self.group_to(g, true)
    }

    /// Moves the focused container to the previous group, wrapping as
    /// `group_focus_prev` does, and follows it.
    pub fn group_move_prev(self) -> (r: Plan)
        requires
            self.wf(),
        ensures
            r.renumber is None,
            views(r.commands@) == self.group_commands(
                wrap(self.info.positioner.group - 1, self.info.positioner.group_highest as int),
                true,
            ),
    {
        let g = wrap_to(self.info.positioner.group - 1, self.info.positioner.group_highest);
        self.group_to(g, true)
    }

    /// Moves the focused container to group `group`, clamped into
    /// `1..=group_highest`, at the same position: across outputs first,
    /// when a workspace of the group is known.
    pub fn group_move_to(self, group: i32) -> (r: Plan)
        requires
            self.wf(),
        ensures
            r.renumber is None,
            views(r.commands@) == self.group_commands(group as int, true),
    {
        self.group_to(group, true)
    }

    fn group_to(self, group: i32, carry: bool) -> (r: Plan)
        requires
            self.wf(),
        ensures
            r.renumber is None,
            views(r.commands@) == self.group_commands(group as int, carry),
    {
        let t = saturate_to(group, self.info.positioner.group_highest);
        let n = t * 10 + self.info.positioner.position;
        let last = if carry { move_text(n) } else { focus_text(n) };
        let mut commands: Vec<String> = Vec::new();
        match find_group_exec(&self.workspaces, t) {
            Some(k) => {
                let output = &self.workspaces[k].output;
                commands.push(if carry { move_output_text(output) } else { focus_output_text(output) });
            },
            None => {},
        }
        commands.push(last);
        assert(views(commands@) =~= self.group_commands(group as int, carry));
        Plan { renumber: None, commands }
    }
}

} // verus!
