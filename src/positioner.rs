use vstd::prelude::*;

use crate::snapshot::{div10, rem10, tdiv, trem, Workspace, NUM_LIMIT};

verus! {

/// Clamps `v` first up to 1, then down to `hi` (so `hi` wins when `hi < 1`).
pub open spec fn saturate(v: int, hi: int) -> int {
    let lo = if v < 1 { 1 } else { v };
    if lo > hi { hi } else { lo }
}

/// Wraps `v` into `1..=hi`: past the top it restarts at 1, below 1 it goes to `hi`.
pub open spec fn wrap(v: int, hi: int) -> int {
    if v > hi { 1 } else if v < 1 { hi } else { v }
}

pub fn saturate_to(v: i32, hi: i32) -> (r: i32)
    ensures
        r == saturate(v as int, hi as int),
{
    let lo = if v < 1 { 1 } else { v };
    if lo > hi { hi } else { lo }
}

pub fn wrap_to(v: i32, hi: i32) -> (r: i32)
    ensures
        r == wrap(v as int, hi as int),
{
    if v > hi { 1 } else if v < 1 { hi } else { v }
}

/// Where the focused workspace stands: workspaces are grouped per output by
/// tens (`1x`, `2x`, ...) and positioned within a group by ones (`x1`, `x2`, ...).
pub struct Positioner {
    pub group: i32,
    pub group_highest: i32,
    pub position: i32,
    pub position_highest: i32,
}

/// Index of the first focused workspace.
pub open spec fn is_first_focused(ws: Seq<Workspace>, f: int) -> bool {
    &&& 0 <= f < ws.len()
    &&& ws[f].focused
    &&& forall|i: int| 0 <= i < f ==> !(#[trigger] ws[i]).focused
}

pub open spec fn has_focused(ws: Seq<Workspace>) -> bool {
    exists|i: int| 0 <= i < ws.len() && (#[trigger] ws[i]).focused
}

/// Every number is small enough for the group/position arithmetic.
pub open spec fn nums_in_range(ws: Seq<Workspace>) -> bool {
    forall|i: int| 0 <= i < ws.len() ==> -NUM_LIMIT <= (#[trigger] ws[i]).num <= NUM_LIMIT
}

impl Positioner {
    /// Coordinates stay small enough that every target number fits in an `i32`.
    pub open spec fn inv(&self) -> bool {
        &&& -214748363 <= self.group <= 214748363
        &&& -214748363 <= self.group_highest <= 214748363
        &&& -9 <= self.position <= 9
        &&& -9 <= self.position_highest <= 9
    }

    /// The positioner that a snapshot describes, with `f` its focused workspace.
    pub open spec fn describes(&self, ws: Seq<Workspace>, f: int) -> bool {
        &&& is_first_focused(ws, f)
        &&& self.group == tdiv(ws[f].num as int)
        &&& self.position == trem(ws[f].num as int)
        &&& forall|i: int| 0 <= i < ws.len() ==> tdiv((#[trigger] ws[i]).num as int) <= self.group_highest
        &&& exists|i: int| 0 <= i < ws.len() && tdiv((#[trigger] ws[i]).num as int) == self.group_highest
        &&& forall|i: int| 0 <= i < ws.len() && tdiv((#[trigger] ws[i]).num as int) == self.group
            ==> trem(ws[i].num as int) <= self.position_highest
        &&& exists|i: int| 0 <= i < ws.len() && tdiv((#[trigger] ws[i]).num as int) == self.group
            && trem(ws[i].num as int) == self.position_highest
    }

    /// Reads the coordinates of the focused workspace, the highest group of
    /// all workspaces and the highest position within the focused group.
    pub fn new(workspaces: &[Workspace]) -> (r: Self)
        requires
            has_focused(workspaces@),
            nums_in_range(workspaces@),
        ensures
            r.inv(),
            exists|f: int| r.describes(workspaces@, f),
    {
        let ghost ws = workspaces@;
        let mut f: usize = 0;
        while !workspaces[f].focused
            invariant
                0 <= f < ws.len(),
                ws == workspaces@,
                has_focused(ws),
                forall|i: int| 0 <= i < f ==> !(#[trigger] ws[i]).focused,
                exists|i: int| f <= i < ws.len() && (#[trigger] ws[i]).focused,
            decreases ws.len() - f,
        {
            f = f + 1;
        }
        let focused_num = workspaces[f].num;
        let group = div10(focused_num);
        let position = rem10(focused_num);
        let mut group_highest = group;
        let mut position_highest = position;
        let ghost mut gw: int = f as int;
        let ghost mut pw: int = f as int;
        let mut i: usize = 0;
        while i < workspaces.len()
            invariant
                0 <= i <= ws.len(),
                ws == workspaces@,
                0 <= f < ws.len(),
                group == tdiv(ws[f as int].num as int),
                0 <= gw < ws.len(),
                0 <= pw < ws.len(),
                tdiv(ws[gw].num as int) == group_highest,
                tdiv(ws[pw].num as int) == group,
                trem(ws[pw].num as int) == position_highest,
                -214748363 <= group_highest <= 214748363,
                -9 <= position_highest <= 9,
                forall|j: int| 0 <= j < i ==> tdiv((#[trigger] ws[j]).num as int) <= group_highest,
                forall|j: int| 0 <= j < i && tdiv((#[trigger] ws[j]).num as int) == group
                    ==> trem(ws[j].num as int) <= position_highest,
                nums_in_range(ws),
                forall|j: int| 0 <= j < f ==> !(#[trigger] ws[j]).focused,
                ws[f as int].focused,
            decreases ws.len() - i,
        {
            let g = div10(workspaces[i].num);
            if g > group_highest {
                group_highest = g;
                proof { gw = i as int; }
            }
            if g == group {
                let p = rem10(workspaces[i].num);
                if p > position_highest {
                    position_highest = p;
                    proof { pw = i as int; }
                }
            }
            i = i + 1;
        }
        let r = Positioner { group, group_highest, position, position_highest };
        assert(r.describes(ws, f as int));
        r
    }

    pub open spec fn spec_num(&self) -> int {
        self.group * 10 + self.position
    }

    /// The number of the focused workspace.
    pub fn num(&self) -> (r: i32)
        requires
            self.inv(),
        ensures
            r == self.spec_num(),
    {
        self.group * 10 + self.position
    }

    pub fn saturating_group_add(&self, add: i32) -> (r: i32)
        requires
            self.inv(),
            i32::MIN <= self.group + add <= i32::MAX,
        ensures
            r == saturate(self.group + add, self.group_highest as int) * 10 + self.position,
    {
        self.saturating_group_to(self.group + add)
    }

    pub fn wrapping_group_add(&self, add: i32) -> (r: i32)
        requires
            self.inv(),
            i32::MIN <= self.group + add <= i32::MAX,
        ensures
            r == wrap(self.group + add, self.group_highest as int) * 10 + self.position,
    {
        self.wrapping_group_to(self.group + add)
    }

    /// The number at `group`, clamped into `1..=group_highest`, keeping the position.
    pub fn saturating_group_to(&self, group: i32) -> (r: i32)
        requires
            self.inv(),
        ensures
            r == saturate(group as int, self.group_highest as int) * 10 + self.position,
    {
        let group = saturate_to(group, self.group_highest);
        group * 10 + self.position
    }

    /// The number at `group`, wrapped into `1..=group_highest`, keeping the position.
    pub fn wrapping_group_to(&self, group: i32) -> (r: i32)
        requires
            self.inv(),
        ensures
            r == wrap(group as int, self.group_highest as int) * 10 + self.position,
    {
        let group = wrap_to(group, self.group_highest);
        group * 10 + self.position
    }

    pub fn saturating_position_add(&self, add: i32) -> (r: i32)
        requires
            self.inv(),
            i32::MIN <= self.position + add <= i32::MAX,
        ensures
            r == self.group * 10 + saturate(self.position + add, self.position_highest as int),
    {
        self.saturating_position_to(self.position + add)
    }

    pub fn wrapping_position_add(&self, add: i32) -> (r: i32)
        requires
            self.inv(),
            i32::MIN <= self.position + add <= i32::MAX,
        ensures
            r == self.group * 10 + wrap(self.position + add, self.position_highest as int),
    {
        self.wrapping_position_to(self.position + add)
    }

    /// The number at `position` of the focused group, clamped into
    /// `1..=position_highest`.
    pub fn saturating_position_to(&self, position: i32) -> (r: i32)
        requires
            self.inv(),
        ensures
            r == self.group * 10 + saturate(position as int, self.position_highest as int),
    {
        let position = saturate_to(position, self.position_highest);
        self.group * 10 + position
    }

    /// The number at `position` of the focused group, wrapped into
    /// `1..=position_highest`.
    pub fn wrapping_position_to(&self, position: i32) -> (r: i32)
        requires
            self.inv(),
        ensures
            r == self.group * 10 + wrap(position as int, self.position_highest as int),
    {
        let position = wrap_to(position, self.position_highest);
        self.group * 10 + position
    }

    pub fn is_start(&self) -> (r: bool)
        ensures
            r == (self.position == 1),
    {
        self.position == 1
    }

    pub fn is_end(&self) -> (r: bool)
        ensures
            r == (self.position == self.position_highest),
    {
        self.position == self.position_highest
    }

    /// No room is left for another position in the focused group.
    pub fn is_full(&self) -> (r: bool)
        ensures
            r == (self.position_highest >= 9),
    {
        self.position_highest >= 9
    }
}

/// Wrapping past either end of a group: one past the highest position gives
/// position 1, position 0 gives the highest position, for the focused group
/// and likewise for groups against the highest group.
pub proof fn lemma_wrap_edges(p: Positioner)
    requires
        p.inv(),
        p.position_highest >= 1,
        p.group_highest >= 1,
    ensures
        p.group * 10 + wrap(p.position_highest + 1, p.position_highest as int) == p.group * 10 + 1,
        p.group * 10 + wrap(0, p.position_highest as int) == p.group * 10 + p.position_highest,
        wrap(p.group_highest + 1, p.group_highest as int) * 10 + p.position == 10 + p.position,
        wrap(0, p.group_highest as int) * 10 + p.position == p.group_highest * 10 + p.position,
{
}

/// Saturating within a group: any position below 1 becomes 1, any above the
/// highest position becomes the highest, and any in between is kept.
pub proof fn lemma_saturate_bounds(p: Positioner, position: int)
    requires
        p.inv(),
        p.position_highest >= 1,
    ensures
        position < 1 ==> saturate(position, p.position_highest as int) == 1,
        position > p.position_highest ==> saturate(position, p.position_highest as int) == p.position_highest,
        1 <= position <= p.position_highest ==> saturate(position, p.position_highest as int) == position,
{
}

} // verus!
