use vstd::prelude::*;

use crate::snapshot::{Output, Workspace};
use crate::text::{decimal, decimal_text, digit, digits, join, join_commands, strip_numeric, strip_numeric_prefix, views};

verus! {

/// Why no canonical numbering exists for a snapshot: groups and positions
/// are single decimal digits.
#[derive(Clone, Copy, Debug, PartialEq, Eq, Structural)]
pub enum LayoutError {
    /// More than nine outputs hold workspaces.
    TooManyGroups,
    /// An output holds more than nine workspaces.
    TooManyPositions,
}

/// The canonical number of each workspace, by identity.
pub struct Numberer {
    entries: Vec<(i64, i32)>,
}

/// Index of the first output at or after `j` named `name`, or `outs.len()`.
pub open spec fn find_output(outs: Seq<Output>, name: Seq<char>, j: int) -> int
    decreases outs.len() - j,
{
    if j < 0 || j >= outs.len() {
        outs.len() as int
    } else if outs[j].name@ == name {
        j
    } else {
        find_output(outs, name, j + 1)
    }
}

/// The output that shows a workspace: the first one with its name.
pub open spec fn output_index(outs: Seq<Output>, name: Seq<char>) -> int {
    find_output(outs, name, 0)
}

pub open spec fn placed(outs: Seq<Output>, w: Workspace) -> bool {
    output_index(outs, w.output@) < outs.len()
}

/// Output `j` shows at least one workspace.
pub open spec fn occupied(outs: Seq<Output>, wss: Seq<Workspace>, j: int) -> bool {
    exists|k: int| 0 <= k < wss.len() && output_index(outs, (#[trigger] wss[k]).output@) == j
}

/// Outputs are ordered top to bottom, then left to right, then as listed.
pub open spec fn precedes(outs: Seq<Output>, a: int, b: int) -> bool {
    ||| outs[a].y < outs[b].y
    ||| (outs[a].y == outs[b].y && outs[a].x < outs[b].x)
    ||| (outs[a].y == outs[b].y && outs[a].x == outs[b].x && a < b)
}

/// Number of occupied outputs among the first `n` that precede output `j`.
pub open spec fn rank(outs: Seq<Output>, wss: Seq<Workspace>, j: int, n: int) -> nat
    decreases n,
{
    if n <= 0 {
        0
    } else {
        rank(outs, wss, j, n - 1) + if occupied(outs, wss, n - 1) && precedes(outs, n - 1, j) { 1nat } else { 0nat }
    }
}

/// The group of output `j`.
pub open spec fn group_of(outs: Seq<Output>, wss: Seq<Workspace>, j: int) -> int {
    1 + rank(outs, wss, j, outs.len() as int) as int
}

/// Workspace `i` comes before workspace `k` on their output: it has the
/// smaller live number, or the same number and is listed first.
pub open spec fn ranks_before(wss: Seq<Workspace>, i: int, k: int) -> bool {
    ||| wss[i].num < wss[k].num
    ||| (wss[i].num == wss[k].num && i < k)
}

/// Number of the first `n` workspaces that share the output of workspace
/// `k` and come before it.
pub open spec fn count_below(wss: Seq<Workspace>, k: int, n: int) -> nat
    decreases n,
{
    if n <= 0 {
        0
    } else {
        count_below(wss, k, n - 1) + if wss[n - 1].output@ == wss[k].output@ && ranks_before(wss, n - 1, k) {
            1nat
        } else {
            0nat
        }
    }
}

/// The position of workspace `k` within its group: its rank by live number
/// among the workspaces of its output.
pub open spec fn position_of(wss: Seq<Workspace>, k: int) -> int {
    1 + count_below(wss, k, wss.len() as int) as int
}

/// The canonical number of workspace `k`.
pub open spec fn number_of(outs: Seq<Output>, wss: Seq<Workspace>, k: int) -> int {
    group_of(outs, wss, output_index(outs, wss[k].output@)) * 10 + position_of(wss, k)
}

pub open spec fn too_many_groups(outs: Seq<Output>, wss: Seq<Workspace>) -> bool {
    exists|j: int| 0 <= j < outs.len() && occupied(outs, wss, j) && #[trigger] group_of(outs, wss, j) > 9
}

pub open spec fn too_many_positions(outs: Seq<Output>, wss: Seq<Workspace>) -> bool {
    exists|k: int| 0 <= k < wss.len() && placed(outs, wss[k]) && #[trigger] position_of(wss, k) > 9
}

/// Canonical entries of the first `n` workspaces that stand on a known output.
pub open spec fn canonical(outs: Seq<Output>, wss: Seq<Workspace>, n: int) -> Seq<(i64, i32)>
    decreases n,
{
    if n <= 0 {
        Seq::empty()
    } else if placed(outs, wss[n - 1]) {
        canonical(outs, wss, n - 1).push((wss[n - 1].id, number_of(outs, wss, n - 1) as i32))
    } else {
        canonical(outs, wss, n - 1)
    }
}

/// The entries after every number at or above `pivot` moved up by one.
pub open spec fn shifted(e: Seq<(i64, i32)>, pivot: int) -> Seq<(i64, i32)> {
    Seq::new(e.len(), |i: int| (e[i].0, if e[i].1 >= pivot { (e[i].1 + 1) as i32 } else { e[i].1 }))
}

/// The target number of workspace `id`: the first entry for it.
pub open spec fn target_from(e: Seq<(i64, i32)>, id: i64, i: int) -> Option<i32>
    decreases e.len() - i,
{
    if i < 0 || i >= e.len() {
        None
    } else if e[i].0 == id {
        Some(e[i].1)
    } else {
        target_from(e, id, i + 1)
    }
}

pub open spec fn target(e: Seq<(i64, i32)>, id: i64) -> Option<i32> {
    target_from(e, id, 0)
}

/// The workspace has a target number other than its live one.
pub open spec fn moves(e: Seq<(i64, i32)>, w: Workspace) -> bool {
    target(e, w.id) is Some && target(e, w.id).unwrap() != w.num
}

/// The live name's number prefix: empty for an unnumbered workspace.
pub open spec fn source(w: Workspace) -> Seq<char> {
    if w.num < 0 { Seq::empty() } else { decimal(w.num as int) }
}

/// First step of a rename: to the staging number `1{t}`, which no canonical
/// number (two digits) can equal.
pub open spec fn stage_command(w: Workspace, t: i32) -> Seq<char> {
    "rename workspace '"@ + source(w) + strip_numeric(w.name@) + "' to '1"@ + decimal(t as int)
        + strip_numeric(w.name@) + "'"@
}

/// Second step of a rename: from the staging number to `t`.
pub open spec fn settle_command(w: Workspace, t: i32) -> Seq<char> {
    "rename workspace '1"@ + decimal(t as int) + strip_numeric(w.name@) + "' to '"@ + decimal(t as int)
        + strip_numeric(w.name@) + "'"@
}

/// Staging renames for the first `n` live workspaces, in live order.
pub open spec fn stage_commands(e: Seq<(i64, i32)>, live: Seq<Workspace>, n: int) -> Seq<Seq<char>>
    decreases n,
{
    if n <= 0 {
        Seq::empty()
    } else if moves(e, live[n - 1]) {
        stage_commands(e, live, n - 1).push(stage_command(live[n - 1], target(e, live[n - 1].id).unwrap()))
    } else {
        stage_commands(e, live, n - 1)
    }
}

/// Final renames for the first `n` live workspaces, in live order.
pub open spec fn settle_commands(e: Seq<(i64, i32)>, live: Seq<Workspace>, n: int) -> Seq<Seq<char>>
    decreases n,
{
    if n <= 0 {
        Seq::empty()
    } else if moves(e, live[n - 1]) {
        settle_commands(e, live, n - 1).push(settle_command(live[n - 1], target(e, live[n - 1].id).unwrap()))
    } else {
        settle_commands(e, live, n - 1)
    }
}

/// Every staging rename, then every final rename.
pub open spec fn renames(e: Seq<(i64, i32)>, live: Seq<Workspace>) -> Seq<Seq<char>> {
    stage_commands(e, live, live.len() as int) + settle_commands(e, live, live.len() as int)
}

impl View for Numberer {
    type V = Seq<(i64, i32)>;

    closed spec fn view(&self) -> Seq<(i64, i32)> {
        self.entries@
    }
}

fn find_output_exec(outs: &[Output], name: &String) -> (r: usize)
    ensures
        r == output_index(outs@, name@),
        r <= outs@.len(),
{
    let mut j: usize = 0;
    while j < outs.len()
        invariant
            0 <= j <= outs@.len(),
            find_output(outs@, name@, 0) == find_output(outs@, name@, j as int),
        decreases outs@.len() - j,
    {
        if outs[j].name == *name {
            return j;
        }
        j = j + 1;
    }
    j
}

impl Numberer {
    /// Numbers every workspace that stands on a known output: outputs that
    /// show workspaces become groups `1, 2, ...` top to bottom and left to
    /// right, and the workspaces of each take positions `1, 2, ...` in the
    /// order given.
    pub fn new(workspaces: &[Workspace], outputs: &[Output]) -> (r: Result<Self, LayoutError>)
        ensures
            too_many_groups(outputs@, workspaces@) ==> r == Err::<Self, _>(LayoutError::TooManyGroups),
            !too_many_groups(outputs@, workspaces@) && too_many_positions(outputs@, workspaces@)
                ==> r == Err::<Self, _>(LayoutError::TooManyPositions),
            !too_many_groups(outputs@, workspaces@) && !too_many_positions(outputs@, workspaces@)
                ==> r is Ok && r.unwrap()@ == canonical(outputs@, workspaces@, workspaces@.len() as int),
            r is Ok && distinct_ids(workspaces@) ==> unique_ids(r.unwrap()@),
    {
        let ghost outs = outputs@;
        let ghost wss = workspaces@;
        let mut where_: Vec<usize> = Vec::new();
        let mut k: usize = 0;
        while k < workspaces.len()
            invariant
                0 <= k <= wss.len(),
                outs == outputs@,
                wss == workspaces@,
                where_@.len() == k,
                forall|i: int| 0 <= i < k ==> #[trigger] where_@[i] == output_index(outs, wss[i].output@),
                forall|i: int| 0 <= i < k ==> #[trigger] where_@[i] <= outs.len(),
            decreases wss.len() - k,
        {
            where_.push(find_output_exec(outputs, &workspaces[k].output));
            k = k + 1;
        }
        let mut occ: Vec<bool> = Vec::new();
        let mut j: usize = 0;
        while j < outputs.len()
            invariant
                0 <= j <= outs.len(),
                outs == outputs@,
                wss == workspaces@,
                where_@.len() == wss.len(),
                forall|i: int| 0 <= i < wss.len() ==> #[trigger] where_@[i] == output_index(outs, wss[i].output@),
                occ@.len() == j,
                forall|a: int| 0 <= a < j ==> #[trigger] occ@[a] == occupied(outs, wss, a),
            decreases outs.len() - j,
        {
            let mut found = false;
            let mut i: usize = 0;
            while i < where_.len()
                invariant
                    0 <= i <= wss.len(),
                    where_@.len() == wss.len(),
                    forall|i: int| 0 <= i < wss.len() ==> #[trigger] where_@[i] == output_index(outs, wss[i].output@),
                    found == exists|b: int| 0 <= b < i && output_index(outs, (#[trigger] wss[b]).output@) == j,
                decreases wss.len() - i,
            {
                if where_[i] == j {
                    found = true;
                }
                i = i + 1;
            }
            occ.push(found);
            j = j + 1;
        }
        let mut groups: Vec<usize> = Vec::new();
        let mut j: usize = 0;
        while j < outputs.len()
            invariant
                0 <= j <= outs.len(),
                outs == outputs@,
                wss == workspaces@,
                occ@.len() == outs.len(),
                forall|a: int| 0 <= a < outs.len() ==> #[trigger] occ@[a] == occupied(outs, wss, a),
                groups@.len() == j,
                forall|a: int| 0 <= a < j ==> #[trigger] groups@[a] == group_of(outs, wss, a),
                forall|a: int| 0 <= a < j ==> #[trigger] groups@[a] <= outs.len() + 1,
            decreases outs.len() - j,
        {
            let mut count: usize = 0;
            let mut a: usize = 0;
            while a < outputs.len()
                invariant
                    0 <= a <= outs.len(),
                    0 <= j < outs.len(),
                    outs == outputs@,
                    occ@.len() == outs.len(),
                    forall|a: int| 0 <= a < outs.len() ==> #[trigger] occ@[a] == occupied(outs, wss, a),
                    count == rank(outs, wss, j as int, a as int),
                    count + (if a > j { 1int } else { 0int }) <= a,
                decreases outs.len() - a,
            {
                let before = outputs[a].y < outputs[j].y
                    || (outputs[a].y == outputs[j].y && outputs[a].x < outputs[j].x)
                    || (outputs[a].y == outputs[j].y && outputs[a].x == outputs[j].x && a < j);
                if occ[a] && before {
                    count = count + 1;
                }
                a = a + 1;
            }
            groups.push(count + 1);
            j = j + 1;
        }
        let mut j: usize = 0;
        while j < outputs.len()
            invariant
                0 <= j <= outs.len(),
                outs == outputs@,
                occ@.len() == outs.len(),
                forall|a: int| 0 <= a < outs.len() ==> #[trigger] occ@[a] == occupied(outs, wss, a),
                groups@.len() == outs.len(),
                wss == workspaces@,
                forall|a: int| 0 <= a < outs.len() ==> #[trigger] groups@[a] == group_of(outs, wss, a),
                forall|a: int| 0 <= a < j ==> !(occupied(outs, wss, a) && #[trigger] group_of(outs, wss, a) > 9),
            decreases outs.len() - j,
        {
            if occ[j] && groups[j] > 9 {
                assert(occupied(outs, wss, j as int) && group_of(outs, wss, j as int) > 9);
                assert(too_many_groups(outs, wss));
                return Err(LayoutError::TooManyGroups);
            }
            j = j + 1;
        }
        let mut entries: Vec<(i64, i32)> = Vec::new();
        let mut k: usize = 0;
        while k < workspaces.len()
            invariant
                0 <= k <= wss.len(),
                outs == outputs@,
                wss == workspaces@,
                !too_many_groups(outs, wss),
                where_@.len() == wss.len(),
                forall|i: int| 0 <= i < wss.len() ==> #[trigger] where_@[i] == output_index(outs, wss[i].output@),
                forall|i: int| 0 <= i < wss.len() ==> #[trigger] where_@[i] <= outs.len(),
                groups@.len() == outs.len(),
                forall|a: int| 0 <= a < outs.len() ==> #[trigger] groups@[a] == group_of(outs, wss, a),
                forall|i: int| 0 <= i < k && placed(outs, wss[i]) ==> #[trigger] position_of(wss, i) <= 9,
                entries@ == canonical(outs, wss, k as int),
            decreases wss.len() - k,
        {
            let w = where_[k];
            if w < outputs.len() {
                let mut same: usize = 0;
                let mut i: usize = 0;
                while i < workspaces.len()
                    invariant
                        0 <= i <= wss.len(),
                        0 <= k < wss.len(),
                        wss == workspaces@,
                        same == count_below(wss, k as int, i as int),
                        same <= i,
                    decreases wss.len() - i,
                {
                    if workspaces[i].output == workspaces[k].output && (workspaces[i].num < workspaces[k].num
                        || (workspaces[i].num == workspaces[k].num && i < k)) {
                        same = same + 1;
                    }
                    i = i + 1;
                }
                if same >= 9 {
                    assert(placed(outs, wss[k as int]) && position_of(wss, k as int) > 9);
                    return Err(LayoutError::TooManyPositions);
                }
                let g = groups[w];
                assert(occupied(outs, wss, w as int)) by {
                    assert(output_index(outs, wss[k as int].output@) == w);
                }
                assert(g <= 9);
                let num: i32 = (g as i32) * 10 + (same as i32) + 1;
                entries.push((workspaces[k].id, num));
            }
            k = k + 1;
        }
        proof {
            if distinct_ids(wss) {
                lemma_canonical_ids(outs, wss, wss.len() as int);
            }
        }
        Ok(Numberer { entries })
    }

    /// A numberer with the given targets, by identity.
    pub fn from_entries(entries: Vec<(i64, i32)>) -> (r: Self)
        ensures
            r@ == entries@,
    {
        Numberer { entries }
    }

    /// The target number of workspace `id`.
    pub fn get(&self, id: i64) -> (r: Option<i32>)
        ensures
            r == target(self@, id),
    {
        let mut i: usize = 0;
        while i < self.entries.len()
            invariant
                0 <= i <= self.entries@.len(),
                target_from(self.entries@, id, 0) == target_from(self.entries@, id, i as int),
            decreases self.entries@.len() - i,
        {
            if self.entries[i].0 == id {
                return Some(self.entries[i].1);
            }
            i = i + 1;
        }
        None
    }

    /// Opens a slot at `num`: every number at or above it moves up by one.
    /// Returns `num`, the number now free.
    pub fn prepend_at(&mut self, num: i32) -> (r: i32)
        requires
            forall|i: int| 0 <= i < old(self)@.len() && (#[trigger] old(self)@[i]).1 >= num ==> old(self)@[i].1 < i32::MAX,
        ensures
            r == num,
            final(self)@ == shifted(old(self)@, num as int),
    {
        self.shift_from(num);
        num
    }

    /// Opens a slot right after `num`: every number above it moves up by one.
    /// Returns `num + 1`, the number now free.
    pub fn append_at(&mut self, num: i32) -> (r: i32)
        requires
            num < i32::MAX,
            forall|i: int| 0 <= i < old(self)@.len() && (#[trigger] old(self)@[i]).1 > num ==> old(self)@[i].1 < i32::MAX,
        ensures
            r == num + 1,
            final(self)@ == shifted(old(self)@, num + 1),
    {
        self.shift_from(num + 1);
        num + 1
    }

    fn shift_from(&mut self, pivot: i32)
        requires
            forall|i: int| 0 <= i < old(self)@.len() && (#[trigger] old(self)@[i]).1 >= pivot ==> old(self)@[i].1 < i32::MAX,
        ensures
            final(self)@ == shifted(old(self)@, pivot as int),
    {
        let ghost start = self.entries@;
        assert(start == old(self)@);
        let mut i: usize = 0;
        while i < self.entries.len()
            invariant
                0 <= i <= self.entries@.len(),
                self.entries@.len() == start.len(),
                forall|a: int| 0 <= a < start.len() && (#[trigger] start[a]).1 >= pivot ==> start[a].1 < i32::MAX,
                forall|a: int| 0 <= a < i ==> #[trigger] self.entries@[a] == shifted(start, pivot as int)[a],
                forall|a: int| i <= a < start.len() ==> #[trigger] self.entries@[a] == start[a],
            decreases start.len() - i,
        {
            let (id, n) = self.entries[i];
            if n >= pivot {
                self.entries.set(i, (id, n + 1));
            }
            i = i + 1;
        }
        assert(self.entries@ =~= shifted(start, pivot as int));
    }
}

fn rename_pair(w: &Workspace, t: i32) -> (r: (String, String))
    ensures
        r.0@ == stage_command(*w, t),
        r.1@ == settle_command(*w, t),
{
    let name = strip_numeric_prefix(w.name.as_str());
    let source_text = if w.num < 0 { String::new() } else { decimal_text(w.num) };
    let to = decimal_text(t);
    let mut stage = String::from_str("rename workspace '");
    stage.append(source_text.as_str());
    stage.append(name.as_str());
    stage.append("' to '1");
    stage.append(to.as_str());
    stage.append(name.as_str());
    stage.append("'");
    let mut settle = String::from_str("rename workspace '1");
    settle.append(to.as_str());
    settle.append(name.as_str());
    settle.append("' to '");
    settle.append(to.as_str());
    settle.append(name.as_str());
    settle.append("'");
    (stage, settle)
}

impl Numberer {
    /// The batch of renames that brings the live workspaces to their target
    /// numbers, or `None` when every one already has it. Each moving
    /// workspace is first renamed to a staging number (`1` before its
    /// target) and, once all have left their old numbers, to its target, so
    /// no two workspaces ever share a number on the way.
    pub fn reorder(&self, live: &[Workspace]) -> (r: Option<String>)
        ensures
            renames(self@, live@).len() == 0 ==> r is None,
            renames(self@, live@).len() > 0 ==> r is Some && r.unwrap()@ == join(renames(self@, live@)),
    {
        let mut stage: Vec<String> = Vec::new();
        let mut settle: Vec<String> = Vec::new();
        let mut i: usize = 0;
        while i < live.len()
            invariant
                0 <= i <= live@.len(),
                views(stage@) == stage_commands(self@, live@, i as int),
                views(settle@) == settle_commands(self@, live@, i as int),
            decreases live@.len() - i,
        {
            let w = &live[i];
            match self.get(w.id) {
                Some(t) => {
                    if t != w.num {
                        let (a, b) = rename_pair(w, t);
                        stage.push(a);
                        settle.push(b);
                        assert(views(stage@) =~= stage_commands(self@, live@, i as int).push(stage_command(*w, t)));
                        assert(views(settle@) =~= settle_commands(self@, live@, i as int).push(settle_command(*w, t)));
                    }
                },
                None => {},
            }
            i = i + 1;
        }
        stage.append(&mut settle);
        assert(views(stage@) =~= renames(self@, live@));
        if stage.len() == 0 {
            None
        } else {
            Some(join_commands(&stage))
        }
    }
}

/// The first output named `name` from `j` on: it has that name, and none
/// between `j` and it does.
pub proof fn lemma_find_output(outs: Seq<Output>, name: Seq<char>, j: int)
    requires
        0 <= j <= outs.len(),
    ensures
        j <= find_output(outs, name, j) <= outs.len(),
        find_output(outs, name, j) < outs.len() ==> outs[find_output(outs, name, j)].name@ == name,
        forall|a: int| j <= a < find_output(outs, name, j) ==> (#[trigger] outs[a]).name@ != name,
    decreases outs.len() - j,
{
    if j < outs.len() && outs[j].name@ != name {
        lemma_find_output(outs, name, j + 1);
    }
}

/// `e` is the identity and canonical number of a placed workspace among the first `n`.
pub open spec fn entry_of(outs: Seq<Output>, wss: Seq<Workspace>, n: int, e: (i64, i32)) -> bool {
    exists|k: int| 0 <= k < n && placed(outs, #[trigger] wss[k]) && e == (wss[k].id, number_of(outs, wss, k) as i32)
}

/// Each canonical entry is the identity and number of one placed workspace.
pub proof fn lemma_canonical_members(outs: Seq<Output>, wss: Seq<Workspace>, n: int)
    requires
        0 <= n <= wss.len(),
    ensures
        forall|idx: int| 0 <= idx < canonical(outs, wss, n).len()
            ==> entry_of(outs, wss, n, #[trigger] canonical(outs, wss, n)[idx]),
    decreases n,
{
    if n > 0 {
        lemma_canonical_members(outs, wss, n - 1);
        let prev = canonical(outs, wss, n - 1);
        let cur = canonical(outs, wss, n);
        assert forall|idx: int| 0 <= idx < cur.len() implies entry_of(outs, wss, n, #[trigger] cur[idx]) by {
            if idx < prev.len() {
                assert(cur[idx] == prev[idx]);
                assert(entry_of(outs, wss, n - 1, prev[idx]));
                let k = choose|k: int| 0 <= k < n - 1 && placed(outs, #[trigger] wss[k]) && prev[idx] == (
                    wss[k].id,
                    number_of(outs, wss, k) as i32,
                );
                assert(0 <= k < n && placed(outs, wss[k]));
            } else {
                assert(cur[idx] == (wss[n - 1].id, number_of(outs, wss, n - 1) as i32));
                assert(placed(outs, wss[n - 1]));
            }
        }
    }
}

/// In a snapshot that can be numbered, every placed workspace gets a group
/// and a position between 1 and 9.
pub proof fn lemma_number_digits(outs: Seq<Output>, wss: Seq<Workspace>, k: int)
    requires
        0 <= k < wss.len(),
        placed(outs, wss[k]),
        !too_many_groups(outs, wss),
        !too_many_positions(outs, wss),
    ensures
        1 <= group_of(outs, wss, output_index(outs, wss[k].output@)) <= 9,
        1 <= position_of(wss, k) <= 9,
        11 <= number_of(outs, wss, k) <= 99,
{
    lemma_find_output(outs, wss[k].output@, 0);
    let j = output_index(outs, wss[k].output@);
    assert(occupied(outs, wss, j));
    assert(!(0 <= k < wss.len() && placed(outs, wss[k]) && position_of(wss, k) > 9));
    assert(!(0 <= j < outs.len() && occupied(outs, wss, j) && group_of(outs, wss, j) > 9));
}

/// Every canonical number of a snapshot that can be numbered lies in `11..=99`.
pub proof fn lemma_canonical_range(outs: Seq<Output>, wss: Seq<Workspace>)
    requires
        !too_many_groups(outs, wss),
        !too_many_positions(outs, wss),
    ensures
        forall|idx: int| 0 <= idx < canonical(outs, wss, wss.len() as int).len()
            ==> 11 <= (#[trigger] canonical(outs, wss, wss.len() as int)[idx]).1 <= 99,
{
    let c = canonical(outs, wss, wss.len() as int);
    lemma_canonical_members(outs, wss, wss.len() as int);
    assert forall|idx: int| 0 <= idx < c.len() implies 11 <= (#[trigger] c[idx]).1 <= 99 by {
        assert(entry_of(outs, wss, wss.len() as int, c[idx]));
        let k = choose|k: int| 0 <= k < wss.len() && placed(outs, #[trigger] wss[k]) && c[idx] == (
            wss[k].id,
            number_of(outs, wss, k) as i32,
        );
        lemma_number_digits(outs, wss, k);
    }
}

/// The target of a workspace after a shift is its old target, shifted.
pub proof fn lemma_target_shifted(e: Seq<(i64, i32)>, pivot: int, id: i64, i: int)
    requires
        0 <= i <= e.len(),
    ensures
        target_from(shifted(e, pivot), id, i) == match target_from(e, id, i) {
            Some(t) => Some(if t >= pivot { (t + 1) as i32 } else { t }),
            None => None,
        },
        target_from(e, id, i) is Some ==> exists|k: int|
            i <= k < e.len() && #[trigger] e[k] == (id, target_from(e, id, i).unwrap()),
    decreases e.len() - i,
{
    if i < e.len() && e[i].0 != id {
        lemma_target_shifted(e, pivot, id, i + 1);
    }
}

/// `prepend_at(n)` moves every number at or above `n` up by exactly one and
/// keeps every number below `n`, for the same identities.
pub proof fn lemma_prepend_shifts(e: Seq<(i64, i32)>, n: i32)
    requires
        forall|i: int| 0 <= i < e.len() && (#[trigger] e[i]).1 >= n ==> e[i].1 < i32::MAX,
    ensures
        shifted(e, n as int).len() == e.len(),
        forall|i: int| 0 <= i < e.len() ==> (#[trigger] shifted(e, n as int)[i]).0 == e[i].0,
        forall|i: int| 0 <= i < e.len() && e[i].1 >= n ==> #[trigger] shifted(e, n as int)[i].1 == e[i].1 + 1,
        forall|i: int| 0 <= i < e.len() && e[i].1 < n ==> #[trigger] shifted(e, n as int)[i].1 == e[i].1,
{
}

/// `append_at(n)` frees `n + 1`: no entry holds it afterwards, numbers up to
/// `n` are kept and numbers above `n` move up by one. Diffed against live
/// workspaces that already hold their old targets, exactly those above `n`
/// get renamed.
pub proof fn lemma_append_frees_next(e: Seq<(i64, i32)>, n: i32, live: Seq<Workspace>)
    requires
        n < i32::MAX,
        forall|i: int| 0 <= i < e.len() && (#[trigger] e[i]).1 > n ==> e[i].1 < i32::MAX,
        forall|i: int| 0 <= i < live.len() && (#[trigger] target(e, live[i].id)) is Some
            ==> target(e, live[i].id).unwrap() == live[i].num,
    ensures
        shifted(e, n + 1).len() == e.len(),
        forall|i: int| 0 <= i < e.len() ==> (#[trigger] shifted(e, n + 1)[i]).0 == e[i].0,
        forall|i: int| 0 <= i < e.len() ==> (#[trigger] shifted(e, n + 1)[i]).1 != n + 1,
        forall|i: int| 0 <= i < e.len() && e[i].1 <= n ==> #[trigger] shifted(e, n + 1)[i].1 == e[i].1,
        forall|i: int| 0 <= i < e.len() && e[i].1 > n ==> #[trigger] shifted(e, n + 1)[i].1 == e[i].1 + 1,
        forall|i: int| 0 <= i < live.len() ==> (#[trigger] moves(shifted(e, n + 1), live[i])
            <==> (target(e, live[i].id) is Some && live[i].num > n)),
{
    assert forall|i: int| 0 <= i < live.len() implies (#[trigger] moves(shifted(e, n + 1), live[i])
        <==> (target(e, live[i].id) is Some && live[i].num > n)) by {
        lemma_target_shifted(e, n + 1, live[i].id, 0);
        if target(e, live[i].id) is Some {
            let t = target(e, live[i].id).unwrap();
            let k = choose|k: int| 0 <= k < e.len() && #[trigger] e[k] == (live[i].id, t);
            assert(e[k].1 == t);
        }
    }
}

/// With no workspace moving, no renames are planned.
proof fn lemma_no_moves(e: Seq<(i64, i32)>, live: Seq<Workspace>, n: int)
    requires
        0 <= n <= live.len(),
        forall|i: int| 0 <= i < live.len() ==> !moves(e, #[trigger] live[i]),
    ensures
        stage_commands(e, live, n).len() == 0,
        settle_commands(e, live, n).len() == 0,
    decreases n,
{
    if n > 0 {
        lemma_no_moves(e, live, n - 1);
    }
}

/// Reorder is idempotent: once the compositor has carried out a batch, each
/// workspace holding its target number (and the others keeping theirs), a
/// second reorder against the same numberer plans no rename at all.
pub proof fn lemma_reorder_idempotent(e: Seq<(i64, i32)>, live: Seq<Workspace>, after: Seq<Workspace>)
    requires
        after.len() == live.len(),
        forall|i: int| 0 <= i < live.len() ==> (#[trigger] after[i]).id == live[i].id,
        forall|i: int| 0 <= i < live.len() ==> (#[trigger] after[i]).num == match target(e, live[i].id) {
            Some(t) => t,
            None => live[i].num,
        },
    ensures
        renames(e, after).len() == 0,
{
    lemma_no_moves(e, after, after.len() as int);
}

/// A workspace counts every workspace of its output that comes before a
/// workspace it comes before, and that one too.
proof fn lemma_count_grows(wss: Seq<Workspace>, a: int, b: int, n: int)
    requires
        0 <= a < wss.len(),
        0 <= b < wss.len(),
        0 <= n <= wss.len(),
        wss[a].output@ == wss[b].output@,
        ranks_before(wss, a, b),
    ensures
        count_below(wss, b, n) >= count_below(wss, a, n) + if a < n { 1int } else { 0int },
    decreases n,
{
    if n > 0 {
        lemma_count_grows(wss, a, b, n - 1);
    }
}

/// The last of the first `n` workspaces that come before `k` on its output,
/// when there is one.
proof fn lemma_last_below(wss: Seq<Workspace>, k: int, n: int) -> (i: int)
    requires
        0 <= k < wss.len(),
        0 <= n <= wss.len(),
        count_below(wss, k, n) > 0,
    ensures
        0 <= i < n,
        wss[i].output@ == wss[k].output@,
        ranks_before(wss, i, k),
        forall|j: int| 0 <= j < n && (#[trigger] wss[j]).output@ == wss[k].output@ && ranks_before(wss, j, k)
            ==> j == i || ranks_before(wss, j, i),
    decreases n,
{
    let last = n - 1;
    let hit = wss[last].output@ == wss[k].output@ && ranks_before(wss, last, k);
    if count_below(wss, k, n - 1) == 0 {
        assert(hit);
        assert forall|j: int| 0 <= j < n && (#[trigger] wss[j]).output@ == wss[k].output@ && ranks_before(wss, j, k)
            implies j == last || ranks_before(wss, j, last) by {
            if j < n - 1 {
                lemma_none_below(wss, k, n - 1, j);
            }
        }
        last
    } else {
        let i = lemma_last_below(wss, k, n - 1);
        if hit && ranks_before(wss, i, last) {
            last
        } else {
            i
        }
    }
}

proof fn lemma_none_below(wss: Seq<Workspace>, k: int, n: int, j: int)
    requires
        0 <= k < wss.len(),
        0 <= j < n <= wss.len(),
        count_below(wss, k, n) == 0,
    ensures
        !(wss[j].output@ == wss[k].output@ && ranks_before(wss, j, k)),
    decreases n,
{
    if j < n - 1 {
        lemma_none_below(wss, k, n - 1, j);
    }
}

/// Counting before `k` counts what is before `i`, plus `i` itself, when `i`
/// is the last workspace before `k`.
proof fn lemma_count_step(wss: Seq<Workspace>, k: int, i: int, n: int)
    requires
        0 <= k < wss.len(),
        0 <= i < wss.len(),
        0 <= n <= wss.len(),
        wss[i].output@ == wss[k].output@,
        ranks_before(wss, i, k),
        forall|j: int| 0 <= j < wss.len() && (#[trigger] wss[j]).output@ == wss[k].output@ && ranks_before(wss, j, k)
            ==> j == i || ranks_before(wss, j, i),
    ensures
        count_below(wss, k, n) == count_below(wss, i, n) + if i < n { 1int } else { 0int },
    decreases n,
{
    if n > 0 {
        lemma_count_step(wss, k, i, n - 1);
        let j = n - 1;
        assert(wss[j] == wss[j]);
    }
}

/// Every position below that of workspace `k` is held by a workspace of the
/// same output.
proof fn lemma_position_reached(wss: Seq<Workspace>, k: int, v: int)
    requires
        0 <= k < wss.len(),
        0 <= v < count_below(wss, k, wss.len() as int),
    ensures
        exists|i: int| 0 <= i < wss.len() && (#[trigger] wss[i]).output@ == wss[k].output@
            && count_below(wss, i, wss.len() as int) == v,
    decreases count_below(wss, k, wss.len() as int),
{
    let n = wss.len() as int;
    let i = lemma_last_below(wss, k, n);
    lemma_count_step(wss, k, i, n);
    if v < count_below(wss, i, n) {
        lemma_position_reached(wss, i, v);
        let j = choose|j: int| 0 <= j < wss.len() && (#[trigger] wss[j]).output@ == wss[i].output@
            && count_below(wss, j, n) == v;
        assert(wss[j].output@ == wss[k].output@);
    } else {
        assert(wss[i].output@ == wss[k].output@ && count_below(wss, i, n) == v);
    }
}

proof fn lemma_rank_grows(outs: Seq<Output>, wss: Seq<Workspace>, a: int, b: int, n: int)
    requires
        0 <= a < outs.len(),
        0 <= b < outs.len(),
        0 <= n <= outs.len(),
        occupied(outs, wss, a),
        precedes(outs, a, b),
    ensures
        rank(outs, wss, b, n) >= rank(outs, wss, a, n) + if a < n { 1int } else { 0int },
    decreases n,
{
    if n > 0 {
        lemma_rank_grows(outs, wss, a, b, n - 1);
    }
}

/// Distinct occupied outputs get distinct groups.
proof fn lemma_groups_differ(outs: Seq<Output>, wss: Seq<Workspace>, a: int, b: int)
    requires
        0 <= a < outs.len(),
        0 <= b < outs.len(),
        a != b,
        occupied(outs, wss, a),
        occupied(outs, wss, b),
    ensures
        group_of(outs, wss, a) != group_of(outs, wss, b),
{
    if precedes(outs, a, b) {
        lemma_rank_grows(outs, wss, a, b, outs.len() as int);
    } else {
        lemma_rank_grows(outs, wss, b, a, outs.len() as int);
    }
}

/// Two placed workspaces never share a canonical number.
proof fn lemma_numbers_differ(outs: Seq<Output>, wss: Seq<Workspace>, k1: int, k2: int)
    requires
        0 <= k1 < wss.len(),
        0 <= k2 < wss.len(),
        k1 != k2,
        placed(outs, wss[k1]),
        placed(outs, wss[k2]),
        !too_many_groups(outs, wss),
        !too_many_positions(outs, wss),
    ensures
        number_of(outs, wss, k1) != number_of(outs, wss, k2),
{
    lemma_number_digits(outs, wss, k1);
    lemma_number_digits(outs, wss, k2);
    let name1 = wss[k1].output@;
    let name2 = wss[k2].output@;
    lemma_find_output(outs, name1, 0);
    lemma_find_output(outs, name2, 0);
    if name1 == name2 {
        let n = wss.len() as int;
        if ranks_before(wss, k1, k2) {
            lemma_count_grows(wss, k1, k2, n);
        } else {
            lemma_count_grows(wss, k2, k1, n);
        }
    } else {
        let j1 = output_index(outs, name1);
        let j2 = output_index(outs, name2);
        assert(occupied(outs, wss, j1));
        assert(occupied(outs, wss, j2));
        lemma_groups_differ(outs, wss, j1, j2);
    }
}

/// The entry of every placed workspace stands in the canonical numbering.
proof fn lemma_canonical_covers(outs: Seq<Output>, wss: Seq<Workspace>, n: int, k: int)
    requires
        0 <= k < n <= wss.len(),
        placed(outs, wss[k]),
    ensures
        exists|idx: int| 0 <= idx < canonical(outs, wss, n).len()
            && #[trigger] canonical(outs, wss, n)[idx] == (wss[k].id, number_of(outs, wss, k) as i32),
    decreases n,
{
    let cur = canonical(outs, wss, n);
    if k == n - 1 {
        assert(cur[cur.len() - 1] == (wss[k].id, number_of(outs, wss, k) as i32));
    } else {
        lemma_canonical_covers(outs, wss, n - 1, k);
        let prev = canonical(outs, wss, n - 1);
        let idx = choose|idx: int| 0 <= idx < prev.len()
            && #[trigger] prev[idx] == (wss[k].id, number_of(outs, wss, k) as i32);
        assert(cur[idx] == prev[idx]);
    }
}

proof fn lemma_canonical_unique(outs: Seq<Output>, wss: Seq<Workspace>, n: int)
    requires
        0 <= n <= wss.len(),
        !too_many_groups(outs, wss),
        !too_many_positions(outs, wss),
    ensures
        unique_numbers(canonical(outs, wss, n)),
    decreases n,
{
    if n > 0 {
        lemma_canonical_unique(outs, wss, n - 1);
        lemma_canonical_members(outs, wss, n - 1);
        let prev = canonical(outs, wss, n - 1);
        let cur = canonical(outs, wss, n);
        if placed(outs, wss[n - 1]) {
            lemma_number_digits(outs, wss, n - 1);
            assert forall|a: int, b: int|
                0 <= a < cur.len() && 0 <= b < cur.len() && a != b implies #[trigger] cur[a].1 != #[trigger] cur[b].1 by {
                if a < prev.len() && b < prev.len() {
                    assert(cur[a] == prev[a] && cur[b] == prev[b]);
                } else {
                    let o = if a < prev.len() { a } else { b };
                    assert(cur[o] == prev[o]);
                    assert(entry_of(outs, wss, n - 1, prev[o]));
                    let k = choose|k: int| 0 <= k < n - 1 && placed(outs, #[trigger] wss[k]) && prev[o] == (
                        wss[k].id,
                        number_of(outs, wss, k) as i32,
                    );
                    lemma_number_digits(outs, wss, k);
                    lemma_numbers_differ(outs, wss, k, n - 1);
                }
            }
        }
    }
}

/// No two entries hold the same number.
pub open spec fn unique_numbers(c: Seq<(i64, i32)>) -> bool {
    forall|a: int, b: int| 0 <= a < c.len() && 0 <= b < c.len() && a != b ==> #[trigger] c[a].1 != #[trigger] c[b].1
}

/// Some entry holds number `x`.
pub open spec fn has_number(c: Seq<(i64, i32)>, x: int) -> bool {
    exists|b: int| 0 <= b < c.len() && (#[trigger] c[b]).1 == x
}

/// Every number is `group * 10 + position` with both digits between 1 and
/// 9, and below each position of a group every lower position is taken.
pub open spec fn contiguous(c: Seq<(i64, i32)>) -> bool {
    &&& forall|a: int| 0 <= a < c.len() ==> 1 <= (#[trigger] c[a]).1 / 10 <= 9 && 1 <= c[a].1 % 10 <= 9
    &&& forall|a: int, q: int| 0 <= a < c.len() && 1 <= q <= c[a].1 % 10
        ==> #[trigger] has_number(c, (c[a].1 / 10) * 10 + q)
}

/// The canonical numbering of any snapshot that can be numbered gives each
/// workspace its own number, and the positions of every group run from 1
/// without a gap.
pub proof fn lemma_canonical_numbering(outs: Seq<Output>, wss: Seq<Workspace>)
    requires
        !too_many_groups(outs, wss),
        !too_many_positions(outs, wss),
    ensures
        unique_numbers(canonical(outs, wss, wss.len() as int)),
        contiguous(canonical(outs, wss, wss.len() as int)),
{
    let n = wss.len() as int;
    let c = canonical(outs, wss, n);
    lemma_canonical_unique(outs, wss, n);
    lemma_canonical_members(outs, wss, n);
    assert forall|a: int| 0 <= a < c.len() implies 1 <= (#[trigger] c[a]).1 / 10 <= 9 && 1 <= c[a].1 % 10 <= 9 by {
        assert(entry_of(outs, wss, n, c[a]));
        let k = choose|k: int| 0 <= k < n && placed(outs, #[trigger] wss[k]) && c[a] == (
            wss[k].id,
            number_of(outs, wss, k) as i32,
        );
        lemma_number_digits(outs, wss, k);
    }
    assert forall|a: int, q: int| 0 <= a < c.len() && 1 <= q <= c[a].1 % 10
        implies #[trigger] has_number(c, (c[a].1 / 10) * 10 + q) by {
        assert(entry_of(outs, wss, n, c[a]));
        let k = choose|k: int| 0 <= k < n && placed(outs, #[trigger] wss[k]) && c[a] == (
            wss[k].id,
            number_of(outs, wss, k) as i32,
        );
        lemma_number_digits(outs, wss, k);
        let name = wss[k].output@;
        let g = group_of(outs, wss, output_index(outs, name));
        assert(c[a].1 / 10 == g && c[a].1 % 10 == position_of(wss, k));
        if q == position_of(wss, k) {
            assert(c[a].1 == (c[a].1 / 10) * 10 + q);
        } else {
            lemma_position_reached(wss, k, q - 1);
            let i = choose|i: int| 0 <= i < wss.len() && (#[trigger] wss[i]).output@ == name
                && count_below(wss, i, n) == q - 1;
            assert(placed(outs, wss[i]));
            assert(number_of(outs, wss, i) == g * 10 + q);
            lemma_canonical_covers(outs, wss, n, i);
            let idx = choose|idx: int| 0 <= idx < c.len() && #[trigger] c[idx] == (wss[i].id, number_of(outs, wss, i) as i32);
            assert(c[idx].1 == (c[a].1 / 10) * 10 + q);
        }
    }
}

/// For a two-digit target `t`, the staging name's number `1{t}` is `100 + t`.
pub proof fn lemma_staging_number(t: int)
    requires
        10 <= t <= 99,
    ensures
        seq!['1'] + decimal(t) == decimal(100 + t),
{
    let hi = t / 10;
    let lo = t % 10;
    assert(digits((t / 10) as nat) == seq![digit(hi)]);
    assert(decimal(t) == seq![digit(hi)].push(digit(lo)));
    assert((100 + t) / 10 == 10 + hi);
    assert((100 + t) % 10 == lo);
    assert((10 + hi) / 10 == 1 && (10 + hi) % 10 == hi);
    assert(digits(1) == seq!['1']);
    assert(digits((10 + hi) as nat) == seq!['1'].push(digit(hi)));
    assert(decimal(100 + t) == seq!['1'].push(digit(hi)).push(digit(lo)));
    assert(seq!['1'] + seq![digit(hi)].push(digit(lo)) =~= seq!['1'].push(digit(hi)).push(digit(lo)));
}

/// The number of live workspace `i` once the first `m` live workspaces have
/// taken their staging numbers.
pub open spec fn staged_number(e: Seq<(i64, i32)>, live: Seq<Workspace>, m: int, i: int) -> int {
    if i < m && moves(e, live[i]) {
        100 + target(e, live[i].id).unwrap()
    } else {
        live[i].num as int
    }
}

/// The number of live workspace `i` once every moving workspace is staged
/// and the first `m` of them have reached their targets.
pub open spec fn settled_number(e: Seq<(i64, i32)>, live: Seq<Workspace>, m: int, i: int) -> int {
    if moves(e, live[i]) {
        if i < m {
            target(e, live[i].id).unwrap() as int
        } else {
            100 + target(e, live[i].id).unwrap()
        }
    } else {
        live[i].num as int
    }
}

/// No two numbered workspaces (number at least 0) share a number.
pub open spec fn distinct_numbers(live: Seq<Workspace>, number: spec_fn(int) -> int) -> bool {
    forall|a: int, b: int|
        0 <= a < live.len() && 0 <= b < live.len() && a != b && number(a) >= 0 && number(b) >= 0
            ==> #[trigger] number(a) != #[trigger] number(b)
}

/// A snapshot that the rename batch can act on without a clash: live numbers
/// are distinct and none is a staging number (100 to 199), identities are distinct, targets are distinct
/// two-digit numbers, and no workspace without a target holds one.
pub open spec fn clean_start(e: Seq<(i64, i32)>, live: Seq<Workspace>) -> bool {
    &&& forall|a: int, b: int| 0 <= a < live.len() && 0 <= b < live.len() && a != b
        && live[a].num >= 0 && live[b].num >= 0 ==> #[trigger] live[a].num != #[trigger] live[b].num
    &&& forall|i: int| 0 <= i < live.len() ==> !(100 <= (#[trigger] live[i]).num <= 199)
    &&& forall|a: int, b: int| 0 <= a < live.len() && 0 <= b < live.len() && a != b
        ==> #[trigger] live[a].id != #[trigger] live[b].id
    &&& unique_numbers(e)
    &&& forall|k: int| 0 <= k < e.len() ==> 10 <= (#[trigger] e[k]).1 <= 99
    &&& forall|i: int, j: int| 0 <= i < live.len() && 0 <= j < live.len()
        && target(e, live[i].id) is None && #[trigger] target(e, live[j].id) is Some
        ==> #[trigger] live[i].num != target(e, live[j].id).unwrap()
}

proof fn lemma_target_entry(e: Seq<(i64, i32)>, id: i64) -> (k: int)
    requires
        target(e, id) is Some,
    ensures
        0 <= k < e.len(),
        e[k] == (id, target(e, id).unwrap()),
{
    lemma_target_shifted(e, 0, id, 0);
    choose|k: int| 0 <= k < e.len() && #[trigger] e[k] == (id, target(e, id).unwrap())
}

/// The rename batch never lets two workspaces share a number: not after any
/// staging rename, nor after any final rename, provided the snapshot is
/// clean. Staging numbers lie above 99, so they clash neither with each
/// other (targets are distinct) nor with any live number or target.
pub proof fn lemma_batch_never_clashes(e: Seq<(i64, i32)>, live: Seq<Workspace>, m: int)
    requires
        clean_start(e, live),
        0 <= m <= live.len(),
    ensures
        distinct_numbers(live, |i: int| staged_number(e, live, m, i)),
        distinct_numbers(live, |i: int| settled_number(e, live, m, i)),
{
    assert forall|a: int, b: int| 0 <= a < live.len() && 0 <= b < live.len() && a != b
        && target(e, live[a].id) is Some && target(e, live[b].id) is Some
        implies #[trigger] target(e, live[a].id).unwrap() != #[trigger] target(e, live[b].id).unwrap() by {
        let ka = lemma_target_entry(e, live[a].id);
        let kb = lemma_target_entry(e, live[b].id);
        assert(live[a].id != live[b].id);
        assert(ka != kb);
        assert(e[ka].1 != e[kb].1);
    }
    assert forall|i: int| 0 <= i < live.len() && #[trigger] target(e, live[i].id) is Some
        implies 10 <= target(e, live[i].id).unwrap() <= 99 by {
        let k = lemma_target_entry(e, live[i].id);
        assert(10 <= e[k].1 <= 99);
    }
    let staged = |i: int| staged_number(e, live, m, i);
    let settled = |i: int| settled_number(e, live, m, i);
    assert forall|a: int, b: int|
        0 <= a < live.len() && 0 <= b < live.len() && a != b && staged(a) >= 0 && staged(b) >= 0
            implies #[trigger] staged(a) != #[trigger] staged(b) by {
        assert(live[a].num != live[b].num || live[a].num < 0 || live[b].num < 0);
    }
    assert forall|a: int, b: int|
        0 <= a < live.len() && 0 <= b < live.len() && a != b && settled(a) >= 0 && settled(b) >= 0
            implies #[trigger] settled(a) != #[trigger] settled(b) by {
        assert(live[a].num != live[b].num || live[a].num < 0 || live[b].num < 0);
        if !moves(e, live[a]) && target(e, live[a].id) is None && moves(e, live[b]) {
            assert(live[a].num != target(e, live[b].id).unwrap());
        }
        if !moves(e, live[b]) && target(e, live[b].id) is None && moves(e, live[a]) {
            assert(live[b].num != target(e, live[a].id).unwrap());
        }
    }
}

/// No two workspaces share an identity.
pub open spec fn distinct_ids(wss: Seq<Workspace>) -> bool {
    forall|a: int, b: int| 0 <= a < wss.len() && 0 <= b < wss.len() && a != b
        ==> #[trigger] wss[a].id != #[trigger] wss[b].id
}

/// No two entries share an identity: each workspace has one target.
pub open spec fn unique_ids(c: Seq<(i64, i32)>) -> bool {
    forall|a: int, b: int| 0 <= a < c.len() && 0 <= b < c.len() && a != b ==> #[trigger] c[a].0 != #[trigger] c[b].0
}

proof fn lemma_canonical_ids(outs: Seq<Output>, wss: Seq<Workspace>, n: int)
    requires
        0 <= n <= wss.len(),
        distinct_ids(wss),
    ensures
        unique_ids(canonical(outs, wss, n)),
    decreases n,
{
    if n > 0 {
        lemma_canonical_ids(outs, wss, n - 1);
        lemma_canonical_members(outs, wss, n - 1);
        let prev = canonical(outs, wss, n - 1);
        let cur = canonical(outs, wss, n);
        if placed(outs, wss[n - 1]) {
            assert forall|a: int, b: int|
                0 <= a < cur.len() && 0 <= b < cur.len() && a != b implies #[trigger] cur[a].0 != #[trigger] cur[b].0 by {
                if a < prev.len() && b < prev.len() {
                    assert(cur[a] == prev[a] && cur[b] == prev[b]);
                } else {
                    let o = if a < prev.len() { a } else { b };
                    assert(cur[o] == prev[o]);
                    assert(entry_of(outs, wss, n - 1, prev[o]));
                    let k = choose|k: int| 0 <= k < n - 1 && placed(outs, #[trigger] wss[k]) && prev[o] == (
                        wss[k].id,
                        number_of(outs, wss, k) as i32,
                    );
                    assert(wss[k].id != wss[n - 1].id);
                }
            }
        }
    }
}

proof fn lemma_target_unique(c: Seq<(i64, i32)>, id: i64, idx: int, i: int)
    requires
        unique_ids(c),
        0 <= i <= idx < c.len(),
        c[idx].0 == id,
    ensures
        target_from(c, id, i) == Some(c[idx].1),
    decreases idx - i,
{
    if c[i].0 != id {
        lemma_target_unique(c, id, idx, i + 1);
    }
}

proof fn lemma_target_absent(c: Seq<(i64, i32)>, id: i64, i: int)
    requires
        0 <= i <= c.len(),
        forall|idx: int| 0 <= idx < c.len() ==> (#[trigger] c[idx]).0 != id,
    ensures
        target_from(c, id, i) is None,
    decreases c.len() - i,
{
    if i < c.len() {
        lemma_target_absent(c, id, i + 1);
    }
}

/// The target of a workspace in its canonical numbering: its canonical
/// number when it is placed, none otherwise.
proof fn lemma_canonical_target(outs: Seq<Output>, wss: Seq<Workspace>, k: int)
    requires
        0 <= k < wss.len(),
        distinct_ids(wss),
    ensures
        placed(outs, wss[k]) ==> target(canonical(outs, wss, wss.len() as int), wss[k].id)
            == Some(number_of(outs, wss, k) as i32),
        !placed(outs, wss[k]) ==> target(canonical(outs, wss, wss.len() as int), wss[k].id) is None,
{
    let n = wss.len() as int;
    let c = canonical(outs, wss, n);
    lemma_canonical_ids(outs, wss, n);
    if placed(outs, wss[k]) {
        lemma_canonical_covers(outs, wss, n, k);
        let idx = choose|idx: int| 0 <= idx < c.len() && #[trigger] c[idx] == (wss[k].id, number_of(outs, wss, k) as i32);
        lemma_target_unique(c, wss[k].id, idx, 0);
    } else {
        lemma_canonical_members(outs, wss, n);
        assert forall|idx: int| 0 <= idx < c.len() implies (#[trigger] c[idx]).0 != wss[k].id by {
            assert(entry_of(outs, wss, n, c[idx]));
            let k2 = choose|k2: int| 0 <= k2 < n && placed(outs, #[trigger] wss[k2]) && c[idx] == (
                wss[k2].id,
                number_of(outs, wss, k2) as i32,
            );
            assert(k2 != k);
        }
        lemma_target_absent(c, wss[k].id, 0);
    }
}

/// `after` is `wss` once every workspace holds its canonical target, listed
/// in the same order and on the same outputs.
pub open spec fn settled_snapshot(outs: Seq<Output>, wss: Seq<Workspace>, after: Seq<Workspace>) -> bool {
    &&& after.len() == wss.len()
    &&& forall|i: int| 0 <= i < wss.len() ==> {
        &&& (#[trigger] after[i]).id == wss[i].id
        &&& after[i].output@ == wss[i].output@
        &&& after[i].num == match target(canonical(outs, wss, wss.len() as int), wss[i].id) {
            Some(t) => t,
            None => wss[i].num,
        }
    }
}

proof fn lemma_rank_same(outs: Seq<Output>, wss: Seq<Workspace>, after: Seq<Workspace>, j: int, n: int)
    requires
        0 <= n <= outs.len(),
        after.len() == wss.len(),
        forall|i: int| 0 <= i < wss.len() ==> (#[trigger] after[i]).output@ == wss[i].output@,
    ensures
        rank(outs, after, j, n) == rank(outs, wss, j, n),
        forall|a: int| occupied(outs, after, a) == #[trigger] occupied(outs, wss, a),
    decreases n,
{
    assert forall|a: int| occupied(outs, after, a) == #[trigger] occupied(outs, wss, a) by {
        if occupied(outs, wss, a) {
            let k = choose|k: int| 0 <= k < wss.len() && output_index(outs, (#[trigger] wss[k]).output@) == a;
            assert(output_index(outs, after[k].output@) == a);
        }
        if occupied(outs, after, a) {
            let k = choose|k: int| 0 <= k < after.len() && output_index(outs, (#[trigger] after[k]).output@) == a;
            assert(output_index(outs, wss[k].output@) == a);
        }
    }
    if n > 0 {
        lemma_rank_same(outs, wss, after, j, n - 1);
    }
}

proof fn lemma_count_same(outs: Seq<Output>, wss: Seq<Workspace>, after: Seq<Workspace>, k: int, n: int)
    requires
        0 <= k < wss.len(),
        0 <= n <= wss.len(),
        placed(outs, wss[k]),
        !too_many_groups(outs, wss),
        !too_many_positions(outs, wss),
        distinct_ids(wss),
        settled_snapshot(outs, wss, after),
    ensures
        count_below(after, k, n) == count_below(wss, k, n),
    decreases n,
{
    if n > 0 {
        lemma_count_same(outs, wss, after, k, n - 1);
        let i = n - 1;
        assert(after[i].output@ == wss[i].output@ && after[k].output@ == wss[k].output@);
        if wss[i].output@ == wss[k].output@ && i != k {
            let w = wss.len() as int;
            assert(placed(outs, wss[i]));
            lemma_canonical_target(outs, wss, i);
            lemma_canonical_target(outs, wss, k);
            lemma_number_digits(outs, wss, i);
            lemma_number_digits(outs, wss, k);
            assert(after[i].num == number_of(outs, wss, i));
            assert(after[k].num == number_of(outs, wss, k));
            if ranks_before(wss, i, k) {
                lemma_count_grows(wss, i, k, w);
            } else {
                lemma_count_grows(wss, k, i, w);
            }
        }
    }
}

proof fn lemma_canonical_same(outs: Seq<Output>, wss: Seq<Workspace>, after: Seq<Workspace>, n: int)
    requires
        0 <= n <= wss.len(),
        !too_many_groups(outs, wss),
        !too_many_positions(outs, wss),
        distinct_ids(wss),
        settled_snapshot(outs, wss, after),
    ensures
        canonical(outs, after, n) == canonical(outs, wss, n),
    decreases n,
{
    if n > 0 {
        lemma_canonical_same(outs, wss, after, n - 1);
        let k = n - 1;
        assert(after[k].output@ == wss[k].output@ && after[k].id == wss[k].id);
        if placed(outs, wss[k]) {
            let j = output_index(outs, wss[k].output@);
            lemma_rank_same(outs, wss, after, j, outs.len() as int);
            lemma_count_same(outs, wss, after, k, wss.len() as int);
            assert(number_of(outs, after, k) == number_of(outs, wss, k));
        }
    }
}

/// Reorder is idempotent from one snapshot to the next: once the compositor
/// has carried out a reorder, a fresh snapshot of it (same workspaces, same
/// outputs, listed in the same order) can still be numbered, its canonical
/// numbering is the one just applied, and the second reorder plans no
/// rename.
pub proof fn lemma_snapshot_reorder_idempotent(outs: Seq<Output>, wss: Seq<Workspace>, after: Seq<Workspace>)
    requires
        !too_many_groups(outs, wss),
        !too_many_positions(outs, wss),
        distinct_ids(wss),
        settled_snapshot(outs, wss, after),
    ensures
        !too_many_groups(outs, after),
        !too_many_positions(outs, after),
        canonical(outs, after, after.len() as int) == canonical(outs, wss, wss.len() as int),
        renames(canonical(outs, after, after.len() as int), after).len() == 0,
{
    let n = wss.len() as int;
    lemma_canonical_same(outs, wss, after, n);
    assert forall|j: int| 0 <= j < outs.len() && occupied(outs, after, j)
        implies !(#[trigger] group_of(outs, after, j) > 9) by {
        lemma_rank_same(outs, wss, after, j, outs.len() as int);
        assert(!(0 <= j < outs.len() && occupied(outs, wss, j) && group_of(outs, wss, j) > 9));
    }
    assert forall|k: int| 0 <= k < after.len() && placed(outs, after[k])
        implies !(#[trigger] position_of(after, k) > 9) by {
        assert(after[k].output@ == wss[k].output@);
        lemma_count_same(outs, wss, after, k, n);
        assert(!(0 <= k < wss.len() && placed(outs, wss[k]) && position_of(wss, k) > 9));
    }
    lemma_reorder_idempotent(canonical(outs, wss, n), wss, after);
}

/// Per output, positions are gap-free from 1: the workspaces of one output
/// hold distinct positions, and every position from 1 up to that of any of
/// them is held by one of them. With `lemma_canonical_numbering` and the
/// group shared by an output's workspaces, this makes each output's
/// canonical numbers one run `g1, g2, ..., gk`.
pub proof fn lemma_output_positions(wss: Seq<Workspace>, k: int, q: int)
    requires
        0 <= k < wss.len(),
        1 <= q <= position_of(wss, k),
    ensures
        exists|i: int| 0 <= i < wss.len() && (#[trigger] wss[i]).output@ == wss[k].output@ && position_of(wss, i) == q,
        forall|i: int| 0 <= i < wss.len() && i != k && (#[trigger] wss[i]).output@ == wss[k].output@
            ==> position_of(wss, i) != position_of(wss, k),
{
    let n = wss.len() as int;
    if q < position_of(wss, k) {
        lemma_position_reached(wss, k, q - 1);
    } else {
        assert(wss[k].output@ == wss[k].output@ && position_of(wss, k) == q);
    }
    assert forall|i: int| 0 <= i < wss.len() && i != k && (#[trigger] wss[i]).output@ == wss[k].output@
        implies position_of(wss, i) != position_of(wss, k) by {
        if ranks_before(wss, i, k) {
            lemma_count_grows(wss, i, k, n);
        } else {
            lemma_count_grows(wss, k, i, n);
        }
    }
}

} // verus!
