use sworker::{process_event, Event, Manager, Output, Plan, Workspace, WorkspaceChange};

fn ws(id: i64, num: i32, output: &str, focused: bool) -> Workspace {
    Workspace { id, num, name: num.to_string(), output: output.to_string(), focused }
}

fn outputs() -> Vec<Output> {
    vec![Output { name: "A".to_string(), x: 0, y: 0 }, Output { name: "B".to_string(), x: 1920, y: 0 }]
}

fn one_group(focused: i32) -> Vec<Workspace> {
    vec![ws(1, 11, "A", focused == 11), ws(2, 12, "A", focused == 12), ws(3, 13, "A", focused == 13)]
}

fn two_groups(focused: i32) -> Vec<Workspace> {
    vec![
        ws(1, 11, "A", focused == 11),
        ws(2, 12, "A", focused == 12),
        ws(3, 21, "B", focused == 21),
        ws(4, 22, "B", focused == 22),
    ]
}

fn manager(wss: Vec<Workspace>, is_alone: bool) -> Manager {
    Manager::new(wss, outputs(), is_alone).unwrap()
}

fn commands(plan: &Plan) -> Vec<&str> {
    plan.commands.iter().map(|c| c.as_str()).collect()
}

#[test]
fn next_inside_group_just_focuses() {
    let plan = manager(one_group(12), false).position_focus_next();
    assert!(plan.renumber.is_none());
    assert_eq!(commands(&plan), vec!["workspace number 13"]);
}

#[test]
fn next_at_end_opens_a_slot() {
    let live = one_group(13);
    let plan = manager(one_group(13), false).position_focus_next();
    let n = plan.renumber.as_ref().unwrap();
    assert_eq!(n.get(3), Some(13));
    assert_eq!(n.reorder(&live), None);
    assert_eq!(commands(&plan), vec!["workspace number 14"]);
}

#[test]
fn next_at_end_when_alone_wraps() {
    let plan = manager(one_group(13), true).position_focus_next();
    assert!(plan.renumber.is_none());
    assert_eq!(commands(&plan), vec!["workspace number 11"]);
}

#[test]
fn next_at_end_of_full_group_wraps() {
    let wss: Vec<Workspace> = (1..=9).map(|i| ws(i, 10 + i as i32, "A", i == 9)).collect();
    let plan = Manager::new(wss, outputs(), false).unwrap().position_focus_next();
    assert!(plan.renumber.is_none());
    assert_eq!(commands(&plan), vec!["workspace number 11"]);
}

#[test]
fn prev_at_start_opens_a_slot() {
    let live = one_group(11);
    let plan = manager(one_group(11), false).position_focus_prev();
    let n = plan.renumber.as_ref().unwrap();
    assert_eq!(n.get(1), Some(12));
    assert_eq!(n.get(3), Some(14));
    assert_eq!(
        n.reorder(&live),
        Some(
            "rename workspace '11' to '112'; rename workspace '12' to '113'; rename workspace '13' to '114'; \
             rename workspace '112' to '12'; rename workspace '113' to '13'; rename workspace '114' to '14'"
                .to_string()
        )
    );
    assert_eq!(commands(&plan), vec!["workspace number 11"]);
}

#[test]
fn prev_at_start_when_alone_wraps() {
    let plan = manager(one_group(11), true).position_focus_prev();
    assert!(plan.renumber.is_none());
    assert_eq!(commands(&plan), vec!["workspace number 13"]);
}

#[test]
fn prev_inside_group_just_focuses() {
    let plan = manager(one_group(13), false).position_focus_prev();
    assert!(plan.renumber.is_none());
    assert_eq!(commands(&plan), vec!["workspace number 12"]);
}

#[test]
fn focus_to_clamps_into_digits() {
    assert_eq!(commands(&manager(one_group(12), false).position_focus_to(0)), vec!["workspace number 11"]);
    assert_eq!(commands(&manager(one_group(12), false).position_focus_to(5)), vec!["workspace number 15"]);
    assert_eq!(commands(&manager(one_group(12), false).position_focus_to(42)), vec!["workspace number 19"]);
}

#[test]
fn move_variants_carry_the_container() {
    let move_cmd = |n: i32| format!("[con_id=__focused__] move container to workspace number {n}, focus");
    let next = manager(one_group(12), false).position_move_next();
    assert_eq!(commands(&next), vec![move_cmd(13).as_str()]);
    let prev = manager(one_group(12), false).position_move_prev();
    assert_eq!(commands(&prev), vec![move_cmd(11).as_str()]);
    let to = manager(one_group(12), false).position_move_to(3);
    assert_eq!(commands(&to), vec![move_cmd(13).as_str()]);
    let end = manager(one_group(13), false).position_move_next();
    assert!(end.renumber.is_some());
    assert_eq!(commands(&end), vec![move_cmd(14).as_str()]);
}

#[test]
fn group_focus_goes_through_the_output() {
    let plan = manager(two_groups(12), false).group_focus_next();
    assert!(plan.renumber.is_none());
    assert_eq!(commands(&plan), vec!["focus output B", "workspace number 22"]);
    let back = manager(two_groups(22), false).group_focus_next();
    assert_eq!(commands(&back), vec!["focus output A", "workspace number 12"]);
    let prev = manager(two_groups(11), false).group_focus_prev();
    assert_eq!(commands(&prev), vec!["focus output B", "workspace number 21"]);
}

#[test]
fn group_focus_to_clamps() {
    let plan = manager(two_groups(11), false).group_focus_to(7);
    assert_eq!(commands(&plan), vec!["focus output B", "workspace number 21"]);
    let low = manager(two_groups(21), false).group_focus_to(-3);
    assert_eq!(commands(&low), vec!["focus output A", "workspace number 11"]);
}

#[test]
fn group_move_carries_across_outputs() {
    let plan = manager(two_groups(12), false).group_move_next();
    assert_eq!(
        commands(&plan),
        vec![
            "[con_id=__focused__] move container to output B, focus",
            "[con_id=__focused__] move container to workspace number 22, focus",
        ]
    );
    let prev = manager(two_groups(22), false).group_move_prev();
    assert_eq!(prev.commands[0], "[con_id=__focused__] move container to output A, focus");
    let to = manager(two_groups(22), false).group_move_to(1);
    assert_eq!(to.commands[1], "[con_id=__focused__] move container to workspace number 12, focus");
}

#[test]
fn reorder_plans_canonical_renames() {
    let live = vec![ws(1, 4, "A", true), ws(2, 11, "A", false)];
    let plan = Manager::new(live, outputs(), false).unwrap().reorder();
    assert!(plan.commands.is_empty());
    let n = plan.renumber.unwrap();
    assert_eq!(n.get(1), Some(11));
    assert_eq!(n.get(2), Some(12));
}

#[test]
fn empty_at_opens_before_or_after() {
    let before = manager(one_group(12), false).empty_at(12, true).renumber.unwrap();
    assert_eq!((before.get(1), before.get(2), before.get(3)), (Some(11), Some(13), Some(14)));
    let after = manager(one_group(12), false).empty_at(12, false).renumber.unwrap();
    assert_eq!((after.get(1), after.get(2), after.get(3)), (Some(11), Some(12), Some(14)));
}

#[test]
fn info_records_snapshot() {
    let m = manager(two_groups(21), true);
    assert!(m.info.is_alone);
    assert_eq!(m.info.positioner.num(), 21);
    assert_eq!(m.info.positioner.group_highest, 2);
    assert_eq!(m.info.positioner.position_highest, 2);
}

#[test]
fn events_that_trigger_reorder() {
    assert!(process_event(Event::Workspace(WorkspaceChange::Init)));
    assert!(process_event(Event::Workspace(WorkspaceChange::Empty)));
    assert!(!process_event(Event::Workspace(WorkspaceChange::Other)));
    assert!(process_event(Event::Output));
    assert!(!process_event(Event::Other));
}
