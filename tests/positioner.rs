use sworker::{Positioner, Workspace};

fn ws(id: i64, num: i32, output: &str, focused: bool) -> Workspace {
    Workspace { id, num, name: num.to_string(), output: output.to_string(), focused }
}

fn at(group: i32, group_highest: i32, position: i32, position_highest: i32) -> Positioner {
    Positioner { group, group_highest, position, position_highest }
}

#[test]
fn new_reads_focused_coordinates() {
    let wss = vec![
        ws(1, 11, "A", false),
        ws(2, 12, "A", true),
        ws(3, 13, "A", false),
        ws(4, 21, "B", false),
    ];
    let p = Positioner::new(&wss);
    assert_eq!(p.group, 1);
    assert_eq!(p.position, 2);
    assert_eq!(p.group_highest, 2);
    assert_eq!(p.position_highest, 3);
    assert_eq!(p.num(), 12);
}

#[test]
fn new_takes_highest_position_of_focused_group_only() {
    let wss = vec![ws(1, 21, "B", true), ws(2, 11, "A", false), ws(3, 15, "A", false)];
    let p = Positioner::new(&wss);
    assert_eq!(p.group, 2);
    assert_eq!(p.position_highest, 1);
    assert_eq!(p.group_highest, 2);
}

#[test]
fn wrapping_position_past_highest_gives_one() {
    let p = at(1, 2, 2, 3);
    assert_eq!(p.wrapping_position_to(4), 11);
}

#[test]
fn wrapping_position_at_zero_gives_highest() {
    let p = at(1, 2, 2, 3);
    assert_eq!(p.wrapping_position_to(0), 13);
    assert_eq!(p.wrapping_position_to(2), 12);
}

#[test]
fn wrapping_group_at_edges() {
    let p = at(2, 3, 4, 5);
    assert_eq!(p.wrapping_group_to(4), 14);
    assert_eq!(p.wrapping_group_to(0), 34);
    assert_eq!(p.wrapping_group_to(2), 24);
    assert_eq!(p.wrapping_group_add(1), 34);
    assert_eq!(p.wrapping_group_add(2), 14);
}

#[test]
fn wrapping_position_add_steps() {
    let p = at(1, 1, 3, 3);
    assert_eq!(p.wrapping_position_add(1), 11);
    assert_eq!(p.wrapping_position_add(-1), 12);
    let q = at(1, 1, 1, 3);
    assert_eq!(q.wrapping_position_add(-1), 13);
}

#[test]
fn saturating_position_clamps() {
    let p = at(3, 3, 2, 4);
    assert_eq!(p.saturating_position_to(-7), 31);
    assert_eq!(p.saturating_position_to(0), 31);
    assert_eq!(p.saturating_position_to(3), 33);
    assert_eq!(p.saturating_position_to(9), 34);
    assert_eq!(p.saturating_position_add(5), 34);
    assert_eq!(p.saturating_position_add(-5), 31);
}

#[test]
fn saturating_group_clamps() {
    let p = at(2, 3, 5, 6);
    assert_eq!(p.saturating_group_to(-1), 15);
    assert_eq!(p.saturating_group_to(7), 35);
    assert_eq!(p.saturating_group_to(2), 25);
    assert_eq!(p.saturating_group_add(1), 35);
    assert_eq!(p.saturating_group_add(-4), 15);
}

#[test]
fn start_end_and_full() {
    let p = at(1, 1, 1, 3);
    assert!(p.is_start());
    assert!(!p.is_end());
    assert!(!p.is_full());
    let q = at(1, 1, 9, 9);
    assert!(!q.is_start());
    assert!(q.is_end());
    assert!(q.is_full());
}
