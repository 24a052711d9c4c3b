// Renames go through a staging number: every moving workspace is first
// renamed to `1{target}{name}`, then to `{target}{name}`, in one batch.

use sworker::{LayoutError, Numberer, Output, Workspace};

fn ws(id: i64, num: i32, name: &str, output: &str) -> Workspace {
    Workspace { id, num, name: name.to_string(), output: output.to_string(), focused: false }
}

fn out(name: &str, x: i32, y: i32) -> Output {
    Output { name: name.to_string(), x, y }
}

fn numbered(n: &Numberer, ids: &[i64]) -> Vec<Option<i32>> {
    ids.iter().map(|id| n.get(*id)).collect()
}

#[test]
fn new_numbers_per_output_in_order() {
    let wss = vec![
        ws(10, 1, "1", "A"),
        ws(20, 2, "2", "A"),
        ws(30, 5, "5", "B"),
        ws(40, 3, "3", "A"),
    ];
    let n = Numberer::new(&wss, &[out("A", 0, 0), out("B", 1920, 0)]).unwrap();
    assert_eq!(numbered(&n, &[10, 20, 40, 30]), vec![Some(11), Some(12), Some(13), Some(21)]);
}

#[test]
fn numbers_are_unique_and_contiguous() {
    let wss = vec![
        ws(1, 7, "7", "B"),
        ws(2, 3, "3", "A"),
        ws(3, 9, "9", "B"),
        ws(4, 4, "4", "C"),
        ws(5, 1, "1", "A"),
    ];
    let outs = [out("A", 0, 0), out("B", 0, 1080), out("C", 1920, 0)];
    let n = Numberer::new(&wss, &outs).unwrap();
    let got = numbered(&n, &[1, 2, 3, 4, 5]);
    assert_eq!(got, vec![Some(31), Some(12), Some(32), Some(21), Some(11)]);
}

#[test]
fn positions_follow_live_numbers_not_listing() {
    let wss = vec![ws(1, 5, "5", "A"), ws(2, 3, "3", "A")];
    let n = Numberer::new(&wss, &[out("A", 0, 0)]).unwrap();
    assert_eq!(n.get(2), Some(11));
    assert_eq!(n.get(1), Some(12));
}

#[test]
fn equal_numbers_keep_listing_order() {
    let wss = vec![ws(1, -1, "web", "A"), ws(2, 4, "4", "A"), ws(3, -1, "mail", "A")];
    let n = Numberer::new(&wss, &[out("A", 0, 0)]).unwrap();
    assert_eq!(numbered(&n, &[1, 3, 2]), vec![Some(11), Some(12), Some(13)]);
}

#[test]
fn outputs_ordered_by_position_not_by_listing() {
    let wss = vec![ws(1, 1, "1", "A"), ws(2, 2, "2", "B")];
    let listed = [out("B", 1000, 0), out("A", 0, 0)];
    let n = Numberer::new(&wss, &listed).unwrap();
    assert_eq!(n.get(1), Some(11));
    assert_eq!(n.get(2), Some(21));
    let swapped = [out("A", 0, 0), out("B", 1000, 0)];
    let m = Numberer::new(&wss, &swapped).unwrap();
    assert_eq!(m.get(1), Some(11));
    assert_eq!(m.get(2), Some(21));
}

#[test]
fn outputs_above_come_first() {
    let wss = vec![ws(1, 1, "1", "low"), ws(2, 2, "2", "high")];
    let n = Numberer::new(&wss, &[out("low", 0, 1080), out("high", 500, 0)]).unwrap();
    assert_eq!(n.get(2), Some(11));
    assert_eq!(n.get(1), Some(21));
}

#[test]
fn empty_outputs_take_no_group() {
    let wss = vec![ws(1, 1, "1", "B")];
    let n = Numberer::new(&wss, &[out("A", 0, 0), out("B", 100, 0)]).unwrap();
    assert_eq!(n.get(1), Some(11));
}

#[test]
fn workspace_on_unknown_output_is_unnumbered() {
    let wss = vec![ws(1, 1, "1", "A"), ws(2, 2, "2", "gone")];
    let n = Numberer::new(&wss, &[out("A", 0, 0)]).unwrap();
    assert_eq!(n.get(1), Some(11));
    assert_eq!(n.get(2), None);
}

#[test]
fn empty_snapshot_numbers_nothing() {
    let n = Numberer::new(&[], &[]).unwrap();
    assert_eq!(n.get(1), None);
    assert_eq!(n.reorder(&[]), None);
}

#[test]
fn ten_workspaces_on_one_output_are_refused() {
    let wss: Vec<Workspace> = (1..=10).map(|i| ws(i, i as i32, "x", "A")).collect();
    assert!(matches!(Numberer::new(&wss, &[out("A", 0, 0)]), Err(LayoutError::TooManyPositions)));
    let nine: Vec<Workspace> = (1..=9).map(|i| ws(i, i as i32, "x", "A")).collect();
    let n = Numberer::new(&nine, &[out("A", 0, 0)]).unwrap();
    assert_eq!(n.get(9), Some(19));
}

#[test]
fn ten_occupied_outputs_are_refused() {
    let names: Vec<String> = (0..10).map(|i| format!("O{i}")).collect();
    let outs: Vec<Output> = names.iter().enumerate().map(|(i, n)| out(n, i as i32 * 100, 0)).collect();
    let wss: Vec<Workspace> = names.iter().enumerate().map(|(i, n)| ws(i as i64, 1, "1", n)).collect();
    assert!(matches!(Numberer::new(&wss, &outs), Err(LayoutError::TooManyGroups)));
    assert!(matches!(Numberer::new(&wss[..9], &outs), Ok(_)));
}

#[test]
fn prepend_shifts_from_pivot() {
    let mut n = Numberer::from_entries(vec![(1, 11), (2, 12), (3, 13), (4, 21)]);
    assert_eq!(n.prepend_at(12), 12);
    assert_eq!(numbered(&n, &[1, 2, 3, 4]), vec![Some(11), Some(13), Some(14), Some(22)]);
}

#[test]
fn append_shifts_after_pivot() {
    let mut n = Numberer::from_entries(vec![(1, 11), (2, 12), (3, 13), (4, 21)]);
    assert_eq!(n.append_at(12), 13);
    assert_eq!(numbered(&n, &[1, 2, 3, 4]), vec![Some(11), Some(12), Some(14), Some(22)]);
}

#[test]
fn append_then_diff_renames_only_numbers_above() {
    let live = vec![ws(1, 11, "11", "A"), ws(2, 12, "12web", "A"), ws(3, 13, "13", "A")];
    let mut n = Numberer::new(&live, &[out("A", 0, 0)]).unwrap();
    assert_eq!(n.append_at(11), 12);
    assert_eq!(
        n.reorder(&live),
        Some(
            "rename workspace '12web' to '113web'; rename workspace '13' to '114'; \
             rename workspace '113web' to '13web'; rename workspace '114' to '14'"
                .to_string()
        )
    );
}

#[test]
fn reorder_is_idempotent() {
    let live = vec![ws(1, 3, "3", "A"), ws(2, 1, "1", "A")];
    let n = Numberer::new(&live, &[out("A", 0, 0)]).unwrap();
    assert_eq!(
        n.reorder(&live),
        Some(
            "rename workspace '3' to '112'; rename workspace '1' to '111'; \
             rename workspace '112' to '12'; rename workspace '111' to '11'"
                .to_string()
        )
    );
    let settled = vec![ws(1, 12, "12", "A"), ws(2, 11, "11", "A")];
    assert_eq!(n.reorder(&settled), None);
    let listed_again = vec![ws(2, 11, "11", "A"), ws(1, 12, "12", "A")];
    assert_eq!(Numberer::new(&listed_again, &[out("A", 0, 0)]).unwrap().reorder(&listed_again), None);
    assert_eq!(n.reorder(&settled), None);
}

#[test]
fn rename_replaces_numeric_prefix_and_keeps_name() {
    let n = Numberer::from_entries(vec![(7, 5)]);
    let live = vec![ws(7, 3, "3web", "A")];
    assert_eq!(
        n.reorder(&live),
        Some("rename workspace '3web' to '15web'; rename workspace '15web' to '5web'".to_string())
    );
}

#[test]
fn rename_of_unnumbered_workspace_has_no_source_number() {
    let n = Numberer::from_entries(vec![(7, 12)]);
    let live = vec![ws(7, -1, "mail", "A")];
    assert_eq!(
        n.reorder(&live),
        Some("rename workspace 'mail' to '112mail'; rename workspace '112mail' to '12mail'".to_string())
    );
}

#[test]
fn reorder_skips_unknown_workspaces() {
    let n = Numberer::from_entries(vec![(1, 11)]);
    let live = vec![ws(9, 4, "4", "A"), ws(1, 11, "11", "A")];
    assert_eq!(n.reorder(&live), None);
}
