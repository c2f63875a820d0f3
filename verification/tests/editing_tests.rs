use plotredox::editing::{
    active_group_after_delete, calib_point_added, marks_dirty, move_points_to_group, new_group_color,
    regroup_after_delete, remove_selected, select_points, takes_snapshot, ActionKind,
};
use plotredox::history::History;

fn sorted(mut v: Vec<usize>) -> Vec<usize> {
    v.sort();
    v
}

#[test]
fn selection_replaces_adds_and_toggles() {
    let mut sel = vec![1, 4];
    select_points(&mut sel, &vec![2, 3], false);
    assert_eq!(sorted(sel.clone()), vec![2, 3]);
    select_points(&mut sel, &vec![5, 2], true);
    assert_eq!(sorted(sel.clone()), vec![2, 3, 5]);
    select_points(&mut sel, &vec![3], true);
    assert_eq!(sorted(sel.clone()), vec![2, 5]);
    select_points(&mut sel, &vec![3], true);
    assert_eq!(sorted(sel.clone()), vec![2, 3, 5]);
    select_points(&mut sel, &vec![], false);
    assert!(sel.is_empty());
}

#[test]
fn deleting_a_group_reindexes_points() {
    let ids = vec![0, 1, 2, 1, 3];
    assert_eq!(
        regroup_after_delete(&ids, 1),
        vec![Some(0), None, Some(1), None, Some(2)]
    );
    assert_eq!(active_group_after_delete(1, 1), 0);
    assert_eq!(active_group_after_delete(3, 1), 2);
    assert_eq!(active_group_after_delete(0, 1), 0);
}

#[test]
fn removing_selected_points_keeps_order() {
    let items = vec!['a', 'b', 'c', 'd', 'e'];
    assert_eq!(remove_selected(&items, &vec![3, 0, 9]), vec!['b', 'c', 'e']);
}

#[test]
fn action_rules() {
    assert!(marks_dirty(ActionKind::AddDataPoint));
    assert!(!marks_dirty(ActionKind::SetPanZoom));
    assert!(marks_dirty(ActionKind::MoveSelected));
    assert!(!takes_snapshot(ActionKind::MoveSelected));
    assert!(takes_snapshot(ActionKind::SetDraggingPoint));
    assert!(!marks_dirty(ActionKind::SetDraggingPoint));
    assert!(takes_snapshot(ActionKind::ClearCalib));
}

#[test]
fn calibration_takes_four_points() {
    assert_eq!(calib_point_added(0), (true, false));
    assert_eq!(calib_point_added(3), (true, true));
    assert_eq!(calib_point_added(4), (false, false));
}

#[test]
fn group_colours_cycle() {
    assert_eq!(new_group_color(0), [0xe4, 0x1a, 0x1c]);
    assert_eq!(new_group_color(6), [0x37, 0x7e, 0xb8]);
    assert_eq!(new_group_color(4), [0xff, 0x7f, 0x00]);
}

#[test]
fn undo_and_redo_restore_states() {
    let mut h: History<u32> = History::new();
    h.save_snapshot(1);
    h.save_snapshot(2);
    // Current state is 3.
    let s = h.undo(3);
    assert_eq!(s, 2);
    let s = h.undo(s);
    assert_eq!(s, 1);
    assert_eq!(h.undo(s), 1);
    let s = h.redo(1);
    assert_eq!(s, 2);
    let s = h.redo(s);
    assert_eq!(s, 3);
    assert_eq!(h.redo(s), 3);
}

#[test]
fn saving_clears_redo() {
    let mut h: History<u32> = History::new();
    h.save_snapshot(1);
    let s = h.undo(2);
    assert_eq!(s, 1);
    h.save_snapshot(s);
    assert!(h.redo_stack.is_empty());
    assert_eq!(h.redo(5), 5);
}

#[test]
fn history_keeps_fifty_snapshots() {
    let mut h: History<u32> = History::new();
    for i in 0..60 {
        h.save_snapshot(i);
    }
    assert_eq!(h.undo_stack.len(), 50);
    assert_eq!(h.undo_stack[0], 10);
    let mut cur = 60;
    for _ in 0..60 {
        cur = h.undo(cur);
    }
    assert_eq!(cur, 10);
}

#[test]
fn moving_points_appends_them_in_the_new_group_and_selects_them() {
    let items = vec![('a', 0usize), ('b', 0), ('c', 1)];
    let (out, sel) = move_points_to_group(&items, &vec![2, 0], 5);
    assert_eq!(out, vec![('b', 0), ('c', 5), ('a', 5)]);
    assert_eq!(sel, vec![1, 2]);
}

#[test]
fn moving_a_repeated_index_takes_out_the_next_point_too() {
    let items = vec![('a', 0usize), ('b', 0), ('c', 0)];
    let (out, sel) = move_points_to_group(&items, &vec![1, 1], 2);
    assert_eq!(out, vec![('a', 0), ('b', 2), ('b', 2)]);
    assert_eq!(sel, vec![1, 2]);
}

#[test]
fn moving_skips_indices_past_the_end() {
    let items = vec![('a', 0usize), ('b', 1)];
    let (out, sel) = move_points_to_group(&items, &vec![5, 0], 1);
    assert_eq!(out, vec![('b', 1), ('a', 1)]);
    assert_eq!(sel, vec![0, 1]);
}
