use plotredox::editor::{apply_edit, range_selection, CalibAxis, EditAction, EditorState};

type Pt = (i32, i32);

fn sorted(v: &Vec<usize>) -> Vec<usize> {
    let mut s = v.clone();
    s.sort();
    s
}

fn group_names(s: &EditorState<Pt>) -> Vec<String> {
    s.groups().iter().map(|g| g.name.iter().collect::<String>()).collect()
}

#[test]
fn fresh_editor_has_one_default_group() {
    let s: EditorState<Pt> = EditorState::new();
    assert_eq!(group_names(&s), vec!["Group 1".to_string()]);
    assert_eq!(s.groups()[0].color, [0xd7, 0x30, 0x27, 0xff]);
    assert_eq!(s.active_group(), 0);
    assert!(!s.is_dirty());
    assert_eq!(s.can_undo_redo(), (false, false));
}

#[test]
fn fourth_calibration_point_switches_to_data_and_fifth_is_ignored() {
    let mut s: EditorState<Pt> = EditorState::new();
    for i in 0..3 {
        let out = apply_edit(&mut s, EditAction::AddCalibPoint((i, i)));
        assert!(out.recalculate);
        assert!(!out.enter_data_mode);
    }
    let out = apply_edit(&mut s, EditAction::AddCalibPoint((3, 3)));
    assert!(out.enter_data_mode);
    assert_eq!(s.selected_calib(), Some(3));
    let out = apply_edit(&mut s, EditAction::AddCalibPoint((4, 4)));
    assert!(!out.recalculate);
    assert_eq!(s.calib_pts().len(), 4);
    assert!(s.is_dirty());
}

#[test]
fn added_data_point_joins_active_group_and_is_selected_alone() {
    let mut s: EditorState<Pt> = EditorState::new();
    apply_edit(&mut s, EditAction::AddDataPoint((1, 1)));
    apply_edit(&mut s, EditAction::AddGroup);
    let out = apply_edit(&mut s, EditAction::AddDataPoint((2, 2)));
    assert!(out.recalculate);
    assert_eq!(s.data_pts(), &vec![((1, 1), 0), ((2, 2), 1)]);
    assert_eq!(s.selected(), &vec![1]);
    assert_eq!(s.selected_calib(), None);
}

#[test]
fn new_group_is_numbered_coloured_from_palette_and_active() {
    let mut s: EditorState<Pt> = EditorState::new();
    apply_edit(&mut s, EditAction::AddGroup);
    assert_eq!(group_names(&s), vec!["Group 1".to_string(), "Group 2".to_string()]);
    assert_eq!(s.groups()[1].color, [0x37, 0x7e, 0xb8, 0xff]);
    assert_eq!(s.active_group(), 1);
    for _ in 0..9 {
        apply_edit(&mut s, EditAction::AddGroup);
    }
    assert_eq!(group_names(&s)[10], "Group 11");
    assert_eq!(s.groups()[10].color, [0xe4, 0x1a, 0x1c, 0xff]);
}

#[test]
fn deleting_a_group_drops_its_points_and_renumbers_later_ones() {
    let mut s: EditorState<Pt> = EditorState::new();
    apply_edit(&mut s, EditAction::AddGroup);
    apply_edit(&mut s, EditAction::AddGroup);
    apply_edit(&mut s, EditAction::SetActiveGroup(0));
    apply_edit(&mut s, EditAction::AddDataPoint((0, 0)));
    apply_edit(&mut s, EditAction::SetActiveGroup(1));
    apply_edit(&mut s, EditAction::AddDataPoint((1, 1)));
    apply_edit(&mut s, EditAction::SetActiveGroup(2));
    apply_edit(&mut s, EditAction::AddDataPoint((2, 2)));
    apply_edit(&mut s, EditAction::DeleteGroup(1));
    assert_eq!(s.data_pts(), &vec![((0, 0), 0), ((2, 2), 1)]);
    assert_eq!(group_names(&s), vec!["Group 1".to_string(), "Group 3".to_string()]);
    assert_eq!(s.active_group(), 1);
    assert!(s.selected().is_empty());
}

#[test]
fn deleting_the_active_group_activates_the_first() {
    let mut s: EditorState<Pt> = EditorState::new();
    apply_edit(&mut s, EditAction::AddGroup);
    apply_edit(&mut s, EditAction::DeleteGroup(1));
    assert_eq!(s.active_group(), 0);
    apply_edit(&mut s, EditAction::DeleteGroup(5));
    assert_eq!(s.groups().len(), 1);
}

#[test]
fn undo_restores_and_redo_reapplies() {
    let mut s: EditorState<Pt> = EditorState::new();
    apply_edit(&mut s, EditAction::AddDataPoint((1, 1)));
    apply_edit(&mut s, EditAction::AddDataPoint((2, 2)));
    apply_edit(&mut s, EditAction::SelectPoints(vec![0], false));
    apply_edit(&mut s, EditAction::DeleteSelectedPoints);
    assert_eq!(s.data_pts(), &vec![((2, 2), 0)]);
    let out = apply_edit(&mut s, EditAction::Undo);
    assert!(out.recalculate);
    assert_eq!(s.data_pts(), &vec![((1, 1), 0), ((2, 2), 0)]);
    assert!(s.selected().is_empty());
    apply_edit(&mut s, EditAction::Redo);
    assert_eq!(s.data_pts(), &vec![((2, 2), 0)]);
    assert_eq!(s.can_undo_redo(), (true, false));
}

#[test]
fn undo_with_empty_history_changes_nothing() {
    let mut s: EditorState<Pt> = EditorState::new();
    let out = apply_edit(&mut s, EditAction::Undo);
    assert!(!out.recalculate);
    assert!(!s.is_dirty());
    assert_eq!(s.groups().len(), 1);
}

#[test]
fn undo_restores_renamed_group() {
    let mut s: EditorState<Pt> = EditorState::new();
    apply_edit(&mut s, EditAction::UpdateGroupName(0, "Peaks".chars().collect()));
    apply_edit(&mut s, EditAction::UpdateGroupColor(0, [1, 2, 3, 4]));
    assert_eq!(group_names(&s)[0], "Peaks");
    assert_eq!(s.groups()[0].color, [1, 2, 3, 4]);
    apply_edit(&mut s, EditAction::Undo);
    assert_eq!(s.groups()[0].color, [0xd7, 0x30, 0x27, 0xff]);
    apply_edit(&mut s, EditAction::Undo);
    assert_eq!(group_names(&s)[0], "Group 1");
}

#[test]
fn clearing_data_resets_groups_and_forgets_history() {
    let mut s: EditorState<Pt> = EditorState::new();
    apply_edit(&mut s, EditAction::AddGroup);
    apply_edit(&mut s, EditAction::AddDataPoint((1, 1)));
    apply_edit(&mut s, EditAction::ClearData);
    assert!(s.data_pts().is_empty());
    assert_eq!(group_names(&s), vec!["Group 1".to_string()]);
    assert_eq!(s.active_group(), 0);
    assert_eq!(s.can_undo_redo(), (false, false));
    apply_edit(&mut s, EditAction::Undo);
    assert!(s.data_pts().is_empty());
}

#[test]
fn clearing_calibration_resets_the_axis_values() {
    let mut s: EditorState<Pt> = EditorState::new();
    apply_edit(&mut s, EditAction::AddCalibPoint((1, 1)));
    let out = apply_edit(&mut s, EditAction::ClearCalib);
    assert!(out.recalculate);
    assert_eq!(s.axes().x1_val, "0.0");
    assert_eq!(s.axes().x2_val, "10.0");
    assert_eq!(s.axes().y1_val, "0.0");
    assert_eq!(s.axes().y2_val, "10.0");
    assert!(!s.axes().log_x && !s.axes().log_y);
    assert!(s.calib_pts().is_empty());
    assert_eq!(s.selected_calib(), None);
}

#[test]
fn moved_points_go_last_and_stay_selected() {
    let mut s: EditorState<Pt> = EditorState::new();
    apply_edit(&mut s, EditAction::AddGroup);
    apply_edit(&mut s, EditAction::SetActiveGroup(0));
    for i in 0..4 {
        apply_edit(&mut s, EditAction::AddDataPoint((i, i)));
    }
    apply_edit(&mut s, EditAction::MovePointsToGroup(vec![2, 0], 1));
    assert_eq!(s.data_pts(), &vec![((1, 1), 0), ((3, 3), 0), ((2, 2), 1), ((0, 0), 1)]);
    assert_eq!(sorted(s.selected()), vec![2, 3]);
}

#[test]
fn removing_one_point_unselects_only_its_index() {
    let mut s: EditorState<Pt> = EditorState::new();
    for i in 0..3 {
        apply_edit(&mut s, EditAction::AddDataPoint((i, i)));
    }
    apply_edit(&mut s, EditAction::SelectPoints(vec![0, 1, 2], false));
    apply_edit(&mut s, EditAction::RemoveDataPoint(1));
    assert_eq!(s.data_pts(), &vec![((0, 0), 0), ((2, 2), 0)]);
    assert_eq!(sorted(s.selected()), vec![0, 2]);
}

#[test]
fn multi_select_of_one_point_toggles_it() {
    let mut s: EditorState<Pt> = EditorState::new();
    for i in 0..3 {
        apply_edit(&mut s, EditAction::AddDataPoint((i, i)));
    }
    apply_edit(&mut s, EditAction::SelectPoints(vec![0], true));
    assert_eq!(sorted(s.selected()), vec![0, 2]);
    apply_edit(&mut s, EditAction::SelectPoints(vec![2], true));
    assert_eq!(sorted(s.selected()), vec![0]);
    apply_edit(&mut s, EditAction::SelectCalibPoint(1));
    assert!(s.selected().is_empty());
    assert_eq!(s.selected_calib(), Some(1));
    apply_edit(&mut s, EditAction::ClearSelection);
    assert_eq!(s.selected_calib(), None);
}

#[test]
fn selection_does_not_mark_changes_but_drag_is_undoable() {
    let mut s: EditorState<Pt> = EditorState::new();
    apply_edit(&mut s, EditAction::SelectPoints(vec![0], false));
    assert!(!s.is_dirty());
    apply_edit(&mut s, EditAction::BeginDrag);
    assert!(!s.is_dirty());
    assert_eq!(s.can_undo_redo(), (true, false));
    s.mark_saved();
    assert!(!s.is_dirty());
}

#[test]
fn shift_click_selects_from_first_to_last_selected_position() {
    let group = vec![10, 11, 12, 13, 14, 15];
    assert_eq!(range_selection(&group, &vec![11], 4), vec![11, 12, 13, 14]);
    assert_eq!(range_selection(&group, &vec![14, 15], 1), vec![11, 12, 13, 14, 15]);
    assert_eq!(range_selection(&group, &vec![], 2), vec![12]);
    assert_eq!(range_selection(&group, &vec![99], 3), vec![13]);
}

#[test]
fn nudge_moves_the_selected_calibration_point_else_selected_data() {
    let mut s: EditorState<Pt> = EditorState::new();
    apply_edit(&mut s, EditAction::AddCalibPoint((0, 0)));
    assert_eq!(s.nudge_targets(), (Some(0), vec![]));
    apply_edit(&mut s, EditAction::AddDataPoint((1, 1)));
    apply_edit(&mut s, EditAction::AddDataPoint((2, 2)));
    apply_edit(&mut s, EditAction::SelectPoints(vec![0, 1, 7], false));
    let (c, mut d) = s.nudge_targets();
    d.sort();
    assert_eq!((c, d), (None, vec![0, 1]));
    apply_edit(&mut s, EditAction::NudgeSelected(None, vec![(0, (5, 5)), (1, (6, 6)), (9, (0, 0))]));
    assert_eq!(s.data_pts(), &vec![((5, 5), 0), ((6, 6), 0)]);
    assert!(s.is_dirty());
    apply_edit(&mut s, EditAction::Undo);
    assert_eq!(s.data_pts(), &vec![((1, 1), 0), ((2, 2), 0)]);
}

#[test]
fn undo_history_keeps_at_most_fifty_steps() {
    let mut s: EditorState<Pt> = EditorState::new();
    for i in 0..60u8 {
        apply_edit(&mut s, EditAction::UpdateGroupColor(0, [i, i, i, 255]));
    }
    let mut undos = 0;
    while s.can_undo_redo().0 {
        apply_edit(&mut s, EditAction::Undo);
        undos += 1;
    }
    assert_eq!(undos, 50);
    assert_eq!(s.groups()[0].color, [9, 9, 9, 255]);
    assert_eq!(s.can_undo_redo(), (false, true));
}

#[test]
fn dragging_a_selected_point_moves_the_selection_without_a_snapshot() {
    let mut s: EditorState<Pt> = EditorState::new();
    for i in 0..3 {
        apply_edit(&mut s, EditAction::AddDataPoint((i, i)));
    }
    apply_edit(&mut s, EditAction::SelectPoints(vec![0, 2], false));
    let (c, mut d) = s.drag_targets(None, Some(2));
    d.sort();
    assert_eq!((c, d), (None, vec![0, 2]));
    assert_eq!(s.drag_targets(None, Some(1)), (None, vec![1]));
    assert_eq!(s.drag_targets(Some(0), Some(1)), (None, vec![]));
    apply_edit(&mut s, EditAction::BeginDrag);
    let before = s.can_undo_redo();
    apply_edit(&mut s, EditAction::MoveSelected(None, vec![(0, (7, 7)), (2, (9, 9))]));
    assert_eq!(s.can_undo_redo(), before);
    assert_eq!(s.data_pts(), &vec![((7, 7), 0), ((1, 1), 0), ((9, 9), 0)]);
    let out = apply_edit(&mut s, EditAction::StopDragging);
    assert!(out.recalculate);
    apply_edit(&mut s, EditAction::Undo);
    assert_eq!(s.data_pts(), &vec![((0, 0), 0), ((1, 1), 0), ((2, 2), 0)]);
}

#[test]
fn calibration_values_are_set_and_reset_but_not_undone() {
    let mut s: EditorState<Pt> = EditorState::new();
    assert_eq!(s.axes().x2_val, "10.0");
    let out = apply_edit(&mut s, EditAction::UpdateCalibAxis(CalibAxis::X2, "100".to_string()));
    assert!(out.recalculate);
    apply_edit(&mut s, EditAction::UpdateLogScale(true, false));
    assert_eq!(s.axes().x2_val, "100");
    assert!(s.axes().log_x && !s.axes().log_y);
    assert!(s.is_dirty());
    assert_eq!(s.can_undo_redo(), (false, false));
    apply_edit(&mut s, EditAction::AddCalibPoint((1, 1)));
    apply_edit(&mut s, EditAction::ClearCalib);
    assert_eq!(s.axes().x2_val, "10.0");
    assert!(!s.axes().log_x);
    apply_edit(&mut s, EditAction::Undo);
    assert_eq!(s.calib_pts(), &vec![(1, 1)]);
    assert_eq!(s.axes().x2_val, "10.0");
}

#[test]
fn detected_axes_fill_the_calibration_points() {
    let mut s: EditorState<Pt> = EditorState::new();
    let out = apply_edit(&mut s, EditAction::ApplyDetectedAxis(true, (1, 2), (3, 4), (0, 0)));
    assert!(out.recalculate);
    assert_eq!(s.calib_pts(), &vec![(0, 0), (0, 0), (1, 2), (3, 4)]);
    apply_edit(&mut s, EditAction::ApplyDetectedAxis(false, (5, 6), (7, 8), (0, 0)));
    assert_eq!(s.calib_pts(), &vec![(5, 6), (7, 8), (1, 2), (3, 4)]);
    assert!(s.is_dirty());
    apply_edit(&mut s, EditAction::Undo);
    assert_eq!(s.calib_pts(), &vec![(0, 0), (0, 0), (1, 2), (3, 4)]);
}

#[test]
fn detected_series_becomes_a_new_active_group() {
    let mut s: EditorState<Pt> = EditorState::new();
    apply_edit(&mut s, EditAction::AddDataPoint((9, 9)));
    let out = apply_edit(&mut s, EditAction::AddDetectedGroup([1, 2, 3], vec![(1, 1), (2, 2)]));
    assert!(out.recalculate);
    assert_eq!(group_names(&s), vec!["Group 1".to_string(), "Group 2".to_string()]);
    assert_eq!(s.groups()[1].color, [1, 2, 3, 255]);
    assert_eq!(s.active_group(), 1);
    assert_eq!(s.data_pts(), &vec![((9, 9), 0), ((1, 1), 1), ((2, 2), 1)]);
    let before = s.can_undo_redo();
    let out = apply_edit(&mut s, EditAction::AddDetectedGroup([1, 2, 3], vec![]));
    assert!(!out.recalculate);
    assert_eq!(s.can_undo_redo(), before);
    apply_edit(&mut s, EditAction::Undo);
    assert_eq!(s.data_pts(), &vec![((9, 9), 0)]);
}
