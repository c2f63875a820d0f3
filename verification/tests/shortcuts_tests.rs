use plotredox::shortcuts::{keyboard_actions, shortcut_actions, KeyAction, Shortcut};

#[test]
fn keys_are_ignored_while_a_text_field_has_focus() {
    assert_eq!(keyboard_actions(true, true, true, true, false, true, false), vec![]);
}

#[test]
fn escape_selects_the_selection_tool_and_clears_the_selection() {
    assert_eq!(
        keyboard_actions(false, true, false, false, false, false, false),
        vec![KeyAction::SelectMode, KeyAction::ClearSelection]
    );
}

#[test]
fn delete_then_nudge_in_that_order() {
    assert_eq!(
        keyboard_actions(false, false, true, true, false, false, true),
        vec![KeyAction::DeleteSelected, KeyAction::Nudge(-1, 1), KeyAction::Recalculate]
    );
}

#[test]
fn opposite_arrows_cancel() {
    assert_eq!(keyboard_actions(false, false, false, true, true, true, true), vec![]);
    assert_eq!(
        keyboard_actions(false, false, false, false, true, true, false),
        vec![KeyAction::Nudge(1, -1), KeyAction::Recalculate]
    );
}

#[test]
fn command_z_undoes_and_with_shift_redoes() {
    assert_eq!(shortcut_actions(true, false, true, false), vec![Shortcut::Undo]);
    assert_eq!(shortcut_actions(true, true, true, false), vec![Shortcut::Redo]);
    assert_eq!(shortcut_actions(false, true, true, true), vec![]);
}

#[test]
fn command_s_saves_also_with_shift() {
    assert_eq!(shortcut_actions(true, true, false, true), vec![Shortcut::Save]);
    assert_eq!(shortcut_actions(true, false, true, true), vec![Shortcut::Save, Shortcut::Undo]);
}
