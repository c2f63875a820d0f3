//! The point editor as a state machine: each action takes the editor from
//! one state to the next, marking unsaved changes and saving a snapshot for
//! undo first where the action calls for it.  Point coordinates are opaque
//! values of the caller's type `P`; the caller recomputes the values derived
//! from them when an edit says so.
use vstd::prelude::*;
use crate::editing::{
    ActionKind, modifies_project, records_undo, marks_dirty, takes_snapshot, distinct,
    selection_after, select_points, without_positions, remove_selected, index_keys,
    removed_largest, moved_points, move_fits, sorted_indices, move_points_to_group, regrouped,
    active_after_delete, active_group_after_delete, group_palette, new_group_color,
    set_remove, set_contains, MAX_CALIB_POINTS,
};
use crate::history::{History, Stacks, saved, undone, redone};
use crate::keys::{sorted_perm, lemma_is_sorted_perm};

verus! {

/// A group of data points: its name and its colour (red, green, blue, alpha).
pub struct GroupInfo {
    pub name: Vec<char>,
    pub color: [u8; 4],
}

/// A group as the editor's contracts see it.
#[verifier::ext_equal]
pub ghost struct GroupView {
    pub name: Seq<char>,
    pub color: [u8; 4],
}

impl View for GroupInfo {
    type V = GroupView;

    open spec fn view(&self) -> GroupView {
        GroupView { name: self.name@, color: self.color }
    }
}

/// The groups as the contracts see them.
pub open spec fn group_views(gs: Seq<GroupInfo>) -> Seq<GroupView> {
    Seq::new(gs.len(), |i: int| gs[i]@)
}

/// The editable content of a project, as saved for undo: calibration
/// points, data points with their group index, groups and the active group.
pub struct Snapshot<P> {
    pub calib_pts: Vec<P>,
    pub data_pts: Vec<(P, usize)>,
    pub groups: Vec<GroupInfo>,
    pub active_group: usize,
}

/// The editable content of a project as the contracts see it.
#[verifier::ext_equal]
pub ghost struct Content<P> {
    pub calib: Seq<P>,
    pub data: Seq<(P, usize)>,
    pub groups: Seq<GroupView>,
    pub active: usize,
}

impl<P> Snapshot<P> {
    /// The content a snapshot holds.
    pub open spec fn content(&self) -> Content<P> {
        Content {
            calib: self.calib_pts@,
            data: self.data_pts@,
            groups: group_views(self.groups@),
            active: self.active_group,
        }
    }
}

/// The contents of a stack of snapshots.
pub open spec fn contents<P>(s: Seq<Snapshot<P>>) -> Seq<Content<P>> {
    Seq::new(s.len(), |i: int| s[i].content())
}

/// One of the four typed calibration values: x1 and x2 name the first two
/// calibration points on the x axis, y1 and y2 the last two on the y axis.
#[derive(PartialEq, Eq, Structural, Clone, Copy, Debug)]
pub enum CalibAxis {
    X1,
    X2,
    Y1,
    Y2,
}

/// The typed values of the calibration points and whether each axis is
/// logarithmic.
pub struct AxisValues {
    pub x1_val: String,
    pub x2_val: String,
    pub y1_val: String,
    pub y2_val: String,
    pub log_x: bool,
    pub log_y: bool,
}

/// The calibration values as the contracts see them.
#[verifier::ext_equal]
pub ghost struct AxisView {
    pub x1: Seq<char>,
    pub x2: Seq<char>,
    pub y1: Seq<char>,
    pub y2: Seq<char>,
    pub log_x: bool,
    pub log_y: bool,
}

impl View for AxisValues {
    type V = AxisView;

    open spec fn view(&self) -> AxisView {
        AxisView {
            x1: self.x1_val@,
            x2: self.x2_val@,
            y1: self.y1_val@,
            y2: self.y2_val@,
            log_x: self.log_x,
            log_y: self.log_y,
        }
    }
}

/// The calibration values of a fresh project and after clearing the
/// calibration: 0.0 and 10.0 on each axis, both axes linear.
pub open spec fn default_axis_view() -> AxisView {
    AxisView {
        x1: seq!['0', '.', '0'],
        x2: seq!['1', '0', '.', '0'],
        y1: seq!['0', '.', '0'],
        y2: seq!['1', '0', '.', '0'],
        log_x: false,
        log_y: false,
    }
}

/// The calibration values with one typed value replaced.
pub open spec fn with_axis_value(a: AxisView, which: CalibAxis, v: Seq<char>) -> AxisView {
    match which {
        CalibAxis::X1 => AxisView { x1: v, ..a },
        CalibAxis::X2 => AxisView { x2: v, ..a },
        CalibAxis::Y1 => AxisView { y1: v, ..a },
        CalibAxis::Y2 => AxisView { y2: v, ..a },
    }
}

/// The calibration values of a fresh project.
pub fn default_axes() -> (a: AxisValues)
    ensures
        a@ == default_axis_view(),
{
    let a = AxisValues {
        x1_val: "0.0".to_owned(),
        x2_val: "10.0".to_owned(),
        y1_val: "0.0".to_owned(),
        y2_val: "10.0".to_owned(),
        log_x: false,
        log_y: false,
    };
    proof {
        reveal_strlit("0.0");
        reveal_strlit("10.0");
        assert(a.x1_val@ =~= seq!['0', '.', '0']);
        assert(a.x2_val@ =~= seq!['1', '0', '.', '0']);
        assert(a.y1_val@ =~= seq!['0', '.', '0']);
        assert(a.y2_val@ =~= seq!['1', '0', '.', '0']);
    }
    a
}

/// The whole editor state as the contracts see it: the content, the
/// selected data points, the selected calibration point, whether there are
/// unsaved changes, and the undo and redo stacks (top last).
#[verifier::ext_equal]
pub ghost struct EditorView<P> {
    pub content: Content<P>,
    pub selected: Set<usize>,
    pub selected_calib: Option<usize>,
    pub dirty: bool,
    pub undo: Seq<Content<P>>,
    pub redo: Seq<Content<P>>,
    pub axes: AxisView,
}

/// The state of the point editor.
pub struct EditorState<P> {
    calib_pts: Vec<P>,
    data_pts: Vec<(P, usize)>,
    groups: Vec<GroupInfo>,
    active_group: usize,
    selected: Vec<usize>,
    selected_calib: Option<usize>,
    dirty: bool,
    history: History<Snapshot<P>>,
    axes: AxisValues,
}

impl<P> View for EditorState<P> {
    type V = EditorView<P>;

    closed spec fn view(&self) -> EditorView<P> {
        EditorView {
            content: Content {
                calib: self.calib_pts@,
                data: self.data_pts@,
                groups: group_views(self.groups@),
                active: self.active_group,
            },
            selected: self.selected@.to_set(),
            selected_calib: self.selected_calib,
            dirty: self.dirty,
            undo: contents(self.history.undo_stack@),
            redo: contents(self.history.redo_stack@),
            axes: self.axes@,
        }
    }
}

/// What the caller has to do after an edit: recompute the values derived
/// from the points, or switch to adding data points.
#[derive(PartialEq, Eq, Structural, Clone, Copy, Debug)]
pub struct EditOutcome {
    pub recalculate: bool,
    pub enter_data_mode: bool,
}

/// The edits of the point editor.
pub enum EditAction<P> {
    /// Places a calibration point (at most four).
    AddCalibPoint(P),
    /// Places a data point in the active group and selects it.
    AddDataPoint(P),
    /// Deletes the selected data points.
    DeleteSelectedPoints,
    /// Deletes one data point.
    RemoveDataPoint(usize),
    /// Moves data points to another group; they go to the end of the list.
    MovePointsToGroup(Vec<usize>, usize),
    /// Deletes a group with its points.
    DeleteGroup(usize),
    /// Renames a group.
    UpdateGroupName(usize, Vec<char>),
    /// Recolours a group.
    UpdateGroupColor(usize, [u8; 4]),
    /// Makes a group the one new points go to.
    SetActiveGroup(usize),
    /// Adds a group and makes it active.
    AddGroup,
    /// Deletes all data points and groups but a fresh first group.
    ClearData,
    /// Deletes the calibration points and resets the calibration values.
    ClearCalib,
    /// Sets one typed calibration value.
    UpdateCalibAxis(CalibAxis, String),
    /// Sets whether the x and the y axis are logarithmic.
    UpdateLogScale(bool, bool),
    /// Selects data points (toggling one with the multi-select modifier).
    SelectPoints(Vec<usize>, bool),
    /// Selects a calibration point.
    SelectCalibPoint(usize),
    /// Selects nothing.
    ClearSelection,
    /// Puts a detected axis on the calibration: its start and end become
    /// the first two calibration points (the x axis) or the last two (the y
    /// axis, when the flag is set); missing points before them are filled
    /// with the given point.
    ApplyDetectedAxis(bool, P, P, P),
    /// Adds a detected data series as a new group in the given colour
    /// (red, green, blue) holding the given points, and makes it active;
    /// nothing happens without points.
    AddDetectedGroup([u8; 3], Vec<P>),
    /// Starts dragging a point: the state before the drag is kept for undo.
    BeginDrag,
    /// Puts the nudged points at their new places: the calibration point
    /// and the data points (by index) given, each when it exists; data
    /// points keep their groups.
    NudgeSelected(Option<(usize, P)>, Vec<(usize, P)>),
    /// Puts dragged points at their new places, as a nudge does, without a
    /// snapshot: the snapshot was taken when the drag began.
    MoveSelected(Option<(usize, P)>, Vec<(usize, P)>),
    /// Ends a drag: the values derived from the points are recomputed.
    StopDragging,
    /// Steps back to the last snapshot.
    Undo,
    /// Steps forward again.
    Redo,
}

/// The kind of an edit.
pub open spec fn kind<P>(a: EditAction<P>) -> ActionKind {
    match a {
        EditAction::AddCalibPoint(_) => ActionKind::AddCalibPoint,
        EditAction::AddDataPoint(_) => ActionKind::AddDataPoint,
        EditAction::DeleteSelectedPoints => ActionKind::DeleteSelectedPoints,
        EditAction::RemoveDataPoint(_) => ActionKind::RemoveDataPoint,
        EditAction::MovePointsToGroup(_, _) => ActionKind::MovePointsToGroup,
        EditAction::DeleteGroup(_) => ActionKind::DeleteGroup,
        EditAction::UpdateGroupName(_, _) => ActionKind::UpdateGroupName,
        EditAction::UpdateGroupColor(_, _) => ActionKind::UpdateGroupColor,
        EditAction::SetActiveGroup(_) => ActionKind::SetActiveGroup,
        EditAction::AddGroup => ActionKind::AddGroup,
        EditAction::ClearData => ActionKind::ClearData,
        EditAction::ClearCalib => ActionKind::ClearCalib,
        EditAction::UpdateCalibAxis(_, _) => ActionKind::UpdateCalibAxis,
        EditAction::UpdateLogScale(_, _) => ActionKind::UpdateLogScale,
        EditAction::SelectPoints(_, _) => ActionKind::SelectPoints,
        EditAction::SelectCalibPoint(_) => ActionKind::SelectCalibPoint,
        EditAction::ClearSelection => ActionKind::ClearSelection,
        EditAction::BeginDrag => ActionKind::SetDraggingPoint,
        EditAction::NudgeSelected(_, _) => ActionKind::NudgeSelected,
        EditAction::MoveSelected(_, _) => ActionKind::MoveSelected,
        EditAction::StopDragging => ActionKind::StopDragging,
        EditAction::ApplyDetectedAxis(_, _, _, _) => ActionKind::MaskApplyAxis,
        EditAction::AddDetectedGroup(_, _) => ActionKind::MaskAddData,
        EditAction::Undo => ActionKind::Undo,
        EditAction::Redo => ActionKind::Redo,
    }
}

/// The kind of an edit.
pub fn action_kind<P>(a: &EditAction<P>) -> (k: ActionKind)
    ensures
        k == kind(*a),
{
    match a {
        EditAction::AddCalibPoint(_) => ActionKind::AddCalibPoint,
        EditAction::AddDataPoint(_) => ActionKind::AddDataPoint,
        EditAction::DeleteSelectedPoints => ActionKind::DeleteSelectedPoints,
        EditAction::RemoveDataPoint(_) => ActionKind::RemoveDataPoint,
        EditAction::MovePointsToGroup(_, _) => ActionKind::MovePointsToGroup,
        EditAction::DeleteGroup(_) => ActionKind::DeleteGroup,
        EditAction::UpdateGroupName(_, _) => ActionKind::UpdateGroupName,
        EditAction::UpdateGroupColor(_, _) => ActionKind::UpdateGroupColor,
        EditAction::SetActiveGroup(_) => ActionKind::SetActiveGroup,
        EditAction::AddGroup => ActionKind::AddGroup,
        EditAction::ClearData => ActionKind::ClearData,
        EditAction::ClearCalib => ActionKind::ClearCalib,
        EditAction::UpdateCalibAxis(_, _) => ActionKind::UpdateCalibAxis,
        EditAction::UpdateLogScale(_, _) => ActionKind::UpdateLogScale,
        EditAction::SelectPoints(_, _) => ActionKind::SelectPoints,
        EditAction::SelectCalibPoint(_) => ActionKind::SelectCalibPoint,
        EditAction::ClearSelection => ActionKind::ClearSelection,
        EditAction::BeginDrag => ActionKind::SetDraggingPoint,
        EditAction::NudgeSelected(_, _) => ActionKind::NudgeSelected,
        EditAction::MoveSelected(_, _) => ActionKind::MoveSelected,
        EditAction::StopDragging => ActionKind::StopDragging,
        EditAction::ApplyDetectedAxis(_, _, _, _) => ActionKind::MaskApplyAxis,
        EditAction::AddDetectedGroup(_, _) => ActionKind::MaskAddData,
        EditAction::Undo => ActionKind::Undo,
        EditAction::Redo => ActionKind::Redo,
    }
}

/// The character of a decimal digit.
pub open spec fn digit_char(d: nat) -> char {
    (d + 48) as char
}

/// The decimal digits of `n`, without leading zeros.
pub open spec fn decimal(n: nat) -> Seq<char>
    decreases n,
{
    if n < 10 {
        seq![digit_char(n)]
    } else {
        decimal(n / 10).push(digit_char(n % 10))
    }
}

/// The name given to the `n`-th group: "Group n".
pub open spec fn group_label(n: nat) -> Seq<char> {
    seq!['G', 'r', 'o', 'u', 'p', ' '] + decimal(n)
}

/// The decimal digits of `n`.
fn decimal_chars(n: usize) -> (r: Vec<char>)
    ensures
        r@ == decimal(n as nat),
    decreases n,
{
    let d: u8 = (n % 10) as u8;
    let c = (d + 48) as char;
    if n < 10 {
        let mut r: Vec<char> = Vec::new();
        r.push(c);
        proof {
            assert(r@ =~= seq![digit_char(n as nat)]);
        }
        r
    } else {
        let mut r = decimal_chars(n / 10);
        r.push(c);
        r
    }
}

/// The name of the `n`-th group: "Group n".
fn group_label_chars(n: usize) -> (r: Vec<char>)
    ensures
        r@ == group_label(n as nat),
{
    let mut r: Vec<char> = Vec::new();
    r.push('G');
    r.push('r');
    r.push('o');
    r.push('u');
    r.push('p');
    r.push(' ');
    let digits = decimal_chars(n);
    let mut i: usize = 0;
    while i < digits.len()
        invariant
            i <= digits@.len(),
            r@ == seq!['G', 'r', 'o', 'u', 'p', ' '] + digits@.take(i as int),
        decreases digits@.len() - i,
    {
        r.push(digits[i]);
        proof {
            assert(r@ =~= seq!['G', 'r', 'o', 'u', 'p', ' '] + digits@.take(i + 1));
        }
        i = i + 1;
    }
    proof {
        assert(digits@.take(digits@.len() as int) =~= digits@);
    }
    r
}

/// The group a project starts with, and the only one left after clearing
/// the data.
pub open spec fn default_group() -> GroupView {
    GroupView { name: group_label(1), color: [0xd7u8, 0x30u8, 0x27u8, 0xffu8] }
}

/// An opaque colour with the given red, green and blue.
pub open spec fn opaque_color(c: [u8; 3]) -> [u8; 4] {
    [c[0], c[1], c[2], 0xffu8]
}

/// The points left after group `removed` is deleted, among the first `n`,
/// with the group indices after it moved down by one.
pub open spec fn regrouped_points<P>(data: Seq<(P, usize)>, removed: usize, n: nat) -> Seq<(P, usize)>
    decreases n,
{
    if n == 0 || n > data.len() {
        Seq::empty()
    } else {
        let prev = regrouped_points(data, removed, (n - 1) as nat);
        match regrouped(data[n - 1].1, removed) {
            Some(g) => prev.push((data[n - 1].0, g)),
            None => prev,
        }
    }
}

/// The data points after the first `n` moves, each putting the point at its
/// index (when it exists) in a new place, in its group.
pub open spec fn placed_data<P>(data: Seq<(P, usize)>, moves: Seq<(usize, P)>, n: nat) -> Seq<(P, usize)>
    decreases n,
{
    if n == 0 || n > moves.len() {
        data
    } else {
        let prev = placed_data(data, moves, (n - 1) as nat);
        let (i, p) = moves[n - 1];
        if i < prev.len() {
            prev.update(i as int, (p, prev[i as int].1))
        } else {
            prev
        }
    }
}

/// The calibration points after a nudge of one of them, when it exists.
pub open spec fn placed_calib<P>(calib: Seq<P>, mv: Option<(usize, P)>) -> Seq<P> {
    match mv {
        Some((i, p)) => if i < calib.len() {
            calib.update(i as int, p)
        } else {
            calib
        },
        None => calib,
    }
}

/// The calibration points padded with `filler` up to `need` points.
pub open spec fn padded_calib<P>(calib: Seq<P>, need: int, filler: P) -> Seq<P> {
    if calib.len() >= need {
        calib
    } else {
        calib + Seq::new((need - calib.len()) as nat, |i: int| filler)
    }
}

/// The positions `len - k .. len`.
pub open spec fn last_positions(len: int, k: int) -> Set<usize> {
    Set::new(|j: usize| len - k <= j < len)
}

/// The outcome of an edit that leaves the derived values as they are.
pub open spec fn unchanged_outcome() -> EditOutcome {
    EditOutcome { recalculate: false, enter_data_mode: false }
}

/// The state after the bookkeeping that precedes an edit of kind `k`: it
/// marks unsaved changes if the edit changes the project, and saves the
/// content for undo if the edit is recorded.
pub open spec fn prepared<P>(m: EditorView<P>, k: ActionKind) -> EditorView<P> {
    let h: Stacks<Content<P>> = if records_undo(k) {
        saved((m.undo, m.redo), m.content)
    } else {
        (m.undo, m.redo)
    };
    EditorView { dirty: m.dirty || modifies_project(k), undo: h.0, redo: h.1, ..m }
}

/// The state with the given content and no data point selected.
pub open spec fn with_content<P>(e: EditorView<P>, c: Content<P>) -> EditorView<P> {
    EditorView { content: c, selected: Set::empty(), ..e }
}

/// What an edit does after the bookkeeping, and what it asks of the caller.
pub open spec fn effect<P>(e: EditorView<P>, a: EditAction<P>) -> (EditorView<P>, EditOutcome) {
    let c = e.content;
    match a {
        EditAction::AddCalibPoint(p) => {
            if c.calib.len() < MAX_CALIB_POINTS {
                (
                    EditorView {
                        selected_calib: Some(c.calib.len() as usize),
                        ..with_content(e, Content { calib: c.calib.push(p), ..c })
                    },
                    EditOutcome {
                        recalculate: true,
                        enter_data_mode: c.calib.len() + 1 == MAX_CALIB_POINTS,
                    },
                )
            } else {
                (e, unchanged_outcome())
            }
        },
        EditAction::AddDataPoint(p) => {
            let groups = if c.groups.len() == 0 { seq![default_group()] } else { c.groups };
            let active = if c.groups.len() == 0 { 0usize } else { c.active };
            let data = c.data.push((p, active));
            (
                EditorView {
                    content: Content { data, groups, active, ..c },
                    selected: set![(data.len() - 1) as usize],
                    selected_calib: None,
                    ..e
                },
                EditOutcome { recalculate: true, enter_data_mode: false },
            )
        },
        EditAction::DeleteSelectedPoints => (
            with_content(e, Content { data: without_positions(c.data, e.selected, c.data.len()), ..c }),
            unchanged_outcome(),
        ),
        EditAction::RemoveDataPoint(idx) => {
            if idx < c.data.len() {
                (
                    EditorView {
                        content: Content { data: c.data.remove(idx as int), ..c },
                        selected: e.selected.remove(idx),
                        ..e
                    },
                    unchanged_outcome(),
                )
            } else {
                (e, unchanged_outcome())
            }
        },
        EditAction::MovePointsToGroup(indices, group) => {
            let data = removed_largest(c.data, sorted_perm(index_keys(indices@)), indices@.len())
                + moved_points(c.data, indices@, group, indices@.len());
            (
                EditorView {
                    content: Content { data, ..c },
                    selected: last_positions(data.len() as int, indices@.len() as int),
                    ..e
                },
                unchanged_outcome(),
            )
        },
        EditAction::DeleteGroup(idx) => {
            if idx < c.groups.len() {
                (
                    with_content(
                        e,
                        Content {
                            calib: c.calib,
                            data: regrouped_points(c.data, idx, c.data.len()),
                            groups: c.groups.remove(idx as int),
                            active: active_after_delete(c.active, idx),
                        },
                    ),
                    unchanged_outcome(),
                )
            } else {
                (e, unchanged_outcome())
            }
        },
        EditAction::UpdateGroupName(idx, name) => {
            if idx < c.groups.len() {
                let g = GroupView { name: name@, color: c.groups[idx as int].color };
                (EditorView { content: Content { groups: c.groups.update(idx as int, g), ..c }, ..e }, unchanged_outcome())
            } else {
                (e, unchanged_outcome())
            }
        },
        EditAction::UpdateGroupColor(idx, color) => {
            if idx < c.groups.len() {
                let g = GroupView { name: c.groups[idx as int].name, color };
                (EditorView { content: Content { groups: c.groups.update(idx as int, g), ..c }, ..e }, unchanged_outcome())
            } else {
                (e, unchanged_outcome())
            }
        },
        EditAction::SetActiveGroup(idx) => (
            EditorView { content: Content { active: idx, ..c }, ..e },
            unchanged_outcome(),
        ),
        EditAction::AddGroup => {
            let n = c.groups.len();
            let g = GroupView { name: group_label(n + 1), color: opaque_color(group_palette(n as int % 5)) };
            (
                EditorView { content: Content { groups: c.groups.push(g), active: n as usize, ..c }, ..e },
                unchanged_outcome(),
            )
        },
        EditAction::ClearData => (
            EditorView {
                undo: Seq::empty(),
                redo: Seq::empty(),
                ..with_content(e, Content { data: Seq::empty(), groups: seq![default_group()], active: 0, ..c })
            },
            unchanged_outcome(),
        ),
        EditAction::ClearCalib => (
            EditorView {
                content: Content { calib: Seq::empty(), ..c },
                selected_calib: None,
                axes: default_axis_view(),
                ..e
            },
            EditOutcome { recalculate: true, enter_data_mode: false },
        ),
        EditAction::UpdateCalibAxis(which, v) => (
            EditorView { axes: with_axis_value(e.axes, which, v@), ..e },
            EditOutcome { recalculate: true, enter_data_mode: false },
        ),
        EditAction::UpdateLogScale(lx, ly) => (
            EditorView { axes: AxisView { log_x: lx, log_y: ly, ..e.axes }, ..e },
            EditOutcome { recalculate: true, enter_data_mode: false },
        ),
        EditAction::SelectPoints(indices, is_multi) => (
            EditorView { selected: selection_after(e.selected, indices@, is_multi), selected_calib: None, ..e },
            unchanged_outcome(),
        ),
        EditAction::SelectCalibPoint(idx) => (
            EditorView { selected: Set::empty(), selected_calib: Some(idx), ..e },
            unchanged_outcome(),
        ),
        EditAction::ClearSelection => (
            EditorView { selected: Set::empty(), selected_calib: None, ..e },
            unchanged_outcome(),
        ),
        EditAction::BeginDrag => (e, unchanged_outcome()),
        EditAction::ApplyDetectedAxis(is_y, start, end, filler) => {
            let h = saved((e.undo, e.redo), c);
            let base: int = if is_y { 2 } else { 0 };
            let calib = padded_calib(c.calib, base + 2, filler).update(base, start).update(base + 1, end);
            (
                EditorView { content: Content { calib, ..c }, dirty: true, undo: h.0, redo: h.1, ..e },
                EditOutcome { recalculate: true, enter_data_mode: false },
            )
        },
        EditAction::AddDetectedGroup(color, pts) => {
            if pts@.len() == 0 {
                (e, unchanged_outcome())
            } else {
                let h = saved((e.undo, e.redo), c);
                let n = c.groups.len();
                let g = GroupView { name: group_label(n + 1), color: opaque_color(color) };
                let data = c.data + Seq::new(pts@.len(), |i: int| (pts@[i], n as usize));
                (
                    EditorView {
                        content: Content { data, groups: c.groups.push(g), active: n as usize, ..c },
                        dirty: true,
                        undo: h.0,
                        redo: h.1,
                        ..e
                    },
                    EditOutcome { recalculate: true, enter_data_mode: false },
                )
            }
        },
        EditAction::StopDragging => (e, EditOutcome { recalculate: true, enter_data_mode: false }),
        EditAction::NudgeSelected(mv, moves) | EditAction::MoveSelected(mv, moves) => (
            EditorView {
                content: Content {
                    calib: placed_calib(c.calib, mv),
                    data: placed_data(c.data, moves@, moves@.len()),
                    ..c
                },
                ..e
            },
            unchanged_outcome(),
        ),
        EditAction::Undo => {
            if e.undo.len() > 0 {
                let (h, restored) = undone((e.undo, e.redo), c);
                (
                    EditorView { undo: h.0, redo: h.1, ..with_content(e, restored) },
                    EditOutcome { recalculate: true, enter_data_mode: false },
                )
            } else {
                (e, unchanged_outcome())
            }
        },
        EditAction::Redo => {
            if e.redo.len() > 0 {
                let (h, restored) = redone((e.undo, e.redo), c);
                (
                    EditorView { undo: h.0, redo: h.1, ..with_content(e, restored) },
                    EditOutcome { recalculate: true, enter_data_mode: false },
                )
            } else {
                (e, unchanged_outcome())
            }
        },
    }
}

/// One edit: the bookkeeping, then the edit itself.
pub open spec fn edit_step<P>(m: EditorView<P>, a: EditAction<P>) -> (EditorView<P>, EditOutcome) {
    effect(prepared(m, kind(a)), a)
}

/// An edit that the editor can carry out: moving points leaves at least as
/// many points as indices, so that the moved points can be selected.
pub open spec fn edit_allowed<P>(m: EditorView<P>, a: EditAction<P>) -> bool {
    match a {
        EditAction::MovePointsToGroup(indices, _) => move_fits(m.content.data, indices@),
        _ => true,
    }
}

/// Copies a list of copyable values.
fn copy_vec<T: Copy>(v: &Vec<T>) -> (r: Vec<T>)
    ensures
        r@ == v@,
{
    let mut r: Vec<T> = Vec::new();
    let mut i: usize = 0;
    while i < v.len()
        invariant
            i <= v@.len(),
            r@ == v@.take(i as int),
        decreases v@.len() - i,
    {
        r.push(v[i]);
        proof {
            assert(r@ =~= v@.take(i + 1));
        }
        i = i + 1;
    }
    proof {
        assert(v@.take(v@.len() as int) =~= v@);
    }
    r
}

/// Copies a list of groups.
fn copy_groups(v: &Vec<GroupInfo>) -> (r: Vec<GroupInfo>)
    ensures
        group_views(r@) == group_views(v@),
{
    let mut r: Vec<GroupInfo> = Vec::new();
    let mut i: usize = 0;
    while i < v.len()
        invariant
            i <= v@.len(),
            r@.len() == i,
            forall|k: int| 0 <= k < i ==> (#[trigger] r@[k])@ == v@[k]@,
        decreases v@.len() - i,
    {
        let g = GroupInfo { name: copy_vec(&v[i].name), color: v[i].color };
        assert(g@ == v@[i as int]@);
        r.push(g);
        i = i + 1;
    }
    proof {
        assert(group_views(r@) =~= group_views(v@));
    }
    r
}

/// Saving a snapshot, then reading the stacks as contents, is saving its
/// content on the stacks of contents.
proof fn lemma_contents_saved<P>(h: Stacks<Snapshot<P>>, s: Snapshot<P>)
    ensures
        contents(saved(h, s).0) == saved((contents(h.0), contents(h.1)), s.content()).0,
        contents(saved(h, s).1) == saved((contents(h.0), contents(h.1)), s.content()).1,
{
    let u = h.0.push(s);
    let cu = contents(h.0).push(s.content());
    assert(contents(u) =~= cu);
    if u.len() > crate::history::HISTORY_LIMIT {
        assert(contents(u.subrange(1, u.len() as int)) =~= cu.subrange(1, cu.len() as int));
    }
    assert(contents(Seq::<Snapshot<P>>::empty()) =~= Seq::<Content<P>>::empty());
}

/// Undoing on snapshots, read as contents, is undoing on contents.
proof fn lemma_contents_undone<P>(h: Stacks<Snapshot<P>>, cur: Snapshot<P>)
    requires
        h.0.len() > 0,
    ensures
        contents(undone(h, cur).0.0) == undone((contents(h.0), contents(h.1)), cur.content()).0.0,
        contents(undone(h, cur).0.1) == undone((contents(h.0), contents(h.1)), cur.content()).0.1,
        undone(h, cur).1.content() == undone((contents(h.0), contents(h.1)), cur.content()).1,
{
    assert(contents(h.0.drop_last()) =~= contents(h.0).drop_last());
    assert(contents(h.1.push(cur)) =~= contents(h.1).push(cur.content()));
}

/// Redoing on snapshots, read as contents, is redoing on contents.
proof fn lemma_contents_redone<P>(h: Stacks<Snapshot<P>>, cur: Snapshot<P>)
    requires
        h.1.len() > 0,
    ensures
        contents(redone(h, cur).0.0) == redone((contents(h.0), contents(h.1)), cur.content()).0.0,
        contents(redone(h, cur).0.1) == redone((contents(h.0), contents(h.1)), cur.content()).0.1,
        redone(h, cur).1.content() == redone((contents(h.0), contents(h.1)), cur.content()).1,
{
    assert(contents(h.1.drop_last()) =~= contents(h.1).drop_last());
    assert(contents(h.0.push(cur)) =~= contents(h.0).push(cur.content()));
}

impl<P: Copy> EditorState<P> {
    /// The selection holds no index twice.
    pub closed spec fn wf(&self) -> bool {
        distinct(self.selected@)
    }

    /// A fresh editor: no points, the first group active, nothing selected,
    /// no unsaved changes and nothing to undo.
    pub fn new() -> (s: Self)
        ensures
            s.wf(),
            s@ == (EditorView::<P> {
                content: Content {
                    calib: Seq::empty(),
                    data: Seq::empty(),
                    groups: seq![default_group()],
                    active: 0,
                },
                selected: Set::empty(),
                selected_calib: None,
                dirty: false,
                undo: Seq::empty(),
                redo: Seq::empty(),
                axes: default_axis_view(),
            }),
    {
        let mut groups: Vec<GroupInfo> = Vec::new();
        groups.push(GroupInfo { name: group_label_chars(1), color: [0xd7, 0x30, 0x27, 0xff] });
        let s = EditorState {
            calib_pts: Vec::new(),
            data_pts: Vec::new(),
            groups,
            active_group: 0,
            selected: Vec::new(),
            selected_calib: None,
            dirty: false,
            history: History::new(),
            axes: default_axes(),
        };
        proof {
            assert(group_views(s.groups@) =~= seq![default_group()]);
            assert(s.selected@.to_set() =~= Set::<usize>::empty());
            assert(contents(s.history.undo_stack@) =~= Seq::<Content<P>>::empty());
            assert(contents(s.history.redo_stack@) =~= Seq::<Content<P>>::empty());
        }
        s
    }

    /// The current content, copied.
    fn snapshot(&self) -> (r: Snapshot<P>)
        ensures
            r.content() == self@.content,
    {
        let r = Snapshot {
            calib_pts: copy_vec(&self.calib_pts),
            data_pts: copy_vec(&self.data_pts),
            groups: copy_groups(&self.groups),
            active_group: self.active_group,
        };
        r
    }

    /// The bookkeeping before an edit of kind `k`.
    fn prepare(&mut self, k: ActionKind)
        requires
            old(self).wf(),
        ensures
            final(self).wf(),
            final(self)@ == prepared(old(self)@, k),
    {
        if marks_dirty(k) {
            self.dirty = true;
        }
        if takes_snapshot(k) {
            let snap = self.snapshot();
            let ghost h = self.history.stacks();
            self.history.save_snapshot(snap);
            proof {
                lemma_contents_saved(h, snap);
            }
        }
    }

    /// An editor holding the content of a snapshot, as when a project is
    /// opened: nothing selected, no unsaved changes, nothing to undo.
    pub fn from_snapshot(snap: Snapshot<P>, axes: AxisValues) -> (s: Self)
        ensures
            s.wf(),
            s@ == (EditorView::<P> {
                content: snap.content(),
                selected: Set::empty(),
                selected_calib: None,
                dirty: false,
                undo: Seq::empty(),
                redo: Seq::empty(),
                axes: axes@,
            }),
    {
        let Snapshot { calib_pts, data_pts, groups, active_group } = snap;
        let s = EditorState {
            calib_pts,
            data_pts,
            groups,
            active_group,
            selected: Vec::new(),
            selected_calib: None,
            dirty: false,
            history: History::new(),
            axes,
        };
        proof {
            assert(s.selected@.to_set() =~= Set::<usize>::empty());
            assert(contents(s.history.undo_stack@) =~= Seq::<Content<P>>::empty());
            assert(contents(s.history.redo_stack@) =~= Seq::<Content<P>>::empty());
        }
        s
    }

    /// A copy of the current content, as saved in a project file.
    pub fn current(&self) -> (r: Snapshot<P>)
        ensures
            r.content() == self@.content,
    {
        self.snapshot()
    }

    /// The calibration points.
    pub fn calib_pts(&self) -> (r: &Vec<P>)
        ensures
            r@ == self@.content.calib,
    {
        &self.calib_pts
    }

    /// The data points with their group indices.
    pub fn data_pts(&self) -> (r: &Vec<(P, usize)>)
        ensures
            r@ == self@.content.data,
    {
        &self.data_pts
    }

    /// The groups.
    pub fn groups(&self) -> (r: &Vec<GroupInfo>)
        ensures
            group_views(r@) == self@.content.groups,
    {
        &self.groups
    }

    /// The group new data points go to.
    pub fn active_group(&self) -> (r: usize)
        ensures
            r == self@.content.active,
    {
        self.active_group
    }

    /// The selected data points, each once.
    pub fn selected(&self) -> (r: &Vec<usize>)
        requires
            self.wf(),
        ensures
            r@.to_set() == self@.selected,
            distinct(r@),
    {
        &self.selected
    }

    /// The selected calibration point.
    pub fn selected_calib(&self) -> (r: Option<usize>)
        ensures
            r == self@.selected_calib,
    {
        self.selected_calib
    }

    /// Whether there are unsaved changes.
    pub fn is_dirty(&self) -> (r: bool)
        ensures
            r == self@.dirty,
    {
        self.dirty
    }

    /// Whether there is something to undo, and something to redo.
    pub fn can_undo_redo(&self) -> (r: (bool, bool))
        ensures
            r == (self@.undo.len() > 0, self@.redo.len() > 0),
    {
        (self.history.undo_stack.len() > 0, self.history.redo_stack.len() > 0)
    }

    /// Records that the project was saved: no unsaved changes are left.
    pub fn mark_saved(&mut self)
        requires
            old(self).wf(),
        ensures
            final(self).wf(),
            final(self)@ == (EditorView { dirty: false, ..old(self)@ }),
    {
        self.dirty = false;
    }

    /// Replaces the payload of data point `i` (its values recomputed by
    /// the caller), keeping its group.
    pub fn set_data_point(&mut self, i: usize, p: P)
        requires
            old(self).wf(),
            i < old(self)@.content.data.len(),
        ensures
            final(self).wf(),
            final(self)@ == (EditorView {
                content: Content {
                    data: old(self)@.content.data.update(i as int, (p, old(self)@.content.data[i as int].1)),
                    ..old(self)@.content
                },
                ..old(self)@
            }),
    {
        let g = self.data_pts[i].1;
        self.data_pts[i] = (p, g);
    }

    /// Places a calibration point while fewer than four are placed.
    fn add_calib_point(&mut self, p: P) -> (out: EditOutcome)
        requires
            old(self).wf(),
        ensures
            final(self).wf(),
            (final(self)@, out) == effect(old(self)@, EditAction::AddCalibPoint(p)),
    {
        if self.calib_pts.len() < MAX_CALIB_POINTS {
            self.calib_pts.push(p);
            self.selected_calib = Some(self.calib_pts.len() - 1);
            self.selected.clear();
            proof {
                assert(self.selected@.to_set() =~= Set::<usize>::empty());
            }
            EditOutcome {
                recalculate: true,
                enter_data_mode: self.calib_pts.len() == MAX_CALIB_POINTS,
            }
        } else {
            EditOutcome { recalculate: false, enter_data_mode: false }
        }
    }

    /// Places a data point in the active group (creating the first group
    /// if there is none) and selects it alone.
    fn add_data_point(&mut self, p: P) -> (out: EditOutcome)
        requires
            old(self).wf(),
        ensures
            final(self).wf(),
            (final(self)@, out) == effect(old(self)@, EditAction::AddDataPoint(p)),
    {
        if self.groups.len() == 0 {
            self.groups.push(GroupInfo { name: group_label_chars(1), color: [0xd7, 0x30, 0x27, 0xff] });
            self.active_group = 0;
            proof {
                assert(group_views(self.groups@) =~= seq![default_group()]);
            }
        }
        self.data_pts.push((p, self.active_group));
        self.selected.clear();
        self.selected.push(self.data_pts.len() - 1);
        self.selected_calib = None;
        proof {
            let x = (self.data_pts@.len() - 1) as usize;
            assert(self.selected@ =~= seq![x]);
            assert forall|j: usize| self.selected@.to_set().contains(j) <==> set![x].contains(j) by {
                if j == x {
                    assert(self.selected@[0] == x);
                    assert(self.selected@.contains(j));
                }
            }
            assert(self.selected@.to_set() =~= set![x]);
        }
        EditOutcome { recalculate: true, enter_data_mode: false }
    }

    /// Deletes the selected data points.
    fn delete_selected_points(&mut self) -> (out: EditOutcome)
        requires
            old(self).wf(),
        ensures
            final(self).wf(),
            (final(self)@, out) == effect(old(self)@, EditAction::<P>::DeleteSelectedPoints),
    {
        self.data_pts = remove_selected(&self.data_pts, &self.selected);
        self.selected.clear();
        proof {
            assert(self.selected@.to_set() =~= Set::<usize>::empty());
        }
        EditOutcome { recalculate: false, enter_data_mode: false }
    }

    /// Deletes the data point at `idx`, if there is one, and unselects that
    /// index.
    fn remove_data_point(&mut self, idx: usize) -> (out: EditOutcome)
        requires
            old(self).wf(),
        ensures
            final(self).wf(),
            (final(self)@, out) == effect(old(self)@, EditAction::<P>::RemoveDataPoint(idx)),
    {
        if idx < self.data_pts.len() {
            self.data_pts.remove(idx);
            set_remove(&mut self.selected, idx);
        }
        EditOutcome { recalculate: false, enter_data_mode: false }
    }

    /// Moves the points at `indices` to group `group` and selects them at
    /// their new places.
    fn move_points(&mut self, indices: Vec<usize>, group: usize) -> (out: EditOutcome)
        requires
            old(self).wf(),
            move_fits(old(self)@.content.data, indices@),
        ensures
            final(self).wf(),
            (final(self)@, out) == effect(old(self)@, EditAction::<P>::MovePointsToGroup(indices, group)),
    {
        let (data, sel) = move_points_to_group(&self.data_pts, &indices, group);
        proof {
            let asc = choose|asc: Seq<u64>|
                #[trigger] sorted_indices(indices@, asc) && data@ == removed_largest(self.data_pts@, asc, asc.len())
                    + moved_points(self.data_pts@, indices@, group, indices@.len());
            lemma_is_sorted_perm(index_keys(indices@), asc);
            vstd::seq_lib::to_multiset_len(asc);
            vstd::seq_lib::to_multiset_len(index_keys(indices@));
            assert(distinct(sel@));
            let n = data@.len() as int;
            let k = indices@.len() as int;
            assert forall|j: usize| sel@.to_set().contains(j) <==> last_positions(n, k).contains(j) by {
                if sel@.to_set().contains(j) {
                    assert(sel@.contains(j));
                    let i = choose|i: int| 0 <= i < sel@.len() && sel@[i] == j;
                    assert(sel@[i] == n - k + i);
                }
                if last_positions(n, k).contains(j) {
                    let i = j - (n - k);
                    assert(sel@[i] == j);
                    assert(sel@.contains(j));
                }
            }
            assert(sel@.to_set() =~= last_positions(n, k));
        }
        self.data_pts = data;
        self.selected = sel;
        EditOutcome { recalculate: false, enter_data_mode: false }
    }

    /// Deletes group `idx` with its points; later groups move down by one.
    fn delete_group(&mut self, idx: usize) -> (out: EditOutcome)
        requires
            old(self).wf(),
        ensures
            final(self).wf(),
            (final(self)@, out) == effect(old(self)@, EditAction::<P>::DeleteGroup(idx)),
    {
        if idx < self.groups.len() {
            let ghost gs = self.groups@;
            self.groups.remove(idx);
            proof {
                assert(group_views(self.groups@) =~= group_views(gs).remove(idx as int));
            }
            self.active_group = active_group_after_delete(self.active_group, idx);
            self.data_pts = regroup_points(&self.data_pts, idx);
            self.selected.clear();
            proof {
                assert(self.selected@.to_set() =~= Set::<usize>::empty());
            }
        }
        EditOutcome { recalculate: false, enter_data_mode: false }
    }

    /// Renames group `idx`, if there is one.
    fn update_group_name(&mut self, idx: usize, name: Vec<char>) -> (out: EditOutcome)
        requires
            old(self).wf(),
        ensures
            final(self).wf(),
            (final(self)@, out) == effect(old(self)@, EditAction::<P>::UpdateGroupName(idx, name)),
    {
        if idx < self.groups.len() {
            let ghost gs = self.groups@;
            let color = self.groups[idx].color;
            let g = GroupInfo { name, color };
            self.groups[idx] = g;
            proof {
                assert(group_views(self.groups@) =~= group_views(gs).update(
                    idx as int,
                    GroupView { name: name@, color: group_views(gs)[idx as int].color },
                ));
            }
        }
        EditOutcome { recalculate: false, enter_data_mode: false }
    }

    /// Recolours group `idx`, if there is one.
    fn update_group_color(&mut self, idx: usize, color: [u8; 4]) -> (out: EditOutcome)
        requires
            old(self).wf(),
        ensures
            final(self).wf(),
            (final(self)@, out) == effect(old(self)@, EditAction::<P>::UpdateGroupColor(idx, color)),
    {
        if idx < self.groups.len() {
            let ghost gs = self.groups@;
            let name = copy_vec(&self.groups[idx].name);
            self.groups[idx] = GroupInfo { name, color };
            proof {
                assert(group_views(self.groups@) =~= group_views(gs).update(
                    idx as int,
                    GroupView { name: group_views(gs)[idx as int].name, color },
                ));
            }
        }
        EditOutcome { recalculate: false, enter_data_mode: false }
    }

    /// Adds a group named after its number, in the next palette colour,
    /// and makes it active.
    fn add_group(&mut self) -> (out: EditOutcome)
        requires
            old(self).wf(),
        ensures
            final(self).wf(),
            (final(self)@, out) == effect(old(self)@, EditAction::<P>::AddGroup),
    {
        let ghost gs = self.groups@;
        let n = self.groups.len();
        let c = new_group_color(n);
        self.groups.push(GroupInfo { name: Vec::new(), color: [c[0], c[1], c[2], 0xff] });
        let len = self.groups.len();
        let name = group_label_chars(len);
        self.groups[n] = GroupInfo { name, color: [c[0], c[1], c[2], 0xff] };
        self.active_group = n;
        proof {
            let g = GroupView { name: group_label((n + 1) as nat), color: opaque_color(group_palette(n as int % 5)) };
            assert(group_views(self.groups@) =~= group_views(gs).push(g));
        }
        EditOutcome { recalculate: false, enter_data_mode: false }
    }

    /// Deletes all data points, leaves only a fresh first group, and
    /// forgets the undo history.
    fn clear_data(&mut self) -> (out: EditOutcome)
        requires
            old(self).wf(),
        ensures
            final(self).wf(),
            (final(self)@, out) == effect(old(self)@, EditAction::<P>::ClearData),
    {
        self.data_pts.clear();
        let mut groups: Vec<GroupInfo> = Vec::new();
        groups.push(GroupInfo { name: group_label_chars(1), color: [0xd7, 0x30, 0x27, 0xff] });
        self.groups = groups;
        self.active_group = 0;
        self.selected.clear();
        self.history.clear();
        proof {
            assert(group_views(self.groups@) =~= seq![default_group()]);
            assert(self.selected@.to_set() =~= Set::<usize>::empty());
            assert(contents(self.history.undo_stack@) =~= Seq::<Content<P>>::empty());
            assert(contents(self.history.redo_stack@) =~= Seq::<Content<P>>::empty());
        }
        EditOutcome { recalculate: false, enter_data_mode: false }
    }

    /// Deletes the calibration points.
    fn clear_calib(&mut self) -> (out: EditOutcome)
        requires
            old(self).wf(),
        ensures
            final(self).wf(),
            (final(self)@, out) == effect(old(self)@, EditAction::<P>::ClearCalib),
    {
        self.calib_pts.clear();
        self.selected_calib = None;
        self.axes = default_axes();
        EditOutcome { recalculate: true, enter_data_mode: false }
    }

    /// Sets one typed calibration value.
    fn update_axis(&mut self, which: CalibAxis, v: String) -> (out: EditOutcome)
        requires
            old(self).wf(),
        ensures
            final(self).wf(),
            (final(self)@, out) == effect(old(self)@, EditAction::<P>::UpdateCalibAxis(which, v)),
    {
        match which {
            CalibAxis::X1 => {
                self.axes.x1_val = v;
            },
            CalibAxis::X2 => {
                self.axes.x2_val = v;
            },
            CalibAxis::Y1 => {
                self.axes.y1_val = v;
            },
            CalibAxis::Y2 => {
                self.axes.y2_val = v;
            },
        }
        EditOutcome { recalculate: true, enter_data_mode: false }
    }

    /// The calibration values.
    pub fn axes(&self) -> (r: &AxisValues)
        ensures
            r@ == self@.axes,
    {
        &self.axes
    }

    /// Selects data points.
    fn select(&mut self, indices: Vec<usize>, is_multi: bool) -> (out: EditOutcome)
        requires
            old(self).wf(),
        ensures
            final(self).wf(),
            (final(self)@, out) == effect(old(self)@, EditAction::<P>::SelectPoints(indices, is_multi)),
    {
        self.selected_calib = None;
        select_points(&mut self.selected, &indices, is_multi);
        EditOutcome { recalculate: false, enter_data_mode: false }
    }

    /// Selects a calibration point, or nothing, and no data point.
    fn select_calib(&mut self, calib: Option<usize>) -> (out: EditOutcome)
        requires
            old(self).wf(),
        ensures
            final(self).wf(),
            final(self)@ == (EditorView { selected: Set::empty(), selected_calib: calib, ..old(self)@ }),
            out == unchanged_outcome(),
    {
        self.selected.clear();
        self.selected_calib = calib;
        proof {
            assert(self.selected@.to_set() =~= Set::<usize>::empty());
        }
        EditOutcome { recalculate: false, enter_data_mode: false }
    }

    /// Steps back to the last snapshot, keeping the current content for redo.
    fn undo(&mut self) -> (out: EditOutcome)
        requires
            old(self).wf(),
        ensures
            final(self).wf(),
            (final(self)@, out) == effect(old(self)@, EditAction::<P>::Undo),
    {
        if self.history.undo_stack.len() > 0 {
            let cur = self.snapshot();
            let ghost h = self.history.stacks();
            let restored = self.history.undo(cur);
            proof {
                lemma_contents_undone(h, cur);
            }
            self.restore(restored);
            EditOutcome { recalculate: true, enter_data_mode: false }
        } else {
            EditOutcome { recalculate: false, enter_data_mode: false }
        }
    }

    /// Steps forward to the snapshot last undone.
    fn redo(&mut self) -> (out: EditOutcome)
        requires
            old(self).wf(),
        ensures
            final(self).wf(),
            (final(self)@, out) == effect(old(self)@, EditAction::<P>::Redo),
    {
        if self.history.redo_stack.len() > 0 {
            let cur = self.snapshot();
            let ghost h = self.history.stacks();
            let restored = self.history.redo(cur);
            proof {
                lemma_contents_redone(h, cur);
            }
            self.restore(restored);
            EditOutcome { recalculate: true, enter_data_mode: false }
        } else {
            EditOutcome { recalculate: false, enter_data_mode: false }
        }
    }

    /// Saves the content for undo and marks unsaved changes.
    fn save_changed(&mut self)
        requires
            old(self).wf(),
        ensures
            final(self).wf(),
            final(self)@ == (EditorView {
                dirty: true,
                undo: saved((old(self)@.undo, old(self)@.redo), old(self)@.content).0,
                redo: saved((old(self)@.undo, old(self)@.redo), old(self)@.content).1,
                ..old(self)@
            }),
    {
        let snap = self.snapshot();
        let ghost h = self.history.stacks();
        self.history.save_snapshot(snap);
        proof {
            lemma_contents_saved(h, snap);
        }
        self.dirty = true;
    }

    /// Puts a detected axis on the calibration points.
    fn apply_detected_axis(&mut self, is_y: bool, start: P, end: P, filler: P) -> (out: EditOutcome)
        requires
            old(self).wf(),
        ensures
            final(self).wf(),
            (final(self)@, out) == effect(old(self)@, EditAction::ApplyDetectedAxis(is_y, start, end, filler)),
    {
        self.save_changed();
        let base: usize = if is_y {
            2
        } else {
            0
        };
        let ghost c0 = self.calib_pts@;
        let mut calib = copy_vec(&self.calib_pts);
        while calib.len() < base + 2
            invariant
                base == 0 || base == 2,
                c0.len() < base + 2 ==> calib@ == c0 + Seq::new((calib@.len() - c0.len()) as nat, |i: int| filler),
                c0.len() < base + 2 ==> calib@.len() <= base + 2,
                c0.len() >= base + 2 ==> calib@ == c0,
            decreases base + 2 - calib@.len(),
        {
            calib.push(filler);
            proof {
                assert(calib@ =~= c0 + Seq::new((calib@.len() - c0.len()) as nat, |i: int| filler));
            }
        }
        proof {
            assert(calib@ =~= padded_calib(c0, base + 2, filler));
        }
        calib[base] = start;
        calib[base + 1] = end;
        self.calib_pts = calib;
        EditOutcome { recalculate: true, enter_data_mode: false }
    }

    /// Adds a detected data series as a new, active group.
    fn add_detected_group(&mut self, color: [u8; 3], pts: Vec<P>) -> (out: EditOutcome)
        requires
            old(self).wf(),
        ensures
            final(self).wf(),
            (final(self)@, out) == effect(old(self)@, EditAction::AddDetectedGroup(color, pts)),
    {
        if pts.len() == 0 {
            return EditOutcome { recalculate: false, enter_data_mode: false };
        }
        self.save_changed();
        let ghost gs = self.groups@;
        let ghost d0 = self.data_pts@;
        let n = self.groups.len();
        self.groups.push(GroupInfo { name: Vec::new(), color: [color[0], color[1], color[2], 0xff] });
        let len = self.groups.len();
        let name = group_label_chars(len);
        self.groups[n] = GroupInfo { name, color: [color[0], color[1], color[2], 0xff] };
        self.active_group = n;
        proof {
            let g = GroupView { name: group_label((n + 1) as nat), color: opaque_color(color) };
            assert(group_views(self.groups@) =~= group_views(gs).push(g));
        }
        let mut data = copy_vec(&self.data_pts);
        let mut k: usize = 0;
        while k < pts.len()
            invariant
                k <= pts@.len(),
                data@ == d0 + Seq::new(k as nat, |i: int| (pts@[i], n)),
            decreases pts@.len() - k,
        {
            data.push((pts[k], n));
            proof {
                assert(data@ =~= d0 + Seq::new((k + 1) as nat, |i: int| (pts@[i], n)));
            }
            k = k + 1;
        }
        self.data_pts = data;
        EditOutcome { recalculate: true, enter_data_mode: false }
    }

    /// Puts nudged points at their new places.
    fn place_points(&mut self, mv: Option<(usize, P)>, moves: Vec<(usize, P)>) -> (out: EditOutcome)
        requires
            old(self).wf(),
        ensures
            final(self).wf(),
            (final(self)@, out) == effect(old(self)@, EditAction::NudgeSelected(mv, moves)),
    {
        match mv {
            Some((i, p)) => {
                if i < self.calib_pts.len() {
                    self.calib_pts[i] = p;
                }
            },
            None => {},
        }
        let ghost data0 = self.data_pts@;
        let ghost calib1 = self.calib_pts@;
        assert(calib1 == placed_calib(old(self).calib_pts@, mv));
        let mut k: usize = 0;
        while k < moves.len()
            invariant
                k <= moves@.len(),
                data0 == old(self).data_pts@,
                self.data_pts@ == placed_data(data0, moves@, k as nat),
                self.calib_pts@ == calib1,
                self.groups@ == old(self).groups@,
                self.active_group == old(self).active_group,
                self.selected@ == old(self).selected@,
                self.selected_calib == old(self).selected_calib,
                self.dirty == old(self).dirty,
                self.history.undo_stack@ == old(self).history.undo_stack@,
                self.history.redo_stack@ == old(self).history.redo_stack@,
                self.axes@ == old(self).axes@,
                distinct(self.selected@),
            decreases moves@.len() - k,
        {
            let (i, p) = moves[k];
            if i < self.data_pts.len() {
                let g = self.data_pts[i].1;
                self.data_pts[i] = (p, g);
            }
            k = k + 1;
        }
        EditOutcome { recalculate: false, enter_data_mode: false }
    }

    /// The selected data points that exist, each once.
    fn selected_existing(&self) -> (r: Vec<usize>)
        requires
            self.wf(),
        ensures
            distinct(r@),
            forall|j: usize| #[trigger] r@.contains(j) <==> self@.selected.contains(j) && j < self@.content.data.len(),
    {
        let mut r: Vec<usize> = Vec::new();
        let mut k: usize = 0;
        while k < self.selected.len()
            invariant
                k <= self.selected@.len(),
                distinct(self.selected@),
                distinct(r@),
                forall|j: usize|
                    #[trigger] r@.contains(j) <==> (exists|t: int| 0 <= t < k && self.selected@[t] == j) && j
                        < self.data_pts@.len(),
                forall|j: usize| #[trigger] r@.contains(j) ==> exists|t: int| 0 <= t < k && self.selected@[t] == j,
            decreases self.selected@.len() - k,
        {
            let j = self.selected[k];
            let ghost r0 = r@;
            if j < self.data_pts.len() {
                r.push(j);
                proof {
                    assert forall|a: int, b: int| 0 <= a < b < r@.len() implies r@[a] != r@[b] by {
                        if b == r@.len() - 1 {
                            assert(r0.contains(r0[a]));
                            let t = choose|t: int| 0 <= t < k && self.selected@[t] == r0[a];
                            assert(t != k);
                        }
                    }
                }
            }
            proof {
                assert forall|x: usize| #[trigger] r@.contains(x) <==> (exists|t: int| 0 <= t < k + 1 && self.selected@[t] == x) && x
                    < self.data_pts@.len() by {
                    if r@.contains(x) && x != j {
                        let q = choose|q: int| 0 <= q < r@.len() && r@[q] == x;
                        assert(r0[q] == x);
                        assert(r0.contains(x));
                    }
                    if x == j && j < self.data_pts@.len() {
                        assert(r@[r@.len() - 1] == x);
                    }
                    if (exists|t: int| 0 <= t < k && self.selected@[t] == x) && x < self.data_pts@.len() {
                        assert(r0.contains(x));
                        let q = choose|q: int| 0 <= q < r0.len() && r0[q] == x;
                        assert(r@[q] == x);
                    }
                    if (exists|t: int| 0 <= t < k + 1 && self.selected@[t] == x) && x < self.data_pts@.len() && x != j {
                        let t = choose|t: int| 0 <= t < k + 1 && self.selected@[t] == x;
                        assert(t < k);
                    }
                }
                assert forall|x: usize| #[trigger] r@.contains(x) implies exists|t: int| 0 <= t < k + 1 && self.selected@[t] == x by {
                    if x == j {
                        assert(self.selected@[k as int] == x);
                    } else {
                        let q = choose|q: int| 0 <= q < r@.len() && r@[q] == x;
                        assert(r0[q] == x);
                        assert(r0.contains(x));
                    }
                }
            }
            k = k + 1;
        }
        proof {
            assert forall|j: usize| #[trigger] r@.contains(j) <==> self@.selected.contains(j) && j < self@.content.data.len() by {
                if self.selected@.contains(j) {
                    let t = choose|t: int| 0 <= t < self.selected@.len() && self.selected@[t] == j;
                }
            }
        }
        r
    }

    /// The points a drag moves: the dragged calibration point (if it
    /// exists); else, for a dragged data point, all selected data points
    /// that exist when it is selected, or just it (if it exists).
    pub fn drag_targets(&self, calib: Option<usize>, data: Option<usize>) -> (r: (Option<usize>, Vec<usize>))
        requires
            self.wf(),
        ensures
            calib is Some ==> r.1@.len() == 0 && r.0 == (if calib.unwrap() < self@.content.calib.len() {
                calib
            } else {
                None
            }),
            calib is None ==> r.0 is None,
            calib is None && data is None ==> r.1@.len() == 0,
            calib is None && data is Some && self@.selected.contains(data.unwrap()) ==> distinct(r.1@) && forall|j: usize|
                #[trigger] r.1@.contains(j) <==> self@.selected.contains(j) && j < self@.content.data.len(),
            calib is None && data is Some && !self@.selected.contains(data.unwrap()) ==> r.1@ == (if data.unwrap()
                < self@.content.data.len() {
                seq![data.unwrap()]
            } else {
                Seq::<usize>::empty()
            }),
    {
        match calib {
            Some(i) => {
                let c = if i < self.calib_pts.len() {
                    Some(i)
                } else {
                    None
                };
                (c, Vec::new())
            },
            None => match data {
                Some(d) => {
                    if set_contains(&self.selected, d) {
                        (None, self.selected_existing())
                    } else if d < self.data_pts.len() {
                        let mut v: Vec<usize> = Vec::new();
                        v.push(d);
                        proof {
                            assert(v@ =~= seq![d]);
                        }
                        (None, v)
                    } else {
                        (None, Vec::new())
                    }
                },
                None => (None, Vec::new()),
            },
        }
    }

    /// The points an arrow key nudges: the selected calibration point when
    /// one is selected (if it exists), else the selected data points that
    /// exist.
    pub fn nudge_targets(&self) -> (r: (Option<usize>, Vec<usize>))
        requires
            self.wf(),
        ensures
            r.0 == (match self@.selected_calib {
                Some(i) => if i < self@.content.calib.len() {
                    Some(i)
                } else {
                    None
                },
                None => None,
            }),
            self@.selected_calib is Some ==> r.1@.len() == 0,
            self@.selected_calib is None ==> distinct(r.1@) && forall|j: usize|
                #[trigger] r.1@.contains(j) <==> self@.selected.contains(j) && j < self@.content.data.len(),
    {
        match self.selected_calib {
            Some(i) => {
                let c = if i < self.calib_pts.len() {
                    Some(i)
                } else {
                    None
                };
                (c, Vec::new())
            },
            None => {
                let r = self.selected_existing();
                (None, r)
            },
        }
    }

    /// Takes the content of a snapshot and unselects all data points.
    fn restore(&mut self, snap: Snapshot<P>)
        requires
            old(self).wf(),
        ensures
            final(self).wf(),
            final(self)@ == with_content(old(self)@, snap.content()),
    {
        let Snapshot { calib_pts, data_pts, groups, active_group } = snap;
        self.calib_pts = calib_pts;
        self.data_pts = data_pts;
        self.groups = groups;
        self.active_group = active_group;
        self.selected.clear();
        proof {
            assert(self.selected@.to_set() =~= Set::<usize>::empty());
        }
    }
}

/// The points left after group `removed` is deleted, with the later group
/// indices moved down by one.
fn regroup_points<P: Copy>(data: &Vec<(P, usize)>, removed: usize) -> (r: Vec<(P, usize)>)
    ensures
        r@ == regrouped_points(data@, removed, data@.len()),
{
    let mut r: Vec<(P, usize)> = Vec::new();
    let mut i: usize = 0;
    while i < data.len()
        invariant
            i <= data@.len(),
            r@ == regrouped_points(data@, removed, i as nat),
        decreases data@.len() - i,
    {
        let (pt, g) = data[i];
        if g != removed {
            let ng = if g > removed {
                g - 1
            } else {
                g
            };
            r.push((pt, ng));
        }
        i = i + 1;
    }
    r
}

/// Carries out one edit: marks unsaved changes and saves the content for
/// undo where the edit calls for it, then makes the edit.  The outcome says
/// whether the caller must recompute the values derived from the points,
/// switch to adding data, or reset the calibration's axis values.
pub fn apply_edit<P: Copy>(s: &mut EditorState<P>, a: EditAction<P>) -> (out: EditOutcome)
    requires
        old(s).wf(),
        edit_allowed(old(s)@, a),
    ensures
        final(s).wf(),
        (final(s)@, out) == edit_step(old(s)@, a),
{
    let k = action_kind(&a);
    s.prepare(k);
    match a {
        EditAction::AddCalibPoint(p) => s.add_calib_point(p),
        EditAction::AddDataPoint(p) => s.add_data_point(p),
        EditAction::DeleteSelectedPoints => s.delete_selected_points(),
        EditAction::RemoveDataPoint(idx) => s.remove_data_point(idx),
        EditAction::MovePointsToGroup(indices, group) => s.move_points(indices, group),
        EditAction::DeleteGroup(idx) => s.delete_group(idx),
        EditAction::UpdateGroupName(idx, name) => s.update_group_name(idx, name),
        EditAction::UpdateGroupColor(idx, color) => s.update_group_color(idx, color),
        EditAction::SetActiveGroup(idx) => {
            s.active_group = idx;
            EditOutcome { recalculate: false, enter_data_mode: false }
        },
        EditAction::AddGroup => s.add_group(),
        EditAction::ClearData => s.clear_data(),
        EditAction::ClearCalib => s.clear_calib(),
        EditAction::UpdateCalibAxis(which, v) => s.update_axis(which, v),
        EditAction::UpdateLogScale(lx, ly) => {
            s.axes.log_x = lx;
            s.axes.log_y = ly;
            EditOutcome { recalculate: true, enter_data_mode: false }
        },
        EditAction::SelectPoints(indices, is_multi) => s.select(indices, is_multi),
        EditAction::SelectCalibPoint(idx) => s.select_calib(Some(idx)),
        EditAction::ClearSelection => s.select_calib(None),
        EditAction::BeginDrag => EditOutcome { recalculate: false, enter_data_mode: false },
        EditAction::NudgeSelected(mv, moves) => s.place_points(mv, moves),
        EditAction::MoveSelected(mv, moves) => s.place_points(mv, moves),
        EditAction::StopDragging => EditOutcome { recalculate: true, enter_data_mode: false },
        EditAction::ApplyDetectedAxis(is_y, start, end, filler) => s.apply_detected_axis(is_y, start, end, filler),
        EditAction::AddDetectedGroup(color, pts) => s.add_detected_group(color, pts),
        EditAction::Undo => s.undo(),
        EditAction::Redo => s.redo(),
    }
}

/// The edit saves the content for undo: the recorded kinds of edits, a
/// detected axis put on the calibration, and a detected series added with
/// points.
pub open spec fn saves_for_undo<P>(a: EditAction<P>) -> bool {
    ||| records_undo(kind(a))
    ||| a is ApplyDetectedAxis
    ||| (a matches EditAction::AddDetectedGroup(_, pts) && pts@.len() > 0)
}

/// Undo right after an edit that saves the content for undo brings back
/// the content from before the edit: its calibration points, data points,
/// groups and active group.  Clearing the data is left out: it forgets the
/// history, the snapshot it has just saved included.
pub proof fn lemma_undo_restores<P>(m: EditorView<P>, a: EditAction<P>)
    requires
        saves_for_undo(a),
        kind(a) != ActionKind::ClearData,
    ensures
        edit_step(edit_step(m, a).0, EditAction::Undo).0.content == m.content,
{
    let e = prepared(m, kind(a));
    crate::history::lemma_undo_restores_saved((m.undo, m.redo), m.content, m.content);
    let after = edit_step(m, a).0;
    let h = saved((m.undo, m.redo), m.content);
    assert(after.undo == h.0);
    assert(h.0.len() > 0);
    assert(h.0.last() == m.content);
}

/// Redo right after an undo that had something to undo brings back the
/// content from before the undo.
pub proof fn lemma_redo_after_undo<P>(m: EditorView<P>)
    requires
        m.undo.len() > 0,
    ensures
        edit_step(edit_step(m, EditAction::Undo).0, EditAction::Redo).0.content == m.content,
{
    crate::history::lemma_redo_reverts_undo((m.undo, m.redo), m.content);
}

/// Clearing the data leaves nothing to undo or redo.
pub proof fn lemma_clear_data_forgets_history<P>(m: EditorView<P>)
    ensures
        edit_step(m, EditAction::ClearData).0.undo.len() == 0,
        edit_step(m, EditAction::ClearData).0.redo.len() == 0,
{
}

/// Selecting points changes neither the project, nor whether it has unsaved
/// changes, nor the undo history.
pub proof fn lemma_selection_keeps_project<P>(m: EditorView<P>, a: EditAction<P>)
    requires
        a is SelectPoints || a is SelectCalibPoint || a is ClearSelection,
    ensures
        edit_step(m, a).0.content == m.content,
        edit_step(m, a).0.dirty == m.dirty,
        edit_step(m, a).0.undo == m.undo,
        edit_step(m, a).0.redo == m.redo,
        edit_step(m, a).1 == unchanged_outcome(),
{
}

/// No edit takes the undo history beyond its limit: the two stacks together
/// hold at most `HISTORY_LIMIT` snapshots.
pub proof fn lemma_edit_keeps_history_bounded<P>(m: EditorView<P>, a: EditAction<P>)
    requires
        m.undo.len() + m.redo.len() <= crate::history::HISTORY_LIMIT,
    ensures
        edit_step(m, a).0.undo.len() + edit_step(m, a).0.redo.len() <= crate::history::HISTORY_LIMIT,
{
    crate::history::lemma_history_bounded((m.undo, m.redo), m.content);
    let e = prepared(m, kind(a));
    crate::history::lemma_history_bounded((e.undo, e.redo), e.content);
}

/// Typing a calibration value sets exactly the value it names: x1, x2, y1
/// or y2 becomes the typed text, the three others and both log-scale flags
/// stay as they were, the points, groups and undo history are untouched,
/// and the project has unsaved changes.
pub proof fn lemma_typed_calibration_value<P>(m: EditorView<P>, which: CalibAxis, v: String)
    ensures
        ({
            let r = edit_step(m, EditAction::UpdateCalibAxis(which, v));
            let a = r.0.axes;
            &&& a.x1 == (if which == CalibAxis::X1 { v@ } else { m.axes.x1 })
            &&& a.x2 == (if which == CalibAxis::X2 { v@ } else { m.axes.x2 })
            &&& a.y1 == (if which == CalibAxis::Y1 { v@ } else { m.axes.y1 })
            &&& a.y2 == (if which == CalibAxis::Y2 { v@ } else { m.axes.y2 })
            &&& a.log_x == m.axes.log_x && a.log_y == m.axes.log_y
            &&& r.0.content == m.content && r.0.undo == m.undo && r.0.redo == m.redo
            &&& r.0.dirty
            &&& r.1.recalculate
        }),
{
}

/// Setting the log scales sets both flags and leaves the typed values.
pub proof fn lemma_log_scale_set<P>(m: EditorView<P>, lx: bool, ly: bool)
    ensures
        ({
            let r = edit_step(m, EditAction::UpdateLogScale(lx, ly));
            let a = r.0.axes;
            &&& a.log_x == lx && a.log_y == ly
            &&& a.x1 == m.axes.x1 && a.x2 == m.axes.x2 && a.y1 == m.axes.y1 && a.y2 == m.axes.y2
            &&& r.0.content == m.content && r.0.dirty && r.1.recalculate
        }),
{
}

/// Clearing the calibration removes the calibration points and their
/// selection, types "0.0" and "10.0" for each axis, makes both axes linear,
/// and keeps the data points, groups and active group.
pub proof fn lemma_clear_calibration_resets<P>(m: EditorView<P>)
    ensures
        ({
            let r = edit_step(m, EditAction::ClearCalib);
            let a = r.0.axes;
            &&& r.0.content.calib.len() == 0
            &&& r.0.selected_calib is None
            &&& a.x1 == seq!['0', '.', '0'] && a.y1 == seq!['0', '.', '0']
            &&& a.x2 == seq!['1', '0', '.', '0'] && a.y2 == seq!['1', '0', '.', '0']
            &&& !a.log_x && !a.log_y
            &&& r.0.content.data == m.content.data && r.0.content.groups == m.content.groups
            &&& r.0.content.active == m.content.active
            &&& r.1.recalculate
        }),
{
}

/// A detected axis replaces the two calibration points of its axis (the
/// first two for x, the last two for y) by its start and end; the other
/// points stay, and missing points are filled with the given point.
pub proof fn lemma_detected_axis_placed<P>(m: EditorView<P>, is_y: bool, start: P, end: P, filler: P)
    ensures
        ({
            let c = edit_step(m, EditAction::ApplyDetectedAxis(is_y, start, end, filler)).0.content.calib;
            let old = m.content.calib;
            let first: int = if is_y { 2 } else { 0 };
            &&& c.len() == (if old.len() >= first + 2 { old.len() as int } else { first + 2 })
            &&& c[first] == start && c[first + 1] == end
            &&& forall|i: int| 0 <= i < c.len() && i != first && i != first + 1 ==> c[i] == (if i < old.len() {
                old[i]
            } else {
                filler
            })
        }),
{
}

/// A detected series with points becomes one new active group at the end of
/// the groups, in the detected colour made opaque; its points follow the
/// existing points in order, all in that group.
pub proof fn lemma_detected_series_added<P>(m: EditorView<P>, color: [u8; 3], pts: Vec<P>)
    requires
        pts@.len() > 0,
    ensures
        ({
            let c = edit_step(m, EditAction::AddDetectedGroup(color, pts)).0.content;
            let n = m.content.groups.len();
            &&& c.groups.len() == n + 1
            &&& c.groups.take(n as int) == m.content.groups
            &&& c.groups[n as int].color == [color[0], color[1], color[2], 0xffu8]
            &&& c.active == n as usize
            &&& c.data.len() == m.content.data.len() + pts@.len()
            &&& c.data.take(m.content.data.len() as int) == m.content.data
            &&& forall|i: int| 0 <= i < pts@.len() ==> #[trigger] c.data[m.content.data.len() + i] == (pts@[i], n as usize)
        }),
{
    let c = edit_step(m, EditAction::AddDetectedGroup(color, pts)).0.content;
    let n = m.content.groups.len();
    let d0 = m.content.data;
    assert(c.data == d0 + Seq::new(pts@.len(), |i: int| (pts@[i], n as usize)));
    assert(c.groups == m.content.groups.push(GroupView { name: group_label(n + 1), color: opaque_color(color) }));
    assert(c.groups.take(n as int) =~= m.content.groups);
    assert(c.data.take(d0.len() as int) =~= d0);
    assert forall|i: int| 0 <= i < pts@.len() implies #[trigger] c.data[d0.len() + i] == (pts@[i], n as usize) by {
    }
}

/// The value of a string of decimal digits.
pub open spec fn digits_value(s: Seq<char>) -> int
    decreases s.len(),
{
    if s.len() == 0 {
        0
    } else {
        digits_value(s.drop_last()) * 10 + (s.last() as int - '0' as int)
    }
}

/// The digits of a number are decimal digits without a leading zero (but
/// for zero itself), and read back as the number.
pub proof fn lemma_decimal_reads_back(n: nat)
    ensures
        decimal(n).len() > 0,
        forall|i: int| 0 <= i < decimal(n).len() ==> '0' <= #[trigger] decimal(n)[i] <= '9',
        n > 0 ==> decimal(n)[0] != '0',
        digits_value(decimal(n)) == n,
    decreases n,
{
    if n >= 10 {
        lemma_decimal_reads_back(n / 10);
        let d = decimal(n);
        assert(d.drop_last() =~= decimal(n / 10));
        assert(d.last() == digit_char(n % 10));
        assert(digit_char(n % 10) as int == n % 10 + 48);
        assert('0' as int == 48);
        assert(digits_value(d) == digits_value(d.drop_last()) * 10 + (d.last() as int - '0' as int));
        assert(n == (n / 10) * 10 + n % 10);
        assert forall|i: int| 0 <= i < d.len() implies '0' <= #[trigger] d[i] <= '9' by {
            if i < d.len() - 1 {
                assert(d[i] == decimal(n / 10)[i]);
            }
        }
    } else {
        assert(decimal(n).drop_last() =~= Seq::<char>::empty());
        assert(digit_char(n) as int == n + 48);
        assert('0' as int == 48);
        assert(digits_value(Seq::<char>::empty()) == 0);
        assert(digits_value(decimal(n)) == digits_value(decimal(n).drop_last()) * 10 + (decimal(n).last() as int
            - '0' as int));
    }
}

/// The name of the `n`-th group is "Group " followed by the digits of `n`.
pub proof fn lemma_group_label_names_number(n: nat)
    ensures
        group_label(n).take(6) == seq!['G', 'r', 'o', 'u', 'p', ' '],
        digits_value(group_label(n).skip(6)) == n,
{
    lemma_decimal_reads_back(n);
    assert(group_label(n).take(6) =~= seq!['G', 'r', 'o', 'u', 'p', ' ']);
    assert(group_label(n).skip(6) =~= decimal(n));
}

/// Position `p` of a group's list holds a selected point.
pub open spec fn selected_at(group_indices: Seq<usize>, selected: Set<usize>, p: int) -> bool {
    0 <= p < group_indices.len() && selected.contains(group_indices[p])
}

/// `start` and `end` are the first and last of the clicked position and the
/// positions holding selected points.
pub open spec fn range_ends(group_indices: Seq<usize>, selected: Set<usize>, pos: int, start: int, end: int) -> bool {
    &&& start <= pos <= end
    &&& (start == pos || selected_at(group_indices, selected, start))
    &&& (end == pos || selected_at(group_indices, selected, end))
    &&& forall|p: int| #[trigger] selected_at(group_indices, selected, p) ==> start <= p <= end
}

/// A shift-click at position `pos` of a group's list of point indices:
/// selects the points from the first to the last of the clicked position
/// and the positions already selected.
pub fn range_selection(group_indices: &Vec<usize>, selected: &Vec<usize>, pos: usize) -> (r: Vec<usize>)
    requires
        pos < group_indices@.len(),
    ensures
        exists|start: int, end: int|
            range_ends(group_indices@, selected@.to_set(), pos as int, start, end) && r@ == group_indices@.subrange(
                start,
                end + 1,
            ),
{
    let mut start: usize = pos;
    let mut end: usize = pos;
    let mut p: usize = 0;
    while p < group_indices.len()
        invariant
            p <= group_indices@.len(),
            pos < group_indices@.len(),
            start <= pos <= end < group_indices@.len(),
            start == pos || selected_at(group_indices@, selected@.to_set(), start as int),
            end == pos || selected_at(group_indices@, selected@.to_set(), end as int),
            forall|q: int| 0 <= q < p && #[trigger] selected_at(group_indices@, selected@.to_set(), q) ==> start <= q <= end,
        decreases group_indices@.len() - p,
    {
        if set_contains(selected, group_indices[p]) {
            if p < start {
                start = p;
            }
            if p > end {
                end = p;
            }
        }
        p = p + 1;
    }
    let n = group_indices.len();
    let mut r: Vec<usize> = Vec::new();
    let mut q: usize = start;
    while q <= end
        invariant
            start <= q <= end + 1,
            end < n,
            n == group_indices@.len(),
            r@ == group_indices@.subrange(start as int, q as int),
        decreases end + 1 - q,
    {
        r.push(group_indices[q]);
        proof {
            assert(r@ =~= group_indices@.subrange(start as int, q + 1));
        }
        q = q + 1;
    }
    proof {
        assert(range_ends(group_indices@, selected@.to_set(), pos as int, start as int, end as int));
    }
    r
}

} // verus!
