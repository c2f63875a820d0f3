//! Editing rules of the digitizer: which actions change the project and are
//! recorded for undo, point selection, deleting points and groups, and the
//! calibration point limit.
use vstd::prelude::*;
use crate::keys::{sort_keys, sorted};

verus! {

/// The kinds of user actions, without their payloads.
#[derive(PartialEq, Eq, Structural, Clone, Copy, Debug)]
pub enum ActionKind {
    MovePointsToGroup,
    DeleteSelectedPoints,
    DeleteGroup,
    UpdateGroupName,
    UpdateGroupColor,
    SetActiveGroup,
    RemoveDataPoint,
    AddCalibPoint,
    AddDataPoint,
    MoveSelected,
    NudgeSelected,
    RecalculateData,
    SelectCalibPoint,
    SelectPoints,
    SetDraggingPoint,
    StopDragging,
    SetHoveredCalib,
    SetHoveredData,
    SetBoxStart,
    SetMode,
    LoadImage,
    LoadClipboardImage,
    SetPendingImage,
    CancelPendingImage,
    Undo,
    Redo,
    ToggleIDE,
    ToggleHelp,
    UpdateIDECode,
    RunScript,
    LoadPresetScript,
    AddUserScript,
    OpenInspector,
    CloseInspector,
    ClearSelection,
    RequestCenter,
    CenterCanvas,
    SetPanZoom,
    RequestExportCsv,
    SaveProject,
    SaveProjectAs,
    OpenProject,
    NewProject,
    AddGroup,
    RequestClearData,
    CancelClearData,
    ClearData,
    ClearCalib,
    UpdateCalibAxis,
    UpdateLogScale,
    MaskApplyAxis,
    MaskAddData,
}

/// Actions that change the project, so that it has unsaved changes after them.
pub open spec fn modifies_project(k: ActionKind) -> bool {
    match k {
        ActionKind::AddCalibPoint | ActionKind::AddDataPoint | ActionKind::MoveSelected
        | ActionKind::NudgeSelected | ActionKind::DeleteSelectedPoints | ActionKind::RemoveDataPoint
        | ActionKind::MovePointsToGroup | ActionKind::DeleteGroup | ActionKind::UpdateGroupName
        | ActionKind::UpdateGroupColor | ActionKind::AddGroup | ActionKind::ClearData
        | ActionKind::ClearCalib | ActionKind::UpdateCalibAxis | ActionKind::UpdateLogScale
        | ActionKind::LoadImage | ActionKind::UpdateIDECode | ActionKind::AddUserScript => true,
        _ => false,
    }
}

/// Actions before which the current state is saved for undo.
pub open spec fn records_undo(k: ActionKind) -> bool {
    match k {
        ActionKind::MovePointsToGroup | ActionKind::DeleteSelectedPoints | ActionKind::RemoveDataPoint
        | ActionKind::DeleteGroup | ActionKind::UpdateGroupName | ActionKind::UpdateGroupColor
        | ActionKind::AddCalibPoint | ActionKind::AddDataPoint | ActionKind::ClearData
        | ActionKind::ClearCalib | ActionKind::SetDraggingPoint | ActionKind::NudgeSelected => true,
        _ => false,
    }
}

/// Whether the action marks the project as having unsaved changes.
pub fn marks_dirty(k: ActionKind) -> (r: bool)
    ensures
        r == modifies_project(k),
{
    match k {
        ActionKind::AddCalibPoint | ActionKind::AddDataPoint | ActionKind::MoveSelected
        | ActionKind::NudgeSelected | ActionKind::DeleteSelectedPoints | ActionKind::RemoveDataPoint
        | ActionKind::MovePointsToGroup | ActionKind::DeleteGroup | ActionKind::UpdateGroupName
        | ActionKind::UpdateGroupColor | ActionKind::AddGroup | ActionKind::ClearData
        | ActionKind::ClearCalib | ActionKind::UpdateCalibAxis | ActionKind::UpdateLogScale
        | ActionKind::LoadImage | ActionKind::UpdateIDECode | ActionKind::AddUserScript => true,
        _ => false,
    }
}

/// Whether the current state is saved for undo before the action runs.
pub fn takes_snapshot(k: ActionKind) -> (r: bool)
    ensures
        r == records_undo(k),
{
    match k {
        ActionKind::MovePointsToGroup | ActionKind::DeleteSelectedPoints | ActionKind::RemoveDataPoint
        | ActionKind::DeleteGroup | ActionKind::UpdateGroupName | ActionKind::UpdateGroupColor
        | ActionKind::AddCalibPoint | ActionKind::AddDataPoint | ActionKind::ClearData
        | ActionKind::ClearCalib | ActionKind::SetDraggingPoint | ActionKind::NudgeSelected => true,
        _ => false,
    }
}

/// Most calibration points: two on the x axis and two on the y axis.
pub const MAX_CALIB_POINTS: usize = 4;

/// Adding a calibration point when `count` are placed: whether it is
/// accepted, and whether the editor then switches to adding data.
pub fn calib_point_added(count: usize) -> (r: (bool, bool))
    ensures
        r.0 == (count < MAX_CALIB_POINTS),
        r.1 == (count + 1 == MAX_CALIB_POINTS),
{
    (count < MAX_CALIB_POINTS, count == MAX_CALIB_POINTS - 1)
}

/// Colours given to new groups, in turn.
pub open spec fn group_palette(i: int) -> [u8; 3] {
    if i == 0 {
        [0xe4u8, 0x1au8, 0x1cu8]
    } else if i == 1 {
        [0x37u8, 0x7eu8, 0xb8u8]
    } else if i == 2 {
        [0x4du8, 0xafu8, 0x4au8]
    } else if i == 3 {
        [0x98u8, 0x4eu8, 0xa3u8]
    } else {
        [0xffu8, 0x7fu8, 0x00u8]
    }
}

/// The colour of the group added after `count` groups: the palette colours
/// in turn.
pub fn new_group_color(count: usize) -> (c: [u8; 3])
    ensures
        c == group_palette(count as int % 5),
{
    let i = count % 5;
    if i == 0 {
        [0xe4, 0x1a, 0x1c]
    } else if i == 1 {
        [0x37, 0x7e, 0xb8]
    } else if i == 2 {
        [0x4d, 0xaf, 0x4a]
    } else if i == 3 {
        [0x98, 0x4e, 0xa3]
    } else {
        [0xff, 0x7f, 0x00]
    }
}

/// The group index of a point after group `removed` is deleted: none for
/// its own points, one less for later groups.
pub open spec fn regrouped(id: usize, removed: usize) -> Option<usize> {
    if id == removed {
        None
    } else if id > removed {
        Some((id - 1) as usize)
    } else {
        Some(id)
    }
}

/// The active group after group `removed` is deleted: the first group if
/// the active one was deleted, else the same group at its new index.
pub open spec fn active_after_delete(active: usize, removed: usize) -> usize {
    if active == removed {
        0
    } else if active > removed {
        (active - 1) as usize
    } else {
        active
    }
}

/// New group indices of points after group `removed` is deleted; `None`
/// for points that are deleted with it.
pub fn regroup_after_delete(group_ids: &Vec<usize>, removed: usize) -> (r: Vec<Option<usize>>)
    ensures
        r@.len() == group_ids@.len(),
        forall|i: int| 0 <= i < r@.len() ==> #[trigger] r@[i] == regrouped(group_ids@[i], removed),
{
    let mut r: Vec<Option<usize>> = Vec::new();
    let mut i: usize = 0;
    while i < group_ids.len()
        invariant
            i <= group_ids@.len(),
            r@.len() == i,
            forall|j: int| 0 <= j < i ==> #[trigger] r@[j] == regrouped(group_ids@[j], removed),
        decreases group_ids@.len() - i,
    {
        let id = group_ids[i];
        let v = if id == removed {
            None
        } else if id > removed {
            Some(id - 1)
        } else {
            Some(id)
        };
        r.push(v);
        i = i + 1;
    }
    r
}

/// The active group index after group `removed` is deleted.
pub fn active_group_after_delete(active: usize, removed: usize) -> (r: usize)
    ensures
        r == active_after_delete(active, removed),
{
    if active == removed {
        0
    } else if active > removed {
        active - 1
    } else {
        active
    }
}

/// Deleting a group keeps every other point in the same group: its new
/// index names the same group in the list without the deleted one.
pub proof fn lemma_regroup_keeps_group<G>(groups: Seq<G>, id: usize, removed: usize)
    requires
        id < groups.len(),
        removed < groups.len(),
        id != removed,
    ensures
        regrouped(id, removed) matches Some(n) && n < groups.len() - 1 && groups.remove(removed as int)[n as int]
            == groups[id as int],
{
}

/// Deleting a group keeps the active group selected when it survives.
pub proof fn lemma_active_group_kept<G>(groups: Seq<G>, active: usize, removed: usize)
    requires
        active < groups.len(),
        removed < groups.len(),
        active != removed,
    ensures
        groups.remove(removed as int)[active_after_delete(active, removed) as int] == groups[active as int],
{
}

/// The selection after a click or a box selection of `indices`: a single
/// index with the multi-select modifier toggles; otherwise the indices are
/// added, to the current selection with the modifier and to an empty one
/// without.
pub open spec fn selection_after(selected: Set<usize>, indices: Seq<usize>, is_multi: bool) -> Set<usize> {
    if is_multi && indices.len() == 1 {
        if selected.contains(indices[0]) {
            selected.remove(indices[0])
        } else {
            selected.insert(indices[0])
        }
    } else if is_multi {
        selected + indices.to_set()
    } else {
        indices.to_set()
    }
}

/// The elements of `v` are distinct.
pub open spec fn distinct(v: Seq<usize>) -> bool {
    forall|i: int, j: int| 0 <= i < j < v.len() ==> v[i] != v[j]
}

/// Adds `x` to the set held in `v`.
fn set_insert(v: &mut Vec<usize>, x: usize)
    requires
        distinct(old(v)@),
    ensures
        distinct(final(v)@),
        final(v)@.to_set() == old(v)@.to_set().insert(x),
{
    let mut i: usize = 0;
    while i < v.len()
        invariant
            i <= v@.len(),
            v@ == old(v)@,
            distinct(v@),
            forall|j: int| 0 <= j < i ==> v@[j] != x,
        decreases v@.len() - i,
    {
        if v[i] == x {
            proof {
                assert(v@.to_set().contains(x));
                assert(v@.to_set().insert(x) =~= v@.to_set());
            }
            return;
        }
        i = i + 1;
    }
    let ghost v0 = v@;
    v.push(x);
    proof {
        assert(v@.to_set() =~= v0.to_set().insert(x)) by {
            assert forall|y: usize| #[trigger] v@.to_set().contains(y) <==> v0.to_set().insert(x).contains(y) by {
                if v@.contains(y) && y != x {
                    let k = choose|k: int| 0 <= k < v@.len() && v@[k] == y;
                    assert(v0[k] == y);
                }
                if v0.contains(y) {
                    let k = choose|k: int| 0 <= k < v0.len() && v0[k] == y;
                    assert(v@[k] == y);
                }
                if y == x {
                    assert(v@[v0.len() as int] == x);
                }
            }
        }
    }
}

/// Removes `x` from the set held in `v`.
pub(crate) fn set_remove(v: &mut Vec<usize>, x: usize)
    requires
        distinct(old(v)@),
    ensures
        distinct(final(v)@),
        final(v)@.to_set() == old(v)@.to_set().remove(x),
{
    let mut i: usize = 0;
    while i < v.len()
        invariant
            i <= v@.len(),
            v@ == old(v)@,
            distinct(v@),
            forall|j: int| 0 <= j < i ==> v@[j] != x,
        decreases v@.len() - i,
    {
        if v[i] == x {
            let ghost v0 = v@;
            v.remove(i);
            proof {
                assert(v@ =~= v0.remove(i as int));
                assert forall|a: int, b: int| 0 <= a < b < v@.len() implies v@[a] != v@[b] by {
                    let a0 = if a < i { a } else { a + 1 };
                    let b0 = if b < i { b } else { b + 1 };
                    assert(v@[a] == v0[a0]);
                    assert(v@[b] == v0[b0]);
                }
                assert forall|y: usize| #[trigger] v@.to_set().contains(y) <==> v0.to_set().remove(x).contains(y) by {
                    if v@.contains(y) {
                        let k = choose|k: int| 0 <= k < v@.len() && v@[k] == y;
                        if k < i {
                            assert(v0[k] == y);
                        } else {
                            assert(v0[k + 1] == y);
                            assert(v0[k + 1] != v0[i as int]);
                        }
                    }
                    if v0.contains(y) && y != x {
                        let k = choose|k: int| 0 <= k < v0.len() && v0[k] == y;
                        if k < i {
                            assert(v@[k] == y);
                        } else {
                            assert(k != i);
                            assert(v@[k - 1] == y);
                        }
                    }
                }
                assert(v@.to_set() =~= v0.to_set().remove(x));
            }
            return;
        }
        i = i + 1;
    }
    proof {
        assert(!v@.contains(x));
        assert(v@.to_set().remove(x) =~= v@.to_set());
    }
}

/// Whether `x` is in the set held in `v`.
pub(crate) fn set_contains(v: &Vec<usize>, x: usize) -> (r: bool)
    ensures
        r == v@.to_set().contains(x),
{
    let mut i: usize = 0;
    while i < v.len()
        invariant
            i <= v@.len(),
            forall|j: int| 0 <= j < i ==> v@[j] != x,
        decreases v@.len() - i,
    {
        if v[i] == x {
            assert(v@.contains(x));
            return true;
        }
        i = i + 1;
    }
    false
}

/// Updates the selected point indices (held as a list without repeats) for
/// a selection of `indices`.
pub fn select_points(selected: &mut Vec<usize>, indices: &Vec<usize>, is_multi: bool)
    requires
        distinct(old(selected)@),
    ensures
        distinct(final(selected)@),
        final(selected)@.to_set() == selection_after(old(selected)@.to_set(), indices@, is_multi),
{
    let should_toggle = is_multi && indices.len() == 1;
    if !is_multi {
        selected.clear();
        proof {
            assert(selected@.to_set() =~= Set::<usize>::empty());
        }
    }
    let ghost start = selected@.to_set();
    let mut i: usize = 0;
    while i < indices.len()
        invariant
            i <= indices@.len(),
            distinct(selected@),
            should_toggle == (is_multi && indices@.len() == 1),
            should_toggle ==> (i == 0 ==> selected@.to_set() == start),
            !should_toggle ==> selected@.to_set() == start + indices@.take(i as int).to_set(),
            should_toggle && i == 1 ==> selected@.to_set() == (if start.contains(indices@[0]) {
                start.remove(indices@[0])
            } else {
                start.insert(indices@[0])
            }),
            start == (if is_multi {
                old(selected)@.to_set()
            } else {
                Set::<usize>::empty()
            }),
        decreases indices@.len() - i,
    {
        let idx = indices[i];
        let ghost before = selected@.to_set();
        if should_toggle && set_contains(selected, idx) {
            set_remove(selected, idx);
        } else {
            set_insert(selected, idx);
        }
        proof {
            if !should_toggle {
                let pre = indices@.take(i as int);
                let cur = indices@.take(i + 1);
                assert(cur =~= pre.push(idx));
                assert forall|y: usize| #[trigger] cur.to_set().contains(y) <==> pre.to_set().insert(idx).contains(y) by {
                    if cur.contains(y) && y != idx {
                        let k = choose|k: int| 0 <= k < cur.len() && cur[k] == y;
                        assert(pre[k] == y);
                    }
                    if pre.contains(y) {
                        let k = choose|k: int| 0 <= k < pre.len() && pre[k] == y;
                        assert(cur[k] == y);
                    }
                    if y == idx {
                        assert(cur[i as int] == idx);
                    }
                }
                assert(cur.to_set() =~= pre.to_set().insert(idx));
                assert(selected@.to_set() =~= start + indices@.take(i + 1).to_set());
            }
        }
        i = i + 1;
    }
    proof {
        assert(indices@.take(indices@.len() as int) =~= indices@);
        if !should_toggle {
            if !is_multi {
                assert(start + indices@.to_set() =~= indices@.to_set());
            }
        }
    }
}

/// Selecting the same single point twice with the multi-select modifier
/// restores the selection.
pub proof fn lemma_toggle_twice(selected: Set<usize>, idx: usize)
    ensures
        selection_after(selection_after(selected, seq![idx], true), seq![idx], true) == selected,
{
    let once = selection_after(selected, seq![idx], true);
    if selected.contains(idx) {
        assert(once =~= selected.remove(idx));
        assert(once.insert(idx) =~= selected);
    } else {
        assert(once =~= selected.insert(idx));
        assert(once.remove(idx) =~= selected);
    }
}

/// The items whose positions are not selected, in order.
pub open spec fn without_positions<T>(items: Seq<T>, selected: Set<usize>, n: nat) -> Seq<T>
    decreases n,
{
    if n == 0 {
        Seq::empty()
    } else {
        let prev = without_positions(items, selected, (n - 1) as nat);
        if selected.contains((n - 1) as usize) {
            prev
        } else {
            prev.push(items[n - 1])
        }
    }
}

/// Deletes the items at the selected positions, keeping the order of the rest.
pub fn remove_selected<T: Copy>(items: &Vec<T>, selected: &Vec<usize>) -> (r: Vec<T>)
    ensures
        r@ == without_positions(items@, selected@.to_set(), items@.len()),
{
    let mut r: Vec<T> = Vec::new();
    let mut i: usize = 0;
    while i < items.len()
        invariant
            i <= items@.len(),
            r@ == without_positions(items@, selected@.to_set(), i as nat),
        decreases items@.len() - i,
    {
        if !set_contains(selected, i) {
            r.push(items[i]);
        }
        i = i + 1;
    }
    r
}

/// The indices as sort keys.
pub open spec fn index_keys(indices: Seq<usize>) -> Seq<u64> {
    Seq::new(indices.len(), |i: int| indices[i] as u64)
}

/// `asc` is the indices sorted in nondecreasing order.
pub open spec fn sorted_indices(indices: Seq<usize>, asc: Seq<u64>) -> bool {
    sorted(asc) && asc.to_multiset() == index_keys(indices).to_multiset()
}

/// The items left after removing, largest first, the `k` largest of the
/// sorted indices `asc` (repeats included), each when it still lies within
/// the list.
pub open spec fn removed_largest<A>(items: Seq<A>, asc: Seq<u64>, k: nat) -> Seq<A>
    decreases k,
{
    if k == 0 || k > asc.len() {
        items
    } else {
        let cur = removed_largest(items, asc, (k - 1) as nat);
        let idx = asc[asc.len() - k];
        if idx < cur.len() {
            cur.remove(idx as int)
        } else {
            cur
        }
    }
}

/// The points at the first `n` indices that lie within the list, in the
/// order of the indices, moved to group `group`.
pub open spec fn moved_points<T>(items: Seq<(T, usize)>, indices: Seq<usize>, group: usize, n: nat) -> Seq<(T, usize)>
    decreases n,
{
    if n == 0 || n > indices.len() {
        Seq::empty()
    } else {
        let prev = moved_points(items, indices, group, (n - 1) as nat);
        let i = indices[n - 1];
        if i < items.len() {
            prev.push((items[i as int].0, group))
        } else {
            prev
        }
    }
}

/// Moving the points at `indices` to a group leaves at least as many points
/// as indices, so that the moved points can be selected.
pub open spec fn move_fits<T>(items: Seq<(T, usize)>, indices: Seq<usize>) -> bool {
    forall|asc: Seq<u64>|
        #[trigger] sorted_indices(indices, asc) ==> removed_largest(items, asc, asc.len()).len() + moved_points(
            items,
            indices,
            0,
            indices.len(),
        ).len() >= indices.len()
}

proof fn lemma_moved_len<T>(items: Seq<(T, usize)>, indices: Seq<usize>, g1: usize, g2: usize, n: nat)
    ensures
        moved_points(items, indices, g1, n).len() == moved_points(items, indices, g2, n).len(),
    decreases n,
{
    if n > 0 && n <= indices.len() {
        lemma_moved_len(items, indices, g1, g2, (n - 1) as nat);
    }
}

/// Moves the points (each a payload with its group index) at `indices` to
/// group `group`: the points at indices within the list are taken out,
/// largest index first (a repeated index takes out the point that moved
/// into its place), the moved copies are appended in the order of the
/// indices, and the selection becomes the last `indices.len()` positions.
pub fn move_points_to_group<T: Copy>(items: &Vec<(T, usize)>, indices: &Vec<usize>, group: usize) -> (r: (
    Vec<(T, usize)>,
    Vec<usize>,
))
    requires
        move_fits(items@, indices@),
    ensures
        exists|asc: Seq<u64>|
            #[trigger] sorted_indices(indices@, asc) && r.0@ == removed_largest(items@, asc, asc.len())
                + moved_points(items@, indices@, group, indices@.len()),
        r.1@.len() == indices@.len(),
        forall|i: int| 0 <= i < r.1@.len() ==> #[trigger] r.1@[i] == r.0@.len() - indices@.len() + i,
{
    let mut moved: Vec<(T, usize)> = Vec::new();
    let mut i: usize = 0;
    while i < indices.len()
        invariant
            i <= indices@.len(),
            moved@ == moved_points(items@, indices@, group, i as nat),
        decreases indices@.len() - i,
    {
        let idx = indices[i];
        if idx < items.len() {
            moved.push((items[idx].0, group));
        }
        i = i + 1;
    }
    let mut keys: Vec<u64> = Vec::new();
    let mut k: usize = 0;
    while k < indices.len()
        invariant
            k <= indices@.len(),
            keys@ == index_keys(indices@).take(k as int),
        decreases indices@.len() - k,
    {
        keys.push(indices[k] as u64);
        proof {
            assert(keys@ =~= index_keys(indices@).take(k + 1));
        }
        k = k + 1;
    }
    proof {
        assert(keys@ =~= index_keys(indices@));
    }
    let asc = sort_keys(&keys);
    let ghost ascv = asc@;
    let mut cur: Vec<(T, usize)> = Vec::new();
    let mut j: usize = 0;
    while j < items.len()
        invariant
            j <= items@.len(),
            cur@ == items@.take(j as int),
        decreases items@.len() - j,
    {
        cur.push(items[j]);
        proof {
            assert(cur@ =~= items@.take(j + 1));
        }
        j = j + 1;
    }
    proof {
        assert(cur@ =~= items@);
    }
    let n = asc.len();
    let mut done: usize = 0;
    while done < n
        invariant
            ascv == asc@,
            n == ascv.len(),
            done <= n,
            cur@ == removed_largest(items@, ascv, done as nat),
        decreases n - done,
    {
        let idx = asc[n - 1 - done];
        if idx < cur.len() as u64 {
            cur.remove(idx as usize);
        }
        done = done + 1;
    }
    let mut m: usize = 0;
    while m < moved.len()
        invariant
            m <= moved@.len(),
            cur@ == removed_largest(items@, ascv, ascv.len()) + moved@.take(m as int),
        decreases moved@.len() - m,
    {
        cur.push(moved[m]);
        proof {
            assert(cur@ =~= removed_largest(items@, ascv, ascv.len()) + moved@.take(m + 1));
        }
        m = m + 1;
    }
    proof {
        assert(moved@.take(moved@.len() as int) =~= moved@);
        assert(sorted_indices(indices@, ascv));
        lemma_moved_len(items@, indices@, group, 0, indices@.len());
        assert(cur@.len() >= indices@.len());
    }
    let clen = cur.len();
    let base = clen - indices.len();
    let mut sel: Vec<usize> = Vec::new();
    let mut s: usize = 0;
    while s < indices.len()
        invariant
            s <= indices@.len(),
            clen == cur@.len(),
            base == clen - indices@.len(),
            clen >= indices@.len(),
            sel@.len() == s,
            forall|i: int| 0 <= i < s ==> #[trigger] sel@[i] == base + i,
        decreases indices@.len() - s,
    {
        sel.push(base + s);
        s = s + 1;
    }
    (cur, sel)
}

proof fn lemma_removed_largest_len<A>(items: Seq<A>, asc: Seq<u64>, k: nat)
    requires
        forall|a: int, b: int| 0 <= a < b < asc.len() ==> asc[a] < asc[b],
        forall|a: int| 0 <= a < asc.len() ==> asc[a] < items.len(),
        k <= asc.len(),
    ensures
        removed_largest(items, asc, k).len() == items.len() - k,
        k < asc.len() ==> asc[asc.len() - 1 - k] < items.len() - k,
    decreases k,
{
    if k > 0 {
        lemma_removed_largest_len(items, asc, (k - 1) as nat);
    }
    if k < asc.len() {
        lemma_largest_bound(asc, items.len(), k);
    }
}

proof fn lemma_largest_bound(asc: Seq<u64>, bound: nat, k: nat)
    requires
        forall|a: int, b: int| 0 <= a < b < asc.len() ==> asc[a] < asc[b],
        forall|a: int| 0 <= a < asc.len() ==> asc[a] < bound,
        k < asc.len(),
    ensures
        asc[asc.len() - 1 - k] < bound - k,
    decreases k,
{
    if k > 0 {
        lemma_largest_bound(asc, bound, (k - 1) as nat);
    }
}

/// Moving distinct points that all lie within the list keeps the number of
/// points: each index takes out one point and its copy is appended.
pub proof fn lemma_move_keeps_count<T>(items: Seq<(T, usize)>, indices: Seq<usize>, group: usize)
    requires
        distinct(indices),
        forall|i: int| 0 <= i < indices.len() ==> #[trigger] indices[i] < items.len(),
    ensures
        move_fits(items, indices),
        forall|asc: Seq<u64>|
            #[trigger] sorted_indices(indices, asc) ==> removed_largest(items, asc, asc.len()).len() + moved_points(
                items,
                indices,
                group,
                indices.len(),
            ).len() == items.len(),
{
    broadcast use vstd::seq_lib::to_multiset_contains;

    let keys = index_keys(indices);
    lemma_all_moved(items, indices, group, indices.len());
    lemma_all_moved(items, indices, 0, indices.len());
    assert(keys.no_duplicates()) by {
        assert forall|i: int, j: int| 0 <= i < keys.len() && 0 <= j < keys.len() && i != j implies keys[i]
            != keys[j] by {
            if i < j {
                assert(indices[i] != indices[j]);
            } else {
                assert(indices[j] != indices[i]);
            }
        }
    }
    keys.lemma_multiset_has_no_duplicates();
    assert forall|asc: Seq<u64>| #[trigger] sorted_indices(indices, asc) implies removed_largest(
        items,
        asc,
        asc.len(),
    ).len() == items.len() - indices.len() by {
        asc.lemma_multiset_has_no_duplicates_conv();
        vstd::seq_lib::to_multiset_len(asc);
        vstd::seq_lib::to_multiset_len(keys);
        assert forall|a: int, b: int| 0 <= a < b < asc.len() implies asc[a] < asc[b] by {
            assert(asc[a] <= asc[b]);
            assert(asc[a] != asc[b]);
        }
        assert forall|a: int| 0 <= a < asc.len() implies asc[a] < items.len() by {
            assert(asc.contains(asc[a]));
            assert(asc.to_multiset().contains(asc[a]));
            assert(keys.contains(asc[a]));
            let i = choose|i: int| 0 <= i < keys.len() && keys[i] == asc[a];
            assert(indices[i] < items.len());
        }
        lemma_removed_largest_len(items, asc, asc.len());
    }
}

proof fn lemma_all_moved<T>(items: Seq<(T, usize)>, indices: Seq<usize>, group: usize, n: nat)
    requires
        n <= indices.len(),
        forall|i: int| 0 <= i < indices.len() ==> #[trigger] indices[i] < items.len(),
    ensures
        moved_points(items, indices, group, n).len() == n,
    decreases n,
{
    if n > 0 {
        lemma_all_moved(items, indices, group, (n - 1) as nat);
        assert(indices[n - 1] < items.len());
    }
}

proof fn lemma_moved_entries<T>(items: Seq<(T, usize)>, indices: Seq<usize>, group: usize, n: nat)
    requires
        n <= indices.len(),
        forall|i: int| 0 <= i < indices.len() ==> #[trigger] indices[i] < items.len(),
    ensures
        moved_points(items, indices, group, n).len() == n,
        forall|i: int| 0 <= i < n ==> #[trigger] moved_points(items, indices, group, n)[i] == (items[indices[i] as int].0, group),
    decreases n,
{
    if n > 0 {
        lemma_moved_entries(items, indices, group, (n - 1) as nat);
        assert(indices[n - 1] < items.len());
    }
}

/// After moving distinct points that lie within the list, the selection
/// names exactly the moved points, in the order of the indices, each with
/// its payload and the new group.
pub proof fn lemma_move_selects_moved<T>(
    items: Seq<(T, usize)>,
    indices: Seq<usize>,
    group: usize,
    out: Seq<(T, usize)>,
    sel: Seq<usize>,
)
    requires
        distinct(indices),
        forall|i: int| 0 <= i < indices.len() ==> #[trigger] indices[i] < items.len(),
        exists|asc: Seq<u64>|
            #[trigger] sorted_indices(indices, asc) && out == removed_largest(items, asc, asc.len()) + moved_points(
                items,
                indices,
                group,
                indices.len(),
            ),
        sel.len() == indices.len(),
        forall|i: int| 0 <= i < sel.len() ==> #[trigger] sel[i] == out.len() - indices.len() + i,
    ensures
        forall|i: int|
            0 <= i < sel.len() ==> sel[i] < out.len() && #[trigger] out[sel[i] as int] == (items[indices[i] as int].0, group),
{
    let asc = choose|asc: Seq<u64>|
        #[trigger] sorted_indices(indices, asc) && out == removed_largest(items, asc, asc.len()) + moved_points(
            items,
            indices,
            group,
            indices.len(),
        );
    lemma_move_keeps_count(items, indices, group);
    lemma_moved_entries(items, indices, group, indices.len());
    let removed = removed_largest(items, asc, asc.len());
    let moved = moved_points(items, indices, group, indices.len());
    assert(removed.len() + moved.len() == items.len());
    assert forall|i: int| 0 <= i < sel.len() implies sel[i] < out.len() && #[trigger] out[sel[i] as int] == (
    items[indices[i] as int].0, group) by {
        assert(sel[i] == removed.len() + i);
        assert(out[removed.len() + i] == moved[i]);
    }
}

} // verus!
