//! Keyboard shortcuts: from the keys pressed in a frame to the actions
//! they ask for, on the canvas and in the whole window.
use vstd::prelude::*;

verus! {

/// What a key pressed over the canvas asks for.
#[derive(PartialEq, Eq, Structural, Clone, Copy, Debug)]
pub enum KeyAction {
    /// Back to the selection tool (Escape).
    SelectMode,
    /// Select nothing (Escape).
    ClearSelection,
    /// Delete the selected points (Delete or Backspace).
    DeleteSelected,
    /// Move the selected points by whole screen pixels, right and down
    /// being positive (arrow keys); the caller divides by the zoom.
    Nudge(i8, i8),
    /// Recompute the values derived from the points, after a nudge.
    Recalculate,
}

/// What a shortcut of the window asks for.
#[derive(PartialEq, Eq, Structural, Clone, Copy, Debug)]
pub enum Shortcut {
    /// Save the project (Ctrl/Cmd+S).
    Save,
    /// Undo (Ctrl/Cmd+Z).
    Undo,
    /// Redo (Ctrl/Cmd+Shift+Z).
    Redo,
}

/// The step along one axis from the keys towards lower and higher values.
pub open spec fn arrow_step(lower: bool, higher: bool) -> int {
    (if higher { 1int } else { 0int }) - (if lower { 1int } else { 0int })
}

/// The canvas actions for the keys pressed: none while a text field has the
/// keyboard; else Escape selects the selection tool and clears the
/// selection, Delete or Backspace deletes the selected points, and the
/// arrow keys nudge the selection (opposite arrows cancel) and ask for the
/// values to be recomputed, in that order.
pub open spec fn keyboard_spec(
    text_focused: bool,
    escape: bool,
    delete: bool,
    left: bool,
    right: bool,
    up: bool,
    down: bool,
) -> Seq<KeyAction> {
    if text_focused {
        Seq::empty()
    } else {
        let dx = arrow_step(left, right);
        let dy = arrow_step(up, down);
        (if escape {
            seq![KeyAction::SelectMode, KeyAction::ClearSelection]
        } else {
            Seq::empty()
        }) + (if delete {
            seq![KeyAction::DeleteSelected]
        } else {
            Seq::empty()
        }) + (if dx != 0 || dy != 0 {
            seq![KeyAction::Nudge(dx as i8, dy as i8), KeyAction::Recalculate]
        } else {
            Seq::empty()
        })
    }
}

/// The canvas actions for the keys pressed in a frame (`delete` stands for
/// Delete or Backspace).
pub fn keyboard_actions(
    text_focused: bool,
    escape: bool,
    delete: bool,
    left: bool,
    right: bool,
    up: bool,
    down: bool,
) -> (r: Vec<KeyAction>)
    ensures
        r@ == keyboard_spec(text_focused, escape, delete, left, right, up, down),
{
    let mut r: Vec<KeyAction> = Vec::new();
    if text_focused {
        proof {
            assert(r@ =~= keyboard_spec(text_focused, escape, delete, left, right, up, down));
        }
        return r;
    }
    if escape {
        r.push(KeyAction::SelectMode);
        r.push(KeyAction::ClearSelection);
    }
    if delete {
        r.push(KeyAction::DeleteSelected);
    }
    let mut dx: i8 = 0;
    let mut dy: i8 = 0;
    if up {
        dy = dy - 1;
    }
    if down {
        dy = dy + 1;
    }
    if left {
        dx = dx - 1;
    }
    if right {
        dx = dx + 1;
    }
    if dx != 0 || dy != 0 {
        r.push(KeyAction::Nudge(dx, dy));
        r.push(KeyAction::Recalculate);
    }
    proof {
        assert(dx == arrow_step(left, right));
        assert(dy == arrow_step(up, down));
        assert(r@ =~= keyboard_spec(text_focused, escape, delete, left, right, up, down));
    }
    r
}

/// The window actions for a frame's key presses with Ctrl (or Cmd on a Mac)
/// held: S saves; Z redoes with Shift held and undoes without.  Other
/// modifiers do not matter.
pub open spec fn shortcut_spec(command: bool, shift: bool, z: bool, s: bool) -> Seq<Shortcut> {
    (if command && s {
        seq![Shortcut::Save]
    } else {
        Seq::empty()
    }) + (if command && z {
        if shift {
            seq![Shortcut::Redo]
        } else {
            seq![Shortcut::Undo]
        }
    } else {
        Seq::empty()
    })
}

/// The window actions for a frame's key presses (`command` stands for Ctrl,
/// or Cmd on a Mac).
pub fn shortcut_actions(command: bool, shift: bool, z: bool, s: bool) -> (r: Vec<Shortcut>)
    ensures
        r@ == shortcut_spec(command, shift, z, s),
{
    let mut r: Vec<Shortcut> = Vec::new();
    if command && s {
        r.push(Shortcut::Save);
    }
    if command && z {
        if shift {
            r.push(Shortcut::Redo);
        } else {
            r.push(Shortcut::Undo);
        }
    }
    proof {
        assert(r@ =~= shortcut_spec(command, shift, z, s));
    }
    r
}

/// What the keys ask for, key by key: nothing while a text field has the
/// keyboard; else Escape gives the selection tool then an empty selection
/// at the front, Delete gives a deletion, and arrows whose steps do not
/// cancel (right minus left, down minus up) end the list with a nudge by
/// those steps and a recomputation; without such a step there is neither.
pub proof fn lemma_keyboard_meaning(
    text_focused: bool,
    escape: bool,
    delete: bool,
    left: bool,
    right: bool,
    up: bool,
    down: bool,
)
    ensures
        ({
            let a = keyboard_spec(text_focused, escape, delete, left, right, up, down);
            let dx: int = (if right { 1int } else { 0int }) - (if left { 1int } else { 0int });
            let dy: int = (if down { 1int } else { 0int }) - (if up { 1int } else { 0int });
            &&& text_focused ==> a.len() == 0
            &&& !text_focused ==> (a.contains(KeyAction::SelectMode) <==> escape)
            &&& !text_focused ==> (a.contains(KeyAction::ClearSelection) <==> escape)
            &&& !text_focused ==> (a.contains(KeyAction::DeleteSelected) <==> delete)
            &&& !text_focused && escape ==> a[0] == KeyAction::SelectMode && a[1] == KeyAction::ClearSelection
            &&& !text_focused && (dx != 0 || dy != 0) ==> a.len() >= 2 && a[a.len() - 2] == KeyAction::Nudge(
                dx as i8,
                dy as i8,
            ) && a.last() == KeyAction::Recalculate
            &&& !text_focused && dx == 0 && dy == 0 ==> !a.contains(KeyAction::Recalculate) && forall|i: int|
                0 <= i < a.len() ==> !(#[trigger] a[i] is Nudge)
            &&& !text_focused ==> a.len() == (if escape { 2int } else { 0int }) + (if delete { 1int } else { 0int }) + (
            if dx != 0 || dy != 0 {
                2int
            } else {
                0int
            })
            &&& !text_focused && delete ==> a[if escape { 2int } else { 0int }] == KeyAction::DeleteSelected
            &&& a.len() <= 5
        }),
{
    let a = keyboard_spec(text_focused, escape, delete, left, right, up, down);
    if !text_focused {
        let e: Seq<KeyAction> = if escape {
            seq![KeyAction::SelectMode, KeyAction::ClearSelection]
        } else {
            Seq::empty()
        };
        let d: Seq<KeyAction> = if delete {
            seq![KeyAction::DeleteSelected]
        } else {
            Seq::empty()
        };
        let dx = arrow_step(left, right);
        let dy = arrow_step(up, down);
        let n: Seq<KeyAction> = if dx != 0 || dy != 0 {
            seq![KeyAction::Nudge(dx as i8, dy as i8), KeyAction::Recalculate]
        } else {
            Seq::empty()
        };
        assert(a == e + d + n);
        assert(a.contains(KeyAction::SelectMode) <==> escape) by {
            if escape {
                assert(a[0] == KeyAction::SelectMode);
            }
        }
        assert(a.contains(KeyAction::ClearSelection) <==> escape) by {
            if escape {
                assert(a[1] == KeyAction::ClearSelection);
            }
        }
        assert(a.contains(KeyAction::DeleteSelected) <==> delete) by {
            if delete {
                assert(a[e.len() as int] == KeyAction::DeleteSelected);
            }
        }
        if dx == 0 && dy == 0 {
            assert(!a.contains(KeyAction::Recalculate));
        }
    }
}

/// What the window shortcuts ask for: Save exactly with Ctrl/Cmd and S,
/// Undo exactly with Ctrl/Cmd and Z without Shift, Redo exactly with
/// Ctrl/Cmd, Shift and Z; Save comes first, and at most one of Undo and
/// Redo is asked for.
pub proof fn lemma_shortcut_meaning(command: bool, shift: bool, z: bool, s: bool)
    ensures
        ({
            let a = shortcut_spec(command, shift, z, s);
            &&& a.contains(Shortcut::Save) <==> command && s
            &&& a.contains(Shortcut::Undo) <==> command && z && !shift
            &&& a.contains(Shortcut::Redo) <==> command && z && shift
            &&& a.len() == (if command && s { 1int } else { 0int }) + (if command && z { 1int } else { 0int })
            &&& command && s ==> a[0] == Shortcut::Save
        }),
{
    let a = shortcut_spec(command, shift, z, s);
    if command && s {
        assert(a[0] == Shortcut::Save);
    }
    if command && z {
        assert(a[a.len() - 1] == (if shift { Shortcut::Redo } else { Shortcut::Undo }));
    }
}

} // verus!
