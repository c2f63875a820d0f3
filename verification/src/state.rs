//! Plain state types shared by the editor and the project file format.
use vstd::prelude::*;

verus! {

/// A point group as it is stored on disk: its name and its RGBA colour.
#[derive(Clone)]
pub struct SerializableGroup {
    pub name: String,
    pub color: [u8; 4],
}

impl Default for SerializableGroup {
    /// An unnamed group with a fully transparent black colour.
    fn default() -> (g: Self)
        ensures
            g.name@ == Seq::<char>::empty(),
            g.color@ == seq![0u8, 0u8, 0u8, 0u8],
    {
        SerializableGroup { name: String::new(), color: [0u8, 0u8, 0u8, 0u8] }
    }
}

/// The script editor's state as it is stored on disk.
#[derive(Clone)]
pub struct SerializableIdeState {
    pub is_open: bool,
    pub code: String,
    /// Saved scripts as `(name, code)` pairs.
    pub user_scripts: Vec<(String, String)>,
}

impl Default for SerializableIdeState {
    /// A closed editor with no code and no saved scripts.
    fn default() -> (s: Self)
        ensures
            !s.is_open,
            s.code@ == Seq::<char>::empty(),
            s.user_scripts@.len() == 0,
    {
        SerializableIdeState { is_open: false, code: String::new(), user_scripts: Vec::new() }
    }
}

/// The interaction mode of the canvas.
#[derive(PartialEq, Eq, Structural, Clone, Copy, Debug)]
pub enum AppMode {
    Select,
    AddCalib,
    AddData,
    Delete,
    Pan,
}

} // verus!
