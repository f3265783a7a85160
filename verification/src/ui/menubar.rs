//! What the menu bar of the editor can ask for, and which of the editor's
//! views are open.

use vstd::prelude::*;

verus! {

/// A path in the file system, as the standard library holds it. Nothing is
/// known of what is inside.
#[verifier::external_type_specification]
#[verifier::external_body]
pub struct ExPathBuf(std::path::PathBuf);

/// What a choice in the menu bar asks for.
pub enum MenuEvent {
    NewProject,
    /// Save, to the given file or to the one the project came from.
    SaveProject(Option<std::path::PathBuf>),
    OpenProject(std::path::PathBuf),
    OpenSettings,
}

/// Which views of the editor are open.
#[derive(Clone, Copy, Debug, PartialEq, Eq, Structural)]
pub struct WindowState {
    pub table_view: bool,
    pub map_view: bool,
    pub expression_view: bool,
}

impl Default for WindowState {
    /// The table and the map are open, the expression view is not.
    fn default() -> (state: WindowState)
        ensures
            state == (WindowState { table_view: true, map_view: true, expression_view: false }),
    {
        WindowState { table_view: true, map_view: true, expression_view: false }
    }
}

} // verus!
