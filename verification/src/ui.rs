//! The state behind an editor of variables: the store of variables, the
//! events that change it, and the state of the editor's windows and dialogs.

pub mod cycle_button;
pub mod events;
pub mod menubar;
pub mod modals;
pub mod variable;
