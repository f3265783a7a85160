//! The dialogs of the editor and what they hold while they are open.

use vstd::prelude::*;
use vstd::string::*;
use crate::logic::variable::{BitValue, VariableKind};
use crate::ui::events::{EventQueue, EventView};
use crate::ui::variable::{VariableEvent, VariableEventView};

verus! {

/// The dialogs there are.
#[derive(Clone, Copy, Debug, PartialEq, Eq, Structural)]
pub enum ModalKind {
    AddVariable,
}

/// The dialog that adds a variable: whether it is open, and what was
/// entered so far.
#[derive(Clone, Debug)]
pub struct AddVariableState {
    pub show: bool,
    pub name: String,
    pub kind: VariableKind,
    pub state: BitValue,
}

/// What the dialog holds.
#[verifier::ext_equal]
pub struct AddVariableView {
    pub show: bool,
    pub name: Seq<char>,
    pub kind: VariableKind,
    pub state: BitValue,
}

impl View for AddVariableState {
    type V = AddVariableView;

    open spec fn view(&self) -> AddVariableView {
        AddVariableView { show: self.show, name: self.name@, kind: self.kind, state: self.state }
    }
}

impl AddVariableView {
    /// The dialog as it is before anything was entered: closed, the name
    /// empty, an input, its value left open.
    pub open spec fn fresh() -> AddVariableView {
        AddVariableView {
            show: false,
            name: Seq::empty(),
            kind: VariableKind::Input,
            state: BitValue::DontCare,
        }
    }

    /// The event that adds the variable entered in the dialog.
    pub open spec fn request(self) -> EventView {
        EventView::Variable(
            VariableEventView::Add { name: self.name, kind: self.kind, value: self.state },
        )
    }
}

impl Default for AddVariableState {
    /// The dialog before anything was entered.
    fn default() -> (state: AddVariableState)
        ensures
            state@ == AddVariableView::fresh(),
    {
        AddVariableState {
            show: false,
            name: String::new(),
            kind: VariableKind::Input,
            state: BitValue::DontCare,
        }
    }
}

impl AddVariableState {
    /// Closes the dialog and keeps what was entered.
    pub fn dismiss(&mut self)
        ensures
            final(self)@ == (AddVariableView { show: false, ..old(self)@ }),
    {
        self.show = false;
    }

    /// Ends the dialog: asks for the variable that was entered to be added,
    /// and leaves the dialog as it was before anything was entered.
    pub fn finalize(&mut self, events: &mut EventQueue)
        ensures
            final(events)@ == old(events)@.push(old(self)@.request()),
            final(self)@ == AddVariableView::fresh(),
    {
        events.push_variable(
            VariableEvent::Add { name: self.name.clone(), kind: self.kind, value: self.state },
        );
        *self = AddVariableState::default();
    }
}

/// The state of all the dialogs.
#[derive(Clone, Debug)]
pub struct ModalState {
    pub add_variable: AddVariableState,
}

impl View for ModalState {
    type V = AddVariableView;

    open spec fn view(&self) -> AddVariableView {
        self.add_variable@
    }
}

impl Default for ModalState {
    /// No dialog is open.
    fn default() -> (state: ModalState)
        ensures
            state@ == AddVariableView::fresh(),
    {
        ModalState { add_variable: AddVariableState::default() }
    }
}

} // verus!
