//! The whole state of an editor session.

use vstd::prelude::*;
use crate::logic::truth_table::{TableView, TruthTable};
use crate::ui::events::{EventQueue, EventView};
use crate::ui::menubar::WindowState;
use crate::ui::modals::{AddVariableView, ModalState};
use crate::ui::variable::{StoreView, VariableStore};

verus! {

/// The state of an editor session: its variables, the table under edit, and
/// the events that wait to be dispatched.
pub struct AppState {
    pub modals: ModalState,
    pub window_state: WindowState,
    pub variables: VariableStore,
    pub table: TruthTable,
    pub events: EventQueue,
}

/// What the state holds.
#[verifier::ext_equal]
pub struct AppView {
    pub modals: AddVariableView,
    pub window_state: WindowState,
    pub variables: StoreView,
    pub table: TableView,
    pub events: Seq<EventView>,
}

impl View for AppState {
    type V = AppView;

    open spec fn view(&self) -> AppView {
        AppView {
            modals: self.modals@,
            window_state: self.window_state,
            variables: self.variables@,
            table: self.table@,
            events: self.events@,
        }
    }
}

impl Default for AppState {
    /// A session that has just begun: no dialog open, the table and map
    /// views shown, no variables, no events, and the table of a function
    /// without inputs or outputs.
    fn default() -> (state: AppState)
        ensures
            state@.modals == AddVariableView::fresh(),
            state@.window_state == (WindowState {
                table_view: true,
                map_view: true,
                expression_view: false,
            }),
            state@.variables == (StoreView {
                next_id: 0,
                inputs: Seq::empty(),
                outputs: Seq::empty(),
            }),
            state@.variables.wf(),
            state@.events == Seq::<EventView>::empty(),
            state.table.wf(),
            state@.table.inputs.len() == 0,
            state@.table.outputs.len() == 0,
    {
        proof {
            vstd::arithmetic::power2::lemma2_to64();
        }
        let none: [&str; 0] = [];
        AppState {
            modals: ModalState::default(),
            window_state: WindowState::default(),
            variables: VariableStore::default(),
            table: TruthTable::new(&none, &none),
            events: EventQueue::default(),
        }
    }
}

} // verus!
