use karny::app::AppState;
use karny::logic::variable::{BitValue, VariableKind};
use karny::ui::cycle_button::next_option;
use karny::ui::events::{can_dispatch, dispatch_all, Event, EventQueue};
use karny::ui::menubar::{MenuEvent, WindowState};
use karny::ui::modals::{AddVariableState, ModalKind, ModalState};
use karny::ui::variable::VariableEvent;
use std::path::PathBuf;

fn add(name: &str, kind: VariableKind) -> VariableEvent {
    VariableEvent::Add { name: String::from(name), kind, value: BitValue::DontCare }
}

#[test]
fn a_new_session() {
    let state = AppState::default();
    assert!(!state.modals.add_variable.show);
    assert_eq!(
        state.window_state,
        WindowState { table_view: true, map_view: true, expression_view: false }
    );
    assert!(state.variables.inputs.is_empty());
    assert!(state.variables.outputs.is_empty());
    assert!(state.events.events.is_empty());
    assert!(state.table.inputs.is_empty());
    assert!(state.table.outputs.is_empty());
    assert_eq!(state.table.rows.len(), 1);
}

#[test]
fn window_state_default_shows_table_and_map() {
    let state = WindowState::default();
    assert!(state.table_view);
    assert!(state.map_view);
    assert!(!state.expression_view);
}

#[test]
fn menu_events_carry_paths() {
    let save = MenuEvent::SaveProject(Some(PathBuf::from("a.kmap")));
    assert!(matches!(save, MenuEvent::SaveProject(Some(p)) if p == PathBuf::from("a.kmap")));
    let open = MenuEvent::OpenProject(PathBuf::from("b.kmap"));
    assert!(matches!(open, MenuEvent::OpenProject(p) if p == PathBuf::from("b.kmap")));
    assert!(matches!(MenuEvent::NewProject, MenuEvent::NewProject));
    assert!(matches!(MenuEvent::OpenSettings, MenuEvent::OpenSettings));
    assert!(matches!(MenuEvent::SaveProject(None), MenuEvent::SaveProject(None)));
}

#[test]
fn queue_keeps_the_order_of_events() {
    let mut queue = EventQueue::default();
    queue.push(Event::Variable(add("A", VariableKind::Input)));
    queue.push_variable(add("B", VariableKind::Output));
    assert_eq!(queue.events.len(), 2);

    let taken = queue.take_all();
    assert!(queue.events.is_empty());
    assert_eq!(taken.len(), 2);
    assert!(matches!(&taken[0], Event::Variable(VariableEvent::Add { name, .. }) if name == "A"));
    assert!(matches!(&taken[1], Event::Variable(VariableEvent::Add { name, .. }) if name == "B"));
    assert!(queue.take_all().is_empty());
}

#[test]
fn dispatch_applies_events_in_order() {
    let mut state = AppState::default();
    dispatch_all(
        &mut state,
        vec![
            Event::Variable(add("A", VariableKind::Input)),
            Event::Variable(add("B", VariableKind::Input)),
            Event::Variable(add("F", VariableKind::Output)),
        ],
    );
    let a = state.variables.inputs[0].id;
    let b = state.variables.inputs[1].id;
    assert_eq!((a.value(), b.value()), (0, 1));
    assert_eq!(state.variables.outputs[0].id.value(), 2);

    dispatch_all(
        &mut state,
        vec![
            Event::Variable(VariableEvent::Rename(a, String::from("X"))),
            Event::Variable(VariableEvent::Remove(a)),
            Event::Variable(VariableEvent::Rename(a, String::from("Y"))),
            Event::Variable(VariableEvent::Rename(b, String::from("Z"))),
            Event::Variable(add("C", VariableKind::Input)),
        ],
    );
    let names: Vec<&str> = state.variables.inputs.iter().map(|v| v.name.as_str()).collect();
    assert_eq!(names, vec!["Z", "C"]);
    assert_eq!(state.variables.inputs[1].id.value(), 3);
    assert_eq!(state.variables.outputs.len(), 1);
    assert_eq!(state.table.rows.len(), 1);
}

#[test]
fn dispatch_of_nothing_changes_nothing() {
    let mut state = AppState::default();
    dispatch_all(&mut state, Vec::new());
    assert!(state.variables.inputs.is_empty());
    assert!(state.variables.outputs.is_empty());
}

#[test]
fn queued_events_reach_the_store() {
    let mut state = AppState::default();
    state.events.push_variable(add("A", VariableKind::Input));
    let events = state.events.take_all();
    assert!(can_dispatch(&state, &events));
    dispatch_all(&mut state, events);
    assert_eq!(state.variables.inputs.len(), 1);
    assert!(state.events.events.is_empty());
}

#[test]
fn add_variable_dialog_starts_empty() {
    let dialog = AddVariableState::default();
    assert!(!dialog.show);
    assert_eq!(dialog.name, "");
    assert_eq!(dialog.kind, VariableKind::Input);
    assert_eq!(dialog.state, BitValue::DontCare);
    assert!(!ModalState::default().add_variable.show);
    assert_eq!(ModalKind::AddVariable, ModalKind::AddVariable);
}

#[test]
fn add_variable_dialog_finalize_asks_for_the_variable() {
    let mut dialog = AddVariableState {
        show: true,
        name: String::from("Cin"),
        kind: VariableKind::Output,
        state: BitValue::One,
    };
    let mut queue = EventQueue::default();
    dialog.finalize(&mut queue);

    assert!(!dialog.show);
    assert_eq!(dialog.name, "");
    assert_eq!(dialog.kind, VariableKind::Input);
    assert_eq!(dialog.state, BitValue::DontCare);
    assert_eq!(queue.events.len(), 1);
    assert!(matches!(
        &queue.events[0],
        Event::Variable(VariableEvent::Add { name, kind: VariableKind::Output, value: BitValue::One })
            if name == "Cin"
    ));
}

#[test]
fn add_variable_dialog_dismiss_keeps_what_was_entered() {
    let mut dialog = AddVariableState {
        show: true,
        name: String::from("Cin"),
        kind: VariableKind::Output,
        state: BitValue::One,
    };
    dialog.dismiss();
    assert!(!dialog.show);
    assert_eq!(dialog.name, "Cin");
    assert_eq!(dialog.kind, VariableKind::Output);
    assert_eq!(dialog.state, BitValue::One);
}

#[test]
fn next_option_walks_the_cycle() {
    assert_eq!(next_option(Some(0), 2), 1);
    assert_eq!(next_option(Some(1), 2), 0);
    assert_eq!(next_option(None, 2), 1);
    assert_eq!(next_option(Some(0), 1), 0);
    assert_eq!(next_option(None, 1), 0);
    assert_eq!(next_option(Some(3), 5), 4);
    assert_eq!(next_option(Some(4), 5), 0);
}

#[test]
fn can_dispatch_counts_the_additions() {
    let mut state = AppState::default();
    dispatch_all(&mut state, vec![Event::Variable(add("A", VariableKind::Input))]);
    let a = state.variables.inputs[0].id;
    let events = vec![
        Event::Variable(VariableEvent::Rename(a, String::from("B"))),
        Event::Variable(add("C", VariableKind::Output)),
        Event::Variable(VariableEvent::Remove(a)),
    ];
    assert!(can_dispatch(&state, &events));
    assert!(can_dispatch(&state, &Vec::new()));
    assert!(state.variables.has_room_for(1));
}
