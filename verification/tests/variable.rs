use karny::logic::variable::{BitValue, VariableKind};
use karny::ui::variable::{Variable, VariableStore};

fn names(list: &[Variable]) -> Vec<&str> {
    list.iter().map(|v| v.name.as_str()).collect()
}

fn numbers(list: &[Variable]) -> Vec<u64> {
    list.iter().map(|v| v.id.value()).collect()
}

fn sample() -> VariableStore {
    let mut store = VariableStore::default();
    store.add(String::from("A"), VariableKind::Input, BitValue::Zero);
    store.add(String::from("S"), VariableKind::Output, BitValue::DontCare);
    store.add(String::from("B"), VariableKind::Input, BitValue::One);
    store.add(String::from("Co"), VariableKind::Output, BitValue::DontCare);
    store
}

#[test]
fn a_new_store_is_empty() {
    let store = VariableStore::default();
    assert!(store.inputs.is_empty());
    assert!(store.outputs.is_empty());
    assert!(store.has_room_for(0));
    assert!(store.has_room_for(usize::MAX));
}

#[test]
fn identifiers_ascend_from_zero() {
    let mut store = VariableStore::default();
    assert_eq!(store.next_variable_id().value(), 0);
    assert_eq!(store.next_variable_id().value(), 1);
    assert_eq!(store.next_variable_id().value(), 2);
}

#[test]
fn add_appends_to_the_list_of_its_kind() {
    let store = sample();
    assert_eq!(names(&store.inputs), vec!["A", "B"]);
    assert_eq!(names(&store.outputs), vec!["S", "Co"]);
    assert_eq!(numbers(&store.inputs), vec![0, 2]);
    assert_eq!(numbers(&store.outputs), vec![1, 3]);
    assert_eq!(store.inputs[1].value, BitValue::One);
    assert_eq!(store.inputs[1].kind, VariableKind::Input);
    assert_eq!(store.outputs[0].kind, VariableKind::Output);
}

#[test]
fn get_variable_by_id_finds_inputs_and_outputs() {
    let store = sample();
    let b = store.inputs[1].id;
    let co = store.outputs[1].id;
    assert_eq!(store.get_variable_by_id(b).map(|v| v.name.as_str()), Some("B"));
    assert_eq!(store.get_variable_by_id(co).map(|v| v.name.as_str()), Some("Co"));
}

#[test]
fn get_variable_by_id_of_an_unknown_identifier_is_none() {
    let mut store = sample();
    let unknown = store.next_variable_id();
    assert!(store.get_variable_by_id(unknown).is_none());
    assert!(store.get_variable_by_id_mut(unknown).is_none());
}

#[test]
fn get_variable_by_id_mut_lets_the_variable_change() {
    let mut store = sample();
    let s = store.outputs[0].id;
    store.get_variable_by_id_mut(s).unwrap().value.toggle();
    assert_eq!(store.outputs[0].value, BitValue::Zero);
    assert_eq!(store.outputs[1].value, BitValue::DontCare);
    assert_eq!(names(&store.inputs), vec!["A", "B"]);
}

#[test]
fn remove_takes_the_variable_out() {
    let mut store = sample();
    let a = store.inputs[0].id;
    store.remove(a);
    assert_eq!(names(&store.inputs), vec!["B"]);
    assert_eq!(names(&store.outputs), vec!["S", "Co"]);
    let co = store.outputs[1].id;
    store.remove(co);
    assert_eq!(names(&store.inputs), vec!["B"]);
    assert_eq!(names(&store.outputs), vec!["S"]);
}

#[test]
fn remove_of_an_unknown_identifier_changes_nothing() {
    let mut store = sample();
    let a = store.inputs[0].id;
    store.remove(a);
    store.remove(a);
    assert_eq!(names(&store.inputs), vec!["B"]);
    assert_eq!(names(&store.outputs), vec!["S", "Co"]);
}

#[test]
fn identifiers_are_not_used_again_after_a_removal() {
    let mut store = sample();
    let co = store.outputs[1].id;
    store.remove(co);
    store.add(String::from("T"), VariableKind::Output, BitValue::Zero);
    assert_eq!(numbers(&store.outputs), vec![1, 4]);
}

#[test]
fn remove_goes_by_the_kind_of_the_variable_found() {
    let mut store = sample();
    // An output that was moved among the inputs is found there, and the
    // list of outputs is the one that is searched for it.
    let stray = store.outputs.remove(0);
    let id = stray.id;
    store.inputs.push(stray);
    store.remove(id);
    assert_eq!(names(&store.inputs), vec!["A", "B", "S"]);
    assert_eq!(names(&store.outputs), vec!["Co"]);
}

#[test]
fn rename_changes_the_name_alone() {
    let mut store = sample();
    let b = store.inputs[1].id;
    store.rename(b, String::from("Cin"));
    assert_eq!(names(&store.inputs), vec!["A", "Cin"]);
    assert_eq!(numbers(&store.inputs), vec![0, 2]);
    assert_eq!(store.inputs[1].value, BitValue::One);
    let s = store.outputs[0].id;
    store.rename(s, String::from("Sum"));
    assert_eq!(names(&store.outputs), vec!["Sum", "Co"]);
}

#[test]
fn rename_of_an_unknown_identifier_changes_nothing() {
    let mut store = sample();
    let unknown = store.next_variable_id();
    store.rename(unknown, String::from("Z"));
    assert_eq!(names(&store.inputs), vec!["A", "B"]);
    assert_eq!(names(&store.outputs), vec!["S", "Co"]);
}

#[test]
fn variables_compare_by_all_they_hold() {
    let store = sample();
    let a = store.inputs[0].clone();
    assert_eq!(a, store.inputs[0]);
    assert_ne!(a, store.inputs[1]);
    assert_eq!(a.id, store.inputs[0].id);
    assert_ne!(a.id, store.inputs[1].id);
}

#[test]
fn each_kind_has_its_list() {
    let mut store = sample();
    assert_eq!(names(store.get_corresponding_vec(VariableKind::Input)), vec!["A", "B"]);
    assert_eq!(names(store.get_corresponding_vec(VariableKind::Output)), vec!["S", "Co"]);
    store.get_corresponding_vec_mut(VariableKind::Output).swap(0, 1);
    assert_eq!(names(&store.outputs), vec!["Co", "S"]);
    assert_eq!(names(&store.inputs), vec!["A", "B"]);
}

#[test]
fn identifiers_stay_distinct_through_any_changes() {
    let mut store = VariableStore::default();
    let mut handed_out: Vec<u64> = Vec::new();
    for round in 0..20u64 {
        let kind = if round % 3 == 0 { VariableKind::Output } else { VariableKind::Input };
        store.add(format!("v{round}"), kind, BitValue::DontCare);
        let list = store.get_corresponding_vec(kind);
        let id = list[list.len() - 1].id;
        assert!(!handed_out.contains(&id.value()));
        handed_out.push(id.value());
        if round % 4 == 1 {
            let victim = store.inputs[0].id;
            store.remove(victim);
            assert!(store.get_variable_by_id(victim).is_none());
        }
        if round % 5 == 2 {
            let target = store.inputs[store.inputs.len() - 1].id;
            store.rename(target, format!("renamed{round}"));
        }
        let mut seen: Vec<u64> = Vec::new();
        for v in store.inputs.iter().chain(store.outputs.iter()) {
            assert!(!seen.contains(&v.id.value()));
            assert!(handed_out.contains(&v.id.value()));
            seen.push(v.id.value());
        }
        assert!(store.inputs.iter().all(|v| v.kind == VariableKind::Input));
        assert!(store.outputs.iter().all(|v| v.kind == VariableKind::Output));
    }
    assert_eq!(handed_out, (0..20).collect::<Vec<u64>>());
}
