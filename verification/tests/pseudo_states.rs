use ui_commands::pseudo_states::{
    AddPseudoState, ManagePseudoStateExt, PseudoStates, RemovePseudoState,
};

fn states(slot: &Option<PseudoStates>) -> Option<Vec<u64>> {
    slot.as_ref().map(|s| s.get().clone())
}

#[test]
fn add_to_entity_without_states() {
    let mut slot: Option<PseudoStates> = None;
    slot.add_pseudo_state(4);
    assert_eq!(states(&slot), Some(vec![4]));
}

#[test]
fn add_appends_new_state_and_is_idempotent() {
    let mut slot: Option<PseudoStates> = None;
    slot.add_pseudo_state(1).add_pseudo_state(2).add_pseudo_state(1);
    assert_eq!(states(&slot), Some(vec![1, 2]));
    assert!(slot.as_ref().unwrap().has(2));
    assert!(!slot.as_ref().unwrap().has(3));
}

#[test]
fn remove_takes_state_out_and_keeps_others() {
    let mut slot: Option<PseudoStates> = None;
    slot.add_pseudo_state(1).add_pseudo_state(2).add_pseudo_state(3);
    slot.remove_pseudo_state(2);
    assert_eq!(states(&slot), Some(vec![1, 3]));
    slot.remove_pseudo_state(7);
    assert_eq!(states(&slot), Some(vec![1, 3]));
}

#[test]
fn remove_on_entity_without_states_does_nothing() {
    let mut slot: Option<PseudoStates> = None;
    slot.remove_pseudo_state(2);
    assert!(slot.is_none());
}

#[test]
fn remove_undoes_add_of_new_state() {
    let mut slot: Option<PseudoStates> = None;
    slot.add_pseudo_state(5).add_pseudo_state(6);
    slot.add_pseudo_state(9).remove_pseudo_state(9);
    assert_eq!(states(&slot), Some(vec![5, 6]));
}

#[test]
fn pseudo_states_methods() {
    let mut s = PseudoStates::new();
    assert!(s.get().is_empty());
    s.add(3);
    s.add(8);
    assert!(s.has(8));
    s.remove(3);
    assert_eq!(s.get(), &vec![8]);
}

#[test]
fn add_reports_whether_it_wrote() {
    let mut slot: Option<PseudoStates> = None;
    assert!(AddPseudoState { state: 1 }.apply(&mut slot));
    assert!(AddPseudoState { state: 2 }.apply(&mut slot));
    assert!(!AddPseudoState { state: 1 }.apply(&mut slot));
    assert_eq!(states(&slot), Some(vec![1, 2]));
}

#[test]
fn remove_reports_whether_it_wrote() {
    let mut slot: Option<PseudoStates> = None;
    assert!(!RemovePseudoState { state: 1 }.apply(&mut slot));
    assert!(slot.is_none());
    slot.add_pseudo_state(1);
    assert!(RemovePseudoState { state: 1 }.apply(&mut slot));
    assert_eq!(states(&slot), Some(vec![]));
}
