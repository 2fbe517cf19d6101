use ui_commands::stopwatch_lock::{FluxInteractionStopwatchLock, ManageFluxInteractionStopwatchLockExt};

fn locks(slot: &Option<FluxInteractionStopwatchLock<u32>>) -> Option<Vec<(String, u32)>> {
    slot.as_ref().map(|l| l.get().clone())
}

#[test]
fn lock_on_entity_without_lock_component() {
    let mut slot: Option<FluxInteractionStopwatchLock<u32>> = None;
    slot.lock_stopwatch("dropdown", 5);
    assert_eq!(locks(&slot), Some(vec![("dropdown".to_string(), 5)]));
}

#[test]
fn lock_replaces_the_owners_lock_in_place() {
    let mut slot: Option<FluxInteractionStopwatchLock<u32>> = None;
    slot.lock_stopwatch("a", 1).lock_stopwatch("b", 2).lock_stopwatch("a", 3);
    assert_eq!(locks(&slot), Some(vec![("a".to_string(), 3), ("b".to_string(), 2)]));
}

#[test]
fn release_drops_only_the_owners_lock() {
    let mut slot: Option<FluxInteractionStopwatchLock<u32>> = None;
    slot.lock_stopwatch("a", 1).lock_stopwatch("b", 2).lock_stopwatch("c", 3);
    slot.try_release_stopwatch_lock("b");
    assert_eq!(locks(&slot), Some(vec![("a".to_string(), 1), ("c".to_string(), 3)]));
    slot.try_release_stopwatch_lock("z");
    assert_eq!(locks(&slot), Some(vec![("a".to_string(), 1), ("c".to_string(), 3)]));
}

#[test]
fn release_without_lock_component_does_nothing() {
    let mut slot: Option<FluxInteractionStopwatchLock<u32>> = None;
    slot.try_release_stopwatch_lock("a");
    assert!(slot.is_none());
}

#[test]
fn release_undoes_lock_of_new_owner() {
    let mut slot: Option<FluxInteractionStopwatchLock<u32>> = None;
    slot.lock_stopwatch("a", 1);
    slot.lock_stopwatch("b", 2).try_release_stopwatch_lock("b");
    assert_eq!(locks(&slot), Some(vec![("a".to_string(), 1)]));
}

#[test]
fn lock_methods() {
    let mut l: FluxInteractionStopwatchLock<u32> = FluxInteractionStopwatchLock::new();
    assert!(l.get().is_empty());
    l.lock("x", 4);
    l.release("x");
    assert!(l.get().is_empty());
}
