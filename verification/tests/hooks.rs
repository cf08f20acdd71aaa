use orderbook_store::{Addr, Hooks, StoreError};

fn names(hooks: &Hooks) -> Vec<String> {
    hooks.query().iter().map(|a| a.as_str().to_string()).collect()
}

#[test]
fn new_registry_is_empty() {
    let hooks = Hooks::new(3);
    assert_eq!(hooks.len(), 0);
    assert_eq!(hooks.capacity(), 3);
    assert!(hooks.query().is_empty());
    assert!(hooks.prepare_notifications(&vec![1, 2, 3]).is_empty());
}

#[test]
fn adding_twice_is_a_duplicate() {
    let mut hooks = Hooks::new(3);
    assert_eq!(hooks.add(Addr::unchecked("listener")), Ok(()));
    assert_eq!(hooks.add(Addr::unchecked("listener")), Err(StoreError::Duplicate));
    assert_eq!(names(&hooks), vec!["listener"]);
}

#[test]
fn duplicate_wins_over_a_full_registry() {
    let mut hooks = Hooks::new(1);
    assert_eq!(hooks.add(Addr::unchecked("a")), Ok(()));
    assert_eq!(hooks.add(Addr::unchecked("a")), Err(StoreError::Duplicate));
    assert_eq!(hooks.add(Addr::unchecked("b")), Err(StoreError::CapacityExceeded));
    assert_eq!(names(&hooks), vec!["a"]);
}

#[test]
fn a_full_registry_refuses_another_listener() {
    let mut hooks = Hooks::new(2);
    assert_eq!(hooks.add(Addr::unchecked("a")), Ok(()));
    assert_eq!(hooks.add(Addr::unchecked("b")), Ok(()));
    assert_eq!(hooks.add(Addr::unchecked("c")), Err(StoreError::CapacityExceeded));
    assert_eq!(names(&hooks), vec!["a", "b"]);
    assert_eq!(hooks.remove(&Addr::unchecked("a")), Ok(()));
    assert_eq!(hooks.add(Addr::unchecked("c")), Ok(()));
    assert_eq!(names(&hooks), vec!["b", "c"]);
}

#[test]
fn a_registry_without_room_refuses_everyone() {
    let mut hooks = Hooks::new(0);
    assert_eq!(hooks.add(Addr::unchecked("a")), Err(StoreError::CapacityExceeded));
    assert_eq!(hooks.len(), 0);
}

#[test]
fn removing_a_stranger_is_not_found() {
    let mut hooks = Hooks::new(3);
    assert_eq!(hooks.remove(&Addr::unchecked("a")), Err(StoreError::NotFound));
    assert_eq!(hooks.add(Addr::unchecked("a")), Ok(()));
    assert_eq!(hooks.remove(&Addr::unchecked("b")), Err(StoreError::NotFound));
    assert_eq!(names(&hooks), vec!["a"]);
}

#[test]
fn add_then_remove_leaves_the_list_empty() {
    let mut hooks = Hooks::new(3);
    assert_eq!(hooks.add(Addr::unchecked("a")), Ok(()));
    assert_eq!(hooks.remove(&Addr::unchecked("a")), Ok(()));
    assert_eq!(hooks.len(), 0);
    assert!(!hooks.contains(&Addr::unchecked("a")));
}

#[test]
fn removal_keeps_the_order_of_the_others() {
    let mut hooks = Hooks::new(5);
    for name in ["a", "b", "c", "d"] {
        assert_eq!(hooks.add(Addr::unchecked(name)), Ok(()));
    }
    assert_eq!(hooks.position(&Addr::unchecked("c")), Some(2));
    assert_eq!(hooks.remove(&Addr::unchecked("b")), Ok(()));
    assert_eq!(names(&hooks), vec!["a", "c", "d"]);
    assert_eq!(hooks.position(&Addr::unchecked("c")), Some(1));
    assert_eq!(hooks.position(&Addr::unchecked("b")), None);
}

#[test]
fn one_notification_per_listener_in_order() {
    let mut hooks = Hooks::new(5);
    for name in ["z", "m", "a"] {
        assert_eq!(hooks.add(Addr::unchecked(name)), Ok(()));
    }
    let event = vec![7u8, 8, 9];
    let out = hooks.prepare_notifications(&event);
    assert_eq!(out.len(), 3);
    assert_eq!(
        out.iter().map(|n| n.listener.as_str().to_string()).collect::<Vec<_>>(),
        vec!["z", "m", "a"]
    );
    assert!(out.iter().all(|n| n.payload == event));
}
