use ratatui_tree::Events;

#[test]
fn step_takes_the_latest_queued_event() {
    let mut events = Events::new();
    events.queue(1);
    events.queue(2);
    assert_eq!(events.step(), None);
    assert_eq!(*events.get(), Some(2));
    assert_eq!(events.step(), Some(2));
    assert_eq!(*events.get(), Some(1));
    assert_eq!(events.step(), None);
    assert_eq!(*events.get(), Some(1));
}

#[test]
fn step_or_uses_the_default_when_nothing_is_queued() {
    let mut events = Events::new();
    assert_eq!(events.step_or(7), None);
    assert_eq!(*events.get(), Some(7));
    events.queue(3);
    assert_eq!(events.step_or(9), Some(7));
    assert_eq!(*events.get(), Some(3));
}

#[test]
fn step_or_else_calls_only_when_nothing_is_queued() {
    let mut events = Events::new();
    assert_eq!(events.step_or_else(|| 5), None);
    assert_eq!(*events.get(), Some(5));
    events.queue(6);
    assert_eq!(events.step_or_else(|| panic!("queue was not empty")), Some(5));
    assert_eq!(*events.get(), Some(6));
}

#[test]
fn current_event_can_be_replaced_in_place() {
    let mut events = Events::new();
    events.queue(1);
    events.step();
    *events.get_mut() = Some(4);
    assert_eq!(*events.get(), Some(4));
    *events.get_mut() = None;
    assert_eq!(events.step(), None);
    assert_eq!(*events.get(), None);
}
