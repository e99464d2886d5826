use std::cell::RefCell;
use std::rc::Rc;

use pipewire_native::dispatch::{EventDispatch, Offer};
use pipewire_native::wire::Command;

type Handler = Box<dyn FnMut(Command) -> bool>;
type Shared = Rc<RefCell<EventDispatch<Command, Handler>>>;

/// Delivers `event` as a runtime would: the handler runs outside the
/// borrow, and a handler that fails abandons its dispatch.
fn dispatch_event(state: &Shared, event: Command) {
    let offered = state.borrow_mut().offer(event);
    let mut active = match offered {
        Offer::Start(active) => active,
        Offer::Queued | Offer::Unhandled(_) => return,
    };
    loop {
        let (next, displaced, discarded) = state.borrow_mut().next(&mut active);
        drop(displaced);
        drop(discarded);
        let Some(event) = next else { return };
        let handled = (active.handler.as_mut().unwrap())(event);
        if !handled {
            let displaced = state.borrow_mut().abandon(active);
            drop(displaced);
            return;
        }
    }
}

fn recorder(observed: &Rc<RefCell<Vec<Command>>>) -> Handler {
    let observed = observed.clone();
    Box::new(move |command| {
        observed.borrow_mut().push(command);
        true
    })
}

#[test]
fn nested_dispatch_is_queued_in_order() {
    let state: Shared = Rc::new(RefCell::new(EventDispatch::new()));
    let observed = Rc::new(RefCell::new(Vec::new()));
    let nested_state = state.clone();
    let nested_observed = observed.clone();
    let _ = state.borrow_mut().set_event_handler(Some(Box::new(move |command| {
        nested_observed.borrow_mut().push(command);
        if command == Command::Start {
            dispatch_event(&nested_state, Command::Pause);
        }
        true
    })));

    dispatch_event(&state, Command::Start);
    assert_eq!(*observed.borrow(), [Command::Start, Command::Pause]);
    assert!(state.borrow().has_handler());
    assert!(!state.borrow().is_dispatching());
}

#[test]
fn abandoned_dispatch_restores_handler_and_retains_nested_queue() {
    let state: Shared = Rc::new(RefCell::new(EventDispatch::new()));
    let observed = Rc::new(RefCell::new(Vec::new()));
    let nested_state = state.clone();
    let nested_observed = observed.clone();
    let mut first = true;
    let _ = state.borrow_mut().set_event_handler(Some(Box::new(move |command| {
        nested_observed.borrow_mut().push(command);
        if first {
            first = false;
            dispatch_event(&nested_state, Command::Pause);
            return false;
        }
        true
    })));

    dispatch_event(&state, Command::Start);
    assert_eq!(state.borrow().queued_len(), 1);
    assert!(state.borrow().has_handler());
    dispatch_event(&state, Command::Suspend);
    assert_eq!(*observed.borrow(), [Command::Start, Command::Pause, Command::Suspend]);
}

#[test]
fn replacement_during_dispatch_is_adopted_for_queued_events() {
    let state: Shared = Rc::new(RefCell::new(EventDispatch::new()));
    let replaced = Rc::new(RefCell::new(Vec::new()));
    let replacement = recorder(&replaced);
    let callback_state = state.clone();
    let mut replacement = Some(replacement);
    let _ = state.borrow_mut().set_event_handler(Some(Box::new(move |command| {
        assert_eq!(command, Command::Start);
        let displaced = callback_state.borrow_mut().set_event_handler(replacement.take());
        assert!(displaced.is_none());
        dispatch_event(&callback_state, Command::Pause);
        true
    })));

    dispatch_event(&state, Command::Start);
    assert_eq!(*replaced.borrow(), [Command::Pause]);
    assert!(state.borrow().has_handler());
    assert!(!state.borrow().is_dispatching());
}

#[test]
fn clearing_the_handler_discards_queued_events() {
    let state: Shared = Rc::new(RefCell::new(EventDispatch::new()));
    let callback_state = state.clone();
    let _ = state.borrow_mut().set_event_handler(Some(Box::new(move |_| {
        let _ = callback_state.borrow_mut().set_event_handler(None);
        dispatch_event(&callback_state, Command::Pause);
        true
    })));
    dispatch_event(&state, Command::Start);
    assert_eq!(state.borrow().queued_len(), 0);
    assert!(!state.borrow().has_handler());
    let mut unhandled = EventDispatch::<Command, Handler>::new();
    assert!(matches!(unhandled.offer(Command::Start), Offer::Unhandled(Command::Start)));
}
