use event_router::event::Event;
use event_router::identity::Identifier;
use event_router::registry::{Registry, RouteOutcome, RouterReply, RouterRequest};

fn sample_event() -> Event {
    Event::new(
        String::from("overlap"),
        1,
        String::from("{}"),
        String::from("t0"),
        0,
    )
}

fn wire_text(wire: Vec<u8>) -> String {
    String::from_utf8(wire).expect("wire records are valid text")
}

#[test]
fn register_forward_deregister_forward() {
    let mut registry = Registry::new();
    let id = Identifier::new(1, 1);

    assert!(registry.register(id, 7));

    let event = sample_event();
    match registry.forward(id, &event) {
        RouteOutcome::Delivered { capability, wire } => {
            assert_eq!(capability, 7);
            assert_eq!(
                wire_text(wire),
                "{\"type\":\"overlap\",\"version\":1,\"payload\":{},\"created_at\":\"t0\",\"created_at_micros\":0}"
            );
        }
        RouteOutcome::Dropped => panic!("a registered identity must receive the event"),
    }

    registry.deregister(id);
    assert_eq!(registry.len(), 0);

    match registry.forward(id, &event) {
        RouteOutcome::Delivered { .. } => panic!("a deregistered identity must not receive events"),
        RouteOutcome::Dropped => {}
    }
}

#[test]
fn second_registration_is_rejected() {
    let mut registry = Registry::new();
    let id = Identifier::new(1, 1);

    assert!(registry.register(id, 7));
    assert!(!registry.register(id, 8));
    assert_eq!(registry.len(), 1);

    // The map still carries the first capability.
    let event = sample_event();
    match registry.forward(id, &event) {
        RouteOutcome::Delivered { capability, .. } => assert_eq!(capability, 7),
        RouteOutcome::Dropped => panic!("the first registration must stay intact"),
    }
}

#[test]
fn replacing_registration_displaces_the_stale_entry() {
    let mut registry = Registry::new();
    let id = Identifier::new(1, 1);

    assert_eq!(registry.register_replacing(id, 7), None);
    assert_eq!(registry.register_replacing(id, 8), Some(7));
    assert_eq!(registry.len(), 1);

    let event = sample_event();
    match registry.forward(id, &event) {
        RouteOutcome::Delivered { capability, .. } => assert_eq!(capability, 8),
        RouteOutcome::Dropped => panic!("the replacing registration must be live"),
    }
}

#[test]
fn deregister_absent_is_noop() {
    let mut registry = Registry::new();
    let present = Identifier::new(1, 1);
    let absent = Identifier::new(2, 2);

    assert!(registry.register(present, 3));
    registry.deregister(absent);
    assert_eq!(registry.len(), 1);

    // The absent identity still reports absent.
    let event = sample_event();
    assert!(matches!(
        registry.forward(absent, &event),
        RouteOutcome::Dropped
    ));
    // The unrelated entry is untouched.
    assert!(matches!(
        registry.forward(present, &event),
        RouteOutcome::Delivered { capability: 3, .. }
    ));
}

#[test]
fn forward_absent_is_dropped_without_effect() {
    let registry = Registry::new();
    let id = Identifier::new(4, 5);
    let event = sample_event();
    assert!(matches!(registry.forward(id, &event), RouteOutcome::Dropped));
    assert_eq!(registry.len(), 0);
}

#[test]
fn distinct_identities_do_not_collide() {
    let mut registry = Registry::new();
    // Same user scope under two organizations, and vice versa.
    assert!(registry.register(Identifier::new(1, 2), 10));
    assert!(registry.register(Identifier::new(2, 1), 20));
    assert!(registry.register(Identifier::new(1, 1), 30));
    assert_eq!(registry.len(), 3);

    let event = sample_event();
    match registry.forward(Identifier::new(2, 1), &event) {
        RouteOutcome::Delivered { capability, .. } => assert_eq!(capability, 20),
        RouteOutcome::Dropped => panic!("identity {{2,1}} is registered"),
    }
}

#[test]
fn router_inbox_serializes_the_three_operations() {
    let mut registry = Registry::new();
    let id = Identifier::new(9, 9);

    match registry.handle(RouterRequest::Connect { id, capability: 42 }) {
        RouterReply::Connected { accepted } => assert!(accepted),
        _ => panic!("a connect request is answered with a connect reply"),
    }
    match registry.handle(RouterRequest::Forward {
        id,
        event: sample_event(),
    }) {
        RouterReply::Forwarded {
            outcome: RouteOutcome::Delivered { capability, .. },
        } => assert_eq!(capability, 42),
        _ => panic!("a forward to a registered identity is delivered"),
    }
    match registry.handle(RouterRequest::Disconnect { id }) {
        RouterReply::Disconnected => {}
        _ => panic!("a disconnect request is answered with a disconnect reply"),
    }
    assert_eq!(registry.len(), 0);
}
