use event_router::connection::{
    Connection, Frame, FrameAction, TickAction, CLIENT_TIMEOUT, HEARTBEAT_INTERVAL,
};
use event_router::identity::Identifier;
use event_router::ingest::plan_publish;
use event_router::event::Event;
use event_router::registry::Registry;

#[test]
fn heartbeat_periods_are_fixed() {
    assert_eq!(HEARTBEAT_INTERVAL, 5);
    assert_eq!(CLIENT_TIMEOUT, 10);
}

#[test]
fn tick_pings_while_the_peer_is_live() {
    let connection = Connection::new(Identifier::new(1, 1), 100);
    assert_eq!(connection.on_tick(100 + CLIENT_TIMEOUT), TickAction::Ping);
}

#[test]
fn tick_terminates_past_the_timeout_window() {
    let connection = Connection::new(Identifier::new(1, 1), 100);
    assert_eq!(
        connection.on_tick(100 + CLIENT_TIMEOUT + 1),
        TickAction::Terminate
    );
}

#[test]
fn timed_out_identity_is_free_for_a_fresh_registration() {
    let mut registry = Registry::new();
    let id = Identifier::new(1, 1);
    let mut connection = Connection::new(id, 0);
    assert!(registry.register(id, 1));

    // The peer stays silent past the timeout window.
    let now = CLIENT_TIMEOUT + 1;
    assert_eq!(connection.on_tick(now), TickAction::Terminate);
    if let Some(stale) = connection.terminate() {
        registry.deregister(stale);
    }

    // The identity is at once eligible again.
    assert!(registry.register(id, 2));
    assert_eq!(registry.len(), 1);
}

#[test]
fn ping_is_answered_and_refreshes_liveness() {
    let mut connection = Connection::new(Identifier::new(1, 1), 0);
    let action = connection.on_frame(Frame::Ping(vec![1, 2, 3]), 6);
    assert!(matches!(action, FrameAction::Reply(payload) if payload == vec![1, 2, 3]));
    assert_eq!(connection.last_heartbeat, 6);
}

#[test]
fn pong_refreshes_liveness_silently() {
    let mut connection = Connection::new(Identifier::new(1, 1), 0);
    let action = connection.on_frame(Frame::Pong(vec![]), 4);
    assert!(matches!(action, FrameAction::Ignore));
    assert_eq!(connection.last_heartbeat, 4);
}

#[test]
fn close_frame_terminates() {
    let mut connection = Connection::new(Identifier::new(1, 1), 0);
    let action = connection.on_frame(Frame::Close, 2);
    assert!(matches!(action, FrameAction::Terminate));
    assert_eq!(connection.last_heartbeat, 0);
}

#[test]
fn other_frames_are_ignored() {
    let mut connection = Connection::new(Identifier::new(1, 1), 0);
    let action = connection.on_frame(Frame::Other, 9);
    assert!(matches!(action, FrameAction::Ignore));
    assert_eq!(connection.last_heartbeat, 0);
}

#[test]
fn terminate_runs_exactly_once() {
    let id = Identifier::new(3, 4);
    let mut connection = Connection::new(id, 0);
    assert_eq!(connection.terminate(), Some(id));
    assert_eq!(connection.terminate(), None);
    assert_eq!(connection.terminate(), None);
}

#[test]
fn rejected_registration_closes_the_connection() {
    let mut connection = Connection::new(Identifier::new(1, 1), 0);
    connection.on_register_outcome(false);
    assert!(connection.terminated);
    // Its later teardown owes the registry nothing.
    assert_eq!(connection.terminate(), None);
}

#[test]
fn accepted_registration_keeps_the_connection_open() {
    let mut connection = Connection::new(Identifier::new(1, 1), 0);
    connection.on_register_outcome(true);
    assert!(!connection.terminated);
}

#[test]
fn publish_forwards_accepted_types_only() {
    let accepted = vec![String::from("overlap")];
    let target = Identifier::new(1, 1);

    let event = Event::new(
        String::from("overlap"),
        1,
        String::from("{}"),
        String::from("t0"),
        0,
    );
    let request = plan_publish(&accepted, target, event).expect("an accepted type is forwarded");
    assert_eq!(request.id, target);
    assert_eq!(request.event.type_alias, "overlap");
    assert_eq!(request.event.version, 1);

    let other = Event::new(
        String::from("unrelated"),
        1,
        String::from("{}"),
        String::from("t0"),
        0,
    );
    assert!(plan_publish(&accepted, target, other).is_none());
}
