use cursed_telemetry::store::{DataStore, Entry};
use cursed_telemetry::sync::{
    handle_sync_request, on_event, ConnectionAction, ConnectionState, InboundEvent, SyncMessage,
    SyncRequest, SyncUpdate,
};
use cursed_telemetry::services::TopicServiceImpl;
use cursed_telemetry::value::CursedValue;

fn num(x: f64) -> CursedValue {
    CursedValue::Number(x.to_bits())
}

fn sample_store() -> DataStore {
    let mut store = DataStore::new();
    store.add_data("temp".to_string(), 100, num(20.5));
    store.add_data("temp".to_string(), 200, num(21.0));
    store
}

fn update(m: &SyncMessage) -> &SyncUpdate {
    match m {
        SyncMessage::Update(u) => u,
        SyncMessage::Request(_) => panic!("expected an update"),
    }
}

#[test]
fn request_with_range_omits_unknown_topics() {
    let store = sample_store();
    let req = SyncRequest::new(vec!["temp".to_string(), "missing".to_string()], Some((0, 150)));
    let reply = handle_sync_request(&req, &store);
    assert_eq!(reply.len(), 1);
    let u = update(&reply[0]);
    assert_eq!(u.topic, "temp");
    assert_eq!(u.data, vec![Entry { time: 100, value: num(20.5) }]);
}

#[test]
fn request_without_range_returns_whole_series() {
    let store = sample_store();
    let req = SyncRequest::new(vec!["temp".to_string()], None);
    let reply = handle_sync_request(&req, &store);
    assert_eq!(reply.len(), 1);
    let u = update(&reply[0]);
    assert_eq!(
        u.data,
        vec![Entry { time: 100, value: num(20.5) }, Entry { time: 200, value: num(21.0) }]
    );
}

#[test]
fn request_for_nothing_known_is_empty() {
    let store = sample_store();
    let req = SyncRequest::new(vec!["a".to_string(), "b".to_string()], None);
    assert!(handle_sync_request(&req, &store).is_empty());
    let req = SyncRequest::new(vec![], Some((0, 10)));
    assert!(handle_sync_request(&req, &store).is_empty());
}

#[test]
fn request_and_update_messages_copy_their_content() {
    let req = SyncRequest::new(vec!["x".to_string()], Some((1, 2)));
    assert_eq!(req.message(), SyncMessage::Request(req.clone()));
    let upd = SyncUpdate::new("x".to_string(), vec![Entry { time: 3, value: num(1.0) }]);
    assert_eq!(upd.message(), SyncMessage::Update(upd.clone()));
}

#[test]
fn open_connection_answers_requests() {
    let store = sample_store();
    let req = SyncRequest::new(vec!["temp".to_string()], Some((150, 300)));
    let (state, action) = on_event(ConnectionState::Open, InboundEvent::Message(req.message()), &store);
    assert_eq!(state, ConnectionState::Open);
    match action {
        ConnectionAction::Respond(reply) => {
            assert_eq!(reply.len(), 1);
            assert_eq!(update(&reply[0]).data, vec![Entry { time: 200, value: num(21.0) }]);
        }
        other => panic!("unexpected action {:?}", other),
    }
}

#[test]
fn malformed_frame_keeps_connection_open() {
    let store = sample_store();
    let (state, action) = on_event(ConnectionState::Open, InboundEvent::Malformed, &store);
    assert_eq!(state, ConnectionState::Open);
    assert!(matches!(action, ConnectionAction::Discard));
}

#[test]
fn transport_failure_and_peer_close_end_connection() {
    let store = sample_store();
    let (state, action) = on_event(ConnectionState::Open, InboundEvent::TransportError, &store);
    assert_eq!(state, ConnectionState::Closed);
    assert!(matches!(action, ConnectionAction::Close));
    let (state, action) = on_event(ConnectionState::Open, InboundEvent::PeerClosed, &store);
    assert_eq!(state, ConnectionState::Closed);
    assert!(matches!(action, ConnectionAction::Close));
    let upd = SyncUpdate::new("x".to_string(), vec![]);
    let (state, action) = on_event(ConnectionState::Open, InboundEvent::Message(upd.message()), &store);
    assert_eq!(state, ConnectionState::Closed);
    assert!(matches!(action, ConnectionAction::Close));
}

#[test]
fn closed_connection_stays_closed() {
    let store = sample_store();
    let req = SyncRequest::new(vec!["temp".to_string()], None);
    let (state, action) = on_event(ConnectionState::Closed, InboundEvent::Message(req.message()), &store);
    assert_eq!(state, ConnectionState::Closed);
    assert!(matches!(action, ConnectionAction::Idle));
}

#[test]
fn topic_service_lists_its_topics() {
    let svc = TopicServiceImpl::new(vec!["topic1".to_string(), "topic2".to_string()]);
    assert_eq!(svc.request_topic_list(), vec!["topic1".to_string(), "topic2".to_string()]);
}
