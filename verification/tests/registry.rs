use ufo_relay::choose_logging;
use ufo_relay::effective_ports;
use ufo_relay::LogChoice;
use ufo_relay::Registry;
use ufo_relay::WireMsg;

fn s(x: &str) -> String {
    x.to_string()
}

#[test]
fn register_queues_uid_message() {
    let mut r = Registry::new();
    r.register_client_with_id("a");
    assert!(r.has_client("a"));
    assert_eq!(r.take_outbound("a"), vec![WireMsg::Uid { uid: s("a") }]);
    assert_eq!(r.take_outbound("a"), vec![]);
}

#[test]
fn register_client_generates_usable_id() {
    let mut r = Registry::new();
    let id = r.register_client();
    assert!(r.has_client(id.as_str()));
    assert_eq!(r.take_outbound(id.as_str()), vec![WireMsg::Uid { uid: id.clone() }]);
}

#[test]
fn first_grant_queues_ready_once() {
    let mut r = Registry::new();
    r.register_client_with_id("a");
    r.grant_permissions("a", &vec![s("weather")]);
    assert_eq!(r.take_outbound("a"), vec![WireMsg::Uid { uid: s("a") }, WireMsg::Ready]);
    r.grant_permissions("a", &vec![s("alerts")]);
    assert_eq!(r.take_outbound("a"), vec![]);
}

#[test]
fn grant_to_unknown_client_is_noop() {
    let mut r = Registry::new();
    r.grant_permissions("ghost", &vec![s("weather")]);
    assert!(!r.has_client("ghost"));
}

#[test]
fn grants_accumulate_across_calls() {
    let mut r = Registry::new();
    r.register_client_with_id("a");
    r.register_client_with_id("b");
    r.grant_permissions("a", &vec![s("weather")]);
    r.grant_permissions("b", &vec![s("alerts")]);
    r.grant_permissions("a", &vec![s("alerts"), s("weather")]);
    r.subscribe("a", "weather");
    r.subscribe("a", "alerts");
    r.take_outbound("a");
    r.broadcast("weather", "w1");
    r.broadcast("alerts", "a1");
    assert_eq!(
        r.take_outbound("a"),
        vec![
            WireMsg::Broadcast { channel: s("weather"), message: s("w1") },
            WireMsg::Broadcast { channel: s("alerts"), message: s("a1") },
        ]
    );
}

#[test]
fn subscribe_without_permission_is_denied() {
    let mut r = Registry::new();
    r.register_client_with_id("b");
    r.subscribe("b", "weather");
    r.broadcast("weather", "73F");
    assert_eq!(r.take_outbound("b"), vec![WireMsg::Uid { uid: s("b") }]);
}

#[test]
fn subscribe_is_idempotent() {
    let mut r = Registry::new();
    r.register_client_with_id("a");
    r.grant_permissions("a", &vec![s("weather")]);
    r.subscribe("a", "weather");
    r.subscribe("a", "weather");
    r.take_outbound("a");
    r.broadcast("weather", "once");
    assert_eq!(
        r.take_outbound("a"),
        vec![WireMsg::Broadcast { channel: s("weather"), message: s("once") }]
    );
}

#[test]
fn unsubscribe_all_stops_delivery() {
    let mut r = Registry::new();
    r.register_client_with_id("a");
    r.grant_permissions("a", &vec![s("x"), s("y")]);
    r.subscribe("a", "x");
    r.subscribe("a", "y");
    r.unsubscribe_all("a");
    r.take_outbound("a");
    r.broadcast("x", "m1");
    r.broadcast("y", "m2");
    assert_eq!(r.take_outbound("a"), vec![]);
}

#[test]
fn broadcast_reaches_every_subscriber_and_nobody_else() {
    let mut r = Registry::new();
    r.register_client_with_id("a");
    r.register_client_with_id("b");
    r.register_client_with_id("c");
    r.grant_permissions("a", &vec![s("alerts")]);
    r.grant_permissions("b", &vec![s("alerts")]);
    r.grant_permissions("c", &vec![s("alerts")]);
    r.subscribe("a", "alerts");
    r.subscribe("b", "alerts");
    r.take_outbound("a");
    r.take_outbound("b");
    r.take_outbound("c");
    r.broadcast("alerts", "storm");
    let hit = WireMsg::Broadcast { channel: s("alerts"), message: s("storm") };
    assert_eq!(r.take_outbound("a"), vec![hit.clone()]);
    assert_eq!(r.take_outbound("b"), vec![hit]);
    assert_eq!(r.take_outbound("c"), vec![]);
}

#[test]
fn broadcast_to_empty_channel_is_noop() {
    let mut r = Registry::new();
    r.register_client_with_id("a");
    r.broadcast("nobody-listens", "hello");
    assert_eq!(r.take_outbound("a"), vec![WireMsg::Uid { uid: s("a") }]);
}

#[test]
fn weather_scenario_full_stream() {
    let mut r = Registry::new();
    r.register_client_with_id("a");
    r.apply_control(&WireMsg::Permission { uid: s("a"), permissions: vec![s("weather")] });
    r.apply_client("a", &WireMsg::Subscribe { channel: s("weather") });
    r.apply_control(&WireMsg::Message { channel: s("weather"), message: s("73F") });
    assert_eq!(
        r.take_outbound("a"),
        vec![
            WireMsg::Uid { uid: s("a") },
            WireMsg::Ready,
            WireMsg::Broadcast { channel: s("weather"), message: s("73F") },
        ]
    );
}

#[test]
fn unpermitted_client_never_receives_broadcasts() {
    let mut r = Registry::new();
    r.register_client_with_id("b");
    r.apply_client("b", &WireMsg::Subscribe { channel: s("weather") });
    r.apply_control(&WireMsg::Message { channel: s("weather"), message: s("73F") });
    assert_eq!(r.take_outbound("b"), vec![WireMsg::Uid { uid: s("b") }]);
}

#[test]
fn disconnected_client_is_skipped_on_broadcast() {
    let mut r = Registry::new();
    r.register_client_with_id("a");
    r.register_client_with_id("b");
    r.grant_permissions("a", &vec![s("alerts")]);
    r.grant_permissions("b", &vec![s("alerts")]);
    r.subscribe("a", "alerts");
    r.subscribe("b", "alerts");
    r.client_disconnect("b");
    assert!(!r.has_client("b"));
    r.take_outbound("a");
    r.broadcast("alerts", "after");
    assert_eq!(
        r.take_outbound("a"),
        vec![WireMsg::Broadcast { channel: s("alerts"), message: s("after") }]
    );
}

#[test]
fn control_frames_other_than_directives_are_ignored() {
    let mut r = Registry::new();
    r.register_client_with_id("a");
    r.take_outbound("a");
    r.apply_control(&WireMsg::Ready);
    r.apply_control(&WireMsg::Uid { uid: s("a") });
    r.apply_control(&WireMsg::Subscribe { channel: s("x") });
    assert_eq!(r.take_outbound("a"), vec![]);
}

#[test]
fn client_frames_other_than_subscribe_are_ignored() {
    let mut r = Registry::new();
    r.register_client_with_id("a");
    r.grant_permissions("a", &vec![s("x")]);
    r.take_outbound("a");
    r.apply_client("a", &WireMsg::Message { channel: s("x"), message: s("m") });
    r.apply_client("a", &WireMsg::Ready);
    r.broadcast("x", "m");
    assert_eq!(r.take_outbound("a"), vec![]);
}

#[test]
fn ports_fall_back_to_defaults() {
    assert_eq!(effective_ports(None, None), (8080, 8081));
    assert_eq!(effective_ports(Some(9000), None), (9000, 8081));
    assert_eq!(effective_ports(None, Some(9001)), (8080, 9001));
}

#[test]
fn logging_choice_follows_config() {
    match choose_logging(Some(s("syslog")), Some(s("my-proc"))) {
        LogChoice::Syslog(name) => assert_eq!(name, "my-proc"),
        LogChoice::Print => panic!("expected syslog"),
    }
    match choose_logging(Some(s("syslog")), None) {
        LogChoice::Syslog(name) => assert_eq!(name, "Ufo-Websocket"),
        LogChoice::Print => panic!("expected syslog"),
    }
    assert!(matches!(choose_logging(Some(s("print")), None), LogChoice::Print));
    assert!(matches!(choose_logging(Some(s("other")), None), LogChoice::Print));
    assert!(matches!(choose_logging(None, None), LogChoice::Print));
}
