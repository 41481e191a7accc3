use majordomo::dispatcher::{Dispatcher, Outcome};
use majordomo::refresh::{RefreshCoordinator, RefreshStatus};
use majordomo::registry::{AccessoryDescriptor, Characteristic, RegisterError, Registry};
use majordomo::router::{Direction, Route, RouteError, Router};
use majordomo::session::{backoff_ms, Action, ConnState, Event, Session};
use majordomo::value::{parse_payload, render, Domain, Value};
use majordomo::MqttMessage;

fn on_off(initial: bool) -> Characteristic {
    Characteristic { name: "On".to_string(), domain: Domain::Bool, initial: Value::Bool(initial) }
}

fn brightness() -> Characteristic {
    Characteristic {
        name: "Brightness".to_string(),
        domain: Domain::Int { min: 0, max: 100 },
        initial: Value::Int(0),
    }
}

fn route(topic: &str, device_id: u64, characteristic: &str, direction: Direction) -> Route {
    Route {
        topic: topic.to_string(),
        device_id,
        characteristic: characteristic.to_string(),
        direction,
    }
}

fn msg(topic: &str, payload: &str) -> MqttMessage {
    MqttMessage { topic: topic.to_string(), payload: payload.to_string() }
}

/// Device 3 (a lamp with brightness) at handle 0, device 7 (a light) at handle 1.
fn two_devices() -> Registry {
    let mut reg = Registry::new();
    assert_eq!(
        reg.register(AccessoryDescriptor { id: 3, characteristics: vec![on_off(false), brightness()] }),
        Ok(0)
    );
    assert_eq!(reg.register(AccessoryDescriptor { id: 7, characteristics: vec![on_off(false)] }), Ok(1));
    reg
}

fn two_device_dispatcher() -> Dispatcher {
    let routes = vec![
        route("home/kitchen/lamp", 3, "On", Direction::Both),
        route("home/kitchen/lamp/brightness", 3, "Brightness", Direction::DeviceToBridge),
        route("home/livingroom/light", 7, "On", Direction::DeviceToBridge),
        route("home/livingroom/light/set", 7, "On", Direction::BridgeToDevice),
    ];
    Dispatcher::new(two_devices(), &routes).ok().unwrap()
}

fn on(d: &Dispatcher, id: u64) -> Option<Value> {
    d.value_of(id, &"On".to_string())
}

#[test]
fn single_route_light_turns_on() {
    let mut reg = Registry::new();
    assert_eq!(reg.register(AccessoryDescriptor { id: 7, characteristics: vec![on_off(false)] }), Ok(0));
    assert_eq!(reg.register(AccessoryDescriptor { id: 9, characteristics: vec![on_off(false)] }), Ok(1));
    let routes = vec![route("home/livingroom/light", 7, "On", Direction::DeviceToBridge)];
    let mut d = Dispatcher::new(reg, &routes).ok().unwrap();
    let out = d.dispatch(&msg("home/livingroom/light", "true"));
    assert_eq!(out, Outcome::Applied(0));
    assert_eq!(on(&d, 7), Some(Value::Bool(true)));
    assert_eq!(on(&d, 9), Some(Value::Bool(false)));
    assert_eq!(d.take_notifications(), vec![0]);
    assert_eq!(d.take_notifications(), Vec::<usize>::new());
}

#[test]
fn refresh_times_out_with_one_silent_device() {
    let d = two_device_dispatcher();
    let mut refresh = RefreshCoordinator::new(d.registry().len(), 1000);
    assert!(refresh.report(0));
    assert!(!refresh.report(0));
    assert!(matches!(refresh.poll(999), RefreshStatus::Pending));
    match refresh.poll(1000) {
        RefreshStatus::Incomplete(missing) => assert_eq!(missing, vec![1]),
        _ => panic!("the refresh should end incomplete at the deadline"),
    }
    assert_eq!(on(&d, 7), Some(Value::Bool(false)));
}

#[test]
fn refresh_completes_when_all_report() {
    let mut refresh = RefreshCoordinator::new(2, 1000);
    assert!(matches!(refresh.poll(0), RefreshStatus::Pending));
    assert!(refresh.report(1));
    assert!(matches!(refresh.poll(10), RefreshStatus::Pending));
    assert!(refresh.report(0));
    assert!(matches!(refresh.poll(10), RefreshStatus::Complete));
    assert!(matches!(refresh.poll(5000), RefreshStatus::Complete));
    assert_eq!(refresh.missing_devices(), Vec::<usize>::new());
}

#[test]
fn refresh_of_no_devices_is_complete_at_once() {
    let refresh = RefreshCoordinator::new(0, 1000);
    assert!(matches!(refresh.poll(0), RefreshStatus::Complete));
}

#[test]
fn messages_apply_in_order_last_wins() {
    let mut d = two_device_dispatcher();
    let ms = vec![
        msg("home/livingroom/light", "true"),
        msg("home/kitchen/lamp/brightness", "40"),
        msg("home/livingroom/light", "false"),
        msg("home/kitchen/lamp/brightness", "75"),
        msg("home/livingroom/light", "true"),
    ];
    let outs = d.dispatch_all(&ms);
    assert_eq!(
        outs,
        vec![Outcome::Applied(1), Outcome::Applied(0), Outcome::Applied(1), Outcome::Applied(0), Outcome::Applied(1)]
    );
    assert_eq!(on(&d, 7), Some(Value::Bool(true)));
    assert_eq!(d.value_of(3, &"Brightness".to_string()), Some(Value::Int(75)));
    assert_eq!(on(&d, 3), Some(Value::Bool(false)));
    assert_eq!(d.take_notifications(), vec![1, 0, 1, 0, 1]);
}

#[test]
fn distinct_accessories_do_not_touch_each_other() {
    let mut a = two_device_dispatcher();
    let mut b = two_device_dispatcher();
    let m1 = msg("home/kitchen/lamp", "true");
    let m2 = msg("home/livingroom/light", "true");
    a.dispatch(&m1);
    assert_eq!(on(&a, 7), Some(Value::Bool(false)));
    a.dispatch(&m2);
    b.dispatch(&m2);
    assert_eq!(on(&b, 3), Some(Value::Bool(false)));
    b.dispatch(&m1);
    assert_eq!(on(&a, 3), on(&b, 3));
    assert_eq!(on(&a, 7), on(&b, 7));
    assert_eq!(a.take_notifications(), vec![0, 1]);
    assert_eq!(b.take_notifications(), vec![1, 0]);
}

#[test]
fn malformed_payload_is_dropped_and_next_applies() {
    let mut d = two_device_dispatcher();
    assert_eq!(d.dispatch(&msg("home/livingroom/light", "maybe")), Outcome::Malformed);
    assert_eq!(on(&d, 7), Some(Value::Bool(false)));
    assert_eq!(d.dispatch(&msg("home/livingroom/light", "true")), Outcome::Applied(1));
    assert_eq!(on(&d, 7), Some(Value::Bool(true)));
    assert_eq!(d.dispatch(&msg("home/kitchen/lamp/brightness", "101")), Outcome::Malformed);
    assert_eq!(d.value_of(3, &"Brightness".to_string()), Some(Value::Int(0)));
    assert_eq!(d.take_notifications(), vec![1]);
}

#[test]
fn unrouted_and_outbound_only_topics_are_dropped() {
    let mut d = two_device_dispatcher();
    assert_eq!(d.dispatch(&msg("home/garage/door", "true")), Outcome::Unrouted);
    assert_eq!(d.dispatch(&msg("home/livingroom/light/set", "true")), Outcome::Unrouted);
    assert_eq!(on(&d, 7), Some(Value::Bool(false)));
    assert_eq!(d.take_notifications(), Vec::<usize>::new());
}

#[test]
fn reconnect_restores_subscriptions() {
    let d = two_device_dispatcher();
    let router = d.router();
    let devices = d.registry().len();
    let mut s = Session::new();
    let mut first = Vec::new();
    let mut second = Vec::new();
    for (round, out) in [(0, &mut first), (1, &mut second)] {
        assert!(matches!(s.step(Event::BackoffElapsed, router, devices), Action::Connect));
        match s.step(Event::Connected, router, devices) {
            Action::Subscribe(topics) => out.extend(topics),
            _ => panic!("expected a subscription in round {}", round),
        }
        match s.step(Event::Subscribed, router, devices) {
            Action::RequestRefresh(ds) => assert_eq!(ds, vec![0, 1]),
            _ => panic!("expected refresh requests"),
        }
        assert!(matches!(s.step(Event::Refreshed, router, devices), Action::Idle));
        assert_eq!(s.state(), ConnState::Steady);
        match s.step(Event::IoError, router, devices) {
            Action::Wait(ms) => assert_eq!(ms, 500),
            _ => panic!("expected a backoff"),
        }
        assert_eq!(s.state(), ConnState::Disconnected);
    }
    assert_eq!(
        first,
        vec![
            "home/kitchen/lamp".to_string(),
            "home/kitchen/lamp/brightness".to_string(),
            "home/livingroom/light".to_string(),
        ]
    );
    assert_eq!(first, second);
}

#[test]
fn backoff_doubles_up_to_cap() {
    assert_eq!(backoff_ms(0), 500);
    assert_eq!(backoff_ms(1), 500);
    assert_eq!(backoff_ms(2), 1000);
    assert_eq!(backoff_ms(3), 2000);
    assert_eq!(backoff_ms(7), 32000);
    assert_eq!(backoff_ms(8), 60000);
    assert_eq!(backoff_ms(u32::MAX), 60000);
}

#[test]
fn repeated_failures_grow_the_wait() {
    let reg = Registry::new();
    let router = Router::build(&Vec::new(), &reg).ok().unwrap();
    let mut s = Session::new();
    let mut waits = Vec::new();
    for _ in 0..3 {
        match s.step(Event::IoError, &router, 0) {
            Action::Wait(ms) => waits.push(ms),
            _ => panic!("expected a backoff"),
        }
        assert!(matches!(s.step(Event::BackoffElapsed, &router, 0), Action::Connect));
    }
    assert_eq!(waits, vec![500, 1000, 2000]);
    assert!(matches!(s.step(Event::Connected, &router, 0), Action::Subscribe(_)));
    match s.step(Event::IoError, &router, 0) {
        Action::Wait(ms) => assert_eq!(ms, 500),
        _ => panic!("expected a backoff"),
    }
}

#[test]
fn id_collision_is_refused() {
    let mut reg = two_devices();
    let r = reg.register(AccessoryDescriptor { id: 7, characteristics: vec![on_off(true)] });
    assert_eq!(r, Err(RegisterError::IdCollision));
    assert_eq!(reg.len(), 2);
    assert_eq!(reg.slot_count(), 3);
}

#[test]
fn missing_route_target_is_refused() {
    let routes = vec![
        route("a", 3, "On", Direction::Both),
        route("b", 8, "On", Direction::Both),
        route("a", 7, "On", Direction::Both),
    ];
    assert_eq!(Router::build(&routes, &two_devices()).err(), Some(RouteError::MissingTarget(1)));
    let routes = vec![route("a", 7, "Brightness", Direction::Both)];
    assert_eq!(Router::build(&routes, &two_devices()).err(), Some(RouteError::MissingTarget(0)));
}

#[test]
fn duplicate_topic_is_refused() {
    let routes = vec![
        route("a", 3, "On", Direction::Both),
        route("b", 7, "On", Direction::Both),
        route("a", 7, "On", Direction::Both),
    ];
    assert_eq!(Dispatcher::new(two_devices(), &routes).err(), Some(RouteError::DuplicateTopic(2)));
}

#[test]
fn payloads_parse_against_domain() {
    let full = Domain::Int { min: i64::MIN, max: i64::MAX };
    assert_eq!(parse_payload("true", Domain::Bool), Some(Value::Bool(true)));
    assert_eq!(parse_payload("false", Domain::Bool), Some(Value::Bool(false)));
    assert_eq!(parse_payload("True", Domain::Bool), None);
    assert_eq!(parse_payload(" true", Domain::Bool), None);
    assert_eq!(parse_payload("1", Domain::Bool), None);
    assert_eq!(parse_payload("-42", full), Some(Value::Int(-42)));
    assert_eq!(parse_payload("007", full), Some(Value::Int(7)));
    assert_eq!(parse_payload("9223372036854775807", full), Some(Value::Int(i64::MAX)));
    assert_eq!(parse_payload("9223372036854775808", full), None);
    assert_eq!(parse_payload("-9223372036854775808", full), Some(Value::Int(i64::MIN)));
    assert_eq!(parse_payload("-9223372036854775809", full), None);
    assert_eq!(parse_payload("99999999999999999999999", full), None);
    assert_eq!(parse_payload("", full), None);
    assert_eq!(parse_payload("-", full), None);
    assert_eq!(parse_payload("12a", full), None);
    assert_eq!(parse_payload("true", full), None);
    assert_eq!(parse_payload("50", Domain::Int { min: 0, max: 100 }), Some(Value::Int(50)));
    assert_eq!(parse_payload("-1", Domain::Int { min: 0, max: 100 }), None);
}

#[test]
fn values_render_as_payloads() {
    assert_eq!(render(Value::Bool(true)), "true".to_string());
    assert_eq!(render(Value::Bool(false)), "false".to_string());
    assert_eq!(render(Value::Int(-42)), "-42".to_string());
    assert_eq!(render(Value::Int(0)), "0".to_string());
    assert_eq!(render(Value::Int(i64::MIN)), "-9223372036854775808".to_string());
    let d = Domain::Int { min: i64::MIN, max: i64::MAX };
    assert_eq!(parse_payload(render(Value::Int(1234)).as_str(), d), Some(Value::Int(1234)));
}

#[test]
fn controller_write_publishes_on_outbound_topic() {
    let mut d = two_device_dispatcher();
    let light = d.registry().find_slot(7, &"On".to_string()).unwrap();
    let cmd = d.controller_write(light, Value::Bool(true)).unwrap();
    assert_eq!(cmd.topic, "home/livingroom/light/set");
    assert_eq!(cmd.payload, "true");
    assert_eq!(on(&d, 7), Some(Value::Bool(true)));
    let bright = d.registry().find_slot(3, &"Brightness".to_string()).unwrap();
    assert!(d.controller_write(bright, Value::Int(30)).is_none());
    assert_eq!(d.value_of(3, &"Brightness".to_string()), Some(Value::Int(30)));
    let lamp = d.registry().find_slot(3, &"On".to_string()).unwrap();
    let cmd = d.controller_write(lamp, Value::Bool(false)).unwrap();
    assert_eq!(cmd.topic, "home/kitchen/lamp");
    assert_eq!(cmd.payload, "false");
    assert_eq!(d.take_notifications(), Vec::<usize>::new());
}
