use tally_terminal::color::{CurrentStatus, NamedColor, Rgb};
use tally_terminal::errors::TallyError;
use tally_terminal::event_bus::{EventBus, RecvResult};
use tally_terminal::feedback::{feedback_for, FeedbackState};
use tally_terminal::hardware::{create_hotspot, Hotspot};
use tally_terminal::hotspot::{tool_result, NMHotspot};
use tally_terminal::id_store::IngestOutcome;
use tally_terminal::idle_watcher::IdleWatcher;
use tally_terminal::mock::MockHotspot;
use tally_terminal::tally_id::TallyID;

#[test]
fn steady_pulses_never_trigger_idle() {
    // idle duration 100 ms, pulses every 50 ms for 500 ms
    let mut watcher = IdleWatcher::new(100, 0);
    let mut fired = 0u32;
    let mut t: u64 = 0;
    while t <= 500 {
        if t % 50 == 0 {
            watcher.pulse(t);
        }
        if watcher.check(t) {
            fired += 1;
        }
        t += 10;
    }
    assert_eq!(fired, 0);
}

#[test]
fn withheld_pulses_trigger_exactly_once() {
    let mut watcher = IdleWatcher::new(100, 0);
    watcher.pulse(500);
    let mut fired = 0u32;
    let mut t: u64 = 500;
    while t <= 650 {
        if watcher.check(t) {
            fired += 1;
        }
        t += 10;
    }
    // fires once when the 100 ms window elapses, then stays quiet within
    // the rearmed window
    assert_eq!(fired, 1);
    // pulsing resumes the no-trigger behaviour
    watcher.pulse(660);
    assert!(!watcher.check(700));
    assert!(!watcher.check(755));
}

#[test]
fn bus_delivers_in_publication_order() {
    let mut bus = EventBus::new(8);
    let mut sub = bus.subscribe();
    bus.publish(TallyID("AA".to_owned()));
    bus.publish(TallyID("BB".to_owned()));
    match bus.poll(&mut sub) {
        RecvResult::Message(id) => assert_eq!(id.0, "AA"),
        _ => panic!("expected a message"),
    }
    match bus.poll(&mut sub) {
        RecvResult::Message(id) => assert_eq!(id.0, "BB"),
        _ => panic!("expected a message"),
    }
    assert!(matches!(bus.poll(&mut sub), RecvResult::Empty));
}

#[test]
fn slow_subscriber_is_told_about_the_gap() {
    let mut bus = EventBus::new(2);
    let mut sub = bus.subscribe();
    bus.publish(TallyID("AA".to_owned()));
    bus.publish(TallyID("BB".to_owned()));
    bus.publish(TallyID("CC".to_owned()));
    match bus.poll(&mut sub) {
        RecvResult::Lagged(skipped) => assert_eq!(skipped, 1),
        _ => panic!("expected a lag notice"),
    }
    match bus.poll(&mut sub) {
        RecvResult::Message(id) => assert_eq!(id.0, "BB"),
        _ => panic!("expected a message"),
    }
    match bus.poll(&mut sub) {
        RecvResult::Message(id) => assert_eq!(id.0, "CC"),
        _ => panic!("expected a message"),
    }
    assert!(matches!(bus.poll(&mut sub), RecvResult::Empty));
}

#[test]
fn late_subscriber_sees_only_new_events() {
    let mut bus = EventBus::new(4);
    bus.publish(TallyID("AA".to_owned()));
    let mut sub = bus.subscribe();
    assert!(matches!(bus.poll(&mut sub), RecvResult::Empty));
    bus.publish(TallyID("BB".to_owned()));
    match bus.poll(&mut sub) {
        RecvResult::Message(id) => assert_eq!(id.0, "BB"),
        _ => panic!("expected a message"),
    }
}

#[test]
fn short_password_fails_validation_before_any_command() {
    let r = create_hotspot("fwa".to_owned(), "12345".to_owned());
    assert!(matches!(r, Err(TallyError::ValidationError)));
}

#[test]
fn valid_password_builds_the_controller() {
    let hotspot = create_hotspot("fwa".to_owned(), "longenough".to_owned()).unwrap();
    let exists = hotspot.exists_command();
    assert_eq!(exists, vec!["nmcli", "connection", "show", "fwa-hotspot"]);
    let up = hotspot.up_command();
    assert_eq!(up, vec!["nmcli", "connection", "up", "fwa-hotspot"]);
    let down = hotspot.down_command();
    assert_eq!(down, vec!["nmcli", "connection", "down", "fwa-hotspot"]);
}

#[test]
fn enable_creates_profile_only_when_missing() {
    let hotspot = NMHotspot::new(
        "fwa".to_owned(),
        "fwa-hotspot".to_owned(),
        "longenough".to_owned(),
        "192.168.4.1/24".to_owned(),
    )
    .unwrap();
    let when_present = hotspot.enable_commands(true);
    assert_eq!(when_present.len(), 1);
    assert_eq!(when_present[0][2], "up");
    let when_missing = hotspot.enable_commands(false);
    assert_eq!(when_missing.len(), 3);
    assert_eq!(
        when_missing[0],
        vec![
            "nmcli",
            "device",
            "wifi",
            "hotspot",
            "con-name",
            "fwa-hotspot",
            "ssid",
            "fwa",
            "password",
            "longenough"
        ]
    );
    assert_eq!(
        when_missing[1],
        vec![
            "nmcli",
            "connection",
            "modify",
            "fwa-hotspot",
            "ipv4.method",
            "shared",
            "ipv4.addresses",
            "192.168.4.1/24"
        ]
    );
    assert_eq!(when_missing[2][2], "up");
}

#[test]
fn tool_exit_status_is_interpreted() {
    assert!(tool_result(true, String::new(), String::new()).is_ok());
    match tool_result(false, "out".to_owned(), "err".to_owned()) {
        Err(TallyError::ExternalToolError { stdout, stderr }) => {
            assert_eq!(stdout, "out");
            assert_eq!(stderr, "err");
        }
        _ => panic!("expected an external tool error"),
    }
}

#[test]
fn mock_hotspot_always_succeeds() {
    let mut mock = MockHotspot {};
    assert!(mock.enable_hotspot().is_ok());
    assert!(mock.disable_hotspot().is_ok());
}

#[test]
fn feedback_reflects_outcomes() {
    assert_eq!(feedback_for(IngestOutcome::Accepted), FeedbackState::Ack);
    assert_eq!(feedback_for(IngestOutcome::Duplicate), FeedbackState::Nack);
    assert_eq!(
        feedback_for(IngestOutcome::PersistFailed),
        FeedbackState::Error
    );
}

#[test]
fn named_colors_render() {
    assert_eq!(NamedColor::Green.rgb(), Rgb { r: 0, g: 150, b: 0 });
    assert_eq!(NamedColor::Off.rgb(), Rgb { r: 0, g: 0, b: 0 });
    assert_eq!(CurrentStatus::Ready.color(), Rgb { r: 0, g: 50, b: 0 });
    assert_eq!(CurrentStatus::Hotspot.color(), Rgb { r: 0, g: 0, b: 50 });
}
