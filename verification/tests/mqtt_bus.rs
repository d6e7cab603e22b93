use zeroclaw_runtime::mqtt_bus::{
    broker_host, broker_port, plan_publisher_init, publisher_settings, topic_for,
    MqttChannelConfig, PublisherInit,
};

#[test]
fn topic_for_sanitizes_segments() {
    // Basic: lowercase + illegal chars replaced
    assert_eq!(
        topic_for(&["projects", "Foo Bar/Baz"]),
        "zeroclaw/projects/foo_bar_baz"
    );
    // Empty parts -> just the prefix
    assert_eq!(topic_for(&[]), "zeroclaw/");
    // Wildcards replaced
    assert_eq!(
        topic_for(&["swarm", "test+topic", "deep#path"]),
        "zeroclaw/swarm/test_topic/deep_path"
    );
    // Multiple segments joined
    assert_eq!(
        topic_for(&["projects", "debops", "milestones", "m1", "tasks", "t1"]),
        "zeroclaw/projects/debops/milestones/m1/tasks/t1"
    );
    // Control chars replaced
    assert_eq!(topic_for(&["test", "seg\tment"]), "zeroclaw/test/seg_ment");
}

#[test]
fn topic_for_replaces_control_and_delete_chars() {
    assert_eq!(topic_for(&["a\u{1}b\u{7f}c\r\n"]), "zeroclaw/a_b_c__");
    // Non-ASCII letters are kept as they are; only ASCII is lower-cased.
    assert_eq!(topic_for(&["ÄbC"]), "zeroclaw/Äbc");
}

#[test]
fn topic_levels_are_the_sanitized_parts() {
    let parts = ["Swarm", "a/b", "c+d#e"];
    let topic = topic_for(&parts);
    let levels: Vec<&str> = topic.split('/').collect();
    assert_eq!(levels, vec!["zeroclaw", "swarm", "a_b", "c_d_e"]);
    assert!(!topic.contains('+') && !topic.contains('#'));
}

#[test]
fn topic_for_empty_segment_keeps_its_level() {
    assert_eq!(topic_for(&["", "x"]), "zeroclaw//x");
}

#[test]
fn broker_host_and_port_from_urls() {
    assert_eq!(broker_host("mqtt://broker.local:1884"), "broker.local");
    assert_eq!(broker_port("mqtt://broker.local:1884"), 1884);
    assert_eq!(broker_host("mqtts://secure.example:9999"), "secure.example");
    assert_eq!(broker_port("mqtts://secure.example:9999"), 9999);
}

#[test]
fn broker_port_defaults_by_scheme() {
    assert_eq!(broker_port("mqtt://localhost"), 1883);
    assert_eq!(broker_port("mqtts://localhost"), 8883);
    assert_eq!(broker_port("localhost:notaport"), 1883);
    assert_eq!(broker_port("mqtts://host:70000"), 8883);
    assert_eq!(broker_port("mqtt://host:+42"), 42);
    assert_eq!(broker_port("mqtt://host:"), 1883);
    assert_eq!(broker_port("mqtts://h:abc"), 8883);
    assert_eq!(broker_port("mqtt://h:70000"), 1883);
}

#[test]
fn broker_port_ignores_a_numeric_host_without_port() {
    assert_eq!(broker_port("mqtt://1234"), 1883);
    assert_eq!(broker_port("mqtts://1234"), 8883);
    assert_eq!(broker_port("1234"), 1883);
    assert_eq!(broker_host("mqtt://1234"), "1234");
}

#[test]
fn broker_host_without_scheme_or_port() {
    assert_eq!(broker_host("localhost"), "localhost");
    assert_eq!(broker_host("tcp://x:1"), "tcp");
    assert_eq!(broker_host(""), "");
}

fn channel(enabled: bool, url: &str, id: &str) -> MqttChannelConfig {
    MqttChannelConfig {
        enabled,
        broker_url: url.to_string(),
        client_id: id.to_string(),
        username: None,
        password: None,
        use_tls: false,
        keep_alive_secs: 30,
    }
}

#[test]
fn publisher_uses_first_enabled_channel() {
    let chans = vec![
        channel(false, "mqtt://a:1", "a"),
        channel(true, "mqtts://b:2", "b"),
        channel(true, "mqtt://c:3", "c"),
    ];
    match plan_publisher_init(false, &chans) {
        PublisherInit::Connect(s) => {
            assert_eq!(s.client_id, "b-pub");
            assert_eq!(s.host, "b");
            assert_eq!(s.port, 2);
            assert_eq!(s.keep_alive_secs, 30);
            assert!(s.credentials.is_none());
        }
        _ => panic!("expected a connection plan"),
    }
}

#[test]
fn publisher_init_is_noop_without_enabled_channel_or_when_initialized() {
    let chans = vec![channel(false, "mqtt://a:1", "a")];
    assert!(matches!(plan_publisher_init(false, &chans), PublisherInit::NoEnabledChannel));
    assert!(matches!(plan_publisher_init(false, &[]), PublisherInit::NoEnabledChannel));
    let enabled = vec![channel(true, "mqtt://a:1", "a")];
    assert!(matches!(plan_publisher_init(true, &enabled), PublisherInit::AlreadyInitialized));
}

#[test]
fn publisher_credentials_need_user_and_password() {
    let mut c = channel(true, "mqtt://h:1", "id");
    c.username = Some("user".to_string());
    assert!(publisher_settings(&c).credentials.is_none());
    c.password = Some("pass".to_string());
    assert_eq!(
        publisher_settings(&c).credentials,
        Some(("user".to_string(), "pass".to_string()))
    );
}
