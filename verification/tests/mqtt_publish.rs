use zeroclaw_runtime::mqtt_publish::{
    publish_outcome, MqttPublishTool, PublishArgs, PublishStep, MAX_PUBLISHES_PER_MINUTE,
};

fn args(topic: Option<&str>, payload: Option<&str>, retain: Option<bool>) -> PublishArgs {
    PublishArgs {
        topic: topic.map(|s| s.to_string()),
        payload: payload.map(|s| s.to_string()),
        retain,
    }
}

#[test]
fn tool_name_and_schema() {
    let tool = MqttPublishTool::new();
    assert_eq!(tool.name(), "mqtt_publish");
    let schema: serde_json::Value = serde_json::from_str(&tool.parameters_schema()).unwrap();
    assert!(schema["properties"]["topic"].is_object());
    assert!(schema["properties"]["payload"].is_object());
    assert!(schema["properties"]["retain"].is_object());
    assert_eq!(
        schema["required"],
        serde_json::Value::Array(vec![
            serde_json::Value::String("topic".to_string()),
            serde_json::Value::String("payload".to_string()),
        ])
    );
    assert_eq!(schema["properties"]["retain"]["default"], serde_json::Value::Bool(false));
}

#[test]
fn mqtt_publish_publish_noop_when_mqtt_unconfigured() {
    let mut tool = MqttPublishTool::new();
    let a = args(
        Some("zeroclaw/projects/test/milestones/m1/tasks/t1/note"),
        Some("hello"),
        None,
    );
    let req = match tool.prepare_publish(&a, 1_000).unwrap() {
        PublishStep::Publish(req) => req,
        PublishStep::Done(_) => panic!("first publish must not be rate limited"),
    };
    assert!(!req.retain);
    // An unconfigured bus makes the publish a no-op.
    let result = publish_outcome(&req, Ok(false));
    assert!(result.success, "unconfigured publish should succeed (no-op)");
    assert!(result.error.is_none());
    assert!(result.output.contains("no-op"));
}

#[test]
fn publish_with_retain_true() {
    let mut tool = MqttPublishTool::new();
    let a = args(Some("zeroclaw/test/retained"), Some("retained-msg"), Some(true));
    let req = match tool.prepare_publish(&a, 1_000).unwrap() {
        PublishStep::Publish(req) => req,
        PublishStep::Done(_) => panic!("first publish must not be rate limited"),
    };
    // MQTT is unconfigured here too, so the publish is a no-op.
    let result = publish_outcome(&req, Ok(false));
    assert!(result.success);
    assert!(result.output.contains("retain=true"));
}

#[test]
fn missing_topic_returns_error() {
    let mut tool = MqttPublishTool::new();
    let result = tool.prepare_publish(&args(None, Some("hello"), None), 1_000);
    assert!(result.is_err());
    assert!(result.err().unwrap().contains("topic"));
}

#[test]
fn missing_payload_returns_error() {
    let mut tool = MqttPublishTool::new();
    let result = tool.prepare_publish(&args(Some("zeroclaw/test"), None, None), 1_000);
    assert!(result.is_err());
    assert!(result.err().unwrap().contains("payload"));
}

#[test]
fn empty_topic_returns_error() {
    let mut tool = MqttPublishTool::new();
    let result = tool.prepare_publish(&args(Some("  "), Some("hello"), None), 1_000);
    assert!(result.is_err());
    assert!(result.err().unwrap().contains("topic"));
}

#[test]
fn argument_errors_leave_the_rate_window_alone() {
    let mut tool = MqttPublishTool::new();
    let _ = tool.prepare_publish(&args(None, Some("x"), None), 120);
    let w = tool.window();
    assert_eq!((w.minute, w.count), (0, 0));
}

#[test]
fn publish_topic_is_trimmed_and_output_is_exact() {
    let mut tool = MqttPublishTool::new();
    let a = args(Some("  zeroclaw/x \n"), Some(" body "), Some(false));
    let req = match tool.prepare_publish(&a, 60).unwrap() {
        PublishStep::Publish(req) => req,
        PublishStep::Done(_) => panic!("not limited"),
    };
    assert_eq!(req.topic, "zeroclaw/x");
    assert_eq!(req.payload, " body ");
    assert_eq!(
        publish_outcome(&req, Ok(true)).output,
        "published to zeroclaw/x (retain=false)"
    );
    assert_eq!(
        publish_outcome(&req, Ok(false)).output,
        "MQTT is not configured: the message to zeroclaw/x (retain=false) was not delivered; this publish was a no-op"
    );
}

#[test]
fn noop_and_delivery_are_told_apart() {
    let mut tool = MqttPublishTool::new();
    let a = args(Some("t"), Some("p"), Some(true));
    let req = match tool.prepare_publish(&a, 60).unwrap() {
        PublishStep::Publish(req) => req,
        PublishStep::Done(_) => panic!("not limited"),
    };
    let delivered = publish_outcome(&req, Ok(true));
    let noop = publish_outcome(&req, Ok(false));
    assert!(delivered.success && noop.success);
    assert!(delivered.error.is_none() && noop.error.is_none());
    assert_ne!(delivered.output, noop.output);
    assert!(noop.output.contains("not delivered"));
    assert!(!delivered.output.contains("no-op"));
}

#[test]
fn failed_publish_reports_the_error() {
    let mut tool = MqttPublishTool::new();
    let a = args(Some("t"), Some("p"), None);
    let req = match tool.prepare_publish(&a, 60).unwrap() {
        PublishStep::Publish(req) => req,
        PublishStep::Done(_) => panic!("not limited"),
    };
    let result = publish_outcome(&req, Err("connection refused".to_string()));
    assert!(!result.success);
    assert_eq!(result.output, "");
    assert_eq!(result.error.as_deref(), Some("mqtt publish failed: connection refused"));
}

#[test]
fn rate_limited_call_is_reported_without_publishing() {
    let mut tool = MqttPublishTool::new();
    let a = args(Some("t"), Some("p"), None);
    for _ in 0..MAX_PUBLISHES_PER_MINUTE {
        assert!(matches!(tool.prepare_publish(&a, 600).unwrap(), PublishStep::Publish(_)));
    }
    match tool.prepare_publish(&a, 600).unwrap() {
        PublishStep::Done(result) => {
            assert!(!result.success);
            assert_eq!(result.output, "");
            assert_eq!(
                result.error.as_deref(),
                Some("mqtt_publish rate limit exceeded: max 60 publishes per minute (calendar minute 10); retry shortly")
            );
        }
        PublishStep::Publish(_) => panic!("the 61st publish in a minute must be refused"),
    }
}

#[test]
fn rate_limit_allows_up_to_max_in_one_minute() {
    let mut tool = MqttPublishTool::new();
    let minute_secs = 1_000_000 * 60;
    for _ in 0..MAX_PUBLISHES_PER_MINUTE {
        assert!(
            tool.check_rate_limit(minute_secs).is_ok(),
            "publishes up to the limit should be allowed"
        );
    }
    let blocked = tool.check_rate_limit(minute_secs);
    assert!(blocked.is_err());
    assert!(
        blocked.unwrap_err().contains("rate limit exceeded"),
        "over-limit call should report rate limit exceeded"
    );
}

#[test]
fn rate_limit_resets_across_calendar_minutes() {
    let mut tool = MqttPublishTool::new();
    let minute_a = 5_000_000 * 60;
    let minute_b = minute_a + 60;
    for _ in 0..MAX_PUBLISHES_PER_MINUTE {
        assert!(tool.check_rate_limit(minute_a).is_ok());
    }
    assert!(tool.check_rate_limit(minute_a).is_err());
    assert!(
        tool.check_rate_limit(minute_b).is_ok(),
        "a new calendar minute resets the rate-limit window"
    );
}

#[test]
fn rate_limit_rejected_call_does_not_consume_slot() {
    let mut tool = MqttPublishTool::new();
    let minute_a = 7_000_000 * 60;
    for _ in 0..MAX_PUBLISHES_PER_MINUTE {
        assert!(tool.check_rate_limit(minute_a).is_ok());
    }
    for _ in 0..10 {
        assert!(tool.check_rate_limit(minute_a).is_err());
    }
    let minute_b = minute_a + 60;
    for i in 0..MAX_PUBLISHES_PER_MINUTE {
        assert!(
            tool.check_rate_limit(minute_b).is_ok(),
            "call {} in fresh minute B should be allowed",
            i + 1
        );
    }
    assert!(tool.check_rate_limit(minute_b).is_err());
}

#[test]
fn rate_window_counts_and_never_exceeds_limit() {
    let mut tool = MqttPublishTool::default();
    let t = 42 * 60 + 59;
    for _ in 0..100 {
        let _ = tool.check_rate_limit(t);
    }
    let w = tool.window();
    assert_eq!(w.minute, 42);
    assert_eq!(w.count, MAX_PUBLISHES_PER_MINUTE);
    // Seconds within the same minute share the window.
    assert!(tool.check_rate_limit(42 * 60).is_err());
    // Going back to an earlier minute also starts a fresh window.
    assert!(tool.check_rate_limit(41 * 60).is_ok());
    assert_eq!(tool.window().count, 1);
}

#[test]
fn rate_limit_in_minute_zero_counts_from_the_start() {
    let mut tool = MqttPublishTool::new();
    for _ in 0..MAX_PUBLISHES_PER_MINUTE {
        assert!(tool.check_rate_limit(5).is_ok());
    }
    let err = tool.check_rate_limit(5).unwrap_err();
    assert_eq!(
        err,
        "mqtt_publish rate limit exceeded: max 60 publishes per minute (calendar minute 0); retry shortly"
    );
}

#[test]
fn description_mentions_rate_limit() {
    let tool = MqttPublishTool::new();
    assert!(tool.description().contains("60 publishes/minute"));
}
