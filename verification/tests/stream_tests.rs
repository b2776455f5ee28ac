use backend::message::{decode_message, StreamMessage};
use backend::models::RequestFields;
use backend::session::{start_stream, Session};
use backend::worker::{classify_event, ServiceEvent};

fn full_fields(prompt: &str) -> RequestFields {
    RequestFields {
        api_key: Some("k".to_string()),
        api_base: Some("http://127.0.0.1:9999/v1".to_string()),
        model: Some("m".to_string()),
        max_tokens: Some(1024),
        prompt: Some(prompt.to_string()),
    }
}

fn token(text: &str) -> ServiceEvent {
    ServiceEvent::Unit { finish_stop: false, content: Some(text.to_string()) }
}

fn stop() -> ServiceEvent {
    ServiceEvent::Unit { finish_stop: true, content: None }
}

fn drain(session: &mut Session) -> Vec<String> {
    let mut out = Vec::new();
    while let Some(arg) = session.dispatch_step() {
        out.push(arg);
    }
    out
}

#[test]
fn scenario_two_chunks_then_stop() {
    let (mut session, req) = start_stream(full_fields("hi")).unwrap();
    assert_eq!(req.prompt, "hi");
    session.worker_run(vec![token("He"), token("llo"), stop()]);
    assert_eq!(drain(&mut session), vec!["He", "llo", "[[DONE]]"]);
    assert_eq!(session.dispatch_step(), None);
}

#[test]
fn scenario_immediate_connection_failure() {
    let (mut session, _req) = start_stream(full_fields("hi")).unwrap();
    session.worker_run(vec![ServiceEvent::Failure("connection refused".to_string())]);
    assert_eq!(drain(&mut session), vec!["Error: connection refused"]);
    assert_eq!(session.dispatch_step(), None);
}

#[test]
fn scenario_missing_model_rejected_synchronously() {
    let mut fields = full_fields("hi");
    fields.model = None;
    assert!(start_stream(fields).is_err());
}

#[test]
fn missing_any_field_is_rejected() {
    for omitted in 0..5 {
        let mut fields = full_fields("p");
        match omitted {
            0 => fields.api_key = None,
            1 => fields.api_base = None,
            2 => fields.model = None,
            3 => fields.max_tokens = None,
            _ => fields.prompt = None,
        }
        assert!(start_stream(fields).is_err());
    }
}

#[test]
fn no_delivery_before_worker_runs() {
    let (mut session, _req) = start_stream(full_fields("hi")).unwrap();
    assert_eq!(session.dispatch_step(), None);
}

#[test]
fn delivery_keeps_service_order() {
    let (mut session, _req) = start_stream(full_fields("hi")).unwrap();
    session.worker_run(vec![token("a"), token("b"), token("c"), stop()]);
    assert_eq!(drain(&mut session), vec!["a", "b", "c", "[[DONE]]"]);
}

#[test]
fn flooded_pushes_are_neither_dropped_nor_reordered() {
    let (mut session, _req) = start_stream(full_fields("hi")).unwrap();
    let mut events = Vec::new();
    for i in 0..500 {
        events.push(token(&format!("chunk-{i}")));
    }
    events.push(stop());
    session.worker_run(events);
    let delivered = drain(&mut session);
    assert_eq!(delivered.len(), 501);
    for (i, arg) in delivered.iter().take(500).enumerate() {
        assert_eq!(arg, &format!("chunk-{i}"));
    }
    assert_eq!(delivered[500], "[[DONE]]");
}

#[test]
fn concurrent_sessions_never_cross_deliver() {
    let (mut first, _) = start_stream(full_fields("one")).unwrap();
    let (mut second, _) = start_stream(full_fields("two")).unwrap();
    first.worker_event(token("a1"));
    second.worker_event(token("b1"));
    first.worker_event(token("a2"));
    assert_eq!(first.dispatch_step(), Some("a1".to_string()));
    assert_eq!(second.dispatch_step(), Some("b1".to_string()));
    second.worker_event(stop());
    first.worker_event(stop());
    assert_eq!(drain(&mut first), vec!["a2", "[[DONE]]"]);
    assert_eq!(drain(&mut second), vec!["[[DONE]]"]);
}

#[test]
fn units_after_stop_are_never_read() {
    let (mut session, _req) = start_stream(full_fields("hi")).unwrap();
    session.worker_run(vec![token("a"), stop(), token("late")]);
    assert_eq!(drain(&mut session), vec!["a", "[[DONE]]"]);
}

#[test]
fn events_after_failure_are_never_read() {
    let (mut session, _req) = start_stream(full_fields("hi")).unwrap();
    session.worker_run(vec![ServiceEvent::Failure("boom".to_string()), token("late")]);
    assert_eq!(drain(&mut session), vec!["Error: boom"]);
}

#[test]
fn empty_or_absent_content_pushes_nothing() {
    let (mut session, _req) = start_stream(full_fields("hi")).unwrap();
    session.worker_run(vec![
        ServiceEvent::Unit { finish_stop: false, content: Some(String::new()) },
        ServiceEvent::Unit { finish_stop: false, content: None },
        token("real"),
        stop(),
    ]);
    assert_eq!(drain(&mut session), vec!["real", "[[DONE]]"]);
}

#[test]
fn silent_stream_closure_delivers_no_terminal() {
    let (mut session, _req) = start_stream(full_fields("hi")).unwrap();
    session.worker_run(vec![token("a"), token("b")]);
    assert_eq!(drain(&mut session), vec!["a", "b"]);
    assert_eq!(session.dispatch_step(), None);
}

#[test]
fn classify_maps_each_event_kind() {
    let (msg, terminal) = classify_event(stop());
    assert!(matches!(msg, Some(StreamMessage::Done)));
    assert!(terminal);

    let (msg, terminal) = classify_event(token("x"));
    assert!(matches!(msg, Some(StreamMessage::Token(t)) if t == "x"));
    assert!(!terminal);

    let (msg, terminal) =
        classify_event(ServiceEvent::Unit { finish_stop: false, content: None });
    assert!(msg.is_none());
    assert!(!terminal);

    let (msg, terminal) = classify_event(ServiceEvent::Failure("why".to_string()));
    assert!(matches!(msg, Some(StreamMessage::Error(d)) if d == "why"));
    assert!(terminal);
}

#[test]
fn stop_with_buffered_content_only_completes() {
    let (mut session, _req) = start_stream(full_fields("hi")).unwrap();
    session.worker_run(vec![ServiceEvent::Unit {
        finish_stop: true,
        content: Some("ignored".to_string()),
    }]);
    assert_eq!(drain(&mut session), vec!["[[DONE]]"]);
}

#[test]
fn decode_rule_for_each_message() {
    assert_eq!(decode_message(&StreamMessage::Token("text".to_string())), "text");
    assert_eq!(decode_message(&StreamMessage::Done), "[[DONE]]");
    assert_eq!(
        decode_message(&StreamMessage::Error("no route".to_string())),
        "Error: no route"
    );
}
