use std::sync::mpsc::channel;

use chidori_core::telemetry::{
    make_new_span_event, parse_execution_id, CustomLayer, ForwardingLayer, TraceEvents,
};
use chidori_core::text::{parse_usize_chars, str_eq, str_to_chars, trim_chars};

#[test]
fn test_parse_execution_id_cases() {
    assert_eq!(parse_execution_id("(1, 2)"), Some((1, 2)));
    assert_eq!(parse_execution_id("3,4"), Some((3, 4)));
    assert_eq!(parse_execution_id("((1, 2))"), Some((1, 2)));
    assert_eq!(parse_execution_id("(1, 2, 3)"), Some((1, 2)));
    assert_eq!(parse_execution_id("(1)"), None);
    assert_eq!(parse_execution_id("(x, 2)"), None);
    assert_eq!(parse_execution_id(""), None);
    assert_eq!(parse_execution_id("( 10 , 20 )"), Some((10, 20)));
}

#[test]
fn test_parse_usize_chars_cases() {
    assert_eq!(parse_usize_chars(&str_to_chars("42")), Some(42));
    assert_eq!(parse_usize_chars(&str_to_chars("+42")), Some(42));
    assert_eq!(parse_usize_chars(&str_to_chars("")), None);
    assert_eq!(parse_usize_chars(&str_to_chars("+")), None);
    assert_eq!(parse_usize_chars(&str_to_chars("4x2")), None);
    assert_eq!(parse_usize_chars(&str_to_chars("0")), Some(0));
    assert_eq!(
        parse_usize_chars(&str_to_chars("999999999999999999999999999999999999999")),
        None
    );
}

#[test]
fn test_trim_and_str_eq() {
    let trimmed = trim_chars(&str_to_chars("  \t hello world \r\n"));
    let trimmed: String = trimmed.into_iter().collect();
    assert_eq!(trimmed, "hello world");
    assert!(str_eq("abc", "abc"));
    assert!(!str_eq("abc", "abd"));
    assert!(!str_eq("abc", "ab"));
}

#[test]
fn test_make_new_span_event() {
    let event = make_new_span_event(
        "Id(1)".to_string(),
        77,
        "span_name".to_string(),
        "target".to_string(),
        "file.rs".to_string(),
        "12".to_string(),
        Some("(7, 8)"),
    );
    match event {
        TraceEvents::NewSpan { id, weight, name, target, location, line, execution_id } => {
            assert_eq!(id, "Id(1)");
            assert_eq!(weight, 77);
            assert_eq!(name, "span_name");
            assert_eq!(target, "target");
            assert_eq!(location, "file.rs");
            assert_eq!(line, "12");
            assert_eq!(execution_id, Some((7, 8)));
        },
        _ => panic!("expected a new-span event"),
    }

    let event = make_new_span_event(
        "i".to_string(),
        0,
        "n".to_string(),
        "t".to_string(),
        "l".to_string(),
        "1".to_string(),
        None,
    );
    match event {
        TraceEvents::NewSpan { execution_id, .. } => assert_eq!(execution_id, None),
        _ => panic!("expected a new-span event"),
    }
}

#[test]
fn test_custom_layer_sends_events() {
    let (sender, receiver) = channel();
    let layer = CustomLayer::new(sender);
    assert!(layer.record_enter("Id(3)".to_string()));
    assert!(layer.record_exit("Id(3)".to_string()));
    assert!(layer.record_record());
    assert!(layer.record_event());
    assert!(layer.record_close("Id(3)".to_string()));

    assert_eq!(receiver.recv().unwrap(), TraceEvents::Enter("Id(3)".to_string()));
    assert_eq!(receiver.recv().unwrap(), TraceEvents::Exit("Id(3)".to_string()));
    assert_eq!(receiver.recv().unwrap(), TraceEvents::Record);
    assert_eq!(receiver.recv().unwrap(), TraceEvents::Event);
    match receiver.recv().unwrap() {
        TraceEvents::Close(id, _) => assert_eq!(id, "Id(3)"),
        other => panic!("expected a close event, got {:?}", other),
    }
}

#[test]
fn test_custom_layer_send_fails_without_receiver() {
    let (sender, receiver) = channel();
    let layer = CustomLayer::new(sender);
    drop(receiver);
    assert!(!layer.record_record());
}

#[test]
fn test_custom_layer_records_new_span() {
    let (sender, receiver) = channel();
    let layer = CustomLayer::new(sender);
    assert!(layer.record_new_span(
        "Id(9)".to_string(),
        "step".to_string(),
        "engine".to_string(),
        "state.rs".to_string(),
        "42".to_string(),
        Some("(0, 1)"),
    ));
    match receiver.recv().unwrap() {
        TraceEvents::NewSpan { id, name, execution_id, .. } => {
            assert_eq!(id, "Id(9)");
            assert_eq!(name, "step");
            assert_eq!(execution_id, Some((0, 1)));
        },
        other => panic!("expected a new-span event, got {:?}", other),
    }
}

#[test]
fn test_forwarding_layer_wraps_inner() {
    let layer = ForwardingLayer::new(5usize);
    assert_eq!(*layer.inner_ref(), 5);
}
