use cctl_api::listener::parse_frame;
use cctl_api::listener::step;
use cctl_api::listener::ListenerAction;
use cctl_api::listener::ListenerEvent;
use cctl_api::listener::ListenerState;
use cctl_api::text::contains_substring;
use cctl_api::text::i32_to_string;
use cctl_api::text::join_with_spaces;
use cctl_api::text::split_lines;
use cctl_api::text::u64_to_string;

#[test]
fn listener_happy_path_transitions() {
    let (s, a) = step(ListenerState::Idle, ListenerEvent::StartRequested);
    assert_eq!(s, ListenerState::Connecting);
    assert_eq!(a, ListenerAction::Connect);
    let (s, a) = step(s, ListenerEvent::ConnectSucceeded);
    assert_eq!(s, ListenerState::Streaming);
    assert_eq!(a, ListenerAction::Read);
    let (s, a) = step(s, ListenerEvent::FrameArrived);
    assert_eq!(s, ListenerState::Streaming);
    assert_eq!(a, ListenerAction::Read);
}

#[test]
fn listener_failures_reconnect_never_terminate() {
    let (s, a) = step(ListenerState::Connecting, ListenerEvent::ConnectFailed);
    assert_eq!(s, ListenerState::Reconnecting);
    assert_eq!(a, ListenerAction::Backoff);
    let (s, a) = step(ListenerState::Streaming, ListenerEvent::StreamClosed);
    assert_eq!(s, ListenerState::Reconnecting);
    assert_eq!(a, ListenerAction::Backoff);
    let (s, a) = step(ListenerState::Reconnecting, ListenerEvent::BackoffElapsed);
    assert_eq!(s, ListenerState::Connecting);
    assert_eq!(a, ListenerAction::Connect);
}

#[test]
fn listener_cancel_terminates_and_is_idempotent() {
    let (s, a) = step(ListenerState::Streaming, ListenerEvent::CancelObserved);
    assert_eq!(s, ListenerState::Terminated);
    assert_eq!(a, ListenerAction::Close);
    let (s, a) = step(s, ListenerEvent::CancelObserved);
    assert_eq!(s, ListenerState::Terminated);
    assert_eq!(a, ListenerAction::Stay);
    let (s, a) = step(ListenerState::Terminated, ListenerEvent::FrameArrived);
    assert_eq!(s, ListenerState::Terminated);
    assert_eq!(a, ListenerAction::Stay);
}

#[test]
fn parse_frame_single_data_line() {
    let lines = vec!["data: hello".to_string(), "event: deploy".to_string()];
    assert_eq!(parse_frame(&lines), Some("hello".to_string()));
}

#[test]
fn parse_frame_joins_data_lines_in_order() {
    let lines = vec![
        "data: first".to_string(),
        "id: 7".to_string(),
        "data: second".to_string(),
    ];
    assert_eq!(parse_frame(&lines), Some("first\nsecond".to_string()));
}

#[test]
fn parse_frame_without_data_is_skipped() {
    let lines = vec!["event: ping".to_string(), ": comment".to_string()];
    assert_eq!(parse_frame(&lines), None);
    assert_eq!(parse_frame(&Vec::new()), None);
}

#[test]
fn parse_frame_strips_one_leading_space_only() {
    assert_eq!(parse_frame(&vec!["data:nospace".to_string()]), Some("nospace".to_string()));
    assert_eq!(parse_frame(&vec!["data:  two".to_string()]), Some(" two".to_string()));
    assert_eq!(parse_frame(&vec!["data:".to_string()]), Some("".to_string()));
}

#[test]
fn split_lines_matches_line_convention() {
    let lines = split_lines("a\nb\r\nc\n");
    assert_eq!(lines, vec!["a".to_string(), "b".to_string(), "c".to_string()]);
    assert_eq!(split_lines(""), Vec::<String>::new());
    assert_eq!(split_lines("x\r"), vec!["x\r".to_string()]);
    assert_eq!(split_lines("\n\n"), vec!["".to_string(), "".to_string()]);
}

#[test]
fn substring_search_is_literal_and_case_sensitive() {
    assert!(contains_substring("deploy finished", "deploy"));
    assert!(contains_substring("abc", ""));
    assert!(!contains_substring("abc", "abcd"));
    assert!(!contains_substring("Deploy", "deploy"));
}

#[test]
fn decimal_rendering() {
    assert_eq!(u64_to_string(0), "0");
    assert_eq!(u64_to_string(1200), "1200");
    assert_eq!(i32_to_string(-45), "-45");
    assert_eq!(i32_to_string(i32::MIN), "-2147483648");
}

#[test]
fn join_with_spaces_matches_join() {
    let items = vec!["a".to_string(), "bb".to_string(), "c".to_string()];
    assert_eq!(join_with_spaces(&items), "a bb c");
    assert_eq!(join_with_spaces(&Vec::new()), "");
}
