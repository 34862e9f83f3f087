//! Frames, hints, message numbers and error documents.
use ds_core::chat::frame::{blocks, field, has_event, split_two_events, take_frame};
use ds_core::chat::reply::{
    check_hint, error_of_code, error_of_hint, hint_to_error, message_ids, parse_json_error,
    parse_ready_message_ids,
};
use ds_core::error::CoreError;
use ds_core::json::parse;
use ds_core::text::{chars_of, string_of};

const TOO_LONG: &str = "输入内容超长，请缩短后重试";

fn provider(e: CoreError) -> String {
    match e {
        CoreError::ProviderError(m) => m,
        other => panic!("{:?}", other),
    }
}

fn stream(e: CoreError) -> String {
    match e {
        CoreError::Stream(m) => m,
        other => panic!("{:?}", other),
    }
}

#[test]
fn frames_are_taken_one_by_one() {
    let mut buf = b"event: a\ndata: 1\n\ndata: 2\n\nrest".to_vec();
    assert_eq!(take_frame(&mut buf).unwrap(), "event: a\ndata: 1");
    assert_eq!(take_frame(&mut buf).unwrap(), "data: 2");
    assert!(take_frame(&mut buf).is_none());
    assert_eq!(buf, b"rest".to_vec());
}

#[test]
fn a_frame_may_be_empty() {
    let mut buf = b"\n\n\n\n\n".to_vec();
    assert_eq!(take_frame(&mut buf).unwrap(), "");
    assert_eq!(take_frame(&mut buf).unwrap(), "");
    assert!(take_frame(&mut buf).is_none());
    assert_eq!(buf, b"\n".to_vec());
    let mut empty: Vec<u8> = Vec::new();
    assert!(take_frame(&mut empty).is_none());
}

#[test]
fn bytes_that_are_no_text_are_replaced() {
    let mut buf = b"a\xffb\n\n".to_vec();
    assert_eq!(take_frame(&mut buf).unwrap(), "a\u{fffd}b");
    let mut chinese = "中文\n\n".as_bytes().to_vec();
    assert_eq!(take_frame(&mut chinese).unwrap(), "中文");
}

#[test]
fn blocks_agree_with_split() {
    for s in ["", "a", "a\n\nb", "a\n\n", "\n\n\n", "a\n\n\n\nb\n\n", "\n\n\n\n"] {
        let chars = chars_of(s);
        let got: Vec<String> = blocks(chars.as_slice()).iter().map(|b| string_of(b)).collect();
        let want: Vec<&str> = s.split("\n\n").collect();
        assert_eq!(got, want, "{:?}", s);
    }
}

#[test]
fn two_events_need_two_blank_lines() {
    assert_eq!(split_two_events("a\n\nb\n\n"), Some(("a", "b")));
    assert_eq!(split_two_events("甲\n\n乙\n\n丙\n\n丁"), Some(("甲", "乙")));
    assert_eq!(split_two_events("a\n\nb"), None);
    assert_eq!(split_two_events(""), None);
    assert_eq!(split_two_events("\n\n\n\n"), Some(("", "")));
}

#[test]
fn fields_are_read_from_the_first_line_that_has_them() {
    let chars = chars_of("  event:  ready \r\ndata:{\"a\":1}\ndata: 2\n");
    assert_eq!(string_of(field(chars.as_slice(), "event:").unwrap()), "ready");
    assert_eq!(string_of(field(chars.as_slice(), "data:").unwrap()), "{\"a\":1}");
    assert!(field(chars.as_slice(), "id:").is_none());
}

#[test]
fn any_line_may_name_an_event() {
    let chars = chars_of("event: first\n event:second");
    assert!(has_event(chars.as_slice(), "first"));
    assert!(has_event(chars.as_slice(), "second"));
    assert!(!has_event(chars.as_slice(), "sec"));
    assert!(!has_event(&chars_of("data: event: first"), "first"));
}

#[test]
fn hints_that_report_an_error() {
    assert!(matches!(
        check_hint("event: hint\ndata: {\"content\":\"rate_limit_reached\"}"),
        Some(CoreError::Overloaded)
    ));
    let long = check_hint("event: hint\ndata: {\"finish_reason\":\"input_exceeds_limit\"}");
    assert_eq!(provider(long.unwrap()), TOO_LONG);
    assert!(check_hint("event: hint\ndata: {\"content\":\"hello\"}").is_none());
    assert!(check_hint("event: ready\ndata: rate_limit").is_none());
    assert!(matches!(
        check_hint("event: hint\ndata: rate_limit input_exceeds_limit"),
        Some(CoreError::Overloaded)
    ));
}

#[test]
fn hint_data_becomes_an_error() {
    assert!(matches!(hint_to_error("{\"content\":\"a rate_limit b\"}"), CoreError::Overloaded));
    assert_eq!(
        provider(hint_to_error("{\"finish_reason\":\"input_exceeds_limit\"}")),
        TOO_LONG
    );
    assert_eq!(provider(hint_to_error("{\"content\":\"维护中\"}")), "hint: 维护中");
    assert_eq!(
        provider(hint_to_error("{\"content\":\"x\",\"finish_reason\":\"rate_limit\"}")),
        "hint: x"
    );
    assert_eq!(provider(hint_to_error("{\"content\":5}")), "hint: (unknown)");
    assert_eq!(
        provider(hint_to_error("{\"content\":5,\"finish_reason\":\"rate_limit\"}")),
        "hint: (unknown)"
    );
    assert_eq!(provider(hint_to_error("{}")), "hint: (unknown)");
    assert_eq!(provider(hint_to_error("not a document")), "hint: (unknown)");
}

#[test]
fn a_parsed_hint_becomes_an_error() {
    let hint = parse("{\"finish_reason\":\"other\"}").unwrap();
    assert_eq!(provider(error_of_hint(&hint)), "hint: other");
}

#[test]
fn message_numbers_of_a_ready_event() {
    let ready = b"event: ready\ndata: {\"request_message_id\":3,\"response_message_id\":4}\n";
    assert_eq!(parse_ready_message_ids(ready), (3, 4));
}

#[test]
fn message_numbers_have_a_default() {
    assert_eq!(parse_ready_message_ids(b""), (1, 2));
    assert_eq!(parse_ready_message_ids(b"data: {\"request_message_id\":3}"), (1, 2));
    assert_eq!(
        parse_ready_message_ids(
            b"data:{\"request_message_id\":3,\"response_message_id\":4}"
        ),
        (1, 2)
    );
    assert_eq!(
        parse_ready_message_ids(
            b"\xff\ndata: {\"request_message_id\":3,\"response_message_id\":4}"
        ),
        (1, 2)
    );
}

#[test]
fn the_first_line_with_message_numbers_counts() {
    let text = "data: 中文\ndata: {\"request_message_id\":-5,\"response_message_id\":6}\n\
                data: {\"request_message_id\":7,\"response_message_id\":8}";
    assert_eq!(parse_ready_message_ids(text.as_bytes()), (-5, 6));
    let doc = parse("{\"request_message_id\":1.5,\"response_message_id\":6}").unwrap();
    assert_eq!(message_ids(&doc), None);
}

#[test]
fn error_codes() {
    assert!(matches!(parse_json_error("{\"code\":1001}"), CoreError::Overloaded));
    assert!(matches!(parse_json_error(" {\"code\":1201,\"msg\":\"x\"}\n"), CoreError::Overloaded));
    assert_eq!(
        provider(parse_json_error("{\"code\":40301,\"msg\":\"bad\"}")),
        "INVALID_POW_RESPONSE: bad"
    );
    assert_eq!(
        provider(parse_json_error("{\"code\":40003,\"msg\":\"坏\"}")),
        "API error code=40003: 坏"
    );
    assert_eq!(provider(parse_json_error("{\"code\":-7}")), "API error code=-7: unknown");
    let doc = parse("{\"msg\":\"no code\"}").unwrap();
    assert!(error_of_code(&doc).is_none());
}

#[test]
fn an_answer_without_a_code_is_quoted() {
    assert_eq!(stream(parse_json_error("  <html> ")), "无法解析的响应: <html>");
    assert_eq!(stream(parse_json_error("{\"code\":\"1001\"}")), "无法解析的响应: {\"code\":\"1001\"}");
    assert_eq!(stream(parse_json_error("")), "无法解析的响应: ");
}

#[test]
fn a_long_answer_is_cut() {
    let answer = "长".repeat(201);
    assert_eq!(
        stream(parse_json_error(&answer)),
        format!("无法解析的响应: {}", "长".repeat(200))
    );
    let exact = "x".repeat(200);
    assert_eq!(stream(parse_json_error(&exact)), format!("无法解析的响应: {}", exact));
}
