//! The start and the end of a turn, sessions and routes.
use ds_core::chat::session::{ActiveSession, SessionCleanup, SessionHandle, SessionTable};
use ds_core::chat::wait::{
    has_close, not_started_error, scan_events, CloseWait, ReadyStep, ReadyWait,
};
use ds_core::chat::{Chat, RequestPath};
use ds_core::config::DsCoreConfig;
use ds_core::error::CoreError;

const READY: &str =
    "event: ready\ndata: {\"request_message_id\":3,\"response_message_id\":4}\n\n";
const UPDATE: &str = "event: update_session\ndata: {}\n\n";

fn message(e: &CoreError) -> String {
    e.message()
}

fn session(token: &str, id: &str, number: i64) -> ActiveSession {
    ActiveSession {
        token: token.to_string(),
        session_id: id.to_string(),
        message_id: number,
    }
}

fn handle(token: &str, id: &str, number: i64) -> SessionHandle {
    SessionHandle {
        token: token.to_string(),
        session_id: id.to_string(),
        message_id: number,
    }
}

fn config(models: &[&str], limits: &[u32]) -> DsCoreConfig {
    DsCoreConfig {
        api_base: String::new(),
        wasm_url: String::new(),
        user_agent: String::new(),
        client_version: String::new(),
        client_platform: String::new(),
        client_locale: String::new(),
        proxy_url: None,
        model_types: models.iter().map(|m| m.to_string()).collect(),
        input_character_limits: limits.to_vec(),
    }
}

fn ids(plan: &[SessionCleanup]) -> Vec<String> {
    let mut out: Vec<String> = plan.iter().map(|c| c.session_id.clone()).collect();
    out.sort();
    out
}

#[test]
fn a_turn_starts_with_ready_and_update() {
    let mut wait = ReadyWait::new();
    assert!(matches!(wait.on_chunk(READY.as_bytes()), ReadyStep::Waiting));
    assert!(matches!(wait.on_chunk(UPDATE.as_bytes()), ReadyStep::Ready(4)));
    assert_eq!(wait.into_buf(), format!("{}{}", READY, UPDATE).into_bytes());
}

#[test]
fn a_turn_starts_byte_by_byte() {
    let text = format!("{}{}", READY, UPDATE);
    let mut wait = ReadyWait::new();
    let bytes = text.as_bytes();
    for (i, b) in bytes.iter().enumerate() {
        match wait.on_chunk(&[*b]) {
            ReadyStep::Waiting => assert!(i + 1 < bytes.len()),
            ReadyStep::Ready(id) => {
                assert_eq!(i + 1, bytes.len());
                assert_eq!(id, 4);
            }
            ReadyStep::Failed(e) => panic!("{:?}", e),
        }
    }
}

#[test]
fn a_start_stays() {
    let text = format!("{}{}", READY, UPDATE);
    let more = format!("{}event: hint\ndata: rate_limit\n\n", text);
    assert!(matches!(scan_events(&text, None), (Some(4), ReadyStep::Ready(4))));
    assert!(matches!(scan_events(&more, None), (Some(4), ReadyStep::Ready(4))));
}

#[test]
fn a_hint_refuses_a_turn() {
    let mut wait = ReadyWait::new();
    match wait.on_chunk(b"event: hint\ndata: {\"content\":\"rate_limit\"}\n\n") {
        ReadyStep::Failed(e) => assert_eq!(message(&e), "no available account"),
        _ => panic!("not refused"),
    }
    let (known, step) = scan_events(
        &format!("{}event: hint\ndata: input_exceeds_limit\n\n{}", READY, UPDATE),
        None,
    );
    assert_eq!(known, Some(4));
    match step {
        ReadyStep::Failed(e) => assert_eq!(message(&e), "provider: 输入内容超长，请缩短后重试"),
        _ => panic!("not refused"),
    }
}

#[test]
fn an_open_event_is_not_read() {
    let mut wait = ReadyWait::new();
    assert!(matches!(
        wait.on_chunk(b"event: hint\ndata: {\"content\":\"rate_limit\"}\n"),
        ReadyStep::Waiting
    ));
}

#[test]
fn numbers_that_are_known_stay_known() {
    assert!(matches!(scan_events(UPDATE, None), (None, ReadyStep::Waiting)));
    assert!(matches!(scan_events(UPDATE, Some(9)), (Some(9), ReadyStep::Ready(9))));
    let early = format!("{}{}", UPDATE, READY);
    let mut wait = ReadyWait::new();
    assert!(matches!(wait.on_chunk(early.as_bytes()), ReadyStep::Waiting));
    assert!(matches!(wait.on_chunk(b" "), ReadyStep::Ready(4)));
}

#[test]
fn a_ready_event_without_numbers_has_a_default() {
    let text = format!("event: ready\ndata: {{}}\n\n{}", UPDATE);
    assert!(matches!(scan_events(&text, None), (Some(2), ReadyStep::Ready(2))));
}

#[test]
fn a_stream_that_stops_before_the_start() {
    let wait = ReadyWait::new();
    assert_eq!(message(&wait.on_end("r1", 2, 10)), "stream error: req=r1 分块 2/10 收到空流");
    let mut answered = ReadyWait::new();
    answered.on_chunk(b" {\"code\":40301,\"msg\":\"bad\"}");
    assert_eq!(
        message(&answered.on_end("r1", 0, 1)),
        "provider: INVALID_POW_RESPONSE: bad"
    );
    assert_eq!(
        message(&not_started_error("[1]", "r", 0, 1)),
        "stream error: req=r 分块 0/1 收到空流"
    );
    assert_eq!(
        message(&not_started_error("{oops", "r", 0, 1)),
        "stream error: 无法解析的响应: {oops"
    );
}

#[test]
fn bytes_that_are_no_text_are_quoted_with_replacements() {
    let mut wait = ReadyWait::new();
    wait.on_chunk(b"{\xff");
    assert_eq!(
        message(&wait.on_end("r", 0, 1)),
        "stream error: 无法解析的响应: {\u{fffd}"
    );
}

#[test]
fn a_turn_ends_with_close() {
    let mut wait = CloseWait::new(READY.as_bytes().to_vec());
    assert!(!wait.is_closed());
    wait.on_chunk(b"event: close\ndata: {}\n");
    assert!(!wait.is_closed());
    wait.on_chunk(b"\n");
    assert!(wait.is_closed());
    wait.on_chunk(b"more");
    assert!(wait.is_closed());
    let all = wait.into_buf();
    assert!(all.starts_with(READY.as_bytes()));
    assert!(all.ends_with(b"more"));
}

#[test]
fn a_close_stays() {
    assert!(has_close("event: close\n\n"));
    assert!(has_close("event: close\n\nevent: other"));
    assert!(!has_close("event: close"));
    assert!(!has_close(""));
}

#[test]
fn a_stream_that_stops_before_the_end() {
    assert_eq!(
        message(&CloseWait::on_end("r9", 1, 3)),
        "stream error: req=r9 分块 1/3 流在 close 前结束"
    );
}

#[test]
fn a_table_keeps_one_session_per_number() {
    let mut table = SessionTable::new();
    table.insert(session("t1", "a", 1));
    table.insert(session("t2", "b", 2));
    table.insert(session("t3", "a", 3));
    let a = table.remove("a").unwrap();
    assert_eq!((a.token.as_str(), a.message_id), ("t3", 3));
    assert!(table.remove("a").is_none());
    assert!(table.remove("c").is_none());
    let rest = table.take_all();
    assert_eq!(rest.len(), 1);
    assert_eq!(rest[0].session_id, "b");
    assert!(table.take_all().is_empty());
}

#[test]
fn a_dropped_stream_is_stopped_and_deleted() {
    let mut table = SessionTable::new();
    table.insert(session("t", "s", 5));
    let cleanup = handle("t", "s", 5).cleanup(&mut table, false);
    assert_eq!(cleanup.token, "t");
    assert_eq!(cleanup.session_id, "s");
    let stop = cleanup.stop.unwrap();
    assert_eq!(stop.chat_session_id, "s");
    assert_eq!(stop.message_id, 5);
    assert!(table.remove("s").is_none());
}

#[test]
fn a_finished_stream_is_only_deleted() {
    let mut table = SessionTable::new();
    let cleanup = handle("t", "s", 5).cleanup(&mut table, true);
    assert_eq!(cleanup.session_id, "s");
    assert!(cleanup.stop.is_none());
}

#[test]
fn shutdown_cleans_up_what_is_active_once() {
    let mut chat = Chat::new(&config(&[], &[]));
    chat.open_session(session("t1", "a", 1));
    chat.open_session(session("t2", "b", 2));
    chat.open_session(session("t3", "c", 3));
    let ended = chat.end_session(&handle("t2", "b", 2), true);
    assert_eq!(ended.session_id, "b");
    let plan = chat.shutdown();
    assert_eq!(ids(&plan), vec!["a", "c"]);
    for cleanup in plan.iter() {
        let stop = cleanup.stop.as_ref().unwrap();
        assert_eq!(stop.chat_session_id, cleanup.session_id);
        let number: i64 = if cleanup.session_id == "a" { 1 } else { 3 };
        assert_eq!(stop.message_id, number);
        assert_eq!(cleanup.token, format!("t{}", number));
    }
    assert!(chat.shutdown().is_empty());
}

#[test]
fn limits_of_the_models() {
    let chat = Chat::new(&config(&["default", "expert", "default", "vision"], &[1000, 2000, 3000]));
    assert_eq!(chat.input_character_limit_for("default"), 1000);
    assert_eq!(chat.input_character_limit_for("expert"), 2000);
    assert_eq!(chat.input_character_limit_for("vision"), 163_840);
    assert_eq!(chat.input_character_limit_for("unknown"), 163_840);
}

#[test]
fn routes_of_requests() {
    let chat = Chat::new(&config(&["default", "expert", "zero"], &[100, 10, 0]));
    assert_eq!(chat.route(&"字".repeat(75), "default"), RequestPath::Once);
    assert_eq!(chat.route(&"字".repeat(76), "default"), RequestPath::OversizedFile);
    assert_eq!(chat.route("1234567", "expert"), RequestPath::Once);
    assert_eq!(chat.route("12345678", "expert"), RequestPath::OversizedChunk);
    assert_eq!(chat.route("", "zero"), RequestPath::Once);
    assert_eq!(chat.route("1", "zero"), RequestPath::OversizedFile);
    assert_eq!(chat.route(&"x".repeat(122_880), "other"), RequestPath::Once);
    assert_eq!(chat.route(&"x".repeat(122_881), "other"), RequestPath::OversizedFile);
}
