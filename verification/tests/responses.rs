//! Patches and the event stream.
use ds_core::chat::event::StreamEvent;
use ds_core::chat::frame::take_frame;
use ds_core::chat::patch::{has_response_content, PatchState};
use ds_core::chat::stream::{ResponseStream, StreamStep};
use ds_core::error::CoreError;
use ds_core::json::parse;

fn show(e: &StreamEvent) -> String {
    match e {
        StreamEvent::Meta { account_id } => format!("meta {}", account_id),
        StreamEvent::ThinkStart => "think".to_string(),
        StreamEvent::ThinkDelta { content } => format!("t:{}", content),
        StreamEvent::ContentStart => "content".to_string(),
        StreamEvent::ContentDelta { content } => format!("c:{}", content),
        StreamEvent::Done { finish_reason, accumulated_token_usage } => {
            format!("done {:?} {:?}", finish_reason, accumulated_token_usage)
        }
    }
}

fn patch(state: &mut PatchState, text: &str) -> Vec<String> {
    state.apply_patch(&parse(text).unwrap()).iter().map(show).collect()
}

fn drain(stream: &mut ResponseStream) -> Vec<String> {
    let mut out: Vec<String> = Vec::new();
    loop {
        match stream.poll_next() {
            StreamStep::Event(e) => out.push(show(&e)),
            StreamStep::Error(e) => out.push(format!("error {}", e.message())),
            StreamStep::NeedInput => return out,
            StreamStep::End => {
                out.push("end".to_string());
                return out;
            }
        }
    }
}

/// Everything that comes out of bytes that arrive in chunks of the given size.
fn run(bytes: &[u8], size: usize) -> Vec<String> {
    let mut stream = ResponseStream::new("acc".to_string());
    let mut out = drain(&mut stream);
    for chunk in bytes.chunks(size) {
        stream.feed(chunk);
        out.extend(drain(&mut stream));
    }
    stream.close();
    out.extend(drain(&mut stream));
    out
}

const RESPONSE: &str =
    "event: ready\ndata: {\"request_message_id\":1,\"response_message_id\":2}\n\n\
     data: {\"v\":{\"response\":{\"status\":\"WIP\",\"accumulated_token_usage\":3,\
     \"fragments\":[{\"type\":\"THINK\",\"content\":\"想\"}]}}}\n\n\
     data: {\"p\":\"response/fragments/-1/content\",\"o\":\"APPEND\",\"v\":\"一想\"}\n\n\
     data: {\"v\":\"…\"}\n\n\
     data: {\"p\":\"response/fragments\",\"o\":\"APPEND\",\"v\":[{\"type\":\"RESPONSE\",\
     \"content\":\"你\"}]}\n\n\
     data: {\"p\":\"response/fragments/-1/content\",\"v\":\"好\"}\n\n\
     data: {\"p\":\"response\",\"o\":\"BATCH\",\"v\":[{\"p\":\"accumulated_token_usage\",\
     \"v\":41},{\"p\":\"status\",\"v\":\"FINISHED\"}]}\n\n\
     event: close\ndata: {}\n\n";

fn expected() -> Vec<String> {
    [
        "meta acc",
        "think",
        "t:想",
        "t:一想",
        "t:…",
        "content",
        "c:你",
        "c:好",
        "done Some(\"stop\") Some(41)",
        "end",
    ]
    .iter()
    .map(|s| s.to_string())
    .collect()
}

#[test]
fn a_response_in_one_piece() {
    assert_eq!(run(RESPONSE.as_bytes(), RESPONSE.len()), expected());
}

#[test]
fn chunks_do_not_matter() {
    for size in 1usize..40usize {
        assert_eq!(run(RESPONSE.as_bytes(), size), expected(), "chunks of {}", size);
    }
}

#[test]
fn draining_early_does_not_matter() {
    let mut stream = ResponseStream::new("acc".to_string());
    stream.feed(RESPONSE.as_bytes());
    stream.close();
    assert_eq!(drain(&mut stream), expected());
    assert!(matches!(stream.poll_next(), StreamStep::End));
}

#[test]
fn the_account_comes_first() {
    let mut stream = ResponseStream::new("账号".to_string());
    match stream.poll_next() {
        StreamStep::Event(e) => assert_eq!(show(&e), "meta 账号"),
        _ => panic!("no event"),
    }
    assert!(matches!(stream.poll_next(), StreamStep::NeedInput));
}

#[test]
fn an_empty_stream_is_incomplete() {
    assert_eq!(run(b"", 1), vec!["meta acc", "done None None", "end"]);
}

#[test]
fn the_end_comes_with_the_last_delta() {
    let text = "data: {\"v\":{\"response\":{\"status\":\"FINISHED\",\
                \"accumulated_token_usage\":7,\"fragments\":[{\"type\":\"RESPONSE\",\
                \"content\":\"a\"}]}}}\n\n";
    let mut stream = ResponseStream::new("acc".to_string());
    stream.feed(text.as_bytes());
    assert_eq!(
        drain(&mut stream),
        vec!["meta acc", "content", "c:a", "done Some(\"stop\") Some(7)", "end"]
    );
    assert!(!stream.is_finished());
}

#[test]
fn an_incomplete_response_has_no_reason() {
    let text = "data: {\"v\":{\"response\":{\"fragments\":[{\"type\":\"RESPONSE\",\
                \"content\":\"a\"}]}}}\n\n\
                data: {\"p\":\"response/status\",\"v\":\"INCOMPLETE\"}\n\n\
                data: {\"p\":\"response/accumulated_token_usage\",\"v\":9}\n\n";
    assert_eq!(
        run(text.as_bytes(), 64),
        vec!["meta acc", "content", "c:a", "done None Some(9)", "end"]
    );
}

#[test]
fn a_status_of_its_own_ends_the_response_at_its_end() {
    let text = "data: {\"v\":{\"response\":{\"fragments\":[{\"type\":\"RESPONSE\",\
                \"content\":\"a\"}]}}}\n\n\
                data: {\"p\":\"response/status\",\"o\":\"SET\",\"v\":\"FINISHED\"}\n\n";
    assert_eq!(
        run(text.as_bytes(), 64),
        vec!["meta acc", "content", "c:a", "done Some(\"stop\") None", "end"]
    );
}

#[test]
fn what_is_left_at_the_end_is_a_frame() {
    let text = "data: {\"v\":{\"response\":{\"fragments\":[{\"type\":\"THINK\",\"content\":\"t\"},\
                {\"type\":\"RESPONSE\",\"content\":\"c\"}]}}}";
    assert_eq!(
        run(text.as_bytes(), 16),
        vec!["meta acc", "think", "t:t", "content", "c:c", "done None None", "end"]
    );
}

#[test]
fn thinking_does_not_come_back() {
    let text = "data: {\"p\":\"response/fragments\",\"o\":\"APPEND\",\"v\":[\
                {\"type\":\"RESPONSE\",\"content\":\"c\"},{\"type\":\"THINK\",\"content\":\"t\"}]}\n\n";
    assert_eq!(
        run(text.as_bytes(), 16),
        vec!["meta acc", "content", "c:c", "done None None", "end"]
    );
}

#[test]
fn a_late_thought_does_not_stop_the_answer() {
    let text = "data: {\"p\":\"response/fragments\",\"o\":\"APPEND\",\"v\":[\
                {\"type\":\"THINK\",\"content\":\"t\"},{\"type\":\"RESPONSE\",\"content\":\"c\"}]}\n\n\
                data: {\"v\":[{\"type\":\"THINK\",\"content\":\"late\"}]}\n\n\
                data: {\"v\":[{\"type\":\"RESPONSE\",\"content\":\"d\"}]}\n\n";
    assert_eq!(
        run(text.as_bytes(), 16),
        vec!["meta acc", "think", "t:t", "content", "c:c", "c:d", "done None None", "end"]
    );
}

#[test]
fn a_late_thought_may_bring_the_end() {
    let text = "data: {\"p\":\"response/fragments\",\"o\":\"APPEND\",\"v\":[\
                {\"type\":\"RESPONSE\",\"content\":\"c\"}]}\n\n\
                data: {\"p\":\"response\",\"o\":\"BATCH\",\"v\":[\
                {\"p\":\"status\",\"v\":\"FINISHED\"},\
                {\"p\":\"fragments\",\"o\":\"APPEND\",\"v\":[{\"type\":\"THINK\",\"content\":\"t\"}]}]}\n\n";
    let mut stream = ResponseStream::new("acc".to_string());
    stream.feed(text.as_bytes());
    assert_eq!(
        drain(&mut stream),
        vec!["meta acc", "content", "c:c", "done Some(\"stop\") None", "end"]
    );
}

#[test]
fn results_are_handed_out_in_order() {
    let text = "data: {\"p\":\"response/fragments\",\"o\":\"APPEND\",\"v\":[\
                {\"type\":\"THINK\",\"content\":\"a\"},{\"type\":\"THINK\",\"content\":\"b\"}]}\n\n\
                event: hint\ndata: {\"content\":\"one\"}\n\n\
                event: hint\ndata: {\"content\":\"two\"}\n\n\
                data: {\"v\":[{\"type\":\"RESPONSE\",\"content\":\"c\"}]}\n\n\
                data: {\"p\":\"response/fragments/-1/content\",\"v\":\"d\"}\n\n";
    let mut buf = text.as_bytes().to_vec();
    let mut state = PatchState::new();
    let mut results: Vec<String> = Vec::new();
    while let Some(frame) = take_frame(&mut buf) {
        match state.apply_frame(&frame) {
            Ok(events) => results.extend(events.iter().map(show)),
            Err(e) => results.push(format!("error {}", e.message())),
        }
    }
    let out: Vec<String> = run(text.as_bytes(), 13)
        .into_iter()
        .filter(|s| s.starts_with("t:") || s.starts_with("c:") || s.starts_with("error"))
        .collect();
    assert_eq!(out, results);
    assert_eq!(
        out,
        vec!["t:a", "t:b", "error provider: hint: one", "error provider: hint: two", "c:c", "c:d"]
    );
}

#[test]
fn a_hint_is_an_error_and_the_stream_goes_on() {
    let text = "event: hint\ndata: {\"content\":\"rate_limit\"}\n\n\
                data: {\"p\":\"response/fragments\",\"o\":\"APPEND\",\"v\":[\
                {\"type\":\"RESPONSE\",\"content\":\"c\"}]}\n\n";
    assert_eq!(
        run(text.as_bytes(), 1000),
        vec!["meta acc", "error no available account", "content", "c:c", "done None None", "end"]
    );
}

#[test]
fn a_hint_at_the_end_is_an_error() {
    let text = "event: hint\ndata: {\"content\":\"maintenance\"}";
    assert_eq!(
        run(text.as_bytes(), 1000),
        vec!["meta acc", "error provider: hint: maintenance", "done None None", "end"]
    );
}

#[test]
fn bytes_that_are_no_text_do_not_stop_a_response() {
    let mut bytes: Vec<u8> = Vec::new();
    bytes.extend_from_slice(b"data: {\"p\":\"response/fragments\",\"o\":\"APPEND\",\"v\":[");
    bytes.extend_from_slice(b"{\"type\":\"RESPONSE\",\"content\":\"a\xff\"}]}\n\n");
    assert_eq!(
        run(&bytes, 5),
        vec!["meta acc", "content", "c:a\u{fffd}", "done None None", "end"]
    );
}

#[test]
fn frames_without_a_patch_bring_nothing() {
    let text = "\n\n: comment\n\ndata: [DONE\n\nevent: update_session\n\ndata: 5\n\ndata: {\"p\":\"x\"}\n\n";
    assert_eq!(run(text.as_bytes(), 7), vec!["meta acc", "done None None", "end"]);
}

#[test]
fn path_and_operation_stay() {
    let mut state = PatchState::new();
    let first = patch(
        &mut state,
        "{\"p\":\"response/fragments\",\"o\":\"APPEND\",\"v\":[{\"type\":\"RESPONSE\",\"content\":\"a\"}]}",
    );
    assert_eq!(first, vec!["c:a"]);
    assert_eq!(
        patch(&mut state, "{\"v\":[{\"type\":\"RESPONSE\",\"content\":\"b\"}]}"),
        vec!["c:b"]
    );
    assert!(patch(&mut state, "{\"p\":\"response/fragments/-1/content\"}").is_empty());
    assert_eq!(patch(&mut state, "{\"v\":\"c\"}"), vec!["c:c"]);
    assert!(patch(&mut state, "{\"o\":\"SET\",\"p\":\"response/fragments\",\"v\":[{\"type\":\"RESPONSE\",\"content\":\"z\"}]}").is_empty());
}

#[test]
fn a_snapshot_needs_no_path() {
    let mut state = PatchState::new();
    let snapshot = "{\"v\":{\"response\":{\"fragments\":[{\"type\":\"THINK\",\"content\":\"\"},\
                    {\"content\":\"no type\"},{\"type\":\"TOOL\",\"content\":\"x\"},\
                    {\"type\":\"RESPONSE\",\"content\":\"y\"}]}}}";
    assert_eq!(patch(&mut state, snapshot), vec!["c:y"]);
    patch(&mut state, "{\"p\":\"response\"}");
    assert!(patch(&mut state, snapshot).is_empty());
}

#[test]
fn a_snapshot_replaces_the_fragments() {
    let mut state = PatchState::new();
    let answered = "{\"v\":{\"response\":{\"fragments\":[{\"type\":\"RESPONSE\",\"content\":\"y\"}]}}}";
    assert_eq!(patch(&mut state, answered), vec!["c:y"]);
    assert!(has_response_content(&state));
    let cleared = "{\"v\":{\"response\":{\"fragments\":[]}}}";
    assert!(patch(&mut state, cleared).is_empty());
    assert!(!has_response_content(&state));
    let unlisted = "{\"v\":{\"response\":{\"status\":\"FINISHED\"}}}";
    patch(&mut state, answered);
    patch(&mut state, unlisted);
    assert!(has_response_content(&state));
    assert_eq!(show(&state.end().unwrap()), "done Some(\"stop\") None");
}

#[test]
fn other_fragments_do_not_grow() {
    let mut state = PatchState::new();
    patch(
        &mut state,
        "{\"p\":\"/response/fragments\",\"o\":\"APPEND\",\"v\":[{\"type\":\"TOOL\",\"content\":\"x\"}]}",
    );
    assert!(patch(&mut state, "{\"p\":\"/response/fragments/-1/content\",\"v\":\"y\"}").is_empty());
    assert!(!has_response_content(&state));
}

#[test]
fn growth_without_a_fragment_is_dropped() {
    let mut state = PatchState::new();
    assert!(patch(&mut state, "{\"p\":\"response/fragments/-1/content\",\"v\":\"y\"}").is_empty());
}

#[test]
fn an_empty_growth_is_a_delta() {
    let mut state = PatchState::new();
    patch(
        &mut state,
        "{\"p\":\"response/fragments\",\"o\":\"APPEND\",\"v\":[{\"type\":\"THINK\"}]}",
    );
    assert_eq!(patch(&mut state, "{\"p\":\"response/fragments/-1/content\",\"v\":\"\"}"), vec!["t:"]);
}

#[test]
fn a_batch_has_a_state_of_its_own() {
    let mut state = PatchState::new();
    let batch = "{\"p\":\"response\",\"o\":\"BATCH\",\"v\":[\
                 {\"p\":\"fragments\",\"o\":\"APPEND\",\"v\":[{\"type\":\"THINK\",\"content\":\"a\"}]},\
                 {\"v\":[{\"type\":\"RESPONSE\",\"content\":\"b\"}]},\
                 {\"p\":\"fragments/-1\"},\
                 {\"o\":\"BATCH\",\"v\":[{\"p\":\"content\",\"v\":\"c\"}]},\
                 {\"o\":\"BATCH\",\"v\":\"no array\"},\
                 {\"p\":\"status\",\"o\":\"SET\",\"v\":\"INCOMPLETE\"},\
                 {\"p\":\"accumulated_token_usage\",\"v\":4294967296}]}";
    assert_eq!(patch(&mut state, batch), vec!["t:a", "c:b", "c:c"]);
    assert_eq!(show(&state.end().unwrap()), "done None Some(4294967295)");
    assert!(patch(&mut state, "{\"p\":\"accumulated_token_usage\",\"o\":\"SET\",\"v\":12}").is_empty());
    assert_eq!(show(&state.end().unwrap()), "done None Some(12)");
    assert!(patch(&mut state, "{\"p\":\"/accumulated_token_usage\",\"v\":-1}").is_empty());
    assert_eq!(show(&state.end().unwrap()), "done None Some(12)");
}

#[test]
fn a_batch_under_no_path() {
    let mut state = PatchState::new();
    let items = parse(
        "[{\"p\":\"response/fragments\",\"o\":\"APPEND\",\"v\":[{\"type\":\"RESPONSE\",\"content\":\"b\"}]}]",
    )
    .unwrap();
    let events = state.apply_batch("", items.as_array().unwrap());
    assert_eq!(events.iter().map(show).collect::<Vec<String>>(), vec!["c:b"]);
    let value = parse("\"more\"").unwrap();
    let grown = state.apply_path("response/fragments/-1/content", "SET", &value);
    assert_eq!(grown.iter().map(show).collect::<Vec<String>>(), vec!["c:more"]);
    let response = parse("{\"fragments\":[{\"type\":\"THINK\",\"content\":\"q\"}]}").unwrap();
    let opened = state.apply_initial_snapshot(&response);
    assert_eq!(opened.iter().map(show).collect::<Vec<String>>(), vec!["t:q"]);
}

#[test]
fn a_frame_brings_its_patch() {
    let mut state = PatchState::new();
    assert!(state.apply_frame("").unwrap().is_empty());
    let events = state
        .apply_frame(
            " event: x\n data: {\"p\":\"response/fragments\",\"o\":\"APPEND\",\"v\":[{\"type\":\"RESPONSE\",\"content\":\"b\"}]} ",
        )
        .unwrap();
    assert_eq!(show(&events[0]), "c:b");
    assert!(state.apply_frame("event: hint").unwrap().is_empty());
    match state.apply_frame("event: hint\ndata: {\"content\":\"input_exceeds_limit\"}") {
        Err(CoreError::ProviderError(m)) => assert_eq!(m, "输入内容超长，请缩短后重试"),
        other => panic!("{:?}", other),
    }
}

#[test]
fn deltas_spell_the_response() {
    let out = run(RESPONSE.as_bytes(), 11);
    let thought: String = out.iter().filter_map(|s| s.strip_prefix("t:")).collect();
    let answer: String = out.iter().filter_map(|s| s.strip_prefix("c:")).collect();
    assert_eq!(thought, "想一想…");
    assert_eq!(answer, "你好");
}

#[test]
fn a_second_snapshot_loses_nothing() {
    let text = "data: {\"v\":{\"response\":{\"fragments\":[{\"type\":\"RESPONSE\",\"content\":\"old\"}]}}}\n\n\
                data: {\"v\":{\"response\":{\"fragments\":[{\"type\":\"RESPONSE\",\"content\":\"new\"}]}}}\n\n";
    assert_eq!(
        run(text.as_bytes(), 9),
        vec!["meta acc", "content", "c:old", "c:new", "done None None", "end"]
    );
}

#[test]
fn the_state_of_a_response_can_be_read() {
    let mut stream = ResponseStream::new("acc".to_string());
    stream.feed(RESPONSE.as_bytes());
    drain(&mut stream);
    assert!(has_response_content(stream.patch_state()));
    assert!(!stream.is_finished());
    stream.close();
    assert!(stream.is_finished());
}
