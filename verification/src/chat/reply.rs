//! What the backend answers besides the events of a response: hints, the
//! message numbers of a turn, and error documents.
use vstd::prelude::*;
use vstd::utf8;

use crate::chat::frame;
use crate::encoding;
use crate::error::{CoreError, ErrorModel};
use crate::json;
use crate::json::{Json, JsonModel};
use crate::text;

verus! {

/// The document that a text holds; null if it holds none.
pub open spec fn document(data: Seq<char>) -> JsonModel {
    match json::json_text(data) {
        Some(v) => v,
        None => JsonModel::Null,
    }
}

/// What a hint says: its `content` or, for want of that member, its
/// `finish_reason`. A hint that has neither, or whose member is no string, says
/// nothing that is known.
pub open spec fn hint_content(hint: JsonModel) -> Seq<char> {
    let member = match hint.get("content"@) {
        Some(v) => Some(v),
        None => hint.get("finish_reason"@),
    };
    match member {
        Some(JsonModel::Str(s)) => s,
        _ => "(unknown)"@,
    }
}

/// The error that a hint with the given content stands for.
pub open spec fn hint_error(content: Seq<char>) -> ErrorModel {
    if text::contains_text(content, "rate_limit"@) {
        ErrorModel::Overloaded
    } else if text::contains_text(content, "input_exceeds_limit"@) {
        ErrorModel::ProviderError("输入内容超长，请缩短后重试"@)
    } else {
        ErrorModel::ProviderError("hint: "@ + content)
    }
}

/// The error that a hint stands for.
pub fn error_of_hint(hint: &Json) -> (r: CoreError)
    ensures
        r@ == hint_error(hint_content(hint@)),
{
    let member = match hint.get("content") {
        Some(v) => Some(v),
        None => hint.get("finish_reason"),
    };
    let content = match member {
        Some(v) => match v.as_str() {
            Some(s) => s,
            None => "(unknown)",
        },
        None => "(unknown)",
    };
    let chars = text::chars_of(content);
    if text::contains(chars.as_slice(), "rate_limit") {
        CoreError::Overloaded
    } else if text::contains(chars.as_slice(), "input_exceeds_limit") {
        CoreError::ProviderError("输入内容超长，请缩短后重试".to_owned())
    } else {
        CoreError::ProviderError("hint: ".to_owned().concat(content))
    }
}

/// The error that the data of a hint stands for.
pub fn hint_to_error(data: &str) -> (r: CoreError)
    ensures
        r@ == hint_error(hint_content(document(data@))),
{
    match json::parse(data) {
        Some(v) => error_of_hint(&v),
        None => error_of_hint(&Json::Null),
    }
}

/// The error that a block of text reports as a hint: a hint names a rate limit
/// or an oversized input somewhere in the block; any other hint is none.
pub open spec fn reported_hint(block: Seq<char>) -> Option<ErrorModel> {
    if !frame::is_event(block, "hint"@) {
        None
    } else if text::contains_text(block, "rate_limit"@) {
        Some(ErrorModel::Overloaded)
    } else if text::contains_text(block, "input_exceeds_limit"@) {
        Some(ErrorModel::ProviderError("输入内容超长，请缩短后重试"@))
    } else {
        None
    }
}

/// The error that a block of characters reports as a hint.
pub fn hint_in(block: &[char]) -> (r: Option<CoreError>)
    ensures
        match r {
            Some(e) => reported_hint(block@) == Some(e@),
            None => reported_hint(block@) is None,
        },
        frame::is_event(block@, "hint"@) && text::contains_text(block@, "rate_limit"@) ==> (
        r matches Some(e) && e is Overloaded),
        frame::is_event(block@, "hint"@) && text::contains_text(block@, "input_exceeds_limit"@)
            ==> r is Some,
        r is Some ==> frame::is_event(block@, "hint"@),
{
    if !frame::has_event(block, "hint") {
        return None;
    }
    if text::contains(block, "rate_limit") {
        return Some(CoreError::Overloaded);
    }
    if text::contains(block, "input_exceeds_limit") {
        return Some(CoreError::ProviderError("输入内容超长，请缩短后重试".to_owned()));
    }
    None
}

/// The error that an event reports as a hint.
pub fn check_hint(event_block: &str) -> (r: Option<CoreError>)
    ensures
        match r {
            Some(e) => reported_hint(event_block@) == Some(e@),
            None => reported_hint(event_block@) is None,
        },
        frame::is_event(event_block@, "hint"@) && text::contains_text(event_block@, "rate_limit"@) ==> (
        r matches Some(e) && e is Overloaded),
        frame::is_event(event_block@, "hint"@) && text::contains_text(event_block@, "input_exceeds_limit"@)
            ==> r is Some,
        r is Some ==> frame::is_event(event_block@, "hint"@),
{
    let chars = text::chars_of(event_block);
    hint_in(chars.as_slice())
}

/// The numbers of the request and the response that a document carries.
pub open spec fn ids_of(val: JsonModel) -> Option<(i64, i64)> {
    match (val.i64_at("request_message_id"@), val.i64_at("response_message_id"@)) {
        (Some(request), Some(response)) => Some((request, response)),
        _ => None,
    }
}

/// The numbers of the request and the response that a document carries.
pub fn message_ids(val: &Json) -> (r: Option<(i64, i64)>)
    ensures
        r == ids_of(val@),
{
    match val.i64_at("request_message_id") {
        Some(request) => match val.i64_at("response_message_id") {
            Some(response) => Some((request, response)),
            None => None,
        },
        None => None,
    }
}

/// The message numbers that a line carries after `data: `.
pub open spec fn line_ids(line: Seq<char>) -> Option<(i64, i64)> {
    match text::after_prefix(line, "data: "@) {
        Some(data) => ids_of(document(data)),
        None => None,
    }
}

/// The message numbers of the first line that carries any.
pub open spec fn first_ids(lines: Seq<Seq<char>>) -> Option<(i64, i64)>
    decreases lines.len(),
{
    if lines.len() == 0 {
        None
    } else {
        match line_ids(lines[0]) {
            Some(ids) => Some(ids),
            None => first_ids(lines.drop_first()),
        }
    }
}

/// The message numbers of a `ready` event: those of its first line that carries
/// any, and 1 and 2 where no line does or the bytes are no UTF-8.
pub open spec fn ready_ids(chunk: Seq<u8>) -> (i64, i64) {
    if utf8::valid_utf8(chunk) {
        match first_ids(text::lines_of(utf8::decode_utf8(chunk))) {
            Some(ids) => ids,
            None => (1, 2),
        }
    } else {
        (1, 2)
    }
}

/// The message numbers of a `ready` event.
pub fn parse_ready_message_ids(chunk: &[u8]) -> (r: (i64, i64))
    ensures
        r == ready_ids(chunk@),
{
    let text = match encoding::decode_strict(chunk) {
        Some(text) => text,
        None => return (1, 2),
    };
    let chars = text::chars_of(text);
    let lines = text::lines(chars.as_slice());
    let ghost all = text::views(lines@);
    let mut i: usize = 0;
    proof {
        assert(all.skip(0) =~= all);
    }
    while i < lines.len()
        invariant
            i <= lines@.len(),
            utf8::valid_utf8(chunk@),
            all == text::views(lines@),
            all == text::lines_of(utf8::decode_utf8(chunk@)),
            first_ids(all.skip(i as int)) == first_ids(all),
        decreases lines@.len() - i,
    {
        proof {
            assert(all.skip(i as int)[0] == lines@[i as int]@);
            assert(all.skip(i as int).drop_first() =~= all.skip(i + 1));
        }
        if let Some(data) = text::strip_prefix(lines[i], "data: ") {
            let data = text::string_of(data);
            if let Some(val) = json::parse(data.as_str()) {
                if let Some(ids) = message_ids(&val) {
                    return ids;
                }
            }
        }
        i = i + 1;
    }
    (1, 2)
}

/// The error that an error document stands for: `None` if the document carries
/// no error code.
pub open spec fn coded_error(val: JsonModel) -> Option<ErrorModel> {
    match val.i64_at("code"@) {
        Some(code) => {
            let msg = match val.str_at("msg"@) {
                Some(msg) => msg,
                None => "unknown"@,
            };
            Some(
                if code == 1001 || code == 1201 {
                    ErrorModel::Overloaded
                } else if code == 40301 {
                    ErrorModel::ProviderError("INVALID_POW_RESPONSE: "@ + msg)
                } else {
                    ErrorModel::ProviderError(
                        "API error code="@ + text::decimal(code as int) + ": "@ + msg,
                    )
                },
            )
        },
        None => None,
    }
}

/// The error that an error document stands for.
pub fn error_of_code(val: &Json) -> (r: Option<CoreError>)
    ensures
        match r {
            Some(e) => coded_error(val@) == Some(e@),
            None => coded_error(val@) is None,
        },
{
    match val.i64_at("code") {
        Some(code) => {
            let msg = match val.str_at("msg") {
                Some(msg) => msg,
                None => "unknown",
            };
            if code == 1001 || code == 1201 {
                Some(CoreError::Overloaded)
            } else if code == 40301 {
                Some(CoreError::ProviderError("INVALID_POW_RESPONSE: ".to_owned().concat(msg)))
            } else {
                let mut message = "API error code=".to_owned();
                text::push_i64(&mut message, code);
                message.append(": ");
                message.append(msg);
                Some(CoreError::ProviderError(message))
            }
        },
        None => None,
    }
}

/// The first `n` characters of `s`, or all of them if there are fewer.
pub open spec fn at_most(s: Seq<char>, n: nat) -> Seq<char> {
    if s.len() <= n {
        s
    } else {
        s.take(n as int)
    }
}

/// The error that an answer in place of a stream stands for: the one that its
/// code says, or else the start of the answer itself.
pub open spec fn answer_error(answer: Seq<char>) -> ErrorModel {
    let raw = text::trimmed(answer);
    match coded_error(document(raw)) {
        Some(e) => e,
        None => ErrorModel::Stream("无法解析的响应: "@ + at_most(raw, 200)),
    }
}

/// The error that an answer in place of a stream stands for.
pub fn parse_json_error(answer: &str) -> (r: CoreError)
    ensures
        r@ == answer_error(answer@),
{
    let chars = text::chars_of(answer);
    let raw = text::trim(chars.as_slice());
    let document = text::string_of(raw);
    if let Some(val) = json::parse(document.as_str()) {
        if let Some(e) = error_of_code(&val) {
            return e;
        }
    }
    let start = if raw.len() <= 200 {
        document
    } else {
        text::string_of(vstd::slice::slice_subrange(raw, 0, 200))
    };
    proof {
        assert(raw@.len() > 200 ==> raw@.subrange(0, 200) =~= raw@.take(200));
    }
    CoreError::Stream("无法解析的响应: ".to_owned().concat(start.as_str()))
}

/// A hint that names a rate limit anywhere in its block reports that all accounts
/// are busy, whatever else the block holds. One that names an oversized input, and
/// no rate limit, reports that. Nothing else reports anything.
pub proof fn law_hint_reports(block: Seq<char>)
    ensures
        frame::is_event(block, "hint"@) && text::contains_text(block, "rate_limit"@)
            ==> reported_hint(block) == Some(ErrorModel::Overloaded),
        frame::is_event(block, "hint"@) && text::contains_text(block, "input_exceeds_limit"@)
            && !text::contains_text(block, "rate_limit"@) ==> reported_hint(block) == Some(
            ErrorModel::ProviderError("输入内容超长，请缩短后重试"@),
        ),
        frame::is_event(block, "hint"@) && !text::contains_text(block, "rate_limit"@)
            && !text::contains_text(block, "input_exceeds_limit"@) ==> reported_hint(block)
            is None,
        !frame::is_event(block, "hint"@) ==> reported_hint(block) is None,
{
}

/// What stands around the words of a hint does not matter: a hint stays the report
/// that it is, whatever is put before or after its text in the block.
pub proof fn law_hint_reports_anywhere(before: Seq<char>, after: Seq<char>)
    ensures
        ({
            let block = before + "rate_limit"@ + after;
            frame::is_event(block, "hint"@) ==> reported_hint(block) == Some(
                ErrorModel::Overloaded,
            )
        }),
        ({
            let block = before + "input_exceeds_limit"@ + after;
            frame::is_event(block, "hint"@) ==> reported_hint(block) is Some
        }),
{
    text::law_contains(before, "rate_limit"@, after);
    text::law_contains(before, "input_exceeds_limit"@, after);
}

/// The error of a hint in a stream: a rate limit anywhere in its content means that
/// all accounts are busy, an oversized input is reported as such, and any other
/// content is quoted to the letter.
pub proof fn law_hint_errors(content: Seq<char>)
    ensures
        text::contains_text(content, "rate_limit"@) ==> hint_error(content)
            == ErrorModel::Overloaded,
        text::contains_text(content, "input_exceeds_limit"@) && !text::contains_text(
            content,
            "rate_limit"@,
        ) ==> hint_error(content) == ErrorModel::ProviderError("输入内容超长，请缩短后重试"@),
        !text::contains_text(content, "rate_limit"@) && !text::contains_text(
            content,
            "input_exceeds_limit"@,
        ) ==> hint_error(content) == ErrorModel::ProviderError("hint: "@ + content),
{
}

/// A hint says its `content` to the letter; only without that member does its
/// `finish_reason` count, and what is no string says nothing that is known.
pub proof fn law_hint_content(hint: JsonModel)
    ensures
        hint.get("content"@) matches Some(v) ==> (v matches JsonModel::Str(s) ==> hint_content(
            hint,
        ) == s),
        hint.get("content"@) matches Some(v) ==> (v !is Str ==> hint_content(hint)
            == "(unknown)"@),
        hint.get("content"@) is None ==> (hint.get("finish_reason"@) matches Some(v) ==> (
        v matches JsonModel::Str(s) ==> hint_content(hint) == s)),
        hint.get("content"@) is None ==> (hint.get("finish_reason"@) matches Some(v) ==> (v
            !is Str ==> hint_content(hint) == "(unknown)"@)),
        hint.get("content"@) is None && hint.get("finish_reason"@) is None ==> hint_content(hint)
            == "(unknown)"@,
{
}

/// The data of a hint is the document that it holds, and null where it holds none.
pub proof fn law_document(data: Seq<char>)
    ensures
        json::json_text(data) matches Some(v) ==> document(data) == v,
        json::json_text(data) is None ==> document(data) == JsonModel::Null,
{
}

/// Message numbers come together or not at all, and as the document has them.
pub proof fn law_message_ids(val: JsonModel)
    ensures
        ids_of(val) matches Some((request, response)) ==> val.i64_at("request_message_id"@)
            == Some(request) && val.i64_at("response_message_id"@) == Some(response),
        val.i64_at("request_message_id"@) is Some && val.i64_at("response_message_id"@) is Some
            ==> ids_of(val) is Some,
{
}

proof fn lemma_first_ids(lines: Seq<Seq<char>>)
    ensures
        match first_ids(lines) {
            Some(ids) => exists|i: int|
                0 <= i < lines.len() && line_ids(#[trigger] lines[i]) == Some(ids)
                    && forall|k: int| 0 <= k < i ==> line_ids(#[trigger] lines[k]) is None,
            None => forall|k: int| 0 <= k < lines.len() ==> line_ids(#[trigger] lines[k]) is None,
        },
    decreases lines.len(),
{
    if lines.len() > 0 && line_ids(lines[0]) is None {
        let tail = lines.drop_first();
        lemma_first_ids(tail);
        match first_ids(tail) {
            Some(ids) => {
                let i = choose|i: int|
                    0 <= i < tail.len() && line_ids(#[trigger] tail[i]) == Some(ids)
                        && forall|k: int| 0 <= k < i ==> line_ids(#[trigger] tail[k]) is None;
                assert(lines[i + 1] == tail[i]);
                assert forall|k: int| 0 <= k < i + 1 implies line_ids(
                    #[trigger] lines[k],
                ) is None by {
                    if k > 0 {
                        assert(lines[k] == tail[k - 1]);
                    }
                }
            },
            None => {
                assert forall|k: int| 0 <= k < lines.len() implies line_ids(
                    #[trigger] lines[k],
                ) is None by {
                    if k > 0 {
                        assert(lines[k] == tail[k - 1]);
                    }
                }
            },
        }
    }
}

/// A line carries the message numbers of the document after `data: `, and a line
/// without that start carries none.
pub proof fn law_line_ids(data: Seq<char>, line: Seq<char>)
    ensures
        line_ids("data: "@ + data) == ids_of(document(data)),
        !"data: "@.is_prefix_of(line) ==> line_ids(line) is None,
{
    text::law_after_prefix("data: "@, data, line);
}

/// The message numbers of a `ready` event are those of the first line that carries
/// any; without such a line, or where the bytes are no text, they are 1 and 2.
pub proof fn law_ready_ids(chunk: Seq<u8>)
    ensures
        ({
            let lines = text::lines_of(utf8::decode_utf8(chunk));
            let some = exists|i: int| 0 <= i < lines.len() && line_ids(#[trigger] lines[i]) is Some;
            &&& utf8::valid_utf8(chunk) && some ==> exists|i: int|
                0 <= i < lines.len() && line_ids(#[trigger] lines[i]) == Some(ready_ids(chunk))
                    && forall|k: int| 0 <= k < i ==> line_ids(#[trigger] lines[k]) is None
            &&& !utf8::valid_utf8(chunk) || !some ==> ready_ids(chunk) == (1i64, 2i64)
        }),
{
    lemma_first_ids(text::lines_of(utf8::decode_utf8(chunk)));
}

/// The error of an error document: the codes 1001 and 1201 mean that all accounts
/// are busy, 40301 that the proof of work was not accepted, and any other code is
/// reported with its number. The message is quoted to the letter. Without a code
/// there is no such error.
pub proof fn law_error_codes(val: JsonModel)
    ensures
        val.i64_at("code"@) is None ==> coded_error(val) is None,
        val.i64_at("code"@) == Some(1001i64) || val.i64_at("code"@) == Some(1201i64)
            ==> coded_error(val) == Some(ErrorModel::Overloaded),
        val.i64_at("code"@) == Some(40301i64) ==> (val.str_at("msg"@) matches Some(msg)
            ==> coded_error(val) == Some(
            ErrorModel::ProviderError("INVALID_POW_RESPONSE: "@ + msg),
        )),
        val.i64_at("code"@) == Some(40301i64) && val.str_at("msg"@) is None ==> coded_error(val)
            == Some(ErrorModel::ProviderError("INVALID_POW_RESPONSE: "@ + "unknown"@)),
        val.i64_at("code"@) matches Some(code) ==> (code != 1001 && code != 1201 && code != 40301
            ==> (val.str_at("msg"@) matches Some(msg) ==> coded_error(val) == Some(
            ErrorModel::ProviderError(
                "API error code="@ + text::decimal(code as int) + ": "@ + msg,
            ),
        ))),
        val.i64_at("code"@) matches Some(code) ==> (code != 1001 && code != 1201 && code != 40301
            && val.str_at("msg"@) is None ==> coded_error(val) == Some(
            ErrorModel::ProviderError(
                "API error code="@ + text::decimal(code as int) + ": "@ + "unknown"@,
            ),
        )),
{
}

/// An answer in place of a stream: a coded document gives the error of its code;
/// anything else is quoted without the white space around it, whole if it has at
/// most 200 characters and by its first 200 otherwise.
pub proof fn law_answer_errors(answer: Seq<char>)
    ensures
        ({
            let raw = text::trimmed(answer);
            let coded = match json::json_text(raw) {
                Some(v) => coded_error(v),
                None => None,
            };
            &&& coded matches Some(e) ==> answer_error(answer) == e
            &&& coded is None && raw.len() <= 200 ==> answer_error(answer) == ErrorModel::Stream(
                "无法解析的响应: "@ + raw,
            )
            &&& coded is None && raw.len() > 200 ==> answer_error(answer) == ErrorModel::Stream(
                "无法解析的响应: "@ + raw.take(200),
            )
        }),
{
}

} // verus!
