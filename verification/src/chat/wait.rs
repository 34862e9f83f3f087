//! The start and the end of a turn.
//!
//! A turn has started once the backend has sent a `ready` event and then an
//! `update_session` event, and it has ended once it has sent a `close` event.
//! [`ReadyWait`] and [`CloseWait`] watch the bytes of a stream for that; whoever
//! drives them hands over what the connection gives.
use vstd::prelude::*;
use vstd::utf8;

use crate::chat::frame;
use crate::chat::reply;
use crate::encoding;
use crate::error::{CoreError, ErrorModel};
use crate::text;

verus! {

/// Whether a text ends with a blank line.
pub open spec fn ends_blank(s: Seq<char>) -> bool {
    frame::blank_at(s, '\n', s.len() - 2)
}

/// The events of a text that have come in full: all pieces between blank lines,
/// but for the last one if no blank line closes it.
pub open spec fn complete(s: Seq<char>) -> Seq<Seq<char>> {
    if ends_blank(s) {
        frame::blocks_of(s)
    } else {
        frame::blocks_of(s).drop_last()
    }
}

/// The events of a text that have come in full.
fn complete_events<'a>(s: &'a [char]) -> (r: Vec<&'a [char]>)
    ensures
        text::views(r@) == complete(s@),
{
    let mut r = frame::blocks(s);
    let n: usize = s.len();
    let closed = n >= 2 && s[n - 2] == '\n' && s[n - 1] == '\n';
    if !closed {
        let ghost all = text::views(r@);
        r.pop();
        proof {
            assert(text::views(r@) =~= all.drop_last());
        }
    }
    r
}

/// What the wait for the start of a turn has come to.
pub enum ReadyStep {
    /// The turn has not started yet.
    Waiting,
    /// The turn has started; its response has this number.
    Ready(i64),
    /// The backend has refused.
    Failed(CoreError),
}

/// What a [`ReadyStep`] says.
pub enum ReadyModel {
    Waiting,
    Ready(i64),
    Failed(ErrorModel),
}

impl View for ReadyStep {
    type V = ReadyModel;

    open spec fn view(&self) -> ReadyModel {
        match self {
            ReadyStep::Waiting => ReadyModel::Waiting,
            ReadyStep::Ready(id) => ReadyModel::Ready(*id),
            ReadyStep::Failed(e) => ReadyModel::Failed(e@),
        }
    }
}

/// The number that an event leaves known: a `ready` event renews it.
pub open spec fn known_after(event: Seq<char>, known: Option<i64>) -> Option<i64> {
    if frame::is_event(event, "ready"@) {
        Some(reply::ready_ids(utf8::encode_utf8(event)).1)
    } else {
        known
    }
}

/// Goes through events with the number that is known so far. The first hint that
/// reports an error ends the wait, and so does the first `update_session` event
/// with a known number.
pub open spec fn scan(events: Seq<Seq<char>>, known: Option<i64>) -> (Option<i64>, ReadyModel)
    decreases events.len(),
{
    if events.len() == 0 {
        (known, ReadyModel::Waiting)
    } else if events[0].len() == 0 {
        scan(events.drop_first(), known)
    } else {
        match reply::reported_hint(events[0]) {
            Some(e) => (known, ReadyModel::Failed(e)),
            None => {
                let known1 = known_after(events[0], known);
                if known1 is Some && frame::is_event(events[0], "update_session"@) {
                    (known1, ReadyModel::Ready(known1->0))
                } else {
                    scan(events.drop_first(), known1)
                }
            },
        }
    }
}

/// Goes through the events of a text that have come in full, with the number that
/// is known so far, and returns the number that is known then.
pub fn scan_events(text: &str, before: Option<i64>) -> (r: (Option<i64>, ReadyStep))
    ensures
        (r.0, r.1@) == scan(complete(text@), before),
{
    let chars = text::chars_of(text);
    let events = complete_events(chars.as_slice());
    let ghost all = text::views(events@);
    let mut known: Option<i64> = before;
    let mut i: usize = 0;
    proof {
        assert(all.skip(0) =~= all);
    }
    while i < events.len()
        invariant
            i <= events@.len(),
            all == text::views(events@),
            all == complete(text@),
            scan(all.skip(i as int), known) == scan(all, before),
        decreases events@.len() - i,
    {
        let event = events[i];
        proof {
            assert(all.skip(i as int)[0] == event@);
            assert(all.skip(i as int).drop_first() =~= all.skip(i + 1));
        }
        if event.len() > 0 {
            if let Some(e) = reply::hint_in(event) {
                return (known, ReadyStep::Failed(e));
            }
            if frame::has_event(event, "ready") {
                let owned = text::string_of(event);
                known = Some(reply::parse_ready_message_ids(owned.as_str().as_bytes()).1);
            }
            if let Some(id) = known {
                if frame::has_event(event, "update_session") {
                    return (known, ReadyStep::Ready(id));
                }
            }
        }
        i = i + 1;
    }
    (known, ReadyStep::Waiting)
}

/// The message of a stream that stopped too early.
pub open spec fn stopped(
    request_id: Seq<char>,
    chunk_index: int,
    total_chunks: int,
    what: Seq<char>,
) -> Seq<char> {
    "req="@ + request_id + " 分块 "@ + text::decimal(chunk_index) + "/"@ + text::decimal(
        total_chunks,
    ) + what
}

fn stopped_message(
    request_id: &str,
    chunk_index: usize,
    total_chunks: usize,
    what: &str,
) -> (r: String)
    ensures
        r@ == stopped(request_id@, chunk_index as int, total_chunks as int, what@),
{
    let mut message = "req=".to_owned();
    message.append(request_id);
    message.append(" 分块 ");
    text::push_usize(&mut message, chunk_index);
    message.append("/");
    text::push_usize(&mut message, total_chunks);
    message.append(what);
    message
}

/// The wait for the start of a turn.
pub struct ReadyWait {
    buf: Vec<u8>,
    ready_msg_id: Option<i64>,
}

/// The state of a wait for the start of a turn.
pub struct ReadyWaitModel {
    /// All bytes that have come.
    pub buf: Seq<u8>,
    /// The number of the response, once a `ready` event has come.
    pub known: Option<i64>,
}

impl View for ReadyWait {
    type V = ReadyWaitModel;

    closed spec fn view(&self) -> ReadyWaitModel {
        ReadyWaitModel { buf: self.buf@, known: self.ready_msg_id }
    }
}

/// The error of a turn whose stream stopped before it started: what the backend
/// answered, if that looks like a document, or else that nothing came.
pub open spec fn not_started(
    answer: Seq<char>,
    request_id: Seq<char>,
    chunk_index: int,
    total_chunks: int,
) -> ErrorModel {
    if text::after_prefix(text::trimmed(answer), "{"@) is Some {
        reply::answer_error(answer)
    } else {
        ErrorModel::Stream(stopped(request_id, chunk_index, total_chunks, " 收到空流"@))
    }
}

/// The error of a turn whose stream stopped before it started, with `answer` all
/// that came.
pub fn not_started_error(
    answer: &str,
    request_id: &str,
    chunk_index: usize,
    total_chunks: usize,
) -> (r: CoreError)
    ensures
        r@ == not_started(answer@, request_id@, chunk_index as int, total_chunks as int),
{
    let chars = text::chars_of(answer);
    if text::strip_prefix(text::trim(chars.as_slice()), "{").is_some() {
        reply::parse_json_error(answer)
    } else {
        CoreError::Stream(stopped_message(request_id, chunk_index, total_chunks, " 收到空流"))
    }
}

impl ReadyWait {
    /// A wait of which nothing has come yet.
    pub fn new() -> (r: ReadyWait)
        ensures
            r@ == (ReadyWaitModel { buf: Seq::empty(), known: None }),
    {
        ReadyWait { buf: Vec::new(), ready_msg_id: None }
    }

    /// Hands over bytes and goes through all events that have come in full.
    pub fn on_chunk(&mut self, chunk: &[u8]) -> (r: ReadyStep)
        ensures
            final(self)@.buf == old(self)@.buf + chunk@,
            (final(self)@.known, r@) == scan(
                complete(encoding::lossy_text(old(self)@.buf + chunk@)),
                old(self)@.known,
            ),
    {
        self.buf.extend_from_slice(chunk);
        proof {
            assert(self.buf@ =~= old(self).buf@ + chunk@);
        }
        let text = encoding::decode_lossy(self.buf.as_slice());
        let (known, step) = scan_events(text.as_str(), self.ready_msg_id);
        self.ready_msg_id = known;
        step
    }

    /// The error of a stream that stopped before the turn started.
    pub fn on_end(&self, request_id: &str, chunk_index: usize, total_chunks: usize) -> (r:
        CoreError)
        ensures
            r@ == not_started(
                encoding::lossy_text(self@.buf),
                request_id@,
                chunk_index as int,
                total_chunks as int,
            ),
    {
        let answer = encoding::decode_lossy(self.buf.as_slice());
        not_started_error(answer.as_str(), request_id, chunk_index, total_chunks)
    }

    /// All bytes that have come.
    pub fn into_buf(self) -> (r: Vec<u8>)
        ensures
            r@ == self@.buf,
    {
        self.buf
    }
}

/// Whether some event names the end of the turn.
pub open spec fn some_close(events: Seq<Seq<char>>) -> bool {
    exists|i: int| 0 <= i < events.len() && frame::is_event(#[trigger] events[i], "close"@)
}

/// Whether some event of a text that has come in full names the end of the turn.
pub fn has_close(text: &str) -> (r: bool)
    ensures
        r == some_close(complete(text@)),
{
    let chars = text::chars_of(text);
    let events = complete_events(chars.as_slice());
    let ghost all = text::views(events@);
    let mut i: usize = 0;
    while i < events.len()
        invariant
            i <= events@.len(),
            all == text::views(events@),
            all == complete(text@),
            forall|k: int| 0 <= k < i ==> !frame::is_event(#[trigger] all[k], "close"@),
        decreases events@.len() - i,
    {
        assert(all[i as int] == events@[i as int]@);
        if frame::has_event(events[i], "close") {
            return true;
        }
        i = i + 1;
    }
    false
}

/// The wait for the end of a turn.
pub struct CloseWait {
    buf: Vec<u8>,
}

impl View for CloseWait {
    type V = Seq<u8>;

    closed spec fn view(&self) -> Seq<u8> {
        self.buf@
    }
}

impl CloseWait {
    /// A wait of which these bytes have come already.
    pub fn new(buf: Vec<u8>) -> (r: CloseWait)
        ensures
            r@ == buf@,
    {
        CloseWait { buf }
    }

    /// Whether the turn has ended; as long as it has not, more bytes are needed.
    pub fn is_closed(&self) -> (r: bool)
        ensures
            r == some_close(complete(encoding::lossy_text(self@))),
    {
        let text = encoding::decode_lossy(self.buf.as_slice());
        has_close(text.as_str())
    }

    /// Hands over bytes.
    pub fn on_chunk(&mut self, chunk: &[u8])
        ensures
            final(self)@ == old(self)@ + chunk@,
    {
        self.buf.extend_from_slice(chunk);
        proof {
            assert(self.buf@ =~= old(self).buf@ + chunk@);
        }
    }

    /// The error of a stream that stopped before the turn ended.
    pub fn on_end(request_id: &str, chunk_index: usize, total_chunks: usize) -> (r: CoreError)
        ensures
            r@ == ErrorModel::Stream(
                stopped(
                    request_id@,
                    chunk_index as int,
                    total_chunks as int,
                    " 流在 close 前结束"@,
                ),
            ),
    {
        CoreError::Stream(
            stopped_message(request_id, chunk_index, total_chunks, " 流在 close 前结束"),
        )
    }

    /// All bytes that have come.
    pub fn into_buf(self) -> (r: Vec<u8>)
        ensures
            r@ == self@,
    {
        self.buf
    }
}

/// A piece that holds nothing but at most one line feed names no event and
/// reports no hint.
proof fn lemma_trivial_piece(s: Seq<char>, kind: Seq<char>)
    requires
        s.len() < 2,
        s.len() == 1 ==> s[0] == '\n',
    ensures
        !frame::is_event(s, kind),
        reply::reported_hint(s) is None,
{
    reveal_strlit("event:");
    reveal_with_fuel(text::lines_of, 2);
    reveal_with_fuel(text::until, 2);
    let lines = text::lines_of(s);
    assert forall|i: int| 0 <= i < lines.len() implies !frame::names_event(
        #[trigger] lines[i],
        "hint"@,
    ) && !frame::names_event(lines[i], kind) by {
        assert(s.skip(1).len() == 0);
        assert(lines[i].len() == 0);
        assert(text::trimmed(lines[i]).len() == 0);
        assert(!"event:"@.is_prefix_of(text::trimmed(lines[i])));
    }
}

/// A text that holds a blank line: its first piece, what follows, and which of
/// its events have come in full.
proof fn lemma_complete(s: Seq<char>)
    ensures
        match frame::blank_line(s, '\n') {
            Some(i) => {
                let rest = s.skip(i + 2);
                &&& 0 <= i && i + 2 <= s.len()
                &&& rest.len() >= 2 ==> complete(s) == seq![s.take(i)] + complete(rest)
                &&& rest.len() < 2 ==> (complete(s) == seq![s.take(i)] || (complete(s)
                    == seq![s.take(i)] + seq![rest] && (rest.len() == 1 ==> rest[0] == '\n')))
            },
            None => complete(s) == Seq::<Seq<char>>::empty(),
        },
{
    frame::lemma_blank_line(s, '\n');
    match frame::blank_line(s, '\n') {
        Some(i) => {
            let rest = s.skip(i + 2);
            frame::lemma_blank_line(rest, '\n');
            let first = seq![s.take(i)];
            assert(frame::blocks_of(s) == first + frame::blocks_of(rest));
            assert((first + frame::blocks_of(rest)).drop_last() =~= first + frame::blocks_of(
                rest,
            ).drop_last());
            if rest.len() < 2 {
                assert(frame::blocks_of(rest) =~= seq![rest]);
                assert(frame::blocks_of(rest).drop_last() =~= Seq::empty());
                assert(first + Seq::<Seq<char>>::empty() =~= first);
            }
        },
        None => {
            assert(frame::blocks_of(s).drop_last() =~= Seq::empty());
        },
    }
}

proof fn lemma_blank_line_extended(s: Seq<char>, more: Seq<char>)
    ensures
        frame::blank_line(s, '\n') matches Some(i) ==> {
            &&& frame::blank_line(s + more, '\n') == Some(i)
            &&& (s + more).take(i) == s.take(i)
            &&& (s + more).skip(i + 2) == s.skip(i + 2) + more
        },
{
    frame::lemma_blank_line(s, '\n');
    if let Some(i) = frame::blank_line(s, '\n') {
        let all = s + more;
        assert forall|k: int| 0 <= k < i implies !frame::blank_at(all, '\n', k) by {
            assert(!frame::blank_at(s, '\n', k));
        }
        frame::lemma_blank_line_is(all, '\n', i);
        assert(all.take(i) =~= s.take(i));
        assert(all.skip(i + 2) =~= s.skip(i + 2) + more);
    }
}

/// A turn that has ended stays ended, whatever text follows.
pub proof fn law_close_stays(s: Seq<char>, more: Seq<char>)
    requires
        some_close(complete(s)),
    ensures
        some_close(complete(s + more)),
    decreases s.len(),
{
    lemma_complete(s);
    lemma_blank_line_extended(s, more);
    lemma_complete(s + more);
    let k = choose|k: int|
        0 <= k < complete(s).len() && frame::is_event(#[trigger] complete(s)[k], "close"@);
    if let Some(i) = frame::blank_line(s, '\n') {
        let rest = s.skip(i + 2);
        if k == 0 {
            assert(complete(s + more)[0] == complete(s)[0]);
        } else if rest.len() >= 2 {
            assert(complete(s)[k] == complete(rest)[k - 1]);
            law_close_stays(rest, more);
            let j = choose|j: int|
                0 <= j < complete(rest + more).len() && frame::is_event(
                    #[trigger] complete(rest + more)[j],
                    "close"@,
                );
            assert(complete(s + more)[j + 1] == complete(rest + more)[j]);
        } else {
            lemma_trivial_piece(rest, "close"@);
        }
    }
}

/// A start or a refusal stays what it is, whatever text follows: going through
/// the events once more with the same number known gives the same.
pub proof fn law_start_stays(s: Seq<char>, more: Seq<char>, known: Option<i64>)
    requires
        scan(complete(s), known).1 !is Waiting,
    ensures
        scan(complete(s + more), known) == scan(complete(s), known),
    decreases s.len(),
{
    lemma_complete(s);
    lemma_blank_line_extended(s, more);
    lemma_complete(s + more);
    if let Some(i) = frame::blank_line(s, '\n') {
        let rest = s.skip(i + 2);
        let first = s.take(i);
        assert(complete(s)[0] == first);
        assert(complete(s + more)[0] == first);
        let known1 = if first.len() == 0 {
            known
        } else {
            known_after(first, known)
        };
        if rest.len() >= 2 {
            assert(complete(s).drop_first() =~= complete(rest));
            assert(complete(s + more).drop_first() =~= complete(rest + more));
            if scan(complete(rest), known1).1 !is Waiting {
                law_start_stays(rest, more, known1);
            }
        } else {
            if rest.len() == 0 || rest[0] == '\n' {
                lemma_trivial_piece(rest, "ready"@);
                lemma_trivial_piece(rest, "update_session"@);
            }
            assert(seq![first].drop_first() =~= Seq::empty());
            assert((seq![first] + seq![rest]).drop_first() =~= seq![rest]);
            assert(seq![rest].drop_first() =~= Seq::empty());
            reveal_with_fuel(scan, 3);
        }
    }
}

/// Whether an event announces that the turn is ready, with the given number of
/// its response.
pub open spec fn announces(event: Seq<char>, id: i64) -> bool {
    frame::is_event(event, "ready"@) && reply::ready_ids(utf8::encode_utf8(event)).1 == id
}

/// No turn starts by itself: it takes an `update_session` event, and a number that
/// was known before or that a `ready` event announces. Nor is one refused by
/// itself: it takes a hint that reports the error.
pub proof fn law_start_needs_its_events(events: Seq<Seq<char>>, known: Option<i64>)
    ensures
        scan(events, known).1 matches ReadyModel::Ready(id) ==> {
            &&& exists|j: int|
                0 <= j < events.len() && frame::is_event(
                    #[trigger] events[j],
                    "update_session"@,
                )
            &&& known == Some(id) || exists|i: int|
                0 <= i < events.len() && announces(#[trigger] events[i], id)
        },
        scan(events, known).1 matches ReadyModel::Failed(e) ==> exists|i: int|
            0 <= i < events.len() && reply::reported_hint(#[trigger] events[i]) == Some(e),
    decreases events.len(),
{
    if events.len() > 0 {
        let rest = events.drop_first();
        assert forall|i: int| 0 <= i < rest.len() implies #[trigger] rest[i] == events[i + 1] by {}
        let known1 = if events[0].len() == 0 {
            known
        } else {
            known_after(events[0], known)
        };
        law_start_needs_its_events(rest, known1);
        if events[0].len() > 0 && reply::reported_hint(events[0]) is None && known1 is Some {
            assert(announces(events[0], known1->0) || known1 == known);
        }
    }
}

/// A text is read as far as blank lines close its events: all pieces between blank
/// lines if the text ends with two line feeds, and all but the last otherwise.
pub proof fn law_complete(s: Seq<char>)
    ensures
        s.len() >= 2 && s[s.len() - 1] == '\n' && s[s.len() - 2] == '\n' ==> complete(s)
            == frame::blocks_of(s),
        s.len() < 2 || s[s.len() - 1] != '\n' || s[s.len() - 2] != '\n' ==> complete(s)
            == frame::blocks_of(s).drop_last(),
{
}

/// The first event that a blank line closes is read, to the letter, whatever
/// follows it.
pub proof fn law_closed_event_is_read(first: Seq<char>, rest: Seq<char>)
    requires
        forall|k: int|
            0 <= k && k + 1 < first.len() ==> !(#[trigger] first[k] == '\n' && first[k + 1]
                == '\n'),
        first.len() > 0 ==> first.last() != '\n',
    ensures
        complete(first + seq!['\n', '\n'] + rest).len() > 0,
        complete(first + seq!['\n', '\n'] + rest)[0] == first,
{
    let s = first + seq!['\n', '\n'] + rest;
    frame::law_blocks(first, rest);
    let pieces = frame::blocks_of(s);
    assert(pieces[0] == first);
    assert(frame::blocks_of(rest).len() > 0);
    assert(pieces.drop_last()[0] == first);
}

/// One event of a wait for the start of a turn. An empty one is passed over. A hint
/// that names a rate limit or an oversized input refuses the turn. A `ready` event
/// makes its number known, and an `update_session` event starts the turn if a
/// number is known then. After any other event the wait goes on with those that
/// follow.
pub proof fn law_one_event(e: Seq<char>, rest: Seq<Seq<char>>, known: Option<i64>)
    ensures
        ({
            let all = seq![e] + rest;
            let hint = frame::is_event(e, "hint"@);
            let busy = text::contains_text(e, "rate_limit"@);
            let long = text::contains_text(e, "input_exceeds_limit"@);
            let ready = frame::is_event(e, "ready"@);
            let known1 = if ready {
                Some(reply::ready_ids(utf8::encode_utf8(e)).1)
            } else {
                known
            };
            &&& e.len() == 0 ==> scan(all, known) == scan(rest, known)
            &&& e.len() > 0 && hint && busy ==> scan(all, known) == (
                known,
                ReadyModel::Failed(ErrorModel::Overloaded),
            )
            &&& e.len() > 0 && hint && long && !busy ==> scan(all, known) == (
                known,
                ReadyModel::Failed(
                    ErrorModel::ProviderError("输入内容超长，请缩短后重试"@),
                ),
            )
            &&& e.len() > 0 && !(hint && (busy || long)) ==> {
                &&& frame::is_event(e, "update_session"@) ==> (known1 matches Some(id) ==> scan(
                    all,
                    known,
                ) == (Some(id), ReadyModel::Ready(id)))
                &&& !frame::is_event(e, "update_session"@) || known1 is None ==> scan(all, known)
                    == scan(rest, known1)
            }
        }),
        scan(Seq::empty(), known) == (known, ReadyModel::Waiting),
{
    let all = seq![e] + rest;
    assert(all[0] == e);
    assert(all.drop_first() =~= rest);
}

/// A hint that names a rate limit anywhere, as the first event that is not empty,
/// refuses the turn at once because all accounts are busy, whatever else it holds
/// and whatever follows.
pub proof fn law_hint_refuses_the_turn(events: Seq<Seq<char>>, i: int, known: Option<i64>)
    requires
        0 <= i < events.len(),
        forall|k: int| 0 <= k < i ==> (#[trigger] events[k]).len() == 0,
        events[i].len() > 0,
        frame::is_event(events[i], "hint"@),
        text::contains_text(events[i], "rate_limit"@),
    ensures
        scan(events, known) == (known, ReadyModel::Failed(ErrorModel::Overloaded)),
    decreases i,
{
    if i > 0 {
        let rest = events.drop_first();
        assert(events[0].len() == 0);
        assert forall|k: int| 0 <= k < i - 1 implies (#[trigger] rest[k]).len() == 0 by {
            assert(rest[k] == events[k + 1]);
        }
        assert(rest[i - 1] == events[i]);
        law_hint_refuses_the_turn(rest, i - 1, known);
    }
}

/// A turn ends with the first `close` event that a blank line closes, and with
/// nothing else.
pub proof fn law_close_ends_the_turn(first: Seq<char>, rest: Seq<char>, events: Seq<Seq<char>>)
    requires
        forall|k: int|
            0 <= k && k + 1 < first.len() ==> !(#[trigger] first[k] == '\n' && first[k + 1]
                == '\n'),
        first.len() > 0 ==> first.last() != '\n',
    ensures
        frame::is_event(first, "close"@) ==> some_close(
            complete(first + seq!['\n', '\n'] + rest),
        ),
        some_close(events) <==> exists|i: int|
            0 <= i < events.len() && frame::is_event(#[trigger] events[i], "close"@),
{
    law_closed_event_is_read(first, rest);
    let read = complete(first + seq!['\n', '\n'] + rest);
    assert(read[0] == first);
}

/// The error of a stream that stops before the turn starts: an answer that opens
/// like a document, white space aside, is the error that the document stands for;
/// otherwise the request and the chunk are named, to the letter.
pub proof fn law_not_started(
    answer: Seq<char>,
    request_id: Seq<char>,
    chunk_index: int,
    total_chunks: int,
)
    ensures
        text::trimmed(answer).len() > 0 && text::trimmed(answer)[0] == '{' ==> not_started(
            answer,
            request_id,
            chunk_index,
            total_chunks,
        ) == reply::answer_error(answer),
        text::trimmed(answer).len() == 0 || text::trimmed(answer)[0] != '{' ==> not_started(
            answer,
            request_id,
            chunk_index,
            total_chunks,
        ) == ErrorModel::Stream(
            "req="@ + request_id + " 分块 "@ + text::decimal(chunk_index) + "/"@ + text::decimal(
                total_chunks,
            ) + " 收到空流"@,
        ),
{
    reveal_strlit("{");
    let raw = text::trimmed(answer);
    assert("{"@ =~= seq!['{']);
    if raw.len() > 0 {
        assert(raw.subrange(0, 1) =~= seq![raw[0]]);
        assert(raw.subrange(0, 1)[0] == raw[0]);
    }
    text::law_after_prefix("{"@, Seq::empty(), raw);
    if "{"@.is_prefix_of(raw) {
        assert(raw[0] == "{"@[0]);
    }
}

/// The message of a stream that stopped names the request, the chunk and what is
/// missing, in that order and to the letter.
pub proof fn law_stopped(
    request_id: Seq<char>,
    chunk_index: int,
    total_chunks: int,
    what: Seq<char>,
)
    ensures
        stopped(request_id, chunk_index, total_chunks, what) == "req="@ + request_id + " 分块 "@
            + text::decimal(chunk_index) + "/"@ + text::decimal(total_chunks) + what,
{
}

/// A step of a wait says what it holds.
pub proof fn law_ready_steps_say(id: i64, error: CoreError)
    ensures
        ReadyStep::Waiting@ == ReadyModel::Waiting,
        ReadyStep::Ready(id)@ == ReadyModel::Ready(id),
        ReadyStep::Failed(error)@ == ReadyModel::Failed(error@),
{
}

} // verus!
