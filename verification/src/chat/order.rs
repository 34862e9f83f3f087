//! Laws of the event stream: the order of its events, its end, and its
//! independence of how the bytes are cut into chunks.
use vstd::prelude::*;

use crate::chat::event::EventModel;
use crate::chat::frame;
use crate::chat::patch;
use crate::chat::patch::{FragmentModel, PatchModel};
use crate::chat::stream;
use crate::chat::stream::{Phase, StepModel, StreamModel};
use crate::encoding;
use crate::json::JsonModel;

verus! {

/// Whether an event is a piece of thought or of answer.
pub open spec fn is_delta(e: EventModel) -> bool {
    e is ThinkDelta || e is ContentDelta
}

/// Whether all events are pieces of thought or of answer.
pub open spec fn only_deltas(events: Seq<EventModel>) -> bool {
    forall|i: int| 0 <= i < events.len() ==> is_delta(#[trigger] events[i])
}

proof fn lemma_opening_deltas(fragments: Seq<FragmentModel>)
    ensures
        only_deltas(patch::opening_deltas(fragments)),
    decreases fragments.len(),
{
    if fragments.len() > 0 {
        lemma_opening_deltas(fragments.drop_last());
    }
}

proof fn lemma_at_path_deltas(m: PatchModel, path: Seq<char>, op: Seq<char>, val: JsonModel)
    ensures
        only_deltas(patch::at_path(m, path, op, val).1),
{
    if let Some(items) = val.as_array() {
        lemma_opening_deltas(patch::fragments_of(items));
    }
}

proof fn lemma_batch_deltas(
    m: PatchModel,
    parent: Seq<char>,
    items: Seq<JsonModel>,
    path: Seq<char>,
    op: Seq<char>,
)
    ensures
        only_deltas(patch::batch(m, parent, items, path, op).1),
    decreases items,
{
    if items.len() > 0 {
        let path1 = patch::renewed(items[0], "p"@, path);
        let op1 = patch::renewed(items[0], "o"@, op);
        let full = patch::join(parent, path1);
        patch::lemma_member_shrinks(items, 0, "v"@);
        assert(decreases_to!(items => items.subrange(1, items.len() as int)));
        let m1 = match items[0].get("v"@) {
            Some(v) => if op1 == "BATCH"@ {
                match v.as_array() {
                    Some(inner) => {
                        lemma_batch_deltas(m, full, inner, Seq::empty(), "SET"@);
                        patch::batch(m, full, inner, Seq::empty(), "SET"@).0
                    },
                    None => m,
                }
            } else {
                lemma_at_path_deltas(m, full, op1, v);
                patch::at_path(m, full, op1, v).0
            },
            None => m,
        };
        lemma_batch_deltas(m1, parent, items.drop_first(), path1, op1);
    }
}

/// A patch brings nothing but pieces of thought and of answer.
pub proof fn law_patch_brings_deltas(m: PatchModel, val: JsonModel)
    ensures
        only_deltas(patch::patch(m, val).1),
{
    let m1 = PatchModel {
        path: match val.str_at("p"@) {
            Some(p) => Some(p),
            None => m.path,
        },
        op: match val.str_at("o"@) {
            Some(o) => Some(o),
            None => m.op,
        },
        ..m
    };
    if let Some(v) = val.get("v"@) {
        if let Some(response) = v.get("response"@) {
            if let Some(items) = response.array_at("fragments"@) {
                lemma_opening_deltas(patch::fragments_of(items));
            }
        }
        if let Some(items) = v.as_array() {
            lemma_batch_deltas(m1, m1.path_in_force(), items, Seq::empty(), "SET"@);
        }
        lemma_at_path_deltas(m1, m1.path_in_force(), m1.op_in_force(), v);
    }
}

/// Whether `b` may come right after `a` in a response.
pub open spec fn follows(a: EventModel, b: EventModel) -> bool {
    match a {
        EventModel::Meta { .. } => b is ThinkStart || b is ContentStart || b is Done,
        EventModel::ThinkStart => b is ThinkDelta,
        EventModel::ThinkDelta { .. } => b is ThinkDelta || b is ContentStart || b is Done,
        EventModel::ContentStart => b is ContentDelta,
        EventModel::ContentDelta { .. } => b is ContentDelta || b is Done,
        EventModel::Done { .. } => false,
    }
}

/// The order of the events of a response. The account comes first and only
/// there. Pieces of thought come right after the start of thinking or after one
/// another, pieces of answer right after the start of the answer or after one
/// another, and no start comes without a piece after it unless the list stops
/// there. No thinking comes after the answer has started. The end comes last and
/// only there.
pub open spec fn in_order(events: Seq<EventModel>, account_id: Seq<char>) -> bool {
    &&& events.len() > 0 ==> events[0] == (EventModel::Meta { account_id })
    &&& forall|i: int|
        0 <= i && i + 1 < events.len() ==> follows(#[trigger] events[i], events[i + 1])
}

/// The phase that a response is in after an event.
pub open spec fn phase_after(e: EventModel) -> Option<Phase> {
    match e {
        EventModel::Meta { .. } => Some(Phase::Init),
        EventModel::ThinkDelta { .. } => Some(Phase::Thinking),
        EventModel::ContentDelta { .. } => Some(Phase::Content),
        EventModel::Done { .. } => Some(Phase::Done),
        _ => None,
    }
}

/// What is done to a stream.
pub enum Call {
    /// The next step is asked for.
    Poll,
    /// Bytes are handed over.
    Feed(Seq<u8>),
    /// The connection has given everything.
    Close,
}

/// The state of a stream after a call.
pub open spec fn after_call(m: StreamModel, call: Call) -> StreamModel {
    match call {
        Call::Poll => stream::next_step(m).0,
        Call::Feed(chunk) => m.fed(chunk),
        Call::Close => m.closed(),
    }
}

/// The event that a call hands out, if it hands out any.
pub open spec fn event_of_call(m: StreamModel, call: Call) -> Seq<EventModel> {
    match call {
        Call::Poll => match stream::next_step(m).1 {
            StepModel::Event(e) => seq![e],
            _ => Seq::empty(),
        },
        _ => Seq::empty(),
    }
}

/// The state of a stream after a list of calls.
pub open spec fn after(m: StreamModel, calls: Seq<Call>) -> StreamModel
    decreases calls.len(),
{
    if calls.len() == 0 {
        m
    } else {
        after_call(after(m, calls.drop_last()), calls.last())
    }
}

/// The events that a list of calls hands out.
pub open spec fn emitted(m: StreamModel, calls: Seq<Call>) -> Seq<EventModel>
    decreases calls.len(),
{
    if calls.len() == 0 {
        Seq::empty()
    } else {
        emitted(m, calls.drop_last()) + event_of_call(after(m, calls.drop_last()), calls.last())
    }
}

/// How the state of a stream fits the events that it has handed out: what was
/// handed out and what is queued are in order together, the phase is the one that
/// they lead to, and an end says what the state knows.
spec fn fits(m: StreamModel, sent: Seq<EventModel>, account_id: Seq<char>) -> bool {
    let all = sent + m.pending;
    &&& m.account_id == account_id
    &&& in_order(all, account_id)
    &&& m.meta_sent == (sent.len() > 0)
    &&& if m.meta_sent {
        &&& phase_after(all.last()) == Some(m.phase)
        &&& m.phase is Done ==> all.last() == stream::last_event(m.patch)
    } else {
        m.pending.len() == 0 && m.phase is Init
    }
}

proof fn lemma_announce_all(phase: Phase, events: Seq<EventModel>, sent: Seq<EventModel>, id: Seq<char>)
    requires
        only_deltas(events),
        sent.len() > 0,
        in_order(sent, id),
        phase_after(sent.last()) == Some(phase),
        phase !is Done,
    ensures
        ({
            let (phase1, queue) = stream::announce_all(phase, events);
            let all = sent + queue;
            &&& in_order(all, id)
            &&& phase_after(all.last()) == Some(phase1)
            &&& phase1 !is Done
        }),
    decreases events.len(),
{
    if events.len() == 0 {
        assert(sent + Seq::<EventModel>::empty() =~= sent);
    } else {
        lemma_announce_all(phase, events.drop_last(), sent, id);
        let (before, queue) = stream::announce_all(phase, events.drop_last());
        let (after, last) = stream::announce(before, events.last());
        let all = sent + queue;
        assert(is_delta(events.last()));
        assert(sent + (queue + last) =~= all + last);
        if last.len() > 0 {
            lemma_extend(all, last, id);
        } else {
            assert(all + last =~= all);
        }
    }
}

proof fn lemma_extend(all: Seq<EventModel>, more: Seq<EventModel>, id: Seq<char>)
    requires
        all.len() > 0,
        in_order(all, id),
        more.len() > 0,
        follows(all.last(), more[0]),
        forall|i: int| 0 <= i && i + 1 < more.len() ==> follows(#[trigger] more[i], more[i + 1]),
    ensures
        in_order(all + more, id),
{
    let both = all + more;
    assert forall|i: int| 0 <= i && i + 1 < both.len() implies follows(
        #[trigger] both[i],
        both[i + 1],
    ) by {
        if i + 1 < all.len() {
            assert(both[i] == all[i] && both[i + 1] == all[i + 1]);
        } else if i >= all.len() {
            let k = i - all.len();
            assert(both[i] == more[k] && both[i + 1] == more[k + 1]);
        }
    }
}

proof fn lemma_take_in(m: StreamModel, text: Seq<char>, sent: Seq<EventModel>, id: Seq<char>)
    requires
        fits(m, sent, id),
        m.meta_sent,
        m.pending.len() == 0,
        m.phase !is Done,
    ensures
        ({
            let (m1, step) = stream::take_in(m, text);
            match step {
                Some(StepModel::Event(e)) => fits(m1, sent.push(e), id),
                _ => fits(m1, sent, id) && m1.pending.len() == 0 && m1.phase == m.phase,
            }
        }),
{
    let (state, outcome) = patch::frame_outcome(m.patch, text);
    assert(sent + m.pending =~= sent);
    if let Ok(events) = outcome {
        if let Some(data) = frame::field_of(text, "data:"@) {
            if let Some(val) = crate::json::json_text(data) {
                law_patch_brings_deltas(m.patch, val);
            }
        }
        if events.len() > 0 {
            lemma_announce_all(m.phase, events, sent, id);
            let (phase, queue) = stream::announce_all(m.phase, events);
            let (m1, step) = stream::take_in(m, text);
            let full = match patch::announced_end(state) {
                Some(end) => queue.push(end),
                None => queue,
            };
            if let Some(end) = patch::announced_end(state) {
                assert(sent + full =~= (sent + queue) + seq![end]);
                lemma_extend(sent + queue, seq![end], id);
            }
            if full.len() > 0 {
                assert(sent.push(full[0]) + m1.pending =~= sent + full);
            }
        }
    }
}

proof fn lemma_work(m: StreamModel, sent: Seq<EventModel>, id: Seq<char>)
    requires
        fits(m, sent, id),
        m.meta_sent,
        m.pending.len() == 0,
        m.phase !is Done,
    ensures
        ({
            let (m1, step) = stream::work(m);
            match step {
                StepModel::Event(e) => fits(m1, sent.push(e), id),
                _ => fits(m1, sent, id),
            }
        }),
    decreases m.buf.len(),
{
    match frame::next_frame(m.buf) {
        Some((bytes, rest)) => {
            stream::lemma_next_frame_shrinks(m.buf);
            let m0 = StreamModel { buf: rest, ..m };
            lemma_take_in(m0, encoding::lossy_text(bytes), sent, id);
            let (m1, step) = stream::take_in(m0, encoding::lossy_text(bytes));
            if step is None {
                lemma_work(m1, sent, id);
            }
        },
        None => if m.finished {
            let m0 = StreamModel { buf: Seq::empty(), ..m };
            lemma_take_in(m0, encoding::lossy_text(m.buf), sent, id);
            let (m1, step) = if m.buf.len() == 0 {
                (m, None)
            } else {
                stream::take_in(m0, encoding::lossy_text(m.buf))
            };
            if step is None {
                let end = stream::last_event(m1.patch);
                let m2 = StreamModel { phase: Phase::Done, ..m1 };
                assert(sent + m1.pending =~= sent);
                lemma_extend(sent, seq![end], id);
                assert(sent.push(end) + m2.pending =~= sent + seq![end]);
            }
        },
    }
}

proof fn lemma_call(m: StreamModel, call: Call, sent: Seq<EventModel>, id: Seq<char>)
    requires
        fits(m, sent, id),
    ensures
        fits(after_call(m, call), sent + event_of_call(m, call), id),
{
    let more = event_of_call(m, call);
    let m1 = after_call(m, call);
    if call is Poll {
        if !m.meta_sent {
            assert(sent + more + m1.pending =~= seq![EventModel::Meta { account_id: id }]);
        } else if m.pending.len() > 0 {
            assert(sent + more + m1.pending =~= sent + m.pending);
        } else if m.phase is Done {
            assert(sent + more =~= sent);
        } else {
            lemma_work(m, sent, id);
            match stream::work(m).1 {
                StepModel::Event(e) => {
                    assert(sent + more =~= sent.push(e));
                },
                _ => {
                    assert(sent + more =~= sent);
                },
            }
        }
    } else {
        assert(sent + more =~= sent);
    }
}

proof fn lemma_calls(account_id: Seq<char>, calls: Seq<Call>)
    ensures
        fits(
            after(StreamModel::fresh(account_id), calls),
            emitted(StreamModel::fresh(account_id), calls),
            account_id,
        ),
    decreases calls.len(),
{
    let m = StreamModel::fresh(account_id);
    if calls.len() > 0 {
        lemma_calls(account_id, calls.drop_last());
        lemma_call(
            after(m, calls.drop_last()),
            calls.last(),
            emitted(m, calls.drop_last()),
            account_id,
        );
    }
}

/// Whatever bytes come, however they are cut, and whenever the next step is asked
/// for: the events that a stream hands out are in order.
pub proof fn law_events_in_order(account_id: Seq<char>, calls: Seq<Call>)
    ensures
        in_order(emitted(StreamModel::fresh(account_id), calls), account_id),
{
    lemma_calls(account_id, calls);
    let sent = emitted(StreamModel::fresh(account_id), calls);
    let all = sent + after(StreamModel::fresh(account_id), calls).pending;
    assert forall|i: int| 0 <= i && i + 1 < sent.len() implies follows(
        #[trigger] sent[i],
        sent[i + 1],
    ) by {
        assert(all[i] == sent[i] && all[i + 1] == sent[i + 1]);
    }
    assert(sent.len() > 0 ==> all[0] == sent[0]);
}

/// Whether thinking starts at most once, the answer starts at most once, and
/// nothing is thought after the answer has started.
pub open spec fn thinks_then_answers(events: Seq<EventModel>) -> bool {
    &&& forall|i: int, j: int|
        0 <= i < j < events.len() ==> !(#[trigger] events[i] is ThinkStart
            && #[trigger] events[j] is ThinkStart)
    &&& forall|i: int, j: int|
        0 <= i < j < events.len() ==> !(#[trigger] events[i] is ContentStart
            && #[trigger] events[j] is ContentStart)
    &&& forall|i: int, j: int|
        0 <= i < j < events.len() ==> !(#[trigger] events[i] is ContentStart && (
        #[trigger] events[j] is ThinkStart || events[j] is ThinkDelta))
}

proof fn lemma_answers_to_the_end(events: Seq<EventModel>, account_id: Seq<char>, i: int, j: int)
    requires
        in_order(events, account_id),
        0 <= i < j < events.len(),
        events[i] is ContentStart,
    ensures
        events[j] is ContentDelta || events[j] is Done,
    decreases j - i,
{
    assert(follows(events[j - 1], events[j]));
    if i < j - 1 {
        lemma_answers_to_the_end(events, account_id, i, j - 1);
    }
}

proof fn lemma_thinks_or_answers_on(
    events: Seq<EventModel>,
    account_id: Seq<char>,
    i: int,
    j: int,
)
    requires
        in_order(events, account_id),
        0 <= i < j < events.len(),
        events[i] is ThinkStart,
    ensures
        events[j] !is ThinkStart,
        events[j] !is Meta,
    decreases j - i,
{
    assert(follows(events[j - 1], events[j]));
    if i < j - 1 {
        lemma_thinks_or_answers_on(events, account_id, i, j - 1);
    }
}

/// A response thinks at most once, answers at most once, and thinks first: there
/// is no thinking after the answer has started.
pub proof fn law_thinks_then_answers(account_id: Seq<char>, calls: Seq<Call>)
    ensures
        thinks_then_answers(emitted(StreamModel::fresh(account_id), calls)),
{
    let s = emitted(StreamModel::fresh(account_id), calls);
    law_events_in_order(account_id, calls);
    assert forall|i: int, j: int| 0 <= i < j < s.len() implies !(#[trigger] s[i] is ThinkStart
        && #[trigger] s[j] is ThinkStart) by {
        if s[i] is ThinkStart {
            lemma_thinks_or_answers_on(s, account_id, i, j);
        }
    }
    assert forall|i: int, j: int| 0 <= i < j < s.len() implies !(#[trigger] s[i] is ContentStart
        && #[trigger] s[j] is ContentStart) by {
        if s[i] is ContentStart {
            lemma_answers_to_the_end(s, account_id, i, j);
        }
    }
    assert forall|i: int, j: int| 0 <= i < j < s.len() implies !(#[trigger] s[i] is ContentStart
        && (#[trigger] s[j] is ThinkStart || s[j] is ThinkDelta)) by {
        if s[i] is ContentStart {
            lemma_answers_to_the_end(s, account_id, i, j);
        }
    }
}

/// A stream that has nothing more to hand out has ended its response, and the
/// end is the last event that it handed out.
pub proof fn law_end_is_announced(account_id: Seq<char>, calls: Seq<Call>)
    requires
        stream::next_step(after(StreamModel::fresh(account_id), calls)).1 is End,
    ensures
        emitted(StreamModel::fresh(account_id), calls).len() > 0,
        emitted(StreamModel::fresh(account_id), calls).last() is Done,
{
    lemma_calls(account_id, calls);
    let m = after(StreamModel::fresh(account_id), calls);
    let sent = emitted(StreamModel::fresh(account_id), calls);
    lemma_work_never_ends(m);
    assert(sent + m.pending =~= sent);
}

/// The end of a response says what its status says: the reason is `stop` if and
/// only if the status is `FINISHED`, and under a status that announces the end
/// the token count is the last one that came.
pub proof fn law_end_says_the_status(account_id: Seq<char>, calls: Seq<Call>)
    ensures
        ({
            let state = after(StreamModel::fresh(account_id), calls).patch;
            let sent = emitted(StreamModel::fresh(account_id), calls);
            sent.len() > 0 ==> (sent.last() matches EventModel::Done {
                finish_reason,
                accumulated_token_usage,
            } ==> {
                &&& finish_reason == Some("stop"@) <==> state.status == Some("FINISHED"@)
                &&& finish_reason is None <==> state.status != Some("FINISHED"@)
                &&& state.status == Some("FINISHED"@) || state.status == Some("INCOMPLETE"@)
                    ==> accumulated_token_usage == state.usage
            })
        }),
{
    let m = after(StreamModel::fresh(account_id), calls);
    let sent = emitted(StreamModel::fresh(account_id), calls);
    lemma_calls(account_id, calls);
    if sent.len() > 0 && sent.last() is Done {
        let all = sent + m.pending;
        if m.pending.len() > 0 {
            let k = sent.len() - 1;
            assert(follows(all[k], all[k + 1]));
        }
        assert(all =~= sent);
    }
}

/// Taking in frames never gives that there is nothing more.
pub proof fn lemma_work_never_ends(m: StreamModel)
    ensures
        stream::work(m).1 !is End,
        stream::work(m).1 is NeedInput ==> !m.finished,
    decreases m.buf.len(),
{
    if let Some((bytes, rest)) = frame::next_frame(m.buf) {
        stream::lemma_next_frame_shrinks(m.buf);
        let (m1, step) = stream::take_in(
            StreamModel { buf: rest, ..m },
            encoding::lossy_text(bytes),
        );
        if step is None {
            lemma_work_never_ends(m1);
        }
    }
}

/// How much a stream can still hand out without input, after what it holds in
/// bytes.
pub open spec fn waiting(m: StreamModel) -> nat {
    m.pending.len() + (if m.meta_sent {
        0nat
    } else {
        1nat
    }) + (if m.phase is Done {
        0nat
    } else {
        1nat
    })
}

proof fn lemma_work_shrinks(m: StreamModel)
    requires
        m.pending.len() == 0,
        m.meta_sent,
        m.phase !is Done,
    ensures
        ({
            let (m1, step) = stream::work(m);
            &&& m1.buf.len() <= m.buf.len()
            &&& !(step is NeedInput) && m1.buf.len() == m.buf.len() ==> waiting(m1) < waiting(m)
        }),
    decreases m.buf.len(),
{
    if let Some((bytes, rest)) = frame::next_frame(m.buf) {
        stream::lemma_next_frame_shrinks(m.buf);
        let (m1, step) = stream::take_in(
            StreamModel { buf: rest, ..m },
            encoding::lossy_text(bytes),
        );
        if step is None {
            lemma_work_shrinks(m1);
        }
    }
}

/// Everything that a stream hands out until it needs input or has ended, and its
/// state then.
pub open spec fn drain(m: StreamModel) -> (StreamModel, Seq<StepModel>)
    decreases m.buf.len(), waiting(m),
    via drain_shrinks
{
    let (m1, step) = stream::next_step(m);
    if step is NeedInput || step is End {
        (m1, Seq::empty())
    } else {
        let (m2, rest) = drain(m1);
        (m2, seq![step] + rest)
    }
}

#[via_fn]
proof fn drain_shrinks(m: StreamModel) {
    lemma_step_shrinks(m);
}

/// A step that hands something out leaves less: fewer bytes, or as many and less
/// that waits.
pub proof fn lemma_step_shrinks(m: StreamModel)
    ensures
        ({
            let (m1, step) = stream::next_step(m);
            step is NeedInput || step is End || m1.buf.len() < m.buf.len() || (m1.buf.len()
                == m.buf.len() && waiting(m1) < waiting(m))
        }),
{
    if m.meta_sent && m.pending.len() == 0 && m.phase !is Done {
        lemma_work_shrinks(m);
    }
}

proof fn lemma_next_frame_fed(buf: Seq<u8>, more: Seq<u8>)
    ensures
        frame::next_frame(buf) matches Some((bytes, rest)) ==> frame::next_frame(buf + more)
            == Some((bytes, rest + more)),
{
    frame::lemma_blank_line(buf, 10u8);
    if let Some(i) = frame::blank_line(buf, 10u8) {
        let all = buf + more;
        assert(frame::blank_at(all, 10u8, i));
        assert forall|k: int| 0 <= k < i implies !frame::blank_at(all, 10u8, k) by {
            assert(!frame::blank_at(buf, 10u8, k));
        }
        frame::lemma_blank_line_is(all, 10u8, i);
        assert(all.take(i) =~= buf.take(i));
        assert(all.skip(i + 2) =~= buf.skip(i + 2) + more);
    }
}

proof fn lemma_work_fed(m: StreamModel, more: Seq<u8>)
    requires
        !m.finished,
    ensures
        ({
            let (m1, step) = stream::work(m);
            &&& !m1.finished
            &&& if step is NeedInput {
                stream::work(m.fed(more)) == stream::work(m1.fed(more))
            } else {
                stream::work(m.fed(more)) == (m1.fed(more), step)
            }
        }),
    decreases m.buf.len(),
{
    if let Some((bytes, rest)) = frame::next_frame(m.buf) {
        stream::lemma_next_frame_shrinks(m.buf);
        lemma_next_frame_fed(m.buf, more);
        let m0 = StreamModel { buf: rest, ..m };
        let (m1, step) = stream::take_in(m0, encoding::lossy_text(bytes));
        assert(stream::take_in(m0.fed(more), encoding::lossy_text(bytes)) == (m1.fed(more), step));
        if step is None {
            lemma_work_fed(m1, more);
        }
    }
}

proof fn lemma_next_step_fed(m: StreamModel, more: Seq<u8>)
    requires
        !m.finished,
    ensures
        ({
            let (m1, step) = stream::next_step(m);
            &&& !m1.finished
            &&& if step is NeedInput {
                stream::work(m.fed(more)) == stream::work(m1.fed(more)) && m1.meta_sent
                    && m1.pending.len() == 0 && m1.phase !is Done && m.meta_sent && m.pending.len()
                    == 0 && m.phase !is Done
            } else {
                stream::next_step(m.fed(more)) == (m1.fed(more), step)
            }
        }),
{
    if m.meta_sent && m.pending.len() == 0 && m.phase !is Done {
        lemma_work_fed(m, more);
        lemma_work_waits(m);
    }
}

proof fn lemma_work_waits(m: StreamModel)
    ensures
        ({
            let (m1, step) = stream::work(m);
            step is NeedInput ==> m1.meta_sent == m.meta_sent && m1.pending == m.pending
                && m1.phase == m.phase
        }),
    decreases m.buf.len(),
{
    if let Some((bytes, rest)) = frame::next_frame(m.buf) {
        stream::lemma_next_frame_shrinks(m.buf);
        let (m1, step) = stream::take_in(
            StreamModel { buf: rest, ..m },
            encoding::lossy_text(bytes),
        );
        if step is None {
            lemma_work_waits(m1);
        }
    }
}

/// Handing out all that can be handed out before more bytes come changes nothing
/// in what the stream hands out in all, nor in its state afterwards.
pub proof fn law_draining_early(m: StreamModel, more: Seq<u8>)
    requires
        !m.finished,
    ensures
        ({
            let (m1, first) = drain(m);
            let (m2, second) = drain(m1.fed(more));
            &&& drain(m.fed(more)) == (m2, first + second)
            &&& !m1.finished
        }),
    decreases m.buf.len(), waiting(m),
{
    lemma_step_shrinks(m);
    lemma_next_step_fed(m, more);
    let (m1, step) = stream::next_step(m);
    if step is NeedInput {
        assert(stream::next_step(m.fed(more)) == stream::next_step(m1.fed(more)));
        assert(drain(m.fed(more)) == drain(m1.fed(more)));
        let (m2, second) = drain(m1.fed(more));
        assert(Seq::<StepModel>::empty() + second =~= second);
    } else if step is End {
        lemma_work_never_ends(m);
        let (m2, second) = drain(m1.fed(more));
        assert(Seq::<StepModel>::empty() + second =~= second);
    } else {
        law_draining_early(m1, more);
        let (m2, first) = drain(m1);
        let (m3, second) = drain(m2.fed(more));
        assert(drain(m.fed(more)) == (m3, seq![step] + (first + second)));
        assert(seq![step] + (first + second) =~= (seq![step] + first) + second);
    }
}

/// The bytes of a list of chunks, one after the other.
pub open spec fn joined(chunks: Seq<Seq<u8>>) -> Seq<u8>
    decreases chunks.len(),
{
    if chunks.len() == 0 {
        Seq::empty()
    } else {
        chunks[0] + joined(chunks.drop_first())
    }
}

/// Everything that a stream hands out when the bytes come in chunks and all that
/// can be handed out is handed out after each, and its state then.
pub open spec fn drain_chunks(m: StreamModel, chunks: Seq<Seq<u8>>) -> (
    StreamModel,
    Seq<StepModel>,
)
    decreases chunks.len(),
{
    if chunks.len() == 0 {
        drain(m)
    } else {
        let (m1, first) = drain(m.fed(chunks[0]));
        let (m2, rest) = drain_chunks(m1, chunks.drop_first());
        (m2, first + rest)
    }
}

/// How the bytes of a response are cut into chunks does not matter: what the
/// stream hands out, and the state that it is in then, depend on the bytes alone.
pub proof fn law_chunks_do_not_matter(m: StreamModel, chunks: Seq<Seq<u8>>)
    requires
        !m.finished,
    ensures
        drain_chunks(m, chunks) == drain(m.fed(joined(chunks))),
    decreases chunks.len(),
{
    if chunks.len() == 0 {
        assert(m.buf + Seq::<u8>::empty() =~= m.buf);
    } else {
        let rest = joined(chunks.drop_first());
        let (m1, first) = drain(m.fed(chunks[0]));
        law_draining_early(m.fed(chunks[0]), rest);
        law_chunks_do_not_matter(m1, chunks.drop_first());
        assert(m.buf + chunks[0] + rest =~= m.buf + joined(chunks));
        assert(m.fed(chunks[0]).fed(rest) == m.fed(joined(chunks)));
    }
}

proof fn lemma_work_closed(m: StreamModel)
    requires
        !m.finished,
    ensures
        ({
            let (m1, step) = stream::work(m);
            if step is NeedInput {
                stream::work(m.closed()) == stream::work(m1.closed())
            } else {
                stream::work(m.closed()) == (m1.closed(), step)
            }
        }),
    decreases m.buf.len(),
{
    if let Some((bytes, rest)) = frame::next_frame(m.buf) {
        stream::lemma_next_frame_shrinks(m.buf);
        let m0 = StreamModel { buf: rest, ..m };
        let (m1, step) = stream::take_in(m0, encoding::lossy_text(bytes));
        assert(stream::take_in(m0.closed(), encoding::lossy_text(bytes)) == (m1.closed(), step));
        if step is None {
            lemma_work_closed(m1);
        }
    }
}

/// Handing out all that can be handed out before the connection ends changes
/// nothing in what the stream hands out in all, nor in its state afterwards.
pub proof fn law_draining_before_the_end(m: StreamModel)
    requires
        !m.finished,
    ensures
        ({
            let (m1, first) = drain(m);
            let (m2, second) = drain(m1.closed());
            drain(m.closed()) == (m2, first + second)
        }),
    decreases m.buf.len(), waiting(m),
{
    lemma_step_shrinks(m);
    let (m1, step) = stream::next_step(m);
    if m.meta_sent && m.pending.len() == 0 && m.phase !is Done {
        lemma_work_closed(m);
        lemma_work_waits(m);
        lemma_work_keeps_finished(m);
        lemma_work_never_ends(m);
    }
    if step is NeedInput || step is End {
        assert(stream::next_step(m.closed()) == stream::next_step(m1.closed()));
        assert(drain(m.closed()) == drain(m1.closed()));
        let (m2, second) = drain(m1.closed());
        assert(Seq::<StepModel>::empty() + second =~= second);
    } else {
        law_draining_before_the_end(m1);
        let (m2, first) = drain(m1);
        let (m3, second) = drain(m2.closed());
        assert(stream::next_step(m.closed()) == (m1.closed(), step));
        lemma_step_shrinks(m.closed());
        assert(drain(m.closed()) == (m3, seq![step] + (first + second)));
        assert(seq![step] + (first + second) =~= (seq![step] + first) + second);
    }
}

/// Everything that a stream hands out when the bytes come in chunks, all that can
/// be handed out is handed out after each, and the connection then ends; and its
/// state at the end.
pub open spec fn drain_all(m: StreamModel, chunks: Seq<Seq<u8>>) -> (StreamModel, Seq<StepModel>) {
    let (m1, first) = drain_chunks(m, chunks);
    let (m2, second) = drain(m1.closed());
    (m2, first + second)
}

/// What a stream hands out in all depends on the bytes alone, and not on how they
/// are cut into chunks or how often the next step is asked for in between.
pub proof fn law_whole_response(m: StreamModel, chunks: Seq<Seq<u8>>)
    requires
        !m.finished,
    ensures
        drain_all(m, chunks) == drain(m.fed(joined(chunks)).closed()),
{
    law_chunks_do_not_matter(m, chunks);
    law_draining_before_the_end(m.fed(joined(chunks)));
}

/// Once the connection has given everything, the stream hands out all that it
/// has and ends; it never asks for input again.
pub proof fn law_closed_stream_ends(m: StreamModel)
    requires
        m.finished,
    ensures
        stream::next_step(drain(m).0).1 is End,
        stream::next_step(m).1 !is NeedInput,
    decreases m.buf.len(), waiting(m),
{
    lemma_step_shrinks(m);
    lemma_work_never_ends(m);
    lemma_work_keeps_finished(m);
    let (m1, step) = stream::next_step(m);
    if !(step is End) {
        law_closed_stream_ends(m1);
    }
}

/// Whether the connection has given everything is not for a step to change.
pub proof fn lemma_work_keeps_finished(m: StreamModel)
    ensures
        stream::work(m).0.finished == m.finished,
    decreases m.buf.len(),
{
    if let Some((bytes, rest)) = frame::next_frame(m.buf) {
        stream::lemma_next_frame_shrinks(m.buf);
        let (m1, step) = stream::take_in(
            StreamModel { buf: rest, ..m },
            encoding::lossy_text(bytes),
        );
        if step is None {
            lemma_work_keeps_finished(m1);
        }
    }
}

/// The first piece of thought is announced, and so is the first piece of answer; a
/// piece goes out to the letter. A thought after the start of the answer does not
/// go out, and the answer goes on.
pub proof fn law_announcements(content: Seq<char>)
    ensures
        ({
            let thought = EventModel::ThinkDelta { content };
            let answer = EventModel::ContentDelta { content };
            &&& stream::announce(Phase::Init, thought) == (
                Phase::Thinking,
                seq![EventModel::ThinkStart, thought],
            )
            &&& stream::announce(Phase::Thinking, thought) == (Phase::Thinking, seq![thought])
            &&& stream::announce(Phase::Content, thought) == (
                Phase::Content,
                Seq::<EventModel>::empty(),
            )
            &&& stream::announce(Phase::Init, answer) == (
                Phase::Content,
                seq![EventModel::ContentStart, answer],
            )
            &&& stream::announce(Phase::Thinking, answer) == (
                Phase::Content,
                seq![EventModel::ContentStart, answer],
            )
            &&& stream::announce(Phase::Content, answer) == (Phase::Content, seq![answer])
        }),
{
}

/// Events go out one after the other, each in the phase that those before it lead
/// to.
pub proof fn law_announced_in_order(phase: Phase, events: Seq<EventModel>, e: EventModel)
    ensures
        ({
            let (before, sent) = stream::announce_all(phase, events);
            let (after, last) = stream::announce(before, e);
            stream::announce_all(phase, events.push(e)) == (after, sent + last)
        }),
        stream::announce_all(phase, Seq::empty()) == (phase, Seq::<EventModel>::empty()),
{
    assert(events.push(e).drop_last() =~= events);
}

/// Bytes that are handed over come after those that are there, and the end of the
/// connection is noted; neither changes anything else.
pub proof fn law_input(m: StreamModel, chunk: Seq<u8>)
    ensures
        m.fed(chunk).buf == m.buf + chunk,
        m.fed(chunk) == (StreamModel { buf: m.buf + chunk, ..m }),
        m.closed().finished,
        m.closed() == (StreamModel { finished: true, ..m }),
{
}

/// A stream starts with nothing but its account.
pub proof fn law_stream_starts_empty(account_id: Seq<char>)
    ensures
        ({
            let m = StreamModel::fresh(account_id);
            &&& m.account_id == account_id
            &&& m.buf.len() == 0 && m.pending.len() == 0
            &&& m.phase is Init && !m.meta_sent && !m.finished
            &&& m.patch.status is None && m.patch.usage is None && m.patch.fragments.len() == 0
        }),
{
}

/// The end that a status announces: complete under `FINISHED`, incomplete under
/// `INCOMPLETE`, both with the count that came last, whatever it is. No other status
/// announces an end; at the end of the connection the response is then incomplete.
pub proof fn law_status_announces_the_end(state: PatchModel)
    ensures
        state.status == Some("FINISHED"@) ==> patch::announced_end(state) == Some(
            EventModel::Done {
                finish_reason: Some("stop"@),
                accumulated_token_usage: state.usage,
            },
        ),
        state.status == Some("INCOMPLETE"@) ==> patch::announced_end(state) == Some(
            EventModel::Done { finish_reason: None, accumulated_token_usage: state.usage },
        ),
        state.status != Some("FINISHED"@) && state.status != Some("INCOMPLETE"@)
            ==> patch::announced_end(state) is None && stream::last_event(state) == (
        EventModel::Done { finish_reason: None, accumulated_token_usage: None }),
        state.status == Some("FINISHED"@) ==> stream::last_event(state) == (EventModel::Done {
            finish_reason: Some("stop"@),
            accumulated_token_usage: state.usage,
        }),
        state.status == Some("INCOMPLETE"@) ==> stream::last_event(state) == (EventModel::Done {
            finish_reason: None,
            accumulated_token_usage: state.usage,
        }),
{
    reveal_strlit("FINISHED");
    reveal_strlit("INCOMPLETE");
    assert("FINISHED"@.len() != "INCOMPLETE"@.len());
}

/// The steps that need no frame: the account comes first, then what is queued, in
/// order; a response that has ended has nothing more; and without a frame the
/// stream waits as long as the connection is open.
pub proof fn law_steps_without_a_frame(m: StreamModel)
    ensures
        !m.meta_sent ==> stream::next_step(m) == (
            StreamModel { meta_sent: true, ..m },
            StepModel::Event(EventModel::Meta { account_id: m.account_id }),
        ),
        m.meta_sent && m.pending.len() > 0 ==> stream::next_step(m) == (
            StreamModel { pending: m.pending.skip(1), ..m },
            StepModel::Event(m.pending[0]),
        ),
        m.meta_sent && m.pending.len() == 0 && m.phase is Done ==> stream::next_step(m) == (
            m,
            StepModel::End,
        ),
        m.meta_sent && m.pending.len() == 0 && m.phase !is Done && frame::next_frame(m.buf) is None
            && !m.finished ==> stream::next_step(m) == (m, StepModel::NeedInput),
        m.meta_sent && m.pending.len() == 0 && m.phase !is Done && m.buf.len() == 0 && m.finished
            ==> stream::next_step(m) == (
            StreamModel { phase: Phase::Done, ..m },
            StepModel::Event(stream::last_event(m.patch)),
        ),
{
    if m.pending.len() > 0 {
        assert(m.pending.drop_first() =~= m.pending.skip(1));
    }
}

/// The step of a frame: its error, or the first of the events that go out for it,
/// with the others queued and the end after them if the status announces it. A
/// frame for which nothing goes out is passed over.
pub proof fn law_step_of_a_frame(m: StreamModel, bytes: Seq<u8>, rest: Seq<u8>)
    requires
        m.meta_sent,
        m.pending.len() == 0,
        m.phase !is Done,
        frame::next_frame(m.buf) == Some((bytes, rest)),
    ensures
        ({
            let (state, outcome) = patch::frame_outcome(m.patch, encoding::lossy_text(bytes));
            let m1 = StreamModel { buf: rest, patch: state, ..m };
            match outcome {
                Err(e) => stream::next_step(m) == (m1, StepModel::Error(e)),
                Ok(events) => {
                    let (phase, sent) = stream::announce_all(m.phase, events);
                    let over = state.status == Some("FINISHED"@) || state.status == Some(
                        "INCOMPLETE"@,
                    );
                    &&& events.len() == 0 || (sent.len() == 0 && !over) ==> stream::next_step(m)
                        == stream::next_step(m1)
                    &&& events.len() > 0 && sent.len() > 0 && !over ==> stream::next_step(m) == (
                        StreamModel { phase, pending: sent.skip(1), ..m1 },
                        StepModel::Event(sent[0]),
                    )
                    &&& events.len() > 0 && over ==> {
                        let queue = sent.push(stream::last_event(state));
                        stream::next_step(m) == (
                            StreamModel { phase: Phase::Done, pending: queue.skip(1), ..m1 },
                            StepModel::Event(queue[0]),
                        )
                    }
                },
            }
        }),
{
    let (state, outcome) = patch::frame_outcome(m.patch, encoding::lossy_text(bytes));
    law_status_announces_the_end(state);
    if let Ok(events) = outcome {
        let (phase, sent) = stream::announce_all(m.phase, events);
        if sent.len() > 0 {
            assert(sent.drop_first() =~= sent.skip(1));
        }
        let queue = sent.push(stream::last_event(state));
        assert(queue.drop_first() =~= queue.skip(1));
    }
}

/// The last frame needs no blank line: once the connection has given everything,
/// what is left is taken in as if a blank line closed it.
pub proof fn law_last_frame_needs_no_blank_line(m: StreamModel)
    requires
        m.finished,
        m.buf.len() > 0,
        m.buf.last() != 10,
        frame::next_frame(m.buf) is None,
    ensures
        ({
            let closed = StreamModel { buf: m.buf + seq![10u8, 10u8], ..m };
            &&& stream::next_step(m).1 == stream::next_step(closed).1
            &&& m.meta_sent && m.pending.len() == 0 && m.phase !is Done ==> stream::next_step(m)
                == stream::next_step(closed)
        }),
{
    let buf = m.buf + seq![10u8, 10u8];
    let closed = StreamModel { buf, ..m };
    frame::law_frame_is_there(m.buf);
    assert forall|k: int| 0 <= k && k + 1 < m.buf.len() implies !(#[trigger] m.buf[k] == 10 && m.buf[
        k + 1] == 10) by {}
    frame::law_frame_is_cut(m.buf, Seq::empty());
    assert(m.buf + seq![10u8, 10u8] + Seq::<u8>::empty() =~= buf);
    assert(frame::next_frame(Seq::<u8>::empty()) is None);
    let m0 = StreamModel { buf: Seq::empty(), ..m };
    assert(StreamModel { buf: Seq::empty(), ..closed } == m0);
    let (m1, step) = stream::take_in(m0, encoding::lossy_text(m.buf));
    if step is None {
        assert(stream::work(m1) == (
            StreamModel { phase: Phase::Done, ..m1 },
            StepModel::Event(stream::last_event(m1.patch)),
        ));
    }
    assert(stream::work(closed) == stream::work(m));
}

} // verus!
