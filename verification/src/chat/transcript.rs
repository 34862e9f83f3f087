//! Laws of the text of a response: the deltas spell it out, and the stream hands
//! out what the frames result in.
use vstd::prelude::*;

use crate::chat::event::EventModel;
use crate::chat::frame;
use crate::chat::order;
use crate::chat::order::Call;
use crate::chat::patch;
use crate::chat::patch::{FragmentModel, PatchModel};
use crate::chat::stream;
use crate::chat::stream::{Phase, StepModel, StreamModel};
use crate::encoding;
use crate::error::ErrorModel;
use crate::json;
use crate::json::JsonModel;

verus! {

/// The two parts of a response that are streamed.
pub enum Part {
    Thought,
    Answer,
}

/// Whether a fragment belongs to a part.
pub open spec fn belongs(fragment: FragmentModel, part: Part) -> bool {
    fragment.ty == (match part {
        Part::Thought => "THINK"@,
        Part::Answer => "RESPONSE"@,
    })
}

/// What the fragments of a part hold, one after the other.
pub open spec fn written(fragments: Seq<FragmentModel>, part: Part) -> Seq<char>
    decreases fragments.len(),
{
    if fragments.len() == 0 {
        Seq::empty()
    } else {
        written(fragments.drop_last(), part) + (if belongs(fragments.last(), part) {
            fragments.last().content
        } else {
            Seq::empty()
        })
    }
}

/// What an event adds to a part.
pub open spec fn added(e: EventModel, part: Part) -> Seq<char> {
    match (e, part) {
        (EventModel::ThinkDelta { content }, Part::Thought) => content,
        (EventModel::ContentDelta { content }, Part::Answer) => content,
        _ => Seq::empty(),
    }
}

/// What events add to a part, one after the other.
pub open spec fn spoken(events: Seq<EventModel>, part: Part) -> Seq<char>
    decreases events.len(),
{
    if events.len() == 0 {
        Seq::empty()
    } else {
        spoken(events.drop_last(), part) + added(events.last(), part)
    }
}

proof fn lemma_written_add(a: Seq<FragmentModel>, b: Seq<FragmentModel>, part: Part)
    ensures
        written(a + b, part) == written(a, part) + written(b, part),
    decreases b.len(),
{
    if b.len() == 0 {
        assert(a + b =~= a);
    } else {
        lemma_written_add(a, b.drop_last(), part);
        assert((a + b).drop_last() =~= a + b.drop_last());
    }
}

proof fn lemma_spoken_add(a: Seq<EventModel>, b: Seq<EventModel>, part: Part)
    ensures
        spoken(a + b, part) == spoken(a, part) + spoken(b, part),
    decreases b.len(),
{
    if b.len() == 0 {
        assert(a + b =~= a);
    } else {
        lemma_spoken_add(a, b.drop_last(), part);
        assert((a + b).drop_last() =~= a + b.drop_last());
    }
}

proof fn lemma_spoken_one(e: EventModel, part: Part)
    ensures
        spoken(seq![e], part) == added(e, part),
{
    assert(seq![e].drop_last() =~= Seq::empty());
    assert(spoken(Seq::empty(), part) =~= Seq::empty());
}

proof fn lemma_delta(ty: Seq<char>, content: Seq<char>, part: Part)
    ensures
        match patch::delta_of(ty, content) {
            Some(e) => added(e, part) == (if belongs(FragmentModel { ty, content }, part) {
                content
            } else {
                Seq::empty()
            }),
            None => !belongs(FragmentModel { ty, content }, part),
        },
{
    reveal_strlit("THINK");
    reveal_strlit("RESPONSE");
    assert("THINK"@.len() != "RESPONSE"@.len());
}

proof fn lemma_opening(fragments: Seq<FragmentModel>, part: Part)
    ensures
        spoken(patch::opening_deltas(fragments), part) == written(fragments, part),
    decreases fragments.len(),
{
    if fragments.len() > 0 {
        let last = fragments.last();
        lemma_opening(fragments.drop_last(), part);
        lemma_spoken_add(
            patch::opening_deltas(fragments.drop_last()),
            patch::opening_delta(last),
            part,
        );
        lemma_delta(last.ty, last.content, part);
        if let Some(e) = patch::delta_of(last.ty, last.content) {
            lemma_spoken_one(e, part);
        }
    }
}

proof fn lemma_grow(m: PatchModel, content: Seq<char>, part: Part)
    ensures
        ({
            let (m1, events) = patch::grow_last(m, content);
            written(m1.fragments, part) == written(m.fragments, part) + spoken(events, part)
        }),
{
    let (m1, events) = patch::grow_last(m, content);
    if m.fragments.len() > 0 {
        let last = m.fragments.last();
        lemma_delta(last.ty, content, part);
        if let Some(e) = patch::delta_of(last.ty, content) {
            lemma_spoken_one(e, part);
            assert(m1.fragments.drop_last() =~= m.fragments.drop_last());
            assert(written(m1.fragments, part) =~= written(m.fragments, part) + added(e, part));
        }
    }
}

proof fn lemma_at_path(m: PatchModel, path: Seq<char>, op: Seq<char>, val: JsonModel, part: Part)
    ensures
        ({
            let (m1, events) = patch::at_path(m, path, op, val);
            written(m1.fragments, part) == written(m.fragments, part) + spoken(events, part)
        }),
{
    if let Some(content) = val.as_str() {
        lemma_grow(m, content, part);
    }
    if let Some(items) = val.as_array() {
        lemma_opening(patch::fragments_of(items), part);
        lemma_written_add(m.fragments, patch::fragments_of(items), part);
    }
}

proof fn lemma_batch(
    m: PatchModel,
    parent: Seq<char>,
    items: Seq<JsonModel>,
    path: Seq<char>,
    op: Seq<char>,
    part: Part,
)
    ensures
        ({
            let (m1, events) = patch::batch(m, parent, items, path, op);
            written(m1.fragments, part) == written(m.fragments, part) + spoken(events, part)
        }),
    decreases items,
{
    if items.len() > 0 {
        let path1 = patch::renewed(items[0], "p"@, path);
        let op1 = patch::renewed(items[0], "o"@, op);
        let full = patch::join(parent, path1);
        patch::lemma_member_shrinks(items, 0, "v"@);
        assert(decreases_to!(items => items.subrange(1, items.len() as int)));
        let (m1, first) = match items[0].get("v"@) {
            Some(v) => if op1 == "BATCH"@ {
                match v.as_array() {
                    Some(inner) => {
                        lemma_batch(m, full, inner, Seq::empty(), "SET"@, part);
                        patch::batch(m, full, inner, Seq::empty(), "SET"@)
                    },
                    None => (m, Seq::empty()),
                }
            } else {
                lemma_at_path(m, full, op1, v, part);
                patch::at_path(m, full, op1, v)
            },
            None => (m, Seq::empty()),
        };
        lemma_batch(m1, parent, items.drop_first(), path1, op1, part);
        let (m2, rest) = patch::batch(m1, parent, items.drop_first(), path1, op1);
        lemma_spoken_add(first, rest, part);
        assert(written(m2.fragments, part) =~= written(m.fragments, part) + spoken(
            first + rest,
            part,
        ));
    }
}

proof fn lemma_batch_keeps_path(
    m: PatchModel,
    parent: Seq<char>,
    items: Seq<JsonModel>,
    path: Seq<char>,
    op: Seq<char>,
)
    ensures
        patch::batch(m, parent, items, path, op).0.path == m.path,
        patch::batch(m, parent, items, path, op).0.op == m.op,
    decreases items,
{
    if items.len() > 0 {
        let path1 = patch::renewed(items[0], "p"@, path);
        let op1 = patch::renewed(items[0], "o"@, op);
        let full = patch::join(parent, path1);
        patch::lemma_member_shrinks(items, 0, "v"@);
        assert(decreases_to!(items => items.subrange(1, items.len() as int)));
        let m1 = match items[0].get("v"@) {
            Some(v) => if op1 == "BATCH"@ {
                match v.as_array() {
                    Some(inner) => {
                        lemma_batch_keeps_path(m, full, inner, Seq::empty(), "SET"@);
                        patch::batch(m, full, inner, Seq::empty(), "SET"@).0
                    },
                    None => m,
                }
            } else {
                patch::at_path(m, full, op1, v).0
            },
            None => m,
        };
        lemma_batch_keeps_path(m1, parent, items.drop_first(), path1, op1);
    }
}

/// Path and operation stay in force from patch to patch: a patch that names one
/// puts it in force, and any other leaves it as it was.
pub proof fn law_path_and_operation_stay(m: PatchModel, val: JsonModel)
    ensures
        patch::patch(m, val).0.path == (match val.str_at("p"@) {
            Some(p) => Some(p),
            None => m.path,
        }),
        patch::patch(m, val).0.op == (match val.str_at("o"@) {
            Some(o) => Some(o),
            None => m.op,
        }),
{
    let m1 = PatchModel {
        path: match val.str_at("p"@) {
            Some(p) => Some(p),
            None => m.path,
        },
        op: match val.str_at("o"@) {
            Some(o) => Some(o),
            None => m.op,
        },
        ..m
    };
    if let Some(v) = val.get("v"@) {
        if let Some(items) = v.as_array() {
            lemma_batch_keeps_path(m1, m1.path_in_force(), items, Seq::empty(), "SET"@);
        }
    }
}

/// Whether a patch is a snapshot that replaces the fragments: one that lists
/// fragments while no path is in force.
pub open spec fn replaces(m: PatchModel, val: JsonModel) -> bool {
    &&& m.path is None
    &&& val.str_at("p"@) is None
    &&& val.get("v"@) matches Some(v) && v.get("response"@) matches Some(response)
        && response.array_at("fragments"@) is Some
}

/// The deltas of a patch are what it adds to the response: after it a part holds
/// what it held before and then the deltas. A snapshot that lists fragments
/// starts the part anew.
pub proof fn law_patch_adds_its_deltas(m: PatchModel, val: JsonModel, part: Part)
    ensures
        ({
            let (m1, events) = patch::patch(m, val);
            written(m1.fragments, part) == (if replaces(m, val) {
                Seq::empty()
            } else {
                written(m.fragments, part)
            }) + spoken(events, part)
        }),
{
    let m1 = PatchModel {
        path: match val.str_at("p"@) {
            Some(p) => Some(p),
            None => m.path,
        },
        op: match val.str_at("o"@) {
            Some(o) => Some(o),
            None => m.op,
        },
        ..m
    };
    if let Some(v) = val.get("v"@) {
        if let Some(response) = v.get("response"@) {
            if let Some(items) = response.array_at("fragments"@) {
                lemma_opening(patch::fragments_of(items), part);
                assert(Seq::<char>::empty() + written(patch::fragments_of(items), part) =~= written(
                    patch::fragments_of(items),
                    part,
                ));
            }
        }
        if let Some(items) = v.as_array() {
            lemma_batch(m1, m1.path_in_force(), items, Seq::empty(), "SET"@, part);
        }
        lemma_at_path(m1, m1.path_in_force(), m1.op_in_force(), v, part);
    }
}

/// The state after a list of patches, and the events that they bring.
pub open spec fn patches(m: PatchModel, vals: Seq<JsonModel>) -> (PatchModel, Seq<EventModel>)
    decreases vals.len(),
{
    if vals.len() == 0 {
        (m, Seq::empty())
    } else {
        let (m1, sent) = patches(m, vals.drop_last());
        let (m2, last) = patch::patch(m1, vals.last());
        (m2, sent + last)
    }
}

/// The deltas of a response, put together, are the response: of thought and
/// answer alike nothing is lost, doubled or out of place, as long as no snapshot
/// lists fragments after the first patch.
pub proof fn law_deltas_spell_the_response(vals: Seq<JsonModel>, part: Part)
    requires
        forall|i: int|
            1 <= i < vals.len() ==> !replaces(
                patches(PatchModel::fresh(), #[trigger] vals.take(i)).0,
                vals[i],
            ),
    ensures
        ({
            let (m, events) = patches(PatchModel::fresh(), vals);
            spoken(events, part) == written(m.fragments, part)
        }),
    decreases vals.len(),
{
    let fresh = PatchModel::fresh();
    if vals.len() > 0 {
        let before = vals.drop_last();
        assert forall|i: int| 1 <= i < before.len() implies !replaces(
            patches(fresh, #[trigger] before.take(i)).0,
            before[i],
        ) by {
            assert(before.take(i) =~= vals.take(i));
        }
        law_deltas_spell_the_response(before, part);
        assert(vals.take(vals.len() - 1) =~= before);
        let (m1, sent) = patches(fresh, before);
        let (m2, last) = patch::patch(m1, vals.last());
        law_patch_adds_its_deltas(m1, vals.last(), part);
        lemma_spoken_add(sent, last, part);
        if vals.len() == 1 {
            assert(written(m1.fragments, part) =~= Seq::empty());
        }
    }
}

/// Whether some event is a piece of answer.
pub open spec fn answers(events: Seq<EventModel>) -> bool {
    exists|i: int| 0 <= i < events.len() && #[trigger] events[i] is ContentDelta
}

proof fn lemma_answers_add(a: Seq<EventModel>, b: Seq<EventModel>)
    ensures
        answers(a + b) == (answers(a) || answers(b)),
{
    if answers(a) {
        let i = choose|i: int| 0 <= i < a.len() && #[trigger] a[i] is ContentDelta;
        assert((a + b)[i] is ContentDelta);
    }
    if answers(b) {
        let i = choose|i: int| 0 <= i < b.len() && #[trigger] b[i] is ContentDelta;
        assert((a + b)[a.len() + i] is ContentDelta);
    }
    if answers(a + b) {
        let i = choose|i: int| 0 <= i < (a + b).len() && #[trigger] (a + b)[i] is ContentDelta;
        if i < a.len() {
            assert(a[i] is ContentDelta);
        } else {
            assert(b[i - a.len()] is ContentDelta);
        }
    }
}

proof fn lemma_answers_one(e: EventModel)
    ensures
        answers(seq![e]) == (e is ContentDelta),
{
    assert(seq![e][0] == e);
}

/// What goes out for events: all pieces of answer, and all pieces of thought that
/// come before the first of them.
proof fn lemma_announce(phase: Phase, events: Seq<EventModel>, part: Part)
    requires
        phase !is Done,
    ensures
        ({
            let (phase1, sent) = stream::announce_all(phase, events);
            &&& phase1 !is Done
            &&& phase1 is Content <==> phase is Content || answers(sent)
            &&& answers(sent) == answers(events)
            &&& part is Answer || !(phase1 is Content) ==> spoken(sent, part) == spoken(
                events,
                part,
            )
            &&& phase is Content && part is Thought ==> spoken(sent, part).len() == 0
            &&& spoken(sent, part).is_prefix_of(spoken(events, part))
        }),
    decreases events.len(),
{
    if events.len() > 0 {
        let start = events.drop_last();
        lemma_announce(phase, start, part);
        let (before, sent) = stream::announce_all(phase, start);
        let e = events.last();
        let (after, last) = stream::announce(before, e);
        lemma_spoken_add(sent, last, part);
        lemma_spoken_one(e, part);
        lemma_answers_add(sent, last);
        assert(events =~= start + seq![e]);
        lemma_answers_add(start, seq![e]);
        lemma_answers_one(e);
        if last.len() == 2 {
            assert(last =~= seq![last[0]] + seq![e]);
            lemma_spoken_add(seq![last[0]], seq![e], part);
            lemma_spoken_one(last[0], part);
            assert(added(last[0], part) =~= Seq::empty());
            assert(Seq::<char>::empty() + added(e, part) =~= added(e, part));
            lemma_answers_add(seq![last[0]], seq![e]);
            lemma_answers_one(last[0]);
        } else if last.len() == 1 {
            assert(last =~= seq![e]);
        } else {
            assert(spoken(last, part) =~= Seq::empty());
            assert(spoken(sent, part) + Seq::<char>::empty() =~= spoken(sent, part));
            assert(part is Answer ==> added(e, part) =~= Seq::empty());
        }
        lemma_prefix_extended(spoken(sent, part), spoken(start, part), added(e, part));
    }
}

proof fn lemma_prefix_extended(a: Seq<char>, b: Seq<char>, more: Seq<char>)
    ensures
        a.is_prefix_of(b) ==> a.is_prefix_of(b + more),
        a == b ==> (a + more).is_prefix_of(b + more),
{
    if a.is_prefix_of(b) {
        assert((b + more).subrange(0, a.len() as int) =~= b.subrange(0, a.len() as int));
    }
    if a == b {
        assert((b + more).subrange(0, (a + more).len() as int) =~= a + more);
    }
}

/// Whether `b` ends with `a`.
pub open spec fn is_end_of(a: Seq<char>, b: Seq<char>) -> bool {
    a.len() <= b.len() && b.skip(b.len() - a.len()) == a
}

proof fn lemma_end_extended(a: Seq<char>, b: Seq<char>, more: Seq<char>)
    ensures
        is_end_of(more, b + more),
        is_end_of(a, b) ==> is_end_of(a + more, b + more),
{
    assert((b + more).skip(b.len() as int) =~= more);
    if is_end_of(a, b) {
        assert((b + more).skip(b.len() - a.len()) =~= b.skip(b.len() - a.len()) + more);
    }
}

/// Where a stream started: what a part held then, and whether the answer had
/// started.
struct Start {
    base: Seq<char>,
    answering: bool,
    /// Whether a path was in force.
    named: bool,
}

/// How far the text of a part has come. If a path was in force, the part is what
/// it was and then what was handed out and is queued; otherwise it is at least the
/// end of that. Of the thought this holds until the answer starts; what was handed
/// out of it then stays a beginning of what there is.
spec fn told(m: StreamModel, sent: Seq<EventModel>, start: Start, part: Part) -> bool {
    let total = start.base + spoken(sent + m.pending, part);
    let late = start.answering || answers(sent + m.pending);
    let text = written(m.patch.fragments, part);
    &&& m.phase !is Done ==> (m.phase is Content <==> late)
    &&& start.named ==> m.patch.path is Some && total.is_prefix_of(text)
    &&& part is Answer || !late ==> if start.named {
        text == total
    } else {
        is_end_of(text, total)
    }
}

/// What a frame adds to a part: the deltas that it brings, after what was there or,
/// while no path is in force, possibly in its place.
proof fn lemma_frame_adds(m: PatchModel, text: Seq<char>, part: Part)
    ensures
        ({
            let (state, outcome) = patch::frame_outcome(m, text);
            let before = written(m.fragments, part);
            let after = written(state.fragments, part);
            match outcome {
                Ok(events) => {
                    &&& m.path is Some ==> state.path is Some
                    &&& after == before + spoken(events, part) || (m.path is None && after
                        == spoken(events, part))
                },
                Err(_) => state == m,
            }
        }),
{
    let before = written(m.fragments, part);
    if let Some(data) = frame::field_of(text, "data:"@) {
        if let Some(val) = json::json_text(data) {
            law_patch_adds_its_deltas(m, val, part);
            law_path_and_operation_stay(m, val);
            let brought = spoken(patch::patch(m, val).1, part);
            assert(Seq::<char>::empty() + brought =~= brought);
        }
    }
    assert(spoken(Seq::empty(), part) =~= Seq::empty());
    assert(before + Seq::<char>::empty() =~= before);
}

/// What goes out for the events of a frame, with the end that its status may
/// announce after them.
spec fn queued(m: StreamModel, state: PatchModel, events: Seq<EventModel>) -> Seq<EventModel> {
    let queue = stream::announce_all(m.phase, events).1;
    match patch::announced_end(state) {
        Some(end) => queue.push(end),
        None => queue,
    }
}

proof fn lemma_queued(m: StreamModel, state: PatchModel, events: Seq<EventModel>, part: Part)
    requires
        m.phase !is Done,
    ensures
        ({
            let queue = stream::announce_all(m.phase, events).1;
            let full = queued(m, state, events);
            &&& spoken(full, part) == spoken(queue, part)
            &&& answers(full) == answers(queue)
        }),
{
    let queue = stream::announce_all(m.phase, events).1;
    if let Some(end) = patch::announced_end(state) {
        assert(queue.push(end) =~= queue + seq![end]);
        lemma_spoken_add(queue, seq![end], part);
        lemma_spoken_one(end, part);
        assert(spoken(queue, part) + Seq::<char>::empty() =~= spoken(queue, part));
        lemma_answers_add(queue, seq![end]);
        lemma_answers_one(end);
    }
}

/// The text of a part and what was told of it, before and after more of it came.
proof fn lemma_texts(before: Seq<char>, total: Seq<char>, brought: Seq<char>, heard: Seq<char>)
    ensures
        total.is_prefix_of(before) && heard.len() == 0 ==> (total + heard).is_prefix_of(
            before + brought,
        ),
        before == total && heard.is_prefix_of(brought) ==> (total + heard).is_prefix_of(
            before + brought,
        ),
        is_end_of(brought, total + brought),
        is_end_of(before, total) ==> is_end_of(before + brought, total + brought),
{
    lemma_end_extended(before, total, brought);
    if total.is_prefix_of(before) && heard.len() == 0 {
        assert(total + heard =~= total);
        lemma_prefix_extended(total, before, brought);
    }
    if before == total && heard.is_prefix_of(brought) {
        assert((before + brought).subrange(0, (total + heard).len() as int) =~= total
            + brought.subrange(0, heard.len() as int));
    }
}

proof fn lemma_take_in(
    m: StreamModel,
    text: Seq<char>,
    sent: Seq<EventModel>,
    start: Start,
    part: Part,
)
    requires
        told(m, sent, start, part),
        m.pending.len() == 0,
        m.phase !is Done,
    ensures
        ({
            let (m1, step) = stream::take_in(m, text);
            match step {
                Some(StepModel::Event(e)) => told(m1, sent.push(e), start, part),
                _ => told(m1, sent, start, part) && m1.pending.len() == 0 && m1.phase == m.phase,
            }
        }),
{
    let (state, outcome) = patch::frame_outcome(m.patch, text);
    let (m1, step) = stream::take_in(m, text);
    assert(sent + m.pending =~= sent);
    lemma_frame_adds(m.patch, text, part);
    if let Ok(events) = outcome {
        let before = written(m.patch.fragments, part);
        let brought = spoken(events, part);
        let total = start.base + spoken(sent, part);
        if events.len() == 0 {
            assert(brought =~= Seq::empty());
            lemma_texts(before, total, brought, brought);
            assert(total + brought =~= total);
        } else {
            let (phase, queue) = stream::announce_all(m.phase, events);
            let full = queued(m, state, events);
            let heard = spoken(full, part);
            lemma_announce(m.phase, events, part);
            stream::lemma_nothing_announced(m.phase, events);
            lemma_queued(m, state, events, part);
            lemma_spoken_add(sent, full, part);
            lemma_answers_add(sent, full);
            lemma_texts(before, total, brought, heard);
            assert(start.base + spoken(sent + full, part) =~= total + heard);
            if full.len() > 0 {
                assert(sent.push(full[0]) + m1.pending =~= sent + full);
            } else {
                assert(sent + full =~= sent);
            }
        }
    }
}

proof fn lemma_work(m: StreamModel, sent: Seq<EventModel>, start: Start, part: Part)
    requires
        told(m, sent, start, part),
        m.pending.len() == 0,
        m.phase !is Done,
    ensures
        ({
            let (m1, step) = stream::work(m);
            match step {
                StepModel::Event(e) => told(m1, sent.push(e), start, part),
                _ => told(m1, sent, start, part),
            }
        }),
    decreases m.buf.len(),
{
    match frame::next_frame(m.buf) {
        Some((bytes, rest)) => {
            stream::lemma_next_frame_shrinks(m.buf);
            let m0 = StreamModel { buf: rest, ..m };
            lemma_take_in(m0, encoding::lossy_text(bytes), sent, start, part);
            let (m1, step) = stream::take_in(m0, encoding::lossy_text(bytes));
            if step is None {
                lemma_work(m1, sent, start, part);
            }
        },
        None => if m.finished {
            let m0 = StreamModel { buf: Seq::empty(), ..m };
            lemma_take_in(m0, encoding::lossy_text(m.buf), sent, start, part);
            let (m1, step) = if m.buf.len() == 0 {
                (m, None)
            } else {
                stream::take_in(m0, encoding::lossy_text(m.buf))
            };
            if step is None {
                let end = stream::last_event(m1.patch);
                lemma_spoken_add(sent, seq![end], part);
                lemma_spoken_one(end, part);
                lemma_answers_add(sent, seq![end]);
                lemma_answers_one(end);
                assert(sent + m1.pending =~= sent);
                assert(sent.push(end) + m1.pending =~= sent + seq![end]);
                assert(spoken(sent, part) + Seq::<char>::empty() =~= spoken(sent, part));
            }
        },
    }
}

proof fn lemma_call(m: StreamModel, call: Call, sent: Seq<EventModel>, start: Start, part: Part)
    requires
        told(m, sent, start, part),
    ensures
        told(order::after_call(m, call), sent + order::event_of_call(m, call), start, part),
{
    let more = order::event_of_call(m, call);
    let m1 = order::after_call(m, call);
    if call is Poll {
        if !m.meta_sent {
            let meta = EventModel::Meta { account_id: m.account_id };
            lemma_spoken_add(sent + seq![meta], m.pending, part);
            lemma_spoken_add(sent, seq![meta], part);
            lemma_spoken_add(sent, m.pending, part);
            lemma_spoken_one(meta, part);
            assert(spoken(sent, part) + Seq::<char>::empty() =~= spoken(sent, part));
            lemma_answers_add(sent + seq![meta], m.pending);
            lemma_answers_add(sent, seq![meta]);
            lemma_answers_add(sent, m.pending);
            lemma_answers_one(meta);
        } else if m.pending.len() > 0 {
            assert(sent + more + m1.pending =~= sent + m.pending);
        } else if m.phase is Done {
            assert(sent + more =~= sent);
        } else {
            lemma_work(m, sent, start, part);
            match stream::work(m).1 {
                StepModel::Event(e) => {
                    assert(sent + more =~= sent.push(e));
                },
                _ => {
                    assert(sent + more =~= sent);
                },
            }
        }
    } else {
        assert(sent + more =~= sent);
    }
}

/// Once a path is in force, the stream hands out what the response grows by: at
/// any later time the answer is what it was before, then the deltas handed out
/// since, then those still queued. The same holds of the thought until the answer
/// starts; what was told of the thought by then stays the beginning of it.
pub proof fn law_stream_tells_the_response(m: StreamModel, calls: Seq<Call>, part: Part)
    requires
        m.patch.path is Some,
        m.pending.len() == 0,
    ensures
        ({
            let m1 = order::after(m, calls);
            let events = order::emitted(m, calls) + m1.pending;
            let told = written(m.patch.fragments, part) + spoken(events, part);
            &&& part is Answer || !(m.phase is Content || answers(events)) ==> written(
                m1.patch.fragments,
                part,
            ) == told
            &&& told.is_prefix_of(written(m1.patch.fragments, part))
        }),
{
    lemma_calls(m, calls, part);
}

/// The stream loses nothing: whatever bytes come, however they are cut, and
/// whenever the next step is asked for, the pieces of answer that were handed out
/// or are queued end with all the answer that the response holds. The same holds
/// of the thought until the answer starts.
pub proof fn law_stream_loses_nothing(account_id: Seq<char>, calls: Seq<Call>, part: Part)
    ensures
        ({
            let m = order::after(StreamModel::fresh(account_id), calls);
            let events = order::emitted(StreamModel::fresh(account_id), calls) + m.pending;
            part is Answer || !answers(events) ==> is_end_of(
                written(m.patch.fragments, part),
                spoken(events, part),
            )
        }),
{
    let fresh = StreamModel::fresh(account_id);
    lemma_calls(fresh, calls, part);
    let m = order::after(fresh, calls);
    let events = order::emitted(fresh, calls) + m.pending;
    assert(written(fresh.patch.fragments, part) + spoken(events, part) =~= spoken(events, part));
}

proof fn lemma_calls(m: StreamModel, calls: Seq<Call>, part: Part)
    requires
        m.pending.len() == 0,
    ensures
        told(
            order::after(m, calls),
            order::emitted(m, calls),
            Start {
                base: written(m.patch.fragments, part),
                answering: m.phase is Content,
                named: m.patch.path is Some,
            },
            part,
        ),
    decreases calls.len(),
{
    let base = written(m.patch.fragments, part);
    let start = Start {
        base,
        answering: m.phase is Content,
        named: m.patch.path is Some,
    };
    if calls.len() == 0 {
        assert(Seq::<EventModel>::empty() + m.pending =~= Seq::empty());
        assert(base + Seq::<char>::empty() =~= base);
        assert(base.skip(0) =~= base);
        assert(base.subrange(0, base.len() as int) =~= base);
    } else {
        lemma_calls(m, calls.drop_last(), part);
        lemma_call(
            order::after(m, calls.drop_last()),
            calls.last(),
            order::emitted(m, calls.drop_last()),
            start,
            part,
        );
    }
}

/// Events as steps of a stream.
pub open spec fn steps_of(events: Seq<EventModel>) -> Seq<StepModel> {
    Seq::new(events.len(), |i: int| StepModel::Event(events[i]))
}

/// The frames of a response, in order. What no blank line closes is the last one.
pub open spec fn frames_of(bytes: Seq<u8>) -> Seq<Seq<char>>
    decreases bytes.len(),
    via frames_of_shrinks
{
    match frame::next_frame(bytes) {
        Some((first, rest)) => seq![encoding::lossy_text(first)] + frames_of(rest),
        None => if bytes.len() == 0 {
            Seq::empty()
        } else {
            seq![encoding::lossy_text(bytes)]
        },
    }
}

#[via_fn]
proof fn frames_of_shrinks(bytes: Seq<u8>) {
    stream::lemma_next_frame_shrinks(bytes);
}

/// What a frame results in: its events, or its error.
pub open spec fn result_of(outcome: Result<Seq<EventModel>, ErrorModel>) -> Seq<StepModel> {
    match outcome {
        Ok(events) => steps_of(events),
        Err(e) => seq![StepModel::Error(e)],
    }
}

/// What is known of a response after frames, and what they result in, one after
/// the other.
pub open spec fn results(state: PatchModel, frames: Seq<Seq<char>>) -> (
    PatchModel,
    Seq<StepModel>,
)
    decreases frames.len(),
{
    if frames.len() == 0 {
        (state, Seq::empty())
    } else {
        let (state1, outcome) = patch::frame_outcome(state, frames[0]);
        let (state2, rest) = results(state1, frames.drop_first());
        (state2, result_of(outcome) + rest)
    }
}

/// What frames result in up to the end of the response: nothing is read after a
/// frame that brings events while the status announces the end.
pub open spec fn results_to_the_end(state: PatchModel, frames: Seq<Seq<char>>) -> Seq<StepModel>
    decreases frames.len(),
{
    if frames.len() == 0 {
        Seq::empty()
    } else {
        let (state1, outcome) = patch::frame_outcome(state, frames[0]);
        result_of(outcome) + (if ends_with(state1, outcome) {
            Seq::empty()
        } else {
            results_to_the_end(state1, frames.drop_first())
        })
    }
}

/// Whether the response ends with a frame that leads to the given state.
pub open spec fn ends_with(
    state: PatchModel,
    outcome: Result<Seq<EventModel>, ErrorModel>,
) -> bool {
    outcome matches Ok(events) && events.len() > 0 && patch::announced_end(state) is Some
}

/// Whether a step is a piece of answer.
pub open spec fn is_answer(step: StepModel) -> bool {
    step matches StepModel::Event(e) && e is ContentDelta
}

/// Whether a step is a piece of thought.
pub open spec fn is_thought(step: StepModel) -> bool {
    step matches StepModel::Event(e) && e is ThinkDelta
}

/// Steps without the thoughts that come after the answer has started.
pub open spec fn timely(steps: Seq<StepModel>, answering: bool) -> Seq<StepModel>
    decreases steps.len(),
{
    if steps.len() == 0 {
        Seq::empty()
    } else {
        let rest = timely(
            steps.drop_first(),
            answering || is_answer(steps[0]),
        );
        if answering && is_thought(steps[0]) {
            rest
        } else {
            seq![steps[0]] + rest
        }
    }
}

/// Whether a step is a delta or an error: not the account, the start of a phase or
/// the end.
pub open spec fn carries(step: StepModel) -> bool {
    match step {
        StepModel::Event(e) => order::is_delta(e),
        StepModel::Error(_) => true,
        _ => false,
    }
}

/// The deltas and errors among steps, in order.
pub open spec fn carried(steps: Seq<StepModel>) -> Seq<StepModel>
    decreases steps.len(),
{
    if steps.len() == 0 {
        Seq::empty()
    } else {
        carried(steps.drop_last()) + (if carries(steps.last()) {
            seq![steps.last()]
        } else {
            Seq::empty()
        })
    }
}

proof fn lemma_carried_add(a: Seq<StepModel>, b: Seq<StepModel>)
    ensures
        carried(a + b) == carried(a) + carried(b),
    decreases b.len(),
{
    if b.len() == 0 {
        assert(a + b =~= a);
        assert(carried(a) + carried(b) =~= carried(a));
    } else {
        lemma_carried_add(a, b.drop_last());
        assert((a + b).drop_last() =~= a + b.drop_last());
        assert(carried(a + b) =~= carried(a) + carried(b));
    }
}

proof fn lemma_carried_one(step: StepModel)
    ensures
        carried(seq![step]) == (if carries(step) {
            seq![step]
        } else {
            Seq::empty()
        }),
{
    assert(seq![step].drop_last() =~= Seq::empty());
    assert(carried(Seq::empty()) =~= Seq::empty());
    assert(carried(seq![step]) =~= if carries(step) {
        seq![step]
    } else {
        Seq::empty()
    });
}

/// Whether some step is a piece of answer.
spec fn step_answers(steps: Seq<StepModel>) -> bool {
    exists|i: int|
        0 <= i < steps.len() && is_answer(#[trigger] steps[i])
}

proof fn lemma_step_answers(events: Seq<EventModel>)
    ensures
        step_answers(steps_of(events)) == answers(events),
{
    let steps = steps_of(events);
    if answers(events) {
        let i = choose|i: int| 0 <= i < events.len() && #[trigger] events[i] is ContentDelta;
        assert(steps[i] == StepModel::Event(events[i]));
    }
    if step_answers(steps) {
        let i = choose|i: int|
            0 <= i < steps.len() && is_answer(#[trigger] steps[i]);
        assert(events[i] is ContentDelta);
    }
}

proof fn lemma_timely_add(a: Seq<StepModel>, b: Seq<StepModel>, answering: bool)
    ensures
        timely(a + b, answering) == timely(a, answering) + timely(
            b,
            answering || step_answers(a),
        ),
    decreases a.len(),
{
    if a.len() == 0 {
        assert(a + b =~= b);
        assert(timely(a, answering) + timely(b, answering) =~= timely(b, answering));
    } else {
        let first = a[0];
        let rest = a.drop_first();
        let now = answering || is_answer(first);
        assert((a + b)[0] == first);
        assert((a + b).drop_first() =~= rest + b);
        lemma_timely_add(rest, b, now);
        assert((now || step_answers(rest)) == (answering || step_answers(a))) by {
            if step_answers(rest) {
                let i = choose|i: int|
                    0 <= i < rest.len() && is_answer(#[trigger] rest[i]);
                assert(a[i + 1] == rest[i]);
            }
            if step_answers(a) {
                let i = choose|i: int|
                    0 <= i < a.len() && is_answer(#[trigger] a[i]);
                if i > 0 {
                    assert(rest[i - 1] == a[i]);
                }
            }
        }
        assert(timely(a + b, answering) =~= timely(a, answering) + timely(
            b,
            answering || step_answers(a),
        ));
    }
}

proof fn lemma_timely_one(step: StepModel, answering: bool)
    ensures
        timely(seq![step], answering) == (if answering && is_thought(step) {
            Seq::empty()
        } else {
            seq![step]
        }),
{
    assert(seq![step].drop_first() =~= Seq::empty());
    reveal_with_fuel(timely, 2);
    assert(seq![step] + Seq::<StepModel>::empty() =~= seq![step]);
}

/// What goes out for deltas is the deltas themselves, without the late thoughts,
/// and the starts of phases.
proof fn lemma_announced_carries(phase: Phase, events: Seq<EventModel>)
    requires
        phase !is Done,
        order::only_deltas(events),
    ensures
        carried(steps_of(stream::announce_all(phase, events).1)) == timely(
            steps_of(events),
            phase is Content,
        ),
    decreases events.len(),
{
    let answering = phase is Content;
    if events.len() == 0 {
        assert(steps_of(events) =~= Seq::empty());
        assert(steps_of(stream::announce_all(phase, events).1) =~= Seq::empty());
    } else {
        let start = events.drop_last();
        let e = events.last();
        assert forall|i: int| 0 <= i < start.len() implies order::is_delta(#[trigger] start[i]) by {
            assert(start[i] == events[i]);
        }
        assert(order::is_delta(events[events.len() - 1]));
        lemma_announced_carries(phase, start);
        lemma_announce(phase, start, Part::Answer);
        let (before, sent) = stream::announce_all(phase, start);
        let (after, last) = stream::announce(before, e);
        assert(steps_of(sent + last) =~= steps_of(sent) + steps_of(last));
        lemma_carried_add(steps_of(sent), steps_of(last));
        let one = StepModel::Event(e);
        assert(steps_of(events) =~= steps_of(start) + seq![one]);
        lemma_timely_add(steps_of(start), seq![one], answering);
        lemma_step_answers(start);
        lemma_timely_one(one, answering || step_answers(steps_of(start)));
        lemma_carried_one(one);
        if last.len() == 2 {
            let opening = StepModel::Event(last[0]);
            assert(steps_of(last) =~= seq![opening] + seq![one]);
            lemma_carried_add(seq![opening], seq![one]);
            lemma_carried_one(opening);
            assert(carried(steps_of(last)) =~= seq![one]);
        } else if last.len() == 1 {
            assert(steps_of(last) =~= seq![one]);
        } else {
            assert(steps_of(last) =~= Seq::empty());
        }
    }
}

/// What a stream has still to hand out of deltas and errors once the connection
/// has given everything.
spec fn still_carried(m: StreamModel) -> Seq<StepModel> {
    carried(steps_of(m.pending)) + (if m.phase is Done {
        Seq::empty()
    } else {
        timely(results_to_the_end(m.patch, frames_of(m.buf)), m.phase is Content)
    })
}

/// What a frame results in, and what it leaves to be handed out.
proof fn lemma_take_in_carries(m: StreamModel, text: Seq<char>, frames: Seq<Seq<char>>)
    requires
        m.pending.len() == 0,
        m.phase !is Done,
        frames_of(m.buf) == frames,
    ensures
        ({
            let (m1, step) = stream::take_in(m, text);
            let all = timely(
                results_to_the_end(m.patch, seq![text] + frames),
                m.phase is Content,
            );
            &&& m1.buf == m.buf
            &&& m1.finished == m.finished
            &&& m1.meta_sent == m.meta_sent
            &&& match step {
                Some(step) => all == carried(seq![step]) + still_carried(m1),
                None => {
                    &&& all == still_carried(m1)
                    &&& m1.pending.len() == 0
                    &&& m1.phase == m.phase
                },
            }
        }),
{
    let (m1, step) = stream::take_in(m, text);
    let (state, outcome) = patch::frame_outcome(m.patch, text);
    let answering = m.phase is Content;
    let whole = seq![text] + frames;
    assert(whole[0] == text);
    assert(whole.drop_first() =~= frames);
    let rest = if ends_with(state, outcome) {
        Seq::empty()
    } else {
        results_to_the_end(state, frames)
    };
    let mine = result_of(outcome);
    assert(results_to_the_end(m.patch, whole) == mine + rest);
    lemma_timely_add(mine, rest, answering);
    assert(steps_of(Seq::empty()) =~= Seq::empty());
    assert(carried(Seq::empty()) =~= Seq::empty());
    assert(timely(Seq::empty(), answering) =~= Seq::empty());
    match outcome {
        Err(e) => {
            let one = StepModel::Error(e);
            lemma_timely_one(one, answering);
            lemma_carried_one(one);
            assert(!step_answers(seq![one])) by {
                assert(seq![one][0] == one);
            }
            assert(still_carried(m1) =~= timely(rest, answering));
        },
        Ok(events) => {
            if let Some(data) = frame::field_of(text, "data:"@) {
                if let Some(val) = json::json_text(data) {
                    order::law_patch_brings_deltas(m.patch, val);
                }
            }
            lemma_step_answers(events);
            if events.len() == 0 {
                assert(mine =~= Seq::empty());
                assert(mine + rest =~= rest);
                assert(still_carried(m1) =~= timely(rest, answering));
            } else {
                let (phase, queue) = stream::announce_all(m.phase, events);
                let full = queued(m, state, events);
                lemma_announced_carries(m.phase, events);
                lemma_announce(m.phase, events, Part::Answer);
                stream::lemma_nothing_announced(m.phase, events);
                assert(carried(steps_of(full)) == carried(steps_of(queue))) by {
                    if let Some(end) = patch::announced_end(state) {
                        let last = StepModel::Event(end);
                        assert(steps_of(full) =~= steps_of(queue) + seq![last]);
                        lemma_carried_add(steps_of(queue), seq![last]);
                        lemma_carried_one(last);
                        assert(carried(steps_of(queue)) + Seq::<StepModel>::empty() =~= carried(
                            steps_of(queue),
                        ));
                    }
                }
                if full.len() > 0 {
                    let first = StepModel::Event(full[0]);
                    assert(steps_of(full) =~= seq![first] + steps_of(full.drop_first()));
                    lemma_carried_add(seq![first], steps_of(full.drop_first()));
                    let after = timely(rest, answering || step_answers(mine));
                    assert(still_carried(m1) =~= carried(steps_of(full.drop_first())) + after);
                    assert(carried(seq![first]) + (carried(steps_of(full.drop_first())) + after)
                        =~= carried(steps_of(full)) + after);
                } else {
                    assert(steps_of(full) =~= Seq::empty());
                    assert(still_carried(m1) =~= timely(rest, answering));
                    assert(Seq::<StepModel>::empty() + timely(rest, answering) =~= timely(
                        rest,
                        answering,
                    ));
                }
            }
        },
    }
}

proof fn lemma_work_carries(m: StreamModel)
    requires
        m.finished,
        m.pending.len() == 0,
        m.phase !is Done,
    ensures
        ({
            let (m1, step) = stream::work(m);
            still_carried(m) == carried(seq![step]) + still_carried(m1)
        }),
    decreases m.buf.len(),
{
    assert(steps_of(m.pending) =~= Seq::empty());
    let all = timely(results_to_the_end(m.patch, frames_of(m.buf)), m.phase is Content);
    assert(still_carried(m) =~= all);
    match frame::next_frame(m.buf) {
        Some((bytes, rest)) => {
            stream::lemma_next_frame_shrinks(m.buf);
            let m0 = StreamModel { buf: rest, ..m };
            let text = encoding::lossy_text(bytes);
            lemma_take_in_carries(m0, text, frames_of(rest));
            let (m1, step) = stream::take_in(m0, text);
            if step is None {
                lemma_work_carries(m1);
            }
        },
        None => {
            let m0 = StreamModel { buf: Seq::empty(), ..m };
            let text = encoding::lossy_text(m.buf);
            if m.buf.len() > 0 {
                assert(frame::next_frame(m0.buf) is None);
                assert(frames_of(m0.buf) =~= Seq::empty());
                lemma_take_in_carries(m0, text, Seq::empty());
                assert(seq![text] + Seq::<Seq<char>>::empty() =~= frames_of(m.buf));
            }
            let (m1, step) = if m.buf.len() == 0 {
                (m, None)
            } else {
                stream::take_in(m0, text)
            };
            if step is None {
                let end = StepModel::Event(stream::last_event(m1.patch));
                let m2 = StreamModel { phase: Phase::Done, ..m1 };
                lemma_carried_one(end);
                assert(frame::next_frame(m1.buf) is None);
                assert(steps_of(m1.pending) =~= Seq::empty());
                assert(frames_of(m1.buf) =~= Seq::empty());
                assert(still_carried(m1) =~= Seq::empty());
                assert(still_carried(m2) =~= Seq::empty());
                assert(carried(seq![end]) + still_carried(m2) =~= Seq::empty());
            }
        },
    }
}

proof fn lemma_drain_carries(m: StreamModel)
    requires
        m.finished,
    ensures
        carried(order::drain(m).1) == still_carried(m),
    decreases m.buf.len(), order::waiting(m),
{
    order::lemma_step_shrinks(m);
    order::lemma_work_keeps_finished(m);
    order::law_closed_stream_ends(m);
    let (m1, step) = stream::next_step(m);
    if step is End {
        order::lemma_work_never_ends(m);
        assert(steps_of(m.pending) =~= Seq::empty());
        assert(still_carried(m) =~= Seq::empty());
    } else {
        lemma_drain_carries(m1);
        let rest = order::drain(m1).1;
        lemma_carried_add(seq![step], rest);
        lemma_carried_one(step);
        if !m.meta_sent {
            assert(carried(seq![step]) + still_carried(m1) =~= still_carried(m));
        } else if m.pending.len() > 0 {
            assert(steps_of(m.pending) =~= seq![step] + steps_of(m1.pending));
            lemma_carried_add(seq![step], steps_of(m1.pending));
            assert(carried(seq![step]) + still_carried(m1) =~= still_carried(m));
        } else {
            lemma_work_carries(m);
        }
    }
}

/// Every delta and every error of a response is handed out, in order: whatever
/// chunks the bytes come in, the steps of a stream but for the account, the starts
/// of the phases and the end are exactly what its frames result in, one after the
/// other, up to the end that the status announces. Only thoughts that come after
/// the answer has started are left out.
pub proof fn law_results_are_handed_out(account_id: Seq<char>, chunks: Seq<Seq<u8>>)
    ensures
        carried(order::drain_all(StreamModel::fresh(account_id), chunks).1) == timely(
            results_to_the_end(PatchModel::fresh(), frames_of(order::joined(chunks))),
            false,
        ),
{
    let fresh = StreamModel::fresh(account_id);
    let m = fresh.fed(order::joined(chunks)).closed();
    order::law_whole_response(fresh, chunks);
    lemma_drain_carries(m);
    assert(m.buf =~= order::joined(chunks));
    assert(steps_of(m.pending) =~= Seq::empty());
    assert(still_carried(m) =~= timely(
        results_to_the_end(PatchModel::fresh(), frames_of(order::joined(chunks))),
        false,
    ));
}

proof fn lemma_results_to_the_end(state: PatchModel, frames: Seq<Seq<char>>)
    requires
        forall|i: int|
            1 <= i < frames.len() ==> patch::announced_end(
                results(state, #[trigger] frames.take(i)).0,
            ) is None,
    ensures
        results_to_the_end(state, frames) == results(state, frames).1,
    decreases frames.len(),
{
    if frames.len() > 0 {
        let (state1, outcome) = patch::frame_outcome(state, frames[0]);
        let rest = frames.drop_first();
        assert forall|i: int| 0 <= i < rest.len() implies results(
            state1,
            #[trigger] rest.take(i),
        ).0 == results(state, frames.take(i + 1)).0 by {
            assert(frames.take(i + 1)[0] == frames[0]);
            assert(frames.take(i + 1).drop_first() =~= rest.take(i));
        }
        lemma_results_to_the_end(state1, rest);
        if rest.len() > 0 {
            assert(rest.take(0) =~= Seq::empty());
            assert(results(state1, rest.take(0)).0 == state1);
            assert(patch::announced_end(results(state, frames.take(1)).0) is None);
        }
    }
}

/// Where the status announces no end before the last frame, all frames are read:
/// the deltas and errors that a stream hands out are exactly what its frames
/// result in, one after the other, without the thoughts that come after the answer
/// has started.
pub proof fn law_all_results_are_handed_out(account_id: Seq<char>, chunks: Seq<Seq<u8>>)
    requires
        forall|i: int|
            1 <= i < frames_of(order::joined(chunks)).len() ==> patch::announced_end(
                results(
                    PatchModel::fresh(),
                    #[trigger] frames_of(order::joined(chunks)).take(i),
                ).0,
            ) is None,
    ensures
        carried(order::drain_all(StreamModel::fresh(account_id), chunks).1) == timely(
            results(PatchModel::fresh(), frames_of(order::joined(chunks))).1,
            false,
        ),
{
    law_results_are_handed_out(account_id, chunks);
    lemma_results_to_the_end(PatchModel::fresh(), frames_of(order::joined(chunks)));
}

/// What a part holds: the contents of its fragments, to the letter and in order,
/// and nothing of any other fragment.
pub proof fn law_written(fragments: Seq<FragmentModel>, last: FragmentModel)
    ensures
        written(Seq::empty(), Part::Thought).len() == 0,
        written(Seq::empty(), Part::Answer).len() == 0,
        last.ty == "THINK"@ ==> written(fragments.push(last), Part::Thought) == written(
            fragments,
            Part::Thought,
        ) + last.content,
        last.ty == "RESPONSE"@ ==> written(fragments.push(last), Part::Answer) == written(
            fragments,
            Part::Answer,
        ) + last.content,
        last.ty != "THINK"@ ==> written(fragments.push(last), Part::Thought) == written(
            fragments,
            Part::Thought,
        ),
        last.ty != "RESPONSE"@ ==> written(fragments.push(last), Part::Answer) == written(
            fragments,
            Part::Answer,
        ),
{
    assert(fragments.push(last).drop_last() =~= fragments);
    assert(written(fragments, Part::Thought) + Seq::<char>::empty() =~= written(
        fragments,
        Part::Thought,
    ));
    assert(written(fragments, Part::Answer) + Seq::<char>::empty() =~= written(
        fragments,
        Part::Answer,
    ));
}

/// What events add to a part: the contents of its deltas, to the letter and in
/// order, and nothing of any other event.
pub proof fn law_spoken(events: Seq<EventModel>, content: Seq<char>, other: EventModel)
    ensures
        spoken(Seq::empty(), Part::Thought).len() == 0,
        spoken(Seq::empty(), Part::Answer).len() == 0,
        spoken(events.push(EventModel::ThinkDelta { content }), Part::Thought) == spoken(
            events,
            Part::Thought,
        ) + content,
        spoken(events.push(EventModel::ContentDelta { content }), Part::Answer) == spoken(
            events,
            Part::Answer,
        ) + content,
        other !is ThinkDelta ==> spoken(events.push(other), Part::Thought) == spoken(
            events,
            Part::Thought,
        ),
        other !is ContentDelta ==> spoken(events.push(other), Part::Answer) == spoken(
            events,
            Part::Answer,
        ),
{
    assert(events.push(EventModel::ThinkDelta { content }).drop_last() =~= events);
    assert(events.push(EventModel::ContentDelta { content }).drop_last() =~= events);
    assert(events.push(other).drop_last() =~= events);
    assert(spoken(events, Part::Thought) + Seq::<char>::empty() =~= spoken(events, Part::Thought));
    assert(spoken(events, Part::Answer) + Seq::<char>::empty() =~= spoken(events, Part::Answer));
}

/// Only thoughts are left out for coming late, and all of them: whatever else comes
/// stays, and a thought stays as long as no piece of answer came before it.
pub proof fn law_timely(step: StepModel, rest: Seq<StepModel>, content: Seq<char>, answering: bool)
    ensures
        timely(Seq::empty(), answering).len() == 0,
        timely(
            seq![StepModel::Event(EventModel::ContentDelta { content })] + rest,
            answering,
        ) == seq![StepModel::Event(EventModel::ContentDelta { content })] + timely(rest, true),
        timely(seq![StepModel::Event(EventModel::ThinkDelta { content })] + rest, true) == timely(
            rest,
            true,
        ),
        timely(seq![StepModel::Event(EventModel::ThinkDelta { content })] + rest, false) == seq![
            StepModel::Event(EventModel::ThinkDelta { content }),
        ] + timely(rest, false),
        !(step matches StepModel::Event(e) && order::is_delta(e)) ==> timely(
            seq![step] + rest,
            answering,
        ) == seq![step] + timely(rest, answering),
{
    let answer = StepModel::Event(EventModel::ContentDelta { content });
    let thought = StepModel::Event(EventModel::ThinkDelta { content });
    assert((seq![answer] + rest).drop_first() =~= rest);
    assert((seq![thought] + rest).drop_first() =~= rest);
    assert((seq![step] + rest).drop_first() =~= rest);
    assert((seq![answer] + rest)[0] == answer);
    assert((seq![thought] + rest)[0] == thought);
    assert((seq![step] + rest)[0] == step);
}

/// Deltas and errors are what a list of steps carries, each of them as it is and in
/// order.
pub proof fn law_carried(steps: Seq<StepModel>, content: Seq<char>, e: ErrorModel, other: StepModel)
    ensures
        carried(Seq::empty()).len() == 0,
        ({
            let thought = StepModel::Event(EventModel::ThinkDelta { content });
            let answer = StepModel::Event(EventModel::ContentDelta { content });
            let error = StepModel::Error(e);
            &&& carried(steps.push(thought)) == carried(steps).push(thought)
            &&& carried(steps.push(answer)) == carried(steps).push(answer)
            &&& carried(steps.push(error)) == carried(steps).push(error)
        }),
        !(other is Error) && !(other matches StepModel::Event(x) && (x is ThinkDelta || x
            is ContentDelta)) ==> carried(steps.push(other)) == carried(steps),
{
    let thought = StepModel::Event(EventModel::ThinkDelta { content });
    let answer = StepModel::Event(EventModel::ContentDelta { content });
    let error = StepModel::Error(e);
    assert(steps.push(thought).drop_last() =~= steps);
    assert(steps.push(answer).drop_last() =~= steps);
    assert(steps.push(error).drop_last() =~= steps);
    assert(steps.push(other).drop_last() =~= steps);
    assert(carried(steps) + seq![thought] =~= carried(steps).push(thought));
    assert(carried(steps) + seq![answer] =~= carried(steps).push(answer));
    assert(carried(steps) + seq![error] =~= carried(steps).push(error));
    assert(carried(steps) + Seq::<StepModel>::empty() =~= carried(steps));
}

/// The frames of a response are its bytes, cut at the blank lines; what is left at
/// the end is a frame unless it is empty.
pub proof fn law_frames(first: Seq<u8>, rest: Seq<u8>)
    requires
        forall|k: int|
            0 <= k && k + 1 < first.len() ==> !(#[trigger] first[k] == 10 && first[k + 1] == 10),
    ensures
        first.len() == 0 || first.last() != 10 ==> frames_of(first + seq![10u8, 10u8] + rest)
            == seq![encoding::lossy_text(first)] + frames_of(rest),
        first.len() > 0 ==> frames_of(first) == seq![encoding::lossy_text(first)],
        frames_of(Seq::empty()).len() == 0,
{
    if first.len() == 0 || first.last() != 10 {
        frame::law_frame_is_cut(first, rest);
    }
    frame::law_frame_is_there(first);
    assert(frame::next_frame(Seq::<u8>::empty()) is None);
}

/// What frames result in: the results of each, as they are and in order, each on
/// the state that those before it lead to.
pub proof fn law_results(state: PatchModel, text: Seq<char>, rest: Seq<Seq<char>>)
    ensures
        ({
            let (state1, outcome) = patch::frame_outcome(state, text);
            let (state2, after) = results(state1, rest);
            let (all_state, all) = results(state, seq![text] + rest);
            &&& all_state == state2
            &&& outcome matches Err(e) ==> all == seq![StepModel::Error(e)] + after
            &&& outcome matches Ok(events) ==> all.len() == events.len() + after.len()
                && all.skip(events.len() as int) == after && forall|i: int|
                0 <= i < events.len() ==> #[trigger] all[i] == StepModel::Event(events[i])
        }),
        results(state, Seq::empty()) == (state, Seq::<StepModel>::empty()),
{
    let whole = seq![text] + rest;
    assert(whole[0] == text);
    assert(whole.drop_first() =~= rest);
    let (state1, outcome) = patch::frame_outcome(state, text);
    let after = results(state1, rest).1;
    if let Ok(events) = outcome {
        assert((steps_of(events) + after).skip(events.len() as int) =~= after);
    }
}

} // verus!
