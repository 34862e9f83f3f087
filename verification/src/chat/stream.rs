//! The event stream of a response.
//!
//! [`ResponseStream`] turns the bytes of a response into events. It does no
//! input of its own: whoever drives it asks for the next step and, when told
//! that input is needed, hands over what the connection gave.
use vstd::prelude::*;

use crate::chat::event;
use crate::chat::event::{EventModel, StreamEvent};
use crate::chat::frame;
use crate::chat::patch;
use crate::chat::patch::{PatchModel, PatchState};
use crate::encoding;
use crate::error::{CoreError, ErrorModel};

verus! {

/// How far a response has come.
#[derive(Debug, Clone, Copy, PartialEq, Eq, Structural)]
pub enum Phase {
    Init,
    Thinking,
    Content,
    Done,
}

/// What comes next on a stream.
pub enum StreamStep {
    /// An event.
    Event(StreamEvent),
    /// An error; the stream goes on after it.
    Error(CoreError),
    /// Nothing until the connection has given more.
    NeedInput,
    /// Nothing more.
    End,
}

/// What a [`StreamStep`] says.
pub enum StepModel {
    Event(EventModel),
    Error(ErrorModel),
    NeedInput,
    End,
}

impl View for StreamStep {
    type V = StepModel;

    open spec fn view(&self) -> StepModel {
        match self {
            StreamStep::Event(e) => StepModel::Event(e@),
            StreamStep::Error(e) => StepModel::Error(e@),
            StreamStep::NeedInput => StepModel::NeedInput,
            StreamStep::End => StepModel::End,
        }
    }
}

/// The event stream of a response.
pub struct ResponseStream {
    buf: Vec<u8>,
    patch_state: PatchState,
    phase: Phase,
    /// The events that wait to be handed out, the next one last.
    pending: Vec<StreamEvent>,
    meta_sent: bool,
    account_id: String,
    finished: bool,
}

/// The state of a stream.
pub struct StreamModel {
    /// Bytes that have come and belong to no frame yet.
    pub buf: Seq<u8>,
    pub patch: PatchModel,
    pub phase: Phase,
    /// The events that wait to be handed out, the next one first.
    pub pending: Seq<EventModel>,
    pub meta_sent: bool,
    pub account_id: Seq<char>,
    /// Whether the connection has given everything.
    pub finished: bool,
}

impl View for ResponseStream {
    type V = StreamModel;

    closed spec fn view(&self) -> StreamModel {
        StreamModel {
            buf: self.buf@,
            patch: self.patch_state@,
            phase: self.phase,
            pending: event::views(self.pending@).reverse(),
            meta_sent: self.meta_sent,
            account_id: self.account_id@,
            finished: self.finished,
        }
    }
}

/// The phase that an event leads to and the events that go out for it: the first
/// delta of a phase is announced by the start of that phase. Thinking comes before
/// the answer; a thought that comes after the answer has started does not go out.
pub open spec fn announce(phase: Phase, e: EventModel) -> (Phase, Seq<EventModel>) {
    match e {
        EventModel::ThinkDelta { .. } => if phase is Init {
            (Phase::Thinking, seq![EventModel::ThinkStart, e])
        } else if phase is Content {
            (phase, Seq::empty())
        } else {
            (phase, seq![e])
        },
        EventModel::ContentDelta { .. } => if phase is Init || phase is Thinking {
            (Phase::Content, seq![EventModel::ContentStart, e])
        } else {
            (phase, seq![e])
        },
        _ => (phase, seq![e]),
    }
}

/// The phase that a list of events leads to and the events that go out for it.
pub open spec fn announce_all(phase: Phase, events: Seq<EventModel>) -> (Phase, Seq<EventModel>)
    decreases events.len(),
{
    if events.len() == 0 {
        (phase, Seq::empty())
    } else {
        let (before, sent) = announce_all(phase, events.drop_last());
        let (after, last) = announce(before, events.last());
        (after, sent + last)
    }
}

/// Where no event goes out, the phase stays.
pub proof fn lemma_nothing_announced(phase: Phase, events: Seq<EventModel>)
    ensures
        announce_all(phase, events).1.len() == 0 ==> announce_all(phase, events).0 == phase,
    decreases events.len(),
{
    if events.len() > 0 {
        lemma_nothing_announced(phase, events.drop_last());
    }
}

impl StreamModel {
    /// A stream of which nothing has come yet.
    pub open spec fn fresh(account_id: Seq<char>) -> StreamModel {
        StreamModel {
            buf: Seq::empty(),
            patch: PatchModel::fresh(),
            phase: Phase::Init,
            pending: Seq::empty(),
            meta_sent: false,
            account_id,
            finished: false,
        }
    }

    /// The stream after more bytes have come.
    pub open spec fn fed(self, chunk: Seq<u8>) -> StreamModel {
        StreamModel { buf: self.buf + chunk, ..self }
    }

    /// The stream after the connection has given everything.
    pub open spec fn closed(self) -> StreamModel {
        StreamModel { finished: true, ..self }
    }
}

/// Takes in a frame. Of the events that a frame brings and that go out, the first
/// is handed out and the others are queued; if the status then announces the end
/// of the response, the end comes after them.
pub open spec fn take_in(m: StreamModel, text: Seq<char>) -> (StreamModel, Option<StepModel>) {
    let (state, outcome) = patch::frame_outcome(m.patch, text);
    let m1 = StreamModel { patch: state, ..m };
    match outcome {
        Err(e) => (m1, Some(StepModel::Error(e))),
        Ok(events) => if events.len() == 0 {
            (m1, None)
        } else {
            let (phase, sent) = announce_all(m.phase, events);
            let (phase1, queue) = match patch::announced_end(state) {
                Some(end) => (Phase::Done, sent.push(end)),
                None => (phase, sent),
            };
            if queue.len() == 0 {
                (m1, None)
            } else {
                (
                    StreamModel { phase: phase1, pending: queue.drop_first(), ..m1 },
                    Some(StepModel::Event(queue[0])),
                )
            }
        },
    }
}

/// How a response ends when the connection has given everything: as its status
/// announces, and as incomplete if that announces no end.
pub open spec fn last_event(state: PatchModel) -> EventModel {
    match patch::announced_end(state) {
        Some(end) => end,
        None => EventModel::Done { finish_reason: None, accumulated_token_usage: None },
    }
}

/// Takes in frame after frame until one yields a step. Once the connection has
/// given everything, what is left in the buffer is the last frame, and the
/// response ends after it.
pub open spec fn work(m: StreamModel) -> (StreamModel, StepModel)
    decreases m.buf.len(),
    via work_shrinks
{
    match frame::next_frame(m.buf) {
        Some((bytes, rest)) => {
            let (m1, step) = take_in(
                StreamModel { buf: rest, ..m },
                encoding::lossy_text(bytes),
            );
            match step {
                Some(step) => (m1, step),
                None => work(m1),
            }
        },
        None => if !m.finished {
            (m, StepModel::NeedInput)
        } else {
            let (m1, step) = if m.buf.len() == 0 {
                (m, None)
            } else {
                take_in(
                    StreamModel { buf: Seq::empty(), ..m },
                    encoding::lossy_text(m.buf),
                )
            };
            match step {
                Some(step) => (m1, step),
                None => (
                    StreamModel { phase: Phase::Done, ..m1 },
                    StepModel::Event(last_event(m1.patch)),
                ),
            }
        },
    }
}

/// A frame is shorter than the buffer that it is taken from, and so is the rest.
pub proof fn lemma_next_frame_shrinks(buf: Seq<u8>)
    ensures
        frame::next_frame(buf) matches Some((bytes, rest)) ==> bytes.len() + 2 + rest.len()
            == buf.len(),
{
    frame::lemma_blank_line(buf, 10u8);
}

#[via_fn]
proof fn work_shrinks(m: StreamModel) {
    lemma_next_frame_shrinks(m.buf);
}

/// The next step of a stream. The first is always the account that the response
/// runs on; then come the queued events, and then what the frames bring, until
/// the response has ended.
pub open spec fn next_step(m: StreamModel) -> (StreamModel, StepModel) {
    if !m.meta_sent {
        (
            StreamModel { meta_sent: true, ..m },
            StepModel::Event(EventModel::Meta { account_id: m.account_id }),
        )
    } else if m.pending.len() > 0 {
        (
            StreamModel { pending: m.pending.drop_first(), ..m },
            StepModel::Event(m.pending[0]),
        )
    } else if m.phase is Done {
        (m, StepModel::End)
    } else {
        work(m)
    }
}

impl ResponseStream {
    /// A stream of which nothing has come yet, of a response that runs on the
    /// given account.
    pub fn new(account_id: String) -> (r: ResponseStream)
        ensures
            r@ == StreamModel::fresh(account_id@),
    {
        let r = ResponseStream {
            buf: Vec::new(),
            patch_state: PatchState::new(),
            phase: Phase::Init,
            pending: Vec::new(),
            meta_sent: false,
            account_id,
            finished: false,
        };
        proof {
            assert(r@.pending =~= Seq::empty());
        }
        r
    }

    /// Hands over bytes that the connection gave.
    pub fn feed(&mut self, chunk: &[u8])
        ensures
            final(self)@ == old(self)@.fed(chunk@),
    {
        self.buf.extend_from_slice(chunk);
        proof {
            assert(self.buf@ =~= old(self).buf@ + chunk@);
        }
    }

    /// Tells that the connection has given everything.
    pub fn close(&mut self)
        ensures
            final(self)@ == old(self)@.closed(),
    {
        self.finished = true;
    }

    /// Whether the connection has given everything.
    pub fn is_finished(&self) -> (r: bool)
        ensures
            r == self@.finished,
    {
        self.finished
    }

    /// What is known of the response.
    pub fn patch_state(&self) -> (r: &PatchState)
        ensures
            r@ == self@.patch,
    {
        &self.patch_state
    }

    /// Announces the phases that events start.
    fn announced(&mut self, events: Vec<StreamEvent>) -> (r: Vec<StreamEvent>)
        ensures
            final(self)@ == (StreamModel {
                phase: announce_all(old(self)@.phase, event::views(events@)).0,
                ..old(self)@
            }),
            event::views(r@) == announce_all(old(self)@.phase, event::views(events@)).1,
    {
        let ghost all = event::views(events@);
        let mut sent: Vec<StreamEvent> = Vec::new();
        proof {
            assert(event::views(sent@) =~= Seq::empty());
            assert(all.take(0) =~= Seq::empty());
        }
        for e in it: events
            invariant
                it.seq() == events@,
                all == event::views(events@),
                self@ == (StreamModel {
                    phase: announce_all(old(self)@.phase, all.take(it.index())).0,
                    ..old(self)@
                }),
                event::views(sent@) == announce_all(old(self)@.phase, all.take(it.index())).1,
        {
            let ghost n = it.index();
            let ghost before = event::views(sent@);
            let ghost phase = self.phase;
            let ghost model = e@;
            proof {
                assert(all.take(n + 1).drop_last() =~= all.take(n));
                assert(all.take(n + 1).last() == e@);
            }
            let late = match &e {
                StreamEvent::ThinkDelta { .. } => {
                    if self.phase == Phase::Init {
                        self.phase = Phase::Thinking;
                        sent.push(StreamEvent::ThinkStart);
                    }
                    self.phase == Phase::Content
                },
                StreamEvent::ContentDelta { .. } => {
                    if self.phase == Phase::Init || self.phase == Phase::Thinking {
                        self.phase = Phase::Content;
                        sent.push(StreamEvent::ContentStart);
                    }
                    false
                },
                _ => false,
            };
            if !late {
                sent.push(e);
            }
            proof {
                assert(event::views(sent@) =~= before + announce(phase, model).1);
            }
        }
        proof {
            assert(all.take(all.len() as int) =~= all);
        }
        sent
    }

    /// Takes in a frame.
    fn take_in(&mut self, text: &str) -> (r: Option<StreamStep>)
        requires
            old(self)@.pending.len() == 0,
        ensures
            final(self)@ == take_in(old(self)@, text@).0,
            match r {
                Some(step) => take_in(old(self)@, text@).1 == Some(step@),
                None => take_in(old(self)@, text@).1 is None,
            },
    {
        let events = match self.patch_state.apply_frame(text) {
            Ok(events) => events,
            Err(e) => return Some(StreamStep::Error(e)),
        };
        if events.is_empty() {
            return None;
        }
        proof {
            lemma_nothing_announced(self@.phase, event::views(events@));
        }
        let mut queue = self.announced(events);
        if let Some(end) = self.patch_state.end() {
            let ghost sent = event::views(queue@);
            self.phase = Phase::Done;
            queue.push(end);
            proof {
                assert(event::views(queue@) =~= sent.push(end@));
            }
        }
        if queue.is_empty() {
            return None;
        }
        let ghost phase1 = self.phase;
        let ghost all = event::views(queue@);
        proof {
            assert(all.len() > 0);
            assert(all.take(all.len() as int) =~= all);
            assert(all.subrange(all.len() as int, all.len() as int) =~= self@.pending);
        }
        while queue.len() > 1
            invariant
                1 <= queue@.len() <= all.len(),
                event::views(queue@) == all.take(queue@.len() as int),
                self@.pending == all.subrange(queue@.len() as int, all.len() as int),
                self@.buf == old(self)@.buf,
                self@.patch == patch::frame_outcome(old(self)@.patch, text@).0,
                self@.meta_sent == old(self)@.meta_sent,
                self@.account_id == old(self)@.account_id,
                self@.finished == old(self)@.finished,
                self@.phase == phase1,
            decreases queue@.len(),
        {
            let ghost n = queue@.len() as int;
            let ghost kept = event::views(self.pending@);
            let ghost before = event::views(queue@);
            if let Some(e) = queue.pop() {
                proof {
                    assert(before[n - 1] == e@);
                    assert(e@ == all[n - 1]);
                    assert(event::views(queue@) =~= all.take(n - 1));
                }
                self.pending.push(e);
                proof {
                    assert(event::views(self.pending@) =~= kept.push(all[n - 1]));
                    assert(self@.pending =~= seq![all[n - 1]] + kept.reverse());
                    assert(self@.pending =~= all.subrange(n - 1, all.len() as int));
                }
            }
        }
        proof {
            assert(event::views(queue@)[0] == queue@[0]@);
            assert(queue@[0]@ == all[0]);
            assert(self@.pending =~= all.drop_first());
        }
        match queue.pop() {
            Some(first) => Some(StreamStep::Event(first)),
            None => None,
        }
    }

    /// The next step of the stream.
    pub fn poll_next(&mut self) -> (r: StreamStep)
        ensures
            (final(self)@, r@) == next_step(old(self)@),
    {
        if !self.meta_sent {
            self.meta_sent = true;
            return StreamStep::Event(StreamEvent::Meta { account_id: self.account_id.clone() });
        }
        if let Some(e) = self.pending.pop() {
            proof {
                let before = event::views(old(self).pending@);
                assert(event::views(self.pending@) =~= before.drop_last());
                assert(before.last() == e@);
                assert(self@.pending =~= old(self)@.pending.drop_first());
                assert(old(self)@.pending[0] == e@);
            }
            return StreamStep::Event(e);
        }
        proof {
            assert(self@.pending =~= Seq::empty());
        }
        if self.phase == Phase::Done {
            return StreamStep::End;
        }
        loop
            invariant
                self@.pending.len() == 0,
                work(self@) == next_step(old(self)@),
            decreases self@.buf.len(),
        {
            proof {
                lemma_next_frame_shrinks(self@.buf);
            }
            match frame::take_frame(&mut self.buf) {
                Some(text) => {
                    if let Some(step) = self.take_in(text.as_str()) {
                        return step;
                    }
                },
                None => {
                    if !self.finished {
                        return StreamStep::NeedInput;
                    }
                    if !self.buf.is_empty() {
                        let text = encoding::decode_lossy(self.buf.as_slice());
                        self.buf.clear();
                        if let Some(step) = self.take_in(text.as_str()) {
                            return step;
                        }
                    }
                    self.phase = Phase::Done;
                    let last = match self.patch_state.end() {
                        Some(end) => end,
                        None => StreamEvent::Done {
                            finish_reason: None,
                            accumulated_token_usage: None,
                        },
                    };
                    return StreamStep::Event(last);
                },
            }
        }
    }
}

/// A step of a stream says what it holds.
pub proof fn law_stream_steps_say(event: StreamEvent, error: CoreError)
    ensures
        StreamStep::Event(event)@ == StepModel::Event(event@),
        StreamStep::Error(error)@ == StepModel::Error(error@),
        StreamStep::NeedInput@ == StepModel::NeedInput,
        StreamStep::End@ == StepModel::End,
{
}

} // verus!
