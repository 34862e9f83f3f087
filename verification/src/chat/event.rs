//! The events of a response.
use vstd::prelude::*;

verus! {

/// One event of a response.
#[derive(Debug, Clone)]
pub enum StreamEvent {
    /// The response starts; it runs on this account.
    Meta { account_id: String },
    /// The model starts to think.
    ThinkStart,
    /// A piece of what the model thinks.
    ThinkDelta { content: String },
    /// The model starts to answer.
    ContentStart,
    /// A piece of the answer.
    ContentDelta { content: String },
    /// The response ends: `finish_reason` is `stop` if the answer is complete,
    /// and absent otherwise.
    Done { finish_reason: Option<String>, accumulated_token_usage: Option<u32> },
}

/// What a [`StreamEvent`] says.
pub enum EventModel {
    Meta { account_id: Seq<char> },
    ThinkStart,
    ThinkDelta { content: Seq<char> },
    ContentStart,
    ContentDelta { content: Seq<char> },
    Done { finish_reason: Option<Seq<char>>, accumulated_token_usage: Option<u32> },
}

impl View for StreamEvent {
    type V = EventModel;

    open spec fn view(&self) -> EventModel {
        match self {
            StreamEvent::Meta { account_id } => EventModel::Meta { account_id: account_id@ },
            StreamEvent::ThinkStart => EventModel::ThinkStart,
            StreamEvent::ThinkDelta { content } => EventModel::ThinkDelta { content: content@ },
            StreamEvent::ContentStart => EventModel::ContentStart,
            StreamEvent::ContentDelta { content } => EventModel::ContentDelta {
                content: content@,
            },
            StreamEvent::Done { finish_reason, accumulated_token_usage } => EventModel::Done {
                finish_reason: match finish_reason {
                    Some(s) => Some(s@),
                    None => None,
                },
                accumulated_token_usage: *accumulated_token_usage,
            },
        }
    }
}

/// What the events of a list say.
pub open spec fn views(events: Seq<StreamEvent>) -> Seq<EventModel> {
    Seq::new(events.len(), |i: int| events[i]@)
}

/// An event says what it holds, to the letter.
pub proof fn law_events_say(text: String, reason: Option<String>, usage: Option<u32>)
    ensures
        (StreamEvent::Meta { account_id: text })@ == (EventModel::Meta { account_id: text@ }),
        StreamEvent::ThinkStart@ == EventModel::ThinkStart,
        (StreamEvent::ThinkDelta { content: text })@ == (EventModel::ThinkDelta {
            content: text@,
        }),
        StreamEvent::ContentStart@ == EventModel::ContentStart,
        (StreamEvent::ContentDelta { content: text })@ == (EventModel::ContentDelta {
            content: text@,
        }),
        (StreamEvent::Done { finish_reason: reason, accumulated_token_usage: usage })@ matches
            EventModel::Done { finish_reason, accumulated_token_usage } && accumulated_token_usage
            == usage && (reason matches Some(r) ==> finish_reason == Some(r@)) && (reason is None
            ==> finish_reason is None),
{
}

/// A list of events says what each of them says, in order.
pub proof fn law_lists_say(events: Seq<StreamEvent>)
    ensures
        views(events).len() == events.len(),
        forall|i: int| 0 <= i < events.len() ==> #[trigger] views(events)[i] == events[i]@,
{
}

} // verus!
