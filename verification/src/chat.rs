//! Conversations.
pub mod effects;
pub mod event;
pub mod frame;
pub mod order;
pub mod patch;
pub mod reply;
pub mod session;
pub mod stream;
pub mod transcript;
pub mod wait;

use vstd::prelude::*;

use crate::chat::session::{
    ActiveSession, SessionCleanup, SessionHandle, SessionModel, SessionTable,
};
use crate::config::DsCoreConfig;
use crate::text;

verus! {

/// What the strings of a list hold.
pub open spec fn texts(strings: Seq<String>) -> Seq<Seq<char>> {
    Seq::new(strings.len(), |i: int| strings[i]@)
}

/// Where an item first stands in a list.
pub open spec fn first_position(list: Seq<Seq<char>>, item: Seq<char>) -> Option<int>
    decreases list.len(),
{
    if list.len() == 0 {
        None
    } else if list[0] == item {
        Some(0)
    } else {
        match first_position(list.drop_first(), item) {
            Some(i) => Some(i + 1),
            None => None,
        }
    }
}

/// How many characters a model takes: the limit that stands where the model first
/// stands in the list of models, and 163840 for a model that is not listed or has
/// no limit.
pub open spec fn limit_of(
    model_types: Seq<Seq<char>>,
    limits: Seq<u32>,
    model_type: Seq<char>,
) -> int {
    match first_position(model_types, model_type) {
        Some(i) => if i < limits.len() {
            limits[i] as int
        } else {
            163840
        },
        None => 163840,
    }
}

/// How a request is sent.
#[derive(Debug, Clone, Copy, PartialEq, Eq, Structural)]
pub enum RequestPath {
    /// The prompt goes out in one piece.
    Once,
    /// The prompt is written to the session in chunks; the last one is answered.
    OversizedChunk,
    /// The history goes out as a file, the latest turn as the prompt.
    OversizedFile,
}

/// How a request is sent: in one piece as long as the prompt has no more
/// characters than three quarters of what the model takes, and otherwise in
/// chunks to the model `expert` and with a file to any other.
pub open spec fn route_of(prompt: Seq<char>, model_type: Seq<char>, limit: int) -> RequestPath {
    if prompt.len() * 100 <= limit * 75 {
        RequestPath::Once
    } else if model_type == "expert"@ {
        RequestPath::OversizedChunk
    } else {
        RequestPath::OversizedFile
    }
}

/// The conversations of the core.
#[derive(Debug)]
pub struct Chat {
    active_sessions: SessionTable,
    model_types: Vec<String>,
    input_character_limits: Vec<u32>,
}

/// The state of the conversations.
pub struct ChatModel {
    pub active: Map<Seq<char>, SessionModel>,
    pub model_types: Seq<Seq<char>>,
    pub limits: Seq<u32>,
}

impl View for Chat {
    type V = ChatModel;

    closed spec fn view(&self) -> ChatModel {
        ChatModel {
            active: self.active_sessions@,
            model_types: texts(self.model_types@),
            limits: self.input_character_limits@,
        }
    }
}

impl Chat {
    /// No conversations yet, with the models and limits of a configuration.
    pub fn new(config: &DsCoreConfig) -> (r: Chat)
        ensures
            r@ == (ChatModel {
                active: Map::empty(),
                model_types: texts(config.model_types@),
                limits: config.input_character_limits@,
            }),
    {
        let r = Chat {
            active_sessions: SessionTable::new(),
            model_types: config.model_types.clone(),
            input_character_limits: config.input_character_limits.clone(),
        };
        proof {
            assert(r@.model_types =~= texts(config.model_types@));
            assert(r@.limits =~= config.input_character_limits@);
        }
        r
    }

    /// How many characters a model takes.
    pub fn input_character_limit_for(&self, model_type: &str) -> (r: usize)
        ensures
            r == limit_of(self@.model_types, self@.limits, model_type@),
            (forall|k: int| 0 <= k < self@.model_types.len() ==> #[trigger] self@.model_types[k]
                != model_type@) ==> r == 163840,
    {
        let ghost all = texts(self.model_types@);
        let mut i: usize = 0;
        proof {
            assert(all.skip(0) =~= all);
        }
        while i < self.model_types.len()
            invariant
                i <= self.model_types@.len(),
                all == texts(self.model_types@),
                match first_position(all.skip(i as int), model_type@) {
                    Some(k) => first_position(all, model_type@) == Some(k + i),
                    None => first_position(all, model_type@) is None,
                },
            decreases self.model_types@.len() - i,
        {
            proof {
                assert(all.skip(i as int)[0] == self.model_types@[i as int]@);
                assert(all.skip(i as int).drop_first() =~= all.skip(i + 1));
            }
            if text::same(self.model_types[i].as_str(), model_type) {
                if i < self.input_character_limits.len() {
                    return self.input_character_limits[i] as usize;
                }
                return 163_840;
            }
            i = i + 1;
        }
        proof {
            law_limits(self@.model_types, self@.limits, model_type@);
        }
        163_840
    }

    /// How a request with the given prompt is sent to a model.
    pub fn route(&self, prompt: &str, model_type: &str) -> (r: RequestPath)
        ensures
            r == route_of(
                prompt@,
                model_type@,
                limit_of(self@.model_types, self@.limits, model_type@),
            ),
            r == RequestPath::Once <==> prompt@.len() * 100 <= limit_of(
                self@.model_types,
                self@.limits,
                model_type@,
            ) * 75,
            r != RequestPath::Once ==> (r == RequestPath::OversizedChunk <==> model_type@
                == "expert"@),
    {
        let length: usize = text::chars_of(prompt).len();
        let limit: usize = self.input_character_limit_for(model_type);
        if length as u128 * 100 <= limit as u128 * 75 {
            RequestPath::Once
        } else if text::same(model_type, "expert") {
            RequestPath::OversizedChunk
        } else {
            RequestPath::OversizedFile
        }
    }

    /// Enters the session of a conversation that starts.
    pub fn open_session(&mut self, session: ActiveSession)
        ensures
            final(self)@ == (ChatModel {
                active: old(self)@.active.insert(session@.session_id, session@),
                ..old(self)@
            }),
    {
        self.active_sessions.insert(session);
    }

    /// Ends the session of a conversation whose stream is dropped. The result
    /// says what remains to be done on the backend.
    pub fn end_session(&mut self, handle: &SessionHandle, finished: bool) -> (r: SessionCleanup)
        ensures
            final(self)@ == (ChatModel {
                active: old(self)@.active.remove(handle@.session_id),
                ..old(self)@
            }),
            r@ == session::cleanup_of(handle@, finished),
            r.token@ == handle.token@,
            r.session_id@ == handle.session_id@,
            finished ==> r.stop is None,
            !finished ==> (r.stop matches Some(p) && p.chat_session_id@ == handle.session_id@
                && p.message_id == handle.message_id),
    {
        handle.cleanup(&mut self.active_sessions, finished)
    }

    /// Ends all conversations. The result says what remains to be done on the
    /// backend for the session of each.
    pub fn shutdown(&mut self) -> (r: Vec<SessionCleanup>)
        ensures
            final(self)@ == (ChatModel { active: Map::empty(), ..old(self)@ }),
            session::covers(session::plan_views(r@), old(self)@.active),
            forall|i: int|
                0 <= i < r@.len() ==> session::stops_and_deletes(
                    #[trigger] r@[i],
                    old(self)@.active,
                ),
            forall|id: Seq<char>| #[trigger]
                old(self)@.active.contains_key(id) ==> exists|i: int|
                    0 <= i < r@.len() && (#[trigger] r@[i]).session_id@ == id,
    {
        self.active_sessions.shutdown()
    }
}

/// A request goes out in one piece exactly if its prompt has at most three quarters
/// of the characters that the model takes. However much longer a prompt is, it goes
/// to the model `expert` in chunks and to any other with a file.
pub proof fn law_routes(prompt: Seq<char>, model_type: Seq<char>, limit: int)
    ensures
        prompt.len() * 100 <= limit * 75 <==> route_of(prompt, model_type, limit)
            == RequestPath::Once,
        prompt.len() * 100 > limit * 75 && model_type == "expert"@ ==> route_of(
            prompt,
            model_type,
            limit,
        ) == RequestPath::OversizedChunk,
        prompt.len() * 100 > limit * 75 && model_type != "expert"@ ==> route_of(
            prompt,
            model_type,
            limit,
        ) == RequestPath::OversizedFile,
{
}

/// The route depends on the length of a prompt alone, and that of an oversized
/// prompt does not change as the prompt grows; nor does a prompt that goes out in
/// one piece stop doing so as it shrinks.
pub proof fn law_route_as_the_prompt_grows(
    prompt: Seq<char>,
    longer: Seq<char>,
    model_type: Seq<char>,
    limit: int,
)
    requires
        prompt.len() <= longer.len(),
    ensures
        route_of(prompt, model_type, limit) != RequestPath::Once ==> route_of(
            longer,
            model_type,
            limit,
        ) == route_of(prompt, model_type, limit),
        route_of(longer, model_type, limit) == RequestPath::Once ==> route_of(
            prompt,
            model_type,
            limit,
        ) == RequestPath::Once,
        prompt.len() == longer.len() ==> route_of(prompt, model_type, limit) == route_of(
            longer,
            model_type,
            limit,
        ),
{
}

/// The limit of a model is the one that stands where the model first stands in the
/// list, whatever it is; a model that is not listed, or that has no limit there,
/// takes 163840 characters.
pub proof fn law_limits(model_types: Seq<Seq<char>>, limits: Seq<u32>, model_type: Seq<char>)
    ensures
        forall|i: int|
            0 <= i < model_types.len() && #[trigger] model_types[i] == model_type && (forall|k: int|
                0 <= k < i ==> #[trigger] model_types[k] != model_type) ==> limit_of(
                model_types,
                limits,
                model_type,
            ) == (if i < limits.len() {
                limits[i] as int
            } else {
                163840
            }),
        (forall|k: int| 0 <= k < model_types.len() ==> #[trigger] model_types[k] != model_type)
            ==> limit_of(model_types, limits, model_type) == 163840,
{
    lemma_first_position(model_types, model_type);
    assert forall|i: int|
        0 <= i < model_types.len() && #[trigger] model_types[i] == model_type && (forall|k: int|
            0 <= k < i ==> #[trigger] model_types[k] != model_type) implies limit_of(
        model_types,
        limits,
        model_type,
    ) == (if i < limits.len() {
        limits[i] as int
    } else {
        163840
    }) by {
        let p = first_position(model_types, model_type)->0;
        assert(model_types[p] == model_type);
        assert(p == i);
    }
}

proof fn lemma_first_position(list: Seq<Seq<char>>, item: Seq<char>)
    ensures
        match first_position(list, item) {
            Some(p) => 0 <= p < list.len() && list[p] == item && forall|k: int|
                0 <= k < p ==> #[trigger] list[k] != item,
            None => forall|k: int| 0 <= k < list.len() ==> #[trigger] list[k] != item,
        },
    decreases list.len(),
{
    if list.len() > 0 && list[0] != item {
        let rest = list.drop_first();
        lemma_first_position(rest, item);
        assert forall|k: int| 1 <= k < list.len() implies #[trigger] list[k] == rest[k - 1] by {}
    }
}

/// A list of strings holds what each of them holds, in order.
pub proof fn law_texts(strings: Seq<String>)
    ensures
        texts(strings).len() == strings.len(),
        forall|i: int| 0 <= i < strings.len() ==> #[trigger] texts(strings)[i] == strings[i]@,
{
}

} // verus!
