//! The patch protocol of a response.
//!
//! A response arrives as patches. A patch names a path (`p`), an operation (`o`)
//! and a value (`v`); path and operation stay in force until a later patch
//! replaces them. [`PatchState`] follows the response and turns every patch into
//! the events that it brings.
use vstd::prelude::*;

use crate::chat::event;
use crate::chat::event::{EventModel, StreamEvent};
use crate::chat::frame;
use crate::chat::reply;
use crate::error::{CoreError, ErrorModel};
use crate::json;
use crate::json::{Json, JsonModel};
use crate::text;

verus! {

/// A fragment of the response: what the model thinks (`THINK`), its answer
/// (`RESPONSE`), or something else.
struct Fragment {
    ty: String,
    content: String,
}

/// What is known of a response so far.
pub struct PatchState {
    current_path: Option<String>,
    current_op: Option<String>,
    fragments: Vec<Fragment>,
    status: Option<String>,
    accumulated_token_usage: Option<u32>,
}

/// A fragment of a response.
pub struct FragmentModel {
    pub ty: Seq<char>,
    pub content: Seq<char>,
}

/// What is known of a response.
pub struct PatchModel {
    /// The path in force.
    pub path: Option<Seq<char>>,
    /// The operation in force.
    pub op: Option<Seq<char>>,
    pub fragments: Seq<FragmentModel>,
    pub status: Option<Seq<char>>,
    pub usage: Option<u32>,
}

/// What an optional string holds.
pub open spec fn text_of(s: Option<String>) -> Option<Seq<char>> {
    match s {
        Some(s) => Some(s@),
        None => None,
    }
}

spec fn fragment_views(fragments: Seq<Fragment>) -> Seq<FragmentModel> {
    Seq::new(
        fragments.len(),
        |i: int| FragmentModel { ty: fragments[i].ty@, content: fragments[i].content@ },
    )
}

impl View for PatchState {
    type V = PatchModel;

    closed spec fn view(&self) -> PatchModel {
        PatchModel {
            path: text_of(self.current_path),
            op: text_of(self.current_op),
            fragments: fragment_views(self.fragments@),
            status: text_of(self.status),
            usage: self.accumulated_token_usage,
        }
    }
}

impl PatchModel {
    /// Nothing is known yet.
    pub open spec fn fresh() -> PatchModel {
        PatchModel {
            path: None,
            op: None,
            fragments: Seq::empty(),
            status: None,
            usage: None,
        }
    }

    /// The path in force; the empty one until a patch names one.
    pub open spec fn path_in_force(self) -> Seq<char> {
        match self.path {
            Some(p) => p,
            None => Seq::empty(),
        }
    }

    /// The operation in force; `SET` until a patch names one.
    pub open spec fn op_in_force(self) -> Seq<char> {
        match self.op {
            Some(o) => o,
            None => "SET"@,
        }
    }
}

/// The delta that new content of a fragment brings: only the fragments that the
/// model thinks or answers in bring any.
pub open spec fn delta_of(ty: Seq<char>, content: Seq<char>) -> Option<EventModel> {
    if ty == "THINK"@ {
        Some(EventModel::ThinkDelta { content })
    } else if ty == "RESPONSE"@ {
        Some(EventModel::ContentDelta { content })
    } else {
        None
    }
}

/// The delta that a new fragment brings: none if it is still empty.
pub open spec fn opening_delta(fragment: FragmentModel) -> Seq<EventModel> {
    match delta_of(fragment.ty, fragment.content) {
        Some(delta) => if fragment.content.len() > 0 {
            seq![delta]
        } else {
            Seq::empty()
        },
        None => Seq::empty(),
    }
}

/// The deltas that new fragments bring, in order.
pub open spec fn opening_deltas(fragments: Seq<FragmentModel>) -> Seq<EventModel>
    decreases fragments.len(),
{
    if fragments.len() == 0 {
        Seq::empty()
    } else {
        opening_deltas(fragments.drop_last()) + opening_delta(fragments.last())
    }
}

/// The fragment that a JSON item describes: one with a type, and with no content
/// where it names none.
pub open spec fn fragment_of(item: JsonModel) -> Seq<FragmentModel> {
    match item.str_at("type"@) {
        Some(ty) => seq![
            FragmentModel {
                ty,
                content: match item.str_at("content"@) {
                    Some(content) => content,
                    None => Seq::empty(),
                },
            },
        ],
        None => Seq::empty(),
    }
}

/// The fragments that JSON items describe, in order.
pub open spec fn fragments_of(items: Seq<JsonModel>) -> Seq<FragmentModel>
    decreases items.len(),
{
    if items.len() == 0 {
        Seq::empty()
    } else {
        fragments_of(items.drop_last()) + fragment_of(items.last())
    }
}

/// A token count as the events carry it: capped at what `u32` holds.
pub open spec fn capped(n: u64) -> u32 {
    if n <= u32::MAX {
        n as u32
    } else {
        u32::MAX
    }
}

/// The status after a value was set: only a string changes it.
pub open spec fn status_after(status: Option<Seq<char>>, value: Option<Seq<char>>) -> Option<
    Seq<char>,
> {
    match value {
        Some(s) => Some(s),
        None => status,
    }
}

/// The token count after a value was set: only a `u64` changes it.
pub open spec fn usage_after(usage: Option<u32>, value: Option<u64>) -> Option<u32> {
    match value {
        Some(n) => Some(capped(n)),
        None => usage,
    }
}

/// The snapshot that opens a response: it sets status and token count where it
/// names them, and replaces the fragments where it lists any.
pub open spec fn snapshot(m: PatchModel, response: JsonModel) -> (PatchModel, Seq<EventModel>) {
    let named = PatchModel {
        status: status_after(m.status, response.str_at("status"@)),
        usage: usage_after(m.usage, response.u64_at("accumulated_token_usage"@)),
        ..m
    };
    match response.array_at("fragments"@) {
        Some(items) => (
            PatchModel { fragments: fragments_of(items), ..named },
            opening_deltas(fragments_of(items)),
        ),
        None => (named, Seq::empty()),
    }
}

/// What a path points at.
pub enum Target {
    Status,
    TokenUsage,
    LastContent,
    Fragments,
    Nothing,
}

/// What a path points at; a path may start with a slash or not.
pub open spec fn target_of(path: Seq<char>) -> Target {
    if path == "response/status"@ || path == "/response/status"@ {
        Target::Status
    } else if path == "response/accumulated_token_usage"@ || path == "accumulated_token_usage"@
        || path == "/response/accumulated_token_usage"@ || path == "/accumulated_token_usage"@ {
        Target::TokenUsage
    } else if path == "response/fragments/-1/content"@ || path
        == "/response/fragments/-1/content"@ {
        Target::LastContent
    } else if path == "response/fragments"@ || path == "/response/fragments"@ {
        Target::Fragments
    } else {
        Target::Nothing
    }
}

/// More content for the last fragment: it grows, and the growth is the delta. A
/// fragment that brings no deltas does not grow.
pub open spec fn grow_last(m: PatchModel, content: Seq<char>) -> (PatchModel, Seq<EventModel>) {
    if m.fragments.len() == 0 {
        (m, Seq::empty())
    } else {
        let last = m.fragments.last();
        match delta_of(last.ty, content) {
            Some(delta) => (
                PatchModel {
                    fragments: m.fragments.update(
                        m.fragments.len() - 1,
                        FragmentModel { ty: last.ty, content: last.content + content },
                    ),
                    ..m
                },
                seq![delta],
            ),
            None => (m, Seq::empty()),
        }
    }
}

/// A value that arrives at a path.
pub open spec fn at_path(m: PatchModel, path: Seq<char>, op: Seq<char>, val: JsonModel) -> (
    PatchModel,
    Seq<EventModel>,
) {
    match target_of(path) {
        Target::Status => (
            PatchModel { status: status_after(m.status, val.as_str()), ..m },
            Seq::empty(),
        ),
        Target::TokenUsage => (
            PatchModel { usage: usage_after(m.usage, val.as_u64()), ..m },
            Seq::empty(),
        ),
        Target::LastContent => match val.as_str() {
            Some(content) => grow_last(m, content),
            None => (m, Seq::empty()),
        },
        Target::Fragments => match val.as_array() {
            Some(items) => if op == "APPEND"@ {
                (
                    PatchModel { fragments: m.fragments + fragments_of(items), ..m },
                    opening_deltas(fragments_of(items)),
                )
            } else {
                (m, Seq::empty())
            },
            None => (m, Seq::empty()),
        },
        Target::Nothing => (m, Seq::empty()),
    }
}

/// A path inside another one; an empty path adds nothing.
pub open spec fn join(parent: Seq<char>, sub: Seq<char>) -> Seq<char> {
    if parent.len() == 0 {
        sub
    } else if sub.len() == 0 {
        parent
    } else {
        parent + "/"@ + sub
    }
}

/// The member `key` of an item if it is a string, or else what was in force.
pub open spec fn renewed(item: JsonModel, key: Seq<char>, current: Seq<char>) -> Seq<char> {
    match item.str_at(key) {
        Some(s) => s,
        None => current,
    }
}

/// The items of a batch, one after the other. Path and operation stay in force
/// from item to item within the batch; an item without a value only renews them.
pub open spec fn batch(
    m: PatchModel,
    parent: Seq<char>,
    items: Seq<JsonModel>,
    path: Seq<char>,
    op: Seq<char>,
) -> (PatchModel, Seq<EventModel>)
    decreases items,
    via batch_shrinks
{
    if items.len() == 0 {
        (m, Seq::empty())
    } else {
        let path1 = renewed(items[0], "p"@, path);
        let op1 = renewed(items[0], "o"@, op);
        let (m1, first) = match items[0].get("v"@) {
            Some(v) => if op1 == "BATCH"@ {
                match v.as_array() {
                    Some(inner) => batch(m, join(parent, path1), inner, Seq::empty(), "SET"@),
                    None => (m, Seq::empty()),
                }
            } else {
                at_path(m, join(parent, path1), op1, v)
            },
            None => (m, Seq::empty()),
        };
        let (m2, rest) = batch(m1, parent, items.drop_first(), path1, op1);
        (m2, first + rest)
    }
}

/// An array member of an item is smaller than the list that holds the item.
pub proof fn lemma_member_shrinks(items: Seq<JsonModel>, i: int, key: Seq<char>)
    requires
        0 <= i < items.len(),
    ensures
        items[i].array_at(key) matches Some(inner) ==> decreases_to!(items => inner),
{
    if let Some(inner) = items[i].array_at(key) {
        let entries = items[i]->Object_0;
        let v = items[i].get(key)->0;
        json::lemma_lookup(entries, key);
        let k = choose|k: int| 0 <= k < entries.len() && #[trigger] entries[k] == (key, v);
        assert(decreases_to!(items => items[i]));
        assert(decreases_to!(items[i] => items[i]->Object_0));
        assert(decreases_to!(entries => entries[k]));
        assert(decreases_to!(entries[k] => entries[k].1));
        assert(decreases_to!(v => v->Array_0));
    }
}

#[via_fn]
proof fn batch_shrinks(
    m: PatchModel,
    parent: Seq<char>,
    items: Seq<JsonModel>,
    path: Seq<char>,
    op: Seq<char>,
) {
    if items.len() > 0 {
        lemma_member_shrinks(items, 0, "v"@);
        assert(decreases_to!(items => items.subrange(1, items.len() as int)));
    }
}

/// A patch: it renews path and operation, and then brings its value to the path
/// in force. While no patch has named a path, a value with a `response` is the
/// snapshot that opens the response; an array under the operation `BATCH` is a
/// list of patches below the path.
pub open spec fn patch(m: PatchModel, val: JsonModel) -> (PatchModel, Seq<EventModel>) {
    let m1 = PatchModel {
        path: match val.str_at("p"@) {
            Some(p) => Some(p),
            None => m.path,
        },
        op: match val.str_at("o"@) {
            Some(o) => Some(o),
            None => m.op,
        },
        ..m
    };
    match val.get("v"@) {
        Some(v) => if m1.path is None && v.get("response"@) is Some {
            snapshot(m1, v.get("response"@)->0)
        } else if m1.op_in_force() == "BATCH"@ && v.as_array() is Some {
            batch(m1, m1.path_in_force(), v.as_array()->0, Seq::empty(), "SET"@)
        } else {
            at_path(m1, m1.path_in_force(), m1.op_in_force(), v)
        },
        None => (m1, Seq::empty()),
    }
}

/// A frame: a hint that carries data is an error and changes nothing; any other
/// frame brings the patch that its data holds, if it holds any.
pub open spec fn frame_outcome(m: PatchModel, text: Seq<char>) -> (
    PatchModel,
    Result<Seq<EventModel>, ErrorModel>,
) {
    match frame::field_of(text, "data:"@) {
        Some(data) => if frame::field_of(text, "event:"@) == Some("hint"@) {
            (m, Err(reply::hint_error(reply::hint_content(reply::document(data)))))
        } else {
            match json::json_text(data) {
                Some(val) => {
                    let (m1, events) = patch(m, val);
                    (m1, Ok(events))
                },
                None => (m, Ok(Seq::empty())),
            }
        },
        None => (m, Ok(Seq::empty())),
    }
}

/// Whether the response holds some answer: a `RESPONSE` fragment that is not
/// empty.
pub open spec fn answered(m: PatchModel) -> bool {
    exists|i: int|
        0 <= i < m.fragments.len() && (#[trigger] m.fragments[i]).ty == "RESPONSE"@
            && m.fragments[i].content.len() > 0
}

/// The end of the response that its status announces: complete under `FINISHED`,
/// incomplete under `INCOMPLETE`, and not yet there under any other.
pub open spec fn announced_end(m: PatchModel) -> Option<EventModel> {
    if m.status == Some("FINISHED"@) {
        Some(
            EventModel::Done {
                finish_reason: Some("stop"@),
                accumulated_token_usage: m.usage,
            },
        )
    } else if m.status == Some("INCOMPLETE"@) {
        Some(EventModel::Done { finish_reason: None, accumulated_token_usage: m.usage })
    } else {
        None
    }
}

proof fn lemma_content_path()
    ensures
        target_of("response/fragments/-1/content"@) is LastContent,
        target_of("/response/fragments/-1/content"@) is LastContent,
        target_of("response/status"@) is Status,
        target_of("/response/status"@) is Status,
        "THINK"@ != "RESPONSE"@,
{
    reveal_strlit("response/status");
    reveal_strlit("/response/status");
    reveal_strlit("response/accumulated_token_usage");
    reveal_strlit("accumulated_token_usage");
    reveal_strlit("/response/accumulated_token_usage");
    reveal_strlit("/accumulated_token_usage");
    reveal_strlit("response/fragments/-1/content");
    reveal_strlit("/response/fragments/-1/content");
    reveal_strlit("THINK");
    reveal_strlit("RESPONSE");
    assert("response/fragments/-1/content"@.len() == 29);
    assert("/response/fragments/-1/content"@.len() == 30);
    assert("THINK"@.len() != "RESPONSE"@.len());
}

/// Decides [`target_of`].
fn target(path: &str) -> (r: Target)
    ensures
        r == target_of(path@),
{
    if text::same(path, "response/status") || text::same(path, "/response/status") {
        Target::Status
    } else if text::same(path, "response/accumulated_token_usage") || text::same(
        path,
        "accumulated_token_usage",
    ) || text::same(path, "/response/accumulated_token_usage") || text::same(
        path,
        "/accumulated_token_usage",
    ) {
        Target::TokenUsage
    } else if text::same(path, "response/fragments/-1/content") || text::same(
        path,
        "/response/fragments/-1/content",
    ) {
        Target::LastContent
    } else if text::same(path, "response/fragments") || text::same(path, "/response/fragments") {
        Target::Fragments
    } else {
        Target::Nothing
    }
}

/// The delta that new content of a fragment brings.
fn delta(ty: &str, content: &str) -> (r: Option<StreamEvent>)
    ensures
        match r {
            Some(e) => delta_of(ty@, content@) == Some(e@),
            None => delta_of(ty@, content@) is None,
        },
{
    if text::same(ty, "THINK") {
        Some(StreamEvent::ThinkDelta { content: content.to_owned() })
    } else if text::same(ty, "RESPONSE") {
        Some(StreamEvent::ContentDelta { content: content.to_owned() })
    } else {
        None
    }
}

/// A path inside another one.
fn joined(parent: &str, sub: &str) -> (r: String)
    ensures
        r@ == join(parent@, sub@),
{
    if parent.is_empty() {
        sub.to_owned()
    } else if sub.is_empty() {
        parent.to_owned()
    } else {
        parent.to_owned().concat("/").concat(sub)
    }
}

/// A token count as the events carry it.
fn cap(n: u64) -> (r: u32)
    ensures
        r == capped(n),
{
    if n <= u32::MAX as u64 {
        n as u32
    } else {
        u32::MAX
    }
}

impl PatchState {
    /// The state before the first patch.
    pub fn new() -> (r: PatchState)
        ensures
            r@ == PatchModel::fresh(),
    {
        let r = PatchState {
            current_path: None,
            current_op: None,
            fragments: Vec::new(),
            status: None,
            accumulated_token_usage: None,
        };
        proof {
            assert(r@.fragments =~= Seq::empty());
        }
        r
    }

    /// Adds the fragments that JSON items describe and returns the deltas that
    /// they bring.
    fn add_fragments(&mut self, items: &Vec<Json>) -> (r: Vec<StreamEvent>)
        ensures
            final(self)@ == (PatchModel {
                fragments: old(self)@.fragments + fragments_of(json::views(items@)),
                ..old(self)@
            }),
            event::views(r@) == opening_deltas(fragments_of(json::views(items@))),
    {
        let ghost all = json::views(items@);
        let mut events: Vec<StreamEvent> = Vec::new();
        let mut i: usize = 0;
        proof {
            assert(all.take(0) =~= Seq::empty());
            assert(self@.fragments + fragments_of(all.take(0)) =~= self@.fragments);
            assert(event::views(events@) =~= opening_deltas(fragments_of(all.take(0))));
        }
        while i < items.len()
            invariant
                i <= items@.len(),
                all == json::views(items@),
                self@ == (PatchModel {
                    fragments: old(self)@.fragments + fragments_of(all.take(i as int)),
                    ..old(self)@
                }),
                event::views(events@) == opening_deltas(fragments_of(all.take(i as int))),
            decreases items@.len() - i,
        {
            let ghost before = self@;
            let ghost seen = fragments_of(all.take(i as int));
            let ghost sent = event::views(events@);
            let item = &items[i];
            proof {
                assert(all.take(i + 1).drop_last() =~= all.take(i as int));
                assert(all.take(i + 1).last() == item@);
                assert(fragments_of(all.take(i + 1)) == seen + fragment_of(item@));
            }
            match item.str_at("type") {
                Some(ty) => {
                    let content = match item.str_at("content") {
                        Some(content) => content,
                        None => "",
                    };
                    proof {
                        reveal_strlit("");
                        assert(""@ =~= Seq::<char>::empty());
                    }
                    let ghost new = FragmentModel { ty: ty@, content: content@ };
                    let fragment = Fragment { ty: ty.to_owned(), content: content.to_owned() };
                    self.fragments.push(fragment);
                    proof {
                        assert(fragment_of(item@) =~= seq![new]);
                        assert(self@.fragments =~= before.fragments.push(new));
                        assert(self@.fragments =~= old(self)@.fragments + (seen + seq![new]));
                        assert((seen + seq![new]).drop_last() =~= seen);
                        assert((seen + seq![new]).last() == new);
                    }
                    if !content.is_empty() {
                        if let Some(e) = delta(ty, content) {
                            events.push(e);
                            proof {
                                assert(event::views(events@) =~= sent + seq![e@]);
                            }
                        }
                    }
                    proof {
                        assert(event::views(events@) =~= sent + opening_delta(new));
                    }
                },
                None => {
                    proof {
                        assert(seen + fragment_of(item@) =~= seen);
                    }
                },
            }
            i = i + 1;
        }
        proof {
            assert(all.take(items@.len() as int) =~= all);
        }
        events
    }

    /// Takes over the snapshot that opens a response.
    pub fn apply_initial_snapshot(&mut self, response: &Json) -> (r: Vec<StreamEvent>)
        ensures
            (final(self)@, event::views(r@)) == snapshot(old(self)@, response@),
    {
        if let Some(s) = response.str_at("status") {
            self.status = Some(s.to_owned());
        }
        if let Some(n) = response.u64_at("accumulated_token_usage") {
            self.accumulated_token_usage = Some(cap(n));
        }
        match response.array_at("fragments") {
            Some(items) => {
                self.fragments.clear();
                proof {
                    assert(self@.fragments =~= Seq::empty());
                }
                let events = self.add_fragments(items);
                proof {
                    assert(self@.fragments =~= fragments_of(json::views(items@)));
                }
                events
            },
            None => {
                let events: Vec<StreamEvent> = Vec::new();
                proof {
                    assert(event::views(events@) =~= Seq::empty());
                }
                events
            },
        }
    }

    /// Adds content to the last fragment.
    fn grow(&mut self, content: &str) -> (r: Vec<StreamEvent>)
        ensures
            (final(self)@, event::views(r@)) == grow_last(old(self)@, content@),
            old(self)@.fragments.len() > 0 && old(self)@.fragments.last().ty == "THINK"@ ==> (
            r@.len() == 1 && (r@[0] matches StreamEvent::ThinkDelta { content: c } && c@
                == content@)),
            old(self)@.fragments.len() > 0 && old(self)@.fragments.last().ty == "RESPONSE"@ ==> (
            r@.len() == 1 && (r@[0] matches StreamEvent::ContentDelta { content: c } && c@
                == content@)),
    {
        let mut events: Vec<StreamEvent> = Vec::new();
        proof {
            assert(event::views(events@) =~= Seq::empty());
        }
        match self.fragments.pop() {
            Some(mut last) => {
                let ghost kept = fragment_views(self.fragments@);
                let ghost model = FragmentModel { ty: last.ty@, content: last.content@ };
                proof {
                    assert(old(self)@.fragments =~= kept.push(model));
                }
                if let Some(e) = delta(last.ty.as_str(), content) {
                    last.content.append(content);
                    events.push(e);
                    proof {
                        assert(event::views(events@) =~= seq![e@]);
                    }
                }
                proof {
                    lemma_content_path();
                }
                let ghost grown = FragmentModel { ty: last.ty@, content: last.content@ };
                self.fragments.push(last);
                proof {
                    assert(self@.fragments =~= kept.push(grown));
                    assert(self@.fragments =~= old(self)@.fragments.update(
                        old(self)@.fragments.len() - 1,
                        grown,
                    ));
                    assert(grown == model ==> self@.fragments =~= old(self)@.fragments);
                }
            },
            None => {
                proof {
                    assert(self@.fragments =~= old(self)@.fragments);
                }
            },
        }
        events
    }

    /// Brings a value to a path.
    pub fn apply_path(&mut self, path: &str, op: &str, val: &Json) -> (r: Vec<StreamEvent>)
        ensures
            (final(self)@, event::views(r@)) == at_path(old(self)@, path@, op@, val@),
            (path@ == "response/fragments/-1/content"@ || path@
                == "/response/fragments/-1/content"@) && old(self)@.fragments.len() > 0 ==> (
            val matches Json::Str(s) ==> {
                let n = old(self)@.fragments.len() - 1;
                let before = old(self)@.fragments;
                let after = final(self)@.fragments;
                before[n].ty == "THINK"@ || before[n].ty == "RESPONSE"@ ==> {
                    &&& after.len() == before.len()
                    &&& forall|i: int| 0 <= i < n ==> #[trigger] after[i] == before[i]
                    &&& after[n].ty == before[n].ty
                    &&& after[n].content == before[n].content + s@
                    &&& r@.len() == 1
                    &&& before[n].ty == "THINK"@ ==> (r@[0] matches StreamEvent::ThinkDelta {
                        content,
                    } && content@ == s@)
                    &&& before[n].ty == "RESPONSE"@ ==> (r@[0] matches StreamEvent::ContentDelta {
                        content,
                    } && content@ == s@)
                }
            }),
            path@ == "response/status"@ || path@ == "/response/status"@ ==> (
            val matches Json::Str(s) ==> final(self)@.status == Some(s@)),
    {
        let none: Vec<StreamEvent> = Vec::new();
        proof {
            lemma_content_path();
            if path@ == "response/fragments/-1/content"@ || path@
                == "/response/fragments/-1/content"@ {
                assert(target_of(path@) is LastContent);
            }
            if let Json::Str(s) = val {
                assert(val@ == JsonModel::Str(s@));
            }
            assert(event::views(none@) =~= Seq::empty());
        }
        match target(path) {
            Target::Status => {
                if let Some(s) = val.as_str() {
                    self.status = Some(s.to_owned());
                }
                none
            },
            Target::TokenUsage => {
                if let Some(n) = val.as_u64() {
                    self.accumulated_token_usage = Some(cap(n));
                }
                none
            },
            Target::LastContent => match val.as_str() {
                Some(content) => self.grow(content),
                None => none,
            },
            Target::Fragments => match val.as_array() {
                Some(items) => if text::same(op, "APPEND") {
                    self.add_fragments(items)
                } else {
                    none
                },
                None => none,
            },
            Target::Nothing => none,
        }
    }

    /// Applies the patches of a batch below `parent_path`.
    pub fn apply_batch(&mut self, parent_path: &str, items: &Vec<Json>) -> (r: Vec<StreamEvent>)
        ensures
            (final(self)@, event::views(r@)) == batch(
                old(self)@,
                parent_path@,
                json::views(items@),
                Seq::empty(),
                "SET"@,
            ),
        decreases json::views(items@),
    {
        let ghost all = json::views(items@);
        let ghost total = batch(old(self)@, parent_path@, all, Seq::empty(), "SET"@);
        let mut events: Vec<StreamEvent> = Vec::new();
        let mut sub_path = String::new();
        let mut sub_op = "SET".to_owned();
        let mut i: usize = 0;
        proof {
            assert(all.skip(0) =~= all);
            assert(event::views(events@) + total.1 =~= total.1);
        }
        while i < items.len()
            invariant
                i <= items@.len(),
                all == json::views(items@),
                total.0 == batch(
                    self@,
                    parent_path@,
                    all.skip(i as int),
                    sub_path@,
                    sub_op@,
                ).0,
                total.1 == event::views(events@) + batch(
                    self@,
                    parent_path@,
                    all.skip(i as int),
                    sub_path@,
                    sub_op@,
                ).1,
            decreases items@.len() - i,
        {
            let ghost here = self@;
            let ghost sent = event::views(events@);
            let ghost rest = all.skip(i as int);
            let ghost path0 = sub_path@;
            let ghost op0 = sub_op@;
            let item = &items[i];
            proof {
                assert(rest[0] == item@);
                assert(rest.drop_first() =~= all.skip(i + 1));
                assert(all[i as int] == item@);
                lemma_member_shrinks(all, i as int, "v"@);
            }
            if let Some(p) = item.str_at("p") {
                sub_path = p.to_owned();
            }
            if let Some(o) = item.str_at("o") {
                sub_op = o.to_owned();
            }
            let mut first: Vec<StreamEvent> = Vec::new();
            proof {
                assert(event::views(first@) =~= Seq::empty());
            }
            if let Some(v) = item.get("v") {
                let full_path = joined(parent_path, sub_path.as_str());
                if text::same(sub_op.as_str(), "BATCH") {
                    if let Some(inner) = v.as_array() {
                        first = self.apply_batch(full_path.as_str(), inner);
                    }
                } else {
                    first = self.apply_path(full_path.as_str(), sub_op.as_str(), v);
                }
            }
            let ghost brought = event::views(first@);
            events.append(&mut first);
            i = i + 1;
            proof {
                let after = batch(self@, parent_path@, all.skip(i as int), sub_path@, sub_op@);
                assert(event::views(events@) =~= sent + brought);
                assert(batch(here, parent_path@, rest, path0, op0) == (
                    after.0,
                    brought + after.1,
                ));
                assert(sent + (brought + after.1) =~= (sent + brought) + after.1);
            }
        }
        proof {
            assert(all.skip(i as int).len() == 0);
            assert(event::views(events@) + Seq::<EventModel>::empty() =~= event::views(events@));
        }
        events
    }

    /// Applies a patch and returns the events that it brings.
    pub fn apply_patch(&mut self, val: &Json) -> (r: Vec<StreamEvent>)
        ensures
            (final(self)@, event::views(r@)) == patch(old(self)@, val@),
    {
        if let Some(p) = val.str_at("p") {
            self.current_path = Some(p.to_owned());
        }
        if let Some(o) = val.str_at("o") {
            self.current_op = Some(o.to_owned());
        }
        let op = match &self.current_op {
            Some(o) => o.as_str().to_owned(),
            None => "SET".to_owned(),
        };
        let path = match &self.current_path {
            Some(p) => p.as_str().to_owned(),
            None => String::new(),
        };
        let v = match val.get("v") {
            Some(v) => v,
            None => {
                let none: Vec<StreamEvent> = Vec::new();
                proof {
                    assert(event::views(none@) =~= Seq::empty());
                }
                return none;
            },
        };
        if self.current_path.is_none() {
            if let Some(response) = v.get("response") {
                return self.apply_initial_snapshot(response);
            }
        }
        if text::same(op.as_str(), "BATCH") {
            if let Some(items) = v.as_array() {
                return self.apply_batch(path.as_str(), items);
            }
        }
        self.apply_path(path.as_str(), op.as_str(), v)
    }

    /// Consumes a frame and returns the events that it brings.
    pub fn apply_frame(&mut self, text: &str) -> (r: Result<Vec<StreamEvent>, CoreError>)
        ensures
            final(self)@ == frame_outcome(old(self)@, text@).0,
            match r {
                Ok(events) => frame_outcome(old(self)@, text@).1 == Ok::<_, ErrorModel>(
                    event::views(events@),
                ),
                Err(e) => frame_outcome(old(self)@, text@).1 == Err::<Seq<EventModel>, _>(e@),
            },
    {
        let none: Vec<StreamEvent> = Vec::new();
        proof {
            assert(event::views(none@) =~= Seq::empty());
        }
        let chars = text::chars_of(text);
        let data = match frame::field(chars.as_slice(), "data:") {
            Some(data) => text::string_of(data),
            None => return Ok(none),
        };
        if let Some(kind) = frame::field(chars.as_slice(), "event:") {
            if text::equals(kind, "hint") {
                return Err(reply::hint_to_error(data.as_str()));
            }
        }
        match json::parse(data.as_str()) {
            Some(val) => Ok(self.apply_patch(&val)),
            None => Ok(none),
        }
    }

    /// The end of the response that its status announces.
    pub fn end(&self) -> (r: Option<StreamEvent>)
        ensures
            match r {
                Some(e) => announced_end(self@) == Some(e@),
                None => announced_end(self@) is None,
            },
    {
        match &self.status {
            Some(status) => {
                if text::same(status.as_str(), "FINISHED") {
                    Some(
                        StreamEvent::Done {
                            finish_reason: Some("stop".to_owned()),
                            accumulated_token_usage: self.accumulated_token_usage,
                        },
                    )
                } else if text::same(status.as_str(), "INCOMPLETE") {
                    Some(
                        StreamEvent::Done {
                            finish_reason: None,
                            accumulated_token_usage: self.accumulated_token_usage,
                        },
                    )
                } else {
                    None
                }
            },
            None => None,
        }
    }
}

/// Whether the response holds some answer.
pub fn has_response_content(state: &PatchState) -> (r: bool)
    ensures
        r == answered(state@),
{
    let mut i: usize = 0;
    while i < state.fragments.len()
        invariant
            i <= state.fragments@.len(),
            state@.fragments.len() == state.fragments@.len(),
            forall|k: int|
                0 <= k < i ==> !((#[trigger] state@.fragments[k]).ty == "RESPONSE"@
                    && state@.fragments[k].content.len() > 0),
        decreases state.fragments@.len() - i,
    {
        let fragment = &state.fragments[i];
        assert(state@.fragments[i as int].ty == fragment.ty@);
        if text::same(fragment.ty.as_str(), "RESPONSE") && !fragment.content.as_str().is_empty() {
            return true;
        }
        i = i + 1;
    }
    false
}

} // verus!
