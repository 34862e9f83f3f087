//! Laws of the patch protocol: what a value does where it arrives.
use vstd::prelude::*;

use crate::chat::event::EventModel;
use crate::chat::frame;
use crate::chat::patch;
use crate::chat::patch::{FragmentModel, PatchModel};
use crate::chat::reply;
use crate::json;
use crate::json::JsonModel;

verus! {

/// The paths of the status.
pub open spec fn status_path(path: Seq<char>) -> bool {
    path == "response/status"@ || path == "/response/status"@
}

/// The paths of the token count.
pub open spec fn usage_path(path: Seq<char>) -> bool {
    path == "response/accumulated_token_usage"@ || path == "accumulated_token_usage"@ || path
        == "/response/accumulated_token_usage"@ || path == "/accumulated_token_usage"@
}

/// The paths of the content of the last fragment.
pub open spec fn content_path(path: Seq<char>) -> bool {
    path == "response/fragments/-1/content"@ || path == "/response/fragments/-1/content"@
}

/// The paths of the list of fragments.
pub open spec fn fragments_path(path: Seq<char>) -> bool {
    path == "response/fragments"@ || path == "/response/fragments"@
}

proof fn lemma_paths()
    ensures
        "response/status"@.len() == 15,
        "/response/status"@.len() == 16,
        "response/accumulated_token_usage"@.len() == 32,
        "accumulated_token_usage"@.len() == 23,
        "/response/accumulated_token_usage"@.len() == 33,
        "/accumulated_token_usage"@.len() == 24,
        "response/fragments/-1/content"@.len() == 29,
        "/response/fragments/-1/content"@.len() == 30,
        "response/fragments"@.len() == 18,
        "/response/fragments"@.len() == 19,
{
    reveal_strlit("response/status");
    reveal_strlit("/response/status");
    reveal_strlit("response/accumulated_token_usage");
    reveal_strlit("accumulated_token_usage");
    reveal_strlit("/response/accumulated_token_usage");
    reveal_strlit("/accumulated_token_usage");
    reveal_strlit("response/fragments/-1/content");
    reveal_strlit("/response/fragments/-1/content");
    reveal_strlit("response/fragments");
    reveal_strlit("/response/fragments");
}

proof fn lemma_types()
    ensures
        "THINK"@ != "RESPONSE"@,
{
    reveal_strlit("THINK");
    reveal_strlit("RESPONSE");
    assert("THINK"@.len() != "RESPONSE"@.len());
}

/// More content for the last fragment: whatever the text, its white space too, the
/// fragment holds what it held and then the text to the letter, the one event is
/// the delta of that part with that text, and nothing else changes.
pub proof fn law_content_grows(m: PatchModel, path: Seq<char>, op: Seq<char>, s: Seq<char>)
    requires
        content_path(path),
        m.fragments.len() > 0,
        m.fragments.last().ty == "THINK"@ || m.fragments.last().ty == "RESPONSE"@,
    ensures
        ({
            let (m1, events) = patch::at_path(m, path, op, JsonModel::Str(s));
            let n = m.fragments.len() - 1;
            &&& m1.fragments.len() == m.fragments.len()
            &&& forall|i: int| 0 <= i < n ==> #[trigger] m1.fragments[i] == m.fragments[i]
            &&& m1.fragments[n].ty == m.fragments[n].ty
            &&& m1.fragments[n].content == m.fragments[n].content + s
            &&& m.fragments[n].ty == "THINK"@ ==> events == seq![
                EventModel::ThinkDelta { content: s },
            ]
            &&& m.fragments[n].ty == "RESPONSE"@ ==> events == seq![
                EventModel::ContentDelta { content: s },
            ]
            &&& m1.path == m.path && m1.op == m.op && m1.status == m.status && m1.usage == m.usage
        }),
{
    lemma_paths();
    lemma_types();
}

/// Content for a fragment of any other type, for no fragment at all, or that is no
/// string changes nothing and brings nothing.
pub proof fn law_content_that_is_not_told(
    m: PatchModel,
    path: Seq<char>,
    op: Seq<char>,
    val: JsonModel,
)
    requires
        content_path(path),
        val !is Str || m.fragments.len() == 0 || (m.fragments.last().ty != "THINK"@
            && m.fragments.last().ty != "RESPONSE"@),
    ensures
        patch::at_path(m, path, op, val) == (m, Seq::<EventModel>::empty()),
{
    lemma_paths();
}

/// A string at the path of the status is the status from then on, to the letter;
/// nothing else changes, no event comes, and what is no string is ignored.
pub proof fn law_status_is_set(
    m: PatchModel,
    path: Seq<char>,
    op: Seq<char>,
    s: Seq<char>,
    other: JsonModel,
)
    requires
        status_path(path),
    ensures
        patch::at_path(m, path, op, JsonModel::Str(s)) == (
            PatchModel { status: Some(s), ..m },
            Seq::<EventModel>::empty(),
        ),
        other !is Str ==> patch::at_path(m, path, op, other) == (m, Seq::<EventModel>::empty()),
{
    lemma_paths();
}

/// A count at the path of the token count is the count from then on, as far as 32
/// bits hold it; nothing else changes, no event comes, and what is no such count is
/// ignored.
pub proof fn law_usage_is_set(
    m: PatchModel,
    path: Seq<char>,
    op: Seq<char>,
    n: i128,
    other: JsonModel,
)
    requires
        usage_path(path),
        0 <= n <= u64::MAX,
    ensures
        n <= u32::MAX ==> patch::at_path(m, path, op, JsonModel::Number(Some(n))) == (
            PatchModel { usage: Some(n as u32), ..m },
            Seq::<EventModel>::empty(),
        ),
        n > u32::MAX ==> patch::at_path(m, path, op, JsonModel::Number(Some(n))) == (
            PatchModel { usage: Some(u32::MAX), ..m },
            Seq::<EventModel>::empty(),
        ),
        !(other matches JsonModel::Number(Some(k)) && 0 <= k <= u64::MAX) ==> patch::at_path(
            m,
            path,
            op,
            other,
        ) == (m, Seq::<EventModel>::empty()),
{
    lemma_paths();
}

/// An item of a list of fragments that has a type is a fragment of that type with
/// the content that the item names, to the letter, and with none where it names
/// none. It comes after the fragments that are there, and its content, if there is
/// any, is the delta of its part. Nothing else changes.
pub proof fn law_fragment_is_appended(m: PatchModel, path: Seq<char>, item: JsonModel)
    requires
        fragments_path(path),
    ensures
        ({
            let (m1, events) = patch::at_path(m, path, "APPEND"@, JsonModel::Array(seq![item]));
            let content = match item.str_at("content"@) {
                Some(content) => content,
                None => Seq::empty(),
            };
            match item.str_at("type"@) {
                Some(ty) => {
                    &&& m1 == (PatchModel {
                        fragments: m.fragments.push(FragmentModel { ty, content }),
                        ..m
                    })
                    &&& ty == "THINK"@ && content.len() > 0 ==> events == seq![
                        EventModel::ThinkDelta { content },
                    ]
                    &&& ty == "RESPONSE"@ && content.len() > 0 ==> events == seq![
                        EventModel::ContentDelta { content },
                    ]
                    &&& content.len() == 0 || (ty != "THINK"@ && ty != "RESPONSE"@)
                        ==> events.len() == 0
                },
                None => m1 == m && events.len() == 0,
            }
        }),
{
    lemma_paths();
    lemma_types();
    let items = seq![item];
    assert(items.drop_last() =~= Seq::empty());
    assert(patch::fragments_of(Seq::empty()) =~= Seq::empty());
    assert(patch::fragments_of(items) =~= patch::fragment_of(item));
    let new = patch::fragment_of(item);
    if new.len() == 1 {
        assert(new.drop_last() =~= Seq::empty());
        assert(patch::opening_deltas(Seq::empty()) =~= Seq::empty());
        assert(patch::opening_deltas(new) =~= patch::opening_delta(new[0]));
        assert(m.fragments + new =~= m.fragments.push(new[0]));
    } else {
        assert(new =~= Seq::empty());
        assert(patch::opening_deltas(new) =~= Seq::empty());
        assert(m.fragments + new =~= m.fragments);
    }
}

proof fn lemma_fragments_add(a: Seq<JsonModel>, b: Seq<JsonModel>)
    ensures
        patch::fragments_of(a + b) == patch::fragments_of(a) + patch::fragments_of(b),
    decreases b.len(),
{
    if b.len() == 0 {
        assert(a + b =~= a);
        assert(patch::fragments_of(a) + patch::fragments_of(b) =~= patch::fragments_of(a));
    } else {
        lemma_fragments_add(a, b.drop_last());
        assert((a + b).drop_last() =~= a + b.drop_last());
        assert(patch::fragments_of(a + b) =~= patch::fragments_of(a) + patch::fragments_of(b));
    }
}

proof fn lemma_openings_add(a: Seq<FragmentModel>, b: Seq<FragmentModel>)
    ensures
        patch::opening_deltas(a + b) == patch::opening_deltas(a) + patch::opening_deltas(b),
    decreases b.len(),
{
    if b.len() == 0 {
        assert(a + b =~= a);
        assert(patch::opening_deltas(a) + patch::opening_deltas(b) =~= patch::opening_deltas(a));
    } else {
        lemma_openings_add(a, b.drop_last());
        assert((a + b).drop_last() =~= a + b.drop_last());
        assert(patch::opening_deltas(a + b) =~= patch::opening_deltas(a) + patch::opening_deltas(
            b,
        ));
    }
}

/// A list of fragments is appended item by item: to append two lists at once is to
/// append the one and then the other, and an empty list changes nothing.
pub proof fn law_fragments_are_appended_in_order(
    m: PatchModel,
    path: Seq<char>,
    a: Seq<JsonModel>,
    b: Seq<JsonModel>,
)
    requires
        fragments_path(path),
    ensures
        ({
            let (m1, first) = patch::at_path(m, path, "APPEND"@, JsonModel::Array(a));
            let (m2, second) = patch::at_path(m1, path, "APPEND"@, JsonModel::Array(b));
            patch::at_path(m, path, "APPEND"@, JsonModel::Array(a + b)) == (m2, first + second)
        }),
        patch::at_path(m, path, "APPEND"@, JsonModel::Array(Seq::empty())) == (
            m,
            Seq::<EventModel>::empty(),
        ),
{
    lemma_paths();
    lemma_fragments_add(a, b);
    lemma_openings_add(patch::fragments_of(a), patch::fragments_of(b));
    assert(m.fragments + (patch::fragments_of(a) + patch::fragments_of(b)) =~= m.fragments
        + patch::fragments_of(a) + patch::fragments_of(b));
    assert(patch::fragments_of(Seq::empty()) =~= Seq::empty());
    assert(patch::opening_deltas(Seq::empty()) =~= Seq::empty());
    assert(m.fragments + Seq::<FragmentModel>::empty() =~= m.fragments);
}

/// At the path of the fragments only an array under the operation `APPEND` does
/// anything.
pub proof fn law_fragments_are_only_appended(
    m: PatchModel,
    path: Seq<char>,
    op: Seq<char>,
    val: JsonModel,
)
    requires
        fragments_path(path),
        op != "APPEND"@ || val !is Array,
    ensures
        patch::at_path(m, path, op, val) == (m, Seq::<EventModel>::empty()),
{
    lemma_paths();
}

/// A value at any other path changes nothing and brings nothing.
pub proof fn law_other_paths_do_nothing(
    m: PatchModel,
    path: Seq<char>,
    op: Seq<char>,
    val: JsonModel,
)
    requires
        !status_path(path),
        !usage_path(path),
        !content_path(path),
        !fragments_path(path),
    ensures
        patch::at_path(m, path, op, val) == (m, Seq::<EventModel>::empty()),
{
}

/// The operation matters nowhere but at the list of fragments.
pub proof fn law_operation_does_not_matter(
    m: PatchModel,
    path: Seq<char>,
    op: Seq<char>,
    other: Seq<char>,
    val: JsonModel,
)
    requires
        !fragments_path(path),
    ensures
        patch::at_path(m, path, op, val) == patch::at_path(m, path, other, val),
{
    lemma_paths();
}

/// A snapshot does what its members do at their paths: its status and its token
/// count are set, and its fragments are appended after the old ones are gone. What
/// it does not name stays. Path and operation stay.
pub proof fn law_snapshot_does_what_its_members_do(m: PatchModel, response: JsonModel)
    ensures
        ({
            let (m1, events) = patch::snapshot(m, response);
            &&& m1.path == m.path && m1.op == m.op
            &&& response.str_at("status"@) matches Some(s) ==> m1.status == Some(s)
            &&& response.str_at("status"@) is None ==> m1.status == m.status
            &&& response.u64_at("accumulated_token_usage"@) matches Some(n) ==> m1.usage == Some(
                if n <= u32::MAX {
                    n as u32
                } else {
                    u32::MAX
                },
            )
            &&& response.u64_at("accumulated_token_usage"@) is None ==> m1.usage == m.usage
            &&& response.array_at("fragments"@) is None ==> m1.fragments == m.fragments
                && events.len() == 0
            &&& response.array_at("fragments"@) matches Some(items) ==> {
                let (m2, appended) = patch::at_path(
                    PatchModel { fragments: Seq::empty(), ..m },
                    "response/fragments"@,
                    "APPEND"@,
                    JsonModel::Array(items),
                );
                m1.fragments == m2.fragments && events == appended
            }
        }),
{
    lemma_paths();
    if let Some(items) = response.array_at("fragments"@) {
        assert(Seq::<FragmentModel>::empty() + patch::fragments_of(items) =~= patch::fragments_of(
            items,
        ));
    }
}

/// A patch brings its value to the path in force under the operation in force: the
/// ones that it names, or else the ones named last, or else the empty path and
/// `SET`. Without a value it only renews them.
pub proof fn law_patch_goes_to_its_path(m: PatchModel, val: JsonModel)
    ensures
        ({
            let named = PatchModel {
                path: match val.str_at("p"@) {
                    Some(p) => Some(p),
                    None => m.path,
                },
                op: match val.str_at("o"@) {
                    Some(o) => Some(o),
                    None => m.op,
                },
                ..m
            };
            let path = match named.path {
                Some(p) => p,
                None => Seq::empty(),
            };
            let op = match named.op {
                Some(o) => o,
                None => "SET"@,
            };
            &&& val.get("v"@) is None ==> patch::patch(m, val) == (
                named,
                Seq::<EventModel>::empty(),
            )
            &&& val.get("v"@) matches Some(v) ==> {
                &&& named.path is None ==> (v.get("response"@) matches Some(response)
                    ==> patch::patch(m, val) == patch::snapshot(named, response))
                &&& named.path is Some || v.get("response"@) is None ==> {
                    &&& op == "BATCH"@ ==> (v matches JsonModel::Array(items) ==> patch::patch(
                        m,
                        val,
                    ) == patch::batch(named, path, items, Seq::empty(), "SET"@))
                    &&& op != "BATCH"@ || v !is Array ==> patch::patch(m, val) == patch::at_path(
                        named,
                        path,
                        op,
                        v,
                    )
                }
            }
        }),
{
}

/// The items of a batch come one after the other: an item does what it does alone,
/// and path and operation that it names are in force for those after it.
pub proof fn law_batch_in_order(
    m: PatchModel,
    parent: Seq<char>,
    item: JsonModel,
    rest: Seq<JsonModel>,
    path: Seq<char>,
    op: Seq<char>,
)
    ensures
        ({
            let path1 = match item.str_at("p"@) {
                Some(p) => p,
                None => path,
            };
            let op1 = match item.str_at("o"@) {
                Some(o) => o,
                None => op,
            };
            let (m1, first) = patch::batch(m, parent, seq![item], path, op);
            let (m2, second) = patch::batch(m1, parent, rest, path1, op1);
            patch::batch(m, parent, seq![item] + rest, path, op) == (m2, first + second)
        }),
        patch::batch(m, parent, Seq::empty(), path, op) == (m, Seq::<EventModel>::empty()),
{
    let all = seq![item] + rest;
    let one = seq![item];
    assert(all[0] == item && one[0] == item);
    assert(all.drop_first() =~= rest);
    assert(one.drop_first() =~= Seq::empty());
    let (m1, first) = patch::batch(m, parent, one, path, op);
    let path1 = patch::renewed(item, "p"@, path);
    let op1 = patch::renewed(item, "o"@, op);
    assert(patch::batch(m1, parent, Seq::empty(), path1, op1) == (m1, Seq::<EventModel>::empty()));
    let (m1a, brought) = match item.get("v"@) {
        Some(v) => if op1 == "BATCH"@ {
            match v.as_array() {
                Some(inner) => patch::batch(
                    m,
                    patch::join(parent, path1),
                    inner,
                    Seq::empty(),
                    "SET"@,
                ),
                None => (m, Seq::empty()),
            }
        } else {
            patch::at_path(m, patch::join(parent, path1), op1, v)
        },
        None => (m, Seq::empty()),
    };
    assert(patch::batch(m1a, parent, Seq::empty(), path1, op1) == (
        m1a,
        Seq::<EventModel>::empty(),
    ));
    assert(brought + Seq::<EventModel>::empty() =~= brought);
}

/// An item of a batch brings its value to its own path below that of the batch, and
/// an array under `BATCH` is a batch below that path, with a state of its own. An
/// item without a value does nothing.
pub proof fn law_batch_item(
    m: PatchModel,
    parent: Seq<char>,
    item: JsonModel,
    path: Seq<char>,
    op: Seq<char>,
)
    ensures
        ({
            let path1 = match item.str_at("p"@) {
                Some(p) => p,
                None => path,
            };
            let op1 = match item.str_at("o"@) {
                Some(o) => o,
                None => op,
            };
            let full = if parent.len() == 0 {
                path1
            } else if path1.len() == 0 {
                parent
            } else {
                parent + seq!['/'] + path1
            };
            let done = patch::batch(m, parent, seq![item], path, op);
            &&& item.get("v"@) is None ==> done == (m, Seq::<EventModel>::empty())
            &&& item.get("v"@) matches Some(v) ==> {
                &&& op1 != "BATCH"@ ==> done == patch::at_path(m, full, op1, v)
                &&& op1 == "BATCH"@ ==> (v matches JsonModel::Array(inner) ==> done
                    == patch::batch(m, full, inner, Seq::empty(), "SET"@))
                &&& op1 == "BATCH"@ && v !is Array ==> done == (m, Seq::<EventModel>::empty())
            }
        }),
{
    reveal_strlit("/");
    assert("/"@ =~= seq!['/']);
    let one = seq![item];
    let path1 = patch::renewed(item, "p"@, path);
    let op1 = patch::renewed(item, "o"@, op);
    assert(one[0] == item);
    assert(one.drop_first() =~= Seq::empty());
    let full = patch::join(parent, path1);
    let (m1, first) = match item.get("v"@) {
        Some(v) => if op1 == "BATCH"@ {
            match v.as_array() {
                Some(inner) => patch::batch(m, full, inner, Seq::empty(), "SET"@),
                None => (m, Seq::empty()),
            }
        } else {
            patch::at_path(m, full, op1, v)
        },
        None => (m, Seq::empty()),
    };
    assert(patch::batch(m1, parent, Seq::empty(), path1, op1) == (m1, Seq::<EventModel>::empty()));
    assert(first + Seq::<EventModel>::empty() =~= first);
}

/// A frame: one without data changes nothing; a hint with data is the error that
/// the hint stands for, and changes nothing; any other brings the patch that its
/// data holds, and nothing where it holds no document.
pub proof fn law_frame_brings_its_patch(m: PatchModel, text: Seq<char>)
    ensures
        frame::field_of(text, "data:"@) is None ==> patch::frame_outcome(m, text) == (
            m,
            Ok::<Seq<EventModel>, crate::error::ErrorModel>(Seq::empty()),
        ),
        frame::field_of(text, "data:"@) matches Some(data) ==> {
            let hint = frame::field_of(text, "event:"@) == Some("hint"@);
            &&& hint ==> patch::frame_outcome(m, text).0 == m
            &&& hint ==> (patch::frame_outcome(m, text).1 matches Err(e) && e
                == reply::hint_error(reply::hint_content(reply::document(data))))
            &&& !hint ==> (json::json_text(data) matches Some(val) ==> {
                &&& patch::frame_outcome(m, text).0 == patch::patch(m, val).0
                &&& patch::frame_outcome(m, text).1 matches Ok(events) && events == patch::patch(
                    m,
                    val,
                ).1
            })
            &&& !hint && json::json_text(data) is None ==> patch::frame_outcome(m, text).0 == m && (
            patch::frame_outcome(m, text).1 matches Ok(events) && events.len() == 0)
        },
{
}

/// A response starts with nothing: no path, no operation, no fragment, no status
/// and no count.
pub proof fn law_nothing_is_known_at_first()
    ensures
        PatchModel::fresh().path is None,
        PatchModel::fresh().op is None,
        PatchModel::fresh().fragments.len() == 0,
        PatchModel::fresh().status is None,
        PatchModel::fresh().usage is None,
{
}

/// A response is answered exactly if one of its fragments is a `RESPONSE` that
/// holds something, whatever it holds and wherever it stands.
pub proof fn law_answered(m: PatchModel, before: Seq<FragmentModel>, last: FragmentModel)
    ensures
        m.fragments == before.push(last) && last.ty == "RESPONSE"@ && last.content.len() > 0
            ==> patch::answered(m),
        m.fragments == before.push(last) && !(last.ty == "RESPONSE"@ && last.content.len() > 0)
            ==> patch::answered(m) == patch::answered(PatchModel { fragments: before, ..m }),
        m.fragments.len() == 0 ==> !patch::answered(m),
{
    if m.fragments == before.push(last) {
        let n = before.len() as int;
        assert(m.fragments[n] == last);
        let less = PatchModel { fragments: before, ..m };
        if patch::answered(less) {
            let i = choose|i: int|
                0 <= i < less.fragments.len() && (#[trigger] less.fragments[i]).ty == "RESPONSE"@
                    && less.fragments[i].content.len() > 0;
            assert(m.fragments[i] == less.fragments[i]);
        }
        if patch::answered(m) {
            let i = choose|i: int|
                0 <= i < m.fragments.len() && (#[trigger] m.fragments[i]).ty == "RESPONSE"@
                    && m.fragments[i].content.len() > 0;
            if i < n {
                assert(less.fragments[i] == m.fragments[i]);
            }
        }
    }
}

} // verus!
