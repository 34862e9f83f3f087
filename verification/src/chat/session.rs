//! Sessions on the backend.
//!
//! A session is active from its creation until its stream is dropped. Whatever
//! is still active when the core shuts down is cleaned up then.
use vstd::prelude::*;

use crate::text;

verus! {

/// A session on the backend.
#[derive(Debug)]
pub struct ActiveSession {
    pub token: String,
    pub session_id: String,
    pub message_id: i64,
}

/// What an [`ActiveSession`] says.
pub struct SessionModel {
    pub token: Seq<char>,
    pub session_id: Seq<char>,
    pub message_id: i64,
}

impl View for ActiveSession {
    type V = SessionModel;

    open spec fn view(&self) -> SessionModel {
        SessionModel {
            token: self.token@,
            session_id: self.session_id@,
            message_id: self.message_id,
        }
    }
}

/// What a list of sessions says.
pub open spec fn views(sessions: Seq<ActiveSession>) -> Seq<SessionModel> {
    Seq::new(sessions.len(), |i: int| sessions[i]@)
}

/// Whether no two sessions of a list have the same number.
pub open spec fn distinct(sessions: Seq<SessionModel>) -> bool {
    forall|i: int, j: int|
        0 <= i < j < sessions.len() ==> (#[trigger] sessions[i]).session_id != (
        #[trigger] sessions[j]).session_id
}

/// The sessions of a list by their numbers.
pub open spec fn by_id(sessions: Seq<SessionModel>) -> Map<Seq<char>, SessionModel>
    decreases sessions.len(),
{
    if sessions.len() == 0 {
        Map::empty()
    } else {
        by_id(sessions.drop_last()).insert(sessions.last().session_id, sessions.last())
    }
}

/// A list without repeated numbers holds the sessions that it lists by their
/// numbers, and no others.
pub proof fn lemma_by_id(sessions: Seq<SessionModel>)
    requires
        distinct(sessions),
    ensures
        forall|i: int|
            0 <= i < sessions.len() ==> by_id(sessions).contains_key(
                (#[trigger] sessions[i]).session_id,
            ) && by_id(sessions)[sessions[i].session_id] == sessions[i],
        forall|id: Seq<char>| #[trigger]
            by_id(sessions).contains_key(id) ==> exists|i: int|
                0 <= i < sessions.len() && (#[trigger] sessions[i]).session_id == id,
    decreases sessions.len(),
{
    if sessions.len() > 0 {
        let before = sessions.drop_last();
        assert forall|i: int, j: int| 0 <= i < j < before.len() implies (
        #[trigger] before[i]).session_id != (#[trigger] before[j]).session_id by {
            assert(before[i] == sessions[i] && before[j] == sessions[j]);
        }
        lemma_by_id(before);
        assert forall|i: int| 0 <= i < sessions.len() implies by_id(sessions).contains_key(
            (#[trigger] sessions[i]).session_id,
        ) && by_id(sessions)[sessions[i].session_id] == sessions[i] by {
            if i < before.len() {
                assert(before[i] == sessions[i]);
                assert(sessions[i].session_id != sessions[sessions.len() - 1].session_id);
            }
        }
        assert forall|id: Seq<char>| #[trigger] by_id(sessions).contains_key(id) implies exists|
            i: int,
        |
            0 <= i < sessions.len() && (#[trigger] sessions[i]).session_id == id by {
            if id == sessions.last().session_id {
                assert(sessions[sessions.len() - 1].session_id == id);
            } else {
                assert(by_id(before).contains_key(id));
                let i = choose|i: int|
                    0 <= i < before.len() && (#[trigger] before[i]).session_id == id;
                assert(before[i] == sessions[i]);
                assert(sessions[i].session_id == id);
            }
        }
    }
}

proof fn lemma_by_id_remove(sessions: Seq<SessionModel>, k: int)
    requires
        distinct(sessions),
        0 <= k < sessions.len(),
    ensures
        distinct(sessions.remove(k)),
        by_id(sessions.remove(k)) == by_id(sessions).remove(sessions[k].session_id),
{
    let rest = sessions.remove(k);
    let id = sessions[k].session_id;
    assert forall|i: int, j: int| 0 <= i < j < rest.len() implies (#[trigger] rest[i]).session_id
        != (#[trigger] rest[j]).session_id by {
        let i1 = if i < k {
            i
        } else {
            i + 1
        };
        let j1 = if j < k {
            j
        } else {
            j + 1
        };
        assert(rest[i] == sessions[i1] && rest[j] == sessions[j1]);
    }
    lemma_by_id(sessions);
    lemma_by_id(rest);
    let whole = by_id(sessions);
    let less = by_id(rest);
    assert forall|x: Seq<char>| less.contains_key(x) == whole.remove(id).contains_key(x) by {
        if less.contains_key(x) {
            let i = choose|i: int| 0 <= i < rest.len() && (#[trigger] rest[i]).session_id == x;
            let i1 = if i < k {
                i
            } else {
                i + 1
            };
            assert(rest[i] == sessions[i1]);
            assert(whole.contains_key(sessions[i1].session_id));
            assert(sessions[i1].session_id != sessions[k].session_id);
        }
        if whole.contains_key(x) && x != id {
            let i = choose|i: int|
                0 <= i < sessions.len() && (#[trigger] sessions[i]).session_id == x;
            let i1 = if i < k {
                i
            } else {
                i - 1
            };
            assert(rest[i1] == sessions[i]);
            assert(less.contains_key(rest[i1].session_id));
        }
    }
    assert forall|x: Seq<char>| less.contains_key(x) implies less[x] == whole.remove(id)[x] by {
        let i = choose|i: int| 0 <= i < rest.len() && (#[trigger] rest[i]).session_id == x;
        let i1 = if i < k {
            i
        } else {
            i + 1
        };
        assert(rest[i] == sessions[i1]);
        assert(whole[sessions[i1].session_id] == sessions[i1]);
        assert(less[rest[i].session_id] == rest[i]);
    }
    assert(less =~= whole.remove(id));
}

/// The active sessions.
#[derive(Debug)]
pub struct SessionTable {
    sessions: Vec<ActiveSession>,
}

impl View for SessionTable {
    type V = Map<Seq<char>, SessionModel>;

    closed spec fn view(&self) -> Map<Seq<char>, SessionModel> {
        by_id(views(self.sessions@))
    }
}

impl SessionTable {
    #[verifier::type_invariant]
    spec fn no_session_twice(self) -> bool {
        distinct(views(self.sessions@))
    }

    /// A table without sessions.
    pub fn new() -> (r: SessionTable)
        ensures
            r@ == Map::<Seq<char>, SessionModel>::empty(),
    {
        let r = SessionTable { sessions: Vec::new() };
        proof {
            assert(views(r.sessions@).len() == 0);
        }
        r
    }

    /// Enters a session; one with the same number is replaced.
    pub fn insert(&mut self, session: ActiveSession)
        ensures
            final(self)@ == old(self)@.insert(session@.session_id, session@),
    {
        let ghost before = self@;
        self.remove(session.session_id.as_str());
        proof {
            use_type_invariant(&*self);
        }
        let ghost id = session@.session_id;
        let mut sessions: Vec<ActiveSession> = Vec::new();
        std::mem::swap(&mut sessions, &mut self.sessions);
        let ghost kept = views(sessions@);
        sessions.push(session);
        proof {
            let all = views(sessions@);
            assert(all =~= kept.push(session@));
            lemma_by_id(kept);
            assert(!by_id(kept).contains_key(id));
            assert(distinct(all)) by {
                assert forall|i: int, j: int| 0 <= i < j < all.len() implies (
                #[trigger] all[i]).session_id != (#[trigger] all[j]).session_id by {
                    assert(all[i] == kept[i]);
                    if j < kept.len() {
                        assert(all[j] == kept[j]);
                    } else {
                        assert(by_id(kept).contains_key(kept[i].session_id));
                    }
                }
            }
            assert(all.drop_last() =~= kept);
            assert(before.remove(id).insert(id, session@) =~= before.insert(id, session@));
        }
        self.sessions = sessions;
    }

    /// Takes out the session with the given number, if it is there.
    pub fn remove(&mut self, session_id: &str) -> (r: Option<ActiveSession>)
        ensures
            final(self)@ == old(self)@.remove(session_id@),
            match r {
                Some(s) => old(self)@.contains_key(session_id@) && s@ == old(self)@[session_id@],
                None => !old(self)@.contains_key(session_id@),
            },
    {
        proof {
            use_type_invariant(&*self);
        }
        let ghost all = views(self.sessions@);
        let mut i: usize = 0;
        while i < self.sessions.len()
            invariant
                i <= self.sessions@.len(),
                *self == *old(self),
                all == views(self.sessions@),
                distinct(all),
                self@ == by_id(all),
                forall|k: int| 0 <= k < i ==> (#[trigger] all[k]).session_id != session_id@,
            decreases self.sessions@.len() - i,
        {
            proof {
                assert(all[i as int] == self.sessions@[i as int]@);
            }
            if text::same(self.sessions[i].session_id.as_str(), session_id) {
                let mut sessions: Vec<ActiveSession> = Vec::new();
                std::mem::swap(&mut sessions, &mut self.sessions);
                let s = sessions.remove(i);
                proof {
                    lemma_by_id(all);
                    lemma_by_id_remove(all, i as int);
                    assert(views(sessions@) =~= all.remove(i as int));
                }
                self.sessions = sessions;
                return Some(s);
            }
            i = i + 1;
        }
        proof {
            lemma_by_id(all);
            assert(!self@.contains_key(session_id@));
            assert(self@.remove(session_id@) =~= self@);
        }
        None
    }

    /// Takes out all sessions; each is listed once, in no particular order.
    pub fn take_all(&mut self) -> (r: Vec<ActiveSession>)
        ensures
            final(self)@ == Map::<Seq<char>, SessionModel>::empty(),
            distinct(views(r@)),
            by_id(views(r@)) == old(self)@,
            forall|i: int|
                0 <= i < r@.len() ==> old(self)@.contains_key((#[trigger] r@[i]).session_id@)
                    && old(self)@[r@[i].session_id@] == r@[i]@,
            forall|id: Seq<char>| #[trigger]
                old(self)@.contains_key(id) ==> exists|i: int|
                    0 <= i < r@.len() && (#[trigger] r@[i]).session_id@ == id,
    {
        proof {
            use_type_invariant(&*self);
        }
        let mut sessions: Vec<ActiveSession> = Vec::new();
        std::mem::swap(&mut sessions, &mut self.sessions);
        proof {
            assert(views(self.sessions@).len() == 0);
            let all = views(sessions@);
            lemma_by_id(all);
            assert forall|i: int| 0 <= i < sessions@.len() implies old(self)@.contains_key(
                (#[trigger] sessions@[i]).session_id@,
            ) && old(self)@[sessions@[i].session_id@] == sessions@[i]@ by {
                assert(all[i] == sessions@[i]@);
            }
            assert forall|id: Seq<char>| #[trigger] old(self)@.contains_key(id) implies exists|
                i: int,
            |
                0 <= i < sessions@.len() && (#[trigger] sessions@[i]).session_id@ == id by {
                let i = choose|i: int|
                    0 <= i < all.len() && (#[trigger] all[i]).session_id == id;
                assert(sessions@[i].session_id@ == id);
            }
        }
        sessions
    }
}

/// The request that stops the output of a session.
#[derive(Debug)]
pub struct StopStreamPayload {
    pub chat_session_id: String,
    pub message_id: i64,
}

/// What remains to be done on the backend for a session: to stop its output, if
/// `stop` says so, and then to delete it.
#[derive(Debug)]
pub struct SessionCleanup {
    pub token: String,
    pub session_id: String,
    pub stop: Option<StopStreamPayload>,
}

/// What a [`SessionCleanup`] says.
pub struct CleanupModel {
    pub token: Seq<char>,
    pub session_id: Seq<char>,
    /// The session and the message whose output is to be stopped.
    pub stop: Option<(Seq<char>, i64)>,
}

impl View for SessionCleanup {
    type V = CleanupModel;

    open spec fn view(&self) -> CleanupModel {
        CleanupModel {
            token: self.token@,
            session_id: self.session_id@,
            stop: match &self.stop {
                Some(p) => Some((p.chat_session_id@, p.message_id)),
                None => None,
            },
        }
    }
}

/// What remains to be done for a session: its output is stopped unless it has
/// come to its end.
pub open spec fn cleanup_of(session: SessionModel, finished: bool) -> CleanupModel {
    CleanupModel {
        token: session.token,
        session_id: session.session_id,
        stop: if finished {
            None
        } else {
            Some((session.session_id, session.message_id))
        },
    }
}

/// The session that a stream runs in.
#[derive(Debug)]
pub struct SessionHandle {
    pub token: String,
    pub session_id: String,
    pub message_id: i64,
}

impl View for SessionHandle {
    type V = SessionModel;

    open spec fn view(&self) -> SessionModel {
        SessionModel {
            token: self.token@,
            session_id: self.session_id@,
            message_id: self.message_id,
        }
    }
}

impl SessionHandle {
    /// Ends the session of a stream that is dropped: it is active no longer. The
    /// result says what remains to be done on the backend.
    pub fn cleanup(&self, sessions: &mut SessionTable, finished: bool) -> (r: SessionCleanup)
        ensures
            final(sessions)@ == old(sessions)@.remove(self@.session_id),
            r@ == cleanup_of(self@, finished),
            r.token@ == self.token@,
            r.session_id@ == self.session_id@,
            finished ==> r.stop is None,
            !finished ==> (r.stop matches Some(p) && p.chat_session_id@ == self.session_id@
                && p.message_id == self.message_id),
    {
        sessions.remove(self.session_id.as_str());
        let stop = if finished {
            None
        } else {
            Some(
                StopStreamPayload {
                    chat_session_id: self.session_id.clone(),
                    message_id: self.message_id,
                },
            )
        };
        SessionCleanup { token: self.token.clone(), session_id: self.session_id.clone(), stop }
    }
}

/// What a list of cleanups says.
pub open spec fn plan_views(plan: Seq<SessionCleanup>) -> Seq<CleanupModel> {
    Seq::new(plan.len(), |i: int| plan[i]@)
}

/// Whether a plan stops and deletes every active session, each once, and nothing
/// else.
pub open spec fn covers(plan: Seq<CleanupModel>, active: Map<Seq<char>, SessionModel>) -> bool {
    &&& forall|i: int|
        0 <= i < plan.len() ==> active.contains_key((#[trigger] plan[i]).session_id) && plan[i]
            == cleanup_of(active[plan[i].session_id], false)
    &&& forall|i: int, j: int|
        0 <= i < j < plan.len() ==> (#[trigger] plan[i]).session_id != (
        #[trigger] plan[j]).session_id
    &&& forall|id: Seq<char>| #[trigger]
        active.contains_key(id) ==> exists|i: int|
            0 <= i < plan.len() && (#[trigger] plan[i]).session_id == id
}

/// Whether a cleanup stops the output of the active session that it names, under
/// that session's own number and message, and deletes it with its token.
pub open spec fn stops_and_deletes(
    cleanup: SessionCleanup,
    active: Map<Seq<char>, SessionModel>,
) -> bool {
    &&& active.contains_key(cleanup.session_id@)
    &&& cleanup.token@ == active[cleanup.session_id@].token
    &&& cleanup.stop matches Some(p) && p.chat_session_id@ == active[cleanup.session_id@].session_id
        && p.message_id == active[cleanup.session_id@].message_id
}

impl SessionTable {
    /// Ends all active sessions. The result says what remains to be done on the
    /// backend for each.
    pub fn shutdown(&mut self) -> (r: Vec<SessionCleanup>)
        ensures
            final(self)@ == Map::<Seq<char>, SessionModel>::empty(),
            covers(plan_views(r@), old(self)@),
            forall|i: int|
                0 <= i < r@.len() ==> stops_and_deletes(#[trigger] r@[i], old(self)@),
            forall|id: Seq<char>| #[trigger]
                old(self)@.contains_key(id) ==> exists|i: int|
                    0 <= i < r@.len() && (#[trigger] r@[i]).session_id@ == id,
    {
        let sessions = self.take_all();
        let ghost all = views(sessions@);
        let mut plan: Vec<SessionCleanup> = Vec::new();
        let mut i: usize = 0;
        while i < sessions.len()
            invariant
                i <= sessions@.len(),
                all == views(sessions@),
                plan@.len() == i,
                forall|k: int|
                    0 <= k < i ==> (#[trigger] plan@[k])@ == cleanup_of(all[k], false),
            decreases sessions@.len() - i,
        {
            let s = &sessions[i];
            let cleanup = SessionCleanup {
                token: s.token.clone(),
                session_id: s.session_id.clone(),
                stop: Some(
                    StopStreamPayload {
                        chat_session_id: s.session_id.clone(),
                        message_id: s.message_id,
                    },
                ),
            };
            proof {
                assert(all[i as int] == s@);
            }
            plan.push(cleanup);
            i = i + 1;
        }
        proof {
            lemma_by_id(all);
            let done = plan_views(plan@);
            assert forall|k: int| 0 <= k < done.len() implies done[k] == cleanup_of(
                all[k],
                false,
            ) && (#[trigger] done[k]).session_id == all[k].session_id by {
                assert(plan@[k]@ == cleanup_of(all[k], false));
            }
            assert forall|id: Seq<char>| #[trigger] old(self)@.contains_key(id) implies exists|
                k: int,
            |
                0 <= k < done.len() && (#[trigger] done[k]).session_id == id by {
                let k = choose|k: int|
                    0 <= k < all.len() && (#[trigger] all[k]).session_id == id;
                assert(done[k].session_id == id);
            }
            assert forall|k: int| 0 <= k < plan@.len() implies stops_and_deletes(
                #[trigger] plan@[k],
                old(self)@,
            ) by {
                assert(done[k] == plan@[k]@);
                assert(old(self)@[all[k].session_id] == all[k]);
            }
            assert forall|id: Seq<char>| #[trigger] old(self)@.contains_key(id) implies exists|
                k: int,
            |
                0 <= k < plan@.len() && (#[trigger] plan@[k]).session_id@ == id by {
                let k = choose|k: int|
                    0 <= k < done.len() && (#[trigger] done[k]).session_id == id;
                assert(plan@[k].session_id@ == id);
            }
        }
        plan
    }
}

/// A session whose stream was dropped is not cleaned up again at shutdown, and
/// every other active session still is.
pub proof fn law_cleaned_once(
    active: Map<Seq<char>, SessionModel>,
    session: SessionModel,
    plan: Seq<CleanupModel>,
)
    requires
        covers(plan, active.remove(session.session_id)),
    ensures
        forall|i: int|
            0 <= i < plan.len() ==> (#[trigger] plan[i]).session_id != session.session_id,
        forall|id: Seq<char>|
            id != session.session_id && #[trigger] active.contains_key(id) ==> exists|i: int|
                0 <= i < plan.len() && #[trigger] plan[i] == cleanup_of(active[id], false)
                    && plan[i].session_id == id,
{
    let rest = active.remove(session.session_id);
    assert forall|id: Seq<char>|
        id != session.session_id && #[trigger] active.contains_key(id) implies exists|i: int|
        0 <= i < plan.len() && #[trigger] plan[i] == cleanup_of(active[id], false)
            && plan[i].session_id == id by {
        assert(rest.contains_key(id));
        let i = choose|i: int| 0 <= i < plan.len() && (#[trigger] plan[i]).session_id == id;
        assert(plan[i] == cleanup_of(rest[id], false));
    }
}

/// A second shutdown has nothing left to clean up.
pub proof fn law_second_shutdown_is_empty(plan: Seq<CleanupModel>)
    requires
        covers(plan, Map::empty()),
    ensures
        plan.len() == 0,
{
    if plan.len() > 0 {
        assert(Map::<Seq<char>, SessionModel>::empty().contains_key(plan[0].session_id));
    }
}

/// Whatever its message, an unfinished session is stopped under its own number and
/// message and then deleted; a finished one is only deleted.
pub proof fn law_cleanup(session: SessionModel, finished: bool)
    ensures
        cleanup_of(session, finished).token == session.token,
        cleanup_of(session, finished).session_id == session.session_id,
        finished ==> cleanup_of(session, finished).stop is None,
        !finished ==> cleanup_of(session, finished).stop == Some(
            (session.session_id, session.message_id),
        ),
{
}

/// Every entry of a plan that covers the active sessions stops its session under
/// that session's own number and message, and every active session has its entry.
pub proof fn law_plan_stops_every_session(
    plan: Seq<CleanupModel>,
    active: Map<Seq<char>, SessionModel>,
)
    requires
        covers(plan, active),
    ensures
        forall|i: int|
            0 <= i < plan.len() ==> active.contains_key((#[trigger] plan[i]).session_id)
                && plan[i].token == active[plan[i].session_id].token && plan[i].stop == Some(
                (
                    active[plan[i].session_id].session_id,
                    active[plan[i].session_id].message_id,
                ),
            ),
        forall|id: Seq<char>| #[trigger]
            active.contains_key(id) ==> exists|i: int|
                0 <= i < plan.len() && (#[trigger] plan[i]).session_id == id,
        forall|i: int, j: int|
            0 <= i < j < plan.len() ==> (#[trigger] plan[i]).session_id != (
            #[trigger] plan[j]).session_id,
{
    assert forall|i: int| 0 <= i < plan.len() implies plan[i].token
        == active[(#[trigger] plan[i]).session_id].token && plan[i].stop == Some(
        (active[plan[i].session_id].session_id, active[plan[i].session_id].message_id),
    ) by {
        assert(plan[i] == cleanup_of(active[plan[i].session_id], false));
    }
}

/// A session and a cleanup say what they hold.
pub proof fn law_sessions_say(session: ActiveSession, handle: SessionHandle, cleanup: SessionCleanup)
    ensures
        session@.token == session.token@,
        session@.session_id == session.session_id@,
        session@.message_id == session.message_id,
        handle@.token == handle.token@,
        handle@.session_id == handle.session_id@,
        handle@.message_id == handle.message_id,
        cleanup@.token == cleanup.token@,
        cleanup@.session_id == cleanup.session_id@,
        cleanup.stop is None <==> cleanup@.stop is None,
        cleanup.stop matches Some(p) ==> cleanup@.stop == Some((p.chat_session_id@, p.message_id)),
{
}

} // verus!
