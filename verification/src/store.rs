//! The coordination store: an in-process model of the shared keyspace and
//! every transition the core performs on it. Each mutating operation is
//! specified as a function on [`StoreModel`], the mathematical state, and
//! the executable method is proved to realise exactly that transition while
//! preserving the store invariant [`swf`].
//!
//! The keyed fields mirror the persisted layout: a session record under its
//! id, the `active` set and `history` list, per-session hook logs, active
//! tools, pending questions and answers, correlation ids, chain links with
//! the chain-name index, memories, artifacts and their cached texts.

use vstd::prelude::*;
use crate::kv::{adistinct, alookup, aremove, aset, dview, kv_find, kv_get, kv_remove, kv_set,
    lemma_alookup_aset, lemma_alookup_first, lemma_alookup_index, lemma_aremove_absent,
    lemma_aremove_is_remove, lemma_aset_distinct, lemma_aset_is_push, lemma_aset_is_update};
use crate::models::{Artifact, ArtifactModel, ChainLink, ChainLinkModel, Hook, HookModel, Memory,
    MemoryModel, SearchResult, SearchResultModel, Session, SessionModel, Status, StatusModel,
    clone_artifact, clone_hook, clone_link, clone_memory, clone_session, clone_status,
    clone_string, ASK_TIMEOUT_SECS};
use crate::seqs::{find_str, lemma_cons_nodup, lemma_push_nodup, lemma_remove_first_absent,
    lemma_remove_first_at, lemma_remove_nodup, nodup, remove_first, str_views};
use crate::text;

verus! {

/// The mathematical state of the store.
#[verifier::ext_equal]
pub struct StoreModel {
    pub sessions: Seq<(Seq<char>, SessionModel)>,
    pub active: Seq<Seq<char>>,
    pub history: Seq<Seq<char>>,
    pub hook_log: Seq<(Seq<char>, HookModel)>,
    pub active_tools: Seq<(Seq<char>, Seq<char>)>,
    pub claude_map: Seq<(Seq<char>, Seq<char>)>,
    pub pending: Seq<(Seq<char>, Seq<char>)>,
    pub answers: Seq<(Seq<char>, Seq<char>)>,
    pub chain_names: Seq<Seq<char>>,
    pub chain_links: Seq<ChainLinkModel>,
    pub memories: Seq<(Seq<char>, MemoryModel)>,
    pub artifacts: Seq<(Seq<char>, ArtifactModel)>,
    pub artifact_texts: Seq<(Seq<char>, Seq<char>)>,
}

/// The record bound to a session id, if any.
pub open spec fn m_session(m: StoreModel, id: Seq<char>) -> Option<SessionModel> {
    alookup(m.sessions, id)
}

/// A chain has a link with the given name.
pub open spec fn chain_has_link(links: Seq<ChainLinkModel>, name: Seq<char>) -> bool {
    exists|j: int| 0 <= j < links.len() && (#[trigger] links[j]).chain_name == name
}

/// One session entry is consistent with the membership sets: the record
/// carries its own key, it sits in `active` exactly when it is not done,
/// in `history` exactly when it is, and its timestamps are non-negative.
pub open spec fn session_entry_ok(m: StoreModel, i: int) -> bool {
    let p = m.sessions[i];
    &&& p.1.id == p.0
    &&& (m.active.contains(p.0) <==> !(p.1.status is Done))
    &&& (m.history.contains(p.0) <==> p.1.status is Done)
    &&& p.1.created >= 0
    &&& p.1.last_activity >= 0
    &&& match p.1.status {
        StatusModel::Waiting { asked_at, .. } => asked_at >= 0,
        _ => true,
    }
}

/// The store invariant. In particular: session ids are unique; every id of
/// a created session is in exactly one of the active set and the history
/// list; both sets mention only created sessions; every keyed collection
/// has distinct keys; and the chain-name index holds exactly the names
/// that have at least one link.
pub open spec fn swf(m: StoreModel) -> bool {
    &&& adistinct(m.sessions)
    &&& (forall|i: int| 0 <= i < m.sessions.len() ==> #[trigger] session_entry_ok(m, i))
    &&& nodup(m.active)
    &&& nodup(m.history)
    &&& (forall|i: int|
        0 <= i < m.active.len() ==> alookup(m.sessions, #[trigger] m.active[i]) is Some)
    &&& (forall|i: int|
        0 <= i < m.history.len() ==> alookup(m.sessions, #[trigger] m.history[i]) is Some)
    &&& adistinct(m.active_tools)
    &&& adistinct(m.claude_map)
    &&& adistinct(m.pending)
    &&& adistinct(m.answers)
    &&& adistinct(m.memories)
    &&& (forall|i: int|
        0 <= i < m.memories.len() ==> (#[trigger] m.memories[i]).1.key == m.memories[i].0)
    &&& adistinct(m.artifacts)
    &&& (forall|i: int|
        0 <= i < m.artifacts.len() ==> (#[trigger] m.artifacts[i]).1.id == m.artifacts[i].0)
    &&& adistinct(m.artifact_texts)
    &&& nodup(m.chain_names)
    &&& (forall|i: int|
        0 <= i < m.chain_links.len() ==> m.chain_names.contains(
            (#[trigger] m.chain_links[i]).chain_name,
        ))
    &&& (forall|i: int|
        0 <= i < m.chain_names.len() ==> chain_has_link(
            m.chain_links,
            #[trigger] m.chain_names[i],
        ))
    &&& (forall|i: int, j: int|
        0 <= i < j < m.chain_links.len() ==> !(m.chain_links[i].chain_name
            == m.chain_links[j].chain_name && m.chain_links[i].ts == m.chain_links[j].ts))
}

/// The empty store.
pub open spec fn m_empty() -> StoreModel {
    StoreModel {
        sessions: Seq::empty(),
        active: Seq::empty(),
        history: Seq::empty(),
        hook_log: Seq::empty(),
        active_tools: Seq::empty(),
        claude_map: Seq::empty(),
        pending: Seq::empty(),
        answers: Seq::empty(),
        chain_names: Seq::empty(),
        chain_links: Seq::empty(),
        memories: Seq::empty(),
        artifacts: Seq::empty(),
        artifact_texts: Seq::empty(),
    }
}

// ---------------------------------------------------------------------------
// Transitions on the model: session lifecycle
// ---------------------------------------------------------------------------

/// Creating a session records it and adds its id to the active set.
pub open spec fn m_create_session(m: StoreModel, s: SessionModel) -> StoreModel {
    StoreModel { sessions: m.sessions.push((s.id, s)), active: m.active.push(s.id), ..m }
}

/// Replacing a session's status in place; the caller keeps it on the same
/// side of the active/history split.
pub open spec fn m_set_status(m: StoreModel, id: Seq<char>, st: StatusModel) -> StoreModel {
    match alookup(m.sessions, id) {
        None => m,
        Some(s) => StoreModel {
            sessions: aset(m.sessions, id, SessionModel { status: st, ..s }),
            ..m
        },
    }
}

/// Marking done: the record turns `Done`, the id leaves the active set and
/// is pushed onto the head of the history list. A session already done, or
/// never created, is left untouched.
pub open spec fn m_mark_done(m: StoreModel, id: Seq<char>) -> StoreModel {
    match alookup(m.sessions, id) {
        None => m,
        Some(s) => {
            if s.status is Done {
                m
            } else {
                StoreModel {
                    sessions: aset(m.sessions, id, SessionModel { status: StatusModel::Done, ..s }),
                    active: remove_first(m.active, id),
                    history: seq![id] + m.history,
                    ..m
                }
            }
        },
    }
}

/// Touching: refreshes `last_activity`, and a done session comes back to
/// life — its id leaves history and rejoins the active set.
pub open spec fn m_touch(m: StoreModel, id: Seq<char>, now: int) -> StoreModel {
    match alookup(m.sessions, id) {
        None => m,
        Some(s) => {
            let st = if s.status is Done {
                StatusModel::Active
            } else {
                s.status
            };
            let s2 = SessionModel { status: st, last_activity: now, ..s };
            if s.status is Done {
                StoreModel {
                    sessions: aset(m.sessions, id, s2),
                    active: m.active.push(id),
                    history: remove_first(m.history, id),
                    ..m
                }
            } else {
                StoreModel { sessions: aset(m.sessions, id, s2), ..m }
            }
        },
    }
}

// ---------------------------------------------------------------------------
// Invariant preservation
// ---------------------------------------------------------------------------

/// Creating a fresh session preserves the invariant.
pub proof fn lemma_wf_create(m: StoreModel, s: SessionModel)
    requires
        swf(m),
        m_session(m, s.id) is None,
        s.status is Active,
        s.created >= 0,
        s.last_activity >= 0,
    ensures
        swf(m_create_session(m, s)),
{
    let m2 = m_create_session(m, s);
    lemma_alookup_index(m.sessions, s.id);
    assert(forall|i: int| 0 <= i < m.sessions.len() ==> (#[trigger] m.sessions[i]).0 != s.id);
    lemma_aset_is_push(m.sessions, s.id, s);
    assert(!m.active.contains(s.id)) by {
        if m.active.contains(s.id) {
            let i = choose|i: int| 0 <= i < m.active.len() && m.active[i] == s.id;
            assert(alookup(m.sessions, m.active[i]) is Some);
        }
    }
    assert(!m.history.contains(s.id)) by {
        if m.history.contains(s.id) {
            let i = choose|i: int| 0 <= i < m.history.len() && m.history[i] == s.id;
            assert(alookup(m.sessions, m.history[i]) is Some);
        }
    }
    lemma_push_nodup(m.active, s.id);
    assert(adistinct(m2.sessions)) by {
        lemma_aset_distinct(m.sessions, s.id, s);
    }
    assert forall|i: int| 0 <= i < m2.sessions.len() implies #[trigger] session_entry_ok(
        m2,
        i,
    ) by {
        if i < m.sessions.len() {
            assert(session_entry_ok(m, i));
            assert(m2.sessions[i] == m.sessions[i]);
            assert(m.sessions[i].0 != s.id);
        } else {
            assert(m2.sessions[i] == (s.id, s));
            assert(m2.active.contains(s.id));
        }
    }
    assert forall|i: int| 0 <= i < m2.active.len() implies alookup(
        m2.sessions,
        #[trigger] m2.active[i],
    ) is Some by {
        lemma_alookup_aset(m.sessions, s.id, s, m2.active[i]);
        if i < m.active.len() {
            assert(m2.active[i] == m.active[i]);
        } else {
            assert(m2.active[i] == s.id);
        }
    }
    assert forall|i: int| 0 <= i < m2.history.len() implies alookup(
        m2.sessions,
        #[trigger] m2.history[i],
    ) is Some by {
        lemma_alookup_aset(m.sessions, s.id, s, m2.history[i]);
    }
}

/// A status change that keeps the session on its side of the split
/// preserves the invariant.
pub proof fn lemma_wf_set_status(m: StoreModel, id: Seq<char>, st: StatusModel)
    requires
        swf(m),
        match m_session(m, id) {
            Some(s) => (st is Done) == (s.status is Done),
            None => true,
        },
        match st {
            StatusModel::Waiting { asked_at, .. } => asked_at >= 0,
            _ => true,
        },
    ensures
        swf(m_set_status(m, id, st)),
{
    match alookup(m.sessions, id) {
        None => {},
        Some(s) => {
            let m2 = m_set_status(m, id, st);
            lemma_alookup_index(m.sessions, id);
            let si = choose|i: int| 0 <= i < m.sessions.len() && (#[trigger] m.sessions[i]).0 == id;
            assert(alookup(m.sessions, id) == Some(m.sessions[si].1));
            let s2 = SessionModel { status: st, ..s };
            lemma_aset_is_update(m.sessions, id, s2, si);
            lemma_aset_distinct(m.sessions, id, s2);
            assert forall|i: int| 0 <= i < m2.sessions.len() implies #[trigger] session_entry_ok(
                m2,
                i,
            ) by {
                assert(session_entry_ok(m, i));
                if i != si {
                    assert(m2.sessions[i] == m.sessions[i]);
                } else {
                    assert(session_entry_ok(m, si));
                }
            }
            assert forall|i: int| 0 <= i < m2.active.len() implies alookup(
                m2.sessions,
                #[trigger] m2.active[i],
            ) is Some by {
                lemma_alookup_aset(m.sessions, id, s2, m2.active[i]);
            }
            assert forall|i: int| 0 <= i < m2.history.len() implies alookup(
                m2.sessions,
                #[trigger] m2.history[i],
            ) is Some by {
                lemma_alookup_aset(m.sessions, id, s2, m2.history[i]);
            }
        },
    }
}

/// Marking done preserves the invariant.
pub proof fn lemma_wf_mark_done(m: StoreModel, id: Seq<char>)
    requires
        swf(m),
    ensures
        swf(m_mark_done(m, id)),
{
    match alookup(m.sessions, id) {
        None => {},
        Some(s) => {
            if !(s.status is Done) {
                let m2 = m_mark_done(m, id);
                lemma_alookup_index(m.sessions, id);
                let si = choose|i: int|
                    0 <= i < m.sessions.len() && (#[trigger] m.sessions[i]).0 == id;
                assert(alookup(m.sessions, id) == Some(m.sessions[si].1));
                assert(session_entry_ok(m, si));
                let s2 = SessionModel { status: StatusModel::Done, ..s };
                lemma_aset_is_update(m.sessions, id, s2, si);
                lemma_aset_distinct(m.sessions, id, s2);
                // the id sits in active (not done) and not in history
                assert(m.active.contains(id));
                assert(!m.history.contains(id));
                let ai = choose|i: int| 0 <= i < m.active.len() && m.active[i] == id;
                assert(forall|j: int| 0 <= j < ai ==> m.active[j] != id);
                lemma_remove_first_at(m.active, id, ai);
                lemma_remove_nodup(m.active, ai);
                lemma_cons_nodup(m.history, id);
                assert forall|i: int|
                    0 <= i < m2.sessions.len() implies #[trigger] session_entry_ok(m2, i) by {
                    assert(session_entry_ok(m, i));
                    if i != si {
                        assert(m2.sessions[i] == m.sessions[i]);
                        assert(m.sessions[i].0 != id);
                    }
                }
                assert forall|i: int| 0 <= i < m2.active.len() implies alookup(
                    m2.sessions,
                    #[trigger] m2.active[i],
                ) is Some by {
                    assert(m.active.remove(ai).contains(m2.active[i]));
                    let j = choose|j: int|
                        0 <= j < m.active.remove(ai).len() && m.active.remove(ai)[j]
                            == m2.active[i];
                    assert(m.active.remove(ai)[j] == if j < ai {
                        m.active[j]
                    } else {
                        m.active[j + 1]
                    });
                    lemma_alookup_aset(m.sessions, id, s2, m2.active[i]);
                }
                assert forall|i: int| 0 <= i < m2.history.len() implies alookup(
                    m2.sessions,
                    #[trigger] m2.history[i],
                ) is Some by {
                    let c = seq![id] + m.history;
                    if i == 0 {
                        assert(c[0] == id);
                        lemma_alookup_aset(m.sessions, id, s2, id);
                    } else {
                        assert(c[i] == m.history[i - 1]);
                        lemma_alookup_aset(m.sessions, id, s2, m.history[i - 1]);
                    }
                }
            }
        },
    }
}

/// Touching preserves the invariant.
pub proof fn lemma_wf_touch(m: StoreModel, id: Seq<char>, now: int)
    requires
        swf(m),
        now >= 0,
    ensures
        swf(m_touch(m, id, now)),
{
    match alookup(m.sessions, id) {
        None => {},
        Some(s) => {
            let m2 = m_touch(m, id, now);
            lemma_alookup_index(m.sessions, id);
            let si = choose|i: int| 0 <= i < m.sessions.len() && (#[trigger] m.sessions[i]).0 == id;
            assert(alookup(m.sessions, id) == Some(m.sessions[si].1));
            assert(session_entry_ok(m, si));
            let st = if s.status is Done {
                StatusModel::Active
            } else {
                s.status
            };
            let s2 = SessionModel { status: st, last_activity: now, ..s };
            lemma_aset_is_update(m.sessions, id, s2, si);
            lemma_aset_distinct(m.sessions, id, s2);
            if s.status is Done {
                assert(m.history.contains(id));
                assert(!m.active.contains(id));
                let hi = choose|i: int| 0 <= i < m.history.len() && m.history[i] == id;
                assert(forall|j: int| 0 <= j < hi ==> m.history[j] != id);
                lemma_remove_first_at(m.history, id, hi);
                lemma_remove_nodup(m.history, hi);
                lemma_push_nodup(m.active, id);
                assert forall|i: int|
                    0 <= i < m2.sessions.len() implies #[trigger] session_entry_ok(m2, i) by {
                    assert(session_entry_ok(m, i));
                    if i != si {
                        assert(m2.sessions[i] == m.sessions[i]);
                        assert(m.sessions[i].0 != id);
                    }
                }
                assert forall|i: int| 0 <= i < m2.active.len() implies alookup(
                    m2.sessions,
                    #[trigger] m2.active[i],
                ) is Some by {
                    lemma_alookup_aset(m.sessions, id, s2, m2.active[i]);
                    if i < m.active.len() {
                        assert(m2.active[i] == m.active[i]);
                    } else {
                        assert(m2.active[i] == id);
                    }
                }
                assert forall|i: int| 0 <= i < m2.history.len() implies alookup(
                    m2.sessions,
                    #[trigger] m2.history[i],
                ) is Some by {
                    assert(m.history.remove(hi).contains(m2.history[i]));
                    let j = choose|j: int|
                        0 <= j < m.history.remove(hi).len() && m.history.remove(hi)[j]
                            == m2.history[i];
                    assert(m.history.remove(hi)[j] == if j < hi {
                        m.history[j]
                    } else {
                        m.history[j + 1]
                    });
                    lemma_alookup_aset(m.sessions, id, s2, m2.history[i]);
                }
            } else {
                assert forall|i: int|
                    0 <= i < m2.sessions.len() implies #[trigger] session_entry_ok(m2, i) by {
                    assert(session_entry_ok(m, i));
                    if i != si {
                        assert(m2.sessions[i] == m.sessions[i]);
                    }
                }
                assert forall|i: int| 0 <= i < m2.active.len() implies alookup(
                    m2.sessions,
                    #[trigger] m2.active[i],
                ) is Some by {
                    lemma_alookup_aset(m.sessions, id, s2, m2.active[i]);
                }
                assert forall|i: int| 0 <= i < m2.history.len() implies alookup(
                    m2.sessions,
                    #[trigger] m2.history[i],
                ) is Some by {
                    lemma_alookup_aset(m.sessions, id, s2, m2.history[i]);
                }
            }
        },
    }
}

// ---------------------------------------------------------------------------
// The store
// ---------------------------------------------------------------------------

/// The coordination store. See the module documentation.
pub struct Store {
    sessions: Vec<(String, Session)>,
    active: Vec<String>,
    history: Vec<String>,
    hook_log: Vec<(String, Hook)>,
    active_tools: Vec<(String, String)>,
    claude_map: Vec<(String, String)>,
    pending: Vec<(String, String)>,
    answers: Vec<(String, String)>,
    chain_names: Vec<String>,
    chain_links: Vec<ChainLink>,
    memories: Vec<(String, Memory)>,
    artifacts: Vec<(String, Artifact)>,
    artifact_texts: Vec<(String, String)>,
}

/// The models of a sequence of chain links.
pub open spec fn link_views(s: Seq<ChainLink>) -> Seq<ChainLinkModel> {
    Seq::new(s.len(), |i: int| s[i].deep_view())
}

impl View for Store {
    type V = StoreModel;

    closed spec fn view(&self) -> StoreModel {
        StoreModel {
            sessions: dview(self.sessions@),
            active: str_views(self.active@),
            history: str_views(self.history@),
            hook_log: dview(self.hook_log@),
            active_tools: dview(self.active_tools@),
            claude_map: dview(self.claude_map@),
            pending: dview(self.pending@),
            answers: dview(self.answers@),
            chain_names: str_views(self.chain_names@),
            chain_links: link_views(self.chain_links@),
            memories: dview(self.memories@),
            artifacts: dview(self.artifacts@),
            artifact_texts: dview(self.artifact_texts@),
        }
    }
}

impl Store {
    /// The store invariant, as a predicate on this store.
    pub open spec fn wf(&self) -> bool {
        swf(self@)
    }

    /// An empty store.
    pub fn new() -> (r: Store)
        ensures
            r@ == m_empty(),
            r.wf(),
    {
        let r = Store {
            sessions: Vec::new(),
            active: Vec::new(),
            history: Vec::new(),
            hook_log: Vec::new(),
            active_tools: Vec::new(),
            claude_map: Vec::new(),
            pending: Vec::new(),
            answers: Vec::new(),
            chain_names: Vec::new(),
            chain_links: Vec::new(),
            memories: Vec::new(),
            artifacts: Vec::new(),
            artifact_texts: Vec::new(),
        };
        proof {
            assert(r@ =~= m_empty());
        }
        r
    }

    /// Records a fresh session and adds its id to the active set. The
    /// session arrives in the `Active` state, as creation demands.
    pub fn create_session(&mut self, s: Session)
        requires
            old(self).wf(),
            m_session(old(self)@, s.id@) is None,
            s.status is Active,
            s.created >= 0,
            s.last_activity >= 0,
        ensures
            final(self)@ == m_create_session(old(self)@, s.deep_view()),
            final(self).wf(),
    {
        proof {
            lemma_wf_create(self@, s.deep_view());
        }
        let ghost m0 = self@;
        let key = clone_string(&s.id);
        let id2 = clone_string(&s.id);
        let ghost sm = s.deep_view();
        self.sessions.push((key, s));
        self.active.push(id2);
        proof {
            assert(dview(self.sessions@) =~= m0.sessions.push((sm.id, sm)));
            assert(str_views(self.active@) =~= m0.active.push(sm.id));
            assert(self@ =~= m_create_session(m0, sm));
        }
    }

    /// The session stored under `id`, if any.
    pub fn get_session(&self, id: &str) -> (r: Option<Session>)
        ensures
            match r {
                Some(s) => m_session(self@, id@) == Some(s.deep_view()),
                None => m_session(self@, id@) is None,
            },
    {
        match kv_get(&self.sessions, id) {
            Some(s) => Some(clone_session(s)),
            None => None,
        }
    }

    /// The ids of all sessions in the active set.
    pub fn list_active(&self) -> (r: Vec<String>)
        ensures
            str_views(r@) == self@.active,
    {
        let mut r: Vec<String> = Vec::new();
        let mut i: usize = 0;
        while i < self.active.len()
            invariant
                i <= self.active@.len(),
                r@.len() == i,
                str_views(r@) == str_views(self.active@).take(i as int),
            decreases self.active@.len() - i,
        {
            r.push(clone_string(&self.active[i]));
            proof {
                assert(str_views(r@) =~= str_views(self.active@).take(i as int + 1));
            }
            i += 1;
        }
        proof {
            assert(str_views(self.active@).take(self.active@.len() as int) =~= str_views(
                self.active@,
            ));
        }
        r
    }

    /// The newest `limit` ids of the history list, newest first.
    pub fn list_history(&self, limit: usize) -> (r: Vec<String>)
        ensures
            str_views(r@) == self@.history.take(
                if limit as int <= self@.history.len() {
                    limit as int
                } else {
                    self@.history.len() as int
                },
            ),
    {
        let n = if limit <= self.history.len() {
            limit
        } else {
            self.history.len()
        };
        let mut r: Vec<String> = Vec::new();
        let mut i: usize = 0;
        while i < n
            invariant
                i <= n <= self.history@.len(),
                r@.len() == i,
                str_views(r@) == str_views(self.history@).take(i as int),
            decreases n - i,
        {
            r.push(clone_string(&self.history[i]));
            proof {
                assert(str_views(r@) =~= str_views(self.history@).take(i as int + 1));
            }
            i += 1;
        }
        proof {
            assert(str_views(self.history@).take(n as int) =~= self@.history.take(n as int));
        }
        r
    }

    /// Replaces the status of `id` in place; a missing id changes nothing.
    /// The new status must keep the session on its side of the
    /// active/history split — `mark_done` and `touch_and_reactivate` are
    /// the operations that move a session across.
    pub fn update_status(&mut self, id: &str, status: &Status)
        requires
            old(self).wf(),
            match m_session(old(self)@, id@) {
                Some(s) => (status.deep_view() is Done) == (s.status is Done),
                None => true,
            },
            match status.deep_view() {
                StatusModel::Waiting { asked_at, .. } => asked_at >= 0,
                _ => true,
            },
        ensures
            final(self)@ == m_set_status(old(self)@, id@, status.deep_view()),
            final(self).wf(),
    {
        proof {
            lemma_wf_set_status(self@, id@, status.deep_view());
        }
        let ghost m0 = self@;
        match kv_find(&self.sessions, id) {
            None => {
                proof {
                    lemma_alookup_index(m0.sessions, id@);
                    assert(self@ =~= m_set_status(m0, id@, status.deep_view()));
                }
            },
            Some(i) => {
                let p: &(String, Session) = &self.sessions[i];
                proof {
                    lemma_alookup_first(m0.sessions, id@, i as int);
                }
                let mut s2 = clone_session(&p.1);
                s2.status = clone_status(status);
                let key = clone_string(&p.0);
                kv_set(&mut self.sessions, key, s2);
                proof {
                    let s = alookup(m0.sessions, id@)->Some_0;
                    assert(s2.deep_view() =~= SessionModel {
                        status: status.deep_view(),
                        ..s
                    });
                    assert(self@ =~= m_set_status(m0, id@, status.deep_view()));
                }
            },
        }
    }

    /// Marks `id` done: status `Done`, id moved from the active set to the
    /// head of the history list. A session already done, or never created,
    /// is left untouched.
    pub fn mark_done(&mut self, id: &str)
        requires
            old(self).wf(),
        ensures
            final(self)@ == m_mark_done(old(self)@, id@),
            final(self).wf(),
    {
        proof {
            lemma_wf_mark_done(self@, id@);
        }
        let ghost m0 = self@;
        match kv_find(&self.sessions, id) {
            None => {
                proof {
                    lemma_alookup_index(m0.sessions, id@);
                    assert(self@ =~= m_mark_done(m0, id@));
                }
            },
            Some(i) => {
                proof {
                    lemma_alookup_first(m0.sessions, id@, i as int);
                }
                let done = {
                    let p: &(String, Session) = &self.sessions[i];
                    p.1.status.is_done()
                };
                if done {
                    proof {
                        assert(self@ =~= m_mark_done(m0, id@));
                    }
                } else {
                    let ghost s = alookup(m0.sessions, id@)->Some_0;
                    let (key, idc, s2) = {
                        let p: &(String, Session) = &self.sessions[i];
                        let mut s2 = clone_session(&p.1);
                        s2.status = Status::Done;
                        (clone_string(&p.0), clone_string(&p.0), s2)
                    };
                    kv_set(&mut self.sessions, key, s2);
                    proof {
                        assert(s2.deep_view() =~= SessionModel { status: StatusModel::Done, ..s });
                    }
                    // id is in the active set because the session is not done
                    proof {
                        assert(session_entry_ok(m0, i as int));
                        assert(m0.active.contains(id@));
                    }
                    match find_str(&self.active, id) {
                        Some(ai) => {
                            let ghost a0 = str_views(self.active@);
                            self.active.remove(ai);
                            proof {
                                lemma_remove_first_at(a0, id@, ai as int);
                                assert(str_views(self.active@) =~= a0.remove(ai as int));
                            }
                        },
                        None => {
                            proof {
                                let j = choose|j: int|
                                    0 <= j < m0.active.len() && m0.active[j] == id@;
                                assert(self.active@[j]@ == id@);
                                assert(false);
                            }
                        },
                    }
                    let ghost h0 = str_views(self.history@);
                    self.history.insert(0, idc);
                    proof {
                        assert(str_views(self.history@) =~= seq![id@] + h0);
                        assert(self@ =~= m_mark_done(m0, id@));
                    }
                }
            },
        }
    }

    /// Touches `id`: refreshes `last_activity` and reactivates a done
    /// session, moving its id from history back to the active set. A
    /// missing id changes nothing.
    pub fn touch_and_reactivate(&mut self, id: &str, now: i64)
        requires
            old(self).wf(),
            now >= 0,
        ensures
            final(self)@ == m_touch(old(self)@, id@, now as int),
            final(self).wf(),
    {
        proof {
            lemma_wf_touch(self@, id@, now as int);
        }
        let ghost m0 = self@;
        match kv_find(&self.sessions, id) {
            None => {
                proof {
                    lemma_alookup_index(m0.sessions, id@);
                    assert(self@ =~= m_touch(m0, id@, now as int));
                }
            },
            Some(i) => {
                proof {
                    lemma_alookup_first(m0.sessions, id@, i as int);
                }
                let ghost s = alookup(m0.sessions, id@)->Some_0;
                let (key, s2, was_done) = {
                    let p: &(String, Session) = &self.sessions[i];
                    let was_done = p.1.status.is_done();
                    let mut s2 = clone_session(&p.1);
                    s2.last_activity = now;
                    if was_done {
                        s2.status = Status::Active;
                    }
                    (clone_string(&p.0), s2, was_done)
                };
                let idc = clone_string(&key);
                kv_set(&mut self.sessions, key, s2);
                if was_done {
                    proof {
                        assert(session_entry_ok(m0, i as int));
                        assert(m0.history.contains(id@));
                    }
                    match find_str(&self.history, id) {
                        Some(hi) => {
                            let ghost h0 = str_views(self.history@);
                            self.history.remove(hi);
                            proof {
                                lemma_remove_first_at(h0, id@, hi as int);
                                assert(str_views(self.history@) =~= h0.remove(hi as int));
                            }
                        },
                        None => {
                            proof {
                                let j = choose|j: int|
                                    0 <= j < m0.history.len() && m0.history[j] == id@;
                                assert(self.history@[j]@ == id@);
                                assert(false);
                            }
                        },
                    }
                    let ghost a0 = str_views(self.active@);
                    self.active.push(idc);
                    proof {
                        assert(str_views(self.active@) =~= a0.push(id@));
                        assert(self@ =~= m_touch(m0, id@, now as int));
                    }
                } else {
                    proof {
                        assert(self@ =~= m_touch(m0, id@, now as int));
                    }
                }
            },
        }
    }
}

// ---------------------------------------------------------------------------
// Hooks, tools, correlation ids, rendezvous: transitions
// ---------------------------------------------------------------------------

/// Appending a hook records it in the log and touches the session.
pub open spec fn m_add_hook(m: StoreModel, id: Seq<char>, h: HookModel, now: int) -> StoreModel {
    m_touch(StoreModel { hook_log: m.hook_log.push((id, h)), ..m }, id, now)
}

/// A full hook request: the kind `"pre"` marks a tool about to run and
/// records it as the session's active tool, any other kind clears it;
/// then the hook is appended and the session touched.
pub open spec fn m_append_hook(
    m: StoreModel,
    id: Seq<char>,
    kind: Seq<char>,
    task: Seq<char>,
    meta: Seq<char>,
    now: int,
) -> StoreModel {
    let tools = if kind == "pre"@ {
        aset(m.active_tools, id, task)
    } else {
        aremove(m.active_tools, id)
    };
    m_add_hook(
        StoreModel { active_tools: tools, ..m },
        id,
        HookModel { ts: now, kind, task, meta },
        now,
    )
}

/// The hooks of one session, in append order.
pub open spec fn hooks_of(log: Seq<(Seq<char>, HookModel)>, id: Seq<char>) -> Seq<HookModel>
    decreases log.len(),
{
    if log.len() == 0 {
        Seq::empty()
    } else {
        let rest = hooks_of(log.drop_last(), id);
        if log.last().0 == id {
            rest.push(log.last().1)
        } else {
            rest
        }
    }
}

/// The models of a sequence of hooks.
pub open spec fn hook_views(s: Seq<Hook>) -> Seq<HookModel> {
    Seq::new(s.len(), |i: int| s[i].deep_view())
}

/// Sweeping a list of session ids: every session that is still `Active`
/// and idle longer than `max` is marked done; the ids so closed are
/// reported in order.
pub open spec fn m_cleanup(m: StoreModel, ids: Seq<Seq<char>>, max: int, now: int) -> (
    StoreModel,
    Seq<Seq<char>>,
)
    decreases ids.len(),
{
    if ids.len() == 0 {
        (m, Seq::empty())
    } else {
        let id = ids[0];
        let stale = match alookup(m.sessions, id) {
            Some(s) => now - s.last_activity > max && s.status is Active,
            None => false,
        };
        let m1 = if stale {
            m_mark_done(m, id)
        } else {
            m
        };
        let (m2, cleaned) = m_cleanup(m1, ids.drop_first(), max, now);
        (
            m2,
            if stale {
                seq![id] + cleaned
            } else {
                cleaned
            },
        )
    }
}

/// Recording or clearing the tool a session is running.
pub open spec fn m_set_tool(m: StoreModel, id: Seq<char>, tool: Seq<char>) -> StoreModel {
    StoreModel { active_tools: aset(m.active_tools, id, tool), ..m }
}

/// Clearing a session's active tool.
pub open spec fn m_clear_tool(m: StoreModel, id: Seq<char>) -> StoreModel {
    StoreModel { active_tools: aremove(m.active_tools, id), ..m }
}

/// Binding an external correlation id to a session id.
pub open spec fn m_set_mapping(m: StoreModel, cid: Seq<char>, sid: Seq<char>) -> StoreModel {
    StoreModel { claude_map: aset(m.claude_map, cid, sid), ..m }
}

/// Starting fresh under a correlation id: a new active session plus the
/// mapping to it.
pub open spec fn m_start_new(
    m: StoreModel,
    cid: Seq<char>,
    agent: Seq<char>,
    cwd: Seq<char>,
    new_id: Seq<char>,
    now: int,
) -> (StoreModel, Seq<char>, bool) {
    let s = SessionModel {
        id: new_id,
        name: None,
        agent: agent,
        cwd: cwd,
        status: StatusModel::Active,
        created: now,
        last_activity: now,
    };
    let m1 = m_create_session(m, s);
    (StoreModel { claude_map: aset(m1.claude_map, cid, new_id), ..m1 }, new_id, false)
}

/// Start-or-resume under a correlation id: when the mapping points at a
/// session that still exists, that session is touched and reused;
/// otherwise a new session is created and mapped.
pub open spec fn m_start_session(
    m: StoreModel,
    cid: Seq<char>,
    agent: Seq<char>,
    cwd: Seq<char>,
    new_id: Seq<char>,
    now: int,
) -> (StoreModel, Seq<char>, bool) {
    match alookup(m.claude_map, cid) {
        Some(tid) => {
            if alookup(m.sessions, tid) is Some {
                (m_touch(m, tid, now), tid, true)
            } else {
                m_start_new(m, cid, agent, cwd, new_id, now)
            }
        },
        None => m_start_new(m, cid, agent, cwd, new_id, now),
    }
}

/// Opening a rendezvous: the session is touched (and revived if done),
/// any stale answer from an earlier rendezvous is dropped, the question
/// is stored as pending and the status turns `Waiting`. A missing session
/// changes nothing.
pub open spec fn m_ask_begin(m: StoreModel, id: Seq<char>, q: Seq<char>, now: int) -> StoreModel {
    match alookup(m.sessions, id) {
        None => m,
        Some(_) => {
            let m1 = m_touch(m, id, now);
            let m2 = m_set_status(
                m1,
                id,
                StatusModel::Waiting { question: q, asked_at: now },
            );
            StoreModel {
                pending: aset(m2.pending, id, q),
                answers: aremove(m2.answers, id),
                ..m2
            }
        },
    }
}

/// Supplying an answer: the bare write; the waiting poller drives the
/// state machine.
pub open spec fn m_answer(m: StoreModel, id: Seq<char>, text: Seq<char>) -> StoreModel {
    StoreModel { answers: aset(m.answers, id, text), ..m }
}

/// Closing a rendezvous: pending question and answer cleared, status back
/// to `Active`.
pub open spec fn m_rendezvous_close(m: StoreModel, id: Seq<char>) -> StoreModel {
    let m1 = m_set_status(m, id, StatusModel::Active);
    StoreModel { pending: aremove(m1.pending, id), answers: aremove(m1.answers, id), ..m1 }
}

/// What one poll of a rendezvous finds.
pub enum AskPoll {
    /// The answer arrived; the rendezvous is closed.
    Answered(String),
    /// The ceiling elapsed with no answer; the rendezvous is closed and
    /// the question abandoned.
    TimedOut,
    /// No answer yet and time remains; nothing changes.
    StillWaiting,
    /// The session is missing or not waiting on a question.
    NotWaiting,
}

/// Mathematical model of [`AskPoll`].
#[verifier::ext_equal]
pub enum AskPollModel {
    Answered(Seq<char>),
    TimedOut,
    StillWaiting,
    NotWaiting,
}

impl DeepView for AskPoll {
    type V = AskPollModel;

    open spec fn deep_view(&self) -> AskPollModel {
        match self {
            AskPoll::Answered(s) => AskPollModel::Answered(s@),
            AskPoll::TimedOut => AskPollModel::TimedOut,
            AskPoll::StillWaiting => AskPollModel::StillWaiting,
            AskPoll::NotWaiting => AskPollModel::NotWaiting,
        }
    }
}

/// One poll step: an answer, once present, is delivered exactly once and
/// the rendezvous closes; with no answer the poll times out exactly when
/// `now` has reached the asked-at time plus the ceiling; otherwise
/// nothing changes.
pub open spec fn m_ask_poll(m: StoreModel, id: Seq<char>, now: int) -> (StoreModel, AskPollModel) {
    match alookup(m.sessions, id) {
        None => (m, AskPollModel::NotWaiting),
        Some(s) => match s.status {
            StatusModel::Waiting { question, asked_at } => {
                match alookup(m.answers, id) {
                    Some(ans) => (m_rendezvous_close(m, id), AskPollModel::Answered(ans)),
                    None => {
                        if now - asked_at >= ASK_TIMEOUT_SECS as int {
                            (m_rendezvous_close(m, id), AskPollModel::TimedOut)
                        } else {
                            (m, AskPollModel::StillWaiting)
                        }
                    },
                }
            },
            _ => (m, AskPollModel::NotWaiting),
        },
    }
}

/// The invariant only watches the keys of the side tables; a change that
/// keeps sessions, membership sets, chains, memories and artifacts, and
/// keeps the side tables' keys distinct, preserves it.
pub proof fn lemma_swf_same_core(m1: StoreModel, m2: StoreModel)
    requires
        swf(m1),
        m2.sessions == m1.sessions,
        m2.active == m1.active,
        m2.history == m1.history,
        adistinct(m2.active_tools),
        adistinct(m2.claude_map),
        adistinct(m2.pending),
        adistinct(m2.answers),
        adistinct(m2.artifact_texts),
        m2.memories == m1.memories,
        m2.artifacts == m1.artifacts,
        m2.chain_names == m1.chain_names,
        m2.chain_links == m1.chain_links,
    ensures
        swf(m2),
{
    assert forall|i: int| 0 <= i < m2.sessions.len() implies #[trigger] session_entry_ok(
        m2,
        i,
    ) by {
        assert(session_entry_ok(m1, i));
    }
}

impl Store {
    /// Appends a hook to the session's log and touches the session. The
    /// log grows even for an unknown id; the touch then changes nothing.
    pub fn add_hook(&mut self, id: &str, hook: &Hook, now: i64)
        requires
            old(self).wf(),
            now >= 0,
        ensures
            final(self)@ == m_add_hook(old(self)@, id@, hook.deep_view(), now as int),
            final(self).wf(),
    {
        let ghost m0 = self@;
        self.hook_log.push((id.to_owned(), clone_hook(hook)));
        proof {
            let m1 = StoreModel { hook_log: m0.hook_log.push((id@, hook.deep_view())), ..m0 };
            assert(dview(self.hook_log@) =~= m0.hook_log.push((id@, hook.deep_view())));
            assert(self@ =~= m1);
            assert(swf(m1)) by {
                assert forall|i: int|
                    0 <= i < m1.sessions.len() implies #[trigger] session_entry_ok(m1, i) by {
                    assert(session_entry_ok(m0, i));
                }
            }
        }
        self.touch_and_reactivate(id, now);
    }

    /// Handles one hook request: kind `"pre"` records `task` as the
    /// session's running tool, any other kind clears the tool; the hook is
    /// then appended and the session touched.
    pub fn append_hook(&mut self, id: &str, kind: &str, task: &str, meta: &str, now: i64)
        requires
            old(self).wf(),
            now >= 0,
        ensures
            final(self)@ == m_append_hook(old(self)@, id@, kind@, task@, meta@, now as int),
            final(self).wf(),
    {
        let ghost m0 = self@;
        if text::str_eq(kind, "pre") {
            kv_set(&mut self.active_tools, id.to_owned(), task.to_owned());
        } else {
            kv_remove(&mut self.active_tools, id);
        }
        proof {
            let tools = if kind@ == "pre"@ {
                aset(m0.active_tools, id@, task@)
            } else {
                aremove(m0.active_tools, id@)
            };
            let m1 = StoreModel { active_tools: tools, ..m0 };
            assert(self@ =~= m1);
            lemma_swf_same_core(m0, m1);
        }
        let h = Hook { ts: now, kind: kind.to_owned(), task: task.to_owned(), meta: meta.to_owned() };
        self.add_hook(id, &h, now);
        proof {
            assert(final(self)@ =~= m_append_hook(m0, id@, kind@, task@, meta@, now as int));
        }
    }

    /// The last `limit` hooks of a session, oldest of them first.
    pub fn get_hooks(&self, id: &str, limit: usize) -> (r: Vec<Hook>)
        ensures
            hook_views(r@) == {
                let h = hooks_of(self@.hook_log, id@);
                h.skip(
                    if h.len() > limit {
                        h.len() - limit as int
                    } else {
                        0
                    },
                )
            },
    {
        let ghost log = self@.hook_log;
        let mut acc: Vec<Hook> = Vec::new();
        let mut i: usize = 0;
        proof {
            assert(hook_views(acc@) =~= hooks_of(log.take(0), id@));
            assert(log.take(0) =~= Seq::<(Seq<char>, HookModel)>::empty());
        }
        while i < self.hook_log.len()
            invariant
                i <= self.hook_log@.len(),
                log == self@.hook_log,
                log.len() == self.hook_log@.len(),
                acc@.len() == hooks_of(log.take(i as int), id@).len(),
                hook_views(acc@) == hooks_of(log.take(i as int), id@),
            decreases self.hook_log@.len() - i,
        {
            proof {
                assert(log.take(i as int + 1).drop_last() =~= log.take(i as int));
                assert(log.take(i as int + 1).last() == log[i as int]);
            }
            let p: &(String, Hook) = &self.hook_log[i];
            if text::str_eq(p.0.as_str(), id) {
                let ghost prev = hook_views(acc@);
                acc.push(clone_hook(&p.1));
                proof {
                    assert(hook_views(acc@) =~= prev.push(log[i as int].1));
                }
            }
            i += 1;
        }
        proof {
            assert(log.take(log.len() as int) =~= log);
        }
        let ghost h = hooks_of(log, id@);
        let start = if acc.len() > limit {
            acc.len() - limit
        } else {
            0
        };
        let mut r: Vec<Hook> = Vec::new();
        let mut j: usize = start;
        proof {
            assert(h.len() == acc@.len());
            assert(hook_views(r@) =~= h.subrange(start as int, start as int));
        }
        while j < acc.len()
            invariant
                start <= j <= acc@.len(),
                hook_views(acc@) == h,
                h.len() == acc@.len(),
                r@.len() == j - start,
                hook_views(r@) == h.subrange(start as int, j as int),
            decreases acc@.len() - j,
        {
            r.push(clone_hook(&acc[j]));
            proof {
                assert(hook_views(r@) =~= h.subrange(start as int, j as int + 1));
            }
            j += 1;
        }
        proof {
            assert(h.subrange(start as int, h.len() as int) =~= h.skip(start as int));
        }
        r
    }

    /// Sweeps the current active list: every session still `Active` whose
    /// idle time exceeds `max_inactive_secs` is marked done; their ids are
    /// returned in sweep order. A session waiting on a question is never
    /// closed.
    pub fn cleanup_stale(&mut self, max_inactive_secs: i64, now: i64) -> (r: Vec<String>)
        requires
            old(self).wf(),
            now >= 0,
        ensures
            final(self)@ == m_cleanup(old(self)@, old(self)@.active, max_inactive_secs as int,
                now as int).0,
            str_views(r@) == m_cleanup(old(self)@, old(self)@.active, max_inactive_secs as int,
                now as int).1,
            final(self).wf(),
    {
        let ghost m0 = self@;
        let ghost max = max_inactive_secs as int;
        let ids = self.list_active();
        let mut cleaned: Vec<String> = Vec::new();
        let mut i: usize = 0;
        proof {
            assert(str_views(ids@).skip(0) =~= str_views(ids@));
            assert(str_views(cleaned@) =~= Seq::<Seq<char>>::empty());
        }
        while i < ids.len()
            invariant
                i <= ids@.len(),
                self.wf(),
                now >= 0,
                max == max_inactive_secs as int,
                m_cleanup(m0, str_views(ids@), max, now as int).0 == m_cleanup(
                    self@,
                    str_views(ids@).skip(i as int),
                    max,
                    now as int,
                ).0,
                m_cleanup(m0, str_views(ids@), max, now as int).1 == str_views(cleaned@)
                    + m_cleanup(self@, str_views(ids@).skip(i as int), max, now as int).1,
            decreases ids@.len() - i,
        {
            let ghost mcur = self@;
            let ghost rest = str_views(ids@).skip(i as int);
            let ghost idv = ids@[i as int]@;
            proof {
                assert(rest.len() == ids@.len() - i);
                assert(rest[0] == idv);
                assert(rest.drop_first() =~= str_views(ids@).skip(i as int + 1));
            }
            let id = &ids[i];
            let mut stale = false;
            match kv_get(&self.sessions, id.as_str()) {
                Some(s) => {
                    proof {
                        lemma_alookup_index(mcur.sessions, idv);
                        let si = choose|si: int|
                            0 <= si < mcur.sessions.len() && (#[trigger] mcur.sessions[si]).0
                                == idv;
                        assert(session_entry_ok(mcur, si));
                        assert(alookup(mcur.sessions, idv) == Some(mcur.sessions[si].1));
                        assert(s.deep_view().last_activity >= 0);
                    }
                    if now - s.last_activity > max_inactive_secs && s.status.is_active() {
                        stale = true;
                    }
                    proof {
                        assert(stale == (now as int - s.deep_view().last_activity > max
                            && s.deep_view().status is Active));
                    }
                },
                None => {},
            }
            let ghost stale_spec = match alookup(mcur.sessions, idv) {
                Some(sm) => now as int - sm.last_activity > max && sm.status is Active,
                None => false,
            };
            proof {
                assert(stale == stale_spec);
            }
            if stale {
                self.mark_done(id.as_str());
                let ghost tail = m_cleanup(self@, rest.drop_first(), max, now as int).1;
                let ghost prev = str_views(cleaned@);
                cleaned.push(clone_string(id));
                proof {
                    assert(str_views(cleaned@) =~= prev.push(idv));
                    assert(prev + (seq![idv] + tail) =~= prev.push(idv) + tail);
                    assert(m_cleanup(mcur, rest, max, now as int).0 == m_cleanup(
                        self@,
                        rest.drop_first(),
                        max,
                        now as int,
                    ).0);
                    assert(m_cleanup(mcur, rest, max, now as int).1 == seq![idv] + tail);
                }
            } else {
                proof {
                    assert(m_cleanup(mcur, rest, max, now as int).0 == m_cleanup(
                        self@,
                        rest.drop_first(),
                        max,
                        now as int,
                    ).0);
                    assert(m_cleanup(mcur, rest, max, now as int).1 == m_cleanup(
                        self@,
                        rest.drop_first(),
                        max,
                        now as int,
                    ).1);
                }
            }
            i += 1;
        }
        proof {
            assert(str_views(ids@).skip(ids@.len() as int) =~= Seq::<Seq<char>>::empty());
            assert(str_views(cleaned@) + Seq::<Seq<char>>::empty() =~= str_views(cleaned@));
        }
        cleaned
    }

    /// Records the tool a session is about to run.
    pub fn set_active_tool(&mut self, id: &str, tool: &str)
        requires
            old(self).wf(),
        ensures
            final(self)@ == m_set_tool(old(self)@, id@, tool@),
            final(self).wf(),
    {
        let ghost m0 = self@;
        kv_set(&mut self.active_tools, id.to_owned(), tool.to_owned());
        proof {
            assert(self@ =~= m_set_tool(m0, id@, tool@));
            lemma_swf_same_core(m0, self@);
        }
    }

    /// Clears the tool a session was running.
    pub fn clear_active_tool(&mut self, id: &str)
        requires
            old(self).wf(),
        ensures
            final(self)@ == m_clear_tool(old(self)@, id@),
            final(self).wf(),
    {
        let ghost m0 = self@;
        kv_remove(&mut self.active_tools, id);
        proof {
            assert(self@ =~= m_clear_tool(m0, id@));
            lemma_swf_same_core(m0, self@);
        }
    }

    /// The tool a session is running, if one was recorded.
    pub fn get_active_tool(&self, id: &str) -> (r: Option<String>)
        ensures
            match r {
                Some(t) => alookup(self@.active_tools, id@) == Some(t@),
                None => alookup(self@.active_tools, id@) is None,
            },
    {
        match kv_get(&self.active_tools, id) {
            Some(t) => Some(clone_string(t)),
            None => None,
        }
    }

    /// Binds an external correlation id to a session id.
    pub fn set_claude_mapping(&mut self, claude_id: &str, session_id: &str)
        requires
            old(self).wf(),
        ensures
            final(self)@ == m_set_mapping(old(self)@, claude_id@, session_id@),
            final(self).wf(),
    {
        let ghost m0 = self@;
        kv_set(&mut self.claude_map, claude_id.to_owned(), session_id.to_owned());
        proof {
            assert(self@ =~= m_set_mapping(m0, claude_id@, session_id@));
            lemma_swf_same_core(m0, self@);
        }
    }

    /// The session id bound to an external correlation id, if any.
    pub fn get_claude_mapping(&self, claude_id: &str) -> (r: Option<String>)
        ensures
            match r {
                Some(t) => alookup(self@.claude_map, claude_id@) == Some(t@),
                None => alookup(self@.claude_map, claude_id@) is None,
            },
    {
        match kv_get(&self.claude_map, claude_id) {
            Some(t) => Some(clone_string(t)),
            None => None,
        }
    }

    /// Start-or-resume under an external correlation id. When the mapping
    /// points at a session that still exists, that session is touched and
    /// its id returned with `true` (reused); otherwise a fresh session is
    /// created under `new_id`, mapped, and returned with `false`.
    pub fn start_session(
        &mut self,
        claude_id: &str,
        agent: &str,
        cwd: &str,
        new_id: String,
        now: i64,
    ) -> (r: (String, bool))
        requires
            old(self).wf(),
            now >= 0,
            m_session(old(self)@, new_id@) is None,
        ensures
            final(self)@ == m_start_session(old(self)@, claude_id@, agent@, cwd@, new_id@,
                now as int).0,
            r.0@ == m_start_session(old(self)@, claude_id@, agent@, cwd@, new_id@, now as int).1,
            r.1 == m_start_session(old(self)@, claude_id@, agent@, cwd@, new_id@, now as int).2,
            final(self).wf(),
    {
        let ghost m0 = self@;
        let existing: Option<String> = match kv_get(&self.claude_map, claude_id) {
            Some(t) => Some(clone_string(t)),
            None => None,
        };
        if let Some(tid) = existing {
            let found = match kv_get(&self.sessions, tid.as_str()) {
                Some(_) => true,
                None => false,
            };
            if found {
                self.touch_and_reactivate(tid.as_str(), now);
                return (tid, true);
            }
        }
        let s = Session {
            id: clone_string(&new_id),
            name: None,
            agent: agent.to_owned(),
            cwd: cwd.to_owned(),
            status: Status::Active,
            created: now,
            last_activity: now,
        };
        self.create_session(s);
        let ghost m1 = self@;
        kv_set(&mut self.claude_map, claude_id.to_owned(), clone_string(&new_id));
        proof {
            assert(self@ =~= m_start_new(m0, claude_id@, agent@, cwd@, new_id@, now as int).0);
            lemma_swf_same_core(m1, self@);
        }
        (new_id, false)
    }

    /// Closes a rendezvous: status back to `Active`, pending question and
    /// answer dropped.
    fn rendezvous_close(&mut self, id: &str)
        requires
            old(self).wf(),
            match m_session(old(self)@, id@) {
                Some(s) => !(s.status is Done),
                None => true,
            },
        ensures
            final(self)@ == m_rendezvous_close(old(self)@, id@),
            final(self).wf(),
    {
        let ghost m0 = self@;
        self.update_status(id, &Status::Active);
        let ghost m1 = self@;
        kv_remove(&mut self.pending, id);
        kv_remove(&mut self.answers, id);
        proof {
            assert(self@ =~= m_rendezvous_close(m0, id@));
            lemma_swf_same_core(m1, self@);
        }
    }

    /// Opens a rendezvous on `id` with `question`: the session is touched
    /// (a done session revives first), any stale answer is discarded, the
    /// question becomes pending and the status turns `Waiting`. Returns
    /// whether the session exists; nothing changes when it does not.
    pub fn ask_begin(&mut self, id: &str, question: &str, now: i64) -> (r: bool)
        requires
            old(self).wf(),
            now >= 0,
        ensures
            r == (m_session(old(self)@, id@) is Some),
            final(self)@ == m_ask_begin(old(self)@, id@, question@, now as int),
            final(self).wf(),
    {
        let ghost m0 = self@;
        let found = match kv_get(&self.sessions, id) {
            Some(_) => true,
            None => false,
        };
        if !found {
            return false;
        }
        self.touch_and_reactivate(id, now);
        let ghost m1 = self@;
        let w = Status::Waiting { question: question.to_owned(), asked_at: now };
        proof {
            let s0 = alookup(m0.sessions, id@)->Some_0;
            lemma_alookup_aset(
                m0.sessions,
                id@,
                SessionModel {
                    status: if s0.status is Done {
                        StatusModel::Active
                    } else {
                        s0.status
                    },
                    last_activity: now as int,
                    ..s0
                },
                id@,
            );
            assert(m_session(m1, id@) is Some);
            assert(!(m_session(m1, id@)->Some_0.status is Done));
        }
        self.update_status(id, &w);
        let ghost m2 = self@;
        kv_set(&mut self.pending, id.to_owned(), question.to_owned());
        kv_remove(&mut self.answers, id);
        proof {
            assert(self@ =~= m_ask_begin(m0, id@, question@, now as int));
            lemma_swf_same_core(m2, self@);
        }
        true
    }

    /// Writes the answer for `id`. The write is unconditional — last
    /// write wins — and does not itself drive the session's state: the
    /// waiting poller does.
    pub fn answer(&mut self, id: &str, text: &str)
        requires
            old(self).wf(),
        ensures
            final(self)@ == m_answer(old(self)@, id@, text@),
            final(self).wf(),
    {
        let ghost m0 = self@;
        kv_set(&mut self.answers, id.to_owned(), text.to_owned());
        proof {
            assert(self@ =~= m_answer(m0, id@, text@));
            lemma_swf_same_core(m0, self@);
        }
    }

    /// One poll of the rendezvous on `id`. An answer, if present, is
    /// returned and the rendezvous closed; with no answer the poll times
    /// out exactly when `now - asked_at` has reached the ceiling
    /// [`ASK_TIMEOUT_SECS`], leaving the session `Active` again; earlier
    /// polls change nothing.
    pub fn ask_poll(&mut self, id: &str, now: i64) -> (r: AskPoll)
        requires
            old(self).wf(),
            now >= 0,
        ensures
            final(self)@ == m_ask_poll(old(self)@, id@, now as int).0,
            r.deep_view() == m_ask_poll(old(self)@, id@, now as int).1,
            final(self).wf(),
    {
        let ghost m0 = self@;
        let asked_at: i64 = match kv_get(&self.sessions, id) {
            Some(s) => {
                match &s.status {
                    Status::Waiting { asked_at, .. } => *asked_at,
                    _ => {
                        return AskPoll::NotWaiting;
                    },
                }
            },
            None => {
                return AskPoll::NotWaiting;
            },
        };
        let ans: Option<String> = match kv_get(&self.answers, id) {
            Some(a) => Some(clone_string(a)),
            None => None,
        };
        proof {
            let si = choose|i: int| 0 <= i < m0.sessions.len() && (#[trigger] m0.sessions[i]).0 == id@;
            lemma_alookup_index(m0.sessions, id@);
            assert(session_entry_ok(m0, si));
        }
        match ans {
            Some(a) => {
                self.rendezvous_close(id);
                AskPoll::Answered(a)
            },
            None => {
                if now - asked_at >= ASK_TIMEOUT_SECS {
                    self.rendezvous_close(id);
                    AskPoll::TimedOut
                } else {
                    AskPoll::StillWaiting
                }
            },
        }
    }
}

// ---------------------------------------------------------------------------
// Chains: transitions and helpers
// ---------------------------------------------------------------------------

/// A link is stored under the pair (chain name, timestamp): saving a link
/// replaces the link with the same pair in place, or appends.
pub open spec fn lset(links: Seq<ChainLinkModel>, l: ChainLinkModel) -> Seq<ChainLinkModel>
    decreases links.len(),
{
    if links.len() == 0 {
        seq![l]
    } else if links[0].chain_name == l.chain_name && links[0].ts == l.ts {
        seq![l] + links.drop_first()
    } else {
        seq![links[0]] + lset(links.drop_first(), l)
    }
}

/// No two links share (chain name, timestamp).
pub open spec fn ldistinct(links: Seq<ChainLinkModel>) -> bool {
    forall|i: int, j: int|
        0 <= i < j < links.len() ==> !(links[i].chain_name == links[j].chain_name && links[i].ts
            == links[j].ts)
}

/// When no link carries the pair, saving appends.
pub proof fn lemma_lset_is_push(links: Seq<ChainLinkModel>, l: ChainLinkModel)
    requires
        forall|i: int|
            0 <= i < links.len() ==> !((#[trigger] links[i]).chain_name == l.chain_name
                && links[i].ts == l.ts),
    ensures
        lset(links, l) == links.push(l),
    decreases links.len(),
{
    if links.len() == 0 {
        assert(lset(links, l) =~= links.push(l));
    } else {
        assert(forall|i: int|
            0 <= i < links.drop_first().len() ==> (#[trigger] links.drop_first()[i]) == links[i
                + 1]);
        lemma_lset_is_push(links.drop_first(), l);
        assert(lset(links, l) =~= links.push(l));
    }
}

/// When link `i` carries the pair and pairs are distinct, saving updates
/// exactly that link.
pub proof fn lemma_lset_is_update(links: Seq<ChainLinkModel>, l: ChainLinkModel, i: int)
    requires
        ldistinct(links),
        0 <= i < links.len(),
        links[i].chain_name == l.chain_name,
        links[i].ts == l.ts,
    ensures
        lset(links, l) == links.update(i, l),
    decreases links.len(),
{
    if i == 0 {
        assert(lset(links, l) =~= links.update(0, l));
    } else {
        assert(!(links[0].chain_name == l.chain_name && links[0].ts == l.ts));
        assert(forall|i2: int, j2: int|
            0 <= i2 < j2 < links.drop_first().len() ==> !((#[trigger] links.drop_first()[i2]).chain_name
                == (#[trigger] links.drop_first()[j2]).chain_name && links.drop_first()[i2].ts
                == links.drop_first()[j2].ts)) by {
            assert(forall|k: int|
                0 <= k < links.drop_first().len() ==> (#[trigger] links.drop_first()[k]) == links[k
                    + 1]);
        }
        assert(links.drop_first()[i - 1] == links[i]);
        lemma_lset_is_update(links.drop_first(), l, i - 1);
        assert(lset(links, l) =~= links.update(i, l));
    }
}

/// Saving a link stores it under (chain name, timestamp) and indexes its
/// chain name.
pub open spec fn m_save_chain_link(m: StoreModel, l: ChainLinkModel) -> StoreModel {
    StoreModel {
        chain_links: lset(m.chain_links, l),
        chain_names: if m.chain_names.contains(l.chain_name) {
            m.chain_names
        } else {
            m.chain_names.push(l.chain_name)
        },
        ..m
    }
}

/// The key a saved link is stored under.
pub open spec fn chain_key(name: Seq<char>, ts: int) -> Seq<char> {
    "chains:"@ + name + ":"@ + text::spec_dec_i64(ts)
}

/// The links of one chain, in append order.
pub open spec fn links_of(links: Seq<ChainLinkModel>, name: Seq<char>) -> Seq<ChainLinkModel>
    decreases links.len(),
{
    if links.len() == 0 {
        Seq::empty()
    } else {
        let rest = links_of(links.drop_last(), name);
        if links.last().chain_name == name {
            rest.push(links.last())
        } else {
            rest
        }
    }
}

/// The links whose chain is not `name`, in append order.
pub open spec fn links_except(links: Seq<ChainLinkModel>, name: Seq<char>) -> Seq<ChainLinkModel>
    decreases links.len(),
{
    if links.len() == 0 {
        Seq::empty()
    } else {
        let rest = links_except(links.drop_last(), name);
        if links.last().chain_name != name {
            rest.push(links.last())
        } else {
            rest
        }
    }
}

/// Every link kept by `links_except` is a link of the original sequence,
/// its chain is not `name`, and pair-distinctness survives; a link of any
/// other chain survives.
pub proof fn lemma_links_except(links: Seq<ChainLinkModel>, name: Seq<char>)
    requires
        ldistinct(links),
    ensures
        ldistinct(links_except(links, name)),
        forall|i: int|
            0 <= i < links_except(links, name).len() ==> (#[trigger] links_except(links, name)[i]).chain_name
                != name && links.contains(links_except(links, name)[i]),
        forall|j: int|
            0 <= j < links.len() && (#[trigger] links[j]).chain_name != name ==> links_except(
                links,
                name,
            ).contains(links[j]),
    decreases links.len(),
{
    if links.len() > 0 {
        let pre = links.drop_last();
        assert(ldistinct(pre));
        lemma_links_except(pre, name);
        let le = links_except(links, name);
        let lp = links_except(pre, name);
        assert(forall|i: int| 0 <= i < pre.len() ==> #[trigger] links[i] == pre[i]);
        assert forall|i: int| 0 <= i < le.len() implies (#[trigger] le[i]).chain_name != name
            && links.contains(le[i]) by {
            if links.last().chain_name != name && i == le.len() - 1 {
                assert(le[i] == links.last());
                assert(links[links.len() - 1] == links.last());
            } else {
                assert(le[i] == lp[i]);
                assert(pre.contains(lp[i]));
                let j = choose|j: int| 0 <= j < pre.len() && pre[j] == lp[i];
                assert(links[j] == lp[i]);
            }
        }
        assert forall|j: int|
            0 <= j < links.len() && (#[trigger] links[j]).chain_name != name implies le.contains(
            links[j],
        ) by {
            if j == links.len() - 1 {
                assert(le[le.len() - 1] == links.last());
            } else {
                assert(pre[j] == links[j]);
                assert(lp.contains(links[j]));
                let k = choose|k: int| 0 <= k < lp.len() && lp[k] == links[j];
                assert(le[k] == links[j]);
            }
        }
        assert(ldistinct(le)) by {
            if links.last().chain_name != name {
                assert forall|i: int, j: int| 0 <= i < j < le.len() implies !(le[i].chain_name
                    == le[j].chain_name && le[i].ts == le[j].ts) by {
                    if j == le.len() - 1 {
                        assert(le[j] == links.last());
                        assert(pre.contains(le[i]));
                        let k = choose|k: int| 0 <= k < pre.len() && pre[k] == le[i];
                        assert(links[k] == le[i]);
                        assert(!(links[k].chain_name == links[links.len() - 1].chain_name
                            && links[k].ts == links[links.len() - 1].ts));
                    } else {
                        assert(le[i] == lp[i] && le[j] == lp[j]);
                    }
                }
            }
        }
    }
}

/// Deleting a chain drops every link of it and its name from the index.
pub open spec fn m_delete_chain(m: StoreModel, name: Seq<char>) -> StoreModel {
    StoreModel {
        chain_links: links_except(m.chain_links, name),
        chain_names: remove_first(m.chain_names, name),
        ..m
    }
}

/// The links reordered newest first: a stable sort on the timestamp.
pub open spec fn order_by_ts_desc(ls: Seq<ChainLinkModel>) -> Seq<ChainLinkModel> {
    let pairs = Seq::new(ls.len(), |i: int| (i as usize, ls[i].ts as i64));
    let sorted = crate::sort::sort_desc(pairs);
    Seq::new(sorted.len(), |i: int| ls[sorted[i].0 as int])
}

/// The first link, in the given order, whose slug or decimal timestamp
/// equals `ident`.
pub open spec fn link_matches(l: ChainLinkModel, ident: Seq<char>) -> bool {
    l.slug == ident || text::spec_dec_i64(l.ts) == ident
}

pub open spec fn first_link_match(ls: Seq<ChainLinkModel>, ident: Seq<char>) -> Option<
    ChainLinkModel,
>
    decreases ls.len(),
{
    if ls.len() == 0 {
        None
    } else if link_matches(ls[0], ident) {
        Some(ls[0])
    } else {
        first_link_match(ls.drop_first(), ident)
    }
}

pub proof fn lemma_first_link_match_at(ls: Seq<ChainLinkModel>, ident: Seq<char>, i: int)
    requires
        0 <= i < ls.len(),
        link_matches(ls[i], ident),
        forall|j: int| 0 <= j < i ==> !link_matches(#[trigger] ls[j], ident),
    ensures
        first_link_match(ls, ident) == Some(ls[i]),
    decreases i,
{
    if i > 0 {
        assert(forall|j: int|
            0 <= j < i - 1 ==> !link_matches(#[trigger] ls.drop_first()[j], ident)) by {
            assert(forall|j: int|
                0 <= j < ls.drop_first().len() ==> (#[trigger] ls.drop_first()[j]) == ls[j + 1]);
        }
        assert(ls.drop_first()[i - 1] == ls[i]);
        lemma_first_link_match_at(ls.drop_first(), ident, i - 1);
    }
}

proof fn lemma_first_link_match_none(ls: Seq<ChainLinkModel>, ident: Seq<char>)
    requires
        forall|j: int| 0 <= j < ls.len() ==> !link_matches(#[trigger] ls[j], ident),
    ensures
        first_link_match(ls, ident) is None,
    decreases ls.len(),
{
    if ls.len() > 0 {
        assert(forall|j: int|
            0 <= j < ls.drop_first().len() ==> (#[trigger] ls.drop_first()[j]) == ls[j + 1]);
        lemma_first_link_match_none(ls.drop_first(), ident);
    }
}

/// A change that touches only the chain fields, keeping the name index
/// duplicate-free, every link's name indexed, every indexed name carried
/// by a link, and (name, timestamp) pairs distinct, preserves the
/// invariant.
pub proof fn lemma_swf_chains(m1: StoreModel, m2: StoreModel)
    requires
        swf(m1),
        m2.sessions == m1.sessions,
        m2.active == m1.active,
        m2.history == m1.history,
        m2.active_tools == m1.active_tools,
        m2.claude_map == m1.claude_map,
        m2.pending == m1.pending,
        m2.answers == m1.answers,
        m2.memories == m1.memories,
        m2.artifacts == m1.artifacts,
        m2.artifact_texts == m1.artifact_texts,
        nodup(m2.chain_names),
        forall|i: int|
            0 <= i < m2.chain_links.len() ==> m2.chain_names.contains(
                (#[trigger] m2.chain_links[i]).chain_name,
            ),
        forall|i: int|
            0 <= i < m2.chain_names.len() ==> chain_has_link(
                m2.chain_links,
                #[trigger] m2.chain_names[i],
            ),
        ldistinct(m2.chain_links),
    ensures
        swf(m2),
{
    assert forall|i: int| 0 <= i < m2.sessions.len() implies #[trigger] session_entry_ok(
        m2,
        i,
    ) by {
        assert(session_entry_ok(m1, i));
    }
}

impl Store {
    /// Stores a checkpoint link under (chain name, timestamp), replacing a
    /// link saved at the same instant for the same chain, and indexes the
    /// chain's name. Returns the key the link is stored under.
    pub fn save_chain_link(&mut self, link: &ChainLink) -> (key: String)
        requires
            old(self).wf(),
        ensures
            final(self)@ == m_save_chain_link(old(self)@, link.deep_view()),
            key@ == chain_key(link.chain_name@, link.ts as int),
            final(self).wf(),
    {
        let ghost m0 = self@;
        let ghost lm = link.deep_view();
        // replace in place or append
        let mut at: Option<usize> = None;
        let mut i: usize = 0;
        while i < self.chain_links.len()
            invariant
                i <= self.chain_links@.len(),
                m0.chain_links == link_views(self.chain_links@),
                lm == link.deep_view(),
                match at {
                    Some(k) => k < i && m0.chain_links[k as int].chain_name == lm.chain_name
                        && m0.chain_links[k as int].ts == lm.ts && forall|j: int|
                        0 <= j < k ==> !((#[trigger] m0.chain_links[j]).chain_name == lm.chain_name
                            && m0.chain_links[j].ts == lm.ts),
                    None => forall|j: int|
                        0 <= j < i ==> !((#[trigger] m0.chain_links[j]).chain_name == lm.chain_name
                            && m0.chain_links[j].ts == lm.ts),
                },
            decreases self.chain_links@.len() - i,
        {
            if at.is_none() {
                let p: &ChainLink = &self.chain_links[i];
                if text::str_eq(p.chain_name.as_str(), link.chain_name.as_str()) && p.ts == link.ts
                {
                    at = Some(i);
                }
            }
            i += 1;
        }
        match at {
            Some(k) => {
                self.chain_links.remove(k);
                self.chain_links.insert(k, clone_link(link));
                proof {
                    lemma_lset_is_update(m0.chain_links, lm, k as int);
                    assert(link_views(self.chain_links@) =~= m0.chain_links.update(k as int, lm));
                }
            },
            None => {
                self.chain_links.push(clone_link(link));
                proof {
                    lemma_lset_is_push(m0.chain_links, lm);
                    assert(link_views(self.chain_links@) =~= m0.chain_links.push(lm));
                }
            },
        }
        // index the chain name
        let ghost names0 = m0.chain_names;
        match find_str(&self.chain_names, link.chain_name.as_str()) {
            Some(ni) => {
                proof {
                    assert(names0[ni as int] == lm.chain_name);
                    assert(names0.contains(lm.chain_name));
                }
            },
            None => {
                proof {
                    if names0.contains(lm.chain_name) {
                        let j = choose|j: int|
                            0 <= j < names0.len() && names0[j] == lm.chain_name;
                        assert(self.chain_names@[j]@ == lm.chain_name);
                        assert(false);
                    }
                    lemma_push_nodup(names0, lm.chain_name);
                }
                self.chain_names.push(clone_string(&link.chain_name));
                proof {
                    assert(str_views(self.chain_names@) =~= names0.push(lm.chain_name));
                }
            },
        }
        proof {
            let m2 = m_save_chain_link(m0, lm);
            assert(self@ =~= m2);
            // invariant: the new link is indexed; every old name keeps a link
            assert forall|i2: int|
                0 <= i2 < m2.chain_links.len() implies m2.chain_names.contains(
                (#[trigger] m2.chain_links[i2]).chain_name,
            ) by {
                if m2.chain_links[i2] != lm {
                    assert(m0.chain_links.contains(m2.chain_links[i2])) by {
                        if m0.chain_links.contains(m2.chain_links[i2]) {
                        } else {
                            assert(false) by {
                                let e = m2.chain_links[i2];
                                assert(exists|j: int|
                                    0 <= j < m0.chain_links.len() && m0.chain_links[j] == e) by {
                                    if i2 < m0.chain_links.len() {
                                        assert(m0.chain_links[i2] == e || e == lm);
                                    }
                                }
                            }
                        }
                    }
                    let j = choose|j: int|
                        0 <= j < m0.chain_links.len() && m0.chain_links[j] == m2.chain_links[i2];
                    assert(m0.chain_names.contains(m0.chain_links[j].chain_name));
                    let k = choose|k: int|
                        0 <= k < m0.chain_names.len() && m0.chain_names[k] == m0.chain_links[j].chain_name;
                    assert(m2.chain_names[k] == m0.chain_names[k]);
                } else {
                    if names0.contains(lm.chain_name) {
                        let k = choose|k: int|
                            0 <= k < names0.len() && names0[k] == lm.chain_name;
                        assert(m2.chain_names[k] == lm.chain_name);
                    } else {
                        assert(m2.chain_names[names0.len() as int] == lm.chain_name);
                    }
                }
            }
            assert forall|i2: int| 0 <= i2 < m2.chain_names.len() implies chain_has_link(
                m2.chain_links,
                #[trigger] m2.chain_names[i2],
            ) by {
                let nm = m2.chain_names[i2];
                if nm == lm.chain_name {
                    assert(exists|j: int|
                        0 <= j < m2.chain_links.len() && (#[trigger] m2.chain_links[j]).chain_name
                            == nm) by {
                        if m0.chain_names.contains(lm.chain_name) {
                            // updated or pushed entry carries the name
                            if exists|k: int|
                                0 <= k < m0.chain_links.len()
                                    && (#[trigger] m0.chain_links[k]).chain_name == lm.chain_name
                                    && m0.chain_links[k].ts == lm.ts {
                                let k = choose|k: int|
                                    0 <= k < m0.chain_links.len()
                                        && (#[trigger] m0.chain_links[k]).chain_name
                                        == lm.chain_name && m0.chain_links[k].ts == lm.ts;
                                assert(m2.chain_links[k] == lm);
                            } else {
                                lemma_lset_is_push(m0.chain_links, lm);
                                assert(m2.chain_links[m0.chain_links.len() as int] == lm);
                            }
                        } else {
                            if exists|k: int|
                                0 <= k < m0.chain_links.len()
                                    && (#[trigger] m0.chain_links[k]).chain_name == lm.chain_name
                                    && m0.chain_links[k].ts == lm.ts {
                                let k = choose|k: int|
                                    0 <= k < m0.chain_links.len()
                                        && (#[trigger] m0.chain_links[k]).chain_name
                                        == lm.chain_name && m0.chain_links[k].ts == lm.ts;
                                assert(m2.chain_links[k] == lm);
                            } else {
                                lemma_lset_is_push(m0.chain_links, lm);
                                assert(m2.chain_links[m0.chain_links.len() as int] == lm);
                            }
                        }
                    }
                } else {
                    assert(m0.chain_names.contains(nm)) by {
                        if i2 < names0.len() {
                            assert(names0[i2] == nm);
                        }
                    }
                    assert(chain_has_link(m0.chain_links, nm));
                    let j = choose|j: int|
                        0 <= j < m0.chain_links.len() && (#[trigger] m0.chain_links[j]).chain_name
                            == nm;
                    // entry j survives or is replaced by a link of the same name
                    if m0.chain_links[j].chain_name == lm.chain_name && m0.chain_links[j].ts
                        == lm.ts {
                        assert(nm == lm.chain_name);
                    } else {
                        assert(exists|k: int|
                            0 <= k < m2.chain_links.len()
                                && (#[trigger] m2.chain_links[k]).chain_name == nm) by {
                            if exists|k: int|
                                0 <= k < m0.chain_links.len()
                                    && (#[trigger] m0.chain_links[k]).chain_name == lm.chain_name
                                    && m0.chain_links[k].ts == lm.ts {
                                let k = choose|k: int|
                                    0 <= k < m0.chain_links.len()
                                        && (#[trigger] m0.chain_links[k]).chain_name
                                        == lm.chain_name && m0.chain_links[k].ts == lm.ts;
                                lemma_lset_is_update(m0.chain_links, lm, k);
                                assert(k != j);
                                assert(m2.chain_links[j] == m0.chain_links[j]);
                            } else {
                                lemma_lset_is_push(m0.chain_links, lm);
                                assert(m2.chain_links[j] == m0.chain_links[j]);
                            }
                        }
                    }
                }
            }
            assert(ldistinct(m2.chain_links)) by {
                if exists|k: int|
                    0 <= k < m0.chain_links.len() && (#[trigger] m0.chain_links[k]).chain_name
                        == lm.chain_name && m0.chain_links[k].ts == lm.ts {
                    let k = choose|k: int|
                        0 <= k < m0.chain_links.len() && (#[trigger] m0.chain_links[k]).chain_name
                            == lm.chain_name && m0.chain_links[k].ts == lm.ts;
                    lemma_lset_is_update(m0.chain_links, lm, k);
                } else {
                    lemma_lset_is_push(m0.chain_links, lm);
                }
            }
            assert(nodup(m2.chain_names));
            lemma_swf_chains(m0, m2);
        }
        // the storage key
        let mut key = ("chains:").to_owned();
        key.append(link.chain_name.as_str());
        key.append(":");
        let ts = text::i64_to_string(link.ts);
        key.append(ts.as_str());
        key
    }

    /// The names of all chains, in index order.
    pub fn list_chain_names(&self) -> (r: Vec<String>)
        ensures
            str_views(r@) == self@.chain_names,
    {
        let mut r: Vec<String> = Vec::new();
        let mut i: usize = 0;
        while i < self.chain_names.len()
            invariant
                i <= self.chain_names@.len(),
                r@.len() == i,
                str_views(r@) == str_views(self.chain_names@).take(i as int),
            decreases self.chain_names@.len() - i,
        {
            r.push(clone_string(&self.chain_names[i]));
            proof {
                assert(str_views(r@) =~= str_views(self.chain_names@).take(i as int + 1));
            }
            i += 1;
        }
        proof {
            assert(str_views(self.chain_names@).take(self.chain_names@.len() as int) =~= str_views(
                self.chain_names@,
            ));
        }
        r
    }

    /// The links of `chain_name`, newest first.
    pub fn get_chain_links(&self, chain_name: &str) -> (r: Vec<ChainLink>)
        ensures
            link_views(r@) == order_by_ts_desc(links_of(self@.chain_links, chain_name@)),
            forall|i: int, j: int|
                0 <= i < j < r@.len() ==> link_views(r@)[i].ts >= link_views(r@)[j].ts,
    {
        let ghost all = self@.chain_links;
        // collect the chain's links in append order
        let mut cs: Vec<ChainLink> = Vec::new();
        let mut i: usize = 0;
        proof {
            assert(link_views(cs@) =~= links_of(all.take(0), chain_name@));
            assert(all.take(0) =~= Seq::<ChainLinkModel>::empty());
        }
        while i < self.chain_links.len()
            invariant
                i <= self.chain_links@.len(),
                all == self@.chain_links,
                all.len() == self.chain_links@.len(),
                cs@.len() == links_of(all.take(i as int), chain_name@).len(),
                link_views(cs@) == links_of(all.take(i as int), chain_name@),
            decreases self.chain_links@.len() - i,
        {
            proof {
                assert(all.take(i as int + 1).drop_last() =~= all.take(i as int));
                assert(all.take(i as int + 1).last() == all[i as int]);
            }
            let p: &ChainLink = &self.chain_links[i];
            if text::str_eq(p.chain_name.as_str(), chain_name) {
                let ghost prev = link_views(cs@);
                cs.push(clone_link(p));
                proof {
                    assert(link_views(cs@) =~= prev.push(all[i as int]));
                }
            }
            i += 1;
        }
        proof {
            assert(all.take(all.len() as int) =~= all);
        }
        let ghost ls = links_of(all, chain_name@);
        // order newest first
        let mut pairs: Vec<(usize, i64)> = Vec::new();
        let mut j: usize = 0;
        proof {
            assert(pairs@ =~= Seq::new(0, |i: int| (i as usize, ls[i].ts as i64)).take(0));
        }
        while j < cs.len()
            invariant
                j <= cs@.len(),
                link_views(cs@) == ls,
                ls.len() == cs@.len(),
                pairs@.len() == j,
                pairs@ == Seq::new(ls.len(), |i: int| (i as usize, ls[i].ts as i64)).take(j as int),
            decreases cs@.len() - j,
        {
            let p: &ChainLink = &cs[j];
            pairs.push((j, p.ts));
            proof {
                assert(pairs@ =~= Seq::new(ls.len(), |i: int| (i as usize, ls[i].ts as i64)).take(
                    j as int + 1,
                ));
            }
            j += 1;
        }
        let ghost allpairs = Seq::new(ls.len(), |i: int| (i as usize, ls[i].ts as i64));
        proof {
            assert(allpairs.take(ls.len() as int) =~= allpairs);
        }
        let sorted = crate::sort::sort_pairs_desc(&pairs);
        let mut r: Vec<ChainLink> = Vec::new();
        let mut k: usize = 0;
        proof {
            crate::sort::lemma_sort_desc_sorted(allpairs);
            assert(link_views(r@) =~= order_by_ts_desc(ls).take(0));
        }
        while k < sorted.len()
            invariant
                k <= sorted@.len(),
                link_views(cs@) == ls,
                ls.len() == cs@.len(),
                sorted@ == crate::sort::sort_desc(allpairs),
                allpairs == Seq::new(ls.len(), |i: int| (i as usize, ls[i].ts as i64)),
                sorted@.len() == ls.len(),
                r@.len() == k,
                order_by_ts_desc(ls).len() == ls.len(),
                link_views(r@) == order_by_ts_desc(ls).take(k as int),
            decreases sorted@.len() - k,
        {
            proof {
                crate::sort::lemma_sort_desc_member(allpairs, k as int);
                let w = choose|w: int|
                    0 <= w < allpairs.len() && #[trigger] allpairs[w] == sorted@[k as int];
                assert(allpairs[w].0 == w as usize);
            }
            let p: (usize, i64) = sorted[k];
            let ghost prev = link_views(r@);
            r.push(clone_link(&cs[p.0]));
            proof {
                assert(link_views(r@) =~= prev.push(ls[p.0 as int]));
                assert(order_by_ts_desc(ls).take(k as int + 1) =~= order_by_ts_desc(ls).take(
                    k as int,
                ).push(ls[sorted@[k as int].0 as int]));
            }
            k += 1;
        }
        proof {
            assert(order_by_ts_desc(ls).take(sorted@.len() as int) =~= order_by_ts_desc(ls));
            assert forall|a: int, b: int| 0 <= a < b < r@.len() implies link_views(r@)[a].ts
                >= link_views(r@)[b].ts by {
                crate::sort::lemma_sort_desc_member(allpairs, a);
                crate::sort::lemma_sort_desc_member(allpairs, b);
                let wa = choose|w: int|
                    0 <= w < allpairs.len() && #[trigger] allpairs[w] == sorted@[a];
                let wb = choose|w: int|
                    0 <= w < allpairs.len() && #[trigger] allpairs[w] == sorted@[b];
                assert(sorted@[a].1 >= sorted@[b].1);
                assert(link_views(r@)[a] == ls[sorted@[a].0 as int]);
                assert(ls[wa].ts as i64 == sorted@[a].1);
            }
        }
        r
    }

    /// Every chain with its link count, in index order.
    pub fn list_chains(&self) -> (r: Vec<(String, usize)>)
        ensures
            r@.len() == self@.chain_names.len(),
            forall|i: int|
                0 <= i < r@.len() ==> (#[trigger] r@[i]).0@ == self@.chain_names[i] && r@[i].1
                    == links_of(self@.chain_links, self@.chain_names[i]).len(),
    {
        let ghost all = self@.chain_links;
        let mut r: Vec<(String, usize)> = Vec::new();
        let mut i: usize = 0;
        while i < self.chain_names.len()
            invariant
                i <= self.chain_names@.len(),
                all == self@.chain_links,
                r@.len() == i,
                forall|k: int|
                    0 <= k < i ==> (#[trigger] r@[k]).0@ == self@.chain_names[k] && r@[k].1
                        == links_of(all, self@.chain_names[k]).len(),
            decreases self.chain_names@.len() - i,
        {
            let name = clone_string(&self.chain_names[i]);
            // count this chain's links
            let mut cnt: usize = 0;
            let mut j: usize = 0;
            proof {
                assert(all.take(0) =~= Seq::<ChainLinkModel>::empty());
            }
            while j < self.chain_links.len()
                invariant
                    j <= self.chain_links@.len(),
                    all == self@.chain_links,
                    all.len() == self.chain_links@.len(),
                    name@ == self@.chain_names[i as int],
                    i < self.chain_names@.len(),
                    cnt as int == links_of(all.take(j as int), name@).len(),
                    cnt <= j,
                decreases self.chain_links@.len() - j,
            {
                proof {
                    assert(all.take(j as int + 1).drop_last() =~= all.take(j as int));
                    assert(all.take(j as int + 1).last() == all[j as int]);
                }
                let p: &ChainLink = &self.chain_links[j];
                if text::str_eq(p.chain_name.as_str(), name.as_str()) {
                    cnt += 1;
                }
                j += 1;
            }
            proof {
                assert(all.take(all.len() as int) =~= all);
            }
            r.push((name, cnt));
            i += 1;
        }
        r
    }

    /// Removes a chain: all its links and its entry in the name index, as
    /// one step.
    pub fn delete_chain(&mut self, chain_name: &str)
        requires
            old(self).wf(),
        ensures
            final(self)@ == m_delete_chain(old(self)@, chain_name@),
            final(self).wf(),
    {
        let ghost m0 = self@;
        let mut kept: Vec<ChainLink> = Vec::new();
        let mut i: usize = 0;
        proof {
            assert(link_views(kept@) =~= links_except(m0.chain_links.take(0), chain_name@));
            assert(m0.chain_links.take(0) =~= Seq::<ChainLinkModel>::empty());
        }
        while i < self.chain_links.len()
            invariant
                i <= self.chain_links@.len(),
                m0.chain_links == link_views(self.chain_links@),
                m0.chain_links.len() == self.chain_links@.len(),
                link_views(kept@) == links_except(m0.chain_links.take(i as int), chain_name@),
            decreases self.chain_links@.len() - i,
        {
            proof {
                assert(m0.chain_links.take(i as int + 1).drop_last() =~= m0.chain_links.take(
                    i as int,
                ));
                assert(m0.chain_links.take(i as int + 1).last() == m0.chain_links[i as int]);
            }
            let p: &ChainLink = &self.chain_links[i];
            if !text::str_eq(p.chain_name.as_str(), chain_name) {
                let ghost prev = link_views(kept@);
                kept.push(clone_link(p));
                proof {
                    assert(link_views(kept@) =~= prev.push(m0.chain_links[i as int]));
                }
            }
            i += 1;
        }
        proof {
            assert(m0.chain_links.take(m0.chain_links.len() as int) =~= m0.chain_links);
        }
        self.chain_links = kept;
        let ghost names0 = m0.chain_names;
        match find_str(&self.chain_names, chain_name) {
            Some(ni) => {
                let ghost n0 = str_views(self.chain_names@);
                self.chain_names.remove(ni);
                proof {
                    lemma_remove_first_at(n0, chain_name@, ni as int);
                    assert(str_views(self.chain_names@) =~= n0.remove(ni as int));
                    lemma_remove_nodup(n0, ni as int);
                }
            },
            None => {
                proof {
                    lemma_remove_first_absent(names0, chain_name@);
                }
            },
        }
        proof {
            let m2 = m_delete_chain(m0, chain_name@);
            assert(self@ =~= m2);
            lemma_links_except(m0.chain_links, chain_name@);
            assert forall|i2: int|
                0 <= i2 < m2.chain_links.len() implies m2.chain_names.contains(
                (#[trigger] m2.chain_links[i2]).chain_name,
            ) by {
                let e = m2.chain_links[i2];
                assert(m0.chain_links.contains(e) && e.chain_name != chain_name@);
                let j = choose|j: int| 0 <= j < m0.chain_links.len() && m0.chain_links[j] == e;
                assert(m0.chain_names.contains(e.chain_name));
                if names0.contains(chain_name@) {
                    let ni = choose|k: int| 0 <= k < names0.len() && names0[k] == chain_name@;
                    assert(forall|k: int| 0 <= k < ni ==> names0[k] != chain_name@);
                    lemma_remove_first_at(names0, chain_name@, ni);
                    lemma_remove_nodup(names0, ni);
                    assert(names0[ni] == chain_name@);
                    assert(m2.chain_names.contains(e.chain_name));
                } else {
                    lemma_remove_first_absent(names0, chain_name@);
                }
            }
            assert forall|i2: int| 0 <= i2 < m2.chain_names.len() implies chain_has_link(
                m2.chain_links,
                #[trigger] m2.chain_names[i2],
            ) by {
                let nm = m2.chain_names[i2];
                assert(names0.contains(nm) && nm != chain_name@) by {
                    if names0.contains(chain_name@) {
                        let ni = choose|k: int| 0 <= k < names0.len() && names0[k] == chain_name@;
                        assert(forall|k: int| 0 <= k < ni ==> names0[k] != chain_name@);
                        lemma_remove_first_at(names0, chain_name@, ni);
                        lemma_remove_nodup(names0, ni);
                        assert(m2.chain_names.contains(nm));
                        let w = choose|w: int|
                            0 <= w < m2.chain_names.len() && m2.chain_names[w] == nm;
                        assert(names0.remove(ni).contains(nm));
                    } else {
                        lemma_remove_first_absent(names0, chain_name@);
                    }
                }
                assert(chain_has_link(m0.chain_links, nm));
                let j = choose|j: int|
                    0 <= j < m0.chain_links.len() && (#[trigger] m0.chain_links[j]).chain_name
                        == nm;
                assert(m2.chain_links.contains(m0.chain_links[j]));
                let k = choose|k: int|
                    0 <= k < m2.chain_links.len() && m2.chain_links[k] == m0.chain_links[j];
            }
            assert(nodup(m2.chain_names)) by {
                if names0.contains(chain_name@) {
                    let ni = choose|k: int| 0 <= k < names0.len() && names0[k] == chain_name@;
                    assert(forall|k: int| 0 <= k < ni ==> names0[k] != chain_name@);
                    lemma_remove_first_at(names0, chain_name@, ni);
                    lemma_remove_nodup(names0, ni);
                } else {
                    lemma_remove_first_absent(names0, chain_name@);
                }
            }
            lemma_swf_chains(m0, m2);
        }
    }

    /// The newest link of `chain_name` whose slug — or, failing that,
    /// whose decimal timestamp — equals `identifier`.
    pub fn get_chain_link(&self, chain_name: &str, identifier: &str) -> (r: Option<ChainLink>)
        ensures
            match r {
                Some(l) => first_link_match(
                    order_by_ts_desc(links_of(self@.chain_links, chain_name@)),
                    identifier@,
                ) == Some(l.deep_view()),
                None => first_link_match(
                    order_by_ts_desc(links_of(self@.chain_links, chain_name@)),
                    identifier@,
                ) is None,
            },
    {
        let links = self.get_chain_links(chain_name);
        let ghost ls = link_views(links@);
        let mut i: usize = 0;
        while i < links.len()
            invariant
                i <= links@.len(),
                ls == link_views(links@),
                ls.len() == links@.len(),
                ls == order_by_ts_desc(links_of(self@.chain_links, chain_name@)),
                forall|j: int| 0 <= j < i ==> !link_matches(#[trigger] ls[j], identifier@),
            decreases links@.len() - i,
        {
            let p: &ChainLink = &links[i];
            let ts_str = text::i64_to_string(p.ts);
            let hit = text::str_eq(p.slug.as_str(), identifier) || text::str_eq(
                ts_str.as_str(),
                identifier,
            );
            proof {
                assert(ls[i as int] == links@[i as int].deep_view());
                assert(hit == link_matches(ls[i as int], identifier@));
            }
            if hit {
                proof {
                    lemma_first_link_match_at(ls, identifier@, i as int);
                }
                return Some(clone_link(p));
            }
            i += 1;
        }
        proof {
            lemma_first_link_match_none(ls, identifier@);
        }
        None
    }
}

// ---------------------------------------------------------------------------
// Memories and artifacts: transitions and helpers
// ---------------------------------------------------------------------------

/// Saving a memory binds it under its key, overwriting an earlier note.
pub open spec fn m_save_memory(m: StoreModel, mem: MemoryModel) -> StoreModel {
    StoreModel { memories: aset(m.memories, mem.key, mem), ..m }
}

/// Deleting a memory removes its binding.
pub open spec fn m_delete_memory(m: StoreModel, key: Seq<char>) -> StoreModel {
    StoreModel { memories: aremove(m.memories, key), ..m }
}

/// Saving an artifact binds it under its id, overwriting an earlier record.
pub open spec fn m_save_artifact(m: StoreModel, a: ArtifactModel) -> StoreModel {
    StoreModel { artifacts: aset(m.artifacts, a.id, a), ..m }
}

/// Deleting an artifact removes its record and any cached text.
pub open spec fn m_delete_artifact(m: StoreModel, id: Seq<char>) -> StoreModel {
    StoreModel {
        artifacts: aremove(m.artifacts, id),
        artifact_texts: aremove(m.artifact_texts, id),
        ..m
    }
}

/// Caching extracted text for an artifact id; the cache lives beside the
/// record, independent of its existence.
pub open spec fn m_set_artifact_text(m: StoreModel, id: Seq<char>, t: Seq<char>) -> StoreModel {
    StoreModel { artifact_texts: aset(m.artifact_texts, id, t), ..m }
}

/// The keys of a keyed collection, in order.
pub open spec fn akeys<V>(m: Seq<(Seq<char>, V)>) -> Seq<Seq<char>> {
    Seq::new(m.len(), |i: int| m[i].0)
}

/// The values of a keyed collection, in order.
pub open spec fn avalues<V>(m: Seq<(Seq<char>, V)>) -> Seq<V> {
    Seq::new(m.len(), |i: int| m[i].1)
}

/// The models of a sequence of memories.
pub open spec fn memory_views(s: Seq<Memory>) -> Seq<MemoryModel> {
    Seq::new(s.len(), |i: int| s[i].deep_view())
}

/// The models of a sequence of artifacts.
pub open spec fn artifact_views(s: Seq<Artifact>) -> Seq<ArtifactModel> {
    Seq::new(s.len(), |i: int| s[i].deep_view())
}

/// The artifacts reordered newest first: a stable sort on the timestamp.
pub open spec fn order_arts_by_ts_desc(ls: Seq<ArtifactModel>) -> Seq<ArtifactModel> {
    let pairs = Seq::new(ls.len(), |i: int| (i as usize, ls[i].ts as i64));
    let sorted = crate::sort::sort_desc(pairs);
    Seq::new(sorted.len(), |i: int| ls[sorted[i].0 as int])
}

/// A change that touches only memories, artifacts and cached texts,
/// keeping keys distinct and each record under its own key, preserves the
/// invariant.
pub proof fn lemma_swf_entities(m1: StoreModel, m2: StoreModel)
    requires
        swf(m1),
        m2.sessions == m1.sessions,
        m2.active == m1.active,
        m2.history == m1.history,
        m2.active_tools == m1.active_tools,
        m2.claude_map == m1.claude_map,
        m2.pending == m1.pending,
        m2.answers == m1.answers,
        m2.chain_names == m1.chain_names,
        m2.chain_links == m1.chain_links,
        adistinct(m2.memories),
        forall|i: int|
            0 <= i < m2.memories.len() ==> (#[trigger] m2.memories[i]).1.key == m2.memories[i].0,
        adistinct(m2.artifacts),
        forall|i: int|
            0 <= i < m2.artifacts.len() ==> (#[trigger] m2.artifacts[i]).1.id == m2.artifacts[i].0,
        adistinct(m2.artifact_texts),
    ensures
        swf(m2),
{
    assert forall|i: int| 0 <= i < m2.sessions.len() implies #[trigger] session_entry_ok(
        m2,
        i,
    ) by {
        assert(session_entry_ok(m1, i));
    }
}

impl Store {
    /// Saves a memory under its key; a second save with the same key
    /// overwrites the first — memories are not versioned.
    pub fn save_memory(&mut self, mem: &Memory)
        requires
            old(self).wf(),
        ensures
            final(self)@ == m_save_memory(old(self)@, mem.deep_view()),
            final(self).wf(),
    {
        let ghost m0 = self@;
        let ghost mv = mem.deep_view();
        kv_set(&mut self.memories, clone_string(&mem.key), clone_memory(mem));
        proof {
            let m2 = m_save_memory(m0, mv);
            assert(self@ =~= m2);
            assert forall|i: int|
                0 <= i < m2.memories.len() implies (#[trigger] m2.memories[i]).1.key
                == m2.memories[i].0 by {
                lemma_alookup_index(m0.memories, mv.key);
                if exists|k: int| 0 <= k < m0.memories.len() && (#[trigger] m0.memories[k]).0
                    == mv.key {
                    let k = choose|k: int|
                        0 <= k < m0.memories.len() && (#[trigger] m0.memories[k]).0 == mv.key;
                    lemma_aset_is_update(m0.memories, mv.key, mv, k);
                } else {
                    lemma_aset_is_push(m0.memories, mv.key, mv);
                }
            }
            lemma_swf_entities(m0, m2);
        }
    }

    /// The memory stored under `key`, if any.
    pub fn get_memory(&self, key: &str) -> (r: Option<Memory>)
        ensures
            match r {
                Some(mem) => alookup(self@.memories, key@) == Some(mem.deep_view()),
                None => alookup(self@.memories, key@) is None,
            },
    {
        match kv_get(&self.memories, key) {
            Some(mem) => Some(clone_memory(mem)),
            None => None,
        }
    }

    /// Removes the memory stored under `key`, if any.
    pub fn delete_memory(&mut self, key: &str)
        requires
            old(self).wf(),
        ensures
            final(self)@ == m_delete_memory(old(self)@, key@),
            final(self).wf(),
    {
        let ghost m0 = self@;
        kv_remove(&mut self.memories, key);
        proof {
            let m2 = m_delete_memory(m0, key@);
            assert(self@ =~= m2);
            assert forall|i: int|
                0 <= i < m2.memories.len() implies (#[trigger] m2.memories[i]).1.key
                == m2.memories[i].0 by {
                lemma_alookup_index(m0.memories, key@);
                if exists|k: int| 0 <= k < m0.memories.len() && (#[trigger] m0.memories[k]).0
                    == key@ {
                    let k = choose|k: int|
                        0 <= k < m0.memories.len() && (#[trigger] m0.memories[k]).0 == key@;
                    lemma_aremove_is_remove(m0.memories, key@, k);
                    assert(m2.memories[i] == if i < k {
                        m0.memories[i]
                    } else {
                        m0.memories[i + 1]
                    });
                } else {
                    lemma_aremove_absent(m0.memories, key@);
                }
            }
            lemma_swf_entities(m0, m2);
        }
    }

    /// The keys of all memories, in storage order.
    pub fn list_memory_keys(&self) -> (r: Vec<String>)
        ensures
            str_views(r@) == akeys(self@.memories),
    {
        let mut r: Vec<String> = Vec::new();
        let mut i: usize = 0;
        while i < self.memories.len()
            invariant
                i <= self.memories@.len(),
                r@.len() == i,
                str_views(r@) == akeys(dview(self.memories@)).take(i as int),
            decreases self.memories@.len() - i,
        {
            let p: &(String, Memory) = &self.memories[i];
            r.push(clone_string(&p.0));
            proof {
                assert(str_views(r@) =~= akeys(dview(self.memories@)).take(i as int + 1));
            }
            i += 1;
        }
        proof {
            assert(akeys(dview(self.memories@)).take(self.memories@.len() as int) =~= akeys(
                dview(self.memories@),
            ));
        }
        r
    }

    /// Saves an artifact record under its id.
    pub fn save_artifact(&mut self, artifact: &Artifact)
        requires
            old(self).wf(),
        ensures
            final(self)@ == m_save_artifact(old(self)@, artifact.deep_view()),
            final(self).wf(),
    {
        let ghost m0 = self@;
        let ghost av = artifact.deep_view();
        kv_set(&mut self.artifacts, clone_string(&artifact.id), clone_artifact(artifact));
        proof {
            let m2 = m_save_artifact(m0, av);
            assert(self@ =~= m2);
            assert forall|i: int|
                0 <= i < m2.artifacts.len() implies (#[trigger] m2.artifacts[i]).1.id
                == m2.artifacts[i].0 by {
                lemma_alookup_index(m0.artifacts, av.id);
                if exists|k: int| 0 <= k < m0.artifacts.len() && (#[trigger] m0.artifacts[k]).0
                    == av.id {
                    let k = choose|k: int|
                        0 <= k < m0.artifacts.len() && (#[trigger] m0.artifacts[k]).0 == av.id;
                    lemma_aset_is_update(m0.artifacts, av.id, av, k);
                } else {
                    lemma_aset_is_push(m0.artifacts, av.id, av);
                }
            }
            lemma_swf_entities(m0, m2);
        }
    }

    /// The artifact stored under `id`, if any.
    pub fn get_artifact(&self, id: &str) -> (r: Option<Artifact>)
        ensures
            match r {
                Some(a) => alookup(self@.artifacts, id@) == Some(a.deep_view()),
                None => alookup(self@.artifacts, id@) is None,
            },
    {
        match kv_get(&self.artifacts, id) {
            Some(a) => Some(clone_artifact(a)),
            None => None,
        }
    }

    /// All artifacts, newest first.
    pub fn list_artifacts(&self) -> (r: Vec<Artifact>)
        ensures
            artifact_views(r@) == order_arts_by_ts_desc(avalues(self@.artifacts)),
            forall|i: int, j: int|
                0 <= i < j < r@.len() ==> artifact_views(r@)[i].ts >= artifact_views(r@)[j].ts,
    {
        let ghost ls = avalues(self@.artifacts);
        let mut cs: Vec<Artifact> = Vec::new();
        let mut i: usize = 0;
        while i < self.artifacts.len()
            invariant
                i <= self.artifacts@.len(),
                ls == avalues(dview(self.artifacts@)),
                ls.len() == self.artifacts@.len(),
                cs@.len() == i,
                artifact_views(cs@) == ls.take(i as int),
            decreases self.artifacts@.len() - i,
        {
            let p: &(String, Artifact) = &self.artifacts[i];
            cs.push(clone_artifact(&p.1));
            proof {
                assert(artifact_views(cs@) =~= ls.take(i as int + 1));
            }
            i += 1;
        }
        proof {
            assert(ls.take(ls.len() as int) =~= ls);
        }
        let mut pairs: Vec<(usize, i64)> = Vec::new();
        let mut j: usize = 0;
        proof {
            assert(pairs@ =~= Seq::new(ls.len(), |i: int| (i as usize, ls[i].ts as i64)).take(0));
        }
        while j < cs.len()
            invariant
                j <= cs@.len(),
                artifact_views(cs@) == ls,
                ls.len() == cs@.len(),
                pairs@.len() == j,
                pairs@ == Seq::new(ls.len(), |i: int| (i as usize, ls[i].ts as i64)).take(j as int),
            decreases cs@.len() - j,
        {
            let p: &Artifact = &cs[j];
            pairs.push((j, p.ts));
            proof {
                assert(pairs@ =~= Seq::new(ls.len(), |i: int| (i as usize, ls[i].ts as i64)).take(
                    j as int + 1,
                ));
            }
            j += 1;
        }
        let ghost allpairs = Seq::new(ls.len(), |i: int| (i as usize, ls[i].ts as i64));
        proof {
            assert(allpairs.take(ls.len() as int) =~= allpairs);
        }
        let sorted = crate::sort::sort_pairs_desc(&pairs);
        let mut r: Vec<Artifact> = Vec::new();
        let mut k: usize = 0;
        proof {
            crate::sort::lemma_sort_desc_sorted(allpairs);
            assert(artifact_views(r@) =~= order_arts_by_ts_desc(ls).take(0));
        }
        while k < sorted.len()
            invariant
                k <= sorted@.len(),
                artifact_views(cs@) == ls,
                ls.len() == cs@.len(),
                sorted@ == crate::sort::sort_desc(allpairs),
                allpairs == Seq::new(ls.len(), |i: int| (i as usize, ls[i].ts as i64)),
                sorted@.len() == ls.len(),
                r@.len() == k,
                order_arts_by_ts_desc(ls).len() == ls.len(),
                artifact_views(r@) == order_arts_by_ts_desc(ls).take(k as int),
            decreases sorted@.len() - k,
        {
            proof {
                crate::sort::lemma_sort_desc_member(allpairs, k as int);
                let w = choose|w: int|
                    0 <= w < allpairs.len() && #[trigger] allpairs[w] == sorted@[k as int];
                assert(allpairs[w].0 == w as usize);
            }
            let p: (usize, i64) = sorted[k];
            let ghost prev = artifact_views(r@);
            r.push(clone_artifact(&cs[p.0]));
            proof {
                assert(artifact_views(r@) =~= prev.push(ls[p.0 as int]));
                assert(order_arts_by_ts_desc(ls).take(k as int + 1) =~= order_arts_by_ts_desc(
                    ls,
                ).take(k as int).push(ls[sorted@[k as int].0 as int]));
            }
            k += 1;
        }
        proof {
            assert(order_arts_by_ts_desc(ls).take(sorted@.len() as int) =~= order_arts_by_ts_desc(
                ls,
            ));
            assert forall|a: int, b: int| 0 <= a < b < r@.len() implies artifact_views(r@)[a].ts
                >= artifact_views(r@)[b].ts by {
                crate::sort::lemma_sort_desc_member(allpairs, a);
                crate::sort::lemma_sort_desc_member(allpairs, b);
                let wa = choose|w: int|
                    0 <= w < allpairs.len() && #[trigger] allpairs[w] == sorted@[a];
                let wb = choose|w: int|
                    0 <= w < allpairs.len() && #[trigger] allpairs[w] == sorted@[b];
                assert(sorted@[a].1 >= sorted@[b].1);
                assert(artifact_views(r@)[a] == ls[sorted@[a].0 as int]);
                assert(ls[wa].ts as i64 == sorted@[a].1);
            }
        }
        r
    }

    /// Removes an artifact record and any cached text for it, as one step.
    pub fn delete_artifact(&mut self, id: &str)
        requires
            old(self).wf(),
        ensures
            final(self)@ == m_delete_artifact(old(self)@, id@),
            final(self).wf(),
    {
        let ghost m0 = self@;
        kv_remove(&mut self.artifacts, id);
        kv_remove(&mut self.artifact_texts, id);
        proof {
            let m2 = m_delete_artifact(m0, id@);
            assert(self@ =~= m2);
            assert forall|i: int|
                0 <= i < m2.artifacts.len() implies (#[trigger] m2.artifacts[i]).1.id
                == m2.artifacts[i].0 by {
                lemma_alookup_index(m0.artifacts, id@);
                if exists|k: int| 0 <= k < m0.artifacts.len() && (#[trigger] m0.artifacts[k]).0
                    == id@ {
                    let k = choose|k: int|
                        0 <= k < m0.artifacts.len() && (#[trigger] m0.artifacts[k]).0 == id@;
                    lemma_aremove_is_remove(m0.artifacts, id@, k);
                    assert(m2.artifacts[i] == if i < k {
                        m0.artifacts[i]
                    } else {
                        m0.artifacts[i + 1]
                    });
                } else {
                    lemma_aremove_absent(m0.artifacts, id@);
                }
            }
            lemma_swf_entities(m0, m2);
        }
    }

    /// Caches extracted text for an artifact id. The cache key lives
    /// beside the record: either can exist without the other.
    pub fn set_artifact_text(&mut self, id: &str, extracted: &str)
        requires
            old(self).wf(),
        ensures
            final(self)@ == m_set_artifact_text(old(self)@, id@, extracted@),
            final(self).wf(),
    {
        let ghost m0 = self@;
        kv_set(&mut self.artifact_texts, id.to_owned(), extracted.to_owned());
        proof {
            assert(self@ =~= m_set_artifact_text(m0, id@, extracted@));
            lemma_swf_entities(m0, self@);
        }
    }

    /// The cached extracted text for an artifact id, if any.
    pub fn get_artifact_text(&self, id: &str) -> (r: Option<String>)
        ensures
            match r {
                Some(t) => alookup(self@.artifact_texts, id@) == Some(t@),
                None => alookup(self@.artifact_texts, id@) is None,
            },
    {
        match kv_get(&self.artifact_texts, id) {
            Some(t) => Some(clone_string(t)),
            None => None,
        }
    }
}

// ---------------------------------------------------------------------------
// Ranked search over names and keys
// ---------------------------------------------------------------------------

/// Each name scored for a lowercased query: the caller-supplied fuzzy
/// similarity plus `bonus` when the lowercased name contains the query,
/// capped at 1000.
pub open spec fn scored_name_pairs(
    names: Seq<Seq<char>>,
    q_low: Seq<char>,
    sims: Seq<u32>,
    bonus: int,
) -> Seq<(usize, i64)> {
    Seq::new(
        names.len(),
        |i: int|
            (
                i as usize,
                crate::score::name_score_spec(
                    sims[i] as int,
                    text::spec_contains(text::lower_of(names[i]), q_low),
                    bonus,
                ) as i64,
            ),
    )
}

/// The name/score pairs of a search over `names`: scored, optionally held
/// to a floor, ranked descending (ties keep index order), first `limit`.
pub open spec fn ranked_names(
    names: Seq<Seq<char>>,
    q: Seq<char>,
    sims: Seq<u32>,
    bonus: int,
    floor: Option<i64>,
    limit: int,
) -> Seq<(Seq<char>, u32)> {
    let scored = scored_name_pairs(names, text::lower_of(q), sims, bonus);
    let kept = match floor {
        Some(f) => crate::sort::filter_above(scored, f),
        None => scored,
    };
    let sorted = crate::sort::sort_desc(kept);
    let taken = sorted.take(
        if limit <= sorted.len() {
            limit
        } else {
            sorted.len() as int
        },
    );
    Seq::new(taken.len(), |i: int| (names[taken[i].0 as int], taken[i].1 as u32))
}

/// Chain-name search: substring bonus 300, floor 400.
pub open spec fn m_search_chains(m: StoreModel, q: Seq<char>, sims: Seq<u32>, limit: int) -> Seq<
    (Seq<char>, u32),
> {
    ranked_names(m.chain_names, q, sims, 300, Some(400), limit)
}

/// Memory-key search: substring bonus 200, no floor.
pub open spec fn m_search_memory(m: StoreModel, q: Seq<char>, sims: Seq<u32>, limit: int) -> Seq<
    (Seq<char>, u32),
> {
    ranked_names(akeys(m.memories), q, sims, 200, None, limit)
}

/// The character sequences of scored name/score pairs.
pub open spec fn name_score_views(s: Seq<(String, u32)>) -> Seq<(Seq<char>, u32)> {
    Seq::new(s.len(), |i: int| (s[i].0@, s[i].1))
}


/// Where each scored pair carries its own index and a rank in 0..=1000,
/// every element of the ranked (optionally floored) ordering is one of the
/// scored pairs, found again through its index field.
proof fn lemma_sorted_elem(scored: Seq<(usize, i64)>, floor: Option<i64>, a: int)
    requires
        forall|w: int|
            0 <= w < scored.len() ==> (#[trigger] scored[w]).0 as int == w && 0 <= scored[w].1
                <= 1000,
        ({
            let kept = match floor {
                Some(f) => crate::sort::filter_above(scored, f),
                None => scored,
            };
            0 <= a < crate::sort::sort_desc(kept).len()
        }),
    ensures
        ({
            let kept = match floor {
                Some(f) => crate::sort::filter_above(scored, f),
                None => scored,
            };
            let sorted = crate::sort::sort_desc(kept);
            &&& 0 <= (sorted[a].0 as int) < scored.len()
            &&& sorted[a] == scored[sorted[a].0 as int]
            &&& 0 <= sorted[a].1 <= 1000
            &&& match floor {
                Some(f) => sorted[a].1 > f,
                None => true,
            }
        }),
{
    let kept = match floor {
        Some(f) => crate::sort::filter_above(scored, f),
        None => scored,
    };
    let sorted = crate::sort::sort_desc(kept);
    crate::sort::lemma_sort_desc_member(kept, a);
    let w = choose|w: int| 0 <= w < kept.len() && #[trigger] kept[w] == sorted[a];
    match floor {
        Some(f) => {
            crate::sort::lemma_filter_above_member(scored, f, w);
            let w2 = choose|w2: int| 0 <= w2 < scored.len() && #[trigger] scored[w2] == kept[w];
            assert(scored[w2].0 as int == w2);
        },
        None => {
            assert(scored[w].0 as int == w);
        },
    }
}

impl Store {
    /// The shared ranked-name search. `names` are scored against the
    /// query with the given substring bonus, held to `floor` when one is
    /// given, ranked descending and cut to `limit`.
    fn ranked_name_search(
        names: &Vec<String>,
        query: &str,
        sims: &Vec<u32>,
        bonus: u32,
        floor: Option<i64>,
        limit: usize,
    ) -> (r: Vec<(String, u32)>)
        requires
            sims@.len() == names@.len(),
            forall|i: int| 0 <= i < sims@.len() ==> sims@[i] <= 1000,
            bonus <= 1000,
        ensures
            name_score_views(r@) == ranked_names(
                str_views(names@),
                query@,
                sims@,
                bonus as int,
                floor,
                limit as int,
            ),
            r@.len() <= limit,
            forall|i: int, j: int| 0 <= i < j < r@.len() ==> (#[trigger] r@[i]).1 >= (#[trigger] r@[j]).1,
            match floor {
                Some(f) => forall|i: int| 0 <= i < r@.len() ==> (#[trigger] r@[i]).1 as i64 > f,
                None => true,
            },
    {
        let ghost nv = str_views(names@);
        let ghost scored = scored_name_pairs(nv, text::lower_of(query@), sims@, bonus as int);
        let q_low = text::lowercase(query);
        let qv = text::chars_vec(q_low.as_str());
        let mut pairs: Vec<(usize, i64)> = Vec::new();
        let mut i: usize = 0;
        proof {
            assert(scored.take(0) =~= Seq::<(usize, i64)>::empty());
            match floor {
                Some(f) => {
                    assert(pairs@ =~= crate::sort::filter_above(scored.take(0), f));
                },
                None => {
                    assert(pairs@ =~= scored.take(0));
                },
            }
        }
        while i < names.len()
            invariant
                i <= names@.len(),
                nv == str_views(names@),
                nv.len() == names@.len(),
                sims@.len() == names@.len(),
                forall|k: int| 0 <= k < sims@.len() ==> sims@[k] <= 1000,
                bonus <= 1000,
                qv@ == text::lower_of(query@),
                scored == scored_name_pairs(nv, text::lower_of(query@), sims@, bonus as int),
                pairs@ == match floor {
                    Some(f) => crate::sort::filter_above(scored.take(i as int), f),
                    None => scored.take(i as int),
                },
            decreases names@.len() - i,
        {
            let nm_low = text::lowercase(names[i].as_str());
            let nmv = text::chars_vec(nm_low.as_str());
            let has = text::contains_sub(&nmv, &qv);
            let sc = crate::score::name_score(sims[i], has, bonus);
            proof {
                assert(scored.take(i as int + 1).drop_last() =~= scored.take(i as int));
                assert(scored.take(i as int + 1).last() == scored[i as int]);
                assert(scored[i as int] == (i as usize, sc as i64));
            }
            let keep = match floor {
                Some(f) => sc as i64 > f,
                None => true,
            };
            if keep {
                pairs.push((i, sc as i64));
                proof {
                    match floor {
                        Some(f) => {
                            assert(pairs@ =~= crate::sort::filter_above(
                                scored.take(i as int + 1),
                                f,
                            ));
                        },
                        None => {
                            assert(pairs@ =~= scored.take(i as int + 1));
                        },
                    }
                }
            } else {
                proof {
                    match floor {
                        Some(f) => {
                            assert(pairs@ =~= crate::sort::filter_above(
                                scored.take(i as int + 1),
                                f,
                            ));
                        },
                        None => {},
                    }
                }
            }
            i += 1;
        }
        proof {
            assert(scored.take(nv.len() as int) =~= scored);
        }
        let ghost kept = match floor {
            Some(f) => crate::sort::filter_above(scored, f),
            None => scored,
        };
        let total = names.len();
        proof {
            assert(nv.len() == total as int);
            assert forall|w: int|
                0 <= w < scored.len() implies (#[trigger] scored[w]).0 as int == w && 0
                <= scored[w].1 <= 1000 by {
                assert(scored[w] == (
                    w as usize,
                    crate::score::name_score_spec(
                        sims@[w] as int,
                        text::spec_contains(text::lower_of(nv[w]), text::lower_of(query@)),
                        bonus as int,
                    ) as i64,
                ));
            }
        }
        let sorted = crate::sort::sort_pairs_desc(&pairs);
        proof {
            crate::sort::lemma_sort_desc_sorted(kept);
        }
        let n = if limit <= sorted.len() {
            limit
        } else {
            sorted.len()
        };
        let ghost target = ranked_names(nv, query@, sims@, bonus as int, floor, limit as int);
        let mut r: Vec<(String, u32)> = Vec::new();
        let mut k: usize = 0;
        proof {
            assert(name_score_views(r@) =~= target.take(0));
        }
        while k < n
            invariant
                k <= n <= sorted@.len(),
                nv == str_views(names@),
                nv.len() == names@.len(),
                sorted@ == crate::sort::sort_desc(kept),
                kept == (match floor {
                    Some(f) => crate::sort::filter_above(scored, f),
                    None => scored,
                }),
                scored == scored_name_pairs(nv, text::lower_of(query@), sims@, bonus as int),
                scored.len() == nv.len(),
                forall|w: int|
                    0 <= w < scored.len() ==> (#[trigger] scored[w]).0 as int == w && 0
                        <= scored[w].1 <= 1000,
                target == ranked_names(nv, query@, sims@, bonus as int, floor, limit as int),
                n as int == if limit as int <= sorted@.len() {
                    limit as int
                } else {
                    sorted@.len() as int
                },
                target.len() == n,
                r@.len() == k,
                name_score_views(r@) == target.take(k as int),
            decreases n - k,
        {
            proof {
                lemma_sorted_elem(scored, floor, k as int);
            }
            let p: (usize, i64) = sorted[k];
            let ghost prev = name_score_views(r@);
            let ghost taken = sorted@.take(n as int);
            proof {
                assert(taken[k as int] == sorted@[k as int]);
                assert(target[k as int] == (
                    nv[taken[k as int].0 as int],
                    taken[k as int].1 as u32,
                ));
            }
            r.push((clone_string(&names[p.0]), p.1 as u32));
            proof {
                assert(name_score_views(r@) =~= prev.push((nv[p.0 as int], p.1 as u32)));
                assert(target.take(k as int + 1) =~= target.take(k as int).push(
                    target[k as int],
                ));
            }
            k += 1;
        }
        proof {
            assert(target.take(n as int) =~= target);
            assert forall|a: int, b: int| 0 <= a < b < r@.len() implies (#[trigger] r@[a]).1
                >= (#[trigger] r@[b]).1 by {
                assert(sorted@[a].1 >= sorted@[b].1);
                lemma_sorted_elem(scored, floor, a);
                lemma_sorted_elem(scored, floor, b);
                assert(name_score_views(r@)[a] == target[a]);
                assert(name_score_views(r@)[b] == target[b]);
                assert(sorted@.take(n as int)[a] == sorted@[a]);
                assert(sorted@.take(n as int)[b] == sorted@[b]);
            }
            match floor {
                Some(f) => {
                    assert forall|a: int| 0 <= a < r@.len() implies (#[trigger] r@[a]).1 as i64
                        > f by {
                        lemma_sorted_elem(scored, floor, a);
                        assert(name_score_views(r@)[a] == target[a]);
                        assert(sorted@.take(n as int)[a] == sorted@[a]);
                    }
                },
                None => {},
            }
        }
        r
    }

    /// Fuzzy search over chain names: each name is scored as the supplied
    /// similarity plus 300 when the lowercased name contains the
    /// lowercased query, capped at 1000; scores at or below 400 are
    /// dropped; the rest come back ranked descending, at most `limit`.
    /// `sims[i]` is the caller's scaled fuzzy similarity of the query to
    /// chain name number `i`, as listed by `list_chain_names`.
    pub fn search_chains(&self, query: &str, sims: &Vec<u32>, limit: usize) -> (r: Vec<
        (String, u32),
    >)
        requires
            sims@.len() == self@.chain_names.len(),
            forall|i: int| 0 <= i < sims@.len() ==> sims@[i] <= 1000,
        ensures
            name_score_views(r@) == m_search_chains(self@, query@, sims@, limit as int),
            r@.len() <= limit,
            forall|i: int, j: int| 0 <= i < j < r@.len() ==> (#[trigger] r@[i]).1 >= (#[trigger] r@[j]).1,
            forall|i: int| 0 <= i < r@.len() ==> (#[trigger] r@[i]).1 > 400,
    {
        let r = Self::ranked_name_search(&self.chain_names, query, sims, 300, Some(400), limit);
        proof {
            assert forall|i: int| 0 <= i < r@.len() implies (#[trigger] r@[i]).1 > 400 by {
                assert(r@[i].1 as i64 > 400);
            }
        }
        r
    }

    /// Fuzzy search over memory keys: each key is scored as the supplied
    /// similarity plus 200 when the lowercased key contains the lowercased
    /// query, capped at 1000; all keys are ranked descending and cut to
    /// `limit` — no floor is applied. `sims[i]` belongs to key number `i`,
    /// as listed by `list_memory_keys`.
    pub fn search_memory(&self, query: &str, sims: &Vec<u32>, limit: usize) -> (r: Vec<
        (String, u32),
    >)
        requires
            sims@.len() == self@.memories.len(),
            forall|i: int| 0 <= i < sims@.len() ==> sims@[i] <= 1000,
        ensures
            name_score_views(r@) == m_search_memory(self@, query@, sims@, limit as int),
            r@.len() <= limit,
            forall|i: int, j: int| 0 <= i < j < r@.len() ==> (#[trigger] r@[i]).1 >= (#[trigger] r@[j]).1,
    {
        let keys = self.list_memory_keys();
        Self::ranked_name_search(&keys, query, sims, 200, None, limit)
    }
}

/// Every scored pair carries its own index and a score in 0..=1000.
proof fn lemma_pair_score_bounds(
    names: Seq<Seq<char>>,
    q: Seq<char>,
    sims: Seq<u32>,
    bonus: int,
    floor: Option<i64>,
    w: int,
)
    requires
        sims.len() == names.len(),
        forall|i: int| 0 <= i < sims.len() ==> sims[i] <= 1000,
        0 <= bonus <= 1000,
        0 <= w < names.len(),
    ensures
        ({
            let scored = scored_name_pairs(names, text::lower_of(q), sims, bonus);
            scored[w].0 == w as usize && 0 <= scored[w].1 <= 1000
        }),
{
}

// ---------------------------------------------------------------------------
// Global search and the composite-id get
// ---------------------------------------------------------------------------

/// One search candidate: its searchable lowercased text and the hit
/// fields it would produce.
#[verifier::ext_equal]
pub struct CandModel {
    pub text: Seq<char>,
    pub result_type: Seq<char>,
    pub id: Seq<char>,
    pub title: Seq<char>,
    pub preview: Seq<char>,
}

/// The candidate a chain link contributes: its chain name, slug and
/// content lowercased as the searchable text; the composite id
/// `chain:<name>:<slug>`; the first 200 characters of the content as the
/// preview.
pub open spec fn cand_of_link(name: Seq<char>, l: ChainLinkModel) -> CandModel {
    CandModel {
        text: text::lower_of(name + " "@ + l.slug + " "@ + l.content),
        result_type: "chain_link"@,
        id: "chain:"@ + name + ":"@ + l.slug,
        title: name + "/"@ + l.slug,
        preview: text::spec_take(l.content, 200),
    }
}

/// The candidate an artifact contributes: title, description and any
/// cached text lowercased as the searchable text; the composite id
/// `artifact:<id>`; the first 200 characters of the cached text — or of
/// the description when none is cached — as the preview.
pub open spec fn cand_of_artifact(a: ArtifactModel, cached: Option<Seq<char>>) -> CandModel {
    let t = match cached {
        Some(t) => t,
        None => Seq::empty(),
    };
    CandModel {
        text: text::lower_of(a.title + " "@ + a.description + " "@ + t),
        result_type: "artifact"@,
        id: "artifact:"@ + a.id,
        title: a.title,
        preview: if t.len() > 0 {
            text::spec_take(t, 200)
        } else {
            text::spec_take(a.description, 200)
        },
    }
}

/// The candidates of one chain, newest link first.
pub open spec fn cands_of_chain(m: StoreModel, name: Seq<char>) -> Seq<CandModel> {
    let ls = order_by_ts_desc(links_of(m.chain_links, name));
    Seq::new(ls.len(), |i: int| cand_of_link(name, ls[i]))
}

/// The candidates of a list of chains, flattened in list order.
pub open spec fn cands_of_chains(m: StoreModel, names: Seq<Seq<char>>) -> Seq<CandModel>
    decreases names.len(),
{
    if names.len() == 0 {
        Seq::empty()
    } else {
        cands_of_chains(m, names.drop_last()) + cands_of_chain(m, names.last())
    }
}

/// The candidates of all artifacts, newest first.
pub open spec fn cands_of_artifacts(m: StoreModel) -> Seq<CandModel> {
    let arts = order_arts_by_ts_desc(avalues(m.artifacts));
    Seq::new(
        arts.len(),
        |i: int| cand_of_artifact(arts[i], alookup(m.artifact_texts, arts[i].id)),
    )
}

/// Every candidate of a global search, in scan order: all chains in index
/// order, each newest link first, then all artifacts newest first.
pub open spec fn global_cands(m: StoreModel) -> Seq<CandModel> {
    cands_of_chains(m, m.chain_names) + cands_of_artifacts(m)
}

/// An executable candidate realises a candidate model.
pub open spec fn cand_matches(c: CandModel, t: Seq<char>, p: SearchResultModel) -> bool {
    &&& t == c.text
    &&& p.result_type == c.result_type
    &&& p.id == c.id
    &&& p.title == c.title
    &&& p.preview == c.preview
}

/// Each candidate scored for a lowercased query under the long-text
/// policy, with the caller-supplied fuzzy similarity as fallback.
pub open spec fn scored_cand_pairs(cands: Seq<CandModel>, q_low: Seq<char>, sims: Seq<u32>) -> Seq<
    (usize, i64),
> {
    Seq::new(
        cands.len(),
        |i: int| (i as usize, crate::score::score_spec(cands[i].text, q_low, sims[i] as int) as i64),
    )
}

/// The hits of a global search: candidates scored, held above 300, ranked
/// descending (ties keep scan order), first `limit`.
pub open spec fn m_global_search(m: StoreModel, q: Seq<char>, sims: Seq<u32>, limit: int) -> Seq<
    SearchResultModel,
> {
    let cands = global_cands(m);
    let scored = scored_cand_pairs(cands, text::lower_of(q), sims);
    let sorted = crate::sort::sort_desc(crate::sort::filter_above(scored, 300));
    let taken = sorted.take(
        if limit <= sorted.len() {
            limit
        } else {
            sorted.len() as int
        },
    );
    Seq::new(
        taken.len(),
        |i: int|
            {
                let c = cands[taken[i].0 as int];
                SearchResultModel {
                    result_type: c.result_type,
                    id: c.id,
                    title: c.title,
                    score: taken[i].1 as u32,
                    preview: c.preview,
                }
            },
    )
}

/// The models of a sequence of search results.
pub open spec fn sr_views(s: Seq<SearchResult>) -> Seq<SearchResultModel> {
    Seq::new(s.len(), |i: int| s[i].deep_view())
}

/// What a composite id dereferences to.
pub enum GlobalEntity {
    /// A chain link, from `chain:<name>:<slug>`.
    Link(ChainLink),
    /// An artifact and its cached text — empty when none is cached — from
    /// `artifact:<id>`.
    File(Artifact, String),
}

/// Mathematical model of [`GlobalEntity`].
#[verifier::ext_equal]
pub enum GlobalEntityModel {
    Link(ChainLinkModel),
    File(ArtifactModel, Seq<char>),
}

impl DeepView for GlobalEntity {
    type V = GlobalEntityModel;

    open spec fn deep_view(&self) -> GlobalEntityModel {
        match self {
            GlobalEntity::Link(l) => GlobalEntityModel::Link(l.deep_view()),
            GlobalEntity::File(a, t) => GlobalEntityModel::File(a.deep_view(), t@),
        }
    }
}

/// Why a composite get returned nothing.
pub enum GlobalGetError {
    /// The id carries neither the `chain:` nor the `artifact:` prefix, or
    /// a `chain:` id lacks its second separator.
    InvalidFormat,
    /// The id parses but nothing is stored under it.
    NotFound,
}

/// Dereferencing a composite id: `chain:<name>:<slug>` finds the newest
/// matching link of the chain, `artifact:<id>` finds the artifact and its
/// cached text (empty when none); anything else is malformed.
pub open spec fn m_global_get(m: StoreModel, cid: Seq<char>) -> Result<
    GlobalEntityModel,
    GlobalGetError,
> {
    if text::matches_at(cid, "chain:"@, 0) {
        let rest = cid.skip("chain:"@.len() as int);
        let j = text::spec_find_char(rest, ':');
        if j < 0 {
            Err(GlobalGetError::InvalidFormat)
        } else {
            let name = rest.take(j);
            let slug = rest.skip(j + 1);
            match first_link_match(order_by_ts_desc(links_of(m.chain_links, name)), slug) {
                Some(l) => Ok(GlobalEntityModel::Link(l)),
                None => Err(GlobalGetError::NotFound),
            }
        }
    } else if text::matches_at(cid, "artifact:"@, 0) {
        let aid = cid.skip("artifact:"@.len() as int);
        match alookup(m.artifacts, aid) {
            Some(a) => Ok(
                GlobalEntityModel::File(
                    a,
                    match alookup(m.artifact_texts, aid) {
                        Some(t) => t,
                        None => Seq::empty(),
                    },
                ),
            ),
            None => Err(GlobalGetError::NotFound),
        }
    } else {
        Err(GlobalGetError::InvalidFormat)
    }
}

impl Store {
    /// The first 200 characters of `s`, as a fresh string.
    fn preview_of(s: &str) -> (r: String)
        ensures
            r@ == text::spec_take(s@, 200),
    {
        let v = text::chars_vec(s);
        let end = if v.len() <= 200 {
            v.len()
        } else {
            200
        };
        let w = text::slice_range(&v, 0, end);
        proof {
            assert(w@ =~= text::spec_take(s@, 200));
        }
        text::from_chars(&w)
    }

    /// Every global-search candidate in scan order: the searchable
    /// lowercased text paired with the hit it would produce (its score
    /// still zero).
    pub fn global_candidates(&self) -> (r: Vec<(String, SearchResult)>)
        ensures
            r@.len() == global_cands(self@).len(),
            forall|i: int|
                0 <= i < r@.len() ==> cand_matches(
                    global_cands(self@)[i],
                    (#[trigger] r@[i]).0@,
                    r@[i].1.deep_view(),
                ),
    {
        let ghost m = self@;
        let mut out: Vec<(String, SearchResult)> = Vec::new();
        let names = self.list_chain_names();
        let ghost nv = str_views(names@);
        let mut ni: usize = 0;
        proof {
            assert(cands_of_chains(m, nv.take(0)) =~= Seq::<CandModel>::empty()) by {
                assert(nv.take(0) =~= Seq::<Seq<char>>::empty());
            }
        }
        while ni < names.len()
            invariant
                ni <= names@.len(),
                m == self@,
                nv == str_views(names@),
                nv.len() == names@.len(),
                nv == m.chain_names,
                out@.len() == cands_of_chains(m, nv.take(ni as int)).len(),
                forall|i: int|
                    0 <= i < out@.len() ==> cand_matches(
                        cands_of_chains(m, nv.take(ni as int))[i],
                        (#[trigger] out@[i]).0@,
                        out@[i].1.deep_view(),
                    ),
            decreases names@.len() - ni,
        {
            let name: &String = &names[ni];
            let links = self.get_chain_links(name.as_str());
            let ghost ls = link_views(links@);
            let ghost chain_c = cands_of_chain(m, nv[ni as int]);
            let ghost base = cands_of_chains(m, nv.take(ni as int));
            let mut li: usize = 0;
            proof {
                assert(chain_c.len() == ls.len());
                assert(base + chain_c.take(0) =~= base);
            }
            while li < links.len()
                invariant
                    li <= links@.len(),
                    m == self@,
                    nv == str_views(names@),
                    nv.len() == names@.len(),
                    ni < names@.len(),
                    ls == link_views(links@),
                    ls.len() == links@.len(),
                    ls == order_by_ts_desc(links_of(m.chain_links, nv[ni as int])),
                    chain_c == cands_of_chain(m, nv[ni as int]),
                    chain_c.len() == ls.len(),
                    base == cands_of_chains(m, nv.take(ni as int)),
                    name@ == nv[ni as int],
                    out@.len() == (base + chain_c.take(li as int)).len(),
                    forall|i: int|
                        0 <= i < out@.len() ==> cand_matches(
                            (base + chain_c.take(li as int))[i],
                            (#[trigger] out@[i]).0@,
                            out@[i].1.deep_view(),
                        ),
                decreases links@.len() - li,
            {
                let l: &ChainLink = &links[li];
                let mut raw = clone_string(name);
                raw.append(" ");
                raw.append(l.slug.as_str());
                raw.append(" ");
                raw.append(l.content.as_str());
                let low = text::lowercase(raw.as_str());
                let mut id = ("chain:").to_owned();
                id.append(name.as_str());
                id.append(":");
                id.append(l.slug.as_str());
                let mut title = clone_string(name);
                title.append("/");
                title.append(l.slug.as_str());
                let preview = Self::preview_of(l.content.as_str());
                let proto = SearchResult {
                    result_type: ("chain_link").to_owned(),
                    id,
                    title,
                    score: 0,
                    preview,
                };
                let ghost prev_len = out@.len() as int;
                out.push((low, proto));
                proof {
                    assert(cand_matches(
                        cand_of_link(nv[ni as int], ls[li as int]),
                        out@[prev_len].0@,
                        out@[prev_len].1.deep_view(),
                    ));
                    assert(chain_c[li as int] == cand_of_link(nv[ni as int], ls[li as int]));
                    assert(base + chain_c.take(li as int + 1) =~= (base + chain_c.take(
                        li as int,
                    )).push(chain_c[li as int]));
                }
                li += 1;
            }
            proof {
                assert(chain_c.take(ls.len() as int) =~= chain_c);
                assert(nv.take(ni as int + 1).drop_last() =~= nv.take(ni as int));
                assert(nv.take(ni as int + 1).last() == nv[ni as int]);
                assert(cands_of_chains(m, nv.take(ni as int + 1)) == base + chain_c);
            }
            ni += 1;
        }
        proof {
            assert(nv.take(nv.len() as int) =~= nv);
        }
        let ghost all_chain = cands_of_chains(m, m.chain_names);
        let arts = self.list_artifacts();
        let ghost asr = artifact_views(arts@);
        let ghost art_c = cands_of_artifacts(m);
        let mut ai: usize = 0;
        proof {
            assert(asr == order_arts_by_ts_desc(avalues(m.artifacts)));
            assert(art_c.len() == asr.len());
            assert(all_chain + art_c.take(0) =~= all_chain);
        }
        while ai < arts.len()
            invariant
                ai <= arts@.len(),
                m == self@,
                asr == artifact_views(arts@),
                asr.len() == arts@.len(),
                asr == order_arts_by_ts_desc(avalues(m.artifacts)),
                art_c == cands_of_artifacts(m),
                art_c.len() == asr.len(),
                all_chain == cands_of_chains(m, m.chain_names),
                out@.len() == (all_chain + art_c.take(ai as int)).len(),
                forall|i: int|
                    0 <= i < out@.len() ==> cand_matches(
                        (all_chain + art_c.take(ai as int))[i],
                        (#[trigger] out@[i]).0@,
                        out@[i].1.deep_view(),
                    ),
            decreases arts@.len() - ai,
        {
            let a: &Artifact = &arts[ai];
            let cached: String = match self.get_artifact_text(a.id.as_str()) {
                Some(t) => t,
                None => String::new(),
            };
            let mut raw = clone_string(&a.title);
            raw.append(" ");
            raw.append(a.description.as_str());
            raw.append(" ");
            raw.append(cached.as_str());
            let low = text::lowercase(raw.as_str());
            let mut id = ("artifact:").to_owned();
            id.append(a.id.as_str());
            let cv = text::chars_vec(cached.as_str());
            let preview = if cv.len() > 0 {
                Self::preview_of(cached.as_str())
            } else {
                Self::preview_of(a.description.as_str())
            };
            let proto = SearchResult {
                result_type: ("artifact").to_owned(),
                id,
                title: clone_string(&a.title),
                score: 0,
                preview,
            };
            let ghost prev_len = out@.len() as int;
            out.push((low, proto));
            proof {
                assert(asr[ai as int] == a.deep_view());
                assert(cand_matches(
                    cand_of_artifact(asr[ai as int], alookup(m.artifact_texts, asr[ai as int].id)),
                    out@[prev_len].0@,
                    out@[prev_len].1.deep_view(),
                ));
                assert(art_c[ai as int] == cand_of_artifact(
                    asr[ai as int],
                    alookup(m.artifact_texts, asr[ai as int].id),
                ));
                assert(all_chain + art_c.take(ai as int + 1) =~= (all_chain + art_c.take(
                    ai as int,
                )).push(art_c[ai as int]));
            }
            ai += 1;
        }
        proof {
            assert(art_c.take(asr.len() as int) =~= art_c);
            assert(global_cands(m) == all_chain + art_c);
        }
        out
    }

    /// Global relevance search across chain links and artifacts. Each
    /// candidate is scored under the three-tier policy with `sims[i]` as
    /// its fuzzy fallback; hits scoring at or below 300 are dropped, the
    /// rest come back ranked descending, at most `limit`. `sims[i]`
    /// belongs to candidate number `i` of `global_candidates`.
    pub fn global_search(&self, query: &str, sims: &Vec<u32>, limit: usize) -> (r: Vec<
        SearchResult,
    >)
        requires
            sims@.len() == global_cands(self@).len(),
            forall|i: int| 0 <= i < sims@.len() ==> sims@[i] <= 1000,
        ensures
            sr_views(r@) == m_global_search(self@, query@, sims@, limit as int),
            r@.len() <= limit,
            forall|i: int, j: int|
                0 <= i < j < r@.len() ==> (#[trigger] r@[i]).score >= (#[trigger] r@[j]).score,
            forall|i: int| 0 <= i < r@.len() ==> (#[trigger] r@[i]).score > 300,
    {
        let ghost m = self@;
        let ghost cands = global_cands(m);
        let cvec = self.global_candidates();
        let q_low = text::lowercase(query);
        let ghost scored = scored_cand_pairs(cands, text::lower_of(query@), sims@);
        let mut pairs: Vec<(usize, i64)> = Vec::new();
        let mut i: usize = 0;
        proof {
            assert(scored.take(0) =~= Seq::<(usize, i64)>::empty());
            assert(pairs@ =~= crate::sort::filter_above(scored.take(0), 300));
        }
        while i < cvec.len()
            invariant
                i <= cvec@.len(),
                m == self@,
                cands == global_cands(m),
                cands.len() == cvec@.len(),
                sims@.len() == cands.len(),
                forall|k: int| 0 <= k < sims@.len() ==> sims@[k] <= 1000,
                forall|k: int|
                    0 <= k < cvec@.len() ==> cand_matches(
                        cands[k],
                        (#[trigger] cvec@[k]).0@,
                        cvec@[k].1.deep_view(),
                    ),
                q_low@ == text::lower_of(query@),
                scored == scored_cand_pairs(cands, text::lower_of(query@), sims@),
                pairs@ == crate::sort::filter_above(scored.take(i as int), 300),
            decreases cvec@.len() - i,
        {
            let p: &(String, SearchResult) = &cvec[i];
            let sc = crate::score::compute_search_score(p.0.as_str(), q_low.as_str(), sims[i]);
            proof {
                assert(scored.take(i as int + 1).drop_last() =~= scored.take(i as int));
                assert(scored.take(i as int + 1).last() == scored[i as int]);
                crate::score::lemma_score_range(
                    cands[i as int].text,
                    text::lower_of(query@),
                    sims@[i as int] as int,
                );
                assert(scored[i as int] == (i as usize, sc as i64));
            }
            if sc > 300 {
                pairs.push((i, sc as i64));
                proof {
                    assert(pairs@ =~= crate::sort::filter_above(scored.take(i as int + 1), 300));
                }
            } else {
                proof {
                    assert(pairs@ =~= crate::sort::filter_above(scored.take(i as int + 1), 300));
                }
            }
            i += 1;
        }
        proof {
            assert(scored.take(cands.len() as int) =~= scored);
        }
        let ghost kept = crate::sort::filter_above(scored, 300);
        proof {
            assert forall|w: int|
                0 <= w < scored.len() implies (#[trigger] scored[w]).0 as int == w && 0
                <= scored[w].1 <= 1000 by {
                crate::score::lemma_score_range(
                    cands[w].text,
                    text::lower_of(query@),
                    sims@[w] as int,
                );
                assert(scored[w] == (
                    w as usize,
                    crate::score::score_spec(
                        cands[w].text,
                        text::lower_of(query@),
                        sims@[w] as int,
                    ) as i64,
                ));
                assert(cands.len() == cvec@.len());
            }
        }
        let sorted = crate::sort::sort_pairs_desc(&pairs);
        proof {
            crate::sort::lemma_sort_desc_sorted(kept);
        }
        let n = if limit <= sorted.len() {
            limit
        } else {
            sorted.len()
        };
        let ghost target = m_global_search(m, query@, sims@, limit as int);
        let mut r: Vec<SearchResult> = Vec::new();
        let mut k: usize = 0;
        proof {
            assert(sr_views(r@) =~= target.take(0));
        }
        while k < n
            invariant
                k <= n <= sorted@.len(),
                m == self@,
                cands == global_cands(m),
                cands.len() == cvec@.len(),
                forall|w: int|
                    0 <= w < cvec@.len() ==> cand_matches(
                        cands[w],
                        (#[trigger] cvec@[w]).0@,
                        cvec@[w].1.deep_view(),
                    ),
                sorted@ == crate::sort::sort_desc(kept),
                kept == crate::sort::filter_above(scored, 300),
                scored == scored_cand_pairs(cands, text::lower_of(query@), sims@),
                scored.len() == cands.len(),
                forall|w: int|
                    0 <= w < scored.len() ==> (#[trigger] scored[w]).0 as int == w && 0
                        <= scored[w].1 <= 1000,
                target == m_global_search(m, query@, sims@, limit as int),
                n as int == if limit as int <= sorted@.len() {
                    limit as int
                } else {
                    sorted@.len() as int
                },
                target.len() == n,
                r@.len() == k,
                sr_views(r@) == target.take(k as int),
            decreases n - k,
        {
            proof {
                lemma_sorted_elem(scored, Some(300), k as int);
            }
            let p: (usize, i64) = sorted[k];
            let proto: &(String, SearchResult) = &cvec[p.0];
            let ghost taken = sorted@.take(n as int);
            proof {
                assert(taken[k as int] == sorted@[k as int]);
                assert(target[k as int] == (SearchResultModel {
                    result_type: cands[taken[k as int].0 as int].result_type,
                    id: cands[taken[k as int].0 as int].id,
                    title: cands[taken[k as int].0 as int].title,
                    score: taken[k as int].1 as u32,
                    preview: cands[taken[k as int].0 as int].preview,
                }));
            }
            let hit = SearchResult {
                result_type: clone_string(&proto.1.result_type),
                id: clone_string(&proto.1.id),
                title: clone_string(&proto.1.title),
                score: p.1 as u32,
                preview: clone_string(&proto.1.preview),
            };
            let ghost prev = sr_views(r@);
            r.push(hit);
            proof {
                assert(sr_views(r@) =~= prev.push(target[k as int]));
                assert(target.take(k as int + 1) =~= target.take(k as int).push(target[k as int]));
            }
            k += 1;
        }
        proof {
            assert(target.take(n as int) =~= target);
            assert forall|a: int, b: int| 0 <= a < b < r@.len() implies (#[trigger] r@[a]).score
                >= (#[trigger] r@[b]).score by {
                assert(sorted@[a].1 >= sorted@[b].1);
                lemma_sorted_elem(scored, Some(300), a);
                lemma_sorted_elem(scored, Some(300), b);
                assert(sr_views(r@)[a] == target[a]);
                assert(sr_views(r@)[b] == target[b]);
                assert(sorted@.take(n as int)[a] == sorted@[a]);
                assert(sorted@.take(n as int)[b] == sorted@[b]);
            }
            assert forall|a: int| 0 <= a < r@.len() implies (#[trigger] r@[a]).score > 300 by {
                lemma_sorted_elem(scored, Some(300), a);
                assert(sr_views(r@)[a] == target[a]);
                assert(sorted@.take(n as int)[a] == sorted@[a]);
            }
        }
        r
    }

    /// [`global_search`] behind its own guard: runs the search only when
    /// one similarity in 0..=1000 was supplied per candidate, and reports
    /// `None` otherwise.
    pub fn global_search_checked(&self, query: &str, sims: &Vec<u32>, limit: usize) -> (r: Option<
        Vec<SearchResult>,
    >)
        ensures
            match r {
                Some(v) => sims@.len() == global_cands(self@).len() && (forall|i: int|
                    0 <= i < sims@.len() ==> sims@[i] <= 1000) && sr_views(v@) == m_global_search(
                    self@,
                    query@,
                    sims@,
                    limit as int,
                ),
                None => !(sims@.len() == global_cands(self@).len() && (forall|i: int|
                    0 <= i < sims@.len() ==> sims@[i] <= 1000)),
            },
    {
        let cvec = self.global_candidates();
        if sims.len() != cvec.len() {
            return None;
        }
        let mut i: usize = 0;
        while i < sims.len()
            invariant
                i <= sims@.len(),
                forall|j: int| 0 <= j < i ==> sims@[j] <= 1000,
            decreases sims@.len() - i,
        {
            if sims[i] > 1000 {
                return None;
            }
            i += 1;
        }
        Some(self.global_search(query, sims, limit))
    }

    /// Dereferences a composite id: `chain:<name>:<slug>` to the newest
    /// matching link, `artifact:<id>` to the artifact and its cached text
    /// (empty when none is cached).
    pub fn global_get(&self, composite_id: &str) -> (r: Result<GlobalEntity, GlobalGetError>)
        ensures
            match r {
                Ok(e) => m_global_get(self@, composite_id@) == Ok::<
                    GlobalEntityModel,
                    GlobalGetError,
                >(e.deep_view()),
                Err(e) => m_global_get(self@, composite_id@) == Err::<
                    GlobalEntityModel,
                    GlobalGetError,
                >(e),
            },
    {
        let cv = text::chars_vec(composite_id);
        let pc = text::chars_vec("chain:");
        let pa = text::chars_vec("artifact:");
        if text::starts_with_sub(&cv, &pc) {
            let rest = text::slice_range(&cv, pc.len(), cv.len());
            proof {
                assert(rest@ =~= composite_id@.skip("chain:"@.len() as int));
                text::lemma_find_char_props(rest@, ':');
            }
            match text::find_char_from(&rest, 0, ':') {
                None => Err(GlobalGetError::InvalidFormat),
                Some(j) => {
                    let name = text::slice_range(&rest, 0, j);
                    let slug = text::slice_range(&rest, j + 1, rest.len());
                    proof {
                        assert(text::spec_find_char(rest@, ':') == j as int);
                        assert(name@ =~= rest@.take(j as int));
                        assert(slug@ =~= rest@.skip(j as int + 1));
                    }
                    let name_s = text::from_chars(&name);
                    let slug_s = text::from_chars(&slug);
                    match self.get_chain_link(name_s.as_str(), slug_s.as_str()) {
                        Some(l) => Ok(GlobalEntity::Link(l)),
                        None => Err(GlobalGetError::NotFound),
                    }
                },
            }
        } else if text::starts_with_sub(&cv, &pa) {
            let aidv = text::slice_range(&cv, pa.len(), cv.len());
            proof {
                assert(aidv@ =~= composite_id@.skip("artifact:"@.len() as int));
            }
            let aid = text::from_chars(&aidv);
            match self.get_artifact(aid.as_str()) {
                Some(a) => {
                    let t: String = match self.get_artifact_text(aid.as_str()) {
                        Some(t) => t,
                        None => String::new(),
                    };
                    Ok(GlobalEntity::File(a, t))
                },
                None => Err(GlobalGetError::NotFound),
            }
        } else {
            Err(GlobalGetError::InvalidFormat)
        }
    }
}

} // verus!
