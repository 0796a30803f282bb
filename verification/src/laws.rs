//! The store's laws, proved once and for all over the transition
//! functions: the active/history partition, reactivation, rendezvous
//! delivery and timeout, chain deletion, and the round trip from saving
//! to the composite get. The relevance-ordering law lives with the
//! scoring policy in [`crate::score`].

use vstd::prelude::*;
use crate::kv::{alookup, aremove, lemma_alookup_aremove, lemma_alookup_aset,
    lemma_alookup_index, lemma_aremove_distinct, lemma_aset_distinct};
use crate::models::{ArtifactModel, ChainLinkModel, SessionModel, StatusModel, ASK_TIMEOUT_SECS};
use crate::seqs::{lemma_remove_first_absent, lemma_remove_first_at, lemma_remove_nodup, nodup};
use crate::store::{lemma_first_link_match_at, lemma_links_except, lemma_lset_is_push,
    lemma_wf_mark_done, lemma_wf_touch, link_matches, links_except, links_of, m_answer,
    m_ask_begin, m_ask_poll, m_delete_chain, m_global_get, m_mark_done, m_save_artifact,
    m_save_chain_link, m_session, m_touch, order_by_ts_desc, session_entry_ok, swf, AskPollModel,
    GlobalEntityModel, GlobalGetError, StoreModel};
use crate::text;

verus! {

/// Once created, a session's id is in exactly one of the active set and
/// the history list — never both, never neither.
pub proof fn law_active_history_partition(m: StoreModel, id: Seq<char>)
    requires
        swf(m),
        m_session(m, id) is Some,
    ensures
        m.active.contains(id) <==> !m.history.contains(id),
{
    lemma_alookup_index(m.sessions, id);
    let i = choose|i: int| 0 <= i < m.sessions.len() && (#[trigger] m.sessions[i]).0 == id;
    assert(session_entry_ok(m, i));
}

/// Marking a session done and then touching it brings its id back into
/// the active set and removes it from the history list; neither set
/// accumulates duplicates, however often the cycle repeats.
pub proof fn law_done_then_touch_reactivates(m: StoreModel, id: Seq<char>, now: int)
    requires
        swf(m),
        m_session(m, id) is Some,
        now >= 0,
    ensures
        ({
            let m2 = m_touch(m_mark_done(m, id), id, now);
            &&& m2.active.contains(id)
            &&& !m2.history.contains(id)
            &&& nodup(m2.active)
            &&& nodup(m2.history)
        }),
{
    let s = alookup(m.sessions, id)->Some_0;
    let m1 = m_mark_done(m, id);
    lemma_wf_mark_done(m, id);
    if !(s.status is Done) {
        lemma_alookup_aset(m.sessions, id, SessionModel { status: StatusModel::Done, ..s }, id);
    }
    let s1 = alookup(m1.sessions, id)->Some_0;
    assert(s1.status is Done);
    let m2 = m_touch(m1, id, now);
    lemma_wf_touch(m1, id, now);
    let s2 = SessionModel { status: StatusModel::Active, last_activity: now, ..s1 };
    lemma_alookup_aset(m1.sessions, id, s2, id);
    assert(alookup(m2.sessions, id) == Some(s2));
    lemma_alookup_index(m2.sessions, id);
    let i = choose|i: int| 0 <= i < m2.sessions.len() && (#[trigger] m2.sessions[i]).0 == id;
    assert(alookup(m2.sessions, id) == Some(m2.sessions[i].1));
    assert(session_entry_ok(m2, i));
}

/// An ask followed by an answer: the very next poll — however soon —
/// returns exactly that answer and leaves the session active with the
/// pending question and the answer slot both cleared.
pub proof fn law_ask_then_answer_delivers(
    m: StoreModel,
    id: Seq<char>,
    q: Seq<char>,
    x: Seq<char>,
    ask_now: int,
    poll_now: int,
)
    requires
        swf(m),
        m_session(m, id) is Some,
        ask_now >= 0,
    ensures
        ({
            let m1 = m_answer(m_ask_begin(m, id, q, ask_now), id, x);
            let out = m_ask_poll(m1, id, poll_now);
            &&& out.1 == AskPollModel::Answered(x)
            &&& m_session(out.0, id) is Some
            &&& m_session(out.0, id)->Some_0.status is Active
            &&& alookup(out.0.pending, id) is None
            &&& alookup(out.0.answers, id) is None
        }),
{
    let s = alookup(m.sessions, id)->Some_0;
    let st = if s.status is Done {
        StatusModel::Active
    } else {
        s.status
    };
    let s2 = SessionModel { status: st, last_activity: ask_now, ..s };
    let mt = m_touch(m, id, ask_now);
    lemma_alookup_aset(m.sessions, id, s2, id);
    assert(alookup(mt.sessions, id) == Some(s2));
    let sw = SessionModel { status: StatusModel::Waiting { question: q, asked_at: ask_now }, ..s2 };
    let ma = m_ask_begin(m, id, q, ask_now);
    lemma_alookup_aset(mt.sessions, id, sw, id);
    assert(alookup(ma.sessions, id) == Some(sw));
    let m1 = m_answer(ma, id, x);
    lemma_alookup_aset(ma.answers, id, x, id);
    assert(alookup(m1.answers, id) == Some(x));
    let out = m_ask_poll(m1, id, poll_now);
    assert(out.1 == AskPollModel::Answered(x));
    let sa = SessionModel { status: StatusModel::Active, ..sw };
    lemma_alookup_aset(m1.sessions, id, sa, id);
    assert(alookup(out.0.sessions, id) == Some(sa));
    // the close clears pending and answers; distinctness of the keys
    // carries over from the starting state
    lemma_aset_distinct(mt.pending, id, q);
    lemma_alookup_aremove(m1.pending, id, id);
    lemma_aremove_distinct(mt.answers, id);
    lemma_aset_distinct(aremove(mt.answers, id), id, x);
    lemma_alookup_aremove(m1.answers, id, id);
}

/// An ask that is never answered: a poll before the ceiling changes
/// nothing and reports the wait; a poll at or past the ceiling reports
/// the timeout exactly then, and leaves the session active with the
/// question abandoned.
pub proof fn law_ask_timeout(
    m: StoreModel,
    id: Seq<char>,
    q: Seq<char>,
    ask_now: int,
    poll_now: int,
)
    requires
        swf(m),
        m_session(m, id) is Some,
        ask_now >= 0,
    ensures
        ({
            let m1 = m_ask_begin(m, id, q, ask_now);
            let out = m_ask_poll(m1, id, poll_now);
            &&& (poll_now - ask_now < ASK_TIMEOUT_SECS as int ==> out.1
                == AskPollModel::StillWaiting && out.0 == m1)
            &&& (poll_now - ask_now >= ASK_TIMEOUT_SECS as int ==> {
                &&& out.1 == AskPollModel::TimedOut
                &&& m_session(out.0, id) is Some
                &&& m_session(out.0, id)->Some_0.status is Active
                &&& alookup(out.0.pending, id) is None
            })
        }),
{
    let s = alookup(m.sessions, id)->Some_0;
    let st = if s.status is Done {
        StatusModel::Active
    } else {
        s.status
    };
    let s2 = SessionModel { status: st, last_activity: ask_now, ..s };
    let mt = m_touch(m, id, ask_now);
    lemma_alookup_aset(m.sessions, id, s2, id);
    assert(alookup(mt.sessions, id) == Some(s2));
    let sw = SessionModel { status: StatusModel::Waiting { question: q, asked_at: ask_now }, ..s2 };
    let m1 = m_ask_begin(m, id, q, ask_now);
    lemma_alookup_aset(mt.sessions, id, sw, id);
    assert(alookup(m1.sessions, id) == Some(sw));
    lemma_alookup_aremove(mt.answers, id, id);
    assert(alookup(m1.answers, id) is None);
    let out = m_ask_poll(m1, id, poll_now);
    if poll_now - ask_now >= ASK_TIMEOUT_SECS as int {
        let sa = SessionModel { status: StatusModel::Active, ..sw };
        lemma_alookup_aset(m1.sessions, id, sa, id);
        assert(alookup(out.0.sessions, id) == Some(sa));
        lemma_aset_distinct(mt.pending, id, q);
        lemma_alookup_aremove(m1.pending, id, id);
    }
}

/// Every link of a chain carries the chain's name and comes from the
/// full link sequence.
proof fn lemma_links_of_member(ls: Seq<ChainLinkModel>, name: Seq<char>, i: int)
    requires
        0 <= i < links_of(ls, name).len(),
    ensures
        links_of(ls, name)[i].chain_name == name,
        exists|j: int| 0 <= j < ls.len() && #[trigger] ls[j] == links_of(ls, name)[i],
    decreases ls.len(),
{
    if ls.len() > 0 {
        let rest = links_of(ls.drop_last(), name);
        if ls.last().chain_name == name && i == rest.len() {
            assert(ls[ls.len() - 1] == links_of(ls, name)[i]);
        } else {
            lemma_links_of_member(ls.drop_last(), name, i);
            let j = choose|j: int|
                0 <= j < ls.drop_last().len() && #[trigger] ls.drop_last()[j] == links_of(
                    ls,
                    name,
                )[i];
            assert(ls[j] == links_of(ls, name)[i]);
        }
    }
}

/// A chain never has more links than the full sequence holds.
proof fn lemma_links_of_len(ls: Seq<ChainLinkModel>, name: Seq<char>)
    ensures
        links_of(ls, name).len() <= ls.len(),
    decreases ls.len(),
{
    if ls.len() > 0 {
        lemma_links_of_len(ls.drop_last(), name);
    }
}

/// A sequence none of whose links carries `name` yields no links for it.
proof fn lemma_links_of_none(ls: Seq<ChainLinkModel>, name: Seq<char>)
    requires
        forall|i: int| 0 <= i < ls.len() ==> (#[trigger] ls[i]).chain_name != name,
    ensures
        links_of(ls, name) == Seq::<ChainLinkModel>::empty(),
    decreases ls.len(),
{
    if ls.len() > 0 {
        assert(forall|i: int|
            0 <= i < ls.drop_last().len() ==> (#[trigger] ls.drop_last()[i]).chain_name != name)
            by {
            assert(forall|i: int|
                0 <= i < ls.drop_last().len() ==> ls.drop_last()[i] == ls[i]);
        }
        lemma_links_of_none(ls.drop_last(), name);
    }
}

/// Deleting a chain removes its name from the index and leaves no link of
/// it reachable: the chain reads back empty.
pub proof fn law_delete_chain_removes(m: StoreModel, name: Seq<char>)
    requires
        swf(m),
    ensures
        ({
            let m2 = m_delete_chain(m, name);
            &&& !m2.chain_names.contains(name)
            &&& links_of(m2.chain_links, name) == Seq::<ChainLinkModel>::empty()
            &&& order_by_ts_desc(links_of(m2.chain_links, name)) == Seq::<ChainLinkModel>::empty()
        }),
{
    let m2 = m_delete_chain(m, name);
    if m.chain_names.contains(name) {
        let ni = choose|k: int| 0 <= k < m.chain_names.len() && m.chain_names[k] == name;
        assert(forall|k: int| 0 <= k < ni ==> m.chain_names[k] != name);
        lemma_remove_first_at(m.chain_names, name, ni);
        lemma_remove_nodup(m.chain_names, ni);
    } else {
        lemma_remove_first_absent(m.chain_names, name);
    }
    lemma_links_except(m.chain_links, name);
    lemma_links_of_none(links_except(m.chain_links, name), name);
    let e = links_of(m2.chain_links, name);
    assert(order_by_ts_desc(e) =~= Seq::<ChainLinkModel>::empty()) by {
        let pairs = Seq::new(e.len(), |i: int| (i as usize, e[i].ts as i64));
        assert(pairs =~= Seq::<(usize, i64)>::empty());
        crate::sort::lemma_sort_desc_sorted(pairs);
    }
}

/// The stable descending reorder puts a strictly newest last element
/// first.
proof fn lemma_order_puts_newest_first(ls: Seq<ChainLinkModel>)
    requires
        0 < ls.len() <= usize::MAX,
        forall|i: int|
            0 <= i < ls.len() - 1 ==> (#[trigger] ls[i]).ts < ls[ls.len() - 1].ts,
        forall|i: int|
            0 <= i < ls.len() ==> i64::MIN <= (#[trigger] ls[i]).ts <= i64::MAX,
    ensures
        order_by_ts_desc(ls).len() == ls.len(),
        order_by_ts_desc(ls)[0] == ls[ls.len() - 1],
{
    let n = ls.len() as int;
    let pairs = Seq::new(ls.len(), |i: int| (i as usize, ls[i].ts as i64));
    let sorted = crate::sort::sort_desc(pairs);
    crate::sort::lemma_sort_desc_sorted(pairs);
    crate::sort::lemma_sort_desc_member_rev(pairs, n - 1);
    let last = pairs[n - 1];
    assert(last == ((n - 1) as usize, ls[n - 1].ts as i64));
    assert(last.1 as int == ls[n - 1].ts);
    let i = choose|i: int| 0 <= i < sorted.len() && #[trigger] sorted[i] == last;
    assert(sorted[0].1 >= sorted[i].1);
    crate::sort::lemma_sort_desc_member(pairs, 0);
    let w = choose|w: int| 0 <= w < pairs.len() && #[trigger] pairs[w] == sorted[0];
    assert(pairs[w] == (w as usize, ls[w].ts as i64));
    if w != n - 1 {
        assert(ls[w].ts < ls[n - 1].ts);
        assert(pairs[w].1 as int == ls[w].ts);
        assert(pairs[w].1 < last.1);
        assert(false);
    }
    assert(sorted[0] == last);
    assert(sorted[0].0 as int == n - 1);
    assert(order_by_ts_desc(ls)[0] == ls[sorted[0].0 as int]);
}

/// A link saved with a strictly newer timestamp than every existing link
/// of its chain is exactly what the composite id
/// `chain:<name>:<slug>` dereferences to afterwards, provided the chain's
/// name holds no separator.
pub proof fn law_saved_link_retrievable(m: StoreModel, l: ChainLinkModel)
    requires
        swf(m),
        !l.chain_name.contains(':'),
        forall|i: int|
            0 <= i < m.chain_links.len() && (#[trigger] m.chain_links[i]).chain_name
                == l.chain_name ==> m.chain_links[i].ts < l.ts,
        forall|i: int|
            0 <= i < m.chain_links.len() ==> i64::MIN <= (#[trigger] m.chain_links[i]).ts
                <= i64::MAX,
        i64::MIN <= l.ts <= i64::MAX,
        m.chain_links.len() < usize::MAX,
    ensures
        m_global_get(m_save_chain_link(m, l), "chain:"@ + l.chain_name + ":"@ + l.slug) == Ok::<
            GlobalEntityModel,
            GlobalGetError,
        >(GlobalEntityModel::Link(l)),
{
    let cid = "chain:"@ + l.chain_name + ":"@ + l.slug;
    let m2 = m_save_chain_link(m, l);
    // the id parses back into the chain's name and the slug
    assert(text::matches_at(cid, "chain:"@, 0)) by {
        assert(cid.subrange(0, "chain:"@.len() as int) =~= "chain:"@);
    }
    let rest = cid.skip("chain:"@.len() as int);
    assert(rest =~= l.chain_name + ":"@ + l.slug);
    reveal_strlit(":");
    let n = l.chain_name.len() as int;
    assert(rest[n] == ':');
    assert(forall|k: int| 0 <= k < n ==> rest[k] == l.chain_name[k]);
    assert(forall|k: int| 0 <= k < n ==> l.chain_name[k] != ':') by {
        assert forall|k: int| 0 <= k < n implies l.chain_name[k] != ':' by {
            if l.chain_name[k] == ':' {
                assert(l.chain_name.contains(':'));
            }
        }
    }
    text::lemma_find_char_props(rest, ':');
    assert(text::spec_find_char(rest, ':') == n) by {
        if text::spec_find_char(rest, ':') == -1 {
            assert(rest[n] != ':');
        } else {
            let f = text::spec_find_char(rest, ':');
            if f < n {
                assert(rest[f] != ':');
            }
            if f > n {
                assert(rest[n] != ':');
            }
        }
    }
    assert(rest.take(n) =~= l.chain_name);
    assert(rest.skip(n + 1) =~= l.slug);
    // saving appends: no existing link shares the (name, ts) pair
    assert(forall|i: int|
        0 <= i < m.chain_links.len() ==> !((#[trigger] m.chain_links[i]).chain_name
            == l.chain_name && m.chain_links[i].ts == l.ts));
    lemma_lset_is_push(m.chain_links, l);
    let links2 = m.chain_links.push(l);
    assert(m2.chain_links == links2);
    assert(links_of(links2, l.chain_name) == links_of(m.chain_links, l.chain_name).push(l)) by {
        assert(links2.drop_last() =~= m.chain_links);
        assert(links2.last() == l);
    }
    let lsf = links_of(links2, l.chain_name);
    // every earlier link of the chain is strictly older
    assert forall|i: int| 0 <= i < lsf.len() - 1 implies (#[trigger] lsf[i]).ts < lsf[lsf.len()
        - 1].ts by {
        lemma_links_of_member(m.chain_links, l.chain_name, i);
        let j = choose|j: int|
            0 <= j < m.chain_links.len() && #[trigger] m.chain_links[j] == links_of(
                m.chain_links,
                l.chain_name,
            )[i];
        assert(lsf[i] == links_of(m.chain_links, l.chain_name)[i]);
    }
    assert forall|i: int| 0 <= i < lsf.len() implies i64::MIN <= (#[trigger] lsf[i]).ts
        <= i64::MAX by {
        if i < lsf.len() - 1 {
            lemma_links_of_member(m.chain_links, l.chain_name, i);
            let j = choose|j: int|
                0 <= j < m.chain_links.len() && #[trigger] m.chain_links[j] == links_of(
                    m.chain_links,
                    l.chain_name,
                )[i];
        }
    }
    lemma_links_of_len(m.chain_links, l.chain_name);
    lemma_order_puts_newest_first(lsf);
    let ordered = order_by_ts_desc(lsf);
    assert(ordered[0] == l);
    assert(link_matches(l, l.slug));
    lemma_first_link_match_at(ordered, l.slug, 0);
}

/// A saved artifact is exactly what the composite id `artifact:<id>`
/// dereferences to afterwards, together with whatever text is cached for
/// that id (the empty string when none is).
pub proof fn law_saved_artifact_retrievable(m: StoreModel, a: ArtifactModel)
    requires
        swf(m),
    ensures
        ({
            let m2 = m_save_artifact(m, a);
            let cached = match alookup(m2.artifact_texts, a.id) {
                Some(t) => t,
                None => Seq::<char>::empty(),
            };
            m_global_get(m2, "artifact:"@ + a.id) == Ok::<GlobalEntityModel, GlobalGetError>(
                GlobalEntityModel::File(a, cached),
            )
        }),
{
    let cid = "artifact:"@ + a.id;
    let m2 = m_save_artifact(m, a);
    reveal_strlit("artifact:");
    reveal_strlit("chain:");
    assert(!text::matches_at(cid, "chain:"@, 0)) by {
        if text::matches_at(cid, "chain:"@, 0) {
            assert(cid.subrange(0, 6)[0] == cid[0]);
            assert(cid[0] == 'a');
        }
    }
    assert(text::matches_at(cid, "artifact:"@, 0)) by {
        assert(cid.subrange(0, "artifact:"@.len() as int) =~= "artifact:"@);
    }
    assert(cid.skip("artifact:"@.len() as int) =~= a.id);
    lemma_alookup_aset(m.artifacts, a.id, a, a.id);
}

} // verus!
