//! Session lifecycle: creation, the active/history partition, marking
//! done, reactivation on touch, stale reclamation, and the ask/answer
//! rendezvous.

use tinymem::models::{Hook, Session, Status, ASK_TIMEOUT_SECS};
use tinymem::store::{AskPoll, Store};

fn session(id: &str, agent: &str, ts: i64) -> Session {
    Session {
        id: id.to_string(),
        name: None,
        agent: agent.to_string(),
        cwd: "/tmp".to_string(),
        status: Status::Active,
        created: ts,
        last_activity: ts,
    }
}

#[test]
fn create_and_get_session() {
    let mut st = Store::new();
    st.create_session(session("s1", "helper", 100));
    let got = st.get_session("s1").expect("created session must be found");
    assert_eq!(got.id, "s1");
    assert_eq!(got.agent, "helper");
    assert_eq!(got.cwd, "/tmp");
    assert!(got.status.is_active());
    assert_eq!(got.created, 100);
    assert_eq!(got.last_activity, 100);
    assert!(st.get_session("nope").is_none());
}

#[test]
fn active_and_history_partition() {
    let mut st = Store::new();
    st.create_session(session("a", "x", 1));
    st.create_session(session("b", "x", 2));
    assert_eq!(st.list_active(), vec!["a".to_string(), "b".to_string()]);
    assert!(st.list_history(10).is_empty());

    st.mark_done("a");
    assert_eq!(st.list_active(), vec!["b".to_string()]);
    assert_eq!(st.list_history(10), vec!["a".to_string()]);
    assert!(st.get_session("a").unwrap().status.is_done());

    // once done, never in both and never in neither
    st.mark_done("a");
    assert_eq!(st.list_active(), vec!["b".to_string()]);
    assert_eq!(st.list_history(10), vec!["a".to_string()]);
}

#[test]
fn touch_reactivates_without_duplicates() {
    let mut st = Store::new();
    st.create_session(session("a", "x", 1));
    for round in 0..3 {
        st.mark_done("a");
        assert_eq!(st.list_history(10), vec!["a".to_string()], "round {round}");
        st.touch_and_reactivate("a", 10 + round);
        assert_eq!(st.list_active(), vec!["a".to_string()], "round {round}");
        assert!(st.list_history(10).is_empty(), "round {round}");
        let s = st.get_session("a").unwrap();
        assert!(s.status.is_active());
        assert_eq!(s.last_activity, 10 + round);
    }
}

#[test]
fn history_is_newest_first_and_limited() {
    let mut st = Store::new();
    for id in ["a", "b", "c"] {
        st.create_session(session(id, "x", 1));
    }
    st.mark_done("a");
    st.mark_done("b");
    st.mark_done("c");
    assert_eq!(
        st.list_history(10),
        vec!["c".to_string(), "b".to_string(), "a".to_string()]
    );
    assert_eq!(st.list_history(2), vec!["c".to_string(), "b".to_string()]);
}

#[test]
fn hooks_append_and_limit() {
    let mut st = Store::new();
    st.create_session(session("s", "x", 1));
    for k in 0..4 {
        let h = Hook {
            ts: 10 + k,
            kind: "post".to_string(),
            task: format!("task{k}"),
            meta: String::new(),
        };
        st.add_hook("s", &h, 10 + k);
    }
    let all = st.get_hooks("s", 10);
    assert_eq!(all.len(), 4);
    assert_eq!(all[0].task, "task0");
    assert_eq!(all[3].task, "task3");
    let last_two = st.get_hooks("s", 2);
    assert_eq!(last_two.len(), 2);
    assert_eq!(last_two[0].task, "task2");
    assert_eq!(last_two[1].task, "task3");
}

#[test]
fn append_hook_tracks_active_tool() {
    let mut st = Store::new();
    st.create_session(session("s", "x", 1));
    st.append_hook("s", "pre", "Bash", "{}", 5);
    assert_eq!(st.get_active_tool("s"), Some("Bash".to_string()));
    st.append_hook("s", "post", "Bash", "{}", 6);
    assert_eq!(st.get_active_tool("s"), None);
    assert_eq!(st.get_hooks("s", 10).len(), 2);
    assert_eq!(st.get_session("s").unwrap().last_activity, 6);
}

#[test]
fn cleanup_stale_closes_idle_active_only() {
    let mut st = Store::new();
    st.create_session(session("old", "x", 0));
    st.create_session(session("fresh", "x", 0));
    st.touch_and_reactivate("fresh", 1000);
    // a session blocked on a question is never reclaimed
    st.create_session(session("asking", "x", 0));
    assert!(st.ask_begin("asking", "proceed?", 0));

    let cleaned = st.cleanup_stale(120, 1030);
    assert_eq!(cleaned, vec!["old".to_string()]);
    assert!(st.get_session("old").unwrap().status.is_done());
    assert!(st.get_session("fresh").unwrap().status.is_active());
    assert!(st.get_session("asking").unwrap().status.is_waiting());
    assert_eq!(st.list_history(10), vec!["old".to_string()]);
}

#[test]
fn start_session_creates_then_reuses() {
    let mut st = Store::new();
    let (id1, reused1) = st.start_session("ext-123", "helper", "/w", "n1".to_string(), 50);
    assert_eq!(id1, "n1");
    assert!(!reused1);
    assert_eq!(st.get_claude_mapping("ext-123"), Some("n1".to_string()));

    st.mark_done("n1");
    let (id2, reused2) = st.start_session("ext-123", "helper", "/w", "n2".to_string(), 60);
    assert_eq!(id2, "n1");
    assert!(reused2);
    // reuse revives the mapped session
    assert!(st.get_session("n1").unwrap().status.is_active());
    assert_eq!(st.list_active(), vec!["n1".to_string()]);
}

#[test]
fn ask_answer_scenario() {
    // create session A; ask blocks; another caller answers; the poll
    // returns the answer and the session is active again
    let mut st = Store::new();
    st.create_session(session("A", "helper", 0));
    assert!(st.ask_begin("A", "deploy now?", 10));
    assert!(st.get_session("A").unwrap().status.is_waiting());

    st.answer("A", "yes");
    match st.ask_poll("A", 11) {
        AskPoll::Answered(text) => assert_eq!(text, "yes"),
        other => panic!("expected the answer, got {:?}", discriminant_name(&other)),
    }
    assert!(st.get_session("A").unwrap().status.is_active());
    // the rendezvous left no residue: a second poll finds nothing pending
    assert!(matches!(st.ask_poll("A", 12), AskPoll::NotWaiting));
}

#[test]
fn ask_times_out_at_the_ceiling() {
    let mut st = Store::new();
    st.create_session(session("A", "helper", 0));
    assert!(st.ask_begin("A", "anyone there?", 1000));
    assert!(matches!(st.ask_poll("A", 1000), AskPoll::StillWaiting));
    assert!(matches!(
        st.ask_poll("A", 1000 + ASK_TIMEOUT_SECS - 1),
        AskPoll::StillWaiting
    ));
    assert!(matches!(
        st.ask_poll("A", 1000 + ASK_TIMEOUT_SECS),
        AskPoll::TimedOut
    ));
    assert!(st.get_session("A").unwrap().status.is_active());
}

#[test]
fn ask_on_missing_session_reports_it() {
    let mut st = Store::new();
    assert!(!st.ask_begin("ghost", "hello?", 5));
    assert!(matches!(st.ask_poll("ghost", 6), AskPoll::NotWaiting));
}

#[test]
fn stale_answer_never_leaks_into_a_new_ask() {
    let mut st = Store::new();
    st.create_session(session("A", "x", 0));
    assert!(st.ask_begin("A", "first?", 10));
    st.answer("A", "stale");
    // the first rendezvous is abandoned without ever polling; its answer
    // lingers in the store
    // a fresh ask discards the stale answer before waiting
    assert!(st.ask_begin("A", "second?", 700));
    assert!(matches!(st.ask_poll("A", 701), AskPoll::StillWaiting));
    st.answer("A", "fresh");
    match st.ask_poll("A", 702) {
        AskPoll::Answered(text) => assert_eq!(text, "fresh"),
        _ => panic!("expected the fresh answer"),
    }
}

fn discriminant_name(p: &AskPoll) -> &'static str {
    match p {
        AskPoll::Answered(_) => "Answered",
        AskPoll::TimedOut => "TimedOut",
        AskPoll::StillWaiting => "StillWaiting",
        AskPoll::NotWaiting => "NotWaiting",
    }
}
