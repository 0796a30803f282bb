//! Relevance scoring and the ranked searches. The fuzzy similarity is
//! computed here with strsim's jaro-winkler, scaled into thousandths, just
//! as an adapter supplies it.

use tinymem::models::{make_artifact, ChainLink, Memory};
use tinymem::score::compute_search_score;
use tinymem::store::Store;

fn scaled_jw(a: &str, b: &str) -> u32 {
    (strsim::jaro_winkler(a, b) * 1000.0) as u32
}

fn head100(s: &str) -> String {
    s.chars().take(100).collect()
}

/// Similarities for a name search: one per name, in listing order.
fn name_sims(names: &[String], query: &str) -> Vec<u32> {
    let q = query.to_lowercase();
    names
        .iter()
        .map(|n| scaled_jw(&n.to_lowercase(), &q))
        .collect()
}

fn memory(key: &str, content: &str, ts: i64) -> Memory {
    Memory {
        key: key.to_string(),
        session_id: "s".to_string(),
        content: content.to_string(),
        kind: "insight".to_string(),
        ts,
    }
}

fn link(chain: &str, slug: &str, content: &str, ts: i64) -> ChainLink {
    ChainLink {
        chain_name: chain.to_string(),
        session_id: "s".to_string(),
        slug: slug.to_string(),
        content: content.to_string(),
        ts,
    }
}

#[test]
fn verbatim_hit_scores_at_least_900() {
    // 21 characters of text, 2 of query: the share bonus is 2000/21 = 95
    assert_eq!(compute_search_score("abcdefghijklmnopqrstu", "ab", 0), 995);
    // a query of a tenth of the text or more caps the bonus at 100
    assert_eq!(compute_search_score("hello world", "hello", 0), 1000);
    // the empty query occurs everywhere but earns no share bonus
    assert_eq!(compute_search_score("anything", "", 0), 900);
}

#[test]
fn word_overlap_scores_between_500_and_900() {
    // both words occur: 500 + 400 * 2/2
    assert_eq!(
        compute_search_score("postgres_connection_pool_config", "postgres pool", 0),
        900
    );
    // one word of two occurs: 500 + 400 * 1/2
    assert_eq!(
        compute_search_score("postgres_connection_config", "postgres pool", 0),
        700
    );
}

#[test]
fn fuzzy_fallback_is_half_the_similarity() {
    let text = "react_useeffect_async_cleanup";
    let query = "postgres pool";
    let sim = scaled_jw(&head100(text), query);
    assert!(sim <= 1000);
    assert_eq!(compute_search_score(text, query, sim), sim / 2);
}

#[test]
fn word_overlap_beats_unrelated_text() {
    let query = "postgres pool";
    let relevant = compute_search_score("postgres_connection_pool_config", query, 0);
    let text = "react_useeffect_async_cleanup";
    let unrelated = compute_search_score(text, query, scaled_jw(&head100(text), query));
    assert!(relevant > unrelated, "{relevant} vs {unrelated}");
}

#[test]
fn search_chains_filters_ranks_and_truncates() {
    let mut st = Store::new();
    for (name, ts) in [("user-auth", 1), ("user-auth-v2", 2), ("billing", 3)] {
        st.save_chain_link(&link(name, "s", "c", ts));
    }
    let names = st.list_chain_names();
    let query = "user-auth";
    let sims = name_sims(&names, query);
    let hits = st.search_chains(query, &sims, 10);
    // the exact match leads; the floor drops the unrelated chain
    assert!(hits.len() >= 1);
    assert_eq!(hits[0].0, "user-auth");
    assert_eq!(hits[0].1, 1000);
    assert!(hits.iter().all(|(_, s)| *s > 400));
    assert!(hits.iter().all(|(n, _)| n != "billing"));
    for w in hits.windows(2) {
        assert!(w[0].1 >= w[1].1, "scores must never increase");
    }
    // the limit is a hard cap
    let capped = st.search_chains(query, &sims, 1);
    assert_eq!(capped.len(), 1);
}

#[test]
fn search_memory_has_no_floor_and_respects_limit() {
    let mut st = Store::new();
    st.save_memory(&memory("postgres_connection_pool_config", "a", 1));
    st.save_memory(&memory("react_useeffect_async_cleanup", "b", 2));
    st.save_memory(&memory("api_rate_limiting_middleware", "c", 3));
    let keys = st.list_memory_keys();
    let query = "postgres pool";
    let sims = name_sims(&keys, query);
    let all = st.search_memory(query, &sims, 25);
    // no floor: every key comes back, ranked
    assert_eq!(all.len(), 3);
    assert_eq!(all[0].0, "postgres_connection_pool_config");
    for w in all.windows(2) {
        assert!(w[0].1 >= w[1].1);
    }
    let top2 = st.search_memory(query, &sims, 2);
    assert_eq!(top2.len(), 2);
}

#[test]
fn search_lowercases_names_and_query() {
    let mut st = Store::new();
    st.save_memory(&memory("MyFeature", "a", 1));
    let keys = st.list_memory_keys();
    // a similarity of zero isolates the substring bonus, which only
    // fires when both sides have been lowercased
    let sims = vec![0u32; keys.len()];
    let hits = st.search_memory("MYFEATURE", &sims, 10);
    assert_eq!(hits.len(), 1);
    assert_eq!(hits[0].1, 200);
}

#[test]
fn global_search_merges_chains_and_artifacts() {
    let mut st = Store::new();
    st.save_chain_link(&link(
        "deploy",
        "database-step",
        "Tune the database pool before rollout",
        100,
    ));
    st.save_chain_link(&link("ui", "theme", "Pick a colour palette", 200));
    let a = make_artifact("s", "/notes.txt", "Pool notes", "database pool sizing", "txt", 300);
    st.save_artifact(&a);

    let query = "database pool";
    let q_low = query.to_lowercase();
    let cands = st.global_candidates();
    let sims: Vec<u32> = cands
        .iter()
        .map(|(text, _)| scaled_jw(&head100(text), &q_low))
        .collect();

    let hits = st.global_search(query, &sims, 10);
    assert!(hits.len() >= 2);
    for w in hits.windows(2) {
        assert!(w[0].score >= w[1].score);
    }
    assert!(hits.iter().all(|h| h.score > 300));
    let ids: Vec<&str> = hits.iter().map(|h| h.id.as_str()).collect();
    assert!(ids.contains(&"chain:deploy:database-step"));
    assert!(ids.contains(&format!("artifact:{}", a.id).as_str()));
    assert!(ids.iter().all(|id| *id != "chain:ui:theme"));
    // every hit's id dereferences through the composite get
    for h in &hits {
        assert!(st.global_get(&h.id).is_ok(), "id {} must resolve", h.id);
    }
    // the limit caps the merge
    assert_eq!(st.global_search(query, &sims, 1).len(), 1);
}

#[test]
fn global_search_prefers_cached_text_for_previews() {
    let mut st = Store::new();
    let a = make_artifact("s", "/r.txt", "Paper", "short description", "txt", 1);
    st.save_artifact(&a);
    let long_text = "database pool ".repeat(40);
    st.set_artifact_text(&a.id, &long_text);

    let query = "database pool";
    let cands = st.global_candidates();
    let sims: Vec<u32> = cands
        .iter()
        .map(|(text, _)| scaled_jw(&head100(text), &query.to_lowercase()))
        .collect();
    let hits = st.global_search(query, &sims, 10);
    assert_eq!(hits.len(), 1);
    assert_eq!(hits[0].preview.chars().count(), 200);
    assert!(hits[0].preview.starts_with("database pool"));
}

#[test]
fn memories_overwrite_by_key() {
    let mut st = Store::new();
    st.save_memory(&memory("the_key", "first", 1));
    st.save_memory(&memory("the_key", "second", 2));
    assert_eq!(st.list_memory_keys(), vec!["the_key".to_string()]);
    let got = st.get_memory("the_key").unwrap();
    assert_eq!(got.content, "second");
    st.delete_memory("the_key");
    assert!(st.get_memory("the_key").is_none());
    assert!(st.list_memory_keys().is_empty());
}

#[test]
fn searches_on_an_empty_store_return_nothing() {
    let st = Store::new();
    assert!(st.search_chains("anything", &Vec::new(), 10).is_empty());
    assert!(st.search_memory("anything", &Vec::new(), 10).is_empty());
    assert!(st.global_search("anything", &Vec::new(), 10).is_empty());
    assert!(st.list_chains().is_empty());
    assert!(st.list_artifacts().is_empty());
}

#[test]
fn global_search_checked_guards_the_similarities() {
    let mut st = Store::new();
    st.save_chain_link(&link("f", "s", "content", 1));
    let wrong_len = vec![0u32; 99];
    assert!(st.global_search_checked("q", &wrong_len, 10).is_none());
    let out_of_range = vec![5000u32; st.global_candidates().len()];
    assert!(st.global_search_checked("q", &out_of_range, 10).is_none());
    let fine = vec![0u32; st.global_candidates().len()];
    assert!(st.global_search_checked("content", &fine, 10).is_some());
}
