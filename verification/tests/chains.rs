//! Chains, artifacts and the composite get.

use tinymem::models::{make_artifact, ChainLink};
use tinymem::store::{GlobalEntity, GlobalGetError, Store};

fn link(chain: &str, slug: &str, content: &str, ts: i64) -> ChainLink {
    ChainLink {
        chain_name: chain.to_string(),
        session_id: "s".to_string(),
        slug: slug.to_string(),
        content: content.to_string(),
        ts,
    }
}

#[test]
fn chain_key_format() {
    let mut st = Store::new();
    let key = st.save_chain_link(&link("myfeature", "start", "hello", 1700000000));
    assert_eq!(key, "chains:myfeature:1700000000");
    let key2 = st.save_chain_link(&link("odd", "s", "x", -3));
    assert_eq!(key2, "chains:odd:-3");
}

#[test]
fn chain_links_come_back_newest_first() {
    let mut st = Store::new();
    st.save_chain_link(&link("f", "one", "c1", 10));
    st.save_chain_link(&link("f", "three", "c3", 30));
    st.save_chain_link(&link("f", "two", "c2", 20));
    st.save_chain_link(&link("other", "x", "y", 99));
    let links = st.get_chain_links("f");
    let slugs: Vec<&str> = links.iter().map(|l| l.slug.as_str()).collect();
    assert_eq!(slugs, vec!["three", "two", "one"]);
}

#[test]
fn saving_the_same_instant_overwrites() {
    let mut st = Store::new();
    st.save_chain_link(&link("f", "a", "first", 10));
    st.save_chain_link(&link("f", "b", "second", 10));
    let links = st.get_chain_links("f");
    assert_eq!(links.len(), 1);
    assert_eq!(links[0].slug, "b");
    assert_eq!(links[0].content, "second");
}

#[test]
fn list_chains_counts_links() {
    let mut st = Store::new();
    st.save_chain_link(&link("f", "a", "x", 1));
    st.save_chain_link(&link("f", "b", "y", 2));
    st.save_chain_link(&link("g", "c", "z", 3));
    let chains = st.list_chains();
    assert_eq!(chains.len(), 2);
    assert_eq!(chains[0], ("f".to_string(), 2));
    assert_eq!(chains[1], ("g".to_string(), 1));
}

#[test]
fn deleting_a_chain_removes_every_trace() {
    let mut st = Store::new();
    st.save_chain_link(&link("gone", "a", "x", 1));
    st.save_chain_link(&link("gone", "b", "y", 2));
    st.save_chain_link(&link("kept", "c", "z", 3));
    st.delete_chain("gone");
    assert_eq!(st.list_chains(), vec![("kept".to_string(), 1)]);
    assert!(st.get_chain_links("gone").is_empty());
    assert!(st
        .list_chain_names()
        .iter()
        .all(|n| n != "gone"));
    assert!(matches!(
        st.global_get("chain:gone:a"),
        Err(GlobalGetError::NotFound)
    ));
}

#[test]
fn chain_link_found_by_slug_or_timestamp() {
    let mut st = Store::new();
    st.save_chain_link(&link("f", "alpha", "old", 10));
    st.save_chain_link(&link("f", "alpha", "new", 20));
    let by_slug = st.get_chain_link("f", "alpha").unwrap();
    assert_eq!(by_slug.content, "new", "the newest matching link wins");
    let by_ts = st.get_chain_link("f", "10").unwrap();
    assert_eq!(by_ts.content, "old");
    assert!(st.get_chain_link("f", "zzz").is_none());
}

#[test]
fn global_get_round_trip_for_chain_links() {
    let mut st = Store::new();
    st.save_chain_link(&link("myfeature", "checkpoint1", "the saved context", 100));
    match st.global_get("chain:myfeature:checkpoint1") {
        Ok(GlobalEntity::Link(l)) => {
            assert_eq!(l.chain_name, "myfeature");
            assert_eq!(l.slug, "checkpoint1");
            assert_eq!(l.content, "the saved context");
        },
        _ => panic!("the saved link must be retrievable"),
    }
}

#[test]
fn global_get_round_trip_for_artifacts() {
    let mut st = Store::new();
    let a = make_artifact("s", "/tmp/r.pdf", "Report", "quarterly", "pdf", 42);
    let id = a.id.clone();
    assert_eq!(id, "42_Report");
    st.save_artifact(&a);

    // no cached text: the text comes back empty
    match st.global_get(&format!("artifact:{id}")) {
        Ok(GlobalEntity::File(got, text)) => {
            assert_eq!(got.title, "Report");
            assert_eq!(got.file_type, "pdf");
            assert_eq!(text, "");
        },
        _ => panic!("the saved artifact must be retrievable"),
    }

    st.set_artifact_text(&id, "extracted words");
    match st.global_get(&format!("artifact:{id}")) {
        Ok(GlobalEntity::File(_, text)) => assert_eq!(text, "extracted words"),
        _ => panic!("the cached text must come along"),
    }
}

#[test]
fn global_get_rejects_malformed_ids() {
    let st = Store::new();
    assert!(matches!(
        st.global_get("bogus"),
        Err(GlobalGetError::InvalidFormat)
    ));
    assert!(matches!(
        st.global_get("chain:nameonly"),
        Err(GlobalGetError::InvalidFormat)
    ));
    assert!(matches!(
        st.global_get("artifact:absent"),
        Err(GlobalGetError::NotFound)
    ));
}

#[test]
fn artifacts_list_newest_first_and_delete_drops_text() {
    let mut st = Store::new();
    let a1 = make_artifact("s", "/a", "One", "", "txt", 10);
    let a2 = make_artifact("s", "/b", "Two", "", "txt", 30);
    let a3 = make_artifact("s", "/c", "Three", "", "txt", 20);
    st.save_artifact(&a1);
    st.save_artifact(&a2);
    st.save_artifact(&a3);
    st.set_artifact_text(&a2.id, "text two");
    let titles: Vec<String> = st.list_artifacts().into_iter().map(|a| a.title).collect();
    assert_eq!(titles, vec!["Two", "Three", "One"]);

    st.delete_artifact(&a2.id);
    assert!(st.get_artifact(&a2.id).is_none());
    assert!(st.get_artifact_text(&a2.id).is_none());
    assert_eq!(st.list_artifacts().len(), 2);
}
