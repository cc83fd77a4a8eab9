use ryu_mission_control::api::{
    get_conversation, health, model_failed, not_found, overview, overview_in_range, overview_with,
    store_narrative, summarize, MAX_HOT_FILES, MODEL_PREF_KEY,
};
use ryu_mission_control::days::DaysError;
use ryu_mission_control::host::Host;
use ryu_mission_control::model::{FileTouch, IndexRequest, Totals, WorkItem};
use ryu_mission_control::store::Store;
use ryu_mission_control::summary::{build_prompt, SYSTEM};
use ryu_mission_control::window::Filter;

const NO_DIGEST: &str = "no digest has been indexed for this conversation";

fn req(updated: i64, turns: i64, paths: &[&str], open: &[&str]) -> IndexRequest {
    IndexRequest {
        title: Some("Ship auth".into()),
        folder_path: Some("/repo".into()),
        agent_id: None,
        source_updated_at: updated,
        totals: Totals {
            turns,
            writes: 1,
            commands: 2,
            failures: 3,
            tool_calls: 4,
            files_touched: paths.len() as i64,
        },
        turns: vec![],
        files: paths
            .iter()
            .map(|p| FileTouch {
                path: (*p).into(),
                kind: "edit".into(),
                count: 1,
            })
            .collect(),
        open_items: open
            .iter()
            .map(|c| WorkItem {
                content: (*c).into(),
                status: "pending".into(),
            })
            .collect(),
        done_items: vec![],
    }
}

fn host() -> Host {
    Host::from_env(Some("t"), Some("p"), Some("7980")).unwrap()
}

#[test]
fn the_probe_tells_a_count_and_no_more() {
    let mut store = Store::open_memory();
    store.index("a", &req(1, 1, &[], &[]), 1);
    let up = health(Ok(store.index_state()));
    assert_eq!(up.status, 200);
    assert!(up.ok);
    assert_eq!(up.service.as_deref(), Some("mission-control"));
    assert_eq!(up.indexed, Some(1));
    assert_eq!(up.error, None);
    let down = health(Err("disk gone".into()));
    assert_eq!(down.status, 503);
    assert!(!down.ok);
    assert_eq!(down.service, None);
    assert_eq!(down.indexed, None);
    assert_eq!(down.error.as_deref(), Some("disk gone"));
}

#[test]
fn a_conversation_that_is_not_stored_is_not_found() {
    let mut store = Store::open_memory();
    let missing = get_conversation(&store, "a").unwrap_err();
    assert_eq!(missing.status, 404);
    assert_eq!(missing.message, NO_DIGEST);
    assert_eq!(not_found().message, NO_DIGEST);
    store.index("a", &req(1, 1, &[], &["x"]), 1);
    assert_eq!(get_conversation(&store, "a").unwrap().open_items.len(), 1);
}

#[test]
fn an_overview_rolls_its_window_up() {
    let mut store = Store::open_memory();
    store.index("a", &req(1_700_000_000_000, 2, &["/x", "/y"], &["t1"]), 1);
    store.index("b", &req(1_700_000_000_001, 5, &["/x"], &["t2", "t3"]), 1);
    let filter = Filter {
        since_ms: Some(7),
        folder_path: Some("/repo".into()),
        ..Default::default()
    };
    assert!(overview_in_range(&store, &filter));
    let o = overview(&store, &filter).unwrap();
    assert_eq!(o.since_ms, Some(7));
    assert_eq!(o.folder_path.as_deref(), Some("/repo"));
    assert_eq!(o.totals.conversations, 2);
    assert_eq!(o.totals.open_items, 3);
    assert_eq!(o.totals.work.turns, 7);
    assert_eq!(o.totals.work.writes, 2);
    assert_eq!(o.totals.work.commands, 4);
    assert_eq!(o.totals.work.failures, 6);
    assert_eq!(o.totals.work.tool_calls, 8);
    // Two paths, though the conversations count three between them.
    assert_eq!(o.totals.work.files_touched, 2);
    assert_eq!(o.files[0].path, "/x");
    assert_eq!(o.files[0].conversations, 2);
    assert_eq!(o.conversations[0].conversation_id, "b");
    assert_eq!(o.open_items[0].content, "t2");
    assert_eq!(o.days.len(), 1);
    assert_eq!(o.days[0].turns, 7);
}

#[test]
fn an_empty_window_has_an_empty_overview() {
    let store = Store::open_memory();
    let o = overview(&store, &Filter::default()).unwrap();
    assert_eq!(o.totals.conversations, 0);
    assert_eq!(o.totals.work.turns, 0);
    assert!(o.days.is_empty() && o.files.is_empty() && o.open_items.is_empty());
}

#[test]
fn a_conversation_outside_the_window_cannot_fail_the_overview() {
    let mut store = Store::open_memory();
    store.index("a", &req(i64::MAX, 1, &["/x"], &["t"]), 1);
    let elsewhere = Filter {
        folder_path: Some("/elsewhere".into()),
        ..Default::default()
    };
    let o = overview(&store, &elsewhere).unwrap();
    assert_eq!(o.totals.conversations, 0);
    assert_eq!(o.totals.open_items, 0);
    assert!(o.days.is_empty());
}

#[test]
fn an_overview_holds_as_many_files_as_its_section() {
    let mut store = Store::open_memory();
    let paths: Vec<String> = (0..40).map(|i| format!("/f{i}")).collect();
    let refs: Vec<&str> = paths.iter().map(|p| p.as_str()).collect();
    store.index("a", &req(1, 1, &refs, &[]), 1);
    let o = overview_with(&store, &Filter::default(), vec![]);
    assert_eq!(o.files.len(), MAX_HOT_FILES);
    assert_eq!(o.totals.work.files_touched, 25);
}

#[test]
fn an_overview_that_cannot_be_counted_is_out_of_range() {
    let mut store = Store::open_memory();
    store.index("a", &req(1, i64::MAX, &[], &[]), 1);
    assert!(overview_in_range(&store, &Filter::default()));
    store.index("b", &req(2, 1, &[], &[]), 1);
    assert!(!overview_in_range(&store, &Filter::default()));
    let one = Filter {
        limit: 1,
        ..Default::default()
    };
    assert!(overview_in_range(&store, &one));
    let mut touched = req(3, 0, &["/x", "/x"], &[]);
    touched.files[0].count = i64::MAX;
    let mut store = Store::open_memory();
    store.index("c", &touched, 1);
    assert!(!overview_in_range(&store, &Filter::default()));
}

#[test]
fn an_overview_without_its_days_is_not_served() {
    let mut store = Store::open_memory();
    store.index("a", &req(i64::MAX, 1, &[], &[]), 1);
    assert!(matches!(
        overview(&store, &Filter::default()),
        Err(DaysError::Undated)
    ));
}

#[test]
fn a_narrative_needs_a_host_and_a_digest() {
    let mut store = Store::open_memory();
    let e = summarize(None, &store, "a").unwrap_err();
    assert_eq!(e.status, 503);
    assert_eq!(
        e.message,
        "this node cannot reach a model: the sidecar was not started by Core"
    );
    let host = host();
    let e = summarize(Some(&host), &store, "a").unwrap_err();
    assert_eq!(e.status, 404);
    assert_eq!(e.message, NO_DIGEST);
    store.index("a", &req(1, 1, &["/x"], &["t"]), 1);
    let call = summarize(Some(&host), &store, "a").unwrap();
    assert_eq!(call.system, SYSTEM);
    assert_eq!(call.prompt, build_prompt(&store.detail("a").unwrap()));
    assert_eq!(call.model_pref_key.as_deref(), Some("auto-title-model"));
    assert_eq!(MODEL_PREF_KEY, "auto-title-model");
    assert_eq!(call.url, "http://127.0.0.1:7980/api/host/model/complete");
}

#[test]
fn a_narrative_is_normalized_and_stored() {
    let mut store = Store::open_memory();
    store.index("a", &req(1, 1, &[], &[]), 1);
    let n = store_narrative(&mut store, "a", Ok("Summary:\nDone.\n".into()), 9).unwrap();
    assert_eq!(n.summary, "Done.");
    assert_eq!(n.summarized_at, 9);
    let digest = store.digest("a").unwrap();
    assert_eq!(digest.summary.as_deref(), Some("Done."));
    assert_eq!(digest.summarized_at, Some(9));
}

#[test]
fn a_model_that_fails_leaves_the_digest_as_it_was() {
    let mut store = Store::open_memory();
    store.index("a", &req(1, 1, &[], &[]), 1);
    store.set_summary("a", "before", 2);
    assert_eq!(model_failed("no route".into()).status, 502);
    assert_eq!(model_failed("no route".into()).message, "no route");
    let e = store_narrative(&mut store, "a", Err("no route".into()), 9).unwrap_err();
    assert_eq!(e.status, 502);
    assert_eq!(e.message, "no route");
    assert_eq!(store.digest("a").unwrap().summary.as_deref(), Some("before"));
}

#[test]
fn a_narrative_for_a_conversation_that_went_away_is_not_found() {
    let mut store = Store::open_memory();
    let e = store_narrative(&mut store, "a", Ok("Done.".into()), 9).unwrap_err();
    assert_eq!(e.status, 404);
    assert_eq!(e.message, NO_DIGEST);
}
