use ryu_mission_control::hot::hot_files;
use ryu_mission_control::model::{FileTouch, IndexRequest, Totals, TurnRecord, WorkItem};
use ryu_mission_control::store::{Store, DB_FILE_NAME};
use ryu_mission_control::tables::{DigestRow, ItemRow};
use ryu_mission_control::window::Filter;

fn req(updated: i64, open: &[&str], done: &[&str]) -> IndexRequest {
    IndexRequest {
        title: Some("Ship auth".into()),
        folder_path: Some("/repo".into()),
        agent_id: None,
        source_updated_at: updated,
        totals: Totals {
            turns: 2,
            writes: 1,
            commands: 3,
            failures: 1,
            tool_calls: 7,
            files_touched: 1,
        },
        turns: vec![TurnRecord {
            index: 1,
            headline: "Changed auth.ts".into(),
            request: "add auth".into(),
            rationale: "the expiry check is off by one".into(),
            outcome: "done".into(),
            status: "ok".into(),
            files: vec![],
        }],
        files: vec![FileTouch {
            path: "/repo/auth.ts".into(),
            kind: "edit".into(),
            count: 2,
        }],
        open_items: open
            .iter()
            .map(|c| WorkItem {
                content: (*c).into(),
                status: "pending".into(),
            })
            .collect(),
        done_items: done
            .iter()
            .map(|c| WorkItem {
                content: (*c).into(),
                status: "completed".into(),
            })
            .collect(),
    }
}

fn ids(store: &Store, filter: &Filter) -> Vec<String> {
    store
        .conversations(filter)
        .into_iter()
        .map(|d| d.conversation_id)
        .collect()
}

fn todos(store: &Store, filter: &Filter) -> Vec<String> {
    store
        .open_items(filter)
        .into_iter()
        .map(|i| i.content)
        .collect()
}

#[test]
fn indexing_stores_totals_and_the_latest_headline() {
    let mut store = Store::open_memory();
    let digest = store.index("c1", &req(1000, &["ship it"], &[]), 5);
    assert_eq!(digest.totals.turns, 2);
    assert_eq!(digest.headline.as_deref(), Some("Changed auth.ts"));
    assert_eq!(digest.open_count, 1);
    assert_eq!(digest.done_count, 0);
    assert_eq!(digest.indexed_at, 5);
}

#[test]
fn re_indexing_replaces_items_rather_than_accumulating_them() {
    let mut store = Store::open_memory();
    store.index("c1", &req(1000, &["a", "b"], &[]), 1);
    let digest = store.index("c1", &req(2000, &["b"], &["a"]), 2);
    assert_eq!(digest.open_count, 1);
    assert_eq!(digest.done_count, 1);
    let detail = store.detail("c1").unwrap();
    assert_eq!(detail.open_items.len(), 1);
    assert_eq!(detail.open_items[0].content, "b");
}

#[test]
fn a_summary_survives_but_re_indexing_keeps_it() {
    let mut store = Store::open_memory();
    store.index("c1", &req(1000, &[], &[]), 1);
    assert!(store.set_summary("c1", "shipped auth", 9));
    store.index("c1", &req(2000, &[], &[]), 2);
    let digest = store.digest("c1").unwrap();
    assert_eq!(digest.summary.as_deref(), Some("shipped auth"));
    assert_eq!(digest.summarized_at, Some(9));
}

#[test]
fn the_window_filters_by_time_and_folder() {
    let mut store = Store::open_memory();
    store.index("old", &req(1_000, &[], &[]), 1);
    store.index("new", &req(9_000, &[], &[]), 1);
    let mut other = req(9_000, &[], &[]);
    other.folder_path = Some("/elsewhere".into());
    store.index("other", &other, 1);

    let recent = store.conversations(&Filter {
        since_ms: Some(5_000),
        ..Default::default()
    });
    assert_eq!(recent.len(), 2);

    let scoped = store.conversations(&Filter {
        since_ms: Some(5_000),
        folder_path: Some("/repo".into()),
        ..Default::default()
    });
    assert_eq!(scoped.len(), 1);
    assert_eq!(scoped[0].conversation_id, "new");
}

#[test]
fn open_items_exclude_completed_work_and_carry_their_chat() {
    let mut store = Store::open_memory();
    store.index("c1", &req(1000, &["write the docs"], &["ship it"]), 1);
    let items = store.open_items(&Filter::default());
    assert_eq!(items.len(), 1);
    assert_eq!(items[0].content, "write the docs");
    assert_eq!(items[0].conversation_title.as_deref(), Some("Ship auth"));
}

#[test]
fn deleting_a_conversation_takes_its_items_with_it() {
    let mut store = Store::open_memory();
    store.index("c1", &req(1000, &["x"], &[]), 1);
    assert!(store.delete("c1"));
    assert!(store.digest("c1").is_none());
    assert!(store.open_items(&Filter::default()).is_empty());
    assert!(!store.delete("c1"));
}

#[test]
fn index_state_reports_staleness_keys() {
    let mut store = Store::open_memory();
    store.index("c1", &req(1234, &[], &[]), 1);
    let state = store.index_state();
    assert_eq!(state.len(), 1);
    assert_eq!(state[0].source_updated_at, 1234);
    assert!(!state[0].summarized);
}

#[test]
fn hot_files_count_distinct_conversations_and_prefer_the_stronger_touch() {
    let mut store = Store::open_memory();
    let mut a = req(1000, &[], &[]);
    a.files = vec![FileTouch {
        path: "/repo/auth.ts".into(),
        kind: "read".into(),
        count: 1,
    }];
    let mut b = req(2000, &[], &[]);
    b.files = vec![
        FileTouch {
            path: "/repo/auth.ts".into(),
            kind: "edit".into(),
            count: 3,
        },
        FileTouch {
            path: "/repo/solo.ts".into(),
            kind: "create".into(),
            count: 9,
        },
    ];
    store.index("a", &a, 1);
    store.index("b", &b, 1);

    let details: Vec<_> = ["a", "b"]
        .iter()
        .map(|id| store.detail(id).unwrap())
        .collect();
    let hot = hot_files(&details, 10);
    assert_eq!(hot[0].path, "/repo/auth.ts");
    assert_eq!(hot[0].conversations, 2);
    assert_eq!(hot[0].touches, 4);
    assert_eq!(hot[0].kind, "edit");
    assert_eq!(hot[1].path, "/repo/solo.ts");
}

#[test]
fn days_bucket_by_local_date() {
    let mut store = Store::open_memory();
    // Two chats on the same instant land in one bucket; a much later one does not.
    store.index("a", &req(1_700_000_000_000, &[], &[]), 1);
    store.index("b", &req(1_700_000_000_000, &[], &[]), 1);
    store.index("c", &req(1_800_000_000_000, &[], &[]), 1);
    let days = store.days(&Filter::default()).unwrap();
    assert_eq!(days.len(), 2);
    assert_eq!(days[0].conversations, 2);
    assert_eq!(days[0].turns, 4);
    // Oldest first, so a chart reads left to right.
    assert!(days[0].date < days[1].date);
}

#[test]
fn the_database_has_its_own_file_name() {
    assert_eq!(DB_FILE_NAME, "mission-control.db");
}

#[test]
fn an_empty_store_serves_nothing() {
    let mut store = Store::open_memory();
    assert!(store.digest("c1").is_none());
    assert!(store.detail("c1").is_none());
    assert!(!store.delete("c1"));
    assert!(!store.set_summary("c1", "x", 1));
    assert!(store.index_state().is_empty());
    assert!(store.conversations(&Filter::default()).is_empty());
    assert!(store.open_items(&Filter::default()).is_empty());
}

#[test]
fn a_detail_gives_back_what_was_indexed() {
    let mut store = Store::open_memory();
    store.index("c1", &req(1000, &["a", "b"], &["c"]), 7);
    let detail = store.detail("c1").unwrap();
    assert_eq!(detail.digest.conversation_id, "c1");
    assert_eq!(detail.digest.title.as_deref(), Some("Ship auth"));
    assert_eq!(detail.digest.folder_path.as_deref(), Some("/repo"));
    assert_eq!(detail.digest.agent_id, None);
    assert_eq!(detail.digest.source_updated_at, 1000);
    assert_eq!(detail.digest.indexed_at, 7);
    assert_eq!(detail.digest.totals.tool_calls, 7);
    assert_eq!(detail.digest.summary, None);
    assert_eq!(detail.digest.open_count, 2);
    assert_eq!(detail.digest.done_count, 1);
    assert_eq!(detail.turns.len(), 1);
    assert_eq!(detail.turns[0].rationale, "the expiry check is off by one");
    assert_eq!(detail.files.len(), 1);
    assert_eq!(detail.files[0].path, "/repo/auth.ts");
    assert_eq!(detail.files[0].count, 2);
    assert_eq!(detail.open_items[0].content, "a");
    assert_eq!(detail.open_items[1].content, "b");
    assert_eq!(detail.done_items[0].content, "c");
}

#[test]
fn an_item_is_sorted_by_its_status_and_not_by_its_list() {
    let mut store = Store::open_memory();
    let mut mixed = req(1000, &["a"], &["b"]);
    mixed.open_items[0].status = "completed".into();
    mixed.done_items[0].status = "in_progress".into();
    let digest = store.index("c1", &mixed, 1);
    assert_eq!(digest.open_count, 1);
    assert_eq!(digest.done_count, 1);
    let detail = store.detail("c1").unwrap();
    assert_eq!(detail.open_items[0].content, "b");
    assert_eq!(detail.done_items[0].content, "a");
    assert_eq!(todos(&store, &Filter::default()), vec!["b"]);
}

#[test]
fn the_headline_is_that_of_the_last_turn() {
    let mut store = Store::open_memory();
    let mut two = req(1000, &[], &[]);
    let mut second = two.turns[0].clone();
    second.headline = "Ran the tests".into();
    two.turns.push(second);
    assert_eq!(
        store.index("c1", &two, 1).headline.as_deref(),
        Some("Ran the tests")
    );
    two.turns.clear();
    assert_eq!(store.index("c1", &two, 2).headline, None);
}

#[test]
fn a_second_narrative_replaces_the_first() {
    let mut store = Store::open_memory();
    store.index("c1", &req(1000, &["a"], &[]), 1);
    assert!(store.set_summary("c1", "one", 2));
    assert!(store.set_summary("c1", "two", 3));
    let digest = store.digest("c1").unwrap();
    assert_eq!(digest.summary.as_deref(), Some("two"));
    assert_eq!(digest.summarized_at, Some(3));
    assert_eq!(digest.indexed_at, 1);
    assert_eq!(digest.open_count, 1);
    assert!(store.index_state()[0].summarized);
}

#[test]
fn a_forgotten_narrative_stays_forgotten() {
    let mut store = Store::open_memory();
    store.index("c1", &req(1000, &[], &[]), 1);
    store.set_summary("c1", "one", 2);
    store.delete("c1");
    assert_eq!(store.index("c1", &req(1000, &[], &[]), 3).summary, None);
}

#[test]
fn one_conversation_does_not_disturb_another() {
    let mut store = Store::open_memory();
    store.index("a", &req(1000, &["x"], &[]), 1);
    store.index("b", &req(2000, &["y"], &["z"]), 2);
    store.set_summary("a", "about a", 3);
    store.index("a", &req(3000, &[], &[]), 4);
    let b = store.detail("b").unwrap();
    assert_eq!(b.digest.summary, None);
    assert_eq!(b.open_items[0].content, "y");
    assert_eq!(b.done_items[0].content, "z");
    store.delete("a");
    let b = store.detail("b").unwrap();
    assert_eq!(b.digest.source_updated_at, 2000);
    assert_eq!(b.open_items[0].content, "y");
}

#[test]
fn the_newest_conversations_come_first_and_the_limit_cuts_the_oldest() {
    let mut store = Store::open_memory();
    store.index("a", &req(2000, &[], &[]), 1);
    store.index("b", &req(3000, &[], &[]), 1);
    store.index("c", &req(1000, &[], &[]), 1);
    assert_eq!(ids(&store, &Filter::default()), vec!["b", "a", "c"]);
    let two = Filter {
        limit: 2,
        ..Default::default()
    };
    assert_eq!(ids(&store, &two), vec!["b", "a"]);
    let none = Filter {
        limit: 0,
        ..Default::default()
    };
    assert!(ids(&store, &none).is_empty());
    let all = Filter {
        limit: -1,
        ..Default::default()
    };
    assert_eq!(ids(&store, &all).len(), 3);
}

#[test]
fn the_window_begins_at_its_instant() {
    let mut store = Store::open_memory();
    store.index("a", &req(2000, &["x"], &[]), 1);
    let at = Filter {
        since_ms: Some(2000),
        ..Default::default()
    };
    let after = Filter {
        since_ms: Some(2001),
        ..Default::default()
    };
    assert_eq!(ids(&store, &at), vec!["a"]);
    assert!(ids(&store, &after).is_empty());
    assert!(todos(&store, &after).is_empty());
    assert!(store.days(&after).unwrap().is_empty());
}

#[test]
fn a_conversation_without_a_folder_is_in_no_folder() {
    let mut store = Store::open_memory();
    let mut loose = req(1000, &[], &[]);
    loose.folder_path = None;
    store.index("a", &loose, 1);
    let scoped = Filter {
        folder_path: Some("/repo".into()),
        ..Default::default()
    };
    assert!(ids(&store, &scoped).is_empty());
    assert_eq!(ids(&store, &Filter::default()), vec!["a"]);
}

#[test]
fn work_of_the_most_recent_conversation_comes_first() {
    let mut store = Store::open_memory();
    store.index("old", &req(1000, &["o1", "o2"], &[]), 1);
    store.index("new", &req(2000, &["n1", "n2"], &["n3"]), 1);
    assert_eq!(
        todos(&store, &Filter::default()),
        vec!["n1", "n2", "o1", "o2"]
    );
    let three = Filter {
        item_limit: 3,
        ..Default::default()
    };
    assert_eq!(todos(&store, &three), vec!["n1", "n2", "o1"]);
}

#[test]
fn work_of_one_instant_goes_by_its_places() {
    let mut store = Store::open_memory();
    store.index("a", &req(1000, &["a0", "a1"], &[]), 1);
    store.index("b", &req(1000, &["b0", "b1"], &[]), 1);
    assert_eq!(
        todos(&store, &Filter::default()),
        vec!["a0", "b0", "a1", "b1"]
    );
}

#[test]
fn a_day_has_its_date() {
    let mut store = Store::open_memory();
    store.index("a", &req(1_700_000_000_000, &[], &[]), 1);
    let days = store.days(&Filter::default()).unwrap();
    assert_eq!(days.len(), 1);
    // 22:13 on the 14th in Greenwich.
    assert!(days[0].date == "2023-11-14" || days[0].date == "2023-11-15");
    assert_eq!(days[0].conversations, 1);
    assert_eq!(days[0].writes, 1);
    assert_eq!(days[0].failures, 1);
}

fn row(id: &str) -> DigestRow {
    DigestRow {
        conversation_id: id.into(),
        title: None,
        folder_path: None,
        agent_id: None,
        source_updated_at: 1,
        indexed_at: 2,
        totals: Totals::default(),
        headline: None,
        turns: Some(vec![]),
        files: Some(vec![]),
        summary: None,
        summarized_at: None,
    }
}

fn item(id: &str, ordinal: i128) -> ItemRow {
    ItemRow {
        conversation_id: id.into(),
        ordinal,
        content: "x".into(),
        status: "pending".into(),
    }
}

#[test]
fn tables_make_a_store() {
    let store = Store::from_tables(
        vec![row("a"), row("b")],
        vec![item("a", 0), item("b", 0), item("a", 3)],
    )
    .unwrap();
    assert_eq!(store.digest("a").unwrap().open_count, 2);
    assert_eq!(store.digest("b").unwrap().open_count, 1);
    let (digests, items) = store.tables();
    assert_eq!(digests.len(), 2);
    assert_eq!(items.len(), 3);
    assert_eq!(items[2].ordinal, 3);
}

#[test]
fn tables_that_no_store_has_are_refused() {
    assert!(Store::from_tables(vec![row("a"), row("a")], vec![]).is_none());
    assert!(Store::from_tables(vec![row("a")], vec![item("a", 1), item("a", 1)]).is_none());
    assert!(Store::from_tables(vec![row("a")], vec![item("a", 1), item("a", 0)]).is_none());
    assert!(Store::from_tables(vec![], vec![]).is_some());
}

#[test]
fn an_item_without_its_conversation_is_left_out() {
    let mut store = Store::from_tables(
        vec![row("a")],
        vec![item("b", 5), item("a", 0), item("b", 5), item("a", 1)],
    )
    .unwrap();
    assert_eq!(store.tables().1.len(), 2);
    assert_eq!(store.digest("a").unwrap().open_count, 2);
    assert_eq!(store.open_items(&Filter::default()).len(), 2);
    assert!(store.digest("b").is_none());
    assert_eq!(store.index("b", &req(1, &["x"], &[]), 1).open_count, 1);
}

#[test]
fn a_place_may_be_negative() {
    let mut first = item("a", -3);
    first.content = "first".into();
    let store = Store::from_tables(vec![row("a")], vec![first, item("a", 0)]).unwrap();
    assert_eq!(todos(&store, &Filter::default()), vec!["first", "x"]);
}

#[test]
fn a_list_that_cannot_be_read_back_is_served_empty() {
    let mut broken = row("a");
    broken.turns = None;
    broken.files = None;
    broken.totals.turns = 12;
    let store = Store::from_tables(vec![broken], vec![]).unwrap();
    let detail = store.detail("a").unwrap();
    assert!(detail.turns.is_empty());
    assert!(detail.files.is_empty());
    assert_eq!(detail.digest.totals.turns, 12);
}
