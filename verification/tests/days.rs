use ryu_mission_control::calendar::seconds_of;
use ryu_mission_control::days::{bucket_days, DayEntry, DaysError};
use ryu_mission_control::model::{IndexRequest, Totals};
use ryu_mission_control::store::Store;
use ryu_mission_control::window::Filter;

fn entry(date: &str, turns: i64) -> DayEntry {
    DayEntry {
        date: Some(date.into()),
        turns,
        writes: 1,
        failures: 2,
    }
}

#[test]
fn conversations_of_one_date_share_a_bucket() {
    let days = bucket_days(&vec![
        entry("2024-02-01", 5),
        entry("2023-12-31", 1),
        entry("2024-02-01", -2),
        entry("2024-01-15", 4),
    ])
    .unwrap();
    let dates: Vec<&str> = days.iter().map(|d| d.date.as_str()).collect();
    assert_eq!(dates, vec!["2023-12-31", "2024-01-15", "2024-02-01"]);
    let last = &days[2];
    assert_eq!(last.conversations, 2);
    assert_eq!(last.turns, 3);
    assert_eq!(last.writes, 2);
    assert_eq!(last.failures, 4);
    let counted: i64 = days.iter().map(|d| d.conversations).sum();
    assert_eq!(counted, 4);
}

#[test]
fn an_instant_is_cut_to_whole_seconds_towards_the_epoch() {
    for ms in [0, 1, 999, 1000, -1, -999, -1000, -1001, i64::MAX, i64::MIN] {
        assert_eq!(seconds_of(ms), ms / 1000);
    }
}

#[test]
fn no_conversations_have_no_days() {
    assert!(bucket_days(&vec![]).unwrap().is_empty());
}

#[test]
fn a_conversation_without_a_date_fails_the_days() {
    let mut lost = entry("2024-02-01", 1);
    lost.date = None;
    assert!(matches!(
        bucket_days(&vec![entry("2024-02-01", 1), lost]),
        Err(DaysError::Undated)
    ));
}

#[test]
fn a_sum_beyond_64_bits_fails_the_days() {
    assert!(matches!(
        bucket_days(&vec![entry("2024-02-01", i64::MAX), entry("2024-02-01", 1)]),
        Err(DaysError::Overflow)
    ));
    assert!(matches!(
        bucket_days(&vec![entry("2024-02-01", i64::MIN), entry("2024-02-01", -1)]),
        Err(DaysError::Overflow)
    ));
    let apart = bucket_days(&vec![entry("2024-02-01", i64::MAX), entry("2024-02-02", 1)]);
    assert_eq!(apart.unwrap()[0].turns, i64::MAX);
}

fn req(updated: i64, turns: i64) -> IndexRequest {
    IndexRequest {
        title: None,
        folder_path: None,
        agent_id: None,
        source_updated_at: updated,
        totals: Totals {
            turns,
            ..Default::default()
        },
        turns: vec![],
        files: vec![],
        open_items: vec![],
        done_items: vec![],
    }
}

#[test]
fn an_instant_outside_the_calendar_has_no_day() {
    let mut store = Store::open_memory();
    store.index("a", &req(i64::MAX, 1), 1);
    assert!(matches!(
        store.days(&Filter::default()),
        Err(DaysError::Undated)
    ));
}

#[test]
fn days_that_cannot_be_added_up_are_refused() {
    let mut store = Store::open_memory();
    store.index("a", &req(1_700_000_000_000, i64::MAX), 1);
    store.index("b", &req(1_700_000_000_000, 1), 1);
    assert!(matches!(
        store.days(&Filter::default()),
        Err(DaysError::Overflow)
    ));
}

#[test]
fn the_days_leave_no_conversation_of_the_window_out() {
    let mut store = Store::open_memory();
    store.index("a", &req(1_700_000_000_000, 3), 1);
    store.index("b", &req(1_700_000_000_999, 4), 1);
    let one = Filter {
        limit: 1,
        ..Default::default()
    };
    let days = store.days(&one).unwrap();
    assert_eq!(days.len(), 1);
    assert_eq!(days[0].conversations, 2);
    assert_eq!(days[0].turns, 7);
}
