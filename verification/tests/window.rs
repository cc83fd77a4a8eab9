use ryu_mission_control::window::{Filter, WindowQuery, MAX_LIMIT};

const DAY_MS: i64 = 86_400_000;

fn query(days: Option<i64>, since_ms: Option<i64>, limit: Option<i64>) -> WindowQuery {
    WindowQuery {
        days,
        since_ms,
        folder_path: None,
        limit,
    }
}

#[test]
fn days_wins_over_an_explicit_instant() {
    let filter = query(Some(7), Some(1), None).to_filter(10 * DAY_MS);
    assert_eq!(filter.since_ms, Some(3 * DAY_MS));
}

#[test]
fn a_non_positive_day_count_means_no_window_rather_than_an_empty_page() {
    assert_eq!(query(Some(0), None, None).to_filter(DAY_MS).since_ms, None);
    assert_eq!(query(Some(-3), None, None).to_filter(DAY_MS).since_ms, None);
}

#[test]
fn a_non_positive_day_count_wins_over_an_explicit_instant_too() {
    assert_eq!(query(Some(0), Some(42), None).to_filter(DAY_MS).since_ms, None);
    assert_eq!(query(Some(-1), Some(42), None).to_filter(DAY_MS).since_ms, None);
}

#[test]
fn an_explicit_instant_is_used_when_no_day_count_is_given() {
    let filter = query(None, Some(42), None).to_filter(DAY_MS);
    assert_eq!(filter.since_ms, Some(42));
}

#[test]
fn the_limit_is_clamped_and_a_junk_value_falls_back_to_the_default() {
    assert_eq!(query(None, None, Some(9_999)).to_filter(0).limit, MAX_LIMIT);
    assert_eq!(
        query(None, None, Some(0)).to_filter(0).limit,
        Filter::default().limit
    );
    assert_eq!(query(None, None, Some(25)).to_filter(0).limit, 25);
}

#[test]
fn the_limits_at_their_edges() {
    assert_eq!(query(None, None, Some(500)).to_filter(0).limit, 500);
    assert_eq!(query(None, None, Some(501)).to_filter(0).limit, 500);
    assert_eq!(query(None, None, Some(-1)).to_filter(0).limit, 100);
    assert_eq!(query(None, None, None).to_filter(0).limit, 100);
    assert_eq!(query(None, None, None).to_filter(0).item_limit, 200);
}

#[test]
fn a_blank_folder_filter_is_dropped_rather_than_matching_nothing() {
    let window = WindowQuery {
        days: None,
        since_ms: None,
        folder_path: Some("   ".into()),
        limit: None,
    };
    assert_eq!(window.to_filter(0).folder_path, None);
}

#[test]
fn a_folder_filter_is_trimmed() {
    let window = WindowQuery {
        days: None,
        since_ms: None,
        folder_path: Some(" \t/repo\n".into()),
        limit: None,
    };
    assert_eq!(window.to_filter(0).folder_path.as_deref(), Some("/repo"));
}

#[test]
fn a_day_count_beyond_the_calendar_is_out_of_range() {
    assert!(query(Some(7), None, None).is_in_range(0));
    assert!(!query(Some(i64::MAX), None, None).is_in_range(0));
    assert!(!query(Some(106_751_991_167), None, None).is_in_range(i64::MIN));
    assert!(query(Some(i64::MIN), None, None).is_in_range(0));
}
