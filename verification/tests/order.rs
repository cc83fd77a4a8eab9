use ryu_mission_control::listing::cut_to;
use ryu_mission_control::model::{ConversationDigest, Totals};
use ryu_mission_control::order::arrange;

fn digest(id: &str, updated: i64) -> ConversationDigest {
    ConversationDigest {
        conversation_id: id.into(),
        title: None,
        folder_path: None,
        agent_id: None,
        source_updated_at: updated,
        indexed_at: 0,
        totals: Totals::default(),
        headline: None,
        summary: None,
        summarized_at: None,
        open_count: 0,
        done_count: 0,
    }
}

#[test]
fn rows_are_arranged_and_ties_stay_as_they_came() {
    let rows = arrange(vec![
        digest("a", 1),
        digest("b", 3),
        digest("c", 2),
        digest("d", 3),
        digest("e", 1),
    ]);
    let ids: Vec<&str> = rows.iter().map(|r| r.conversation_id.as_str()).collect();
    assert_eq!(ids, vec!["b", "d", "c", "a", "e"]);
}

#[test]
fn a_list_is_cut_to_its_limit() {
    let mut v = vec![1, 2, 3];
    cut_to(&mut v, i64::MAX);
    assert_eq!(v.len(), 3);
    cut_to(&mut v, -1);
    assert_eq!(v.len(), 3);
    cut_to(&mut v, 2);
    assert_eq!(v, vec![1, 2]);
    cut_to(&mut v, 0);
    assert!(v.is_empty());
}

#[test]
fn totals_add_count_by_count() {
    let mut t = Totals {
        turns: 1,
        writes: 2,
        commands: 3,
        failures: 4,
        tool_calls: 5,
        files_touched: 6,
    };
    let other = Totals {
        turns: 10,
        writes: -20,
        commands: 30,
        failures: 40,
        tool_calls: 50,
        files_touched: 60,
    };
    assert!(t.can_add(&other));
    t.add(&other);
    assert_eq!(t.turns, 11);
    assert_eq!(t.writes, -18);
    assert_eq!(t.commands, 33);
    assert_eq!(t.failures, 44);
    assert_eq!(t.tool_calls, 55);
    assert_eq!(t.files_touched, 66);
    t.files_touched = i64::MAX;
    assert!(!t.can_add(&other));
}
