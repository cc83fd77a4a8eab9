use ryu_mission_control::hot::{hot_files, touches_in_range};
use ryu_mission_control::model::{ConversationDetail, ConversationDigest, FileTouch, Totals};

fn chat(files: &[(&str, &str, i64)]) -> ConversationDetail {
    ConversationDetail {
        digest: ConversationDigest {
            conversation_id: "c".into(),
            title: None,
            folder_path: None,
            agent_id: None,
            source_updated_at: 0,
            indexed_at: 0,
            totals: Totals::default(),
            headline: None,
            summary: None,
            summarized_at: None,
            open_count: 0,
            done_count: 0,
        },
        turns: vec![],
        files: files
            .iter()
            .map(|(path, kind, count)| FileTouch {
                path: (*path).into(),
                kind: (*kind).into(),
                count: *count,
            })
            .collect(),
        open_items: vec![],
        done_items: vec![],
    }
}

#[test]
fn a_path_listed_twice_by_one_conversation_counts_once() {
    let hot = hot_files(&[chat(&[("a", "read", 1), ("a", "edit", 2)])], 10);
    assert_eq!(hot.len(), 1);
    assert_eq!(hot[0].conversations, 1);
    assert_eq!(hot[0].touches, 3);
    assert_eq!(hot[0].kind, "edit");
}

#[test]
fn a_touch_counts_at_least_once() {
    let hot = hot_files(&[chat(&[("a", "read", 0)]), chat(&[("a", "read", -5)])], 10);
    assert_eq!(hot[0].touches, 2);
}

#[test]
fn a_create_beats_an_edit_and_the_first_of_equals_stays() {
    let hot = hot_files(
        &[
            chat(&[("a", "edit", 1), ("b", "read", 1), ("c", "create", 1)]),
            chat(&[("a", "create", 1), ("b", "grep", 1), ("c", "edit", 1)]),
        ],
        10,
    );
    let kinds: Vec<&str> = hot.iter().map(|f| f.kind.as_str()).collect();
    assert_eq!(kinds, vec!["create", "read", "create"]);
}

#[test]
fn the_order_is_conversations_then_touches_then_path() {
    let hot = hot_files(
        &[
            chat(&[("z", "read", 1), ("b", "read", 5), ("c", "read", 5), ("a", "read", 9)]),
            chat(&[("z", "read", 1)]),
        ],
        10,
    );
    let paths: Vec<&str> = hot.iter().map(|f| f.path.as_str()).collect();
    assert_eq!(paths, vec!["z", "a", "b", "c"]);
}

#[test]
fn the_order_does_not_depend_on_the_order_of_the_lists() {
    let one = hot_files(&[chat(&[("a", "read", 2), ("b", "read", 2)])], 10);
    let two = hot_files(&[chat(&[("b", "read", 2), ("a", "read", 2)])], 10);
    let of = |v: &Vec<ryu_mission_control::model::HotFile>| {
        v.iter().map(|f| f.path.clone()).collect::<Vec<_>>()
    };
    assert_eq!(of(&one), of(&two));
}

#[test]
fn the_limit_keeps_the_hottest() {
    let details = [chat(&[("a", "read", 1), ("b", "read", 3), ("c", "read", 2)])];
    let hot = hot_files(&details, 2);
    assert_eq!(hot.len(), 2);
    assert_eq!(hot[0].path, "b");
    assert_eq!(hot[1].path, "c");
    assert!(hot_files(&details, 0).is_empty());
    assert!(hot_files(&[], 10).is_empty());
}

#[test]
fn touches_beyond_64_bits_are_out_of_range() {
    assert!(touches_in_range(&[chat(&[("a", "read", i64::MAX)])]));
    assert!(!touches_in_range(&[chat(&[("a", "read", i64::MAX), ("a", "read", 1)])]));
    assert!(touches_in_range(&[chat(&[("a", "read", i64::MAX), ("b", "read", 1)])]));
}
