use ryu_mission_control::model::{
    ConversationDetail, ConversationDigest, FileTouch, Totals, TurnRecord, WorkItem,
};
use ryu_mission_control::summary::{
    build_prompt, clip, normalize, MAX_FIELD_CHARS, MAX_PROMPT_CHARS, MAX_SUMMARY_CHARS, SYSTEM,
};

fn detail(turns: usize, open: usize) -> ConversationDetail {
    ConversationDetail {
        digest: ConversationDigest {
            conversation_id: "c1".into(),
            title: Some("Ship auth".into()),
            folder_path: Some("/repo".into()),
            agent_id: None,
            source_updated_at: 0,
            indexed_at: 0,
            totals: Totals {
                turns: turns as i64,
                writes: 2,
                commands: 1,
                failures: 1,
                tool_calls: 9,
                files_touched: 2,
            },
            headline: None,
            summary: None,
            summarized_at: None,
            open_count: open as i64,
            done_count: 0,
        },
        turns: (0..turns)
            .map(|i| TurnRecord {
                index: i as i64 + 1,
                headline: format!("Changed file{i}.ts"),
                request: format!("do thing {i}"),
                rationale: format!("because reason {i}"),
                outcome: format!("done {i}"),
                status: "ok".into(),
                files: vec![],
            })
            .collect(),
        files: vec![FileTouch {
            path: "/repo/auth.ts".into(),
            kind: "edit".into(),
            count: 1,
        }],
        open_items: (0..open)
            .map(|i| WorkItem {
                content: format!("todo {i}"),
                status: "pending".into(),
            })
            .collect(),
        done_items: vec![],
    }
}

#[test]
fn the_prompt_carries_totals_reasoning_and_outstanding_work() {
    let prompt = build_prompt(&detail(2, 1));
    assert!(prompt.contains("Session: Ship auth"));
    assert!(prompt.contains("2 turns, 2 files written, 1 commands run, 1 tool errors."));
    assert!(prompt.contains("reasoning: because reason 0"));
    assert!(prompt.contains("Still outstanding:"));
    assert!(prompt.contains("- todo 0"));
}

#[test]
fn a_long_conversation_is_truncated_and_says_so() {
    let prompt = build_prompt(&detail(40, 0));
    assert!(prompt.contains("The 16 earliest turns are omitted"));
    // The newest turn survives; the oldest does not.
    assert!(prompt.contains("Changed file39.ts"));
    assert!(!prompt.contains("Changed file0.ts"));
}

#[test]
fn an_empty_plan_is_stated_rather_than_left_out() {
    let prompt = build_prompt(&detail(1, 0));
    assert!(prompt.contains("Nothing was left outstanding."));
}

#[test]
fn extra_outstanding_items_are_counted_not_listed() {
    let prompt = build_prompt(&detail(1, 25));
    assert!(prompt.contains("- todo 19"));
    assert!(!prompt.contains("- todo 20"));
    assert!(prompt.contains("(and 5 more)"));
}

#[test]
fn normalize_strips_a_label_and_collapses_to_one_paragraph() {
    let out = normalize("Summary:\n\nShipped auth.\n\nTests pass.\n");
    assert_eq!(out, "Shipped auth. Tests pass.");
}

#[test]
fn normalize_clips_an_essay() {
    let out = normalize(&"x".repeat(MAX_SUMMARY_CHARS * 2));
    assert_eq!(out.chars().count(), MAX_SUMMARY_CHARS + 1);
    assert!(out.ends_with('…'));
}

#[test]
fn the_whole_prompt_of_a_small_digest() {
    let mut d = detail(1, 1);
    d.turns[0].outcome = String::new();
    assert_eq!(
        build_prompt(&d),
        "Session: Ship auth\n\
         Project: /repo\n\
         Totals: 1 turns, 2 files written, 1 commands run, 1 tool errors.\n\
         \n\
         Turns:\n\
         - [ok] Changed file0.ts\n  asked: do thing 0\n  reasoning: because reason 0\n\
         \n\
         Files touched:\n\
         - /repo/auth.ts (edit)\n\
         \n\
         Still outstanding:\n\
         - todo 0\n"
    );
}

#[test]
fn a_bare_digest_has_a_prompt_too() {
    let mut d = detail(0, 0);
    d.digest.title = None;
    d.digest.folder_path = None;
    d.files.clear();
    d.digest.totals.failures = -3;
    assert_eq!(
        build_prompt(&d),
        "Totals: 0 turns, 2 files written, 1 commands run, -3 tool errors.\n\
         \n\
         Turns:\n\
         \n\
         Nothing was left outstanding.\n"
    );
}

#[test]
fn the_edges_of_what_the_prompt_lists() {
    let prompt = build_prompt(&detail(24, 20));
    assert!(!prompt.contains("omitted"));
    assert!(prompt.contains("Changed file0.ts"));
    assert!(!prompt.contains("more)"));
    let prompt = build_prompt(&detail(25, 21));
    assert!(prompt.contains("The 1 earliest turns are omitted"));
    assert!(!prompt.contains("Changed file0.ts"));
    assert!(prompt.contains("Changed file1.ts"));
    assert!(prompt.contains("(and 1 more)"));
}

#[test]
fn only_the_first_files_are_listed() {
    let mut d = detail(1, 0);
    d.files = (0..30)
        .map(|i| FileTouch {
            path: format!("/f{i}.ts"),
            kind: "read".into(),
            count: 1,
        })
        .collect();
    let prompt = build_prompt(&d);
    assert!(prompt.contains("- /f19.ts (read)"));
    assert!(!prompt.contains("/f20.ts"));
}

#[test]
fn no_digest_makes_a_long_prompt() {
    let long = "x".repeat(5_000);
    let mut d = detail(200, 200);
    d.digest.title = Some(long.clone());
    d.digest.folder_path = Some(long.clone());
    d.digest.totals = Totals {
        turns: i64::MIN,
        writes: i64::MIN,
        commands: i64::MIN,
        failures: i64::MIN,
        tool_calls: 0,
        files_touched: 0,
    };
    for turn in &mut d.turns {
        turn.headline = long.clone();
        turn.request = long.clone();
        turn.rationale = long.clone();
        turn.outcome = long.clone();
        turn.status = long.clone();
    }
    d.files = (0..100)
        .map(|_| FileTouch {
            path: long.clone(),
            kind: long.clone(),
            count: 1,
        })
        .collect();
    for item in &mut d.open_items {
        item.content = long.clone();
    }
    let chars = build_prompt(&d).chars().count();
    assert!(chars <= MAX_PROMPT_CHARS);
    assert!(chars > 59_000);
}

#[test]
fn a_field_is_clipped_to_its_bound() {
    let mut d = detail(1, 0);
    d.turns[0].headline = "h".repeat(MAX_FIELD_CHARS + 1);
    let prompt = build_prompt(&d);
    let kept = "h".repeat(MAX_FIELD_CHARS);
    assert!(prompt.contains(&format!("[ok] {kept}…\n")));
}

#[test]
fn clipping_trims_counts_characters_and_marks_the_cut() {
    assert_eq!(clip("  abc \n", 3), "abc");
    assert_eq!(clip("abcd", 3), "abc…");
    assert_eq!(clip("ab cd", 3), "ab…");
    assert_eq!(clip("äöü", 3), "äöü");
    assert_eq!(clip("äöüß", 3), "äöü…");
    assert_eq!(clip("", 3), "");
    assert_eq!(clip("abc", 0), "…");
}

#[test]
fn normalize_takes_each_label_once_in_turn() {
    assert_eq!(normalize("summary: done"), "done");
    assert_eq!(normalize("SUMMARY:done"), "done");
    assert_eq!(normalize("Summary: SUMMARY: summary: done"), "done");
    assert_eq!(normalize("summary: Summary: done"), "Summary: done");
    assert_eq!(normalize("Summary : done"), "Summary : done");
    assert_eq!(normalize("Summary:"), "");
}

#[test]
fn normalize_leaves_one_line() {
    let out = normalize("  one \r\n\r\n two\n\n\n three  ");
    assert_eq!(out, "one two three");
    assert!(!out.contains('\n'));
    assert_eq!(normalize(" \n \n"), "");
}

#[test]
fn the_model_is_told_its_task() {
    assert!(SYSTEM.starts_with("You summarise one AI coding session for a project dashboard. You are given"));
    assert!(SYSTEM.contains("Be concrete — name files and outcomes from the digest."));
    assert!(SYSTEM.ends_with("If the digest shows failures, say so."));
}
