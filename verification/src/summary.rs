//! Turning an indexed conversation into a prompt, and the prompt's answer into a
//! stored narrative.
//!
//! The prompt is built from the digest, never from the transcript. Turn headlines,
//! the agent's recorded rationale and the outstanding items are cheaper than the
//! chat and more faithful to it, because they were derived from the tool calls
//! that ran.
//!
//! The prompt is bounded: only the most recent turns are in it and each field is
//! clipped, so what a summary costs does not grow with the conversation. A digest
//! that was cut says so in the prompt.

use crate::model::{
    opt_view, views, ConversationDetail, DetailView, FileTouch, FileTouchView, Totals, TurnRecord,
    TurnView, WorkItem, WorkItemView,
};
use crate::order::first_rows;
use crate::text::{
    a_decimal_is_short, chars_of, decimal, either_end_may_be_trimmed_first, has_part, is_blank,
    is_part_at, numeral, push_decimal, push_numeral, same_text, trailing_white_space_goes, trim,
    trim_end, trim_start, trimmed, trimming_adds_nothing, white_space, white_space_behind,
    without_leading, without_trailing,
};
use vstd::prelude::*;
use vstd::string::*;

verus! {

/// Turns beyond this are dropped from the prompt, newest kept.
pub const MAX_PROMPT_TURNS: usize = 24;

/// How many characters of a field the prompt holds.
pub const MAX_FIELD_CHARS: usize = 320;

/// Outstanding items beyond this are counted rather than listed.
pub const MAX_PROMPT_ITEMS: usize = 20;

/// How many characters of a narrative are stored, in case a model answers with an
/// essay.
pub const MAX_SUMMARY_CHARS: usize = 1200;

/// More characters than any prompt has.
pub const MAX_PROMPT_CHARS: usize = 60_000;

/// What the model is told of its task.
pub const SYSTEM: &'static str =
    "You summarise one AI coding session for a project dashboard. You are given a structured digest of what the session did: per-turn headlines derived from the tool calls that actually ran, the agent's own stated reasoning, and the to-do list it left behind. Write 2-4 plain sentences: what this session accomplished, and what is still outstanding. Be concrete \u{2014} name files and outcomes from the digest. Do not invent work that is not in the digest, do not repeat the to-do list verbatim, and do not use headings, bullets or preamble. If the digest shows failures, say so.";

/// `s` without the white space around it, cut to `max` characters; a text that was
/// cut ends in an ellipsis.
pub open spec fn clipped(s: Seq<char>, max: nat) -> Seq<char> {
    let t = trimmed(s);
    if t.len() <= max {
        t
    } else {
        without_trailing(t.take(max as int)).push('\u{2026}')
    }
}

/// `text` without the white space around it, cut to `max` characters; a text that
/// was cut ends in an ellipsis.
pub fn clip(text: &str, max: usize) -> (r: String)
    ensures
        r@ == clipped(text@, max as nat),
{
    let t: &str = trim(text);
    if t.unicode_len() <= max {
        return t.to_owned();
    }
    assert(t@.take(max as int) == t@.subrange(0, max as int));
    let mut r: String = trim_end(t.substring_char(0, max)).to_owned();
    proof {
        reveal_strlit("\u{2026}");
    }
    r.append("\u{2026}");
    assert(r@ =~= clipped(text@, max as nat));
    r
}

/// A field as the prompt holds it.
pub open spec fn field(s: Seq<char>) -> Seq<char> {
    clipped(s, MAX_FIELD_CHARS as nat)
}

/// Appends a field as the prompt holds it.
fn push_field(out: &mut String, text: &str)
    ensures
        final(out)@ == old(out)@ + field(text@),
{
    let f: String = clip(text, MAX_FIELD_CHARS);
    out.append(f.as_str());
}

/// A labelled field, or nothing where the field is empty.
pub open spec fn labelled(label: Seq<char>, s: Seq<char>) -> Seq<char> {
    if s.len() == 0 {
        seq![]
    } else {
        label + field(s)
    }
}

/// Appends a labelled field, or nothing where the field is empty.
fn push_labelled(out: &mut String, label: &str, text: &str)
    ensures
        final(out)@ == old(out)@ + labelled(label@, text@),
{
    if !text.is_empty() {
        out.append(label);
        push_field(out, text);
    }
    assert(out@ =~= old(out)@ + labelled(label@, text@));
}

/// One turn in the prompt.
pub open spec fn turn_text(t: TurnView) -> Seq<char> {
    "- ["@ + field(t.status) + "] "@ + field(t.headline) + labelled("\n  asked: "@, t.request)
        + labelled("\n  reasoning: "@, t.rationale) + labelled("\n  result: "@, t.outcome) + "\n"@
}

/// Appends one turn.
fn push_turn(out: &mut String, turn: &TurnRecord)
    ensures
        final(out)@ == old(out)@ + turn_text(turn@),
{
    out.append("- [");
    push_field(out, turn.status.as_str());
    out.append("] ");
    push_field(out, turn.headline.as_str());
    push_labelled(out, "\n  asked: ", turn.request.as_str());
    push_labelled(out, "\n  reasoning: ", turn.rationale.as_str());
    push_labelled(out, "\n  result: ", turn.outcome.as_str());
    out.append("\n");
    assert(out@ =~= old(out)@ + turn_text(turn@));
}

/// Several turns in the prompt, one after the other.
pub open spec fn turns_text(turns: Seq<TurnView>) -> Seq<char>
    decreases turns.len(),
{
    if turns.len() == 0 {
        seq![]
    } else {
        turns_text(turns.drop_last()) + turn_text(turns.last())
    }
}

/// One touched file in the prompt.
pub open spec fn file_text(f: FileTouchView) -> Seq<char> {
    "- "@ + field(f.path) + " ("@ + field(f.kind) + ")\n"@
}

/// Appends one touched file.
fn push_file(out: &mut String, file: &FileTouch)
    ensures
        final(out)@ == old(out)@ + file_text(file@),
{
    out.append("- ");
    push_field(out, file.path.as_str());
    out.append(" (");
    push_field(out, file.kind.as_str());
    out.append(")\n");
    assert(out@ =~= old(out)@ + file_text(file@));
}

/// Several touched files in the prompt, one after the other.
pub open spec fn files_text(files: Seq<FileTouchView>) -> Seq<char>
    decreases files.len(),
{
    if files.len() == 0 {
        seq![]
    } else {
        files_text(files.drop_last()) + file_text(files.last())
    }
}

/// One outstanding item in the prompt.
pub open spec fn item_text(item: WorkItemView) -> Seq<char> {
    "- "@ + field(item.content) + "\n"@
}

/// Appends one outstanding item.
fn push_item(out: &mut String, item: &WorkItem)
    ensures
        final(out)@ == old(out)@ + item_text(item@),
{
    out.append("- ");
    push_field(out, item.content.as_str());
    out.append("\n");
    assert(out@ =~= old(out)@ + item_text(item@));
}

/// Several outstanding items in the prompt, one after the other.
pub open spec fn items_text(items: Seq<WorkItemView>) -> Seq<char>
    decreases items.len(),
{
    if items.len() == 0 {
        seq![]
    } else {
        items_text(items.drop_last()) + item_text(items.last())
    }
}

/// A line of the prompt's head, or nothing where its field is absent.
pub open spec fn head_line(label: Seq<char>, s: Option<Seq<char>>) -> Seq<char> {
    match s {
        Some(s) => label + field(s) + "\n"@,
        None => seq![],
    }
}

/// Appends a line of the prompt's head, or nothing where its field is absent.
fn push_head_line(out: &mut String, label: &str, text: &Option<String>)
    ensures
        final(out)@ == old(out)@ + head_line(label@, opt_view(*text)),
{
    if let Some(t) = text {
        out.append(label);
        push_field(out, t.as_str());
        out.append("\n");
    }
    assert(out@ =~= old(out)@ + head_line(label@, opt_view(*text)));
}

/// The line of totals in the prompt.
pub open spec fn totals_text(t: Totals) -> Seq<char> {
    "Totals: "@ + decimal(t.turns as int) + " turns, "@ + decimal(t.writes as int)
        + " files written, "@ + decimal(t.commands as int) + " commands run, "@ + decimal(
        t.failures as int,
    ) + " tool errors.\n"@
}

/// Appends the line of totals.
fn push_totals(out: &mut String, t: &Totals)
    ensures
        final(out)@ == old(out)@ + totals_text(*t),
{
    out.append("Totals: ");
    push_decimal(out, t.turns);
    out.append(" turns, ");
    push_decimal(out, t.writes);
    out.append(" files written, ");
    push_decimal(out, t.commands);
    out.append(" commands run, ");
    push_decimal(out, t.failures);
    out.append(" tool errors.\n");
    assert(out@ =~= old(out)@ + totals_text(*t));
}

/// How many of the turns are left out of the prompt: all but the newest.
pub open spec fn skipped_turns(turns: Seq<TurnView>) -> nat {
    if turns.len() > MAX_PROMPT_TURNS {
        (turns.len() - MAX_PROMPT_TURNS) as nat
    } else {
        0
    }
}

/// What the prompt says of the turns that were left out.
pub open spec fn omission_text(skipped: nat) -> Seq<char> {
    if skipped == 0 {
        seq![]
    } else {
        "\n(The "@ + numeral(skipped)
            + " earliest turns are omitted; summarise the recent work below.)\n"@
    }
}

/// The turns as the prompt shows them.
pub open spec fn turns_section(turns: Seq<TurnView>) -> Seq<char> {
    omission_text(skipped_turns(turns)) + "\nTurns:\n"@ + turns_text(
        turns.skip(skipped_turns(turns) as int),
    )
}

/// Appends the turns.
fn push_turns(out: &mut String, turns: &Vec<TurnRecord>)
    ensures
        final(out)@ == old(out)@ + turns_section(views(turns@)),
{
    let ghost all = views(turns@);
    let skipped: usize = if turns.len() > MAX_PROMPT_TURNS {
        turns.len() - MAX_PROMPT_TURNS
    } else {
        0
    };
    if skipped > 0 {
        out.append("\n(The ");
        push_numeral(out, skipped as u64);
        out.append(" earliest turns are omitted; summarise the recent work below.)\n");
    }
    out.append("\nTurns:\n");
    let ghost head = out@;
    assert(head =~= old(out)@ + omission_text(skipped_turns(all)) + "\nTurns:\n"@);
    let ghost shown = all.skip(skipped as int);
    let mut i: usize = skipped;
    assert(head =~= head + turns_text(shown.take(0)));
    while i < turns.len()
        invariant
            skipped <= i <= turns.len(),
            all == views(turns@),
            shown == all.skip(skipped as int),
            out@ == head + turns_text(shown.take(i - skipped)),
        decreases turns.len() - i,
    {
        push_turn(out, &turns[i]);
        assert(shown.take(i - skipped + 1).drop_last() =~= shown.take(i - skipped));
        assert(out@ =~= head + turns_text(shown.take(i - skipped + 1)));
        i = i + 1;
    }
    assert(shown.take(shown.len() as int) =~= shown);
    assert(out@ =~= old(out)@ + turns_section(all));
}

/// The touched files as the prompt shows them.
pub open spec fn files_section(files: Seq<FileTouchView>) -> Seq<char> {
    if files.len() == 0 {
        seq![]
    } else {
        "\nFiles touched:\n"@ + files_text(first_rows(files, MAX_PROMPT_ITEMS as nat))
    }
}

/// Appends the touched files.
fn push_files(out: &mut String, files: &Vec<FileTouch>)
    ensures
        final(out)@ == old(out)@ + files_section(views(files@)),
{
    let ghost all = views(files@);
    if files.len() > 0 {
        out.append("\nFiles touched:\n");
        let ghost head = out@;
        let mut i: usize = 0;
        assert(head =~= head + files_text(all.take(0)));
        while i < files.len() && i < MAX_PROMPT_ITEMS
            invariant
                i <= files.len(),
                i <= MAX_PROMPT_ITEMS,
                all == views(files@),
                out@ == head + files_text(all.take(i as int)),
            decreases files.len() - i,
        {
            push_file(out, &files[i]);
            assert(all.take(i + 1).drop_last() =~= all.take(i as int));
            assert(out@ =~= head + files_text(all.take(i + 1)));
            i = i + 1;
        }
        assert(all.take(i as int) =~= first_rows(all, MAX_PROMPT_ITEMS as nat));
    }
    assert(out@ =~= old(out)@ + files_section(all));
}

/// What the prompt says of the items that are not listed.
pub open spec fn extra_text(extra: nat) -> Seq<char> {
    if extra == 0 {
        seq![]
    } else {
        "- (and "@ + numeral(extra) + " more)\n"@
    }
}

/// How many of the outstanding items are counted rather than listed.
pub open spec fn extra_items(items: Seq<WorkItemView>) -> nat {
    if items.len() > MAX_PROMPT_ITEMS {
        (items.len() - MAX_PROMPT_ITEMS) as nat
    } else {
        0
    }
}

/// The outstanding items as the prompt shows them.
pub open spec fn outstanding_section(items: Seq<WorkItemView>) -> Seq<char> {
    if items.len() == 0 {
        "\nNothing was left outstanding.\n"@
    } else {
        "\nStill outstanding:\n"@ + items_text(first_rows(items, MAX_PROMPT_ITEMS as nat))
            + extra_text(extra_items(items))
    }
}

/// Appends the outstanding items.
fn push_outstanding(out: &mut String, items: &Vec<WorkItem>)
    ensures
        final(out)@ == old(out)@ + outstanding_section(views(items@)),
{
    let ghost all = views(items@);
    if items.len() == 0 {
        out.append("\nNothing was left outstanding.\n");
    } else {
        out.append("\nStill outstanding:\n");
        let ghost head = out@;
        let mut i: usize = 0;
        assert(head =~= head + items_text(all.take(0)));
        while i < items.len() && i < MAX_PROMPT_ITEMS
            invariant
                i <= items.len(),
                i <= MAX_PROMPT_ITEMS,
                all == views(items@),
                out@ == head + items_text(all.take(i as int)),
            decreases items.len() - i,
        {
            push_item(out, &items[i]);
            assert(all.take(i + 1).drop_last() =~= all.take(i as int));
            assert(out@ =~= head + items_text(all.take(i + 1)));
            i = i + 1;
        }
        assert(all.take(i as int) =~= first_rows(all, MAX_PROMPT_ITEMS as nat));
        if items.len() > MAX_PROMPT_ITEMS {
            out.append("- (and ");
            push_numeral(out, (items.len() - MAX_PROMPT_ITEMS) as u64);
            out.append(" more)\n");
        }
        assert(out@ =~= head + items_text(first_rows(all, MAX_PROMPT_ITEMS as nat)) + extra_text(
            extra_items(all),
        ));
    }
    assert(out@ =~= old(out)@ + outstanding_section(all));
}

/// The prompt for one conversation's digest.
pub open spec fn prompt_text(d: DetailView) -> Seq<char> {
    head_line("Session: "@, d.digest.title) + head_line("Project: "@, d.digest.folder_path)
        + totals_text(d.digest.totals) + turns_section(d.turns) + files_section(d.files)
        + outstanding_section(d.open_items)
}

/// The prompt for one conversation's digest: its head, its totals, the newest
/// turns, the first files and the first outstanding items.
pub fn build_prompt(detail: &ConversationDetail) -> (r: String)
    ensures
        r@ == prompt_text(detail@),
{
    let mut out: String = String::new();
    push_head_line(&mut out, "Session: ", &detail.digest.title);
    push_head_line(&mut out, "Project: ", &detail.digest.folder_path);
    push_totals(&mut out, &detail.digest.totals);
    push_turns(&mut out, &detail.turns);
    push_files(&mut out, &detail.files);
    push_outstanding(&mut out, &detail.open_items);
    assert(out@ =~= prompt_text(detail@));
    out
}

/// `s` without the label it begins with and the white space behind it.
pub open spec fn unlabelled(s: Seq<char>, label: Seq<char>) -> Seq<char> {
    if label.is_prefix_of(s) {
        without_leading(s.skip(label.len() as int))
    } else {
        s
    }
}

/// `s` without the label it begins with and the white space behind it.
fn strip_label<'a>(s: &'a str, label: &str) -> (r: &'a str)
    ensures
        r@ == unlabelled(s@, label@),
{
    let n: usize = label.unicode_len();
    let len: usize = s.unicode_len();
    if n > len {
        return s;
    }
    assert(s@.take(n as int) =~= s@.subrange(0, n as int));
    if same_text(s.substring_char(0, n), label) {
        assert(label@.is_prefix_of(s@));
        assert(s@.skip(n as int) =~= s@.subrange(n as int, len as int));
        trim_start(s.substring_char(n, len))
    } else {
        assert(!label@.is_prefix_of(s@));
        s
    }
}

/// The lines of `s`: what stands between its line feeds.
pub open spec fn lines_of(s: Seq<char>) -> Seq<Seq<char>>
    decreases s.len(),
{
    if s.len() == 0 {
        seq![seq![]]
    } else {
        let before = lines_of(s.drop_last());
        if s.last() == '\n' {
            before.push(seq![])
        } else {
            before.drop_last().push(before.last().push(s.last()))
        }
    }
}

/// The lines that are not blank, each without the white space around it, with one
/// space between them.
pub open spec fn paragraph(lines: Seq<Seq<char>>) -> Seq<char>
    decreases lines.len(),
{
    if lines.len() == 0 {
        seq![]
    } else {
        with_line(paragraph(lines.drop_last()), lines.last())
    }
}

/// A paragraph with one more line.
pub open spec fn with_line(text: Seq<char>, line: Seq<char>) -> Seq<char> {
    let t = trimmed(line);
    if t.len() == 0 {
        text
    } else if text.len() == 0 {
        t
    } else {
        text + seq![' '] + t
    }
}

/// Appends one more line to a paragraph.
fn push_line(out: &mut String, line: &str)
    ensures
        final(out)@ == with_line(old(out)@, line@),
{
    let t: &str = trim(line);
    if !t.is_empty() {
        if !out.as_str().is_empty() {
            proof {
                reveal_strlit(" ");
            }
            out.append(" ");
        }
        out.append(t);
    }
    assert(out@ =~= with_line(old(out)@, line@));
}

/// The lines of `s` as one paragraph.
fn collapse(s: &str) -> (r: String)
    ensures
        r@ == paragraph(lines_of(s@)),
{
    let v: Vec<char> = chars_of(s);
    let mut out: String = String::new();
    let mut start: usize = 0;
    let mut i: usize = 0;
    proof {
        assert(s@.take(0) =~= Seq::<char>::empty());
        assert(lines_of(s@.take(0)).drop_last() =~= Seq::<Seq<char>>::empty());
        assert(s@.subrange(0, 0) =~= Seq::<char>::empty());
    }
    while i < v.len()
        invariant
            start <= i <= v.len(),
            v@ == s@,
            lines_of(s@.take(i as int)).len() > 0,
            out@ == paragraph(lines_of(s@.take(i as int)).drop_last()),
            s@.subrange(start as int, i as int) == lines_of(s@.take(i as int)).last(),
        decreases v.len() - i,
    {
        let ghost before = lines_of(s@.take(i as int));
        let ghost after = lines_of(s@.take(i + 1));
        assert(s@.take(i + 1).drop_last() =~= s@.take(i as int));
        if v[i] == '\n' {
            push_line(&mut out, s.substring_char(start, i));
            start = i + 1;
            assert(after.drop_last() =~= before);
            assert(s@.subrange(start as int, i + 1) =~= Seq::<char>::empty());
        } else {
            assert(after.drop_last() =~= before.drop_last());
            assert(s@.subrange(start as int, i + 1) =~= before.last().push(s@[i as int]));
        }
        i = i + 1;
    }
    push_line(&mut out, s.substring_char(start, v.len()));
    assert(s@.take(s@.len() as int) =~= s@);
    out
}

/// The narrative that is stored for a model's answer.
pub open spec fn normalized(raw: Seq<char>) -> Seq<char> {
    let text = unlabelled(
        unlabelled(unlabelled(trimmed(raw), "Summary:"@), "SUMMARY:"@),
        "summary:"@,
    );
    clipped(paragraph(lines_of(text)), MAX_SUMMARY_CHARS as nat)
}

/// Makes a completion the stored narrative: without the label that the model may
/// have put in front, as one paragraph, and clipped, so that one bad answer cannot
/// bloat every dashboard read.
pub fn normalize(raw: &str) -> (r: String)
    ensures
        r@ == normalized(raw@),
{
    let text: &str = trim(raw);
    let text: &str = strip_label(text, "Summary:");
    let text: &str = strip_label(text, "SUMMARY:");
    let text: &str = strip_label(text, "summary:");
    let collapsed: String = collapse(text);
    clip(collapsed.as_str(), MAX_SUMMARY_CHARS)
}

/// A clipped text has at most as many characters as asked for, and the ellipsis.
pub proof fn a_clipped_text_is_short(s: Seq<char>, max: nat)
    ensures
        clipped(s, max).len() <= max + 1,
{
    trimming_adds_nothing(s);
    trimming_adds_nothing(trimmed(s).take(max as int));
}

proof fn a_turn_is_short(t: TurnView)
    ensures
        turn_text(t).len() <= 1646,
{
    reveal_strlit("- [");
    reveal_strlit("] ");
    reveal_strlit("\n  asked: ");
    reveal_strlit("\n  reasoning: ");
    reveal_strlit("\n  result: ");
    reveal_strlit("\n");
    a_clipped_text_is_short(t.status, MAX_FIELD_CHARS as nat);
    a_clipped_text_is_short(t.headline, MAX_FIELD_CHARS as nat);
    a_clipped_text_is_short(t.request, MAX_FIELD_CHARS as nat);
    a_clipped_text_is_short(t.rationale, MAX_FIELD_CHARS as nat);
    a_clipped_text_is_short(t.outcome, MAX_FIELD_CHARS as nat);
}

proof fn turns_are_short(turns: Seq<TurnView>)
    ensures
        turns_text(turns).len() <= 1646 * turns.len(),
    decreases turns.len(),
{
    if turns.len() > 0 {
        turns_are_short(turns.drop_last());
        a_turn_is_short(turns.last());
    }
}

proof fn files_are_short(files: Seq<FileTouchView>)
    ensures
        files_text(files).len() <= 648 * files.len(),
    decreases files.len(),
{
    if files.len() > 0 {
        files_are_short(files.drop_last());
        reveal_strlit("- ");
        reveal_strlit(" (");
        reveal_strlit(")\n");
        a_clipped_text_is_short(files.last().path, MAX_FIELD_CHARS as nat);
        a_clipped_text_is_short(files.last().kind, MAX_FIELD_CHARS as nat);
    }
}

proof fn items_are_short(items: Seq<WorkItemView>)
    ensures
        items_text(items).len() <= 324 * items.len(),
    decreases items.len(),
{
    if items.len() > 0 {
        items_are_short(items.drop_last());
        reveal_strlit("- ");
        reveal_strlit("\n");
        a_clipped_text_is_short(items.last().content, MAX_FIELD_CHARS as nat);
    }
}

proof fn the_head_is_short(d: DetailView)
    ensures
        head_line("Session: "@, d.digest.title).len() <= 331,
        head_line("Project: "@, d.digest.folder_path).len() <= 331,
        totals_text(d.digest.totals).len() <= 150,
{
    reveal_strlit("Session: ");
    reveal_strlit("Project: ");
    reveal_strlit("\n");
    if let Some(t) = d.digest.title {
        a_clipped_text_is_short(t, MAX_FIELD_CHARS as nat);
    }
    if let Some(f) = d.digest.folder_path {
        a_clipped_text_is_short(f, MAX_FIELD_CHARS as nat);
    }
    reveal_strlit("Totals: ");
    reveal_strlit(" turns, ");
    reveal_strlit(" files written, ");
    reveal_strlit(" commands run, ");
    reveal_strlit(" tool errors.\n");
    a_decimal_is_short(d.digest.totals.turns as int);
    a_decimal_is_short(d.digest.totals.writes as int);
    a_decimal_is_short(d.digest.totals.commands as int);
    a_decimal_is_short(d.digest.totals.failures as int);
}

/// The prompt is bounded: what a summary costs does not grow with the conversation.
pub proof fn the_prompt_is_bounded(d: DetailView)
    requires
        d.turns.len() <= usize::MAX,
        d.open_items.len() <= usize::MAX,
    ensures
        prompt_text(d).len() <= MAX_PROMPT_CHARS,
{
    the_head_is_short(d);
    reveal_strlit("\n(The ");
    reveal_strlit(" earliest turns are omitted; summarise the recent work below.)\n");
    reveal_strlit("\nTurns:\n");
    a_decimal_is_short(skipped_turns(d.turns) as int);
    turns_are_short(d.turns.skip(skipped_turns(d.turns) as int));
    reveal_strlit("\nFiles touched:\n");
    files_are_short(first_rows(d.files, MAX_PROMPT_ITEMS as nat));
    reveal_strlit("\nNothing was left outstanding.\n");
    reveal_strlit("\nStill outstanding:\n");
    reveal_strlit("- (and ");
    reveal_strlit(" more)\n");
    a_decimal_is_short(extra_items(d.open_items) as int);
    items_are_short(first_rows(d.open_items, MAX_PROMPT_ITEMS as nat));
}

/// A digest with more turns than the prompt holds is cut to the newest, and the prompt
/// says how many were left out.
pub proof fn a_cut_digest_says_so(d: DetailView)
    requires
        d.turns.len() > MAX_PROMPT_TURNS,
    ensures
        has_part(
            prompt_text(d),
            "\n(The "@ + numeral((d.turns.len() - MAX_PROMPT_TURNS) as nat)
                + " earliest turns are omitted; summarise the recent work below.)\n"@
                + "\nTurns:\n"@ + turns_text(d.turns.skip(d.turns.len() - MAX_PROMPT_TURNS)),
        ),
{
    let before = head_line("Session: "@, d.digest.title) + head_line(
        "Project: "@,
        d.digest.folder_path,
    ) + totals_text(d.digest.totals);
    let part = turns_section(d.turns);
    let after = files_section(d.files) + outstanding_section(d.open_items);
    assert(prompt_text(d) =~= before + part + after);
    let i = before.len() as int;
    assert(prompt_text(d).subrange(i, i + part.len()) =~= part);
    assert(is_part_at(prompt_text(d), part, i));
}

/// No line holds a line feed.
proof fn lines_hold_no_line_feed(s: Seq<char>)
    ensures
        lines_of(s).len() > 0,
        forall|i: int| 0 <= i < lines_of(s).len() ==> !(#[trigger] lines_of(s)[i]).contains('\n'),
    decreases s.len(),
{
    let all = lines_of(s);
    if s.len() > 0 {
        let before = lines_of(s.drop_last());
        lines_hold_no_line_feed(s.drop_last());
        assert forall|i: int| 0 <= i < all.len() implies !(#[trigger] all[i]).contains('\n') by {
            if s.last() == '\n' {
                if i < before.len() {
                    assert(all[i] == before[i]);
                }
            } else if i < before.len() - 1 {
                assert(all[i] == before[i]);
            } else {
                let last = before[before.len() - 1];
                assert(all[i] == last.push(s.last()));
                if all[i].contains('\n') {
                    let k = choose|k: int| 0 <= k < all[i].len() && all[i][k] == '\n';
                    assert(last[k] == '\n');
                }
            }
        }
    }
}

proof fn a_paragraph_holds_no_line_feed(lines: Seq<Seq<char>>)
    requires
        forall|i: int| 0 <= i < lines.len() ==> !(#[trigger] lines[i]).contains('\n'),
    ensures
        !paragraph(lines).contains('\n'),
    decreases lines.len(),
{
    if lines.len() > 0 {
        let rest = lines.drop_last();
        let line = lines[lines.len() - 1];
        assert forall|i: int| 0 <= i < rest.len() implies !(#[trigger] rest[i]).contains('\n') by {
            assert(rest[i] == lines[i]);
        }
        a_paragraph_holds_no_line_feed(rest);
        trimming_adds_nothing(line);
        let text = paragraph(rest);
        let t = trimmed(line);
        let all = paragraph(lines);
        if all.contains('\n') && t.len() > 0 && text.len() > 0 {
            let k = choose|k: int| 0 <= k < all.len() && all[k] == '\n';
            if k < text.len() {
                assert(text[k] == '\n');
            } else if k > text.len() {
                assert(t[k - text.len() - 1] == '\n');
                assert(t.contains('\n'));
            }
        }
    }
}

/// A stored narrative is one paragraph, and short: one bad answer cannot bloat every
/// dashboard read.
pub proof fn a_narrative_is_one_short_paragraph(raw: Seq<char>)
    ensures
        !normalized(raw).contains('\n'),
        normalized(raw).len() <= MAX_SUMMARY_CHARS + 1,
{
    let text = unlabelled(
        unlabelled(unlabelled(trimmed(raw), "Summary:"@), "SUMMARY:"@),
        "summary:"@,
    );
    let p = paragraph(lines_of(text));
    let max = MAX_SUMMARY_CHARS as nat;
    let out = normalized(raw);
    lines_hold_no_line_feed(text);
    a_paragraph_holds_no_line_feed(lines_of(text));
    a_clipped_text_is_short(p, max);
    trimming_adds_nothing(p);
    let t = trimmed(p);
    if t.len() > max && out.contains('\n') {
        let cut = t.take(max as int);
        trimming_adds_nothing(cut);
        let k = choose|k: int| 0 <= k < out.len() && out[k] == '\n';
        assert(without_trailing(cut)[k] == '\n');
        assert(without_trailing(cut).contains('\n'));
        let l = choose|l: int| 0 <= l < cut.len() && cut[l] == '\n';
        assert(t[l] == '\n');
        assert(t.contains('\n'));
    }
}

/// A text that is short enough stays whole, but for the white space around it. A longer one
/// keeps its first characters, up to the bound and without white space at the end, and gets
/// an ellipsis.
pub proof fn a_text_is_clipped_at_its_bound(s: Seq<char>, max: nat)
    ensures
        trimmed(s).len() <= max ==> clipped(s, max) == trimmed(s),
        trimmed(s).len() > max ==> {
            let kept = clipped(s, max).drop_last();
            &&& clipped(s, max).len() > 0
            &&& clipped(s, max).last() == '\u{2026}'
            &&& kept.len() <= max
            &&& kept == trimmed(s).take(kept.len() as int)
            &&& is_blank(trimmed(s).subrange(kept.len() as int, max as int))
            &&& kept.len() > 0 ==> !white_space(kept.last())
        },
{
    let t = trimmed(s);
    if t.len() > max {
        let cut = t.take(max as int);
        let kept = without_trailing(cut);
        white_space_behind(cut);
        assert(clipped(s, max).drop_last() =~= kept);
        assert(kept =~= t.take(kept.len() as int));
        assert(t.subrange(kept.len() as int, max as int) =~= cut.skip(kept.len() as int));
        no_white_space_at_the_end(cut);
    }
}

proof fn no_white_space_at_the_end(s: Seq<char>)
    ensures
        without_trailing(s).len() > 0 ==> !white_space(without_trailing(s).last()),
    decreases s.len(),
{
    if s.len() > 0 && white_space(s.last()) {
        no_white_space_at_the_end(s.drop_last());
    }
}

/// The prompt states the totals of the digest: its turns, its files written, its commands
/// and its failures.
pub proof fn the_prompt_states_the_totals(d: DetailView)
    ensures
        has_part(
            prompt_text(d),
            "Totals: "@ + decimal(d.digest.totals.turns as int) + " turns, "@ + decimal(
                d.digest.totals.writes as int,
            ) + " files written, "@ + decimal(d.digest.totals.commands as int)
                + " commands run, "@ + decimal(d.digest.totals.failures as int)
                + " tool errors.\n"@,
        ),
{
    let part = "Totals: "@ + decimal(d.digest.totals.turns as int) + " turns, "@ + decimal(
        d.digest.totals.writes as int,
    ) + " files written, "@ + decimal(d.digest.totals.commands as int) + " commands run, "@
        + decimal(d.digest.totals.failures as int) + " tool errors.\n"@;
    let before = head_line("Session: "@, d.digest.title) + head_line(
        "Project: "@,
        d.digest.folder_path,
    );
    let after = turns_section(d.turns) + files_section(d.files) + outstanding_section(d.open_items);
    assert(part =~= totals_text(d.digest.totals));
    assert(prompt_text(d) =~= before + part + after);
    let i = before.len() as int;
    assert(prompt_text(d).subrange(i, i + part.len()) =~= part);
    assert(is_part_at(prompt_text(d), part, i));
}

/// The prompt rests on the title, the folder, four of the totals, the turns, the files and
/// the open items. Digests that agree on these have the same prompt, whatever their other
/// totals, their narrative, their counts and their done items.
pub proof fn the_prompt_rests_on_nothing_else(a: DetailView, b: DetailView)
    requires
        a.digest.title == b.digest.title,
        a.digest.folder_path == b.digest.folder_path,
        a.digest.totals.turns == b.digest.totals.turns,
        a.digest.totals.writes == b.digest.totals.writes,
        a.digest.totals.commands == b.digest.totals.commands,
        a.digest.totals.failures == b.digest.totals.failures,
        a.turns == b.turns,
        a.files == b.files,
        a.open_items == b.open_items,
    ensures
        prompt_text(a) == prompt_text(b),
{
}

/// How the prompt reads: the title and the folder, where there are such, the totals, a note
/// on turns that were left out, the newest turns, the first files and the first open items
/// with a note on the others.
pub proof fn how_the_prompt_reads(d: DetailView)
    ensures
        ({
            let t = d.digest.totals;
            let title = match d.digest.title {
                Some(s) => "Session: "@ + clipped(s, 320) + "\n"@,
                None => seq![],
            };
            let folder = match d.digest.folder_path {
                Some(s) => "Project: "@ + clipped(s, 320) + "\n"@,
                None => seq![],
            };
            let totals = "Totals: "@ + decimal(t.turns as int) + " turns, "@ + decimal(
                t.writes as int,
            ) + " files written, "@ + decimal(t.commands as int) + " commands run, "@ + decimal(
                t.failures as int,
            ) + " tool errors.\n"@;
            let note = if d.turns.len() > 24 {
                "\n(The "@ + numeral((d.turns.len() - 24) as nat)
                    + " earliest turns are omitted; summarise the recent work below.)\n"@
            } else {
                seq![]
            };
            let newest = if d.turns.len() > 24 {
                d.turns.skip(d.turns.len() - 24)
            } else {
                d.turns
            };
            let files = if d.files.len() == 0 {
                seq![]
            } else if d.files.len() <= 20 {
                "\nFiles touched:\n"@ + files_text(d.files)
            } else {
                "\nFiles touched:\n"@ + files_text(d.files.take(20))
            };
            let open = if d.open_items.len() == 0 {
                "\nNothing was left outstanding.\n"@
            } else if d.open_items.len() <= 20 {
                "\nStill outstanding:\n"@ + items_text(d.open_items)
            } else {
                "\nStill outstanding:\n"@ + items_text(d.open_items.take(20)) + "- (and "@
                    + numeral((d.open_items.len() - 20) as nat) + " more)\n"@
            };
            prompt_text(d) == title + folder + totals + note + "\nTurns:\n"@ + turns_text(newest)
                + files + open
        }),
{
    let t = d.digest.totals;
    let title = match d.digest.title {
        Some(s) => "Session: "@ + clipped(s, 320) + "\n"@,
        None => seq![],
    };
    let folder = match d.digest.folder_path {
        Some(s) => "Project: "@ + clipped(s, 320) + "\n"@,
        None => seq![],
    };
    let totals = "Totals: "@ + decimal(t.turns as int) + " turns, "@ + decimal(t.writes as int)
        + " files written, "@ + decimal(t.commands as int) + " commands run, "@ + decimal(
        t.failures as int,
    ) + " tool errors.\n"@;
    let open = outstanding_section(d.open_items);
    assert(head_line("Session: "@, d.digest.title) =~= title);
    assert(head_line("Project: "@, d.digest.folder_path) =~= folder);
    assert(totals_text(t) =~= totals);
    assert(d.turns.skip(0) =~= d.turns);
    assert(d.open_items.len() > 0 && d.open_items.len() <= 20 ==> open
        =~= "\nStill outstanding:\n"@ + items_text(d.open_items));
    assert(d.open_items.len() > 20 ==> open =~= "\nStill outstanding:\n"@ + items_text(
        d.open_items.take(20),
    ) + "- (and "@ + numeral((d.open_items.len() - 20) as nat) + " more)\n"@);
    let newest = d.turns.skip(skipped_turns(d.turns) as int);
    let note = omission_text(skipped_turns(d.turns));
    assert(prompt_text(d) =~= title + folder + totals + note + "\nTurns:\n"@ + turns_text(newest)
        + files_section(d.files) + open);
}

/// How a turn reads in the prompt, behind those before it: its status, its headline, and
/// what was asked, why and with what result, as far as it says so.
pub proof fn how_a_turn_reads(turns: Seq<TurnView>, t: TurnView)
    ensures
        turns_text(turns.push(t)) == turns_text(turns) + "- ["@ + clipped(t.status, 320) + "] "@
            + clipped(t.headline, 320) + (if t.request.len() == 0 {
            seq![]
        } else {
            "\n  asked: "@ + clipped(t.request, 320)
        }) + (if t.rationale.len() == 0 {
            seq![]
        } else {
            "\n  reasoning: "@ + clipped(t.rationale, 320)
        }) + (if t.outcome.len() == 0 {
            seq![]
        } else {
            "\n  result: "@ + clipped(t.outcome, 320)
        }) + "\n"@,
        turns_text(seq![]) == Seq::<char>::empty(),
{
    assert(turns.push(t).drop_last() =~= turns);
    let asked = labelled("\n  asked: "@, t.request);
    let why = labelled("\n  reasoning: "@, t.rationale);
    let result = labelled("\n  result: "@, t.outcome);
    assert(turns_text(turns.push(t)) =~= turns_text(turns) + "- ["@ + clipped(t.status, 320)
        + "] "@ + clipped(t.headline, 320) + asked + why + result + "\n"@);
}

/// How a file reads in the prompt, behind those before it: its path and how it was touched.
pub proof fn how_a_file_reads(files: Seq<FileTouchView>, f: FileTouchView)
    ensures
        files_text(files.push(f)) == files_text(files) + "- "@ + clipped(f.path, 320) + " ("@
            + clipped(f.kind, 320) + ")\n"@,
        files_text(seq![]) == Seq::<char>::empty(),
{
    assert(files.push(f).drop_last() =~= files);
    assert(files_text(files.push(f)) =~= files_text(files) + "- "@ + clipped(f.path, 320) + " ("@
        + clipped(f.kind, 320) + ")\n"@);
}

/// How an open item reads in the prompt, behind those before it.
pub proof fn how_an_item_reads(items: Seq<WorkItemView>, w: WorkItemView)
    ensures
        items_text(items.push(w)) == items_text(items) + "- "@ + clipped(w.content, 320) + "\n"@,
        items_text(seq![]) == Seq::<char>::empty(),
{
    assert(items.push(w).drop_last() =~= items);
    assert(items_text(items.push(w)) =~= items_text(items) + "- "@ + clipped(w.content, 320)
        + "\n"@);
}

/// Two paragraphs as one: with one space between them where neither is empty.
pub open spec fn joined(a: Seq<char>, b: Seq<char>) -> Seq<char> {
    if a.len() == 0 {
        b
    } else if b.len() == 0 {
        a
    } else {
        a + seq![' '] + b
    }
}

/// A text of one line is a paragraph as it reads, without the white space around it, and a
/// line feed between two texts becomes one space between their paragraphs.
pub proof fn lines_become_one_paragraph(a: Seq<char>, b: Seq<char>)
    ensures
        !a.contains('\n') ==> paragraph(lines_of(a)) == trimmed(a),
        paragraph(lines_of(a + seq!['\n'] + b)) == joined(
            paragraph(lines_of(a)),
            paragraph(lines_of(b)),
        ),
{
    if !a.contains('\n') {
        one_line(a);
        assert(seq![a].drop_last() =~= Seq::<Seq<char>>::empty());
        assert(paragraph(Seq::<Seq<char>>::empty()) == Seq::<char>::empty());
        assert(paragraph(seq![a]) == with_line(paragraph(seq![a].drop_last()), a));
    }
    lines_of_both(a, b);
    paragraphs_of_both(lines_of(a), lines_of(b));
}

proof fn one_line(s: Seq<char>)
    requires
        !s.contains('\n'),
    ensures
        lines_of(s) == seq![s],
    decreases s.len(),
{
    if s.len() == 0 {
        assert(s =~= Seq::<char>::empty());
        assert(lines_of(s) =~= seq![s]);
    } else {
        let rest = s.drop_last();
        assert(!rest.contains('\n')) by {
            if rest.contains('\n') {
                let i = choose|i: int| 0 <= i < rest.len() && rest[i] == '\n';
                assert(s[i] == '\n');
            }
        }
        one_line(rest);
        assert(s[s.len() - 1] != '\n');
        assert(rest.push(s.last()) =~= s);
        assert(lines_of(s) =~= seq![s]);
    }
}

proof fn lines_of_both(a: Seq<char>, b: Seq<char>)
    ensures
        lines_of(a).len() > 0,
        lines_of(b).len() > 0,
        lines_of(a + seq!['\n'] + b) == lines_of(a) + lines_of(b),
    decreases b.len(),
{
    lines_hold_no_line_feed(a);
    lines_hold_no_line_feed(b);
    let all = a + seq!['\n'] + b;
    if b.len() == 0 {
        assert(all.drop_last() =~= a);
        assert(lines_of(all) =~= lines_of(a) + lines_of(b));
    } else {
        lines_of_both(a, b.drop_last());
        assert(all.drop_last() =~= a + seq!['\n'] + b.drop_last());
        assert(lines_of(all) =~= lines_of(a) + lines_of(b));
    }
}

proof fn paragraphs_of_both(x: Seq<Seq<char>>, y: Seq<Seq<char>>)
    ensures
        paragraph(x + y) == joined(paragraph(x), paragraph(y)),
    decreases y.len(),
{
    if y.len() == 0 {
        assert(x + y =~= x);
    } else {
        paragraphs_of_both(x, y.drop_last());
        assert((x + y).drop_last() =~= x + y.drop_last());
        assert(paragraph(x + y) =~= joined(paragraph(x), paragraph(y)));
    }
}

/// Whether an answer begins, behind white space, with the given label.
pub open spec fn is_labelled(raw: Seq<char>, label: Seq<char>) -> bool {
    label.is_prefix_of(trimmed(raw))
}

/// An answer without a label is stored as one paragraph of its lines, clipped.
pub proof fn an_answer_is_stored_as_one_paragraph(raw: Seq<char>)
    requires
        !is_labelled(raw, "Summary:"@),
        !is_labelled(raw, "SUMMARY:"@),
        !is_labelled(raw, "summary:"@),
    ensures
        normalized(raw) == clipped(paragraph(lines_of(trimmed(raw))), 1200),
{
}

/// A label in front of an answer does not change what is stored, unless the answer behind
/// it begins with that label again, or with one that is looked for earlier.
pub proof fn a_label_is_not_stored(raw: Seq<char>)
    ensures
        !is_labelled(raw, "Summary:"@) ==> normalized("Summary:"@ + raw) == normalized(raw),
        !is_labelled(raw, "Summary:"@) && !is_labelled(raw, "SUMMARY:"@) ==> normalized(
            "SUMMARY:"@ + raw,
        ) == normalized(raw),
        !is_labelled(raw, "Summary:"@) && !is_labelled(raw, "SUMMARY:"@) && !is_labelled(
            raw,
            "summary:"@,
        ) ==> normalized("summary:"@ + raw) == normalized(raw),
{
    reveal_strlit("Summary:");
    reveal_strlit("SUMMARY:");
    reveal_strlit("summary:");
    behind_a_label(raw, "Summary:"@);
    behind_a_label(raw, "SUMMARY:"@);
    behind_a_label(raw, "summary:"@);
    let upper = trimmed("SUMMARY:"@ + raw);
    let lower = trimmed("summary:"@ + raw);
    assert(!"Summary:"@.is_prefix_of(upper)) by {
        assert(upper[1] == 'U');
        if "Summary:"@.is_prefix_of(upper) {
            assert(upper.subrange(0, 8)[1] == upper[1]);
        }
    }
    assert(!"Summary:"@.is_prefix_of(lower) && !"SUMMARY:"@.is_prefix_of(lower)) by {
        assert(lower[0] == 's');
        if "Summary:"@.is_prefix_of(lower) {
            assert(lower.subrange(0, 8)[0] == lower[0]);
        }
        if "SUMMARY:"@.is_prefix_of(lower) {
            assert(lower.subrange(0, 8)[0] == lower[0]);
        }
    }
}

/// What stands behind a label is the answer without the white space around it.
proof fn behind_a_label(raw: Seq<char>, label: Seq<char>)
    requires
        label.len() > 0,
        !white_space(label.first()),
        !white_space(label.last()),
    ensures
        trimmed(label + raw) == label + without_trailing(raw),
        unlabelled(trimmed(label + raw), label) == trimmed(raw),
{
    let text = label + raw;
    let kept = without_trailing(raw);
    white_space_behind(raw);
    no_white_space_at_the_end(raw);
    assert(text =~= (label + kept) + raw.skip(kept.len() as int));
    assert(without_leading(text) == text);
    trailing_white_space_goes(label + kept, raw.skip(kept.len() as int));
    assert((label + kept).subrange(0, label.len() as int) =~= label);
    assert((label + kept).skip(label.len() as int) =~= kept);
    either_end_may_be_trimmed_first(raw);
}

} // verus!
