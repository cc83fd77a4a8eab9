//! Activity by local calendar day.
//!
//! Which day an instant belongs to is a question about the node's own time zone.
//! SQLite's `localtime` answers it; what is counted for each day is decided here.

use crate::model::{opt_view, views, DayBucket, DayBucketView};
use crate::order::{
    arrange, arranged, arranged_rows_are_in_order, arranged_rows_are_the_same_rows,
    is_an_order, Ranked,
};
use crate::sums::{arranging_keeps_the_total, same_totals, total_of};
use crate::tables::DigestRowView;
use crate::text::{
    precedes, precedes_is_irreflexive, precedes_is_total, precedes_is_transitive, text_precedes,
};
use vstd::prelude::*;

verus! {

/// Why the days of a window cannot be served.
#[derive(Debug)]
pub enum DaysError {
    /// The local date could not be asked for.
    Calendar(rusqlite::Error),
    /// An instant lies outside the calendar, so it has no date.
    Undated,
    /// The counts of one day do not fit in 64 bits.
    Overflow,
}

/// What one conversation adds to its day.
#[derive(Debug)]
pub struct DayEntry {
    /// The local date of the conversation, or `None` where it has none.
    pub date: Option<String>,
    pub turns: i64,
    pub writes: i64,
    pub failures: i64,
}

/// The view of a [`DayEntry`].
pub struct DayEntryView {
    pub date: Option<Seq<char>>,
    pub turns: i64,
    pub writes: i64,
    pub failures: i64,
}

impl View for DayEntry {
    type V = DayEntryView;

    open spec fn view(&self) -> DayEntryView {
        DayEntryView {
            date: opt_view(self.date),
            turns: self.turns,
            writes: self.writes,
            failures: self.failures,
        }
    }
}

/// What some conversations add to their days, given a calendar.
pub open spec fn entries_for(
    rows: Seq<DigestRowView>,
    calendar: Map<i64, Option<Seq<char>>>,
) -> Seq<DayEntryView> {
    Seq::new(
        rows.len(),
        |i: int|
            DayEntryView {
                date: calendar[rows[i].source_updated_at],
                turns: rows[i].totals.turns,
                writes: rows[i].totals.writes,
                failures: rows[i].totals.failures,
            },
    )
}

/// Whether a calendar has a date for every conversation, or that it has none.
pub open spec fn covers(calendar: Map<i64, Option<Seq<char>>>, rows: Seq<DigestRowView>) -> bool {
    forall|i: int|
        0 <= i < rows.len() ==> calendar.contains_key((#[trigger] rows[i]).source_updated_at)
}

/// Whether every conversation has a date.
pub open spec fn all_dated(entries: Seq<DayEntryView>) -> bool {
    forall|i: int| 0 <= i < entries.len() ==> (#[trigger] entries[i]).date is Some
}

/// The counts of one day, before they are known to fit in 64 bits.
pub struct DayCounts {
    pub conversations: nat,
    pub turns: int,
    pub writes: int,
    pub failures: int,
}

/// What the conversations of one day add up to.
pub open spec fn counts_on(entries: Seq<DayEntryView>, date: Seq<char>) -> DayCounts
    decreases entries.len(),
{
    if entries.len() == 0 {
        DayCounts { conversations: 0, turns: 0, writes: 0, failures: 0 }
    } else {
        let rest = counts_on(entries.drop_last(), date);
        let last = entries.last();
        if last.date == Some(date) {
            DayCounts {
                conversations: rest.conversations + 1,
                turns: rest.turns + last.turns,
                writes: rest.writes + last.writes,
                failures: rest.failures + last.failures,
            }
        } else {
            rest
        }
    }
}

/// Whether the sums of a day fit in 64 bits.
pub open spec fn counts_fit(c: DayCounts) -> bool {
    &&& i64::MIN <= c.turns <= i64::MAX
    &&& i64::MIN <= c.writes <= i64::MAX
    &&& i64::MIN <= c.failures <= i64::MAX
}

/// Whether the sums of every day fit in 64 bits, and did so all along as the
/// conversations were added one by one.
pub open spec fn sums_fit(entries: Seq<DayEntryView>) -> bool {
    forall|n: int, date: Seq<char>|
        0 <= n <= entries.len() ==> counts_fit(#[trigger] counts_on(entries.take(n), date))
}

/// The dates of the conversations, each once.
pub open spec fn dates_of(entries: Seq<DayEntryView>) -> Seq<Seq<char>>
    decreases entries.len(),
{
    if entries.len() == 0 {
        seq![]
    } else {
        let known = dates_of(entries.drop_last());
        match entries.last().date {
            Some(d) => if known.contains(d) {
                known
            } else {
                known.push(d)
            },
            None => known,
        }
    }
}

/// The bucket of one day.
pub open spec fn day_row(entries: Seq<DayEntryView>, date: Seq<char>) -> DayBucketView {
    let c = counts_on(entries, date);
    DayBucketView {
        date,
        conversations: c.conversations as i64,
        turns: c.turns,
        writes: c.writes,
        failures: c.failures,
    }
}

/// The buckets of all days.
pub open spec fn day_rows(entries: Seq<DayEntryView>) -> Seq<DayBucketView> {
    Seq::new(dates_of(entries).len(), |i: int| day_row(entries, dates_of(entries)[i]))
}

/// Days in the order of the calendar, so that a chart reads from left to right.
impl Ranked for DayBucket {
    open spec fn ahead(a: DayBucketView, b: DayBucketView) -> bool {
        precedes(a.date, b.date)
    }

    fn is_ahead(&self, other: &Self) -> (r: bool) {
        text_precedes(self.date.as_str(), other.date.as_str())
    }
}

/// Whether `r` is what is served for the conversations: a bucket for each day, or
/// why there is none.
pub open spec fn is_served(
    r: Result<Vec<DayBucket>, DaysError>,
    entries: Seq<DayEntryView>,
) -> bool {
    match r {
        Ok(v) => {
            &&& all_dated(entries)
            &&& sums_fit(entries)
            &&& views(v@) == arranged::<DayBucket>(day_rows(entries))
        },
        Err(DaysError::Undated) => !all_dated(entries),
        Err(DaysError::Overflow) => all_dated(entries) && !sums_fit(entries),
        Err(DaysError::Calendar(_)) => false,
    }
}

/// The dates of the conversations are listed once each, and no conversation falls
/// on a day that is not listed.
pub proof fn every_date_is_listed_once(entries: Seq<DayEntryView>)
    ensures
        dates_of(entries).no_duplicates(),
        forall|d: Seq<char>| #[trigger]
            dates_of(entries).contains(d) <==> exists|i: int|
                0 <= i < entries.len() && (#[trigger] entries[i]).date == Some(d),
        forall|d: Seq<char>|
            #![trigger counts_on(entries, d)]
            {
                &&& counts_on(entries, d).conversations <= entries.len()
                &&& dates_of(entries).contains(d) ==> counts_on(entries, d).conversations >= 1
                &&& !dates_of(entries).contains(d) ==> counts_on(entries, d) == (DayCounts {
                    conversations: 0,
                    turns: 0,
                    writes: 0,
                    failures: 0,
                })
            },
    decreases entries.len(),
{
    if entries.len() > 0 {
        let rest = entries.drop_last();
        let known = dates_of(rest);
        let all = dates_of(entries);
        let last = entries.last();
        every_date_is_listed_once(rest);
        assert forall|d: Seq<char>| #[trigger]
            all.contains(d) <==> known.contains(d) || last.date == Some(d) by {
            if known.contains(d) {
                let i = choose|i: int| 0 <= i < known.len() && known[i] == d;
                assert(all[i] == d);
            }
            if last.date == Some(d) && !known.contains(d) {
                assert(all[all.len() - 1] == d);
            }
            if all.contains(d) && !known.contains(d) {
                let i = choose|i: int| 0 <= i < all.len() && all[i] == d;
                if i < known.len() {
                    assert(known[i] == d);
                }
            }
        }
        assert forall|d: Seq<char>| #[trigger]
            all.contains(d) <==> exists|i: int|
                0 <= i < entries.len() && (#[trigger] entries[i]).date == Some(d) by {
            if known.contains(d) {
                let i = choose|i: int| 0 <= i < rest.len() && (#[trigger] rest[i]).date == Some(d);
                assert(entries[i].date == Some(d));
            }
            if last.date == Some(d) {
                assert(entries[entries.len() - 1].date == Some(d));
            }
            if exists|i: int| 0 <= i < entries.len() && (#[trigger] entries[i]).date == Some(d) {
                let i = choose|i: int|
                    0 <= i < entries.len() && (#[trigger] entries[i]).date == Some(d);
                if i < rest.len() {
                    assert(rest[i].date == Some(d));
                }
            }
        }
        assert forall|d: Seq<char>|
            #![trigger counts_on(entries, d)]
            {
                &&& counts_on(entries, d).conversations <= entries.len()
                &&& all.contains(d) ==> counts_on(entries, d).conversations >= 1
                &&& !all.contains(d) ==> counts_on(entries, d) == (DayCounts {
                    conversations: 0,
                    turns: 0,
                    writes: 0,
                    failures: 0,
                })
            } by {
            assert(counts_on(rest, d).conversations <= rest.len());
            assert(all.contains(d) <==> known.contains(d) || last.date == Some(d));
        }
    }
}

/// Where there are no conversations there are no days, and nothing fails.
pub proof fn no_entries_no_days(r: Result<Vec<DayBucket>, DaysError>)
    requires
        is_served(r, seq![]),
    ensures
        r is Ok,
        r->Ok_0@.len() == 0,
{
    let none: Seq<DayEntryView> = seq![];
    assert(sums_fit(none)) by {
        assert forall|n: int, date: Seq<char>| 0 <= n <= none.len() implies counts_fit(
            #[trigger] counts_on(none.take(n), date),
        ) by {
            assert(none.take(n) =~= none);
        }
    }
    if let Ok(v) = r {
        assert(day_rows(none) =~= seq![]);
        assert(views(v@).len() == 0);
    }
}

/// Whether `rows` hold the bucket of each day of `now`, and `counts` its number of
/// conversations.
spec fn bucketed(rows: Seq<DayBucket>, counts: Seq<usize>, now: Seq<DayEntryView>) -> bool {
    &&& rows.len() == dates_of(now).len()
    &&& counts.len() == rows.len()
    &&& forall|k: int| 0 <= k < rows.len() ==> (#[trigger] rows[k])@ == day_row(now, dates_of(now)[k])
    &&& forall|k: int|
        0 <= k < counts.len() ==> (#[trigger] counts[k]) == counts_on(
            now,
            dates_of(now)[k],
        ).conversations
}

/// Adds one conversation to its day. Gives `false` where the day's sums no longer fit.
fn add_entry(
    rows: &mut Vec<DayBucket>,
    counts: &mut Vec<usize>,
    date: &String,
    entry: &DayEntry,
    Ghost(entries): Ghost<Seq<DayEntryView>>,
    Ghost(n): Ghost<int>,
) -> (r: bool)
    requires
        0 <= n < entries.len() <= usize::MAX,
        entry@ == entries[n],
        entry@.date == Some(date@),
        bucketed(old(rows)@, old(counts)@, entries.take(n)),
    ensures
        r ==> bucketed(final(rows)@, final(counts)@, entries.take(n + 1)) && counts_fit(
            counts_on(entries.take(n + 1), date@),
        ),
        !r ==> !counts_fit(counts_on(entries.take(n + 1), date@)),
{
    let ghost before = entries.take(n);
    let ghost after = entries.take(n + 1);
    let ghost dates = dates_of(before);
    proof {
        assert(after.drop_last() =~= before);
        assert(after.last() == entry@);
        every_date_is_listed_once(before);
        every_date_is_listed_once(after);
    }
    let mut k: usize = 0;
    while k < rows.len() && !(rows[k].date == *date)
        invariant
            k <= rows.len(),
            rows@ == old(rows)@,
            counts@ == old(counts)@,
            dates == dates_of(before),
            bucketed(rows@, counts@, before),
            forall|i: int| 0 <= i < k ==> dates[i] != date@,
        decreases rows.len() - k,
    {
        assert(rows@[k as int]@.date == dates[k as int]);
        k = k + 1;
    }
    if k == rows.len() {
        assert(!dates.contains(date@));
        rows.push(
            DayBucket {
                date: date.clone(),
                conversations: 1,
                turns: entry.turns,
                writes: entry.writes,
                failures: entry.failures,
            },
        );
        counts.push(1);
        assert(counts_on(before, date@).conversations == 0);
        assert(rows@[k as int]@ == day_row(after, date@));
        assert forall|i: int| 0 <= i < k implies (#[trigger] rows@[i])@ == day_row(
            after,
            dates_of(after)[i],
        ) && counts@[i] == counts_on(after, dates_of(after)[i]).conversations by {
            assert(old(rows)@[i]@ == day_row(before, dates[i]));
            assert(old(counts)@[i] == counts_on(before, dates[i]).conversations);
        }
        return true;
    }
    assert(rows@[k as int]@ == day_row(before, dates[k as int]));
    assert(counts@[k as int] == counts_on(before, dates[k as int]).conversations);
    assert(dates[k as int] == date@);
    assert(dates.contains(date@));
    let turns: Option<i64> = rows[k].turns.checked_add(entry.turns);
    let writes: Option<i64> = rows[k].writes.checked_add(entry.writes);
    let failures: Option<i64> = rows[k].failures.checked_add(entry.failures);
    match (turns, writes, failures) {
        (Some(turns), Some(writes), Some(failures)) => {
            let count: usize = counts[k] + 1;
            counts[k] = count;
            rows[k].conversations = count as i64;
            rows[k].turns = turns;
            rows[k].writes = writes;
            rows[k].failures = failures;
            assert(rows@[k as int]@ == day_row(after, date@));
            assert forall|i: int| 0 <= i < rows@.len() implies (#[trigger] rows@[i])@ == day_row(
                after,
                dates_of(after)[i],
            ) && counts@[i] == counts_on(after, dates_of(after)[i]).conversations by {
                if i != k {
                    assert(old(rows)@[i]@ == day_row(before, dates[i]));
                    assert(old(counts)@[i] == counts_on(before, dates[i]).conversations);
                }
            }
            true
        },
        _ => false,
    }
}

/// The buckets of the days on which the conversations fall, oldest first.
pub fn bucket_days(entries: &Vec<DayEntry>) -> (r: Result<Vec<DayBucket>, DaysError>)
    ensures
        is_served(r, views(entries@)),
{
    let ghost all = views(entries@);
    let mut i: usize = 0;
    while i < entries.len()
        invariant
            i <= entries.len(),
            all == views(entries@),
            forall|j: int| 0 <= j < i ==> (#[trigger] all[j]).date is Some,
        decreases entries.len() - i,
    {
        if entries[i].date.is_none() {
            assert(all[i as int].date is None);
            return Err(DaysError::Undated);
        }
        i = i + 1;
    }
    let mut rows: Vec<DayBucket> = Vec::new();
    let mut counts: Vec<usize> = Vec::new();
    let mut n: usize = 0;
    assert(all.take(0) =~= seq![]);
    while n < entries.len()
        invariant
            n <= entries.len(),
            all == views(entries@),
            all_dated(all),
            bucketed(rows@, counts@, all.take(n as int)),
            forall|m: int, date: Seq<char>|
                0 <= m <= n ==> counts_fit(#[trigger] counts_on(all.take(m), date)),
        decreases entries.len() - n,
    {
        let entry: &DayEntry = &entries[n];
        assert(all[n as int] == entry@);
        if let Some(date) = &entry.date {
            if !add_entry(&mut rows, &mut counts, date, entry, Ghost(all), Ghost(n as int)) {
                assert(!counts_fit(counts_on(all.take(n + 1), date@)));
                return Err(DaysError::Overflow);
            }
            assert forall|m: int, d: Seq<char>| 0 <= m <= n + 1 implies counts_fit(
                #[trigger] counts_on(all.take(m), d),
            ) by {
                if m == n + 1 && d != date@ {
                    assert(all.take(n + 1).drop_last() =~= all.take(n as int));
                    assert(counts_fit(counts_on(all.take(n as int), d)));
                }
            }
        }
        n = n + 1;
    }
    assert(all.take(n as int) =~= all);
    assert(views(rows@) =~= day_rows(all));
    Ok(arrange(rows))
}

/// The order of texts puts the days in an order.
pub proof fn dates_are_an_order()
    ensures
        is_an_order::<DayBucket>(),
{
    assert forall|a: DayBucketView, b: DayBucketView| #[trigger]
        DayBucket::ahead(a, b) implies !DayBucket::ahead(b, a) by {
        if precedes(b.date, a.date) {
            precedes_is_transitive(a.date, b.date, a.date);
            precedes_is_irreflexive(a.date);
        }
    }
    assert forall|a: DayBucketView, b: DayBucketView, c: DayBucketView|
        !#[trigger] DayBucket::ahead(a, b) && !#[trigger] DayBucket::ahead(
            b,
            c,
        ) implies !DayBucket::ahead(a, c) by {
        if precedes(a.date, c.date) {
            if a.date != b.date {
                precedes_is_total(a.date, b.date);
                if b.date != c.date {
                    precedes_is_total(b.date, c.date);
                    precedes_is_transitive(c.date, b.date, a.date);
                }
                precedes_is_transitive(a.date, c.date, a.date);
                precedes_is_irreflexive(a.date);
            }
        }
    }
}

/// The days come out oldest first, each once.
pub proof fn days_come_oldest_first(entries: Seq<DayEntryView>)
    ensures
        forall|i: int, j: int|
            0 <= i < j < arranged::<DayBucket>(day_rows(entries)).len() ==> precedes(
                (#[trigger] arranged::<DayBucket>(day_rows(entries))[i]).date,
                (#[trigger] arranged::<DayBucket>(day_rows(entries))[j]).date,
            ),
{
    let rows = day_rows(entries);
    let all = arranged::<DayBucket>(rows);
    let dates = dates_of(entries);
    every_date_is_listed_once(entries);
    dates_are_an_order();
    arranged_rows_are_in_order::<DayBucket>(rows);
    assert(rows.no_duplicates()) by {
        assert forall|i: int, j: int| 0 <= i < rows.len() && 0 <= j < rows.len() && i
            != j implies rows[i] != rows[j] by {
            assert(dates[i] != dates[j]);
        }
    }
    arranged_rows_are_the_same_rows::<DayBucket>(rows);
    assert forall|i: int, j: int| 0 <= i < j < all.len() implies precedes(
        (#[trigger] all[i]).date,
        (#[trigger] all[j]).date,
    ) by {
        assert(all.contains(all[i]) && all.contains(all[j]));
        let k = choose|k: int| 0 <= k < rows.len() && rows[k] == all[i];
        let l = choose|l: int| 0 <= l < rows.len() && rows[l] == all[j];
        assert(all[i] != all[j]);
        assert(dates[k] != dates[l]);
        assert(!DayBucket::ahead(all[j], all[i]));
        precedes_is_total(all[i].date, all[j].date);
    }
}

/// Each conversation counts on its own day: the day is listed, with what all the
/// conversations of that day add up to, and conversations of one date share one bucket.
pub proof fn every_conversation_has_its_day(entries: Seq<DayEntryView>, i: int)
    requires
        all_dated(entries),
        0 <= i < entries.len(),
    ensures
        arranged::<DayBucket>(day_rows(entries)).contains(day_row(entries, entries[i].date->0)),
        counts_on(entries, entries[i].date->0).conversations >= 1,
{
    let rows = day_rows(entries);
    let date = entries[i].date->0;
    every_date_is_listed_once(entries);
    arranged_rows_are_the_same_rows::<DayBucket>(rows);
    assert(entries[i].date == Some(date));
    assert(dates_of(entries).contains(date));
    let k = choose|k: int| 0 <= k < dates_of(entries).len() && dates_of(entries)[k] == date;
    assert(rows[k] == day_row(entries, date));
    assert(rows.contains(rows[k]));
}

/// Conversations of one instant share a day.
pub proof fn conversations_of_one_instant_share_a_day(
    rows: Seq<DigestRowView>,
    calendar: Map<i64, Option<Seq<char>>>,
    i: int,
    j: int,
)
    requires
        0 <= i < rows.len(),
        0 <= j < rows.len(),
        rows[i].source_updated_at == rows[j].source_updated_at,
    ensures
        entries_for(rows, calendar)[i].date == entries_for(rows, calendar)[j].date,
{
}

/// How many conversations fall on the given days, all together.
pub open spec fn conversations_on(entries: Seq<DayEntryView>, dates: Seq<Seq<char>>) -> nat
    decreases dates.len(),
{
    if dates.len() == 0 {
        0
    } else {
        conversations_on(entries, dates.drop_last()) + counts_on(
            entries,
            dates.last(),
        ).conversations
    }
}

/// One more conversation is counted on one day only.
proof fn counted_on_one_day(entries: Seq<DayEntryView>, dates: Seq<Seq<char>>)
    requires
        entries.len() > 0,
        entries.last().date is Some,
        dates.no_duplicates(),
    ensures
        conversations_on(entries, dates) == conversations_on(entries.drop_last(), dates) + if dates.contains(
            entries.last().date->0,
        ) {
            1nat
        } else {
            0
        },
    decreases dates.len(),
{
    if dates.len() > 0 {
        let rest = dates.drop_last();
        let date = entries.last().date->0;
        assert(rest.no_duplicates());
        counted_on_one_day(entries, rest);
        if rest.contains(date) {
            let k = choose|k: int| 0 <= k < rest.len() && rest[k] == date;
            assert(dates[k] == date);
            assert(dates.last() != date);
        } else if dates.last() == date {
            assert(dates[dates.len() - 1] == date);
        } else if dates.contains(date) {
            let k = choose|k: int| 0 <= k < dates.len() && dates[k] == date;
            assert(rest[k] == date);
        }
    }
}

/// Every conversation is counted, and on one day only: over all days, there are as many
/// as there are conversations.
pub proof fn every_conversation_is_counted_once(entries: Seq<DayEntryView>)
    requires
        all_dated(entries),
    ensures
        conversations_on(entries, dates_of(entries)) == entries.len(),
    decreases entries.len(),
{
    if entries.len() > 0 {
        let rest = entries.drop_last();
        let known = dates_of(rest);
        let all = dates_of(entries);
        assert(entries[entries.len() - 1].date is Some);
        let date = entries.last().date->0;
        assert forall|i: int| 0 <= i < rest.len() implies (#[trigger] rest[i]).date is Some by {
            assert(entries[i].date is Some);
        }
        every_conversation_is_counted_once(rest);
        every_date_is_listed_once(rest);
        every_date_is_listed_once(entries);
        counted_on_one_day(entries, all);
        if known.contains(date) {
            assert(all == known);
        } else {
            assert(all.drop_last() =~= known);
            assert(all[all.len() - 1] == date);
            assert(counts_on(rest, date).conversations == 0);
        }
    }
}

/// What the conversations of one day add up to, each counted by its value.
pub open spec fn day_total(
    entries: Seq<DayEntryView>,
    date: Seq<char>,
    value: spec_fn(DayEntryView) -> int,
) -> int {
    total_of(
        entries,
        |e: DayEntryView|
            if e.date == Some(date) {
                value(e)
            } else {
                0
            },
    )
}

/// The counts of a day are totals over its conversations.
proof fn counts_are_totals(entries: Seq<DayEntryView>, date: Seq<char>)
    ensures
        ({
            let c = counts_on(entries, date);
            &&& c.conversations == day_total(entries, date, |e: DayEntryView| 1)
            &&& c.turns == day_total(entries, date, |e: DayEntryView| e.turns as int)
            &&& c.writes == day_total(entries, date, |e: DayEntryView| e.writes as int)
            &&& c.failures == day_total(entries, date, |e: DayEntryView| e.failures as int)
        }),
    decreases entries.len(),
{
    if entries.len() > 0 {
        counts_are_totals(entries.drop_last(), date);
    }
}

/// One more conversation adds its value to its own day only.
proof fn added_on_one_day(
    entries: Seq<DayEntryView>,
    dates: Seq<Seq<char>>,
    value: spec_fn(DayEntryView) -> int,
)
    requires
        entries.len() > 0,
        entries.last().date is Some,
        dates.no_duplicates(),
    ensures
        total_of(dates, |d: Seq<char>| day_total(entries, d, value)) == total_of(
            dates,
            |d: Seq<char>| day_total(entries.drop_last(), d, value),
        ) + if dates.contains(entries.last().date->0) {
            value(entries.last())
        } else {
            0
        },
    decreases dates.len(),
{
    if dates.len() > 0 {
        let rest = dates.drop_last();
        let date = entries.last().date->0;
        assert(rest.no_duplicates());
        added_on_one_day(entries, rest, value);
        if rest.contains(date) {
            let k = choose|k: int| 0 <= k < rest.len() && rest[k] == date;
            assert(dates[k] == date);
            assert(dates.last() != date);
        } else if dates.last() == date {
            assert(dates[dates.len() - 1] == date);
        } else if dates.contains(date) {
            let k = choose|k: int| 0 <= k < dates.len() && dates[k] == date;
            assert(rest[k] == date);
        }
    }
}

/// Over all days, the conversations add up to what they add up to without days.
proof fn the_days_share_the_total(entries: Seq<DayEntryView>, value: spec_fn(DayEntryView) -> int)
    requires
        all_dated(entries),
    ensures
        total_of(dates_of(entries), |d: Seq<char>| day_total(entries, d, value)) == total_of(
            entries,
            value,
        ),
    decreases entries.len(),
{
    if entries.len() > 0 {
        let rest = entries.drop_last();
        let known = dates_of(rest);
        let all = dates_of(entries);
        assert(entries[entries.len() - 1].date is Some);
        let date = entries.last().date->0;
        let on = |d: Seq<char>| day_total(rest, d, value);
        assert forall|i: int| 0 <= i < rest.len() implies (#[trigger] rest[i]).date is Some by {
            assert(entries[i].date is Some);
        }
        the_days_share_the_total(rest, value);
        every_date_is_listed_once(rest);
        every_date_is_listed_once(entries);
        added_on_one_day(entries, all, value);
        if known.contains(date) {
            assert(all == known);
        } else {
            assert(all.drop_last() =~= known);
            assert(all[all.len() - 1] == date);
            nothing_on_another_day(rest, date, value);
            assert(total_of(all, on) == total_of(known, on) + on(date));
        }
    }
}

proof fn nothing_on_another_day(
    entries: Seq<DayEntryView>,
    date: Seq<char>,
    value: spec_fn(DayEntryView) -> int,
)
    requires
        !dates_of(entries).contains(date),
    ensures
        day_total(entries, date, value) == 0,
    decreases entries.len(),
{
    every_date_is_listed_once(entries);
    if entries.len() > 0 {
        let rest = entries.drop_last();
        every_date_is_listed_once(rest);
        assert(!dates_of(rest).contains(date)) by {
            if dates_of(rest).contains(date) {
                let i = choose|i: int|
                    0 <= i < rest.len() && (#[trigger] rest[i]).date == Some(date);
                assert(entries[i].date == Some(date));
            }
        }
        assert(entries[entries.len() - 1].date != Some(date));
        nothing_on_another_day(rest, date, value);
    }
}

/// What the conversations that a calendar puts on one day add up to, each counted by its
/// value.
pub open spec fn total_on(
    rows: Seq<DigestRowView>,
    calendar: Map<i64, Option<Seq<char>>>,
    date: Seq<char>,
    value: spec_fn(DigestRowView) -> int,
) -> int {
    total_of(
        rows,
        |r: DigestRowView|
            if calendar[r.source_updated_at] == Some(date) {
                value(r)
            } else {
                0
            },
    )
}

/// The bucket of a day counts the conversations that the calendar puts there, and adds up
/// their turns, their files written and their failures.
pub proof fn a_day_adds_its_conversations_up(
    rows: Seq<DigestRowView>,
    calendar: Map<i64, Option<Seq<char>>>,
    date: Seq<char>,
)
    ensures
        ({
            let bucket = day_row(entries_for(rows, calendar), date);
            &&& bucket.date == date
            &&& bucket.conversations == total_on(
                rows,
                calendar,
                date,
                |r: DigestRowView| 1,
            ) as i64
            &&& bucket.turns == total_on(
                rows,
                calendar,
                date,
                |r: DigestRowView| r.totals.turns as int,
            )
            &&& bucket.writes == total_on(
                rows,
                calendar,
                date,
                |r: DigestRowView| r.totals.writes as int,
            )
            &&& bucket.failures == total_on(
                rows,
                calendar,
                date,
                |r: DigestRowView| r.totals.failures as int,
            )
        }),
    decreases rows.len(),
{
    let entries = entries_for(rows, calendar);
    day_counts_of_rows(rows, calendar, date);
    assert(day_row(entries, date).date == date);
}

/// The counts of a day, over the conversations.
proof fn day_counts_of_rows(
    rows: Seq<DigestRowView>,
    calendar: Map<i64, Option<Seq<char>>>,
    date: Seq<char>,
)
    ensures
        ({
            let c = counts_on(entries_for(rows, calendar), date);
            &&& c.conversations == total_on(rows, calendar, date, |r: DigestRowView| 1)
            &&& c.turns == total_on(
                rows,
                calendar,
                date,
                |r: DigestRowView| r.totals.turns as int,
            )
            &&& c.writes == total_on(
                rows,
                calendar,
                date,
                |r: DigestRowView| r.totals.writes as int,
            )
            &&& c.failures == total_on(
                rows,
                calendar,
                date,
                |r: DigestRowView| r.totals.failures as int,
            )
        }),
    decreases rows.len(),
{
    if rows.len() > 0 {
        assert(entries_for(rows, calendar).drop_last() =~= entries_for(
            rows.drop_last(),
            calendar,
        ));
        day_counts_of_rows(rows.drop_last(), calendar, date);
    }
}

/// Whether what some conversations add up to on one day fits in 64 bits.
pub open spec fn day_fits(
    rows: Seq<DigestRowView>,
    calendar: Map<i64, Option<Seq<char>>>,
    date: Seq<char>,
) -> bool {
    &&& i64::MIN <= total_on(rows, calendar, date, |r: DigestRowView| r.totals.turns as int)
        <= i64::MAX
    &&& i64::MIN <= total_on(rows, calendar, date, |r: DigestRowView| r.totals.writes as int)
        <= i64::MAX
    &&& i64::MIN <= total_on(rows, calendar, date, |r: DigestRowView| r.totals.failures as int)
        <= i64::MAX
}

/// Days are served where every conversation has a date and no day's sums leave 64 bits as
/// the conversations are added one by one; else the error says which of the two it was.
pub proof fn days_fail_for_a_reason(
    r: Result<Vec<DayBucket>, DaysError>,
    rows: Seq<DigestRowView>,
    calendar: Map<i64, Option<Seq<char>>>,
)
    requires
        is_served(r, entries_for(rows, calendar)),
    ensures
        ({
            let dated = forall|i: int|
                0 <= i < rows.len() ==> calendar[(#[trigger] rows[i]).source_updated_at] is Some;
            let fits = forall|n: int, date: Seq<char>|
                0 <= n <= rows.len() ==> #[trigger] day_fits(rows.take(n), calendar, date);
            &&& (r is Ok) == (dated && fits)
            &&& (r is Err && r->Err_0 is Undated) == !dated
            &&& (r is Err && r->Err_0 is Overflow) == (dated && !fits)
        }),
{
    let entries = entries_for(rows, calendar);
    assert(all_dated(entries) == (forall|i: int|
        0 <= i < rows.len() ==> calendar[(#[trigger] rows[i]).source_updated_at] is Some)) by {
        if all_dated(entries) {
            assert forall|i: int| 0 <= i < rows.len() implies calendar[(
            #[trigger] rows[i]).source_updated_at] is Some by {
                assert(entries[i].date is Some);
            }
        }
    }
    assert forall|n: int, date: Seq<char>| 0 <= n <= rows.len() implies counts_fit(
        #[trigger] counts_on(entries.take(n), date),
    ) == day_fits(rows.take(n), calendar, date) by {
        assert(entries.take(n) =~= entries_for(rows.take(n), calendar));
        day_counts_of_rows(rows.take(n), calendar, date);
    }
    assert(sums_fit(entries) == (forall|n: int, date: Seq<char>|
        0 <= n <= rows.len() ==> #[trigger] day_fits(rows.take(n), calendar, date))) by {
        if sums_fit(entries) {
            assert forall|n: int, date: Seq<char>| 0 <= n <= rows.len() implies #[trigger] day_fits(
                rows.take(n),
                calendar,
                date,
            ) by {
                assert(counts_fit(counts_on(entries.take(n), date)));
            }
        }
    }
}

/// Over all days, the turns, the files written and the failures are those of all the
/// conversations, and so is their number.
pub proof fn the_days_add_up_to_the_whole(
    rows: Seq<DigestRowView>,
    calendar: Map<i64, Option<Seq<char>>>,
)
    requires
        forall|i: int|
            0 <= i < rows.len() ==> calendar[(#[trigger] rows[i]).source_updated_at] is Some,
    ensures
        ({
            let days = arranged::<DayBucket>(day_rows(entries_for(rows, calendar)));
            &&& total_of(days, |b: DayBucketView| b.turns) == total_of(
                rows,
                |r: DigestRowView| r.totals.turns as int,
            )
            &&& total_of(days, |b: DayBucketView| b.writes) == total_of(
                rows,
                |r: DigestRowView| r.totals.writes as int,
            )
            &&& total_of(days, |b: DayBucketView| b.failures) == total_of(
                rows,
                |r: DigestRowView| r.totals.failures as int,
            )
            &&& rows.len() <= i64::MAX ==> total_of(days, |b: DayBucketView| b.conversations as int)
                == rows.len()
        }),
{
    let entries = entries_for(rows, calendar);
    let buckets = day_rows(entries);
    let dates = dates_of(entries);
    let turns = |e: DayEntryView| e.turns as int;
    let writes = |e: DayEntryView| e.writes as int;
    let failures = |e: DayEntryView| e.failures as int;
    let one = |e: DayEntryView| 1int;
    assert(all_dated(entries));
    every_date_is_listed_once(entries);
    assert forall|d: Seq<char>| #[trigger] counts_on(entries, d).turns == day_total(
        entries,
        d,
        turns,
    ) && counts_on(entries, d).writes == day_total(entries, d, writes) && counts_on(
        entries,
        d,
    ).failures == day_total(entries, d, failures) && counts_on(entries, d).conversations
        == day_total(entries, d, one) by {
        counts_are_totals(entries, d);
    }
    the_days_share_the_total(entries, turns);
    the_days_share_the_total(entries, writes);
    the_days_share_the_total(entries, failures);
    the_days_share_the_total(entries, one);
    same_totals(buckets, dates, |b: DayBucketView| b.turns, |d: Seq<char>| day_total(entries, d, turns));
    same_totals(buckets, dates, |b: DayBucketView| b.writes, |d: Seq<char>| day_total(entries, d, writes));
    same_totals(
        buckets,
        dates,
        |b: DayBucketView| b.failures,
        |d: Seq<char>| day_total(entries, d, failures),
    );
    same_totals(entries, rows, turns, |r: DigestRowView| r.totals.turns as int);
    same_totals(entries, rows, writes, |r: DigestRowView| r.totals.writes as int);
    same_totals(entries, rows, failures, |r: DigestRowView| r.totals.failures as int);
    arranging_keeps_the_total::<DayBucket>(buckets, |b: DayBucketView| b.turns);
    arranging_keeps_the_total::<DayBucket>(buckets, |b: DayBucketView| b.writes);
    arranging_keeps_the_total::<DayBucket>(buckets, |b: DayBucketView| b.failures);
    if rows.len() <= i64::MAX {
        same_totals(
            buckets,
            dates,
            |b: DayBucketView| b.conversations as int,
            |d: Seq<char>| day_total(entries, d, one),
        );
        arranging_keeps_the_total::<DayBucket>(buckets, |b: DayBucketView| b.conversations as int);
        as_many_as_there_are(entries);
    }
}

proof fn as_many_as_there_are(entries: Seq<DayEntryView>)
    ensures
        total_of(entries, |e: DayEntryView| 1int) == entries.len(),
    decreases entries.len(),
{
    if entries.len() > 0 {
        as_many_as_there_are(entries.drop_last());
    }
}

} // verus!
