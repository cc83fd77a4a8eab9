//! The store: one row per indexed conversation, and a table of work items.
//!
//! Two tables, because the two are read differently. The turns and files of a
//! conversation are only ever read whole, for one conversation. Outstanding items
//! are read across conversations, filtered and ordered.
//!
//! Indexing is a full replacement: the conversation's row is written anew and its
//! items are dropped and put back. A conversation that finished a to-do must not
//! keep the stale row, and a merge would have to guess which side won.

use crate::calendar::{
    ask, holds_calendar, is_calendar, is_date_text, may_fall_on, open_calendar, whole_seconds, Asked,
};
use crate::days::{
    a_day_adds_its_conversations_up, bucket_days, covers, dates_of, day_row, day_rows,
    days_come_oldest_first, entries_for, every_conversation_has_its_day,
    every_date_is_listed_once, is_served, no_entries_no_days, the_days_add_up_to_the_whole,
    total_on, DayEntry, DaysError,
};
use crate::listing::{
    admitted, all_outstanding, cut_to, limited, outstanding, placed, some_are_admitted, unplaced,
    PlacedItem,
};
use crate::model::{
    copy_files, copy_text, copy_turns, opt_view, views, ConversationDetail, ConversationDigest,
    DayBucket, DayBucketView, FileTouch, IndexRequest, IndexStateRow, OpenItemRow, TurnRecord,
    WorkItem,
};
use crate::order::{arrange, arranged, arranged_rows_are_the_same_rows};
use crate::sums::{same_totals, total_of};
use crate::tables::{
    deleting_keeps_the_tables_valid, indexing_keeps_the_tables_valid, no_strays_left,
    nothing_to_leave_out, one_place_only, one_row_left_out, rows_for, rows_of, rows_without,
    summarizing_keeps_the_tables_valid, work_that_is, DigestRow, DigestRowView, ItemRow,
    ItemRowView, StoreView, COMPLETED,
};
use crate::text::{precedes, same_text};
use crate::window::FilterView;
use rusqlite::Connection;
use vstd::prelude::*;

pub use crate::hot::hot_files;
pub use crate::window::Filter;

verus! {

/// The name of the database file in the node's data directory.
pub const DB_FILE_NAME: &'static str = "mission-control.db";

/// Drops the rows of one conversation.
fn drop_rows(items: &mut Vec<ItemRow>, id: &str)
    ensures
        views(final(items)@) == rows_without(views(old(items)@), id@),
{
    let mut k: usize = 0;
    while k < items.len()
        invariant
            k <= items.len(),
            rows_without(views(items@), id@) == rows_without(views(old(items)@), id@),
            forall|l: int| 0 <= l < k ==> (#[trigger] items@[l]).conversation_id@ != id@,
        decreases items.len() - k,
    {
        if same_text(items[k].conversation_id.as_str(), id) {
            let ghost before = items@;
            items.remove(k);
            proof {
                one_row_left_out(views(before), k as int, id@);
                assert(views(items@) =~= views(before).remove(k as int));
            }
        } else {
            k = k + 1;
        }
    }
    proof {
        nothing_to_leave_out(views(items@), id@);
    }
}

/// Leaves out the items whose conversation has no row.
fn drop_strays(digests: &Vec<DigestRow>, items: Vec<ItemRow>) -> (r: Vec<ItemRow>)
    ensures
        ({
            let given = StoreView { digests: views(digests@), items: views(items@) };
            views(r@) == given.rows_held(given.items)
        }),
{
    let ghost given = StoreView { digests: views(digests@), items: views(items@) };
    let mut r: Vec<ItemRow> = Vec::new();
    assert(given.items.take(0) =~= seq![]);
    assert(views(r@) =~= seq![]);
    for item in it: items
        invariant
            it.seq() == items@,
            given == (StoreView { digests: views(digests@), items: views(items@) }),
            views(r@) == given.rows_held(given.items.take(it.index() as int)),
    {
        let ghost n = it.index() as int;
        let ghost before = r@;
        let ghost seen = item@;
        assert(seen == given.items[n]);
        assert(given.items.take(n + 1).drop_last() =~= given.items.take(n));
        let held: bool = has_row(digests, item.conversation_id.as_str());
        proof {
            let id = seen.conversation_id;
            if held {
                let i = choose|i: int|
                    0 <= i < digests@.len() && (#[trigger] digests@[i]).conversation_id@ == id;
                assert(given.is_at(id, i));
            } else if given.holds(id) {
                assert(given.is_at(id, given.place(id)));
                assert(digests@[given.place(id)].conversation_id@ == id);
            }
        }
        if held {
            r.push(item);
            assert(views(r@) =~= views(before).push(seen));
        }
    }
    assert(given.items.take(given.items.len() as int) =~= given.items);
    r
}

/// Whether a conversation has a row.
fn has_row(digests: &Vec<DigestRow>, id: &str) -> (r: bool)
    ensures
        r == exists|i: int|
            0 <= i < digests@.len() && (#[trigger] digests@[i]).conversation_id@ == id@,
{
    let mut i: usize = 0;
    while i < digests.len()
        invariant
            i <= digests.len(),
            forall|j: int| 0 <= j < i ==> (#[trigger] digests@[j]).conversation_id@ != id@,
        decreases digests.len() - i,
    {
        if same_text(digests[i].conversation_id.as_str(), id) {
            return true;
        }
        i = i + 1;
    }
    false
}

/// The store: the two tables, in memory.
#[derive(Debug)]
pub struct Store {
    digests: Vec<DigestRow>,
    items: Vec<ItemRow>,
}

impl View for Store {
    type V = StoreView;

    closed spec fn view(&self) -> StoreView {
        StoreView { digests: views(self.digests@), items: views(self.items@) }
    }
}

/// Whether `r` is an answer for the days of a window: the calendar could not be asked,
/// or it gave each conversation's instant a date and `r` is what is served for those.
pub open spec fn days_answered(
    r: Result<Vec<DayBucket>, DaysError>,
    store: StoreView,
    filter: FilterView,
) -> bool {
    let rows = admitted(store.digests, filter);
    r matches Err(DaysError::Calendar(_)) || exists|calendar: Map<i64, Option<Seq<char>>>|
        is_calendar(calendar) && covers(calendar, rows) && is_served(
            r,
            #[trigger] entries_for(rows, calendar),
        )
}

/// The rows of some placed items.
fn strip_places(items: Vec<PlacedItem>) -> (r: Vec<OpenItemRow>)
    ensures
        views(r@) == unplaced(views(items@)),
{
    let ghost all = unplaced(views(items@));
    let mut r: Vec<OpenItemRow> = Vec::new();
    assert(views(r@) =~= all.take(0));
    for item in it: items
        invariant
            it.seq() == items@,
            all == unplaced(views(items@)),
            views(r@) == all.take(it.index() as int),
    {
        let ghost before = r@;
        let ghost seen = item.row@;
        assert(seen == all[it.index() as int]);
        r.push(item.row);
        assert(views(r@) =~= views(before).push(seen));
        assert(views(r@) =~= all.take(it.index() + 1));
    }
    assert(all.take(all.len() as int) =~= all);
    r
}

impl Store {
    /// A store with nothing in it.
    pub fn open_memory() -> (r: Store)
        ensures
            r@ == StoreView::empty(),
            r@.valid(),
    {
        let r: Store = Store { digests: Vec::new(), items: Vec::new() };
        assert(r@.digests =~= seq![]);
        assert(r@.items =~= seq![]);
        r
    }

    /// Where the row of a conversation is.
    fn find(&self, id: &str) -> (r: Option<usize>)
        requires
            self@.valid(),
        ensures
            match r {
                Some(i) => self@.holds(id@) && i < self.digests.len() && i == self@.place(id@),
                None => !self@.holds(id@),
            },
    {
        let mut i: usize = 0;
        while i < self.digests.len()
            invariant
                i <= self.digests.len(),
                self@.valid(),
                forall|j: int| 0 <= j < i ==> !#[trigger] self@.is_at(id@, j),
            decreases self.digests.len() - i,
        {
            if same_text(self.digests[i].conversation_id.as_str(), id) {
                assert(self@.is_at(id@, i as int));
                assert(self@.is_at(id@, self@.place(id@)));
                return Some(i);
            }
            i = i + 1;
        }
        None
    }

    /// Replaces everything that is stored of one conversation but its narrative, and
    /// gives the stored digest.
    pub fn index(&mut self, id: &str, req: &IndexRequest, now_ms: i64) -> (r: ConversationDigest)
        requires
            old(self)@.valid(),
        ensures
            final(self)@ == old(self)@.indexed(id@, req@, now_ms),
            final(self)@.valid(),
            Some(r@) == final(self)@.digest(id@),
    {
        let headline: Option<String> = if req.turns.len() == 0 {
            None
        } else {
            Some(req.turns[req.turns.len() - 1].headline.clone())
        };
        let at: Option<usize> = self.find(id);
        let summary: Option<String> = match at {
            Some(i) => copy_text(&self.digests[i].summary),
            None => None,
        };
        let summarized_at: Option<i64> = match at {
            Some(i) => self.digests[i].summarized_at,
            None => None,
        };
        let row: DigestRow = DigestRow {
            conversation_id: id.to_owned(),
            title: copy_text(&req.title),
            folder_path: copy_text(&req.folder_path),
            agent_id: copy_text(&req.agent_id),
            source_updated_at: req.source_updated_at,
            indexed_at: now_ms,
            totals: req.totals,
            headline,
            turns: Some(copy_turns(&req.turns)),
            files: Some(copy_files(&req.files)),
            summary,
            summarized_at,
        };
        assert(row@ == self@.row_for(id@, req@, now_ms));
        let ghost before = self@;
        match at {
            Some(i) => {
                self.digests[i] = row;
            },
            None => {
                self.digests.push(row);
            },
        }
        drop_rows(&mut self.items, id);
        self.put_items(id, &req.open_items, &req.done_items);
        proof {
            assert(self@.digests =~= before.indexed(id@, req@, now_ms).digests);
            assert(self@.items =~= before.indexed(id@, req@, now_ms).items);
            indexing_keeps_the_tables_valid(before, id@, req@, now_ms);
        }
        let i: usize = match at {
            Some(i) => i,
            None => self.digests.len() - 1,
        };
        proof {
            one_place_only(self@, id@, i as int);
        }
        self.read_digest(&self.digests[i])
    }

    /// Appends the rows of a conversation's work items.
    fn put_items(&mut self, id: &str, open: &Vec<WorkItem>, done: &Vec<WorkItem>)
        ensures
            final(self).digests@ == old(self).digests@,
            views(final(self).items@) == views(old(self).items@) + rows_for(
                id@,
                views(open@) + views(done@),
            ),
    {
        let ghost work = views(open@) + views(done@);
        let ghost before = views(self.items@);
        let mut ordinal: usize = 0;
        let mut k: usize = 0;
        assert(before + rows_for(id@, work.take(0)) =~= before);
        while k < open.len()
            invariant
                k <= open.len(),
                ordinal == k,
                work == views(open@) + views(done@),
                self.digests@ == old(self).digests@,
                views(self.items@) == before + rows_for(id@, work.take(ordinal as int)),
            decreases open.len() - k,
        {
            self.put_item(id, ordinal as i128, &open[k]);
            assert(views(self.items@) =~= before + rows_for(id@, work.take(ordinal + 1)));
            ordinal = ordinal + 1;
            k = k + 1;
        }
        k = 0;
        while k < done.len()
            invariant
                k <= done.len(),
                ordinal == open@.len() + k,
                work == views(open@) + views(done@),
                self.digests@ == old(self).digests@,
                views(self.items@) == before + rows_for(id@, work.take(ordinal as int)),
            decreases done.len() - k,
        {
            self.put_item(id, ordinal as i128, &done[k]);
            assert(views(self.items@) =~= before + rows_for(id@, work.take(ordinal + 1)));
            assert(self.items.len() > ordinal);
            ordinal = ordinal + 1;
            k = k + 1;
        }
        assert(work.take(work.len() as int) =~= work);
    }

    /// Appends the row of one work item.
    fn put_item(&mut self, id: &str, ordinal: i128, item: &WorkItem)
        ensures
            final(self).digests@ == old(self).digests@,
            views(final(self).items@) == views(old(self).items@).push(
                ItemRowView {
                    conversation_id: id@,
                    ordinal: ordinal as int,
                    content: item.content@,
                    status: item.status@,
                },
            ),
    {
        self.items.push(
            ItemRow {
                conversation_id: id.to_owned(),
                ordinal,
                content: item.content.clone(),
                status: item.status.clone(),
            },
        );
        assert(views(self.items@) =~= views(old(self).items@).push(
            ItemRowView {
                conversation_id: id@,
                ordinal: ordinal as int,
                content: item.content@,
                status: item.status@,
            },
        ));
    }

    /// The digest that is served for a row.
    fn read_digest(&self, row: &DigestRow) -> (r: ConversationDigest)
        ensures
            r@ == self@.digest_of(row@),
    {
        let ghost all = self@.items;
        let ghost id = row.conversation_id@;
        let mut open: usize = 0;
        let mut done: usize = 0;
        let mut k: usize = 0;
        assert(all.take(0) =~= seq![]);
        while k < self.items.len()
            invariant
                k <= self.items.len(),
                all == self@.items,
                id == row.conversation_id@,
                open + done <= k,
                open == work_that_is(false, rows_of(all.take(k as int), id)).len(),
                done == work_that_is(true, rows_of(all.take(k as int), id)).len(),
            decreases self.items.len() - k,
        {
            let ghost now = rows_of(all.take(k as int), id);
            assert(all.take(k + 1).drop_last() =~= all.take(k as int));
            assert(all[k as int] == self.items@[k as int]@);
            assert(now.push(all[k as int]).drop_last() =~= now);
            if self.items[k].conversation_id == row.conversation_id {
                if same_text(self.items[k].status.as_str(), COMPLETED) {
                    done = done + 1;
                } else {
                    open = open + 1;
                }
            }
            k = k + 1;
        }
        assert(all.take(k as int) =~= all);
        ConversationDigest {
            conversation_id: row.conversation_id.clone(),
            title: copy_text(&row.title),
            folder_path: copy_text(&row.folder_path),
            agent_id: copy_text(&row.agent_id),
            source_updated_at: row.source_updated_at,
            indexed_at: row.indexed_at,
            totals: row.totals,
            headline: copy_text(&row.headline),
            summary: copy_text(&row.summary),
            summarized_at: row.summarized_at,
            open_count: open as i64,
            done_count: done as i64,
        }
    }

    /// The digest of a conversation, where it is stored.
    pub fn digest(&self, id: &str) -> (r: Option<ConversationDigest>)
        requires
            self@.valid(),
        ensures
            opt_view(r) == self@.digest(id@),
    {
        match self.find(id) {
            Some(i) => Some(self.read_digest(&self.digests[i])),
            None => None,
        }
    }

    /// The digest of a conversation with its turns, files and work items, where it
    /// is stored. What cannot be read back is no reason to fail a dashboard: it is
    /// served as an empty list.
    pub fn detail(&self, id: &str) -> (r: Option<ConversationDetail>)
        requires
            self@.valid(),
        ensures
            opt_view(r) == self@.detail(id@),
    {
        let i: usize = match self.find(id) {
            Some(i) => i,
            None => {
                return None;
            },
        };
        let row: &DigestRow = &self.digests[i];
        let ghost all = self@.items;
        let mut open_items: Vec<WorkItem> = Vec::new();
        let mut done_items: Vec<WorkItem> = Vec::new();
        let mut k: usize = 0;
        assert(all.take(0) =~= seq![]);
        assert(views(open_items@) =~= seq![]);
        assert(views(done_items@) =~= seq![]);
        while k < self.items.len()
            invariant
                k <= self.items.len(),
                all == self@.items,
                views(open_items@) == work_that_is(false, rows_of(all.take(k as int), id@)),
                views(done_items@) == work_that_is(true, rows_of(all.take(k as int), id@)),
            decreases self.items.len() - k,
        {
            let ghost now = rows_of(all.take(k as int), id@);
            let ghost open_before = open_items@;
            let ghost done_before = done_items@;
            assert(all.take(k + 1).drop_last() =~= all.take(k as int));
            assert(all[k as int] == self.items@[k as int]@);
            assert(now.push(all[k as int]).drop_last() =~= now);
            if same_text(self.items[k].conversation_id.as_str(), id) {
                let item: WorkItem = WorkItem {
                    content: self.items[k].content.clone(),
                    status: self.items[k].status.clone(),
                };
                let ghost seen = item@;
                if same_text(item.status.as_str(), COMPLETED) {
                    done_items.push(item);
                    assert(views(done_items@) =~= views(done_before).push(seen));
                } else {
                    open_items.push(item);
                    assert(views(open_items@) =~= views(open_before).push(seen));
                }
            }
            k = k + 1;
        }
        assert(all.take(k as int) =~= all);
        let turns: Vec<TurnRecord> = match &row.turns {
            Some(t) => copy_turns(t),
            None => Vec::new(),
        };
        let files: Vec<FileTouch> = match &row.files {
            Some(f) => copy_files(f),
            None => Vec::new(),
        };
        let r: ConversationDetail = ConversationDetail {
            digest: self.read_digest(row),
            turns,
            files,
            open_items,
            done_items,
        };
        assert(r@.turns =~= self@.detail_of(row@).turns);
        assert(r@.files =~= self@.detail_of(row@).files);
        Some(r)
    }

    /// Forgets a conversation, with its work items. Gives whether it was stored.
    pub fn delete(&mut self, id: &str) -> (r: bool)
        requires
            old(self)@.valid(),
        ensures
            r == old(self)@.holds(id@),
            final(self)@ == old(self)@.deleted(id@),
            final(self)@.valid(),
    {
        proof {
            deleting_keeps_the_tables_valid(self@, id@);
        }
        match self.find(id) {
            Some(i) => {
                let ghost before = self@;
                self.digests.remove(i);
                drop_rows(&mut self.items, id);
                assert(self@.digests =~= before.deleted(id@).digests);
                assert(self@.items =~= before.deleted(id@).items);
                true
            },
            None => false,
        }
    }

    /// Stores the narrative of a conversation. Gives whether the conversation was
    /// stored.
    pub fn set_summary(&mut self, id: &str, summary: &str, now_ms: i64) -> (r: bool)
        requires
            old(self)@.valid(),
        ensures
            r == old(self)@.holds(id@),
            final(self)@ == old(self)@.summarized(id@, summary@, now_ms),
            final(self)@.valid(),
    {
        proof {
            summarizing_keeps_the_tables_valid(self@, id@, summary@, now_ms);
        }
        match self.find(id) {
            Some(i) => {
                let ghost before = self@;
                self.digests[i].summary = Some(summary.to_owned());
                self.digests[i].summarized_at = Some(now_ms);
                assert(self@.digests =~= before.summarized(id@, summary@, now_ms).digests);
                true
            },
            None => false,
        }
    }

    /// How fresh what is stored of each conversation is, for a client that decides
    /// which to index again.
    pub fn index_state(&self) -> (r: Vec<IndexStateRow>)
        ensures
            views(r@) == self@.index_state(),
    {
        let mut r: Vec<IndexStateRow> = Vec::new();
        let mut i: usize = 0;
        while i < self.digests.len()
            invariant
                i <= self.digests.len(),
                views(r@) == self@.index_state().take(i as int),
            decreases self.digests.len() - i,
        {
            let ghost before = r@;
            r.push(
                IndexStateRow {
                    conversation_id: self.digests[i].conversation_id.clone(),
                    source_updated_at: self.digests[i].source_updated_at,
                    summarized: self.digests[i].summary.is_some(),
                },
            );
            assert(views(r@) =~= views(before).push(r@[i as int]@));
            assert(views(r@) =~= self@.index_state().take(i + 1));
            i = i + 1;
        }
        assert(self@.index_state().take(i as int) =~= self@.index_state());
        r
    }

    /// The conversations in the window, newest first.
    pub fn conversations(&self, filter: &Filter) -> (r: Vec<ConversationDigest>)
        ensures
            views(r@) == self@.conversations(filter@),
    {
        let ghost rows = self@.digests;
        let mut found: Vec<ConversationDigest> = Vec::new();
        let mut i: usize = 0;
        assert(rows.take(0) =~= seq![]);
        assert(views(found@) =~= self@.digests_of(seq![]));
        while i < self.digests.len()
            invariant
                i <= self.digests.len(),
                rows == self@.digests,
                views(found@) == self@.digests_of(admitted(rows.take(i as int), filter@)),
            decreases self.digests.len() - i,
        {
            let ghost before = found@;
            assert(rows.take(i + 1).drop_last() =~= rows.take(i as int));
            assert(rows[i as int] == self.digests@[i as int]@);
            if filter.admits(&self.digests[i]) {
                let d: ConversationDigest = self.read_digest(&self.digests[i]);
                let ghost seen = d@;
                found.push(d);
                assert(views(found@) =~= views(before).push(seen));
            }
            assert(views(found@) =~= self@.digests_of(admitted(rows.take(i + 1), filter@)));
            i = i + 1;
        }
        assert(rows.take(i as int) =~= rows);
        let mut r: Vec<ConversationDigest> = arrange(found);
        let ghost all = r@;
        cut_to(&mut r, filter.limit);
        assert(views(r@) =~= limited(views(all), filter.limit));
        r
    }

    /// The outstanding ones of a conversation's items.
    fn outstanding_of(&self, row: &DigestRow) -> (r: Vec<PlacedItem>)
        ensures
            views(r@) == outstanding(rows_of(self@.items, row.conversation_id@), row@),
    {
        let ghost all = self@.items;
        let ghost id = row.conversation_id@;
        let mut r: Vec<PlacedItem> = Vec::new();
        let mut k: usize = 0;
        assert(all.take(0) =~= seq![]);
        assert(views(r@) =~= seq![]);
        while k < self.items.len()
            invariant
                k <= self.items.len(),
                all == self@.items,
                id == row.conversation_id@,
                views(r@) == outstanding(rows_of(all.take(k as int), id), row@),
            decreases self.items.len() - k,
        {
            let ghost now = rows_of(all.take(k as int), id);
            let ghost before = r@;
            let item: &ItemRow = &self.items[k];
            assert(all.take(k + 1).drop_last() =~= all.take(k as int));
            assert(all[k as int] == item@);
            assert(now.push(all[k as int]).drop_last() =~= now);
            if item.conversation_id == row.conversation_id && !same_text(
                item.status.as_str(),
                COMPLETED,
            ) {
                let p: PlacedItem = PlacedItem {
                    ordinal: item.ordinal,
                    row: OpenItemRow {
                        conversation_id: row.conversation_id.clone(),
                        conversation_title: copy_text(&row.title),
                        folder_path: copy_text(&row.folder_path),
                        content: item.content.clone(),
                        status: item.status.clone(),
                        source_updated_at: row.source_updated_at,
                    },
                };
                let ghost seen = p@;
                assert(seen == placed(item@, row@));
                r.push(p);
                assert(views(r@) =~= views(before).push(seen));
            }
            k = k + 1;
        }
        assert(all.take(k as int) =~= all);
        r
    }

    /// The work left outstanding in the window, in the order of how recently its
    /// conversation moved.
    pub fn open_items(&self, filter: &Filter) -> (r: Vec<OpenItemRow>)
        ensures
            views(r@) == self@.open_items(filter@),
    {
        let ghost rows = self@.digests;
        let mut found: Vec<PlacedItem> = Vec::new();
        let mut i: usize = 0;
        assert(rows.take(0) =~= seq![]);
        assert(views(found@) =~= seq![]);
        while i < self.digests.len()
            invariant
                i <= self.digests.len(),
                rows == self@.digests,
                views(found@) == all_outstanding(
                    admitted(rows.take(i as int), filter@),
                    self@.items,
                ),
            decreases self.digests.len() - i,
        {
            let ghost before = found@;
            let ghost now = admitted(rows.take(i as int), filter@);
            assert(rows.take(i + 1).drop_last() =~= rows.take(i as int));
            assert(rows[i as int] == self.digests@[i as int]@);
            assert(now.push(rows[i as int]).drop_last() =~= now);
            if filter.admits(&self.digests[i]) {
                let mut more: Vec<PlacedItem> = self.outstanding_of(&self.digests[i]);
                let ghost added = more@;
                found.append(&mut more);
                assert(views(found@) =~= views(before) + views(added));
            }
            i = i + 1;
        }
        assert(rows.take(i as int) =~= rows);
        let mut sorted: Vec<PlacedItem> = arrange(found);
        let ghost all = sorted@;
        cut_to(&mut sorted, filter.item_limit);
        assert(views(sorted@) =~= limited(views(all), filter.item_limit));
        strip_places(sorted)
    }

    /// The two tables.
    pub fn tables(&self) -> (r: (&Vec<DigestRow>, &Vec<ItemRow>))
        ensures
            views(r.0@) == self@.digests,
            views(r.1@) == self@.items,
    {
        (&self.digests, &self.items)
    }

    /// A store with these tables, without the items whose conversation is not stored; or
    /// `None` where they are not the tables of a store: a conversation has two rows, or
    /// the items of a stored one are not in the order of their places.
    pub fn from_tables(digests: Vec<DigestRow>, items: Vec<ItemRow>) -> (r: Option<Store>)
        ensures
            ({
                let tables = (StoreView {
                    digests: views(digests@),
                    items: views(items@),
                }).without_strays();
                match r {
                    Some(store) => tables.valid() && store@ == tables,
                    None => !tables.valid(),
                }
            }),
    {
        let ghost given = StoreView { digests: views(digests@), items: views(items@) };
        let kept: Vec<ItemRow> = drop_strays(&digests, items);
        let ghost tables = StoreView { digests: views(digests@), items: views(kept@) };
        proof {
            no_strays_left(given);
            assert(tables == given.without_strays());
        }
        let mut last: Vec<Option<i128>> = Vec::new();
        let mut j: usize = 0;
        while j < digests.len()
            invariant
                j <= digests.len(),
                tables.digests == views(digests@),
                last@.len() == j,
                forall|i: int| 0 <= i < j ==> (#[trigger] last@[i]) is None,
                forall|i: int, l: int|
                    0 <= i < l < j ==> (#[trigger] tables.digests[i]).conversation_id != (
                    #[trigger] tables.digests[l]).conversation_id,
            decreases digests.len() - j,
        {
            let mut i: usize = 0;
            while i < j
                invariant
                    i <= j < digests.len(),
                    tables.digests == views(digests@),
                    forall|l: int|
                        0 <= l < i ==> (#[trigger] tables.digests[l]).conversation_id
                            != tables.digests[j as int].conversation_id,
                decreases j - i,
            {
                if digests[i].conversation_id == digests[j].conversation_id {
                    assert(tables.digests[i as int].conversation_id
                        == tables.digests[j as int].conversation_id);
                    return None;
                }
                i = i + 1;
            }
            last.push(None);
            j = j + 1;
        }
        let mut k: usize = 0;
        while k < kept.len()
            invariant
                k <= kept.len(),
                tables.digests == views(digests@),
                tables.items == views(kept@),
                tables == (StoreView {
                    digests: views(digests@),
                    items: views(items@),
                }).without_strays(),
                last@.len() == digests@.len(),
                forall|m: int|
                    0 <= m < tables.items.len() ==> tables.holds(
                        (#[trigger] tables.items[m]).conversation_id,
                    ),
                forall|i: int, l: int|
                    0 <= i < l < tables.digests.len() ==> (
                    #[trigger] tables.digests[i]).conversation_id != (
                    #[trigger] tables.digests[l]).conversation_id,
                forall|m: int, l: int|
                    0 <= m < l < k && (#[trigger] tables.items[m]).conversation_id == (
                    #[trigger] tables.items[l]).conversation_id ==> tables.items[m].ordinal
                        < tables.items[l].ordinal,
                forall|i: int, m: int|
                    #![trigger last@[i], tables.items[m]]
                    0 <= i < last@.len() && 0 <= m < k && tables.items[m].conversation_id
                        == tables.digests[i].conversation_id ==> last@[i] is Some
                        && tables.items[m].ordinal <= last@[i]->0,
                forall|i: int|
                    0 <= i < last@.len() && (#[trigger] last@[i]) is Some ==> exists|m: int|
                        0 <= m < k && (#[trigger] tables.items[m]).conversation_id
                            == tables.digests[i].conversation_id && tables.items[m].ordinal
                            == last@[i]->0,
            decreases kept.len() - k,
        {
            let ghost id = tables.items[k as int].conversation_id;
            let mut i: usize = 0;
            while i < digests.len() && !(digests[i].conversation_id == kept[k].conversation_id)
                invariant
                    i <= digests.len(),
                    k < kept.len(),
                    id == tables.items[k as int].conversation_id,
                    tables.digests == views(digests@),
                    tables.items == views(kept@),
                    forall|l: int| 0 <= l < i ==> !#[trigger] tables.is_at(id, l),
                decreases digests.len() - i,
            {
                i = i + 1;
            }
            proof {
                assert(tables.holds(tables.items[k as int].conversation_id));
                assert(tables.is_at(id, tables.place(id)));
            }
            assert(tables.is_at(id, i as int));
            if let Some(o) = last[i] {
                if kept[k].ordinal <= o {
                    proof {
                        let m = choose|m: int|
                            0 <= m < k && (#[trigger] tables.items[m]).conversation_id
                                == tables.digests[i as int].conversation_id
                                && tables.items[m].ordinal == last@[i as int]->0;
                        assert(tables.items[m].ordinal >= tables.items[k as int].ordinal);
                    }
                    return None;
                }
            }
            let ghost before = last@;
            last[i] = Some(kept[k].ordinal);
            proof {
                assert forall|m: int, l: int|
                    0 <= m < l < k + 1 && (#[trigger] tables.items[m]).conversation_id == (
                    #[trigger] tables.items[l]).conversation_id implies tables.items[m].ordinal
                    < tables.items[l].ordinal by {
                    if l == k {
                        assert(before[i as int] is Some && tables.items[m].ordinal
                            <= before[i as int]->0);
                    }
                }
                assert forall|a: int, m: int|
                    #![trigger last@[a], tables.items[m]]
                    0 <= a < last@.len() && 0 <= m < k + 1 && tables.items[m].conversation_id
                        == tables.digests[a].conversation_id implies last@[a] is Some
                    && tables.items[m].ordinal <= last@[a]->0 by {
                    if m < k {
                        assert(before[a] is Some && tables.items[m].ordinal <= before[a]->0);
                    } else if a < i {
                        assert(tables.digests[a].conversation_id
                            != tables.digests[i as int].conversation_id);
                    } else if i < a {
                        assert(tables.digests[i as int].conversation_id
                            != tables.digests[a].conversation_id);
                    }
                }
                assert forall|a: int|
                    0 <= a < last@.len() && (#[trigger] last@[a]) is Some implies exists|m: int|
                    0 <= m < k + 1 && (#[trigger] tables.items[m]).conversation_id
                        == tables.digests[a].conversation_id && tables.items[m].ordinal
                        == last@[a]->0 by {
                    if a == i {
                        assert(tables.items[k as int].ordinal == last@[a]->0);
                    } else {
                        assert(before[a] is Some);
                    }
                }
            }
            k = k + 1;
        }
        Some(Store { digests, items: kept })
    }

    /// Per-day activity over the window, oldest first. Which day a conversation falls
    /// on is asked of the calendar, once for each instant; an empty window asks nothing.
    pub fn days(&self, filter: &Filter) -> (r: Result<Vec<DayBucket>, DaysError>)
        ensures
            admitted(self@.digests, filter@).len() == 0 ==> r is Ok && r->Ok_0@.len() == 0,
            days_answered(r, self@, filter@),
    {
        let ghost rows = self@.digests;
        let mut connection: Option<Connection> = None;
        let mut asked: Vec<Asked> = Vec::new();
        let mut entries: Vec<DayEntry> = Vec::new();
        let ghost mut calendar: Map<i64, Option<Seq<char>>> = Map::empty();
        let mut i: usize = 0;
        assert(rows.take(0) =~= seq![]);
        assert(views(entries@) =~= entries_for(seq![], calendar));
        while i < self.digests.len()
            invariant
                i <= self.digests.len(),
                rows == self@.digests,
                is_calendar(calendar),
                holds_calendar(asked@, calendar),
                covers(calendar, admitted(rows.take(i as int), filter@)),
                views(entries@) == entries_for(admitted(rows.take(i as int), filter@), calendar),
            decreases self.digests.len() - i,
        {
            let ghost now = admitted(rows.take(i as int), filter@);
            let ghost before = entries@;
            let ghost known = calendar;
            let row: &DigestRow = &self.digests[i];
            assert(rows.take(i + 1).drop_last() =~= rows.take(i as int));
            assert(rows[i as int] == row@);
            if filter.admits(row) {
                proof {
                    some_are_admitted(rows, i as int, filter@);
                }
                let open: Connection = match connection {
                    Some(c) => c,
                    None => match open_calendar() {
                        Ok(c) => c,
                        Err(e) => {
                            return Err(DaysError::Calendar(e));
                        },
                    },
                };
                let k: usize = match ask(&open, &mut asked, row.source_updated_at, Ghost(calendar)) {
                    Ok(k) => k,
                    Err(e) => {
                        return Err(DaysError::Calendar(e));
                    },
                };
                connection = Some(open);
                proof {
                    if !calendar.contains_key(row.source_updated_at) {
                        calendar = calendar.insert(
                            row.source_updated_at,
                            opt_view(asked@[k as int].date),
                        );
                    }
                }
                let entry: DayEntry = DayEntry {
                    date: copy_text(&asked[k].date),
                    turns: row.totals.turns,
                    writes: row.totals.writes,
                    failures: row.totals.failures,
                };
                let ghost seen = entry@;
                entries.push(entry);
                proof {
                    assert(views(entries@) =~= views(before).push(seen));
                    assert(seen.date == calendar[row.source_updated_at]);
                    assert forall|m: int| 0 <= m < now.len() implies calendar.contains_key(
                        (#[trigger] now[m]).source_updated_at,
                    ) && calendar[now[m].source_updated_at] == known[now[m].source_updated_at] by {
                        assert(known.contains_key(now[m].source_updated_at));
                    }
                    assert forall|m: int| 0 <= m < now.push(row@).len() implies calendar.contains_key(
                        (#[trigger] now.push(row@)[m]).source_updated_at,
                    ) by {
                        if m < now.len() {
                            assert(now.push(row@)[m] == now[m]);
                        }
                    }
                    assert(views(entries@) =~= entries_for(now.push(row@), calendar));
                }
            }
            i = i + 1;
        }
        assert(rows.take(i as int) =~= rows);
        let r: Result<Vec<DayBucket>, DaysError> = bucket_days(&entries);
        proof {
            assert(is_served(r, entries_for(admitted(rows, filter@), calendar)));
            if admitted(rows, filter@).len() == 0 {
                assert(views(entries@) =~= seq![]);
                no_entries_no_days(r);
            }
        }
        r
    }
}

/// Days that are served read `YYYY-MM-DD`, come oldest first, each once, and leave no
/// conversation of the window out: each has a bucket with a date on which its instant may
/// fall.
pub proof fn served_days_are_dates_in_order(
    days: Vec<DayBucket>,
    store: StoreView,
    filter: FilterView,
)
    requires
        days_answered(Ok(days), store, filter),
    ensures
        forall|k: int| 0 <= k < days@.len() ==> is_date_text((#[trigger] days@[k]).date@),
        forall|k: int, l: int|
            0 <= k < l < days@.len() ==> precedes(
                (#[trigger] days@[k]).date@,
                (#[trigger] days@[l]).date@,
            ),
        forall|i: int|
            0 <= i < admitted(store.digests, filter).len() ==> exists|k: int|
                0 <= k < days@.len() && may_fall_on(
                    whole_seconds((#[trigger] admitted(store.digests, filter)[i]).source_updated_at),
                    Some((#[trigger] days@[k]).date@),
                ),
{
    let rows = admitted(store.digests, filter);
    let calendar = choose|calendar: Map<i64, Option<Seq<char>>>|
        is_calendar(calendar) && covers(calendar, rows) && is_served(
            Ok::<Vec<DayBucket>, DaysError>(days),
            #[trigger] entries_for(rows, calendar),
        );
    let entries = entries_for(rows, calendar);
    let buckets = arranged::<DayBucket>(day_rows(entries));
    assert(views(days@) == buckets);
    days_come_oldest_first(entries);
    arranged_rows_are_the_same_rows::<DayBucket>(day_rows(entries));
    every_date_is_listed_once(entries);
    assert forall|k: int| 0 <= k < days@.len() implies is_date_text(
        (#[trigger] days@[k]).date@,
    ) by {
        assert(buckets[k] == days@[k]@);
        assert(buckets.contains(buckets[k]));
        let m = choose|m: int| 0 <= m < day_rows(entries).len() && day_rows(entries)[m] == buckets[k];
        let date = dates_of(entries)[m];
        assert(dates_of(entries).contains(date));
        let i = choose|i: int| 0 <= i < entries.len() && (#[trigger] entries[i]).date == Some(date);
        assert(calendar.contains_key(rows[i].source_updated_at));
    }
    assert forall|k: int, l: int| 0 <= k < l < days@.len() implies precedes(
        (#[trigger] days@[k]).date@,
        (#[trigger] days@[l]).date@,
    ) by {
        assert(buckets[k] == days@[k]@ && buckets[l] == days@[l]@);
    }
    assert forall|i: int| 0 <= i < rows.len() implies exists|k: int|
        0 <= k < days@.len() && may_fall_on(
            whole_seconds((#[trigger] rows[i]).source_updated_at),
            Some((#[trigger] days@[k]).date@),
        ) by {
        assert(entries[i].date is Some);
        every_conversation_has_its_day(entries, i);
        let date = entries[i].date->0;
        let k = choose|k: int| 0 <= k < buckets.len() && buckets[k] == day_row(entries, date);
        assert(buckets[k] == days@[k]@);
        assert(days@[k].date@ == date);
        assert(calendar.contains_key(rows[i].source_updated_at));
        assert(may_fall_on(whole_seconds(rows[i].source_updated_at), Some(days@[k].date@)));
    }
}

/// Whether a bucket is that of its day: it counts the conversations that the calendar puts
/// on its date, and adds up their turns, their files written and their failures.
pub open spec fn is_day_of(
    bucket: DayBucket,
    rows: Seq<DigestRowView>,
    calendar: Map<i64, Option<Seq<char>>>,
) -> bool {
    let date = bucket.date@;
    &&& bucket.conversations == total_on(rows, calendar, date, |r: DigestRowView| 1) as i64
    &&& bucket.turns == total_on(
        rows,
        calendar,
        date,
        |r: DigestRowView| r.totals.turns as int,
    )
    &&& bucket.writes == total_on(
        rows,
        calendar,
        date,
        |r: DigestRowView| r.totals.writes as int,
    )
    &&& bucket.failures == total_on(
        rows,
        calendar,
        date,
        |r: DigestRowView| r.totals.failures as int,
    )
}

/// Days that are served add the conversations of the window up: each bucket those of its
/// own date, by one calendar, and all buckets together all of them.
pub proof fn served_days_add_up(days: Vec<DayBucket>, store: StoreView, filter: FilterView)
    requires
        days_answered(Ok(days), store, filter),
    ensures
        ({
            let rows = admitted(store.digests, filter);
            &&& total_of(days@, |b: DayBucket| b.turns as int) == total_of(
                rows,
                |r: DigestRowView| r.totals.turns as int,
            )
            &&& total_of(days@, |b: DayBucket| b.writes as int) == total_of(
                rows,
                |r: DigestRowView| r.totals.writes as int,
            )
            &&& total_of(days@, |b: DayBucket| b.failures as int) == total_of(
                rows,
                |r: DigestRowView| r.totals.failures as int,
            )
            &&& rows.len() <= i64::MAX ==> total_of(days@, |b: DayBucket| b.conversations as int)
                == rows.len()
            &&& exists|calendar: Map<i64, Option<Seq<char>>>|
                #![trigger covers(calendar, rows)]
                is_calendar(calendar) && covers(calendar, rows) && (forall|k: int|
                    0 <= k < days@.len() ==> is_day_of(#[trigger] days@[k], rows, calendar))
        }),
{
    let rows = admitted(store.digests, filter);
    let calendar = choose|calendar: Map<i64, Option<Seq<char>>>|
        is_calendar(calendar) && covers(calendar, rows) && is_served(
            Ok::<Vec<DayBucket>, DaysError>(days),
            #[trigger] entries_for(rows, calendar),
        );
    let entries = entries_for(rows, calendar);
    let buckets = arranged::<DayBucket>(day_rows(entries));
    assert(views(days@) == buckets);
    assert forall|i: int| 0 <= i < rows.len() implies calendar[(
    #[trigger] rows[i]).source_updated_at] is Some by {
        assert(entries[i].date is Some);
    }
    the_days_add_up_to_the_whole(rows, calendar);
    assert forall|k: int| 0 <= k < days@.len() implies #[trigger] days@[k]@ == buckets[k] by {}
    same_totals(days@, buckets, |b: DayBucket| b.turns as int, |b: DayBucketView| b.turns);
    same_totals(days@, buckets, |b: DayBucket| b.writes as int, |b: DayBucketView| b.writes);
    same_totals(days@, buckets, |b: DayBucket| b.failures as int, |b: DayBucketView| b.failures);
    same_totals(
        days@,
        buckets,
        |b: DayBucket| b.conversations as int,
        |b: DayBucketView| b.conversations as int,
    );
    arranged_rows_are_the_same_rows::<DayBucket>(day_rows(entries));
    assert forall|k: int| 0 <= k < days@.len() implies is_day_of(
        #[trigger] days@[k],
        rows,
        calendar,
    ) by {
        assert(buckets[k] == days@[k]@);
        assert(buckets.contains(buckets[k]));
        let m = choose|m: int|
            0 <= m < day_rows(entries).len() && day_rows(entries)[m] == buckets[k];
        a_day_adds_its_conversations_up(rows, calendar, dates_of(entries)[m]);
    }
}

} // verus!
