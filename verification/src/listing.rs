//! What the dashboard lists of a window: the conversations in it, and the work that
//! was left outstanding in them.

use crate::model::{ConversationDigest, DigestView, OpenItemRow, OpenItemView, WorkItemView};
use crate::order::{
    arranged, arranged_rows_are_in_order, arranged_rows_are_the_same_rows,
    arranging_keeps_the_rows, first_rows, is_an_order, what_need_not_change_places_does_not,
    Ranked,
};
use crate::sums::total_of;
use crate::tables::{
    a_digest_says_what_its_row_says, a_forgotten_conversation_is_gone, deleting_keeps_the_tables_valid, is_completed,
    one_place_only, own_rows_are_held, rows_of, work_of, work_that_is, DigestRow, DigestRowView, ItemRowView,
    StoreView,
};
use crate::window::{Filter, FilterView};
use vstd::prelude::*;

verus! {

impl FilterView {
    /// Whether a conversation is in the window: it moved at or after the instant,
    /// where there is one, and belongs to the folder, where there is one.
    pub open spec fn admits(self, row: DigestRowView) -> bool {
        &&& self.since_ms matches Some(t) ==> row.source_updated_at >= t
        &&& self.folder_path matches Some(f) ==> row.folder_path == Some(f)
    }
}

impl Filter {
    /// Whether a conversation is in the window.
    pub fn admits(&self, row: &DigestRow) -> (r: bool)
        ensures
            r == self@.admits(row@),
    {
        let late_enough: bool = match self.since_ms {
            Some(t) => row.source_updated_at >= t,
            None => true,
        };
        let in_folder: bool = match &self.folder_path {
            Some(f) => match &row.folder_path {
                Some(g) => *f == *g,
                None => false,
            },
            None => true,
        };
        late_enough && in_folder
    }
}

/// At most `limit` rows; a negative limit is no limit.
pub open spec fn limited<A>(rows: Seq<A>, limit: i64) -> Seq<A> {
    if limit < 0 {
        rows
    } else {
        first_rows(rows, limit as nat)
    }
}

/// Keeps at most `limit` rows; a negative limit is no limit.
pub fn cut_to<A>(rows: &mut Vec<A>, limit: i64)
    ensures
        final(rows)@ == limited(old(rows)@, limit),
{
    if limit >= 0 {
        if (limit as u64) < (rows.len() as u64) {
            rows.truncate(limit as usize);
        }
    }
    assert(rows@ =~= limited(old(rows)@, limit));
}

/// The rows in the window, in the order of the table.
pub open spec fn admitted(rows: Seq<DigestRowView>, filter: FilterView) -> Seq<DigestRowView>
    decreases rows.len(),
{
    if rows.len() == 0 {
        seq![]
    } else {
        let rest = admitted(rows.drop_last(), filter);
        if filter.admits(rows.last()) {
            rest.push(rows.last())
        } else {
            rest
        }
    }
}

/// Where a row is in the window, there is one in it.
pub proof fn some_are_admitted(rows: Seq<DigestRowView>, i: int, filter: FilterView)
    requires
        0 <= i < rows.len(),
        filter.admits(rows[i]),
    ensures
        admitted(rows, filter).len() > 0,
    decreases rows.len(),
{
    if i < rows.len() - 1 {
        some_are_admitted(rows.drop_last(), i, filter);
    }
}

/// What last moved comes first.
impl Ranked for ConversationDigest {
    open spec fn ahead(a: DigestView, b: DigestView) -> bool {
        a.source_updated_at > b.source_updated_at
    }

    fn is_ahead(&self, other: &Self) -> (r: bool) {
        self.source_updated_at > other.source_updated_at
    }
}

/// An outstanding item with its place among those of its conversation.
#[derive(Debug)]
pub struct PlacedItem {
    pub ordinal: i128,
    pub row: OpenItemRow,
}

/// The view of a [`PlacedItem`].
pub struct PlacedItemView {
    pub ordinal: int,
    pub row: OpenItemView,
}

impl View for PlacedItem {
    type V = PlacedItemView;

    open spec fn view(&self) -> PlacedItemView {
        PlacedItemView { ordinal: self.ordinal as int, row: self.row@ }
    }
}

/// What last moved comes first: a to-do from this morning can be acted on better
/// than one from last month. The items of one conversation keep their places.
impl Ranked for PlacedItem {
    open spec fn ahead(a: PlacedItemView, b: PlacedItemView) -> bool {
        ||| a.row.source_updated_at > b.row.source_updated_at
        ||| a.row.source_updated_at == b.row.source_updated_at && a.ordinal < b.ordinal
    }

    fn is_ahead(&self, other: &Self) -> (r: bool) {
        if self.row.source_updated_at != other.row.source_updated_at {
            self.row.source_updated_at > other.row.source_updated_at
        } else {
            self.ordinal < other.ordinal
        }
    }
}

/// An item as the dashboard lists it, with the conversation it came from.
pub open spec fn placed(item: ItemRowView, row: DigestRowView) -> PlacedItemView {
    PlacedItemView {
        ordinal: item.ordinal,
        row: OpenItemView {
            conversation_id: row.conversation_id,
            conversation_title: row.title,
            folder_path: row.folder_path,
            content: item.content,
            status: item.status,
            source_updated_at: row.source_updated_at,
        },
    }
}

/// The outstanding ones of a conversation's items.
pub open spec fn outstanding(items: Seq<ItemRowView>, row: DigestRowView) -> Seq<PlacedItemView>
    decreases items.len(),
{
    if items.len() == 0 {
        seq![]
    } else {
        let rest = outstanding(items.drop_last(), row);
        if is_completed(items.last().status) {
            rest
        } else {
            rest.push(placed(items.last(), row))
        }
    }
}

/// The outstanding items of several conversations, in the order of the tables.
pub open spec fn all_outstanding(
    rows: Seq<DigestRowView>,
    items: Seq<ItemRowView>,
) -> Seq<PlacedItemView>
    decreases rows.len(),
{
    if rows.len() == 0 {
        seq![]
    } else {
        all_outstanding(rows.drop_last(), items) + outstanding(
            rows_of(items, rows.last().conversation_id),
            rows.last(),
        )
    }
}

/// The rows of some placed items.
pub open spec fn unplaced(items: Seq<PlacedItemView>) -> Seq<OpenItemView> {
    Seq::new(items.len(), |i: int| items[i].row)
}

impl StoreView {
    /// The digests of some rows.
    pub open spec fn digests_of(self, rows: Seq<DigestRowView>) -> Seq<DigestView> {
        Seq::new(rows.len(), |i: int| self.digest_of(rows[i]))
    }

    /// The conversations in the window, newest first.
    pub open spec fn conversations(self, filter: FilterView) -> Seq<DigestView> {
        limited(
            arranged::<ConversationDigest>(self.digests_of(admitted(self.digests, filter))),
            filter.limit,
        )
    }

    /// The work left outstanding in the window, each item with its place, in the order
    /// of how recently its conversation moved.
    pub open spec fn placed_items(self, filter: FilterView) -> Seq<PlacedItemView> {
        limited(
            arranged::<PlacedItem>(all_outstanding(admitted(self.digests, filter), self.items)),
            filter.item_limit,
        )
    }

    /// The work left outstanding in the window, in the order of how recently its
    /// conversation moved.
    pub open spec fn open_items(self, filter: FilterView) -> Seq<OpenItemView> {
        unplaced(self.placed_items(filter))
    }
}

/// The rows in the window are rows of the table, none is twice there, and none is
/// missing.
proof fn admitted_rows(rows: Seq<DigestRowView>, filter: FilterView)
    ensures
        forall|k: int|
            0 <= k < admitted(rows, filter).len() ==> filter.admits(
                #[trigger] admitted(rows, filter)[k],
            ) && rows.contains(admitted(rows, filter)[k]),
        forall|i: int|
            0 <= i < rows.len() && filter.admits(#[trigger] rows[i]) ==> admitted(
                rows,
                filter,
            ).contains(rows[i]),
        (forall|i: int, j: int|
            0 <= i < j < rows.len() ==> (#[trigger] rows[i]).conversation_id != (
            #[trigger] rows[j]).conversation_id) ==> (forall|k: int, l: int|
            0 <= k < l < admitted(rows, filter).len() ==> (#[trigger] admitted(
                rows,
                filter,
            )[k]).conversation_id != (#[trigger] admitted(rows, filter)[l]).conversation_id),
    decreases rows.len(),
{
    if rows.len() > 0 {
        let rest = rows.drop_last();
        let last = rows.last();
        let some = admitted(rest, filter);
        let all = admitted(rows, filter);
        admitted_rows(rest, filter);
        assert forall|k: int| 0 <= k < all.len() implies filter.admits(#[trigger] all[k])
            && rows.contains(all[k]) by {
            if k < some.len() {
                assert(all[k] == some[k]);
                let i = choose|i: int| 0 <= i < rest.len() && rest[i] == some[k];
                assert(rows[i] == all[k]);
            } else {
                assert(rows[rows.len() - 1] == all[k]);
            }
        }
        assert forall|i: int| 0 <= i < rows.len() && filter.admits(
            #[trigger] rows[i],
        ) implies all.contains(rows[i]) by {
            if i < rest.len() {
                assert(rest[i] == rows[i]);
                let k = choose|k: int| 0 <= k < some.len() && some[k] == rows[i];
                assert(all[k] == rows[i]);
            } else {
                assert(all[all.len() - 1] == last);
            }
        }
        if forall|i: int, j: int|
            0 <= i < j < rows.len() ==> (#[trigger] rows[i]).conversation_id != (
            #[trigger] rows[j]).conversation_id {
            assert forall|i: int, j: int| 0 <= i < j < rest.len() implies (
            #[trigger] rest[i]).conversation_id != (#[trigger] rest[j]).conversation_id by {
                assert(rows[i].conversation_id != rows[j].conversation_id);
            }
            assert forall|k: int, l: int| 0 <= k < l < all.len() implies (
            #[trigger] all[k]).conversation_id != (#[trigger] all[l]).conversation_id by {
                assert(all[k] == some[k]);
                if l < some.len() {
                    assert(all[l] == some[l]);
                } else {
                    let i = choose|i: int| 0 <= i < rest.len() && rest[i] == some[k];
                    assert(rows[i].conversation_id != rows[rows.len() - 1].conversation_id);
                }
            }
        }
    }
}

/// The start of a list, and what it leaves out.
proof fn limited_rows<A>(rows: Seq<A>, limit: i64)
    ensures
        limited(rows, limit).len() <= rows.len(),
        forall|i: int|
            0 <= i < limited(rows, limit).len() ==> #[trigger] limited(rows, limit)[i] == rows[i],
        limit >= 0 ==> limited(rows, limit).len() <= limit,
        limited(rows, limit).len() < rows.len() ==> limit >= 0 && limited(rows, limit).len()
            == limit,
{
}

/// How recently a conversation moved puts the conversations in an order.
pub proof fn recency_is_an_order()
    ensures
        is_an_order::<ConversationDigest>(),
{
}

/// How recently their conversation moved, and then their places, put the outstanding
/// items in an order.
pub proof fn places_are_an_order()
    ensures
        is_an_order::<PlacedItem>(),
{
}

/// The conversations of a window come out newest first.
pub proof fn conversations_come_newest_first(s: StoreView, filter: FilterView)
    ensures
        forall|i: int, j: int|
            0 <= i < j < s.conversations(filter).len() ==> (#[trigger] s.conversations(
                filter,
            )[i]).source_updated_at >= (#[trigger] s.conversations(filter)[j]).source_updated_at,
{
    let all = arranged::<ConversationDigest>(s.digests_of(admitted(s.digests, filter)));
    recency_is_an_order();
    arranged_rows_are_in_order::<ConversationDigest>(
        s.digests_of(admitted(s.digests, filter)),
    );
    limited_rows(all, filter.limit);
    assert forall|i: int, j: int| 0 <= i < j < s.conversations(filter).len() implies (
    #[trigger] s.conversations(filter)[i]).source_updated_at >= (#[trigger] s.conversations(
        filter,
    )[j]).source_updated_at by {
        assert(!ConversationDigest::ahead(all[j], all[i]));
    }
}

/// A listed conversation is stored, is listed as its digest says, and is in the window;
/// none is listed twice; and there are no more than the limit.
pub proof fn only_conversations_of_the_window_are_listed(s: StoreView, filter: FilterView)
    requires
        s.valid(),
    ensures
        forall|i: int|
            0 <= i < s.conversations(filter).len() ==> s.digest(
                (#[trigger] s.conversations(filter)[i]).conversation_id,
            ) == Some(s.conversations(filter)[i]) && filter.admits(
                s.row(s.conversations(filter)[i].conversation_id),
            ),
        forall|i: int, j: int|
            0 <= i < j < s.conversations(filter).len() ==> (#[trigger] s.conversations(
                filter,
            )[i]).conversation_id != (#[trigger] s.conversations(filter)[j]).conversation_id,
        filter.limit >= 0 ==> s.conversations(filter).len() <= filter.limit,
{
    let rows = admitted(s.digests, filter);
    let found = s.digests_of(rows);
    let all = arranged::<ConversationDigest>(found);
    let listed = s.conversations(filter);
    admitted_rows(s.digests, filter);
    assert(found.no_duplicates()) by {
        assert forall|i: int, j: int| 0 <= i < found.len() && 0 <= j < found.len() && i
            != j implies found[i] != found[j] by {
            if i < j {
                assert(rows[i].conversation_id != rows[j].conversation_id);
            } else {
                assert(rows[j].conversation_id != rows[i].conversation_id);
            }
        }
    }
    arranged_rows_are_the_same_rows::<ConversationDigest>(found);
    limited_rows(all, filter.limit);
    assert forall|i: int| 0 <= i < listed.len() implies s.digest(
        (#[trigger] listed[i]).conversation_id,
    ) == Some(listed[i]) && filter.admits(s.row(listed[i].conversation_id)) by {
        assert(all.contains(all[i]));
        let k = choose|k: int| 0 <= k < found.len() && found[k] == all[i];
        assert(s.digests.contains(rows[k]));
        let m = choose|m: int| 0 <= m < s.digests.len() && s.digests[m] == rows[k];
        assert(s.is_at(rows[k].conversation_id, m));
        one_place_only(s, rows[k].conversation_id, m);
    }
    assert forall|i: int, j: int| 0 <= i < j < listed.len() implies (
    #[trigger] listed[i]).conversation_id != (#[trigger] listed[j]).conversation_id by {
        assert(all[i] != all[j]);
        assert(s.digest(listed[i].conversation_id) == Some(listed[i]));
        assert(s.digest(listed[j].conversation_id) == Some(listed[j]));
    }
}

/// A conversation of the window that is not listed gave way to the limit: as many as
/// the limit are listed, and each moved as recently or more so.
pub proof fn no_newer_conversation_is_left_out(s: StoreView, filter: FilterView, id: Seq<char>)
    requires
        s.valid(),
        s.holds(id),
        filter.admits(s.row(id)),
        forall|i: int|
            0 <= i < s.conversations(filter).len() ==> (#[trigger] s.conversations(
                filter,
            )[i]).conversation_id != id,
    ensures
        filter.limit >= 0,
        s.conversations(filter).len() == filter.limit,
        forall|i: int|
            0 <= i < s.conversations(filter).len() ==> (#[trigger] s.conversations(
                filter,
            )[i]).source_updated_at >= s.row(id).source_updated_at,
{
    let rows = admitted(s.digests, filter);
    let found = s.digests_of(rows);
    let all = arranged::<ConversationDigest>(found);
    let listed = s.conversations(filter);
    let p = s.place(id);
    assert(s.is_at(id, p));
    admitted_rows(s.digests, filter);
    assert(rows.contains(s.digests[p]));
    let k = choose|k: int| 0 <= k < rows.len() && rows[k] == s.digests[p];
    assert(found[k] == s.digest_of(s.row(id)));
    arranged_rows_are_the_same_rows::<ConversationDigest>(found);
    assert(found.contains(found[k]));
    assert(all.contains(found[k]));
    let m = choose|m: int| 0 <= m < all.len() && all[m] == found[k];
    limited_rows(all, filter.limit);
    assert(m >= listed.len()) by {
        if m < listed.len() {
            assert(listed[m].conversation_id == id);
        }
    }
    recency_is_an_order();
    arranged_rows_are_in_order::<ConversationDigest>(found);
    assert forall|i: int| 0 <= i < listed.len() implies (#[trigger] listed[i]).source_updated_at
        >= s.row(id).source_updated_at by {
        assert(!ConversationDigest::ahead(all[m], all[i]));
    }
}

/// The outstanding items of a conversation are those of its items that are not done.
proof fn outstanding_ones(items: Seq<ItemRowView>, row: DigestRowView)
    ensures
        forall|k: int|
            0 <= k < outstanding(items, row).len() ==> exists|i: int|
                0 <= i < items.len() && !is_completed((#[trigger] items[i]).status)
                    && #[trigger] outstanding(items, row)[k] == placed(items[i], row),
        forall|k: int|
            0 <= k < outstanding(items, row).len() ==> work_that_is(false, items).contains(
                WorkItemView {
                    content: (#[trigger] outstanding(items, row)[k]).row.content,
                    status: outstanding(items, row)[k].row.status,
                },
            ),
        forall|w: WorkItemView| #[trigger]
            work_that_is(false, items).contains(w) ==> exists|k: int|
                0 <= k < outstanding(items, row).len() && (#[trigger] outstanding(
                    items,
                    row,
                )[k]).row.content == w.content && outstanding(items, row)[k].row.status
                    == w.status,
    decreases items.len(),
{
    if items.len() > 0 {
        let rest = items.drop_last();
        let last = items.last();
        let some = outstanding(rest, row);
        let all = outstanding(items, row);
        let work_before = work_that_is(false, rest);
        let work = work_that_is(false, items);
        outstanding_ones(rest, row);
        assert forall|k: int| 0 <= k < all.len() implies exists|i: int|
            0 <= i < items.len() && !is_completed((#[trigger] items[i]).status) && #[trigger] all[k]
                == placed(items[i], row) by {
            if k < some.len() {
                assert(all[k] == some[k]);
                let i = choose|i: int|
                    0 <= i < rest.len() && !is_completed((#[trigger] rest[i]).status) && some[k]
                        == placed(rest[i], row);
                assert(items[i] == rest[i]);
            } else {
                assert(all[k] == placed(items[items.len() - 1], row));
            }
        }
        assert forall|k: int| 0 <= k < all.len() implies work.contains(
            WorkItemView {
                content: (#[trigger] all[k]).row.content,
                status: all[k].row.status,
            },
        ) by {
            if k < some.len() {
                assert(all[k] == some[k]);
                let w = WorkItemView { content: some[k].row.content, status: some[k].row.status };
                assert(work_before.contains(w));
                let i = choose|i: int| 0 <= i < work_before.len() && work_before[i] == w;
                assert(work[i] == w);
            } else {
                assert(work[work.len() - 1] == work_of(last));
            }
        }
        assert forall|w: WorkItemView| #[trigger] work.contains(w) implies exists|k: int|
            0 <= k < all.len() && (#[trigger] all[k]).row.content == w.content && all[k].row.status
                == w.status by {
            let i = choose|i: int| 0 <= i < work.len() && work[i] == w;
            if i < work_before.len() {
                assert(work_before[i] == w);
                assert(work_before.contains(w));
                let k = choose|k: int|
                    0 <= k < some.len() && (#[trigger] some[k]).row.content == w.content
                        && some[k].row.status == w.status;
                assert(all[k] == some[k]);
            } else {
                assert(all[all.len() - 1] == placed(last, row));
            }
        }
    }
}

/// The outstanding items of several conversations are those of each.
proof fn all_outstanding_ones(rows: Seq<DigestRowView>, items: Seq<ItemRowView>)
    ensures
        forall|k: int|
            0 <= k < all_outstanding(rows, items).len() ==> exists|r: int|
                0 <= r < rows.len() && outstanding(
                    rows_of(items, (#[trigger] rows[r]).conversation_id),
                    rows[r],
                ).contains(#[trigger] all_outstanding(rows, items)[k]),
        forall|r: int, x: PlacedItemView|
            0 <= r < rows.len() && #[trigger] outstanding(
                rows_of(items, rows[r].conversation_id),
                rows[r],
            ).contains(x) ==> all_outstanding(rows, items).contains(x),
    decreases rows.len(),
{
    if rows.len() > 0 {
        let rest = rows.drop_last();
        let last = rows.last();
        let some = all_outstanding(rest, items);
        let more = outstanding(rows_of(items, last.conversation_id), last);
        let all = all_outstanding(rows, items);
        all_outstanding_ones(rest, items);
        assert forall|k: int| 0 <= k < all.len() implies exists|r: int|
            0 <= r < rows.len() && outstanding(
                rows_of(items, (#[trigger] rows[r]).conversation_id),
                rows[r],
            ).contains(#[trigger] all[k]) by {
            if k < some.len() {
                assert(all[k] == some[k]);
                let r = choose|r: int|
                    0 <= r < rest.len() && outstanding(
                        rows_of(items, (#[trigger] rest[r]).conversation_id),
                        rest[r],
                    ).contains(some[k]);
                assert(rows[r] == rest[r]);
            } else {
                assert(all[k] == more[k - some.len()]);
                assert(more.contains(all[k]));
                assert(rows[rows.len() - 1] == last);
            }
        }
        assert forall|r: int, x: PlacedItemView|
            0 <= r < rows.len() && #[trigger] outstanding(
                rows_of(items, rows[r].conversation_id),
                rows[r],
            ).contains(x) implies all.contains(x) by {
            if r < rest.len() {
                assert(rest[r] == rows[r]);
                assert(outstanding(rows_of(items, rest[r].conversation_id), rest[r]).contains(x));
                let k = choose|k: int| 0 <= k < some.len() && some[k] == x;
                assert(all[k] == x);
            } else {
                let k = choose|k: int| 0 <= k < more.len() && more[k] == x;
                assert(all[some.len() + k] == x);
            }
        }
    }
}

/// Whether an item of the dashboard is as the store has it: not done, out of the
/// outstanding items of a stored conversation in the window, and with that
/// conversation's title, folder and instant.
pub open spec fn is_outstanding(s: StoreView, filter: FilterView, x: OpenItemView) -> bool {
    let d = s.detail(x.conversation_id);
    &&& d is Some
    &&& filter.admits(s.row(x.conversation_id))
    &&& x.conversation_title == d->0.digest.title
    &&& x.folder_path == d->0.digest.folder_path
    &&& x.source_updated_at == d->0.digest.source_updated_at
    &&& !is_completed(x.status)
    &&& d->0.open_items.contains(WorkItemView { content: x.content, status: x.status })
}

/// A listed item is not done and carries the conversation of the window that it came
/// from, and there are no more than the limit.
pub proof fn only_outstanding_work_is_listed(s: StoreView, filter: FilterView)
    requires
        s.valid(),
    ensures
        forall|i: int|
            0 <= i < s.open_items(filter).len() ==> is_outstanding(
                s,
                filter,
                #[trigger] s.open_items(filter)[i],
            ),
        filter.item_limit >= 0 ==> s.open_items(filter).len() <= filter.item_limit,
{
    let rows = admitted(s.digests, filter);
    let found = all_outstanding(rows, s.items);
    let all = arranged::<PlacedItem>(found);
    let listed = s.open_items(filter);
    admitted_rows(s.digests, filter);
    all_outstanding_ones(rows, s.items);
    arranged_rows_are_the_same_rows::<PlacedItem>(found);
    limited_rows(all, filter.item_limit);
    assert forall|i: int| 0 <= i < listed.len() implies is_outstanding(
        s,
        filter,
        #[trigger] listed[i],
    ) by {
        let x = all[i];
        assert(s.placed_items(filter)[i] == x);
        assert(all.contains(x));
        let k = choose|k: int| 0 <= k < found.len() && found[k] == x;
        let r = choose|r: int|
            0 <= r < rows.len() && outstanding(
                rows_of(s.items, (#[trigger] rows[r]).conversation_id),
                rows[r],
            ).contains(found[k]);
        let row = rows[r];
        let items = rows_of(s.items, row.conversation_id);
        outstanding_ones(items, row);
        let l = choose|l: int|
            0 <= l < outstanding(items, row).len() && outstanding(items, row)[l] == x;
        assert(work_that_is(false, items).contains(
            WorkItemView {
                content: outstanding(items, row)[l].row.content,
                status: outstanding(items, row)[l].row.status,
            },
        ));
        assert(s.digests.contains(row));
        let m = choose|m: int| 0 <= m < s.digests.len() && s.digests[m] == row;
        assert(s.is_at(row.conversation_id, m));
        one_place_only(s, row.conversation_id, m);
    }
}

/// The outstanding items come out in the order of how recently their conversation
/// moved, and those of conversations that moved at the same instant in the order of
/// their places.
pub proof fn work_of_recent_conversations_comes_first(s: StoreView, filter: FilterView)
    ensures
        forall|i: int, j: int|
            0 <= i < j < s.open_items(filter).len() ==> (#[trigger] s.open_items(
                filter,
            )[i]).source_updated_at >= (#[trigger] s.open_items(filter)[j]).source_updated_at,
        forall|i: int, j: int|
            0 <= i < j < s.placed_items(filter).len() && (#[trigger] s.placed_items(
                filter,
            )[i]).row.source_updated_at == (#[trigger] s.placed_items(
                filter,
            )[j]).row.source_updated_at ==> s.placed_items(filter)[i].ordinal <= s.placed_items(
                filter,
            )[j].ordinal,
{
    let found = all_outstanding(admitted(s.digests, filter), s.items);
    let all = arranged::<PlacedItem>(found);
    places_are_an_order();
    arranged_rows_are_in_order::<PlacedItem>(found);
    limited_rows(all, filter.item_limit);
    assert forall|i: int, j: int| 0 <= i < j < s.open_items(filter).len() implies (
    #[trigger] s.open_items(filter)[i]).source_updated_at >= (#[trigger] s.open_items(
        filter,
    )[j]).source_updated_at by {
        assert(s.placed_items(filter)[i] == all[i] && s.placed_items(filter)[j] == all[j]);
        assert(!PlacedItem::ahead(all[j], all[i]));
    }
    assert forall|i: int, j: int|
        0 <= i < j < s.placed_items(filter).len() && (#[trigger] s.placed_items(
            filter,
        )[i]).row.source_updated_at == (#[trigger] s.placed_items(
            filter,
        )[j]).row.source_updated_at implies s.placed_items(filter)[i].ordinal <= s.placed_items(
        filter,
    )[j].ordinal by {
        assert(!PlacedItem::ahead(all[j], all[i]));
    }
}

/// An outstanding item of a conversation in the window that is not listed gave way to
/// the limit: as many as the limit are listed, and the conversation of each moved as
/// recently or more so.
pub proof fn no_recent_work_is_left_out(
    s: StoreView,
    filter: FilterView,
    id: Seq<char>,
    work: WorkItemView,
)
    requires
        s.valid(),
        s.holds(id),
        filter.admits(s.row(id)),
        s.detail(id)->0.open_items.contains(work),
        forall|i: int|
            0 <= i < s.open_items(filter).len() ==> !((#[trigger] s.open_items(
                filter,
            )[i]).conversation_id == id && s.open_items(filter)[i].content == work.content
                && s.open_items(filter)[i].status == work.status),
    ensures
        filter.item_limit >= 0,
        s.open_items(filter).len() == filter.item_limit,
        forall|i: int|
            0 <= i < s.open_items(filter).len() ==> (#[trigger] s.open_items(
                filter,
            )[i]).source_updated_at >= s.row(id).source_updated_at,
{
    let rows = admitted(s.digests, filter);
    let found = all_outstanding(rows, s.items);
    let all = arranged::<PlacedItem>(found);
    let listed = s.open_items(filter);
    let p = s.place(id);
    assert(s.is_at(id, p));
    admitted_rows(s.digests, filter);
    all_outstanding_ones(rows, s.items);
    let row = s.digests[p];
    assert(rows.contains(row));
    let r = choose|r: int| 0 <= r < rows.len() && rows[r] == row;
    let items = rows_of(s.items, id);
    outstanding_ones(items, row);
    assert(work_that_is(false, items).contains(work));
    let k = choose|k: int|
        0 <= k < outstanding(items, row).len() && (#[trigger] outstanding(
            items,
            row,
        )[k]).row.content == work.content && outstanding(items, row)[k].row.status == work.status;
    let x = outstanding(items, row)[k];
    let i = choose|i: int|
        0 <= i < items.len() && !is_completed((#[trigger] items[i]).status) && x == placed(
            items[i],
            row,
        );
    assert(outstanding(rows_of(s.items, rows[r].conversation_id), rows[r]).contains(x));
    arranged_rows_are_the_same_rows::<PlacedItem>(found);
    assert(all.contains(x));
    let m = choose|m: int| 0 <= m < all.len() && all[m] == x;
    limited_rows(all, filter.item_limit);
    assert(m >= listed.len()) by {
        if m < listed.len() {
            assert(s.placed_items(filter)[m] == x);
            assert(listed[m] == x.row);
        }
    }
    places_are_an_order();
    arranged_rows_are_in_order::<PlacedItem>(found);
    assert forall|i: int| 0 <= i < listed.len() implies (#[trigger] listed[i]).source_updated_at
        >= s.row(id).source_updated_at by {
        assert(s.placed_items(filter)[i] == all[i]);
        assert(!PlacedItem::ahead(all[m], all[i]));
    }
}

/// A conversation that was forgotten takes its outstanding items with it.
pub proof fn a_forgotten_conversation_leaves_no_work(
    s: StoreView,
    id: Seq<char>,
    filter: FilterView,
)
    requires
        s.valid(),
    ensures
        forall|i: int|
            0 <= i < s.deleted(id).open_items(filter).len() ==> (#[trigger] s.deleted(
                id,
            ).open_items(filter)[i]).conversation_id != id,
{
    let t = s.deleted(id);
    deleting_keeps_the_tables_valid(s, id);
    a_forgotten_conversation_is_gone(s, id);
    only_outstanding_work_is_listed(t, filter);
    assert forall|i: int| 0 <= i < t.open_items(filter).len() implies (#[trigger] t.open_items(
        filter,
    )[i]).conversation_id != id by {
        assert(is_outstanding(t, filter, t.open_items(filter)[i]));
    }
}

/// Leaving the strays out changes nothing of what is listed of any window.
pub proof fn strays_are_never_listed(s: StoreView, filter: FilterView)
    ensures
        s.without_strays().conversations(filter) == s.conversations(filter),
        s.without_strays().open_items(filter) == s.open_items(filter),
{
    let t = s.without_strays();
    let rows = admitted(s.digests, filter);
    admitted_rows(s.digests, filter);
    assert forall|k: int| 0 <= k < rows.len() implies s.holds(
        (#[trigger] rows[k]).conversation_id,
    ) by {
        assert(s.digests.contains(rows[k]));
        let i = choose|i: int| 0 <= i < s.digests.len() && s.digests[i] == rows[k];
        assert(s.is_at(rows[k].conversation_id, i));
    }
    assert forall|k: int| 0 <= k < rows.len() implies rows_of(
        t.items,
        (#[trigger] rows[k]).conversation_id,
    ) == rows_of(s.items, rows[k].conversation_id) by {
        own_rows_are_held(s, s.items, rows[k].conversation_id);
    }
    assert(t.digests_of(rows) =~= s.digests_of(rows));
    same_work(rows, t.items, s.items);
}

/// Tables with the same items for some conversations have the same outstanding ones.
proof fn same_work(rows: Seq<DigestRowView>, a: Seq<ItemRowView>, b: Seq<ItemRowView>)
    requires
        forall|k: int|
            0 <= k < rows.len() ==> rows_of(a, (#[trigger] rows[k]).conversation_id) == rows_of(
                b,
                rows[k].conversation_id,
            ),
    ensures
        all_outstanding(rows, a) == all_outstanding(rows, b),
    decreases rows.len(),
{
    if rows.len() > 0 {
        let rest = rows.drop_last();
        assert forall|k: int| 0 <= k < rest.len() implies rows_of(
            a,
            (#[trigger] rest[k]).conversation_id,
        ) == rows_of(b, rest[k].conversation_id) by {
            assert(rest[k] == rows[k]);
        }
        same_work(rest, a, b);
        assert(rows[rows.len() - 1] == rows.last());
    }
}

/// Whether a conversation that last moved at an instant and belongs to a folder is in a
/// window.
pub open spec fn lies_in(
    filter: FilterView,
    source_updated_at: i64,
    folder_path: Option<Seq<char>>,
) -> bool {
    &&& filter.since_ms is None || source_updated_at >= filter.since_ms->0
    &&& filter.folder_path is None || folder_path == filter.folder_path
}

/// The rows of a window are those rows of the table that moved at or after its instant and
/// belong to its folder, as far as it has these, in the order of the table.
pub proof fn a_window_holds_what_lies_in_it(rows: Seq<DigestRowView>, filter: FilterView)
    ensures
        admitted(rows, filter) == rows.filter(
            |r: DigestRowView| lies_in(filter, r.source_updated_at, r.folder_path),
        ),
    decreases rows.len(),
{
    reveal(Seq::filter);
    if rows.len() > 0 {
        a_window_holds_what_lies_in_it(rows.drop_last(), filter);
    }
}

/// Whether a conversation is listed.
pub open spec fn is_listed(s: StoreView, filter: FilterView, id: Seq<char>) -> bool {
    exists|i: int|
        0 <= i < s.conversations(filter).len() && (#[trigger] s.conversations(
            filter,
        )[i]).conversation_id == id
}

/// What is listed lies in the window, and what lies in the window is listed, or gave way to
/// the limit to conversations that moved as recently or more so. There are as many as lie
/// in the window, or as the limit says.
pub proof fn the_list_is_the_window(s: StoreView, filter: FilterView)
    requires
        s.valid(),
    ensures
        ({
            let listed = s.conversations(filter);
            &&& forall|i: int|
                0 <= i < listed.len() ==> lies_in(
                    filter,
                    (#[trigger] listed[i]).source_updated_at,
                    listed[i].folder_path,
                )
            &&& forall|id: Seq<char>|
                s.holds(id) && lies_in(
                    filter,
                    s.digest(id)->0.source_updated_at,
                    s.digest(id)->0.folder_path,
                ) && !#[trigger] is_listed(s, filter, id) ==> 0 <= filter.limit == listed.len() && (
                forall|i: int|
                    0 <= i < listed.len() ==> (#[trigger] listed[i]).source_updated_at >= s.digest(
                        id,
                    )->0.source_updated_at)
            &&& filter.limit >= 0 ==> listed.len() <= filter.limit
        }),
{
    let listed = s.conversations(filter);
    only_conversations_of_the_window_are_listed(s, filter);
    assert forall|i: int| 0 <= i < listed.len() implies lies_in(
        filter,
        (#[trigger] listed[i]).source_updated_at,
        listed[i].folder_path,
    ) by {
        assert(s.digest(listed[i].conversation_id) == Some(listed[i]));
        a_digest_says_what_its_row_says(s, listed[i].conversation_id);
    }
    assert forall|id: Seq<char>|
        s.holds(id) && lies_in(
            filter,
            s.digest(id)->0.source_updated_at,
            s.digest(id)->0.folder_path,
        ) && !#[trigger] is_listed(s, filter, id) implies 0 <= filter.limit == listed.len() && (
    forall|i: int|
        0 <= i < listed.len() ==> (#[trigger] listed[i]).source_updated_at >= s.digest(
            id,
        )->0.source_updated_at) by {
        a_digest_says_what_its_row_says(s, id);
        assert forall|i: int| 0 <= i < listed.len() implies (#[trigger] listed[i]).conversation_id
            != id by {
            if listed[i].conversation_id == id {
                assert(is_listed(s, filter, id));
            }
        }
        no_newer_conversation_is_left_out(s, filter, id);
    }
}

/// How many of the outstanding items of the window there are: as many as the details of its
/// conversations hold, all together, where no limit cuts the list; else as many of them as
/// the limit says.
pub proof fn as_much_work_is_listed_as_is_outstanding(s: StoreView, filter: FilterView)
    requires
        s.valid(),
    ensures
        ({
            let outstanding_in_all = total_of(
                admitted(s.digests, filter),
                |r: DigestRowView| s.detail(r.conversation_id)->0.open_items.len() as int,
            );
            let n = s.open_items(filter).len();
            &&& filter.item_limit < 0 ==> n == outstanding_in_all
            &&& filter.item_limit >= 0 ==> n == if outstanding_in_all <= filter.item_limit {
                outstanding_in_all
            } else {
                filter.item_limit as int
            }
        }),
{
    let rows = admitted(s.digests, filter);
    let found = all_outstanding(rows, s.items);
    let all = arranged::<PlacedItem>(found);
    let open = |r: DigestRowView| s.detail(r.conversation_id)->0.open_items.len() as int;
    admitted_rows(s.digests, filter);
    assert forall|k: int| 0 <= k < rows.len() implies open(#[trigger] rows[k]) == outstanding(
        rows_of(s.items, rows[k].conversation_id),
        rows[k],
    ).len() by {
        let row = rows[k];
        assert(s.digests.contains(row));
        let i = choose|i: int| 0 <= i < s.digests.len() && s.digests[i] == row;
        assert(s.is_at(row.conversation_id, i));
        one_place_only(s, row.conversation_id, i);
        as_many_outstanding(rows_of(s.items, row.conversation_id), row);
    }
    work_adds_up(rows, s.items, open);
    arranging_keeps_the_rows::<PlacedItem>(found);
    limited_rows(all, filter.item_limit);
}

proof fn as_many_outstanding(items: Seq<ItemRowView>, row: DigestRowView)
    ensures
        outstanding(items, row).len() == work_that_is(false, items).len(),
    decreases items.len(),
{
    if items.len() > 0 {
        as_many_outstanding(items.drop_last(), row);
    }
}

proof fn work_adds_up(
    rows: Seq<DigestRowView>,
    items: Seq<ItemRowView>,
    open: spec_fn(DigestRowView) -> int,
)
    requires
        forall|k: int|
            0 <= k < rows.len() ==> open(#[trigger] rows[k]) == outstanding(
                rows_of(items, rows[k].conversation_id),
                rows[k],
            ).len(),
    ensures
        all_outstanding(rows, items).len() == total_of(rows, open),
    decreases rows.len(),
{
    if rows.len() > 0 {
        let rest = rows.drop_last();
        assert forall|k: int| 0 <= k < rest.len() implies open(#[trigger] rest[k]) == outstanding(
            rows_of(items, rest[k].conversation_id),
            rest[k],
        ).len() by {
            assert(rest[k] == rows[k]);
        }
        work_adds_up(rest, items, open);
        assert(open(rows[rows.len() - 1]) == outstanding(
            rows_of(items, rows[rows.len() - 1].conversation_id),
            rows[rows.len() - 1],
        ).len());
    }
}

/// A listed item has a status other than `completed`, is one of the open items of the
/// conversation it names, and carries that conversation's title, folder and instant, which
/// lie in the window.
pub proof fn listed_work_is_open_work_of_the_window(s: StoreView, filter: FilterView)
    requires
        s.valid(),
    ensures
        forall|i: int|
            #![trigger s.open_items(filter)[i]]
            0 <= i < s.open_items(filter).len() ==> {
                let x = s.open_items(filter)[i];
                let d = s.detail(x.conversation_id)->0;
                &&& s.detail(x.conversation_id) is Some
                &&& x.status != "completed"@
                &&& d.open_items.contains(WorkItemView { content: x.content, status: x.status })
                &&& x.conversation_title == d.digest.title
                &&& x.folder_path == d.digest.folder_path
                &&& x.source_updated_at == d.digest.source_updated_at
                &&& lies_in(filter, x.source_updated_at, x.folder_path)
            },
{
    only_outstanding_work_is_listed(s, filter);
    assert forall|i: int|
        #![trigger s.open_items(filter)[i]]
        0 <= i < s.open_items(filter).len() implies {
        let x = s.open_items(filter)[i];
        let d = s.detail(x.conversation_id)->0;
        &&& s.detail(x.conversation_id) is Some
        &&& x.status != "completed"@
        &&& d.open_items.contains(WorkItemView { content: x.content, status: x.status })
        &&& x.conversation_title == d.digest.title
        &&& x.folder_path == d.digest.folder_path
        &&& x.source_updated_at == d.digest.source_updated_at
        &&& lies_in(filter, x.source_updated_at, x.folder_path)
    } by {
        let x = s.open_items(filter)[i];
        assert(is_outstanding(s, filter, x));
        a_digest_says_what_its_row_says(s, x.conversation_id);
    }
}

/// The place of a listed item is that of the row it comes from.
pub proof fn a_listed_item_has_the_place_of_its_row(s: StoreView, filter: FilterView)
    ensures
        forall|i: int|
            0 <= i < s.placed_items(filter).len() ==> exists|k: int|
                0 <= k < s.items.len() && (#[trigger] s.items[k]).conversation_id == (
                #[trigger] s.placed_items(filter)[i]).row.conversation_id && s.items[k].ordinal
                    == s.placed_items(filter)[i].ordinal && s.items[k].content == s.placed_items(
                    filter,
                )[i].row.content && s.items[k].status == s.placed_items(filter)[i].row.status,
        forall|i: int|
            0 <= i < s.open_items(filter).len() ==> #[trigger] s.open_items(filter)[i]
                == s.placed_items(filter)[i].row,
        s.open_items(filter).len() == s.placed_items(filter).len(),
{
    let rows = admitted(s.digests, filter);
    let found = all_outstanding(rows, s.items);
    let all = arranged::<PlacedItem>(found);
    all_outstanding_ones(rows, s.items);
    arranged_rows_are_the_same_rows::<PlacedItem>(found);
    limited_rows(all, filter.item_limit);
    assert forall|i: int| 0 <= i < s.placed_items(filter).len() implies exists|k: int|
        0 <= k < s.items.len() && (#[trigger] s.items[k]).conversation_id == (
        #[trigger] s.placed_items(filter)[i]).row.conversation_id && s.items[k].ordinal
            == s.placed_items(filter)[i].ordinal && s.items[k].content == s.placed_items(
            filter,
        )[i].row.content && s.items[k].status == s.placed_items(filter)[i].row.status by {
        let x = s.placed_items(filter)[i];
        assert(x == all[i]);
        assert(all.contains(x));
        let k = choose|k: int| 0 <= k < found.len() && found[k] == x;
        let r = choose|r: int|
            0 <= r < rows.len() && outstanding(
                rows_of(s.items, (#[trigger] rows[r]).conversation_id),
                rows[r],
            ).contains(found[k]);
        let row = rows[r];
        let items = rows_of(s.items, row.conversation_id);
        outstanding_ones(items, row);
        let l = choose|l: int|
            0 <= l < outstanding(items, row).len() && outstanding(items, row)[l] == x;
        let m = choose|m: int|
            0 <= m < items.len() && !is_completed((#[trigger] items[m]).status) && outstanding(
                items,
                row,
            )[l] == placed(items[m], row);
        own_rows(s.items, row.conversation_id);
        let n = choose|n: int| 0 <= n < s.items.len() && s.items[n] == items[m];
        assert(s.items[n].conversation_id == row.conversation_id);
    }
}

/// The rows of a conversation are rows of the table, and its own.
proof fn own_rows(items: Seq<ItemRowView>, id: Seq<char>)
    ensures
        forall|k: int|
            0 <= k < rows_of(items, id).len() ==> items.contains(#[trigger] rows_of(items, id)[k])
                && rows_of(items, id)[k].conversation_id == id,
    decreases items.len(),
{
    if items.len() > 0 {
        let rest = items.drop_last();
        own_rows(rest, id);
        assert forall|k: int| 0 <= k < rows_of(items, id).len() implies items.contains(
            #[trigger] rows_of(items, id)[k],
        ) && rows_of(items, id)[k].conversation_id == id by {
            let x = rows_of(items, id)[k];
            if k < rows_of(rest, id).len() {
                assert(x == rows_of(rest, id)[k]);
                let i = choose|i: int| 0 <= i < rest.len() && rest[i] == x;
                assert(items[i] == x);
            } else {
                assert(items[items.len() - 1] == x);
            }
        }
    }
}

/// Of two conversations of the window where the one later in the table did not move more
/// recently, the other is listed first. So conversations of one instant are listed in the
/// order of the table.
pub proof fn the_table_decides_between_conversations_of_one_instant(
    s: StoreView,
    filter: FilterView,
    i: int,
    j: int,
    m: int,
)
    requires
        s.valid(),
        0 <= i < j < admitted(s.digests, filter).len(),
        admitted(s.digests, filter)[i].source_updated_at >= admitted(
            s.digests,
            filter,
        )[j].source_updated_at,
        0 <= m < s.conversations(filter).len(),
        s.conversations(filter)[m].conversation_id == admitted(
            s.digests,
            filter,
        )[j].conversation_id,
    ensures
        exists|k: int|
            0 <= k < m && (#[trigger] s.conversations(filter)[k]).conversation_id == admitted(
                s.digests,
                filter,
            )[i].conversation_id,
{
    let rows = admitted(s.digests, filter);
    let found = s.digests_of(rows);
    let all = arranged::<ConversationDigest>(found);
    let listed = s.conversations(filter);
    let whole = s.conversations(FilterView { limit: -1i64, ..filter });
    admitted_rows(s.digests, filter);
    the_limit_decides_no_row(s.digests, filter, -1i64);
    assert(whole == all);
    only_conversations_of_the_window_are_listed(s, FilterView { limit: -1i64, ..filter });
    limited_rows(all, filter.limit);
    what_need_not_change_places_does_not::<ConversationDigest>(found, i, j);
    let (k, l) = choose|k: int, l: int|
        0 <= k < l < all.len() && #[trigger] all[k] == found[i] && #[trigger] all[l] == found[j];
    assert(l == m) by {
        if l < m {
            assert(whole[l].conversation_id != whole[m].conversation_id);
        } else if m < l {
            assert(whole[m].conversation_id != whole[l].conversation_id);
        }
    }
    assert(listed[k] == all[k]);
}

/// Which rows are in a window does not rest on its limits.
proof fn the_limit_decides_no_row(rows: Seq<DigestRowView>, filter: FilterView, limit: i64)
    ensures
        admitted(rows, FilterView { limit, ..filter }) == admitted(rows, filter),
    decreases rows.len(),
{
    if rows.len() > 0 {
        the_limit_decides_no_row(rows.drop_last(), filter, limit);
    }
}

} // verus!
