//! The two tables of the store, seen as mathematical values: what they hold at all
//! times, what each operation makes of them, and what follows from it.

use crate::model::{
    opt_view, views, DetailView, DigestView, FileTouch, FileTouchView, IndexRequestView,
    IndexStateView, Totals, TurnRecord, TurnView, WorkItemView,
};
use crate::sums::total_of;
use vstd::prelude::*;

verus! {

/// The status of a work item that is done. Every other status is outstanding.
pub const COMPLETED: &'static str = "completed";

/// A row of the table of conversations.
#[derive(Debug)]
pub struct DigestRow {
    pub conversation_id: String,
    pub title: Option<String>,
    pub folder_path: Option<String>,
    pub agent_id: Option<String>,
    pub source_updated_at: i64,
    pub indexed_at: i64,
    pub totals: Totals,
    pub headline: Option<String>,
    /// The turns, or `None` where what was stored cannot be read back.
    pub turns: Option<Vec<TurnRecord>>,
    /// The files, or `None` where what was stored cannot be read back.
    pub files: Option<Vec<FileTouch>>,
    pub summary: Option<String>,
    pub summarized_at: Option<i64>,
}

/// The view of a [`DigestRow`].
pub struct DigestRowView {
    pub conversation_id: Seq<char>,
    pub title: Option<Seq<char>>,
    pub folder_path: Option<Seq<char>>,
    pub agent_id: Option<Seq<char>>,
    pub source_updated_at: i64,
    pub indexed_at: i64,
    pub totals: Totals,
    pub headline: Option<Seq<char>>,
    pub turns: Option<Seq<TurnView>>,
    pub files: Option<Seq<FileTouchView>>,
    pub summary: Option<Seq<char>>,
    pub summarized_at: Option<i64>,
}

impl View for DigestRow {
    type V = DigestRowView;

    open spec fn view(&self) -> DigestRowView {
        DigestRowView {
            conversation_id: self.conversation_id@,
            title: opt_view(self.title),
            folder_path: opt_view(self.folder_path),
            agent_id: opt_view(self.agent_id),
            source_updated_at: self.source_updated_at,
            indexed_at: self.indexed_at,
            totals: self.totals,
            headline: opt_view(self.headline),
            turns: match self.turns {
                Some(t) => Some(views(t@)),
                None => None,
            },
            files: match self.files {
                Some(f) => Some(views(f@)),
                None => None,
            },
            summary: opt_view(self.summary),
            summarized_at: self.summarized_at,
        }
    }
}

/// A row of the table of work items.
#[derive(Debug)]
pub struct ItemRow {
    pub conversation_id: String,
    /// The place of the item among those of its conversation: wide enough for any number
    /// that SQLite holds and for any place in a list.
    pub ordinal: i128,
    pub content: String,
    pub status: String,
}

/// The view of an [`ItemRow`].
pub struct ItemRowView {
    pub conversation_id: Seq<char>,
    pub ordinal: int,
    pub content: Seq<char>,
    pub status: Seq<char>,
}

impl View for ItemRow {
    type V = ItemRowView;

    open spec fn view(&self) -> ItemRowView {
        ItemRowView {
            conversation_id: self.conversation_id@,
            ordinal: self.ordinal as int,
            content: self.content@,
            status: self.status@,
        }
    }
}

/// Whether a work item is done.
pub open spec fn is_completed(status: Seq<char>) -> bool {
    status == COMPLETED@
}

/// The rows of one conversation, in the order of the table.
pub open spec fn rows_of(items: Seq<ItemRowView>, id: Seq<char>) -> Seq<ItemRowView>
    decreases items.len(),
{
    if items.len() == 0 {
        seq![]
    } else {
        let rest = rows_of(items.drop_last(), id);
        if items.last().conversation_id == id {
            rest.push(items.last())
        } else {
            rest
        }
    }
}

/// The rows of all conversations but one, in the order of the table.
pub open spec fn rows_without(items: Seq<ItemRowView>, id: Seq<char>) -> Seq<ItemRowView>
    decreases items.len(),
{
    if items.len() == 0 {
        seq![]
    } else {
        let rest = rows_without(items.drop_last(), id);
        if items.last().conversation_id == id {
            rest
        } else {
            rest.push(items.last())
        }
    }
}

/// The rows that a conversation's work items become, in their order.
pub open spec fn rows_for(id: Seq<char>, work: Seq<WorkItemView>) -> Seq<ItemRowView> {
    Seq::new(
        work.len(),
        |i: int|
            ItemRowView {
                conversation_id: id,
                ordinal: i,
                content: work[i].content,
                status: work[i].status,
            },
    )
}

/// The work item of a row.
pub open spec fn work_of(row: ItemRowView) -> WorkItemView {
    WorkItemView { content: row.content, status: row.status }
}

/// The work items of some rows whose being done is `done`, in the order of the rows.
pub open spec fn work_that_is(done: bool, rows: Seq<ItemRowView>) -> Seq<WorkItemView>
    decreases rows.len(),
{
    if rows.len() == 0 {
        seq![]
    } else {
        let rest = work_that_is(done, rows.drop_last());
        if is_completed(rows.last().status) == done {
            rest.push(work_of(rows.last()))
        } else {
            rest
        }
    }
}

/// The two tables.
pub struct StoreView {
    pub digests: Seq<DigestRowView>,
    pub items: Seq<ItemRowView>,
}

impl StoreView {
    /// No rows at all.
    pub open spec fn empty() -> StoreView {
        StoreView { digests: seq![], items: seq![] }
    }

    /// Whether row `i` is that of conversation `id`.
    pub open spec fn is_at(self, id: Seq<char>, i: int) -> bool {
        0 <= i < self.digests.len() && self.digests[i].conversation_id == id
    }

    /// Whether a conversation is stored.
    pub open spec fn holds(self, id: Seq<char>) -> bool {
        exists|i: int| #[trigger] self.is_at(id, i)
    }

    /// The place of a stored conversation.
    pub open spec fn place(self, id: Seq<char>) -> int
        recommends
            self.holds(id),
    {
        choose|i: int| #[trigger] self.is_at(id, i)
    }

    /// The row of a stored conversation.
    pub open spec fn row(self, id: Seq<char>) -> DigestRowView
        recommends
            self.holds(id),
    {
        self.digests[self.place(id)]
    }

    /// What holds of the tables at all times: no two rows for one conversation, no
    /// item without its conversation, and the items of a conversation in the order
    /// of their places.
    pub open spec fn valid(self) -> bool {
        &&& forall|i: int, j: int|
            0 <= i < j < self.digests.len() ==> (#[trigger] self.digests[i]).conversation_id != (
            #[trigger] self.digests[j]).conversation_id
        &&& forall|k: int|
            0 <= k < self.items.len() ==> self.holds((#[trigger] self.items[k]).conversation_id)
        &&& forall|k: int, l: int|
            0 <= k < l < self.items.len() && (#[trigger] self.items[k]).conversation_id == (
            #[trigger] self.items[l]).conversation_id ==> self.items[k].ordinal
                < self.items[l].ordinal
    }

    /// Those of some items whose conversation is stored, in their order.
    pub open spec fn rows_held(self, items: Seq<ItemRowView>) -> Seq<ItemRowView>
        decreases items.len(),
    {
        if items.len() == 0 {
            seq![]
        } else {
            let rest = self.rows_held(items.drop_last());
            if self.holds(items.last().conversation_id) {
                rest.push(items.last())
            } else {
                rest
            }
        }
    }

    /// The tables without the items whose conversation is not stored. No query shows
    /// those.
    pub open spec fn without_strays(self) -> StoreView {
        StoreView { digests: self.digests, items: self.rows_held(self.items) }
    }

    /// The digest that is served for a row.
    pub open spec fn digest_of(self, row: DigestRowView) -> DigestView {
        let items = rows_of(self.items, row.conversation_id);
        DigestView {
            conversation_id: row.conversation_id,
            title: row.title,
            folder_path: row.folder_path,
            agent_id: row.agent_id,
            source_updated_at: row.source_updated_at,
            indexed_at: row.indexed_at,
            totals: row.totals,
            headline: row.headline,
            summary: row.summary,
            summarized_at: row.summarized_at,
            open_count: work_that_is(false, items).len() as i64,
            done_count: work_that_is(true, items).len() as i64,
        }
    }

    /// The detail that is served for a row. What cannot be read back is served as
    /// an empty list.
    pub open spec fn detail_of(self, row: DigestRowView) -> DetailView {
        let items = rows_of(self.items, row.conversation_id);
        DetailView {
            digest: self.digest_of(row),
            turns: match row.turns {
                Some(t) => t,
                None => seq![],
            },
            files: match row.files {
                Some(f) => f,
                None => seq![],
            },
            open_items: work_that_is(false, items),
            done_items: work_that_is(true, items),
        }
    }

    /// The digest of a conversation, where it is stored.
    pub open spec fn digest(self, id: Seq<char>) -> Option<DigestView> {
        if self.holds(id) {
            Some(self.digest_of(self.row(id)))
        } else {
            None
        }
    }

    /// The detail of a conversation, where it is stored.
    pub open spec fn detail(self, id: Seq<char>) -> Option<DetailView> {
        if self.holds(id) {
            Some(self.detail_of(self.row(id)))
        } else {
            None
        }
    }

    /// The row that a request writes: everything is out of the request but the
    /// narrative, which stays as it was.
    pub open spec fn row_for(self, id: Seq<char>, req: IndexRequestView, now_ms: i64) -> DigestRowView {
        DigestRowView {
            conversation_id: id,
            title: req.title,
            folder_path: req.folder_path,
            agent_id: req.agent_id,
            source_updated_at: req.source_updated_at,
            indexed_at: now_ms,
            totals: req.totals,
            headline: if req.turns.len() == 0 {
                None
            } else {
                Some(req.turns.last().headline)
            },
            turns: Some(req.turns),
            files: Some(req.files),
            summary: if self.holds(id) {
                self.row(id).summary
            } else {
                None
            },
            summarized_at: if self.holds(id) {
                self.row(id).summarized_at
            } else {
                None
            },
        }
    }

    /// The tables after a conversation was indexed.
    pub open spec fn indexed(self, id: Seq<char>, req: IndexRequestView, now_ms: i64) -> StoreView {
        let row = self.row_for(id, req, now_ms);
        StoreView {
            digests: if self.holds(id) {
                self.digests.update(self.place(id), row)
            } else {
                self.digests.push(row)
            },
            items: rows_without(self.items, id) + rows_for(id, req.open_items + req.done_items),
        }
    }

    /// The tables after a conversation was forgotten.
    pub open spec fn deleted(self, id: Seq<char>) -> StoreView {
        if self.holds(id) {
            StoreView {
                digests: self.digests.remove(self.place(id)),
                items: rows_without(self.items, id),
            }
        } else {
            self
        }
    }

    /// The tables after a narrative was stored.
    pub open spec fn summarized(self, id: Seq<char>, summary: Seq<char>, now_ms: i64) -> StoreView {
        if self.holds(id) {
            StoreView {
                digests: self.digests.update(
                    self.place(id),
                    DigestRowView {
                        summary: Some(summary),
                        summarized_at: Some(now_ms),
                        ..self.row(id)
                    },
                ),
                items: self.items,
            }
        } else {
            self
        }
    }

    /// How fresh what is stored of each conversation is.
    pub open spec fn index_state(self) -> Seq<IndexStateView> {
        Seq::new(
            self.digests.len(),
            |i: int|
                IndexStateView {
                    conversation_id: self.digests[i].conversation_id,
                    source_updated_at: self.digests[i].source_updated_at,
                    summarized: self.digests[i].summary is Some,
                },
        )
    }
}

/// Every item that is left without the strays has its conversation.
pub proof fn no_strays_left(s: StoreView)
    ensures
        forall|k: int|
            0 <= k < s.without_strays().items.len() ==> s.without_strays().holds(
                (#[trigger] s.without_strays().items[k]).conversation_id,
            ),
{
    let t = s.without_strays();
    held_rows(s, s.items);
    assert forall|k: int| 0 <= k < t.items.len() implies t.holds(
        (#[trigger] t.items[k]).conversation_id,
    ) by {
        let id = t.items[k].conversation_id;
        assert(s.holds(id));
        assert(s.is_at(id, s.place(id)));
        assert(t.is_at(id, s.place(id)));
    }
}

proof fn held_rows(s: StoreView, items: Seq<ItemRowView>)
    ensures
        forall|k: int|
            0 <= k < s.rows_held(items).len() ==> s.holds(
                (#[trigger] s.rows_held(items)[k]).conversation_id,
            ),
    decreases items.len(),
{
    if items.len() > 0 {
        let rest = s.rows_held(items.drop_last());
        held_rows(s, items.drop_last());
        assert forall|k: int| 0 <= k < s.rows_held(items).len() implies s.holds(
            (#[trigger] s.rows_held(items)[k]).conversation_id,
        ) by {
            if k < rest.len() {
                assert(s.rows_held(items)[k] == rest[k]);
            }
        }
    }
}

/// Leaving the strays out changes nothing of what is served of any conversation.
pub proof fn strays_are_never_served(s: StoreView, id: Seq<char>)
    requires
        s.without_strays().valid(),
    ensures
        s.without_strays().holds(id) == s.holds(id),
        s.without_strays().digest(id) == s.digest(id),
        s.without_strays().detail(id) == s.detail(id),
{
    let t = s.without_strays();
    assert forall|i: int| #[trigger] t.is_at(id, i) == s.is_at(id, i) by {}
    if s.holds(id) {
        assert(t.is_at(id, s.place(id)));
        own_rows_are_held(s, s.items, id);
        one_place_only(t, id, s.place(id));
    } else if t.holds(id) {
        assert(s.is_at(id, t.place(id)));
    }
}

pub proof fn own_rows_are_held(s: StoreView, items: Seq<ItemRowView>, id: Seq<char>)
    requires
        s.holds(id),
    ensures
        rows_of(s.rows_held(items), id) == rows_of(items, id),
    decreases items.len(),
{
    if items.len() > 0 {
        let rest = s.rows_held(items.drop_last());
        own_rows_are_held(s, items.drop_last(), id);
        assert(rest.push(items.last()).drop_last() =~= rest);
    }
}

proof fn rows_of_both(a: Seq<ItemRowView>, b: Seq<ItemRowView>, id: Seq<char>)
    ensures
        rows_of(a + b, id) == rows_of(a, id) + rows_of(b, id),
        rows_without(a + b, id) == rows_without(a, id) + rows_without(b, id),
    decreases b.len(),
{
    if b.len() == 0 {
        assert(a + b =~= a);
        assert(rows_of(a, id) + rows_of(b, id) =~= rows_of(a, id));
        assert(rows_without(a, id) + rows_without(b, id) =~= rows_without(a, id));
    } else {
        rows_of_both(a, b.drop_last(), id);
        assert((a + b).drop_last() =~= a + b.drop_last());
        assert(rows_of(a + b, id) =~= rows_of(a, id) + rows_of(b, id));
        assert(rows_without(a + b, id) =~= rows_without(a, id) + rows_without(b, id));
    }
}

/// What is left without a conversation holds none of its rows and all of the
/// others'.
proof fn rows_left(items: Seq<ItemRowView>, id: Seq<char>)
    ensures
        rows_of(rows_without(items, id), id) == Seq::<ItemRowView>::empty(),
        forall|other: Seq<char>|
            other != id ==> #[trigger] rows_of(rows_without(items, id), other) == rows_of(
                items,
                other,
            ),
        forall|k: int|
            0 <= k < rows_without(items, id).len() ==> (#[trigger] rows_without(
                items,
                id,
            )[k]).conversation_id != id && items.contains(rows_without(items, id)[k]),
    decreases items.len(),
{
    if items.len() > 0 {
        let rest = items.drop_last();
        let left = rows_without(rest, id);
        rows_left(rest, id);
        assert(left.push(items.last()).drop_last() =~= left);
        assert forall|other: Seq<char>| other != id implies #[trigger] rows_of(
            rows_without(items, id),
            other,
        ) == rows_of(items, other) by {
            assert(rows_of(left, other) == rows_of(rest, other));
        }
        assert forall|k: int| 0 <= k < rows_without(items, id).len() implies (
        #[trigger] rows_without(items, id)[k]).conversation_id != id && items.contains(
            rows_without(items, id)[k],
        ) by {
            let x = rows_without(items, id)[k];
            if k < left.len() {
                assert(x == left[k]);
                let i = choose|i: int| 0 <= i < rest.len() && rest[i] == x;
                assert(items[i] == x);
            } else {
                assert(items[items.len() - 1] == x);
            }
        }
    }
}

/// The rows of a conversation's work items are its own and no other's.
proof fn rows_written(id: Seq<char>, work: Seq<WorkItemView>)
    ensures
        rows_of(rows_for(id, work), id) == rows_for(id, work),
        forall|other: Seq<char>|
            other != id ==> #[trigger] rows_of(rows_for(id, work), other) == Seq::<
                ItemRowView,
            >::empty(),
    decreases work.len(),
{
    let all = rows_for(id, work);
    if work.len() == 0 {
        assert(all =~= seq![]);
    } else {
        let rest = work.drop_last();
        rows_written(id, rest);
        assert(all.drop_last() =~= rows_for(id, rest));
        assert(rows_of(all, id) =~= all);
        assert forall|other: Seq<char>| other != id implies #[trigger] rows_of(all, other) == Seq::<
            ItemRowView,
        >::empty() by {
            assert(rows_of(rows_for(id, rest), other) == Seq::<ItemRowView>::empty());
        }
    }
}

pub proof fn nothing_to_leave_out(items: Seq<ItemRowView>, id: Seq<char>)
    requires
        forall|k: int| 0 <= k < items.len() ==> (#[trigger] items[k]).conversation_id != id,
    ensures
        rows_without(items, id) == items,
    decreases items.len(),
{
    if items.len() > 0 {
        assert forall|k: int| 0 <= k < items.len() - 1 implies (
        #[trigger] items.drop_last()[k]).conversation_id != id by {
            assert(items[k].conversation_id != id);
        }
        nothing_to_leave_out(items.drop_last(), id);
        assert(items.last().conversation_id != id);
        assert(items =~= items.drop_last().push(items.last()));
    }
}

pub proof fn one_row_left_out(items: Seq<ItemRowView>, k: int, id: Seq<char>)
    requires
        0 <= k < items.len(),
        items[k].conversation_id == id,
    ensures
        rows_without(items.remove(k), id) == rows_without(items, id),
{
    let a = items.take(k);
    let b = items.skip(k + 1);
    assert(items.remove(k) =~= a + b);
    assert(items =~= a.push(items[k]) + b);
    assert(a.push(items[k]).drop_last() =~= a);
    rows_of_both(a, b, id);
    rows_of_both(a.push(items[k]), b, id);
}

/// A conversation has one place.
pub proof fn one_place_only(s: StoreView, id: Seq<char>, i: int)
    requires
        s.valid(),
        s.is_at(id, i),
    ensures
        s.holds(id),
        s.place(id) == i,
        s.row(id) == s.digests[i],
{
    let p = s.place(id);
    assert(s.is_at(id, p));
    if p < i {
        assert(s.digests[p].conversation_id != s.digests[i].conversation_id);
    } else if i < p {
        assert(s.digests[i].conversation_id != s.digests[p].conversation_id);
    }
}

/// Whether the items of each conversation stand in the order of their places.
spec fn in_places(items: Seq<ItemRowView>) -> bool {
    forall|k: int, l: int|
        0 <= k < l < items.len() && (#[trigger] items[k]).conversation_id == (
        #[trigger] items[l]).conversation_id ==> items[k].ordinal < items[l].ordinal
}

proof fn rows_left_in_places(items: Seq<ItemRowView>, id: Seq<char>)
    requires
        in_places(items),
    ensures
        in_places(rows_without(items, id)),
    decreases items.len(),
{
    if items.len() > 0 {
        let rest = items.drop_last();
        let left = rows_without(rest, id);
        let all = rows_without(items, id);
        assert forall|k: int, l: int|
            0 <= k < l < rest.len() && (#[trigger] rest[k]).conversation_id == (
            #[trigger] rest[l]).conversation_id implies rest[k].ordinal < rest[l].ordinal by {
            assert(items[k].ordinal < items[l].ordinal);
        }
        rows_left_in_places(rest, id);
        rows_left(rest, id);
        assert forall|k: int, l: int|
            0 <= k < l < all.len() && (#[trigger] all[k]).conversation_id == (
            #[trigger] all[l]).conversation_id implies all[k].ordinal < all[l].ordinal by {
            assert(all[k] == left[k]);
            if l < left.len() {
                assert(all[l] == left[l]);
            } else {
                assert(rest.contains(left[k]));
                let i = choose|i: int| 0 <= i < rest.len() && rest[i] == left[k];
                assert(items[i] == left[k]);
                assert(all[l] == items[items.len() - 1]);
                assert(items[i].ordinal < items[items.len() - 1].ordinal);
            }
        }
    }
}

/// Where a conversation is stored after another was indexed.
proof fn places_after_indexing(
    s: StoreView,
    id: Seq<char>,
    req: IndexRequestView,
    now_ms: i64,
    other: Seq<char>,
)
    requires
        s.valid(),
    ensures
        s.indexed(id, req, now_ms).holds(other) == (other == id || s.holds(other)),
        forall|i: int|
            s.is_at(other, i) ==> #[trigger] s.indexed(id, req, now_ms).is_at(other, i),
        s.indexed(id, req, now_ms).is_at(
            id,
            if s.holds(id) {
                s.place(id)
            } else {
                s.digests.len() as int
            },
        ),
{
    let t = s.indexed(id, req, now_ms);
    let p = if s.holds(id) {
        s.place(id)
    } else {
        s.digests.len() as int
    };
    if s.holds(id) {
        assert(s.is_at(id, p));
    }
    assert(t.is_at(id, p));
    assert forall|i: int| s.is_at(other, i) implies #[trigger] t.is_at(other, i) by {}
    if s.holds(other) {
        assert(s.is_at(other, s.place(other)));
        assert(t.is_at(other, s.place(other)));
    }
    if t.holds(other) && other != id {
        let i = t.place(other);
        assert(t.is_at(other, i));
        assert(s.is_at(other, i));
    }
}

/// Indexing keeps what holds of the tables at all times.
pub proof fn indexing_keeps_the_tables_valid(
    s: StoreView,
    id: Seq<char>,
    req: IndexRequestView,
    now_ms: i64,
)
    requires
        s.valid(),
    ensures
        s.indexed(id, req, now_ms).valid(),
{
    let t = s.indexed(id, req, now_ms);
    let left = rows_without(s.items, id);
    let put = rows_for(id, req.open_items + req.done_items);
    places_after_indexing(s, id, req, now_ms, id);
    rows_left(s.items, id);
    rows_left_in_places(s.items, id);
    assert forall|i: int, j: int| 0 <= i < j < t.digests.len() implies (
    #[trigger] t.digests[i]).conversation_id != (#[trigger] t.digests[j]).conversation_id by {
        if s.holds(id) {
            let p = s.place(id);
            assert(s.is_at(id, p));
            assert(s.digests[i].conversation_id != s.digests[j].conversation_id);
        } else {
            assert(s.digests[i].conversation_id != id) by {
                if s.digests[i].conversation_id == id {
                    assert(s.is_at(id, i));
                }
            }
            if j < s.digests.len() {
                assert(s.digests[i].conversation_id != s.digests[j].conversation_id);
            }
        }
    }
    assert forall|k: int| 0 <= k < t.items.len() implies t.holds(
        (#[trigger] t.items[k]).conversation_id,
    ) by {
        let c = t.items[k].conversation_id;
        if k < left.len() {
            assert(t.items[k] == left[k]);
            assert(s.items.contains(left[k]));
            let i = choose|i: int| 0 <= i < s.items.len() && s.items[i] == left[k];
            assert(s.holds(s.items[i].conversation_id));
        } else {
            assert(t.items[k] == put[k - left.len()]);
        }
        places_after_indexing(s, id, req, now_ms, c);
    }
    assert forall|k: int, l: int|
        0 <= k < l < t.items.len() && (#[trigger] t.items[k]).conversation_id == (
        #[trigger] t.items[l]).conversation_id implies t.items[k].ordinal < t.items[l].ordinal by {
        if l < left.len() {
            assert(t.items[k] == left[k] && t.items[l] == left[l]);
        } else if k < left.len() {
            assert(t.items[k] == left[k]);
            assert(t.items[l] == put[l - left.len()]);
        } else {
            assert(t.items[k] == put[k - left.len()]);
            assert(t.items[l] == put[l - left.len()]);
        }
    }
}

/// Where a conversation is stored after another was forgotten.
proof fn places_after_deleting(s: StoreView, id: Seq<char>, other: Seq<char>)
    requires
        s.valid(),
    ensures
        s.deleted(id).holds(other) == (other != id && s.holds(other)),
{
    let t = s.deleted(id);
    if s.holds(id) {
        let p = s.place(id);
        assert(s.is_at(id, p));
        if s.holds(other) && other != id {
            let i = s.place(other);
            assert(s.is_at(other, i));
            assert(t.is_at(
                other,
                if i < p {
                    i
                } else {
                    i - 1
                },
            ));
        }
        if t.holds(other) {
            let i = t.place(other);
            assert(t.is_at(other, i));
            let j = if i < p {
                i
            } else {
                i + 1
            };
            assert(s.is_at(other, j));
            if other == id {
                one_place_only(s, id, j);
            }
        }
    }
}

/// Forgetting a conversation keeps what holds of the tables at all times.
pub proof fn deleting_keeps_the_tables_valid(s: StoreView, id: Seq<char>)
    requires
        s.valid(),
    ensures
        s.deleted(id).valid(),
{
    if s.holds(id) {
        let t = s.deleted(id);
        let p = s.place(id);
        assert(s.is_at(id, p));
        rows_left(s.items, id);
        rows_left_in_places(s.items, id);
        assert forall|i: int, j: int| 0 <= i < j < t.digests.len() implies (
        #[trigger] t.digests[i]).conversation_id != (#[trigger] t.digests[j]).conversation_id by {
            let k = if i < p {
                i
            } else {
                i + 1
            };
            let l = if j < p {
                j
            } else {
                j + 1
            };
            assert(t.digests[i] == s.digests[k] && t.digests[j] == s.digests[l]);
        }
        assert forall|k: int| 0 <= k < t.items.len() implies t.holds(
            (#[trigger] t.items[k]).conversation_id,
        ) by {
            assert(s.items.contains(t.items[k]));
            let i = choose|i: int| 0 <= i < s.items.len() && s.items[i] == t.items[k];
            assert(s.holds(s.items[i].conversation_id));
            places_after_deleting(s, id, t.items[k].conversation_id);
        }
    }
}

/// Where a conversation is stored after a narrative was stored.
proof fn places_after_summarizing(
    s: StoreView,
    id: Seq<char>,
    summary: Seq<char>,
    now_ms: i64,
    other: Seq<char>,
)
    requires
        s.valid(),
    ensures
        forall|i: int| #[trigger]
            s.summarized(id, summary, now_ms).is_at(other, i) == s.is_at(other, i),
        s.summarized(id, summary, now_ms).holds(other) == s.holds(other),
{
    let t = s.summarized(id, summary, now_ms);
    if s.holds(id) {
        assert(s.is_at(id, s.place(id)));
    }
    assert forall|i: int| #[trigger] t.is_at(other, i) == s.is_at(other, i) by {}
    if s.holds(other) {
        assert(t.is_at(other, s.place(other)));
    }
    if t.holds(other) {
        assert(t.is_at(other, t.place(other)));
    }
}

/// Storing a narrative keeps what holds of the tables at all times.
pub proof fn summarizing_keeps_the_tables_valid(
    s: StoreView,
    id: Seq<char>,
    summary: Seq<char>,
    now_ms: i64,
)
    requires
        s.valid(),
    ensures
        s.summarized(id, summary, now_ms).valid(),
{
    let t = s.summarized(id, summary, now_ms);
    if s.holds(id) {
        assert(s.is_at(id, s.place(id)));
        assert forall|i: int, j: int| 0 <= i < j < t.digests.len() implies (
        #[trigger] t.digests[i]).conversation_id != (#[trigger] t.digests[j]).conversation_id by {
            assert(s.digests[i].conversation_id != s.digests[j].conversation_id);
        }
        assert forall|k: int| 0 <= k < t.items.len() implies t.holds(
            (#[trigger] t.items[k]).conversation_id,
        ) by {
            assert(s.holds(s.items[k].conversation_id));
            places_after_summarizing(s, id, summary, now_ms, t.items[k].conversation_id);
        }
    }
}

/// The rows of work items and the work items say the same of what is done.
proof fn work_read_back(done: bool, id: Seq<char>, work: Seq<WorkItemView>)
    ensures
        work_that_is(done, rows_for(id, work)) == work.filter(
            |w: WorkItemView| is_completed(w.status) == done,
        ),
    decreases work.len(),
{
    reveal(Seq::filter);
    let rows = rows_for(id, work);
    if work.len() > 0 {
        work_read_back(done, id, work.drop_last());
        assert(rows.drop_last() =~= rows_for(id, work.drop_last()));
        assert(work_of(rows.last()) == work.last());
    }
}

/// Where everything is as it should be, picking picks everything.
proof fn all_or_nothing(done: bool, work: Seq<WorkItemView>)
    requires
        forall|i: int| 0 <= i < work.len() ==> is_completed((#[trigger] work[i]).status) == done,
    ensures
        work.filter(|w: WorkItemView| is_completed(w.status) == done) == work,
        work.filter(|w: WorkItemView| is_completed(w.status) == !done) == Seq::<
            WorkItemView,
        >::empty(),
    decreases work.len(),
{
    reveal(Seq::filter);
    if work.len() > 0 {
        let rest = work.drop_last();
        assert forall|i: int| 0 <= i < rest.len() implies is_completed((#[trigger] rest[i]).status)
            == done by {
            assert(rest[i] == work[i]);
        }
        all_or_nothing(done, rest);
        assert(is_completed(work[work.len() - 1].status) == done);
        assert(work =~= rest.push(work.last()));
    }
}

/// The row and the items of the conversation that was just indexed.
proof fn just_indexed(s: StoreView, id: Seq<char>, req: IndexRequestView, now_ms: i64)
    requires
        s.valid(),
    ensures
        s.indexed(id, req, now_ms).holds(id),
        s.indexed(id, req, now_ms).row(id) == s.row_for(id, req, now_ms),
        rows_of(s.indexed(id, req, now_ms).items, id) == rows_for(
            id,
            req.open_items + req.done_items,
        ),
{
    let t = s.indexed(id, req, now_ms);
    let work = req.open_items + req.done_items;
    indexing_keeps_the_tables_valid(s, id, req, now_ms);
    places_after_indexing(s, id, req, now_ms, id);
    let p = if s.holds(id) {
        s.place(id)
    } else {
        s.digests.len() as int
    };
    one_place_only(t, id, p);
    if s.holds(id) {
        assert(s.is_at(id, p));
    }
    rows_of_both(rows_without(s.items, id), rows_for(id, work), id);
    rows_left(s.items, id);
    rows_written(id, work);
    assert(rows_of(t.items, id) =~= rows_for(id, work));
}

/// What was indexed is what is read back: the request's own fields, its turns and its
/// files, the headline of the last turn, and the work items, told apart by whether
/// they are done. A client that tells them apart itself gets its two lists back.
pub proof fn what_was_indexed_is_read_back(
    s: StoreView,
    id: Seq<char>,
    req: IndexRequestView,
    now_ms: i64,
)
    requires
        s.valid(),
    ensures
        ({
            let work = req.open_items + req.done_items;
            let d = s.indexed(id, req, now_ms).detail(id);
            &&& d is Some
            &&& d->0.digest.conversation_id == id
            &&& d->0.digest.title == req.title
            &&& d->0.digest.folder_path == req.folder_path
            &&& d->0.digest.agent_id == req.agent_id
            &&& d->0.digest.source_updated_at == req.source_updated_at
            &&& d->0.digest.indexed_at == now_ms
            &&& d->0.digest.totals == req.totals
            &&& d->0.digest.headline == (if req.turns.len() == 0 {
                None
            } else {
                Some(req.turns.last().headline)
            })
            &&& d->0.turns == req.turns
            &&& d->0.files == req.files
            &&& d->0.open_items == work.filter(
                |w: WorkItemView| is_completed(w.status) == false,
            )
            &&& d->0.done_items == work.filter(|w: WorkItemView| is_completed(w.status) == true)
            &&& (forall|i: int|
                0 <= i < req.open_items.len() ==> !is_completed(
                    (#[trigger] req.open_items[i]).status,
                )) && (forall|i: int|
                0 <= i < req.done_items.len() ==> is_completed(
                    (#[trigger] req.done_items[i]).status,
                )) ==> d->0.open_items == req.open_items && d->0.done_items == req.done_items
        }),
{
    let work = req.open_items + req.done_items;
    just_indexed(s, id, req, now_ms);
    work_read_back(false, id, work);
    work_read_back(true, id, work);
    if (forall|i: int|
        0 <= i < req.open_items.len() ==> !is_completed((#[trigger] req.open_items[i]).status)) && (
    forall|i: int|
        0 <= i < req.done_items.len() ==> is_completed((#[trigger] req.done_items[i]).status)) {
        all_or_nothing(false, req.open_items);
        all_or_nothing(true, req.done_items);
        let open = |w: WorkItemView| is_completed(w.status) == false;
        let done = |w: WorkItemView| is_completed(w.status) == true;
        Seq::filter_distributes_over_add(req.open_items, req.done_items, open);
        Seq::filter_distributes_over_add(req.open_items, req.done_items, done);
        assert(work.filter(open) =~= req.open_items);
        assert(work.filter(done) =~= req.done_items);
    }
}

/// Indexing is a full replacement: what was indexed before leaves no trace, and in
/// particular no stale item.
pub proof fn the_last_indexing_wins(
    s: StoreView,
    id: Seq<char>,
    first: IndexRequestView,
    first_ms: i64,
    last: IndexRequestView,
    last_ms: i64,
)
    requires
        s.valid(),
    ensures
        s.indexed(id, first, first_ms).indexed(id, last, last_ms) == s.indexed(id, last, last_ms),
{
    let t = s.indexed(id, first, first_ms);
    let a = t.indexed(id, last, last_ms);
    let b = s.indexed(id, last, last_ms);
    let work = first.open_items + first.done_items;
    just_indexed(s, id, first, first_ms);
    indexing_keeps_the_tables_valid(s, id, first, first_ms);
    places_after_indexing(s, id, first, first_ms, id);
    let p = if s.holds(id) {
        s.place(id)
    } else {
        s.digests.len() as int
    };
    one_place_only(t, id, p);
    if s.holds(id) {
        assert(s.is_at(id, p));
    }
    assert(a.digests =~= b.digests);
    rows_of_both(rows_without(s.items, id), rows_for(id, work), id);
    rows_left(s.items, id);
    nothing_to_leave_out(rows_without(s.items, id), id);
    all_left_out(id, work);
    assert(rows_without(t.items, id) =~= rows_without(s.items, id));
    assert(a.items =~= b.items);
}

proof fn all_left_out(id: Seq<char>, work: Seq<WorkItemView>)
    ensures
        rows_without(rows_for(id, work), id) == Seq::<ItemRowView>::empty(),
    decreases work.len(),
{
    if work.len() > 0 {
        all_left_out(id, work.drop_last());
        assert(rows_for(id, work).drop_last() =~= rows_for(id, work.drop_last()));
    }
}

/// A narrative outlives the conversation's next indexing; a conversation that was not
/// stored starts without one.
pub proof fn a_narrative_survives_indexing(
    s: StoreView,
    id: Seq<char>,
    req: IndexRequestView,
    now_ms: i64,
)
    requires
        s.valid(),
    ensures
        ({
            let before = s.digest(id);
            let after = s.indexed(id, req, now_ms).digest(id);
            &&& after is Some
            &&& before is Some ==> after->0.summary == before->0.summary
                && after->0.summarized_at == before->0.summarized_at
            &&& before is None ==> after->0.summary is None && after->0.summarized_at is None
        }),
{
    just_indexed(s, id, req, now_ms);
}

/// A narrative that was stored is what is read back, in place of the one before, and
/// nothing else of the conversation changes. So a digest without a narrative is one for
/// which none was stored.
pub proof fn a_narrative_is_read_back(
    s: StoreView,
    id: Seq<char>,
    summary: Seq<char>,
    now_ms: i64,
)
    requires
        s.valid(),
        s.holds(id),
    ensures
        ({
            let before = s.detail(id)->0;
            s.summarized(id, summary, now_ms).detail(id) == Some(
                DetailView {
                    digest: DigestView {
                        summary: Some(summary),
                        summarized_at: Some(now_ms),
                        ..before.digest
                    },
                    ..before
                },
            )
        }),
{
    let t = s.summarized(id, summary, now_ms);
    let p = s.place(id);
    assert(s.is_at(id, p));
    summarizing_keeps_the_tables_valid(s, id, summary, now_ms);
    places_after_summarizing(s, id, summary, now_ms, id);
    assert(t.is_at(id, p));
    one_place_only(t, id, p);
}

/// A conversation that was forgotten is not served any more, none of its items is left,
/// and to forget it again finds nothing and changes nothing.
pub proof fn a_forgotten_conversation_is_gone(s: StoreView, id: Seq<char>)
    requires
        s.valid(),
    ensures
        !s.deleted(id).holds(id),
        s.deleted(id).digest(id) is None,
        s.deleted(id).detail(id) is None,
        forall|k: int|
            0 <= k < s.deleted(id).items.len() ==> (#[trigger] s.deleted(
                id,
            ).items[k]).conversation_id != id,
        s.deleted(id).deleted(id) == s.deleted(id),
{
    places_after_deleting(s, id, id);
    deleting_keeps_the_tables_valid(s, id);
    rows_left(s.items, id);
}

/// Indexing a conversation changes nothing of what is served of any other.
pub proof fn indexing_leaves_the_others_alone(
    s: StoreView,
    id: Seq<char>,
    req: IndexRequestView,
    now_ms: i64,
    other: Seq<char>,
)
    requires
        s.valid(),
        other != id,
    ensures
        s.indexed(id, req, now_ms).digest(other) == s.digest(other),
        s.indexed(id, req, now_ms).detail(other) == s.detail(other),
{
    let t = s.indexed(id, req, now_ms);
    let work = req.open_items + req.done_items;
    indexing_keeps_the_tables_valid(s, id, req, now_ms);
    places_after_indexing(s, id, req, now_ms, other);
    rows_of_both(rows_without(s.items, id), rows_for(id, work), other);
    rows_left(s.items, id);
    rows_written(id, work);
    assert(rows_of(rows_without(s.items, id), other) == rows_of(s.items, other));
    assert(rows_of(rows_for(id, work), other) == Seq::<ItemRowView>::empty());
    assert(rows_of(t.items, other) =~= rows_of(s.items, other));
    if s.holds(other) {
        let i = s.place(other);
        assert(s.is_at(other, i));
        assert(t.is_at(other, i));
        one_place_only(t, other, i);
        if s.holds(id) {
            assert(s.is_at(id, s.place(id)));
        }
        assert(t.row(other) == s.row(other));
    }
}

/// Forgetting a conversation changes nothing of what is served of any other.
pub proof fn deleting_leaves_the_others_alone(s: StoreView, id: Seq<char>, other: Seq<char>)
    requires
        s.valid(),
        other != id,
    ensures
        s.deleted(id).digest(other) == s.digest(other),
        s.deleted(id).detail(other) == s.detail(other),
{
    let t = s.deleted(id);
    places_after_deleting(s, id, other);
    deleting_keeps_the_tables_valid(s, id);
    rows_left(s.items, id);
    if s.holds(id) && s.holds(other) {
        let p = s.place(id);
        let i = s.place(other);
        assert(s.is_at(id, p));
        assert(s.is_at(other, i));
        let j = if i < p {
            i
        } else {
            i - 1
        };
        assert(t.is_at(other, j));
        one_place_only(t, other, j);
        assert(t.row(other) == s.row(other));
        assert(rows_of(t.items, other) == rows_of(s.items, other));
    }
}

/// Storing a narrative changes nothing of what is served of any other conversation.
pub proof fn summarizing_leaves_the_others_alone(
    s: StoreView,
    id: Seq<char>,
    summary: Seq<char>,
    now_ms: i64,
    other: Seq<char>,
)
    requires
        s.valid(),
        other != id,
    ensures
        s.summarized(id, summary, now_ms).digest(other) == s.digest(other),
        s.summarized(id, summary, now_ms).detail(other) == s.detail(other),
{
    let t = s.summarized(id, summary, now_ms);
    summarizing_keeps_the_tables_valid(s, id, summary, now_ms);
    places_after_summarizing(s, id, summary, now_ms, other);
    if s.holds(id) && s.holds(other) {
        let i = s.place(other);
        assert(s.is_at(id, s.place(id)));
        assert(s.is_at(other, i));
        assert(t.is_at(other, i));
        one_place_only(t, other, i);
    }
}

/// The index state has one row for each stored conversation and no other, and each says
/// what the conversation's digest says: when it last moved, and whether it has a
/// narrative.
pub proof fn the_index_state_tells_what_is_stored(s: StoreView, id: Seq<char>)
    requires
        s.valid(),
    ensures
        s.holds(id) ==> exists|i: int|
            0 <= i < s.index_state().len() && (#[trigger] s.index_state()[i]).conversation_id == id,
        forall|i: int|
            0 <= i < s.index_state().len() && (#[trigger] s.index_state()[i]).conversation_id == id
                ==> s.digest(id) is Some && s.index_state()[i].source_updated_at == s.digest(
                id,
            )->0.source_updated_at && s.index_state()[i].summarized == s.digest(id)->0.summary is Some,
        forall|i: int, j: int|
            0 <= i < j < s.index_state().len() ==> (#[trigger] s.index_state()[i]).conversation_id
                != (#[trigger] s.index_state()[j]).conversation_id,
{
    if s.holds(id) {
        let i = s.place(id);
        assert(s.is_at(id, i));
        assert(s.index_state()[i].conversation_id == id);
    }
    assert forall|i: int|
        0 <= i < s.index_state().len() && (#[trigger] s.index_state()[i]).conversation_id
            == id implies s.digest(id) is Some && s.index_state()[i].source_updated_at == s.digest(
        id,
    )->0.source_updated_at && s.index_state()[i].summarized == s.digest(id)->0.summary is Some by {
        assert(s.is_at(id, i));
        one_place_only(s, id, i);
    }
    assert forall|i: int, j: int| 0 <= i < j < s.index_state().len() implies (
    #[trigger] s.index_state()[i]).conversation_id != (
    #[trigger] s.index_state()[j]).conversation_id by {
        assert(s.digests[i].conversation_id != s.digests[j].conversation_id);
    }
}

/// A client that reads the index state after it sent a conversation finds the instant that
/// it sent, so it need not send the conversation again until it moves.
pub proof fn an_indexed_conversation_is_fresh(
    s: StoreView,
    id: Seq<char>,
    req: IndexRequestView,
    now_ms: i64,
)
    requires
        s.valid(),
    ensures
        ({
            let state = s.indexed(id, req, now_ms).index_state();
            exists|i: int|
                0 <= i < state.len() && (#[trigger] state[i]).conversation_id == id
                    && state[i].source_updated_at == req.source_updated_at
        }),
{
    let t = s.indexed(id, req, now_ms);
    just_indexed(s, id, req, now_ms);
    indexing_keeps_the_tables_valid(s, id, req, now_ms);
    the_index_state_tells_what_is_stored(t, id);
}

/// The digest of a stored conversation says what its row says, field by field, and is the
/// digest within its detail; the turns and files of the detail are those of the row, or
/// none where these cannot be read back.
pub proof fn a_digest_says_what_its_row_says(s: StoreView, id: Seq<char>)
    requires
        s.holds(id),
    ensures
        ({
            let row = s.row(id);
            let d = s.digest(id)->0;
            let detail = s.detail(id)->0;
            &&& s.digest(id) is Some
            &&& s.detail(id) is Some
            &&& row.conversation_id == id
            &&& d.conversation_id == id
            &&& d.title == row.title
            &&& d.folder_path == row.folder_path
            &&& d.agent_id == row.agent_id
            &&& d.source_updated_at == row.source_updated_at
            &&& d.indexed_at == row.indexed_at
            &&& d.totals.turns == row.totals.turns
            &&& d.totals.writes == row.totals.writes
            &&& d.totals.commands == row.totals.commands
            &&& d.totals.failures == row.totals.failures
            &&& d.totals.tool_calls == row.totals.tool_calls
            &&& d.totals.files_touched == row.totals.files_touched
            &&& d.headline == row.headline
            &&& d.summary == row.summary
            &&& d.summarized_at == row.summarized_at
            &&& detail.digest == d
            &&& row.turns is Some ==> detail.turns == row.turns->0
            &&& row.turns is None ==> detail.turns.len() == 0
            &&& row.files is Some ==> detail.files == row.files->0
            &&& row.files is None ==> detail.files.len() == 0
        }),
{
    assert(s.is_at(id, s.place(id)));
}

/// The counts of a digest are the lengths of the lists of its detail.
pub proof fn counts_are_the_lengths_of_the_lists(s: StoreView, id: Seq<char>)
    requires
        s.holds(id),
    ensures
        ({
            let d = s.detail(id)->0;
            &&& s.detail(id) is Some
            &&& s.digest(id) == Some(d.digest)
            &&& d.digest.open_count == d.open_items.len() as i64
            &&& d.digest.done_count == d.done_items.len() as i64
            &&& d.open_items.len() <= i64::MAX ==> d.digest.open_count == d.open_items.len()
            &&& d.done_items.len() <= i64::MAX ==> d.digest.done_count == d.done_items.len()
        }),
{
}

/// The outstanding items of a conversation are those of its item rows whose status is not
/// `completed`, in the order of the table, and the done ones are the others.
pub proof fn the_lists_are_told_apart_by_the_status(s: StoreView, id: Seq<char>)
    requires
        s.holds(id),
    ensures
        s.detail(id)->0.open_items == s.items.filter(
            |x: ItemRowView| x.conversation_id == id && x.status != "completed"@,
        ).map_values(|x: ItemRowView| WorkItemView { content: x.content, status: x.status }),
        s.detail(id)->0.done_items == s.items.filter(
            |x: ItemRowView| x.conversation_id == id && x.status == "completed"@,
        ).map_values(|x: ItemRowView| WorkItemView { content: x.content, status: x.status }),
{
    assert(s.is_at(id, s.place(id)));
    open_rows(s.items, id);
    done_rows(s.items, id);
}

proof fn open_rows(items: Seq<ItemRowView>, id: Seq<char>)
    ensures
        work_that_is(false, rows_of(items, id)) == items.filter(
            |x: ItemRowView| x.conversation_id == id && x.status != "completed"@,
        ).map_values(|x: ItemRowView| WorkItemView { content: x.content, status: x.status }),
    decreases items.len(),
{
    reveal(Seq::filter);
    let work = |x: ItemRowView| WorkItemView { content: x.content, status: x.status };
    let mine = |x: ItemRowView| x.conversation_id == id && x.status != "completed"@;
    if items.len() == 0 {
        assert(items.filter(mine).map_values(work) =~= seq![]);
    } else {
        let rest = items.drop_last();
        open_rows(rest, id);
        assert(rows_of(rest, id).push(items.last()).drop_last() =~= rows_of(rest, id));
        assert(work_that_is(false, rows_of(items, id)) =~= items.filter(mine).map_values(work));
    }
}

proof fn done_rows(items: Seq<ItemRowView>, id: Seq<char>)
    ensures
        work_that_is(true, rows_of(items, id)) == items.filter(
            |x: ItemRowView| x.conversation_id == id && x.status == "completed"@,
        ).map_values(|x: ItemRowView| WorkItemView { content: x.content, status: x.status }),
    decreases items.len(),
{
    reveal(Seq::filter);
    let work = |x: ItemRowView| WorkItemView { content: x.content, status: x.status };
    let mine = |x: ItemRowView| x.conversation_id == id && x.status == "completed"@;
    if items.len() == 0 {
        assert(items.filter(mine).map_values(work) =~= seq![]);
    } else {
        let rest = items.drop_last();
        done_rows(rest, id);
        assert(rows_of(rest, id).push(items.last()).drop_last() =~= rows_of(rest, id));
        assert(work_that_is(true, rows_of(items, id)) =~= items.filter(mine).map_values(work));
    }
}

/// After a conversation was indexed, its digest counts the items of the request: those
/// whose status is `completed` as done, all others as open.
pub proof fn an_indexed_conversation_counts_its_items(
    s: StoreView,
    id: Seq<char>,
    req: IndexRequestView,
    now_ms: i64,
)
    requires
        s.valid(),
    ensures
        ({
            let work = req.open_items + req.done_items;
            let d = s.indexed(id, req, now_ms).digest(id);
            &&& d is Some
            &&& d->0.open_count == total_of(
                work,
                |w: WorkItemView|
                    if w.status == "completed"@ {
                        0
                    } else {
                        1
                    },
            ) as i64
            &&& d->0.done_count == total_of(
                work,
                |w: WorkItemView|
                    if w.status == "completed"@ {
                        1
                    } else {
                        0
                    },
            ) as i64
        }),
{
    just_indexed(s, id, req, now_ms);
    items_are_counted(id, req.open_items + req.done_items);
}

proof fn items_are_counted(id: Seq<char>, work: Seq<WorkItemView>)
    ensures
        work_that_is(false, rows_for(id, work)).len() == total_of(
            work,
            |w: WorkItemView|
                if w.status == "completed"@ {
                    0
                } else {
                    1
                },
        ),
        work_that_is(true, rows_for(id, work)).len() == total_of(
            work,
            |w: WorkItemView|
                if w.status == "completed"@ {
                    1
                } else {
                    0
                },
        ),
    decreases work.len(),
{
    if work.len() > 0 {
        items_are_counted(id, work.drop_last());
        assert(rows_for(id, work).drop_last() =~= rows_for(id, work.drop_last()));
    }
}

/// Indexing a conversation writes one row: its own where it was stored, a new one behind
/// the others where it was not. The other rows stay as and where they are, and so do the
/// items of the others.
pub proof fn indexing_writes_one_row(
    s: StoreView,
    id: Seq<char>,
    req: IndexRequestView,
    now_ms: i64,
)
    requires
        s.valid(),
    ensures
        ({
            let t = s.indexed(id, req, now_ms);
            &&& t.digests.len() == s.digests.len() + if s.holds(id) {
                0int
            } else {
                1
            }
            &&& forall|i: int|
                0 <= i < s.digests.len() && (#[trigger] s.digests[i]).conversation_id != id
                    ==> t.digests[i] == s.digests[i]
            &&& !s.holds(id) ==> t.digests.last().conversation_id == id
            &&& t.items.filter(|x: ItemRowView| x.conversation_id != id) == s.items.filter(
                |x: ItemRowView| x.conversation_id != id,
            )
        }),
{
    let t = s.indexed(id, req, now_ms);
    let put = rows_for(id, req.open_items + req.done_items);
    let theirs = |x: ItemRowView| x.conversation_id != id;
    if s.holds(id) {
        assert(s.is_at(id, s.place(id)));
    }
    the_others_are_left(s.items, id);
    the_others_are_left(t.items, id);
    rows_of_both(rows_without(s.items, id), put, id);
    all_left_out(id, req.open_items + req.done_items);
    rows_left(s.items, id);
    nothing_to_leave_out(rows_without(s.items, id), id);
    assert(rows_without(t.items, id) =~= rows_without(s.items, id));
}

proof fn the_others_are_left(items: Seq<ItemRowView>, id: Seq<char>)
    ensures
        rows_without(items, id) == items.filter(|x: ItemRowView| x.conversation_id != id),
    decreases items.len(),
{
    reveal(Seq::filter);
    if items.len() > 0 {
        the_others_are_left(items.drop_last(), id);
    }
}

/// Forgetting a conversation takes its row and its items, and leaves the others in their
/// order.
pub proof fn deleting_takes_one_row(s: StoreView, id: Seq<char>)
    requires
        s.valid(),
        s.holds(id),
    ensures
        s.deleted(id).digests.len() == s.digests.len() - 1,
        s.deleted(id).digests == s.digests.filter(|r: DigestRowView| r.conversation_id != id),
        s.deleted(id).items == s.items.filter(|x: ItemRowView| x.conversation_id != id),
{
    let p = s.place(id);
    assert(s.is_at(id, p));
    the_others_are_left(s.items, id);
    let theirs = |r: DigestRowView| r.conversation_id != id;
    let a = s.digests.take(p);
    let b = s.digests.skip(p + 1);
    assert(s.digests =~= a + (seq![s.digests[p]] + b));
    assert forall|i: int| 0 <= i < a.len() implies theirs(#[trigger] a[i]) by {
        assert(s.digests[i].conversation_id != s.digests[p].conversation_id);
    }
    assert forall|i: int| 0 <= i < b.len() implies theirs(#[trigger] b[i]) by {
        assert(s.digests[p].conversation_id != s.digests[i + p + 1].conversation_id);
    }
    all_kept(a, theirs);
    all_kept(b, theirs);
    Seq::filter_distributes_over_add(a, seq![s.digests[p]] + b, theirs);
    Seq::filter_distributes_over_add(seq![s.digests[p]], b, theirs);
    reveal(Seq::filter);
    let one = seq![s.digests[p]];
    assert(one.drop_last() =~= Seq::<DigestRowView>::empty());
    assert(one.drop_last().filter(theirs) =~= Seq::<DigestRowView>::empty());
    assert(one.filter(theirs) =~= Seq::<DigestRowView>::empty());
    assert(s.digests.remove(p) =~= a + b);
    assert(s.digests.filter(theirs) =~= a + b);
}

proof fn all_kept<A>(s: Seq<A>, keep: spec_fn(A) -> bool)
    requires
        forall|i: int| 0 <= i < s.len() ==> keep(#[trigger] s[i]),
    ensures
        s.filter(keep) == s,
    decreases s.len(),
{
    reveal(Seq::filter);
    if s.len() > 0 {
        assert forall|i: int| 0 <= i < s.len() - 1 implies keep(#[trigger] s.drop_last()[i]) by {
            assert(keep(s[i]));
        }
        all_kept(s.drop_last(), keep);
        assert(keep(s[s.len() - 1]));
        assert(s =~= s.drop_last().push(s.last()));
    }
}

/// A store with nothing in it serves nothing.
pub proof fn an_empty_store_serves_nothing(id: Seq<char>)
    ensures
        StoreView::empty().digest(id) is None,
        StoreView::empty().detail(id) is None,
        StoreView::empty().index_state().len() == 0,
        StoreView::empty().valid(),
{
    assert(forall|i: int| !StoreView::empty().is_at(id, i));
}

/// The index state has a row for each row of the table, in its order, and no more.
pub proof fn the_index_state_follows_the_table(s: StoreView)
    ensures
        s.index_state().len() == s.digests.len(),
        forall|i: int|
            0 <= i < s.digests.len() ==> (#[trigger] s.index_state()[i]).conversation_id
                == s.digests[i].conversation_id && s.index_state()[i].source_updated_at
                == s.digests[i].source_updated_at && s.index_state()[i].summarized == (
            s.digests[i].summary is Some),
{
}

/// Whether some row is that of a conversation.
pub open spec fn has_row_of(rows: Seq<DigestRowView>, id: Seq<char>) -> bool {
    exists|i: int| 0 <= i < rows.len() && (#[trigger] rows[i]).conversation_id == id
}

/// A conversation is stored where the table has a row of it. Tables are valid where no two
/// rows are of one conversation, every item's conversation has a row, and of two items of
/// one conversation the later has the larger place. The strays are the items whose
/// conversation has no row, and nothing else goes with them.
pub proof fn what_valid_tables_are(s: StoreView, id: Seq<char>)
    ensures
        s.holds(id) <==> has_row_of(s.digests, id),
        s.valid() <==> {
            &&& forall|i: int, j: int|
                0 <= i < s.digests.len() && 0 <= j < s.digests.len() && i != j ==> (
                #[trigger] s.digests[i]).conversation_id != (#[trigger] s.digests[j]).conversation_id
            &&& forall|k: int|
                0 <= k < s.items.len() ==> has_row_of(
                    s.digests,
                    (#[trigger] s.items[k]).conversation_id,
                )
            &&& forall|k: int, l: int|
                0 <= k < l < s.items.len() && (#[trigger] s.items[k]).conversation_id == (
                #[trigger] s.items[l]).conversation_id ==> s.items[k].ordinal < s.items[l].ordinal
        },
        s.without_strays().digests == s.digests,
        s.without_strays().items == s.items.filter(
            |x: ItemRowView| has_row_of(s.digests, x.conversation_id),
        ),
{
    assert forall|c: Seq<char>| #[trigger] s.holds(c) == has_row_of(s.digests, c) by {
        stored_is_having_a_row(s, c);
    }
    if s.valid() {
        assert forall|i: int, j: int|
            0 <= i < s.digests.len() && 0 <= j < s.digests.len() && i != j implies (
        #[trigger] s.digests[i]).conversation_id != (
        #[trigger] s.digests[j]).conversation_id by {
            if i < j {
                assert(s.digests[i].conversation_id != s.digests[j].conversation_id);
            } else {
                assert(s.digests[j].conversation_id != s.digests[i].conversation_id);
            }
        }
        assert forall|k: int| 0 <= k < s.items.len() implies has_row_of(
            s.digests,
            (#[trigger] s.items[k]).conversation_id,
        ) by {
            assert(s.holds(s.items[k].conversation_id));
        }
    }
    held_rows_are_those_with_a_row(s, s.items);
}

proof fn stored_is_having_a_row(s: StoreView, id: Seq<char>)
    ensures
        s.holds(id) == has_row_of(s.digests, id),
{
    if s.holds(id) {
        let i = s.place(id);
        assert(s.is_at(id, i));
        assert(s.digests[i].conversation_id == id);
    }
    if has_row_of(s.digests, id) {
        let i = choose|i: int|
            0 <= i < s.digests.len() && (#[trigger] s.digests[i]).conversation_id == id;
        assert(s.is_at(id, i));
    }
}

proof fn held_rows_are_those_with_a_row(s: StoreView, items: Seq<ItemRowView>)
    ensures
        s.rows_held(items) == items.filter(
            |x: ItemRowView| has_row_of(s.digests, x.conversation_id),
        ),
    decreases items.len(),
{
    reveal(Seq::filter);
    if items.len() > 0 {
        held_rows_are_those_with_a_row(s, items.drop_last());
        stored_is_having_a_row(s, items.last().conversation_id);
    }
}

} // verus!
