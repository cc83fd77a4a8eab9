//! What the routes answer.
//!
//! The indexed routes read and write the store and need no model. The one
//! model-backed route, which narrates a conversation, is decided in two steps around
//! the call of the model: what to ask, and what the answer makes of the store.

use crate::days::DaysError;
use crate::host::{CompletionCall, Host};
use crate::hot::{
    a_hot_file_adds_its_touches_up, a_write_is_shown_before_a_read, counted,
    every_touched_path_is_listed_once, file_lists, hot_files,
    hot_files_are_ordered_by_conversations_touches_and_path, hot_row, hot_rows, mentions, paths_on,
    the_hottest_files_are_on_the_list, touches_fit, touches_fit_where_they_add_up,
    touches_in_range, was_touched,
};
use crate::listing::{admitted, only_conversations_of_the_window_are_listed};
use crate::model::{
    copy_text, opt_view, views, ConversationDetail, ConversationDigest, DayBucket, DetailView,
    DigestView, FileTouchView, HotFile, HotFileView, IndexStateRow, OpenItemRow, Overview, OverviewTotals, Totals,
};
use crate::order::{arranged, arranged_rows_are_the_same_rows, first_rows};
use crate::store::{days_answered, Store};
use crate::sums::{same_totals, total_of};
use crate::summary::{build_prompt, normalize, normalized, prompt_text, SYSTEM};
use crate::tables::StoreView;
use crate::text::precedes;
use crate::window::{Filter, FilterView};
use vstd::prelude::*;
use vstd::string::*;

pub use crate::window::{WindowQuery, MAX_LIMIT};

verus! {

/// Hot files on the overview: a section of a dashboard, not a file tree.
pub const MAX_HOT_FILES: usize = 25;

/// The settings key by which the user chooses the model that narrates.
pub const MODEL_PREF_KEY: &'static str = "auto-title-model";

/// The name that the health probe reports.
pub const SERVICE: &'static str = "mission-control";

/// A request that is not served: the HTTP status, and the message in the body.
#[derive(Debug)]
pub struct ApiError {
    pub status: u16,
    pub message: String,
}

/// Whether `e` says that no digest is stored.
pub open spec fn says_not_found(e: ApiError) -> bool {
    e.status == 404 && e.message@ == "no digest has been indexed for this conversation"@
}

/// The answer where no digest is stored.
pub fn not_found() -> (r: ApiError)
    ensures
        says_not_found(r),
{
    ApiError {
        status: 404,
        message: "no digest has been indexed for this conversation".to_owned(),
    }
}

/// What the health probe answers: whether the store can be reached and how many
/// conversations it holds, nothing of the user's work.
#[derive(Debug)]
pub struct Health {
    pub status: u16,
    pub ok: bool,
    pub service: Option<String>,
    pub indexed: Option<usize>,
    pub error: Option<String>,
}

/// The answer of the health probe, for what reading the store gave.
pub fn health(state: Result<Vec<IndexStateRow>, String>) -> (r: Health)
    ensures
        match state {
            Ok(rows) => {
                &&& r.status == 200
                &&& r.ok
                &&& opt_view(r.service) == Some(SERVICE@)
                &&& r.indexed == Some(rows.len())
                &&& r.error is None
            },
            Err(message) => {
                &&& r.status == 503
                &&& !r.ok
                &&& r.service is None
                &&& r.indexed is None
                &&& r.error == Some(message)
            },
        },
{
    match state {
        Ok(rows) => Health {
            status: 200,
            ok: true,
            service: Some(SERVICE.to_owned()),
            indexed: Some(rows.len()),
            error: None,
        },
        Err(message) => Health {
            status: 503,
            ok: false,
            service: None,
            indexed: None,
            error: Some(message),
        },
    }
}

/// The full stored record of one conversation.
pub fn get_conversation(store: &Store, id: &str) -> (r: Result<ConversationDetail, ApiError>)
    requires
        store@.valid(),
    ensures
        match r {
            Ok(d) => store@.detail(id@) == Some(d@),
            Err(e) => store@.detail(id@) is None && says_not_found(e),
        },
{
    match store.detail(id) {
        Some(d) => Ok(d),
        None => Err(not_found()),
    }
}

/// What the conversations of a list amount to, all together.
pub open spec fn work_of_all(rows: Seq<DigestView>) -> Totals
    decreases rows.len(),
{
    if rows.len() == 0 {
        Totals::zero()
    } else {
        work_of_all(rows.drop_last()).plus(rows.last().totals)
    }
}

/// Whether the totals of a list can be added up in 64 bits, row by row.
pub open spec fn work_fits(rows: Seq<DigestView>) -> bool
    decreases rows.len(),
{
    if rows.len() == 0 {
        true
    } else {
        work_fits(rows.drop_last()) && work_of_all(rows.drop_last()).sum_fits(rows.last().totals)
    }
}

/// What does not fit stays so, whatever is added.
proof fn work_that_fits_did_so_before(rows: Seq<DigestView>, n: int)
    requires
        0 <= n <= rows.len(),
        work_fits(rows),
    ensures
        work_fits(rows.take(n)),
    decreases rows.len(),
{
    if n == rows.len() {
        assert(rows.take(n) =~= rows);
    } else {
        assert(rows.drop_last().take(n) =~= rows.take(n));
        work_that_fits_did_so_before(rows.drop_last(), n);
    }
}

/// The details of the conversations of a list that are stored.
pub open spec fn details_of(store: StoreView, rows: Seq<DigestView>) -> Seq<DetailView>
    decreases rows.len(),
{
    if rows.len() == 0 {
        seq![]
    } else {
        let rest = details_of(store, rows.drop_last());
        match store.detail(rows.last().conversation_id) {
            Some(d) => rest.push(d),
            None => rest,
        }
    }
}

/// The hottest files of a window.
pub open spec fn hottest(store: StoreView, filter: FilterView) -> Seq<HotFileView> {
    first_rows(
        arranged::<HotFile>(
            hot_rows(file_lists(details_of(store, store.conversations(filter)))),
        ),
        MAX_HOT_FILES as nat,
    )
}

/// Whether everything on the overview of a window can be counted in 64 bits.
pub open spec fn overview_fits(store: StoreView, filter: FilterView) -> bool {
    &&& work_fits(store.conversations(filter))
    &&& touches_fit(file_lists(details_of(store, store.conversations(filter))))
}

/// The details of the conversations of a list that are stored.
fn details_for(store: &Store, rows: &Vec<ConversationDigest>) -> (r: Vec<ConversationDetail>)
    requires
        store@.valid(),
    ensures
        views(r@) == details_of(store@, views(rows@)),
{
    let ghost all = views(rows@);
    let mut r: Vec<ConversationDetail> = Vec::new();
    let mut i: usize = 0;
    assert(all.take(0) =~= seq![]);
    assert(views(r@) =~= seq![]);
    while i < rows.len()
        invariant
            i <= rows.len(),
            store@.valid(),
            all == views(rows@),
            views(r@) == details_of(store@, all.take(i as int)),
        decreases rows.len() - i,
    {
        let ghost before = r@;
        assert(all.take(i + 1).drop_last() =~= all.take(i as int));
        assert(all[i as int] == rows@[i as int]@);
        if let Some(d) = store.detail(rows[i].conversation_id.as_str()) {
            let ghost seen = d@;
            r.push(d);
            assert(views(r@) =~= views(before).push(seen));
        }
        i = i + 1;
    }
    assert(all.take(i as int) =~= all);
    r
}

/// What the conversations of a list amount to, or `None` where it cannot be counted.
fn add_up(rows: &Vec<ConversationDigest>) -> (r: Option<Totals>)
    ensures
        match r {
            Some(t) => work_fits(views(rows@)) && t == work_of_all(views(rows@)),
            None => !work_fits(views(rows@)),
        },
{
    let ghost all = views(rows@);
    let mut work: Totals = Totals::default();
    let mut i: usize = 0;
    assert(all.take(0) =~= seq![]);
    while i < rows.len()
        invariant
            i <= rows.len(),
            all == views(rows@),
            work_fits(all.take(i as int)),
            work == work_of_all(all.take(i as int)),
        decreases rows.len() - i,
    {
        assert(all.take(i + 1).drop_last() =~= all.take(i as int));
        assert(all[i as int] == rows@[i as int]@);
        if !work.can_add(&rows[i].totals) {
            proof {
                if work_fits(all) {
                    work_that_fits_did_so_before(all, i + 1);
                }
            }
            return None;
        }
        work.add(&rows[i].totals);
        i = i + 1;
    }
    assert(all.take(i as int) =~= all);
    Some(work)
}

/// Whether everything on the overview of a window can be counted in 64 bits.
pub fn overview_in_range(store: &Store, filter: &Filter) -> (r: bool)
    requires
        store@.valid(),
    ensures
        r == overview_fits(store@, filter@),
{
    let rows: Vec<ConversationDigest> = store.conversations(filter);
    if add_up(&rows).is_none() {
        return false;
    }
    let details: Vec<ConversationDetail> = details_for(store, &rows);
    touches_in_range(details.as_slice())
}

/// Whether `o` is the overview of a window, its days apart.
pub open spec fn is_overview(o: Overview, store: StoreView, filter: FilterView) -> bool {
    let rows = store.conversations(filter);
    let items = store.open_items(filter);
    let files = hottest(store, filter);
    &&& o.since_ms == filter.since_ms
    &&& opt_view(o.folder_path) == filter.folder_path
    &&& views(o.conversations@) == rows
    &&& views(o.open_items@) == items
    &&& views(o.files@) == files
    &&& o.totals.work == (Totals { files_touched: files.len() as i64, ..work_of_all(rows) })
    &&& o.totals.conversations == rows.len() as i64
    &&& o.totals.open_items == items.len() as i64
}

/// The overview of a window, with the days given. The number of files touched is that
/// of the rolled-up list: adding up the counts of the conversations would count a path
/// twice that two of them edited.
pub fn overview_with(store: &Store, filter: &Filter, days: Vec<DayBucket>) -> (r: Overview)
    requires
        store@.valid(),
        overview_fits(store@, filter@),
    ensures
        is_overview(r, store@, filter@),
        r.days == days,
{
    let conversations: Vec<ConversationDigest> = store.conversations(filter);
    let open_items: Vec<OpenItemRow> = store.open_items(filter);
    let mut work: Totals = match add_up(&conversations) {
        Some(t) => t,
        None => Totals::default(),
    };
    let details: Vec<ConversationDetail> = details_for(store, &conversations);
    let files: Vec<HotFile> = hot_files(details.as_slice(), MAX_HOT_FILES);
    work.files_touched = files.len() as i64;
    assert(views(files@).len() == files@.len());
    assert(views(conversations@).len() == conversations@.len());
    assert(views(open_items@).len() == open_items@.len());
    let totals: OverviewTotals = OverviewTotals {
        work,
        conversations: conversations.len() as i64,
        open_items: open_items.len() as i64,
    };
    Overview {
        since_ms: filter.since_ms,
        folder_path: copy_text(&filter.folder_path),
        totals,
        days,
        conversations,
        open_items,
        files,
    }
}

/// The rolled-up dashboard of a window. An empty window asks the calendar nothing, so its
/// overview is always served.
pub fn overview(store: &Store, filter: &Filter) -> (r: Result<Overview, DaysError>)
    requires
        store@.valid(),
        overview_fits(store@, filter@),
    ensures
        admitted(store@.digests, filter@).len() == 0 ==> r is Ok && r->Ok_0.days@.len() == 0,
        match r {
            Ok(o) => is_overview(o, store@, filter@) && days_answered(Ok(o.days), store@, filter@),
            Err(e) => days_answered(Err(e), store@, filter@),
        },
{
    match store.days(filter) {
        Ok(days) => Ok(overview_with(store, filter, days)),
        Err(e) => Err(e),
    }
}

/// The answer where there is no host to ask.
pub open spec fn says_no_host(e: ApiError) -> bool {
    e.status == 503 && e.message@
        == "this node cannot reach a model: the sidecar was not started by Core"@
}

/// The answer where there is no host to ask.
pub fn no_host() -> (r: ApiError)
    ensures
        says_no_host(r),
{
    ApiError {
        status: 503,
        message: "this node cannot reach a model: the sidecar was not started by Core".to_owned(),
    }
}

/// What to ask the model for the narrative of a conversation, or why not to: there is
/// no host to ask, or else no digest is stored.
pub fn summarize(host: Option<&Host>, store: &Store, id: &str) -> (r: Result<
    CompletionCall,
    ApiError,
>)
    requires
        store@.valid(),
    ensures
        match r {
            Ok(call) => {
                &&& host is Some
                &&& store@.detail(id@) is Some
                &&& call.url@ == host->0.base@ + "/api/host/model/complete"@
                &&& call.plugin_id@ == host->0.plugin_id@
                &&& call.bearer@ == host->0.token@
                &&& call.system@ == SYSTEM@
                &&& call.prompt@ == prompt_text(store@.detail(id@)->0)
                &&& opt_view(call.model_pref_key) == Some(MODEL_PREF_KEY@)
            },
            Err(e) => {
                ||| host is None && says_no_host(e)
                ||| host is Some && store@.detail(id@) is None && says_not_found(e)
            },
        },
{
    match host {
        None => Err(no_host()),
        Some(host) => {
            let detail: ConversationDetail = get_conversation(store, id)?;
            let prompt: String = build_prompt(&detail);
            Ok(host.complete(SYSTEM, prompt.as_str(), Some(MODEL_PREF_KEY)))
        },
    }
}

/// The answer where the model failed: the store is intact, and the caller can ask again.
pub fn model_failed(message: String) -> (r: ApiError)
    ensures
        r.status == 502,
        r.message == message,
{
    ApiError { status: 502, message }
}

/// A narrative that was stored.
#[derive(Debug)]
pub struct Narrative {
    pub summary: String,
    pub summarized_at: i64,
}

/// Stores what the model answered. A model that failed leaves the store as it was: the
/// digest is intact, and the caller can ask again.
pub fn store_narrative(
    store: &mut Store,
    id: &str,
    completion: Result<String, String>,
    now_ms: i64,
) -> (r: Result<Narrative, ApiError>)
    requires
        old(store)@.valid(),
    ensures
        final(store)@.valid(),
        match completion {
            Ok(text) => {
                &&& final(store)@ == old(store)@.summarized(id@, normalized(text@), now_ms)
                &&& match r {
                    Ok(n) => old(store)@.holds(id@) && n.summary@ == normalized(text@)
                        && n.summarized_at == now_ms,
                    Err(e) => !old(store)@.holds(id@) && says_not_found(e),
                }
            },
            Err(message) => {
                &&& final(store)@ == old(store)@
                &&& r matches Err(e) && e.status == 502 && e.message@ == message@
            },
        },
{
    match completion {
        Ok(text) => {
            let summary: String = normalize(text.as_str());
            if store.set_summary(id, summary.as_str(), now_ms) {
                Ok(Narrative { summary, summarized_at: now_ms })
            } else {
                Err(not_found())
            }
        },
        Err(message) => Err(model_failed(message)),
    }
}

/// Every listed conversation brings its detail to the overview, in the order of the list.
pub proof fn every_listed_conversation_has_its_detail(store: StoreView, filter: FilterView)
    requires
        store.valid(),
    ensures
        ({
            let rows = store.conversations(filter);
            let details = details_of(store, rows);
            &&& details.len() == rows.len()
            &&& forall|i: int| 0 <= i < rows.len() ==> (#[trigger] details[i]).digest == rows[i]
        }),
{
    let rows = store.conversations(filter);
    only_conversations_of_the_window_are_listed(store, filter);
    assert(rows.take(rows.len() as int) =~= rows);
    details_of_the_first(store, rows, rows.len() as int);
}

proof fn details_of_the_first(store: StoreView, rows: Seq<DigestView>, n: int)
    requires
        0 <= n <= rows.len(),
        forall|i: int|
            0 <= i < rows.len() ==> store.digest((#[trigger] rows[i]).conversation_id) == Some(
                rows[i],
            ),
    ensures
        details_of(store, rows.take(n)).len() == n,
        forall|i: int|
            0 <= i < n ==> (#[trigger] details_of(store, rows.take(n))[i]).digest == rows[i],
    decreases n,
{
    if n > 0 {
        details_of_the_first(store, rows, n - 1);
        assert(rows.take(n).drop_last() =~= rows.take(n - 1));
        assert(store.digest(rows[n - 1].conversation_id) == Some(rows[n - 1]));
    }
}

/// A file on the overview was touched by one of the listed conversations at least, and
/// by no more than there are; each path is there once, and there are no more files than
/// the section holds.
pub proof fn a_hot_file_is_touched_by_listed_conversations(store: StoreView, filter: FilterView)
    requires
        store.valid(),
    ensures
        forall|i: int|
            0 <= i < hottest(store, filter).len() ==> 1 <= (#[trigger] hottest(
                store,
                filter,
            )[i]).conversations <= store.conversations(filter).len(),
        forall|i: int, j: int|
            0 <= i < j < hottest(store, filter).len() ==> (#[trigger] hottest(
                store,
                filter,
            )[i]).path != (#[trigger] hottest(store, filter)[j]).path,
        hottest(store, filter).len() <= MAX_HOT_FILES,
{
    let lists = file_lists(details_of(store, store.conversations(filter)));
    let rows = hot_rows(lists);
    let all = arranged::<HotFile>(rows);
    let shown = hottest(store, filter);
    every_listed_conversation_has_its_detail(store, filter);
    every_touched_path_is_listed_once(lists);
    assert(rows.no_duplicates()) by {
        assert forall|i: int, j: int| 0 <= i < rows.len() && 0 <= j < rows.len() && i
            != j implies rows[i] != rows[j] by {
            assert(paths_on(lists)[i] != paths_on(lists)[j]);
        }
    }
    arranged_rows_are_the_same_rows::<HotFile>(rows);
    assert forall|i: int| 0 <= i < shown.len() implies 1 <= (#[trigger] shown[i]).conversations
        <= store.conversations(filter).len() by {
        assert(all.contains(all[i]));
        let k = choose|k: int| 0 <= k < rows.len() && rows[k] == all[i];
        assert(paths_on(lists).contains(paths_on(lists)[k]));
    }
    assert forall|i: int, j: int| 0 <= i < j < shown.len() implies (#[trigger] shown[i]).path != (
    #[trigger] shown[j]).path by {
        assert(all.contains(all[i]) && all.contains(all[j]));
        let k = choose|k: int| 0 <= k < rows.len() && rows[k] == all[i];
        let l = choose|l: int| 0 <= l < rows.len() && rows[l] == all[j];
        assert(all[i] != all[j]);
        assert(paths_on(lists)[k] != paths_on(lists)[l]);
    }
}

/// What some conversations amount to, count by count, are sums over them.
proof fn work_is_a_sum(rows: Seq<DigestView>)
    requires
        work_fits(rows),
    ensures
        ({
            let w = work_of_all(rows);
            &&& w.turns == total_of(rows, |d: DigestView| d.totals.turns as int)
            &&& w.writes == total_of(rows, |d: DigestView| d.totals.writes as int)
            &&& w.commands == total_of(rows, |d: DigestView| d.totals.commands as int)
            &&& w.failures == total_of(rows, |d: DigestView| d.totals.failures as int)
            &&& w.tool_calls == total_of(rows, |d: DigestView| d.totals.tool_calls as int)
        }),
    decreases rows.len(),
{
    if rows.len() > 0 {
        work_is_a_sum(rows.drop_last());
    }
}

/// An overview adds the listed conversations up: their turns, files written, commands,
/// failures and tool calls. It counts the conversations and the open items that it lists,
/// and as files touched the files that it lists, which are at most 25. It says which window
/// it is of.
pub proof fn an_overview_adds_up(o: Overview, store: StoreView, filter: FilterView)
    requires
        store.valid(),
        overview_fits(store, filter),
        is_overview(o, store, filter),
    ensures
        o.totals.work.turns == total_of(
            o.conversations@,
            |c: ConversationDigest| c.totals.turns as int,
        ),
        o.totals.work.writes == total_of(
            o.conversations@,
            |c: ConversationDigest| c.totals.writes as int,
        ),
        o.totals.work.commands == total_of(
            o.conversations@,
            |c: ConversationDigest| c.totals.commands as int,
        ),
        o.totals.work.failures == total_of(
            o.conversations@,
            |c: ConversationDigest| c.totals.failures as int,
        ),
        o.totals.work.tool_calls == total_of(
            o.conversations@,
            |c: ConversationDigest| c.totals.tool_calls as int,
        ),
        o.totals.work.files_touched == o.files@.len(),
        o.files@.len() <= 25,
        o.totals.conversations == o.conversations@.len() as i64,
        o.totals.open_items == o.open_items@.len() as i64,
        o.since_ms == filter.since_ms,
        opt_view(o.folder_path) == filter.folder_path,
        views(o.conversations@) == store.conversations(filter),
        views(o.open_items@) == store.open_items(filter),
{
    let rows = store.conversations(filter);
    let shown = o.conversations@;
    work_is_a_sum(rows);
    a_hot_file_is_touched_by_listed_conversations(store, filter);
    assert(views(o.files@).len() == o.files@.len());
    assert(views(o.conversations@).len() == o.conversations@.len());
    assert(views(o.open_items@).len() == o.open_items@.len());
    assert forall|i: int| 0 <= i < shown.len() implies #[trigger] shown[i]@ == rows[i] by {
        assert(views(shown)[i] == shown[i]@);
    }
    same_totals(
        shown,
        rows,
        |c: ConversationDigest| c.totals.turns as int,
        |d: DigestView| d.totals.turns as int,
    );
    same_totals(
        shown,
        rows,
        |c: ConversationDigest| c.totals.writes as int,
        |d: DigestView| d.totals.writes as int,
    );
    same_totals(
        shown,
        rows,
        |c: ConversationDigest| c.totals.commands as int,
        |d: DigestView| d.totals.commands as int,
    );
    same_totals(
        shown,
        rows,
        |c: ConversationDigest| c.totals.failures as int,
        |d: DigestView| d.totals.failures as int,
    );
    same_totals(
        shown,
        rows,
        |c: ConversationDigest| c.totals.tool_calls as int,
        |d: DigestView| d.totals.tool_calls as int,
    );
}

/// The detail of each listed conversation is what is stored of it.
proof fn details_are_those_of_the_list(store: StoreView, rows: Seq<DigestView>, n: int)
    requires
        0 <= n <= rows.len(),
        forall|i: int|
            0 <= i < rows.len() ==> store.digest((#[trigger] rows[i]).conversation_id) == Some(
                rows[i],
            ),
    ensures
        details_of(store, rows.take(n)).len() == n,
        forall|i: int|
            0 <= i < n ==> #[trigger] details_of(store, rows.take(n))[i] == store.detail(
                rows[i].conversation_id,
            )->0,
    decreases n,
{
    if n > 0 {
        details_are_those_of_the_list(store, rows, n - 1);
        assert(rows.take(n).drop_last() =~= rows.take(n - 1));
        assert(store.digest(rows[n - 1].conversation_id) == Some(rows[n - 1]));
    }
}

/// A file on the overview adds up what the details of the listed conversations say of it:
/// its touches over all of them, and how many of them touched it.
pub proof fn a_hot_file_adds_the_listed_conversations_up(
    o: Overview,
    store: StoreView,
    filter: FilterView,
)
    requires
        store.valid(),
        is_overview(o, store, filter),
    ensures
        forall|k: int|
            #![trigger o.files@[k]]
            0 <= k < o.files@.len() ==> {
                let path = o.files@[k].path@;
                &&& o.files@[k].touches == total_of(
                    store.conversations(filter),
                    |c: DigestView| counted(store.detail(c.conversation_id)->0.files, path),
                )
                &&& o.files@[k].conversations == total_of(
                    store.conversations(filter),
                    |c: DigestView|
                        if mentions(store.detail(c.conversation_id)->0.files, path) {
                            1
                        } else {
                            0
                        },
                )
            },
{
    let rows = store.conversations(filter);
    let details = details_of(store, rows);
    let lists = file_lists(details);
    only_conversations_of_the_window_are_listed(store, filter);
    assert(rows.take(rows.len() as int) =~= rows);
    details_are_those_of_the_list(store, rows, rows.len() as int);
    the_hottest_files_are_on_the_list(lists, MAX_HOT_FILES as nat);
    assert forall|k: int|
        #![trigger o.files@[k]]
        0 <= k < o.files@.len() implies {
        let path = o.files@[k].path@;
        &&& o.files@[k].touches == total_of(
            rows,
            |c: DigestView| counted(store.detail(c.conversation_id)->0.files, path),
        )
        &&& o.files@[k].conversations == total_of(
            rows,
            |c: DigestView|
                if mentions(store.detail(c.conversation_id)->0.files, path) {
                    1
                } else {
                    0
                },
        )
    } by {
        let path = o.files@[k].path@;
        assert(views(o.files@)[k] == o.files@[k]@);
        assert(hottest(store, filter)[k] == hot_row(lists, path));
        a_hot_file_adds_its_touches_up(lists, path);
        let touched = |files: Seq<FileTouchView>|
            if exists|i: int| 0 <= i < files.len() && (#[trigger] files[i]).path == path {
                1int
            } else {
                0int
            };
        same_totals(
            lists,
            rows,
            |files: Seq<FileTouchView>| counted(files, path),
            |c: DigestView| counted(store.detail(c.conversation_id)->0.files, path),
        );
        same_totals(
            lists,
            rows,
            touched,
            |c: DigestView|
                if mentions(store.detail(c.conversation_id)->0.files, path) {
                    1int
                } else {
                    0int
                },
        );
    }
}

/// Whether what some conversations amount to, count by count, fits in 64 bits.
pub open spec fn six_sums_fit(rows: Seq<DigestView>) -> bool {
    &&& i64::MIN <= total_of(rows, |d: DigestView| d.totals.turns as int) <= i64::MAX
    &&& i64::MIN <= total_of(rows, |d: DigestView| d.totals.writes as int) <= i64::MAX
    &&& i64::MIN <= total_of(rows, |d: DigestView| d.totals.commands as int) <= i64::MAX
    &&& i64::MIN <= total_of(rows, |d: DigestView| d.totals.failures as int) <= i64::MAX
    &&& i64::MIN <= total_of(rows, |d: DigestView| d.totals.tool_calls as int) <= i64::MAX
    &&& i64::MIN <= total_of(rows, |d: DigestView| d.totals.files_touched as int) <= i64::MAX
}

/// The work of a list can be added up where the sums fit in 64 bits all along, as the
/// conversations are added one by one.
pub proof fn work_fits_where_the_sums_do(rows: Seq<DigestView>)
    ensures
        work_fits(rows) <==> forall|n: int|
            0 <= n <= rows.len() ==> six_sums_fit(#[trigger] rows.take(n)),
    decreases rows.len(),
{
    assert(rows.take(rows.len() as int) =~= rows);
    if rows.len() > 0 {
        let rest = rows.drop_last();
        work_fits_where_the_sums_do(rest);
        if work_fits(rest) {
            work_is_a_sum(rest);
            files_are_a_sum(rest);
        }
        assert forall|n: int| 0 <= n < rows.len() implies #[trigger] rows.take(n) == rest.take(
            n,
        ) by {
            assert(rows.take(n) =~= rest.take(n));
        }
        if forall|n: int| 0 <= n <= rows.len() ==> six_sums_fit(#[trigger] rows.take(n)) {
            assert forall|n: int| 0 <= n <= rest.len() implies six_sums_fit(
                #[trigger] rest.take(n),
            ) by {
                assert(six_sums_fit(rows.take(n)));
            }
            assert(six_sums_fit(rows.take(rows.len() as int)));
        }
        if work_fits(rows) {
            work_is_a_sum(rows);
            files_are_a_sum(rows);
            assert forall|n: int| 0 <= n <= rows.len() implies six_sums_fit(
                #[trigger] rows.take(n),
            ) by {
                if n < rows.len() {
                    assert(six_sums_fit(rest.take(n)));
                }
            }
        }
    }
}

proof fn files_are_a_sum(rows: Seq<DigestView>)
    requires
        work_fits(rows),
    ensures
        work_of_all(rows).files_touched == total_of(
            rows,
            |d: DigestView| d.totals.files_touched as int,
        ),
    decreases rows.len(),
{
    if rows.len() > 0 {
        files_are_a_sum(rows.drop_last());
    }
}

/// An overview can be counted where the work of its conversations can be added up all
/// along, and the touches of each path that they touch.
pub proof fn an_overview_fits_where_its_sums_do(store: StoreView, filter: FilterView)
    requires
        store.valid(),
    ensures
        overview_fits(store, filter) <==> (forall|n: int|
            0 <= n <= store.conversations(filter).len() ==> six_sums_fit(
                #[trigger] store.conversations(filter).take(n),
            )) && (forall|path: Seq<char>|
            #[trigger] touches_on_the_list(store, filter, path) <= i64::MAX),
{
    let rows = store.conversations(filter);
    let lists = file_lists(details_of(store, rows));
    work_fits_where_the_sums_do(rows);
    assert forall|path: Seq<char>| #[trigger]
        touches_on_the_list(store, filter, path) == hot_row(lists, path).touches by {
        touches_of_the_list(store, filter, path);
    }
    touches_fit_where_they_add_up(lists);
    if touches_fit(lists) {
        assert forall|path: Seq<char>| #[trigger]
            touches_on_the_list(store, filter, path) <= i64::MAX by {
            assert(hot_row(lists, path).touches <= i64::MAX);
        }
    }
    if forall|path: Seq<char>| #[trigger] touches_on_the_list(store, filter, path) <= i64::MAX {
        assert forall|path: Seq<char>| #[trigger] hot_row(lists, path).touches <= i64::MAX by {
            assert(touches_on_the_list(store, filter, path) <= i64::MAX);
        }
    }
}

/// How often the listed conversations touched a path, all together.
pub open spec fn touches_on_the_list(
    store: StoreView,
    filter: FilterView,
    path: Seq<char>,
) -> int {
    total_of(
        store.conversations(filter),
        |c: DigestView| counted(store.detail(c.conversation_id)->0.files, path),
    )
}

proof fn touches_of_the_list(store: StoreView, filter: FilterView, path: Seq<char>)
    requires
        store.valid(),
    ensures
        touches_on_the_list(store, filter, path) == hot_row(
            file_lists(details_of(store, store.conversations(filter))),
            path,
        ).touches,
{
    let rows = store.conversations(filter);
    let lists = file_lists(details_of(store, rows));
    only_conversations_of_the_window_are_listed(store, filter);
    assert(rows.take(rows.len() as int) =~= rows);
    details_are_those_of_the_list(store, rows, rows.len() as int);
    a_hot_file_adds_its_touches_up(lists, path);
    same_totals(
        lists,
        rows,
        |files: Seq<FileTouchView>| counted(files, path),
        |c: DigestView| counted(store.detail(c.conversation_id)->0.files, path),
    );
}

/// The files of an overview are ordered by how many conversations touched them, then by
/// how often, then by path. A file that one of the listed conversations touched is there,
/// or 25 that come before it are. A file that one of them created shows as created, and one
/// that one of them edited as edited or created.
pub proof fn an_overview_shows_the_hottest_files(
    o: Overview,
    store: StoreView,
    filter: FilterView,
)
    requires
        store.valid(),
        is_overview(o, store, filter),
    ensures
        forall|i: int, j: int|
            0 <= i < j < o.files@.len() ==> (#[trigger] o.files@[i]).conversations > (
            #[trigger] o.files@[j]).conversations || (o.files@[i].conversations
                == o.files@[j].conversations && (o.files@[i].touches > o.files@[j].touches || (
            o.files@[i].touches == o.files@[j].touches && precedes(
                o.files@[i].path@,
                o.files@[j].path@,
            )))),
        forall|c: int, i: int|
            #![trigger store.detail(store.conversations(filter)[c].conversation_id)->0.files[i]]
            0 <= c < store.conversations(filter).len() && 0 <= i < store.detail(
                store.conversations(filter)[c].conversation_id,
            )->0.files.len() ==> {
                let t = store.detail(store.conversations(filter)[c].conversation_id)->0.files[i];
                (exists|k: int|
                    0 <= k < o.files@.len() && (#[trigger] o.files@[k]).path@ == t.path && (t.kind
                        == "create"@ ==> o.files@[k].kind@ == "create"@) && (t.kind == "edit"@
                        ==> o.files@[k].kind@ == "edit"@ || o.files@[k].kind@ == "create"@))
                    || o.files@.len() == 25
            },
{
    let rows = store.conversations(filter);
    let details = details_of(store, rows);
    let lists = file_lists(details);
    let shown = o.files@;
    only_conversations_of_the_window_are_listed(store, filter);
    assert(rows.take(rows.len() as int) =~= rows);
    details_are_those_of_the_list(store, rows, rows.len() as int);
    hot_files_are_ordered_by_conversations_touches_and_path(lists, MAX_HOT_FILES as nat);
    the_hottest_files_are_on_the_list(lists, MAX_HOT_FILES as nat);
    every_touched_path_is_listed_once(lists);
    assert forall|k: int| 0 <= k < shown.len() implies #[trigger] shown[k]@ == hottest(
        store,
        filter,
    )[k] by {
        assert(views(shown)[k] == shown[k]@);
    }
    assert(shown.len() == views(shown).len());
    assert forall|i: int, j: int| 0 <= i < j < shown.len() implies (
    #[trigger] shown[i]).conversations > (#[trigger] shown[j]).conversations || (
    shown[i].conversations == shown[j].conversations && (shown[i].touches > shown[j].touches || (
    shown[i].touches == shown[j].touches && precedes(shown[i].path@, shown[j].path@)))) by {
        assert(shown[i]@ == hottest(store, filter)[i]);
        assert(shown[j]@ == hottest(store, filter)[j]);
    }
    assert forall|c: int, i: int|
        #![trigger store.detail(store.conversations(filter)[c].conversation_id)->0.files[i]]
        0 <= c < rows.len() && 0 <= i < store.detail(
            store.conversations(filter)[c].conversation_id,
        )->0.files.len() implies {
        let t = store.detail(store.conversations(filter)[c].conversation_id)->0.files[i];
        (exists|k: int|
            0 <= k < shown.len() && (#[trigger] shown[k]).path@ == t.path && (t.kind == "create"@
                ==> shown[k].kind@ == "create"@) && (t.kind == "edit"@ ==> shown[k].kind@ == "edit"@
                || shown[k].kind@ == "create"@)) || shown.len() == 25
    } by {
        assert(details[c] == store.detail(rows[c].conversation_id)->0);
        let t = lists[c][i];
        assert(t == store.detail(store.conversations(filter)[c].conversation_id)->0.files[i]);
        let row = hot_row(lists, t.path);
        assert(mentions(lists[c], t.path));
        assert(paths_on(lists).contains(t.path));
        a_write_is_shown_before_a_read(lists, t.path);
        assert(was_touched(lists, t.path, t.kind));
        if hottest(store, filter).contains(row) {
            let k = choose|k: int|
                0 <= k < hottest(store, filter).len() && hottest(store, filter)[k] == row;
            assert(shown[k]@ == row);
        }
    }
}

} // verus!
