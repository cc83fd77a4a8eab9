//! The values Mission Control stores and serves.
//!
//! The digest of a conversation is computed by the client, which is the one
//! process that sees a conversation's tool calls. This crate remembers what the
//! client derived and answers questions across many conversations.
//!
//! Each type has a view: the same value over mathematical sequences, which the
//! contracts speak of.

use vstd::prelude::*;

verus! {

/// The views of the elements of a sequence.
pub open spec fn views<T: View>(s: Seq<T>) -> Seq<T::V> {
    Seq::new(s.len(), |i: int| s[i]@)
}

/// The view of an optional value.
pub open spec fn opt_view<T: View>(o: Option<T>) -> Option<T::V> {
    match o {
        Some(t) => Some(t@),
        None => None,
    }
}

/// A copy of an optional text.
pub fn copy_text(o: &Option<String>) -> (r: Option<String>)
    ensures
        r == *o,
{
    match o {
        Some(s) => Some(s.clone()),
        None => None,
    }
}

/// How a conversation touched one path: a plain text, because an older node must
/// not reject a kind that a newer client learned to report.
pub type TouchKind = String;

/// What one conversation, or several, amounted to.
#[derive(Debug, Clone, Copy)]
pub struct Totals {
    pub turns: i64,
    pub writes: i64,
    pub commands: i64,
    pub failures: i64,
    pub tool_calls: i64,
    pub files_touched: i64,
}

impl Totals {
    /// All counts at zero.
    pub open spec fn zero() -> Totals {
        Totals { turns: 0, writes: 0, commands: 0, failures: 0, tool_calls: 0, files_touched: 0 }
    }

    /// Whether every count of the sum with `other` fits its type.
    pub open spec fn sum_fits(self, other: Totals) -> bool {
        &&& i64::MIN <= self.turns + other.turns <= i64::MAX
        &&& i64::MIN <= self.writes + other.writes <= i64::MAX
        &&& i64::MIN <= self.commands + other.commands <= i64::MAX
        &&& i64::MIN <= self.failures + other.failures <= i64::MAX
        &&& i64::MIN <= self.tool_calls + other.tool_calls <= i64::MAX
        &&& i64::MIN <= self.files_touched + other.files_touched <= i64::MAX
    }

    /// The sum, count by count.
    pub open spec fn plus(self, other: Totals) -> Totals
        recommends
            self.sum_fits(other),
    {
        Totals {
            turns: (self.turns + other.turns) as i64,
            writes: (self.writes + other.writes) as i64,
            commands: (self.commands + other.commands) as i64,
            failures: (self.failures + other.failures) as i64,
            tool_calls: (self.tool_calls + other.tool_calls) as i64,
            files_touched: (self.files_touched + other.files_touched) as i64,
        }
    }

    /// Whether every count of the sum with `other` fits its type.
    pub fn can_add(&self, other: &Totals) -> (r: bool)
        ensures
            r == self.sum_fits(*other),
    {
        self.turns.checked_add(other.turns).is_some() && self.writes.checked_add(
            other.writes,
        ).is_some() && self.commands.checked_add(other.commands).is_some()
            && self.failures.checked_add(other.failures).is_some() && self.tool_calls.checked_add(
            other.tool_calls,
        ).is_some() && self.files_touched.checked_add(other.files_touched).is_some()
    }

    /// Adds `other`, count by count.
    pub fn add(&mut self, other: &Totals)
        requires
            old(self).sum_fits(*other),
        ensures
            *final(self) == old(self).plus(*other),
    {
        self.turns = self.turns + other.turns;
        self.writes = self.writes + other.writes;
        self.commands = self.commands + other.commands;
        self.failures = self.failures + other.failures;
        self.tool_calls = self.tool_calls + other.tool_calls;
        self.files_touched = self.files_touched + other.files_touched;
    }
}

impl Default for Totals {
    fn default() -> (r: Self)
        ensures
            r == Totals::zero(),
    {
        Totals { turns: 0, writes: 0, commands: 0, failures: 0, tool_calls: 0, files_touched: 0 }
    }
}

/// One path a conversation touched.
#[derive(Debug)]
pub struct FileTouch {
    pub path: String,
    pub kind: TouchKind,
    pub count: i64,
}

/// The view of a [`FileTouch`].
pub struct FileTouchView {
    pub path: Seq<char>,
    pub kind: Seq<char>,
    pub count: i64,
}

impl View for FileTouch {
    type V = FileTouchView;

    open spec fn view(&self) -> FileTouchView {
        FileTouchView { path: self.path@, kind: self.kind@, count: self.count }
    }
}

impl Clone for FileTouch {
    fn clone(&self) -> (r: Self)
        ensures
            r == *self,
    {
        FileTouch { path: self.path.clone(), kind: self.kind.clone(), count: self.count }
    }
}

/// One turn of a conversation. `rationale` is the agent's own prose before its
/// tool calls: the reason, which is what the whole feature carries across days.
#[derive(Debug)]
pub struct TurnRecord {
    pub index: i64,
    pub headline: String,
    pub request: String,
    pub rationale: String,
    pub outcome: String,
    pub status: String,
    pub files: Vec<FileTouch>,
}

/// The view of a [`TurnRecord`].
pub struct TurnView {
    pub index: i64,
    pub headline: Seq<char>,
    pub request: Seq<char>,
    pub rationale: Seq<char>,
    pub outcome: Seq<char>,
    pub status: Seq<char>,
    pub files: Seq<FileTouchView>,
}

impl View for TurnRecord {
    type V = TurnView;

    open spec fn view(&self) -> TurnView {
        TurnView {
            index: self.index,
            headline: self.headline@,
            request: self.request@,
            rationale: self.rationale@,
            outcome: self.outcome@,
            status: self.status@,
            files: views(self.files@),
        }
    }
}

/// A copy of a list of touches.
pub fn copy_files(v: &Vec<FileTouch>) -> (r: Vec<FileTouch>)
    ensures
        r@ == v@,
{
    let r: Vec<FileTouch> = v.clone();
    assert(r@ =~= v@);
    r
}

impl Clone for TurnRecord {
    fn clone(&self) -> (r: Self)
        ensures
            r@ == self@,
    {
        TurnRecord {
            index: self.index,
            headline: self.headline.clone(),
            request: self.request.clone(),
            rationale: self.rationale.clone(),
            outcome: self.outcome.clone(),
            status: self.status.clone(),
            files: copy_files(&self.files),
        }
    }
}

/// A copy of a list of turns.
pub fn copy_turns(v: &Vec<TurnRecord>) -> (r: Vec<TurnRecord>)
    ensures
        views(r@) == views(v@),
{
    let r: Vec<TurnRecord> = v.clone();
    assert(views(r@) =~= views(v@));
    r
}

/// A piece of work, out of the conversation's last to-do list.
#[derive(Debug)]
pub struct WorkItem {
    pub content: String,
    pub status: String,
}

/// The view of a [`WorkItem`].
pub struct WorkItemView {
    pub content: Seq<char>,
    pub status: Seq<char>,
}

impl View for WorkItem {
    type V = WorkItemView;

    open spec fn view(&self) -> WorkItemView {
        WorkItemView { content: self.content@, status: self.status@ }
    }
}

impl Clone for WorkItem {
    fn clone(&self) -> (r: Self)
        ensures
            r == *self,
    {
        WorkItem { content: self.content.clone(), status: self.status.clone() }
    }
}

/// A copy of a list of work items.
pub fn copy_items(v: &Vec<WorkItem>) -> (r: Vec<WorkItem>)
    ensures
        r@ == v@,
{
    let r: Vec<WorkItem> = v.clone();
    assert(r@ =~= v@);
    r
}

/// What the client sends for one conversation. Everything in it replaces what was
/// stored before, so no stale turn survives an edit.
#[derive(Debug)]
pub struct IndexRequest {
    pub title: Option<String>,
    pub folder_path: Option<String>,
    pub agent_id: Option<String>,
    /// When the conversation last changed, in epoch milliseconds: the key by which
    /// the client tells whether what is stored is stale.
    pub source_updated_at: i64,
    pub totals: Totals,
    pub turns: Vec<TurnRecord>,
    pub files: Vec<FileTouch>,
    pub open_items: Vec<WorkItem>,
    pub done_items: Vec<WorkItem>,
}

/// The view of an [`IndexRequest`].
pub struct IndexRequestView {
    pub title: Option<Seq<char>>,
    pub folder_path: Option<Seq<char>>,
    pub agent_id: Option<Seq<char>>,
    pub source_updated_at: i64,
    pub totals: Totals,
    pub turns: Seq<TurnView>,
    pub files: Seq<FileTouchView>,
    pub open_items: Seq<WorkItemView>,
    pub done_items: Seq<WorkItemView>,
}

impl View for IndexRequest {
    type V = IndexRequestView;

    open spec fn view(&self) -> IndexRequestView {
        IndexRequestView {
            title: opt_view(self.title),
            folder_path: opt_view(self.folder_path),
            agent_id: opt_view(self.agent_id),
            source_updated_at: self.source_updated_at,
            totals: self.totals,
            turns: views(self.turns@),
            files: views(self.files@),
            open_items: views(self.open_items@),
            done_items: views(self.done_items@),
        }
    }
}

impl Clone for IndexRequest {
    fn clone(&self) -> (r: Self)
        ensures
            r@ == self@,
    {
        let r: IndexRequest = IndexRequest {
            title: copy_text(&self.title),
            folder_path: copy_text(&self.folder_path),
            agent_id: copy_text(&self.agent_id),
            source_updated_at: self.source_updated_at,
            totals: self.totals,
            turns: copy_turns(&self.turns),
            files: copy_files(&self.files),
            open_items: copy_items(&self.open_items),
            done_items: copy_items(&self.done_items),
        };
        r
    }
}

/// A stored conversation, as the project page lists it.
#[derive(Debug)]
pub struct ConversationDigest {
    pub conversation_id: String,
    pub title: Option<String>,
    pub folder_path: Option<String>,
    pub agent_id: Option<String>,
    pub source_updated_at: i64,
    pub indexed_at: i64,
    pub totals: Totals,
    /// The headline of the most recent turn.
    pub headline: Option<String>,
    /// A narrative, where one was asked for. `None` says that nobody asked, never
    /// that the model said nothing.
    pub summary: Option<String>,
    pub summarized_at: Option<i64>,
    pub open_count: i64,
    pub done_count: i64,
}

/// The view of a [`ConversationDigest`].
pub struct DigestView {
    pub conversation_id: Seq<char>,
    pub title: Option<Seq<char>>,
    pub folder_path: Option<Seq<char>>,
    pub agent_id: Option<Seq<char>>,
    pub source_updated_at: i64,
    pub indexed_at: i64,
    pub totals: Totals,
    pub headline: Option<Seq<char>>,
    pub summary: Option<Seq<char>>,
    pub summarized_at: Option<i64>,
    pub open_count: i64,
    pub done_count: i64,
}

impl View for ConversationDigest {
    type V = DigestView;

    open spec fn view(&self) -> DigestView {
        DigestView {
            conversation_id: self.conversation_id@,
            title: opt_view(self.title),
            folder_path: opt_view(self.folder_path),
            agent_id: opt_view(self.agent_id),
            source_updated_at: self.source_updated_at,
            indexed_at: self.indexed_at,
            totals: self.totals,
            headline: opt_view(self.headline),
            summary: opt_view(self.summary),
            summarized_at: self.summarized_at,
            open_count: self.open_count,
            done_count: self.done_count,
        }
    }
}

impl Clone for ConversationDigest {
    fn clone(&self) -> (r: Self)
        ensures
            r == *self,
    {
        ConversationDigest {
            conversation_id: self.conversation_id.clone(),
            title: copy_text(&self.title),
            folder_path: copy_text(&self.folder_path),
            agent_id: copy_text(&self.agent_id),
            source_updated_at: self.source_updated_at,
            indexed_at: self.indexed_at,
            totals: self.totals,
            headline: copy_text(&self.headline),
            summary: copy_text(&self.summary),
            summarized_at: self.summarized_at,
            open_count: self.open_count,
            done_count: self.done_count,
        }
    }
}

/// A digest with what the list leaves out.
#[derive(Debug)]
pub struct ConversationDetail {
    pub digest: ConversationDigest,
    pub turns: Vec<TurnRecord>,
    pub files: Vec<FileTouch>,
    pub open_items: Vec<WorkItem>,
    pub done_items: Vec<WorkItem>,
}

/// The view of a [`ConversationDetail`].
pub struct DetailView {
    pub digest: DigestView,
    pub turns: Seq<TurnView>,
    pub files: Seq<FileTouchView>,
    pub open_items: Seq<WorkItemView>,
    pub done_items: Seq<WorkItemView>,
}

impl View for ConversationDetail {
    type V = DetailView;

    open spec fn view(&self) -> DetailView {
        DetailView {
            digest: self.digest@,
            turns: views(self.turns@),
            files: views(self.files@),
            open_items: views(self.open_items@),
            done_items: views(self.done_items@),
        }
    }
}

impl Clone for ConversationDetail {
    fn clone(&self) -> (r: Self)
        ensures
            r@ == self@,
    {
        ConversationDetail {
            digest: self.digest.clone(),
            turns: copy_turns(&self.turns),
            files: copy_files(&self.files),
            open_items: copy_items(&self.open_items),
            done_items: copy_items(&self.done_items),
        }
    }
}

/// One local calendar day of activity.
#[derive(Debug)]
pub struct DayBucket {
    /// `YYYY-MM-DD` in the node's own time zone: a question about Tuesday is a
    /// question about the user's Tuesday.
    pub date: String,
    pub conversations: i64,
    pub turns: i64,
    pub writes: i64,
    pub failures: i64,
}

/// The view of a [`DayBucket`].
pub struct DayBucketView {
    pub date: Seq<char>,
    pub conversations: i64,
    pub turns: int,
    pub writes: int,
    pub failures: int,
}

impl View for DayBucket {
    type V = DayBucketView;

    open spec fn view(&self) -> DayBucketView {
        DayBucketView {
            date: self.date@,
            conversations: self.conversations,
            turns: self.turns as int,
            writes: self.writes as int,
            failures: self.failures as int,
        }
    }
}

impl Clone for DayBucket {
    fn clone(&self) -> (r: Self)
        ensures
            r == *self,
    {
        DayBucket {
            date: self.date.clone(),
            conversations: self.conversations,
            turns: self.turns,
            writes: self.writes,
            failures: self.failures,
        }
    }
}

/// An outstanding item with the conversation it came from.
#[derive(Debug)]
pub struct OpenItemRow {
    pub conversation_id: String,
    pub conversation_title: Option<String>,
    pub folder_path: Option<String>,
    pub content: String,
    pub status: String,
    pub source_updated_at: i64,
}

/// The view of an [`OpenItemRow`].
pub struct OpenItemView {
    pub conversation_id: Seq<char>,
    pub conversation_title: Option<Seq<char>>,
    pub folder_path: Option<Seq<char>>,
    pub content: Seq<char>,
    pub status: Seq<char>,
    pub source_updated_at: i64,
}

impl View for OpenItemRow {
    type V = OpenItemView;

    open spec fn view(&self) -> OpenItemView {
        OpenItemView {
            conversation_id: self.conversation_id@,
            conversation_title: opt_view(self.conversation_title),
            folder_path: opt_view(self.folder_path),
            content: self.content@,
            status: self.status@,
            source_updated_at: self.source_updated_at,
        }
    }
}

impl Clone for OpenItemRow {
    fn clone(&self) -> (r: Self)
        ensures
            r == *self,
    {
        OpenItemRow {
            conversation_id: self.conversation_id.clone(),
            conversation_title: copy_text(&self.conversation_title),
            folder_path: copy_text(&self.folder_path),
            content: self.content.clone(),
            status: self.status.clone(),
            source_updated_at: self.source_updated_at,
        }
    }
}

/// A path with how many distinct conversations touched it.
#[derive(Debug)]
pub struct HotFile {
    pub path: String,
    pub kind: TouchKind,
    pub touches: i64,
    pub conversations: i64,
}

/// The view of a [`HotFile`].
pub struct HotFileView {
    pub path: Seq<char>,
    pub kind: Seq<char>,
    pub touches: int,
    pub conversations: int,
}

impl View for HotFile {
    type V = HotFileView;

    open spec fn view(&self) -> HotFileView {
        HotFileView {
            path: self.path@,
            kind: self.kind@,
            touches: self.touches as int,
            conversations: self.conversations as int,
        }
    }
}

impl Clone for HotFile {
    fn clone(&self) -> (r: Self)
        ensures
            r == *self,
    {
        HotFile {
            path: self.path.clone(),
            kind: self.kind.clone(),
            touches: self.touches,
            conversations: self.conversations,
        }
    }
}

/// The totals of a whole window.
#[derive(Debug, Clone, Copy)]
pub struct OverviewTotals {
    pub work: Totals,
    pub conversations: i64,
    pub open_items: i64,
}

/// The whole project page: every section is a projection of the same filtered rows.
#[derive(Debug)]
pub struct Overview {
    pub since_ms: Option<i64>,
    pub folder_path: Option<String>,
    pub totals: OverviewTotals,
    pub days: Vec<DayBucket>,
    pub conversations: Vec<ConversationDigest>,
    pub open_items: Vec<OpenItemRow>,
    pub files: Vec<HotFile>,
}

impl Clone for Overview {
    fn clone(&self) -> (r: Self)
        ensures
            r.since_ms == self.since_ms,
            r.folder_path == self.folder_path,
            r.totals == self.totals,
            r.days@ == self.days@,
            r.conversations@ == self.conversations@,
            r.open_items@ == self.open_items@,
            r.files@ == self.files@,
    {
        let days: Vec<DayBucket> = self.days.clone();
        let conversations: Vec<ConversationDigest> = self.conversations.clone();
        let open_items: Vec<OpenItemRow> = self.open_items.clone();
        let files: Vec<HotFile> = self.files.clone();
        assert(days@ =~= self.days@);
        assert(conversations@ =~= self.conversations@);
        assert(open_items@ =~= self.open_items@);
        assert(files@ =~= self.files@);
        Overview {
            since_ms: self.since_ms,
            folder_path: copy_text(&self.folder_path),
            totals: self.totals,
            days,
            conversations,
            open_items,
            files,
        }
    }
}

/// What the client needs to decide which conversations to index again.
#[derive(Debug)]
pub struct IndexStateRow {
    pub conversation_id: String,
    pub source_updated_at: i64,
    pub summarized: bool,
}

/// The view of an [`IndexStateRow`].
pub struct IndexStateView {
    pub conversation_id: Seq<char>,
    pub source_updated_at: i64,
    pub summarized: bool,
}

impl View for IndexStateRow {
    type V = IndexStateView;

    open spec fn view(&self) -> IndexStateView {
        IndexStateView {
            conversation_id: self.conversation_id@,
            source_updated_at: self.source_updated_at,
            summarized: self.summarized,
        }
    }
}

impl Clone for IndexStateRow {
    fn clone(&self) -> (r: Self)
        ensures
            r == *self,
    {
        IndexStateRow {
            conversation_id: self.conversation_id.clone(),
            source_updated_at: self.source_updated_at,
            summarized: self.summarized,
        }
    }
}

/// Totals add count by count, and can be added where every sum fits in 64 bits.
pub proof fn totals_add_count_by_count(a: Totals, b: Totals)
    ensures
        a.sum_fits(b) <==> (i64::MIN <= a.turns + b.turns <= i64::MAX && i64::MIN <= a.writes
            + b.writes <= i64::MAX && i64::MIN <= a.commands + b.commands <= i64::MAX && i64::MIN
            <= a.failures + b.failures <= i64::MAX && i64::MIN <= a.tool_calls + b.tool_calls
            <= i64::MAX && i64::MIN <= a.files_touched + b.files_touched <= i64::MAX),
        a.sum_fits(b) ==> {
            let c = a.plus(b);
            &&& c.turns == a.turns + b.turns
            &&& c.writes == a.writes + b.writes
            &&& c.commands == a.commands + b.commands
            &&& c.failures == a.failures + b.failures
            &&& c.tool_calls == a.tool_calls + b.tool_calls
            &&& c.files_touched == a.files_touched + b.files_touched
        },
{
}

} // verus!
