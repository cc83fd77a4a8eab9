//! The window of a dashboard query: what a caller asks for, and the filter that
//! every query over the store shares.

use crate::model::{copy_text, opt_view};
use crate::text::{
    a_trimmed_text_has_bare_ends, is_blank, trim, trimmed, trimming_takes_what_is_put_around,
    white_space,
};
use vstd::prelude::*;

verus! {

/// The milliseconds of a day.
pub const DAY_MS: i64 = 86_400_000;

/// What a caller's `limit` is clamped to, so that one query cannot ask for the
/// whole store.
pub const MAX_LIMIT: i64 = 500;

/// How many conversations a query gives where its caller names no limit.
pub const DEFAULT_LIMIT: i64 = 100;

/// How many outstanding items a query gives.
pub const DEFAULT_ITEM_LIMIT: i64 = 200;

/// The window that every dashboard query shares. A negative limit is no limit.
#[derive(Debug)]
pub struct Filter {
    pub since_ms: Option<i64>,
    pub folder_path: Option<String>,
    pub limit: i64,
    pub item_limit: i64,
}

/// The view of a [`Filter`].
pub struct FilterView {
    pub since_ms: Option<i64>,
    pub folder_path: Option<Seq<char>>,
    pub limit: i64,
    pub item_limit: i64,
}

impl View for Filter {
    type V = FilterView;

    open spec fn view(&self) -> FilterView {
        FilterView {
            since_ms: self.since_ms,
            folder_path: opt_view(self.folder_path),
            limit: self.limit,
            item_limit: self.item_limit,
        }
    }
}

impl Clone for Filter {
    fn clone(&self) -> (r: Self)
        ensures
            r == *self,
    {
        Filter {
            since_ms: self.since_ms,
            folder_path: copy_text(&self.folder_path),
            limit: self.limit,
            item_limit: self.item_limit,
        }
    }
}

impl Default for Filter {
    fn default() -> (r: Self)
        ensures
            r@ == (FilterView {
                since_ms: None,
                folder_path: None,
                limit: DEFAULT_LIMIT,
                item_limit: DEFAULT_ITEM_LIMIT,
            }),
    {
        Filter {
            since_ms: None,
            folder_path: None,
            limit: DEFAULT_LIMIT,
            item_limit: DEFAULT_ITEM_LIMIT,
        }
    }
}

/// The dashboard's window. `days` is the ergonomic form ("the last 7 days") and
/// `since_ms` the exact one; `days` wins where both are sent, because an interface
/// with a day picker should not have to compute an instant too.
#[derive(Debug)]
pub struct WindowQuery {
    pub days: Option<i64>,
    pub since_ms: Option<i64>,
    pub folder_path: Option<String>,
    pub limit: Option<i64>,
}

/// The instant from which a window reaches, where it has one. A day count that is
/// not positive means no window, not the last zero days.
pub open spec fn window_start(days: Option<i64>, since_ms: Option<i64>, now_ms: i64) -> Option<
    int,
> {
    match days {
        Some(d) => if d > 0 {
            Some(now_ms - d * DAY_MS)
        } else {
            None
        },
        None => match since_ms {
            Some(t) => Some(t as int),
            None => None,
        },
    }
}

/// The number of rows asked for, where it is positive, or else the default; at
/// most the ceiling.
pub open spec fn window_limit(limit: Option<i64>) -> i64 {
    match limit {
        Some(n) => if n <= 0 {
            DEFAULT_LIMIT
        } else if n <= MAX_LIMIT {
            n
        } else {
            MAX_LIMIT
        },
        None => DEFAULT_LIMIT,
    }
}

/// The folder asked for, without the white space around it; a blank one is none.
pub open spec fn window_folder(folder: Option<Seq<char>>) -> Option<Seq<char>> {
    match folder {
        Some(f) => if trimmed(f).len() == 0 {
            None
        } else {
            Some(trimmed(f))
        },
        None => None,
    }
}

impl WindowQuery {
    /// Whether the instant that `days` names before `now_ms` can be computed in
    /// 64 bits.
    pub open spec fn in_range(self, now_ms: i64) -> bool {
        match self.days {
            Some(d) => d > 0 ==> d * DAY_MS <= i64::MAX && i64::MIN <= now_ms - d * DAY_MS,
            None => true,
        }
    }

    /// Whether the instant that `days` names before `now_ms` can be computed in
    /// 64 bits.
    pub fn is_in_range(&self, now_ms: i64) -> (r: bool)
        ensures
            r == self.in_range(now_ms),
    {
        match self.days {
            Some(d) => if d > 0 {
                let span: i128 = (d as i128) * (DAY_MS as i128);
                span <= i64::MAX as i128 && (now_ms as i128) - span >= i64::MIN as i128
            } else {
                true
            },
            None => true,
        }
    }

    /// The filter that this window means at `now_ms`.
    pub fn to_filter(&self, now_ms: i64) -> (r: Filter)
        requires
            self.in_range(now_ms),
        ensures
            match window_start(self.days, self.since_ms, now_ms) {
                Some(t) => r.since_ms == Some(t as i64) && i64::MIN <= t <= i64::MAX,
                None => r.since_ms is None,
            },
            self.days is Some && self.days->0 > 0 ==> r.since_ms is Some && now_ms - r.since_ms->0
                == self.days->0 * 86_400_000,
            self.days is Some && self.days->0 <= 0 ==> r.since_ms is None,
            self.days is None ==> r.since_ms == self.since_ms,
            opt_view(r.folder_path) == window_folder(opt_view(self.folder_path)),
            r.limit == window_limit(self.limit),
            1 <= r.limit <= 500,
            self.limit is Some && 1 <= self.limit->0 <= 500 ==> r.limit == self.limit->0,
            self.limit is Some && self.limit->0 > 500 ==> r.limit == 500,
            self.limit is None || self.limit->0 <= 0 ==> r.limit == 100,
            r.item_limit == DEFAULT_ITEM_LIMIT,
            r.item_limit == 200,
    {
        let since_ms: Option<i64> = match self.days {
            Some(days) => if days > 0 {
                Some(now_ms - days * DAY_MS)
            } else {
                None
            },
            None => self.since_ms,
        };
        let limit: i64 = match self.limit {
            Some(n) => if n <= 0 {
                DEFAULT_LIMIT
            } else if n <= MAX_LIMIT {
                n
            } else {
                MAX_LIMIT
            },
            None => DEFAULT_LIMIT,
        };
        let folder_path: Option<String> = match &self.folder_path {
            Some(f) => {
                let f: &str = trim(f.as_str());
                if f.is_empty() {
                    None
                } else {
                    Some(f.to_owned())
                }
            },
            None => None,
        };
        Filter { since_ms, folder_path, limit, item_limit: DEFAULT_ITEM_LIMIT }
    }
}

/// A day count wins over an instant that is sent with it, and one that is not positive
/// means no window.
pub proof fn a_day_count_wins(days: i64, since_ms: Option<i64>, now_ms: i64)
    ensures
        window_start(Some(days), since_ms, now_ms) == window_start(Some(days), None, now_ms),
        days <= 0 ==> window_start(Some(days), since_ms, now_ms) is None,
{
}

/// Whatever number of rows is asked for, there is room for one, and no query asks for
/// more than the ceiling.
pub proof fn a_limit_is_within_bounds(limit: Option<i64>)
    ensures
        1 <= window_limit(limit) <= MAX_LIMIT,
{
}

/// A folder that is filtered by is never blank, and has no white space around it.
pub proof fn a_folder_filter_is_never_blank(folder: Option<Seq<char>>)
    ensures
        window_folder(folder) matches Some(f) ==> f.len() > 0 && !white_space(f.first())
            && !white_space(f.last()),
{
    if let Some(f) = folder {
        a_trimmed_text_has_bare_ends(f);
    }
}

/// A window of some days begins exactly so many days before now, so one more day reaches
/// exactly one day further back; without a day count it begins at the instant that was
/// sent, where one was.
pub proof fn a_window_reaches_back_its_days(days: i64, since_ms: Option<i64>, now_ms: i64)
    ensures
        days > 0 ==> window_start(Some(days), since_ms, now_ms) is Some && now_ms - window_start(
            Some(days),
            since_ms,
            now_ms,
        )->0 == days * 86_400_000,
        0 < days < i64::MAX ==> window_start(Some((days + 1) as i64), since_ms, now_ms)->0
            == window_start(Some(days), since_ms, now_ms)->0 - 86_400_000,
        since_ms is Some ==> window_start(None, since_ms, now_ms) == Some(since_ms->0 as int),
        since_ms is None ==> window_start(None, since_ms, now_ms) is None,
{
}

/// The day count of a window is in range where the days, in milliseconds, and the instant
/// so far before now can be written in 64 bits.
pub proof fn a_window_is_in_range(query: WindowQuery, now_ms: i64)
    ensures
        query.in_range(now_ms) <==> (query.days is Some && query.days->0 > 0 ==> query.days->0
            * 86_400_000 <= i64::MAX && now_ms - query.days->0 * 86_400_000 >= i64::MIN),
{
}

/// As many rows are asked for as the caller names, within the ceiling; a number that is not
/// positive, or none, asks for the default.
pub proof fn a_limit_is_what_was_named(n: i64)
    ensures
        1 <= n <= 500 ==> window_limit(Some(n)) == n,
        n > 500 ==> window_limit(Some(n)) == 500,
        n <= 0 ==> window_limit(Some(n)) == 100,
        window_limit(None) == 100,
{
}

/// A folder is filtered by as it reads, without the white space around it; a blank one, or
/// none, filters nothing.
pub proof fn a_folder_is_filtered_by_as_it_reads(
    before: Seq<char>,
    folder: Seq<char>,
    after: Seq<char>,
)
    requires
        is_blank(before),
        is_blank(after),
        folder.len() > 0 ==> !white_space(folder.first()) && !white_space(folder.last()),
    ensures
        window_folder(Some(before + folder + after)) == (if folder.len() == 0 {
            None
        } else {
            Some(folder)
        }),
        window_folder(None) is None,
{
    trimming_takes_what_is_put_around(before, folder, after);
}

} // verus!
