//! The node's calendar: which local date an instant falls on, as SQLite answers it.
//!
//! The answer rests on the machine's time zone, which the library knows nothing of. What
//! it sees to is that each conversation is asked for by its own instant, and that an
//! instant is asked for once, so that conversations of one instant share their date.

use crate::model::opt_view;
use rusqlite::Connection;
use vstd::prelude::*;

verus! {

/// A connection to an SQLite database, opaque.
#[verifier::external_type_specification]
#[verifier::external_body]
pub struct ExConnection(rusqlite::Connection);

/// What SQLite, or the reading of its answer, fails with, opaque.
#[verifier::external_type_specification]
#[verifier::external_body]
pub struct ExSqliteError(rusqlite::Error);

/// Whether SQLite, on some machine, gives `date` as the local date of an instant in epoch
/// seconds. An instant outside SQLite's calendar has none.
pub uninterp spec fn may_fall_on(seconds: i64, date: Option<Seq<char>>) -> bool;

/// The whole seconds of an instant in epoch milliseconds, towards the epoch.
pub open spec fn whole_seconds(instant_ms: i64) -> i64 {
    if instant_ms >= 0 {
        (instant_ms as int / 1000) as i64
    } else {
        (-((-instant_ms) / 1000)) as i64
    }
}

/// The whole seconds of an instant in epoch milliseconds, towards the epoch.
pub fn seconds_of(instant_ms: i64) -> (r: i64)
    ensures
        r == whole_seconds(instant_ms),
{
    if instant_ms >= 0 {
        (instant_ms as u64 / 1000) as i64
    } else {
        let magnitude: u64 = (-(instant_ms as i128)) as u64;
        -((magnitude / 1000) as i64)
    }
}

/// Whether a text reads `YYYY-MM-DD`, with a minus sign in front for a negative year.
pub open spec fn is_date_text(s: Seq<char>) -> bool {
    let d = if s.len() == 11 && s[0] == '-' {
        s.skip(1)
    } else {
        s
    };
    &&& d.len() == 10
    &&& forall|i: int|
        0 <= i < 10 ==> if i == 4 || i == 7 {
            #[trigger] d[i] == '-'
        } else {
            '0' <= d[i] <= '9'
        }
}

/// Calls `rusqlite::Connection::open_in_memory`: a connection with no tables, on
/// which expressions can be computed. Nothing is claimed of it; it fails where
/// SQLite cannot open one.
#[verifier::external_body]
pub(crate) fn open_calendar() -> (r: Result<Connection, rusqlite::Error>) {
    Connection::open_in_memory()
}

/// Calls `rusqlite::Connection::query_row` with SQLite's `date` of an instant in
/// epoch seconds, shifted to local time: a text `YYYY-MM-DD`, or `None` for an
/// instant outside SQLite's calendar. Which date comes back rests on the machine's
/// time zone: it is claimed to be one that SQLite gives for this instant on some
/// machine, not which, nor that another call gives the same.
#[verifier::external_body]
pub(crate) fn local_date(calendar: &Connection, seconds: i64) -> (r: Result<
    Option<String>,
    rusqlite::Error,
>)
    ensures
        match r {
            Ok(date) => may_fall_on(seconds, opt_view(date)),
            Err(_) => true,
        },
        match r {
            Ok(Some(date)) => is_date_text(date@),
            _ => true,
        },
{
    calendar.query_row(
        "SELECT date(?1, 'unixepoch', 'localtime')",
        [seconds],
        |row| row.get(0),
    )
}

/// An instant that was asked for, with the date that came back.
#[derive(Debug)]
pub struct Asked {
    pub instant_ms: i64,
    pub date: Option<String>,
}

/// Whether a calendar is one that SQLite may give: each date belongs to its instant.
pub open spec fn is_calendar(calendar: Map<i64, Option<Seq<char>>>) -> bool {
    forall|t: i64| #[trigger]
        calendar.contains_key(t) ==> may_fall_on(whole_seconds(t), calendar[t]) && (match calendar[t] {
            Some(date) => is_date_text(date),
            None => true,
        })
}

/// Whether `asked` holds a calendar.
pub open spec fn holds_calendar(
    asked: Seq<Asked>,
    calendar: Map<i64, Option<Seq<char>>>,
) -> bool {
    &&& forall|k: int|
        0 <= k < asked.len() ==> calendar.contains_key((#[trigger] asked[k]).instant_ms)
            && calendar[asked[k].instant_ms] == opt_view(asked[k].date)
    &&& forall|t: i64| #[trigger]
        calendar.contains_key(t) ==> exists|k: int|
            0 <= k < asked.len() && (#[trigger] asked[k]).instant_ms == t
}

/// The place of an instant among those that were asked for. One that was asked for before
/// has its place, whatever SQLite would answer now; another takes the next place, unless
/// SQLite fails, and then nothing is added.
pub(crate) fn ask(
    connection: &Connection,
    asked: &mut Vec<Asked>,
    instant_ms: i64,
    Ghost(calendar): Ghost<Map<i64, Option<Seq<char>>>>,
) -> (r: Result<usize, rusqlite::Error>)
    requires
        is_calendar(calendar),
        holds_calendar(old(asked)@, calendar),
    ensures
        match r {
            Ok(k) => {
                let after = if calendar.contains_key(instant_ms) {
                    calendar
                } else {
                    calendar.insert(instant_ms, opt_view(final(asked)@[k as int].date))
                };
                &&& k < final(asked)@.len()
                &&& final(asked)@[k as int].instant_ms == instant_ms
                &&& calendar.contains_key(instant_ms) ==> final(asked)@ == old(asked)@
                &&& !calendar.contains_key(instant_ms) ==> k == old(asked)@.len() && final(asked)@
                    == old(asked)@.push(final(asked)@[k as int])
                &&& is_calendar(after)
                &&& holds_calendar(final(asked)@, after)
            },
            Err(_) => !calendar.contains_key(instant_ms) && final(asked)@ == old(asked)@,
        },
{
    let mut k: usize = 0;
    while k < asked.len()
        invariant
            k <= asked.len(),
            asked@ == old(asked)@,
            is_calendar(calendar),
            holds_calendar(asked@, calendar),
            forall|l: int| 0 <= l < k ==> (#[trigger] asked@[l]).instant_ms != instant_ms,
        decreases asked.len() - k,
    {
        if asked[k].instant_ms == instant_ms {
            return Ok(k);
        }
        k = k + 1;
    }
    assert(!calendar.contains_key(instant_ms));
    let date: Option<String> = match local_date(connection, seconds_of(instant_ms)) {
        Ok(d) => d,
        Err(e) => {
            return Err(e);
        },
    };
    let ghost after = calendar.insert(instant_ms, opt_view(date));
    asked.push(Asked { instant_ms, date });
    proof {
        assert(asked@[k as int].instant_ms == instant_ms);
        assert forall|t: i64| #[trigger] after.contains_key(t) implies exists|l: int|
            0 <= l < asked@.len() && (#[trigger] asked@[l]).instant_ms == t by {
            if t != instant_ms {
                assert(calendar.contains_key(t));
                let l = choose|l: int|
                    0 <= l < old(asked)@.len() && (#[trigger] old(asked)@[l]).instant_ms == t;
                assert(asked@[l].instant_ms == t);
            }
        }
        assert forall|l: int| 0 <= l < asked@.len() implies after.contains_key(
            (#[trigger] asked@[l]).instant_ms,
        ) && after[asked@[l].instant_ms] == opt_view(asked@[l].date) by {
            if l < k {
                assert(asked@[l] == old(asked)@[l]);
            }
        }
        assert forall|t: i64| #[trigger] after.contains_key(t) implies may_fall_on(
            whole_seconds(t),
            after[t],
        ) && (match after[t] {
            Some(date) => is_date_text(date),
            None => true,
        }) by {
            if t != instant_ms {
                assert(calendar.contains_key(t));
            }
        }
    }
    Ok(k)
}

/// An instant is cut to whole seconds, towards the epoch.
pub proof fn seconds_are_cut_towards_the_epoch(instant_ms: i64)
    ensures
        instant_ms >= 0 ==> 0 <= instant_ms - 1000 * whole_seconds(instant_ms) < 1000,
        instant_ms < 0 ==> -1000 < instant_ms - 1000 * whole_seconds(instant_ms) <= 0,
{
}

} // verus!
