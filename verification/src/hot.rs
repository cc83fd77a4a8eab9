//! The files that several conversations keep returning to.
//!
//! The rows are rolled up from the file lists of whole conversations; a list holds
//! each touch of one conversation, in order.

use crate::model::{
    views, ConversationDetail, DetailView, FileTouch, FileTouchView, HotFile, HotFileView,
};
use crate::order::{
    arrange, arranged, arranged_rows_are_in_order, arranged_rows_are_the_same_rows,
    arranging_keeps_the_rows, first_rows, in_order, is_an_order, one_order_only, Ranked,
};
use crate::sums::total_of;
use crate::text::{
    precedes, precedes_is_irreflexive, precedes_is_total, precedes_is_transitive, same_text,
    text_precedes,
};
use vstd::prelude::*;
use vstd::seq_lib::to_multiset_contains;

verus! {

/// The file lists of several conversations.
pub open spec fn file_lists(details: Seq<DetailView>) -> Seq<Seq<FileTouchView>> {
    Seq::new(details.len(), |i: int| details[i].files)
}

/// How much one touch counts: as often as it says, and at least once.
pub open spec fn weight(count: i64) -> int {
    if count > 1 {
        count as int
    } else {
        1
    }
}

/// How much a kind of touch says of a path: a write is a more interesting fact
/// than a read.
pub open spec fn touch_rank(kind: Seq<char>) -> int {
    if kind == "create"@ {
        2
    } else if kind == "edit"@ {
        1
    } else {
        0
    }
}

/// How much a kind of touch says of a path.
fn rank(kind: &str) -> (r: u8)
    ensures
        r == touch_rank(kind@),
{
    if same_text(kind, "create") {
        2
    } else if same_text(kind, "edit") {
        1
    } else {
        0
    }
}

/// How often a list touches `path`.
pub open spec fn touches_in(files: Seq<FileTouchView>, path: Seq<char>) -> int
    decreases files.len(),
{
    if files.len() == 0 {
        0
    } else {
        touches_in(files.drop_last(), path) + if files.last().path == path {
            weight(files.last().count)
        } else {
            0
        }
    }
}

/// How often the lists touch `path`, all together.
pub open spec fn touches_on(lists: Seq<Seq<FileTouchView>>, path: Seq<char>) -> int
    decreases lists.len(),
{
    if lists.len() == 0 {
        0
    } else {
        touches_on(lists.drop_last(), path) + touches_in(lists.last(), path)
    }
}

/// Whether a list touches `path` at all.
pub open spec fn mentions(files: Seq<FileTouchView>, path: Seq<char>) -> bool {
    exists|i: int| 0 <= i < files.len() && (#[trigger] files[i]).path == path
}

/// How many of the lists touch `path`.
pub open spec fn chats_on(lists: Seq<Seq<FileTouchView>>, path: Seq<char>) -> int
    decreases lists.len(),
{
    if lists.len() == 0 {
        0
    } else {
        chats_on(lists.drop_last(), path) + if mentions(lists.last(), path) {
            1int
        } else {
            0
        }
    }
}

/// The stronger of what was seen before and one more kind; of two that are equally
/// strong, the one seen before.
pub open spec fn stronger(before: Option<Seq<char>>, kind: Seq<char>) -> Option<Seq<char>> {
    match before {
        Some(k) => if touch_rank(kind) > touch_rank(k) {
            Some(kind)
        } else {
            Some(k)
        },
        None => Some(kind),
    }
}

/// The strongest kind of touch of `path` in a list, after those seen before it.
pub open spec fn strongest_in(
    files: Seq<FileTouchView>,
    path: Seq<char>,
    before: Option<Seq<char>>,
) -> Option<Seq<char>>
    decreases files.len(),
{
    if files.len() == 0 {
        before
    } else {
        let k = strongest_in(files.drop_last(), path, before);
        if files.last().path == path {
            stronger(k, files.last().kind)
        } else {
            k
        }
    }
}

/// The strongest kind of touch of `path` in the lists, the first of several that
/// are equally strong.
pub open spec fn strongest_on(lists: Seq<Seq<FileTouchView>>, path: Seq<char>) -> Option<Seq<char>>
    decreases lists.len(),
{
    if lists.len() == 0 {
        None
    } else {
        strongest_in(lists.last(), path, strongest_on(lists.drop_last(), path))
    }
}

/// The paths of a list that are not among those seen before it, behind those.
pub open spec fn paths_in(files: Seq<FileTouchView>, before: Seq<Seq<char>>) -> Seq<Seq<char>>
    decreases files.len(),
{
    if files.len() == 0 {
        before
    } else {
        let known = paths_in(files.drop_last(), before);
        if known.contains(files.last().path) {
            known
        } else {
            known.push(files.last().path)
        }
    }
}

/// The paths that the lists touch, each once.
pub open spec fn paths_on(lists: Seq<Seq<FileTouchView>>) -> Seq<Seq<char>>
    decreases lists.len(),
{
    if lists.len() == 0 {
        seq![]
    } else {
        paths_in(lists.last(), paths_on(lists.drop_last()))
    }
}

/// What the lists say of one path.
pub open spec fn hot_row(lists: Seq<Seq<FileTouchView>>, path: Seq<char>) -> HotFileView {
    HotFileView {
        path,
        kind: match strongest_on(lists, path) {
            Some(k) => k,
            None => seq![],
        },
        touches: touches_on(lists, path),
        conversations: chats_on(lists, path),
    }
}

/// What the lists say of each path they touch.
pub open spec fn hot_rows(lists: Seq<Seq<FileTouchView>>) -> Seq<HotFileView> {
    Seq::new(paths_on(lists).len(), |i: int| hot_row(lists, paths_on(lists)[i]))
}

/// Whether the touches of every path can be counted in 64 bits.
pub open spec fn touches_fit(lists: Seq<Seq<FileTouchView>>) -> bool {
    forall|path: Seq<char>| #[trigger] touches_on(lists, path) <= i64::MAX
}

/// The lists up to the `j`-th touch of list `c`.
spec fn up_to(lists: Seq<Seq<FileTouchView>>, c: int, j: int) -> Seq<Seq<FileTouchView>> {
    lists.take(c).push(lists[c].take(j))
}

/// One more touch of list `c`.
proof fn one_more_touch(lists: Seq<Seq<FileTouchView>>, c: int, j: int)
    requires
        0 <= c < lists.len(),
        0 <= j < lists[c].len(),
    ensures
        ({
            let before = up_to(lists, c, j);
            let after = up_to(lists, c, j + 1);
            let touch = lists[c][j];
            &&& before.last() == lists[c].take(j)
            &&& after.last() == lists[c].take(j + 1)
            &&& forall|p: Seq<char>|
                #![trigger touches_on(after, p)]
                #![trigger strongest_on(after, p)]
                #![trigger chats_on(after, p)]
                #![trigger mentions(after.last(), p)]
                {
                    &&& touches_on(after, p) == touches_on(before, p) + if touch.path == p {
                        weight(touch.count)
                    } else {
                        0
                    }
                    &&& strongest_on(after, p) == if touch.path == p {
                        stronger(strongest_on(before, p), touch.kind)
                    } else {
                        strongest_on(before, p)
                    }
                    &&& mentions(after.last(), p) == (mentions(before.last(), p) || touch.path == p)
                    &&& chats_on(after, p) == chats_on(before, p) + if touch.path == p && !mentions(
                        before.last(),
                        p,
                    ) {
                        1int
                    } else {
                        0
                    }
                }
            &&& paths_on(after) == if paths_on(before).contains(touch.path) {
                paths_on(before)
            } else {
                paths_on(before).push(touch.path)
            }
        }),
{
    let before = up_to(lists, c, j);
    let after = up_to(lists, c, j + 1);
    let touch = lists[c][j];
    assert(before.drop_last() =~= lists.take(c));
    assert(after.drop_last() =~= lists.take(c));
    assert(after.last().drop_last() =~= before.last());
    assert(after.last().last() == touch);
    assert forall|p: Seq<char>|
        #![trigger mentions(after.last(), p)]
        mentions(after.last(), p) == (mentions(before.last(), p) || touch.path == p) by {
        if mentions(before.last(), p) {
            let i = choose|i: int|
                0 <= i < before.last().len() && (#[trigger] before.last()[i]).path == p;
            assert(after.last()[i].path == p);
        }
        if touch.path == p {
            assert(after.last()[j].path == p);
        }
        if mentions(after.last(), p) {
            let i = choose|i: int|
                0 <= i < after.last().len() && (#[trigger] after.last()[i]).path == p;
            if i < j {
                assert(before.last()[i].path == p);
            }
        }
    }
}

/// Before its first touch, a list adds nothing.
proof fn no_touch_yet(lists: Seq<Seq<FileTouchView>>, c: int)
    requires
        0 <= c < lists.len(),
    ensures
        forall|p: Seq<char>|
            #![trigger touches_on(up_to(lists, c, 0), p)]
            #![trigger strongest_on(up_to(lists, c, 0), p)]
            #![trigger chats_on(up_to(lists, c, 0), p)]
            #![trigger mentions(up_to(lists, c, 0).last(), p)]
            {
                &&& touches_on(up_to(lists, c, 0), p) == touches_on(lists.take(c), p)
                &&& strongest_on(up_to(lists, c, 0), p) == strongest_on(lists.take(c), p)
                &&& chats_on(up_to(lists, c, 0), p) == chats_on(lists.take(c), p)
                &&& !mentions(up_to(lists, c, 0).last(), p)
            },
        paths_on(up_to(lists, c, 0)) == paths_on(lists.take(c)),
{
    assert(up_to(lists, c, 0).drop_last() =~= lists.take(c));
    assert(up_to(lists, c, 0).last() =~= seq![]);
}

/// After its last touch, a list is done.
proof fn no_touch_left(lists: Seq<Seq<FileTouchView>>, c: int)
    requires
        0 <= c < lists.len(),
    ensures
        up_to(lists, c, lists[c].len() as int) == lists.take(c + 1),
{
    assert(lists[c].take(lists[c].len() as int) =~= lists[c]);
    assert(up_to(lists, c, lists[c].len() as int) =~= lists.take(c + 1));
}

proof fn listed_paths_differ(files: Seq<FileTouchView>, before: Seq<Seq<char>>)
    requires
        before.no_duplicates(),
    ensures
        paths_in(files, before).no_duplicates(),
        forall|p: Seq<char>| #[trigger]
            paths_in(files, before).contains(p) <==> before.contains(p) || mentions(files, p),
    decreases files.len(),
{
    if files.len() == 0 {
    } else {
        let rest = files.drop_last();
        let known = paths_in(rest, before);
        let all = paths_in(files, before);
        listed_paths_differ(rest, before);
        assert forall|p: Seq<char>| #[trigger] all.contains(p) <==> before.contains(p) || mentions(
            files,
            p,
        ) by {
            if known.contains(p) {
                let i = choose|i: int| 0 <= i < known.len() && known[i] == p;
                assert(all[i] == p);
                if mentions(rest, p) {
                    let i = choose|i: int| 0 <= i < rest.len() && (#[trigger] rest[i]).path == p;
                    assert(files[i].path == p);
                }
            }
            if p == files.last().path {
                assert(files[files.len() - 1].path == p);
                if !known.contains(p) {
                    assert(all[all.len() - 1] == p);
                }
            }
            if all.contains(p) && !known.contains(p) {
                let i = choose|i: int| 0 <= i < all.len() && all[i] == p;
                if i < known.len() {
                    assert(known[i] == p);
                }
            }
            if mentions(files, p) && p != files.last().path {
                let i = choose|i: int| 0 <= i < files.len() && (#[trigger] files[i]).path == p;
                assert(rest[i].path == p);
            }
        }
    }
}

proof fn unmentioned_in(files: Seq<FileTouchView>, p: Seq<char>, before: Option<Seq<char>>)
    ensures
        touches_in(files, p) >= 0,
        mentions(files, p) ==> touches_in(files, p) >= 1,
        !mentions(files, p) ==> touches_in(files, p) == 0 && strongest_in(files, p, before)
            == before,
        mentions(files, p) ==> strongest_in(files, p, before) is Some,
        before is Some ==> strongest_in(files, p, before) is Some,
    decreases files.len(),
{
    if files.len() > 0 {
        let rest = files.drop_last();
        unmentioned_in(rest, p, before);
        if files.last().path == p {
            assert(files[files.len() - 1].path == p);
        } else if mentions(files, p) {
            let i = choose|i: int| 0 <= i < files.len() && (#[trigger] files[i]).path == p;
            assert(rest[i].path == p);
        }
        if mentions(rest, p) {
            let i = choose|i: int| 0 <= i < rest.len() && (#[trigger] rest[i]).path == p;
            assert(files[i].path == p);
        }
    }
}

/// The paths that the lists touch are listed once each, and a path that is not
/// listed is not touched.
pub proof fn every_touched_path_is_listed_once(lists: Seq<Seq<FileTouchView>>)
    ensures
        paths_on(lists).no_duplicates(),
        forall|p: Seq<char>| #[trigger]
            paths_on(lists).contains(p) <==> exists|c: int|
                0 <= c < lists.len() && mentions(#[trigger] lists[c], p),
        forall|p: Seq<char>|
            #![trigger touches_on(lists, p)]
            #![trigger chats_on(lists, p)]
            #![trigger strongest_on(lists, p)]
            {
                &&& 0 <= chats_on(lists, p) <= touches_on(lists, p)
                &&& chats_on(lists, p) <= lists.len()
                &&& paths_on(lists).contains(p) ==> chats_on(lists, p) >= 1
                    && strongest_on(lists, p) is Some
                &&& !paths_on(lists).contains(p) ==> touches_on(lists, p) == 0 && strongest_on(
                    lists,
                    p,
                ) is None
            },
    decreases lists.len(),
{
    if lists.len() > 0 {
        let rest = lists.drop_last();
        let last = lists.last();
        every_touched_path_is_listed_once(rest);
        listed_paths_differ(last, paths_on(rest));
        assert forall|p: Seq<char>| #[trigger]
            paths_on(lists).contains(p) <==> exists|c: int|
                0 <= c < lists.len() && mentions(#[trigger] lists[c], p) by {
            if mentions(last, p) {
                assert(mentions(lists[lists.len() - 1], p));
            }
            if exists|c: int| 0 <= c < rest.len() && mentions(#[trigger] rest[c], p) {
                let c = choose|c: int| 0 <= c < rest.len() && mentions(#[trigger] rest[c], p);
                assert(mentions(lists[c], p));
            }
            if exists|c: int| 0 <= c < lists.len() && mentions(#[trigger] lists[c], p) {
                let c = choose|c: int| 0 <= c < lists.len() && mentions(#[trigger] lists[c], p);
                if c < rest.len() {
                    assert(mentions(rest[c], p));
                }
            }
        }
        assert forall|p: Seq<char>|
            #![trigger touches_on(lists, p)]
            #![trigger chats_on(lists, p)]
            #![trigger strongest_on(lists, p)]
            {
                &&& 0 <= chats_on(lists, p) <= touches_on(lists, p)
                &&& chats_on(lists, p) <= lists.len()
                &&& paths_on(lists).contains(p) ==> chats_on(lists, p) >= 1
                    && strongest_on(lists, p) is Some
                &&& !paths_on(lists).contains(p) ==> touches_on(lists, p) == 0 && strongest_on(
                    lists,
                    p,
                ) is None
            } by {
            unmentioned_in(last, p, strongest_on(rest, p));
            assert(chats_on(rest, p) <= touches_on(rest, p));
            assert(paths_on(lists).contains(p) <==> paths_on(rest).contains(p) || mentions(
                last,
                p,
            ));
        }
    }
}

proof fn part_of_a_list(files: Seq<FileTouchView>, j: int, p: Seq<char>)
    requires
        0 <= j <= files.len(),
    ensures
        0 <= touches_in(files.take(j), p) <= touches_in(files, p),
    decreases files.len(),
{
    if j == files.len() {
        assert(files.take(j) =~= files);
        unmentioned_in(files, p, None);
    } else {
        assert(files.drop_last().take(j) =~= files.take(j));
        part_of_a_list(files.drop_last(), j, p);
    }
}

proof fn part_of_the_lists(lists: Seq<Seq<FileTouchView>>, n: int, p: Seq<char>)
    requires
        0 <= n <= lists.len(),
    ensures
        0 <= touches_on(lists.take(n), p) <= touches_on(lists, p),
    decreases lists.len(),
{
    if n == lists.len() {
        assert(lists.take(n) =~= lists);
        every_touched_path_is_listed_once(lists);
    } else {
        assert(lists.drop_last().take(n) =~= lists.take(n));
        part_of_the_lists(lists.drop_last(), n, p);
        unmentioned_in(lists.last(), p, None);
    }
}

/// What was counted so far is no more than there is in all.
proof fn counted_so_far(lists: Seq<Seq<FileTouchView>>, c: int, j: int, p: Seq<char>)
    requires
        0 <= c < lists.len(),
        0 <= j <= lists[c].len(),
    ensures
        touches_on(up_to(lists, c, j), p) <= touches_on(lists, p),
{
    let now = up_to(lists, c, j);
    assert(now.drop_last() =~= lists.take(c));
    part_of_a_list(lists[c], j, p);
    part_of_the_lists(lists, c + 1, p);
    assert(lists.take(c + 1).drop_last() =~= lists.take(c));
    assert(lists.take(c + 1).last() == lists[c]);
}

/// Whether `rows` hold what the lists `now` say of each path, and `seen` the last
/// list that touched it, where the last of the lists is number `c`.
spec fn tallied(
    rows: Seq<HotFile>,
    seen: Seq<usize>,
    now: Seq<Seq<FileTouchView>>,
    c: int,
) -> bool {
    &&& rows.len() == paths_on(now).len()
    &&& seen.len() == rows.len()
    &&& forall|k: int|
        0 <= k < rows.len() ==> (#[trigger] rows[k])@ == hot_row(now, paths_on(now)[k])
    &&& forall|k: int|
        0 <= k < seen.len() ==> (#[trigger] seen[k]) <= c && (seen[k] == c) == mentions(
            now.last(),
            paths_on(now)[k],
        )
}

/// Takes one touch of list `c` into the rows. Gives `false` where the path's touches
/// can no longer be counted.
fn tally_touch(
    rows: &mut Vec<HotFile>,
    seen: &mut Vec<usize>,
    touch: &FileTouch,
    c: usize,
    Ghost(lists): Ghost<Seq<Seq<FileTouchView>>>,
    Ghost(j): Ghost<int>,
) -> (r: bool)
    requires
        0 <= c < lists.len(),
        0 <= j < lists[c as int].len(),
        touch@ == lists[c as int][j],
        tallied(old(rows)@, old(seen)@, up_to(lists, c as int, j), c as int),
    ensures
        r ==> tallied(final(rows)@, final(seen)@, up_to(lists, c as int, j + 1), c as int),
        !r ==> touches_on(up_to(lists, c as int, j + 1), touch.path@) > i64::MAX,
{
    let ghost before = up_to(lists, c as int, j);
    let ghost after = up_to(lists, c as int, j + 1);
    let ghost paths = paths_on(before);
    proof {
        one_more_touch(lists, c as int, j);
        every_touched_path_is_listed_once(before);
        every_touched_path_is_listed_once(after);
    }
    let add: i64 = if touch.count > 1 {
        touch.count
    } else {
        1
    };
    let mut k: usize = 0;
    while k < rows.len() && !(rows[k].path == touch.path)
        invariant
            k <= rows.len(),
            rows@ == old(rows)@,
            seen@ == old(seen)@,
            paths == paths_on(before),
            tallied(rows@, seen@, before, c as int),
            forall|i: int| 0 <= i < k ==> paths[i] != touch.path@,
        decreases rows.len() - k,
    {
        assert(rows@[k as int]@.path == paths[k as int]);
        k = k + 1;
    }
    if k == rows.len() {
        assert(!paths.contains(touch.path@));
        rows.push(
            HotFile {
                path: touch.path.clone(),
                kind: touch.kind.clone(),
                touches: add,
                conversations: 1,
            },
        );
        seen.push(c);
        assert(rows@[k as int]@ == hot_row(after, touch.path@));
        return true;
    }
    assert(rows@[k as int]@ == hot_row(before, paths[k as int]));
    assert(paths[k as int] == touch.path@);
    assert(paths.contains(touch.path@));
    if rows[k].touches > i64::MAX - add {
        return false;
    }
    let stronger_kind: bool = rank(touch.kind.as_str()) > rank(rows[k].kind.as_str());
    let first_in_chat: bool = seen[k] != c;
    assert(chats_on(after, touch.path@) <= touches_on(after, touch.path@));
    rows[k].touches = rows[k].touches + add;
    if first_in_chat {
        rows[k].conversations = rows[k].conversations + 1;
        seen[k] = c;
    }
    if stronger_kind {
        rows[k].kind = touch.kind.clone();
    }
    assert(rows@[k as int]@ == hot_row(after, touch.path@));
    true
}

/// What the conversations say of each path they touch, or `None` where the touches
/// of one cannot be counted.
fn tally(details: &[ConversationDetail]) -> (r: Option<Vec<HotFile>>)
    ensures
        match r {
            Some(rows) => touches_fit(file_lists(views(details@))) && views(rows@) == hot_rows(
                file_lists(views(details@)),
            ),
            None => !touches_fit(file_lists(views(details@))),
        },
{
    let ghost lists = file_lists(views(details@));
    let mut rows: Vec<HotFile> = Vec::new();
    let mut seen: Vec<usize> = Vec::new();
    let mut c: usize = 0;
    assert(lists.take(0) =~= seq![]);
    while c < details.len()
        invariant
            c <= details.len(),
            lists == file_lists(views(details@)),
            rows@.len() == paths_on(lists.take(c as int)).len(),
            seen@.len() == rows@.len(),
            forall|k: int|
                0 <= k < rows@.len() ==> (#[trigger] rows@[k])@ == hot_row(
                    lists.take(c as int),
                    paths_on(lists.take(c as int))[k],
                ),
            forall|k: int| 0 <= k < seen@.len() ==> (#[trigger] seen@[k]) < c,
        decreases details.len() - c,
    {
        let files: &Vec<FileTouch> = &details[c].files;
        assert(lists[c as int] == views(files@));
        let mut j: usize = 0;
        proof {
            no_touch_yet(lists, c as int);
        }
        assert(tallied(rows@, seen@, up_to(lists, c as int, 0), c as int));
        while j < files.len()
            invariant
                c < details.len(),
                j <= files.len(),
                lists == file_lists(views(details@)),
                lists[c as int] == views(files@),
                tallied(rows@, seen@, up_to(lists, c as int, j as int), c as int),
            decreases files.len() - j,
        {
            if !tally_touch(&mut rows, &mut seen, &files[j], c, Ghost(lists), Ghost(j as int)) {
                proof {
                    counted_so_far(lists, c as int, j + 1, files@[j as int].path@);
                }
                return None;
            }
            j = j + 1;
        }
        proof {
            no_touch_left(lists, c as int);
        }
        c = c + 1;
    }
    proof {
        assert(lists.take(c as int) =~= lists);
        assert(views(rows@) =~= hot_rows(lists));
        every_touched_path_is_listed_once(lists);
        assert forall|path: Seq<char>| #[trigger] touches_on(lists, path) <= i64::MAX by {
            if paths_on(lists).contains(path) {
                let k = choose|k: int| 0 <= k < paths_on(lists).len() && paths_on(lists)[k] == path;
                assert(rows@[k]@ == hot_row(lists, path));
            }
        }
    }
    Some(rows)
}

/// Whether the touches of every path can be counted in 64 bits.
pub fn touches_in_range(details: &[ConversationDetail]) -> (r: bool)
    ensures
        r == touches_fit(file_lists(views(details@))),
{
    tally(details).is_some()
}

/// More conversations first, then more touches, then the order of the paths.
pub open spec fn hotter(a: HotFileView, b: HotFileView) -> bool {
    ||| a.conversations > b.conversations
    ||| a.conversations == b.conversations && a.touches > b.touches
    ||| a.conversations == b.conversations && a.touches == b.touches && precedes(a.path, b.path)
}

impl Ranked for HotFile {
    open spec fn ahead(a: HotFileView, b: HotFileView) -> bool {
        hotter(a, b)
    }

    fn is_ahead(&self, other: &Self) -> (r: bool) {
        if self.conversations != other.conversations {
            self.conversations > other.conversations
        } else if self.touches != other.touches {
            self.touches > other.touches
        } else {
            text_precedes(self.path.as_str(), other.path.as_str())
        }
    }
}

/// The hottest files of several conversations, at most `limit` of them. Each element
/// of `details` stands for one conversation, however often it touches a path.
pub fn hot_files(details: &[ConversationDetail], limit: usize) -> (r: Vec<HotFile>)
    requires
        touches_fit(file_lists(views(details@))),
    ensures
        views(r@) == first_rows(
            arranged::<HotFile>(hot_rows(file_lists(views(details@)))),
            limit as nat,
        ),
        forall|i: int, j: int|
            0 <= i < j < r@.len() ==> (#[trigger] r@[i]).conversations > (
            #[trigger] r@[j]).conversations || (r@[i].conversations == r@[j].conversations && (
            r@[i].touches > r@[j].touches || (r@[i].touches == r@[j].touches && precedes(
                r@[i].path@,
                r@[j].path@,
            )))),
{
    let rows: Vec<HotFile> = match tally(details) {
        Some(rows) => rows,
        None => Vec::new(),
    };
    let mut out: Vec<HotFile> = arrange(rows);
    let ghost all = out@;
    out.truncate(limit);
    assert(views(out@) =~= first_rows(views(all), limit as nat));
    proof {
        hot_files_are_ordered_by_conversations_touches_and_path(
            file_lists(views(details@)),
            limit as nat,
        );
        assert forall|i: int, j: int| 0 <= i < j < out@.len() implies (
        #[trigger] out@[i]).conversations > (#[trigger] out@[j]).conversations || (
        out@[i].conversations == out@[j].conversations && (out@[i].touches > out@[j].touches || (
        out@[i].touches == out@[j].touches && precedes(out@[i].path@, out@[j].path@)))) by {
            assert(views(out@)[i] == out@[i]@ && views(out@)[j] == out@[j]@);
        }
    }
    out
}

/// The order of hot files is one.
pub proof fn hotter_is_an_order()
    ensures
        is_an_order::<HotFile>(),
{
    assert forall|a: HotFileView, b: HotFileView| #[trigger]
        HotFile::ahead(a, b) implies !HotFile::ahead(b, a) by {
        if precedes(a.path, b.path) && precedes(b.path, a.path) {
            precedes_is_transitive(a.path, b.path, a.path);
            precedes_is_irreflexive(a.path);
        }
    }
    assert forall|a: HotFileView, b: HotFileView, c: HotFileView|
        !#[trigger] HotFile::ahead(a, b) && !#[trigger] HotFile::ahead(
            b,
            c,
        ) implies !HotFile::ahead(a, c) by {
        if HotFile::ahead(a, c) {
            assert(a.conversations == b.conversations == c.conversations);
            assert(a.touches == b.touches == c.touches);
            if a.path == b.path {
            } else {
                precedes_is_total(a.path, b.path);
                if b.path != c.path {
                    precedes_is_total(b.path, c.path);
                    precedes_is_transitive(c.path, b.path, a.path);
                    precedes_is_transitive(a.path, c.path, a.path);
                    precedes_is_irreflexive(a.path);
                } else {
                    precedes_is_transitive(a.path, c.path, a.path);
                    precedes_is_irreflexive(a.path);
                }
            }
        }
    }
}

/// The hottest files come out hottest first.
pub proof fn hot_files_come_hottest_first(lists: Seq<Seq<FileTouchView>>, limit: nat)
    ensures
        in_order::<HotFile>(first_rows(arranged::<HotFile>(hot_rows(lists)), limit)),
{
    hotter_is_an_order();
    arranged_rows_are_in_order::<HotFile>(hot_rows(lists));
}

/// The same rows always come out in the same order, in whatever order they were
/// gathered: a list that reshuffled between refreshes would read as churn.
pub proof fn the_same_hot_files_render_in_the_same_order(a: Seq<HotFileView>, b: Seq<HotFileView>)
    requires
        a.to_multiset() == b.to_multiset(),
        forall|i: int, j: int|
            0 <= i < j < a.len() ==> (#[trigger] a[i]).path != (#[trigger] a[j]).path,
    ensures
        arranged::<HotFile>(a) == arranged::<HotFile>(b),
{
    let x = arranged::<HotFile>(a);
    let y = arranged::<HotFile>(b);
    hotter_is_an_order();
    arranged_rows_are_in_order::<HotFile>(a);
    arranged_rows_are_in_order::<HotFile>(b);
    arranging_keeps_the_rows::<HotFile>(a);
    arranging_keeps_the_rows::<HotFile>(b);
    assert forall|i: int, j: int|
        0 <= i < x.len() && 0 <= j < x.len() && x[i] != x[j] implies HotFile::ahead(
        #[trigger] x[i],
        #[trigger] x[j],
    ) || HotFile::ahead(x[j], x[i]) by {
        to_multiset_contains(x, x[i]);
        to_multiset_contains(x, x[j]);
        to_multiset_contains(a, x[i]);
        to_multiset_contains(a, x[j]);
        assert(x.contains(x[i]) && x.contains(x[j]));
        let k = choose|k: int| 0 <= k < a.len() && a[k] == x[i];
        let l = choose|l: int| 0 <= l < a.len() && a[l] == x[j];
        if k < l {
            assert(a[k].path != a[l].path);
        } else {
            assert(a[l].path != a[k].path);
        }
        precedes_is_total(x[i].path, x[j].path);
    }
    one_order_only::<HotFile>(x, y);
}

/// The row of a path that is touched at all shows the strongest of its touches:
/// one of them has the kind shown, and none has a stronger kind.
pub proof fn the_strongest_touch_wins(lists: Seq<Seq<FileTouchView>>, path: Seq<char>)
    requires
        paths_on(lists).contains(path),
    ensures
        exists|c: int, i: int|
            0 <= c < lists.len() && 0 <= i < lists[c].len() && (#[trigger] lists[c][i]).path == path
                && lists[c][i].kind == hot_row(lists, path).kind,
        forall|c: int, i: int|
            0 <= c < lists.len() && 0 <= i < lists[c].len() && (#[trigger] lists[c][i]).path == path
                ==> touch_rank(lists[c][i].kind) <= touch_rank(hot_row(lists, path).kind),
{
    every_touched_path_is_listed_once(lists);
    strongest_of_the_lists(lists, path);
}

proof fn strongest_of_a_list(
    files: Seq<FileTouchView>,
    path: Seq<char>,
    before: Option<Seq<char>>,
)
    ensures
        match strongest_in(files, path, before) {
            Some(k) => {
                &&& before == Some(k) || exists|i: int|
                    0 <= i < files.len() && (#[trigger] files[i]).path == path && files[i].kind == k
                &&& forall|i: int|
                    0 <= i < files.len() && (#[trigger] files[i]).path == path ==> touch_rank(
                        files[i].kind,
                    ) <= touch_rank(k)
                &&& before matches Some(b) ==> touch_rank(b) <= touch_rank(k)
            },
            None => before is None && !mentions(files, path),
        },
    decreases files.len(),
{
    unmentioned_in(files, path, before);
    if files.len() > 0 {
        let rest = files.drop_last();
        strongest_of_a_list(rest, path, before);
        let last = files[files.len() - 1];
        if let Some(k) = strongest_in(files, path, before) {
            assert forall|i: int|
                0 <= i < files.len() && (#[trigger] files[i]).path == path implies touch_rank(
                files[i].kind,
            ) <= touch_rank(k) by {
                if i < rest.len() {
                    assert(rest[i].path == path);
                }
            }
            if before != Some(k) && !(last.path == path && last.kind == k) {
                let i = choose|i: int|
                    0 <= i < rest.len() && (#[trigger] rest[i]).path == path && rest[i].kind == k;
                assert(files[i].path == path && files[i].kind == k);
            }
        }
    }
}

proof fn strongest_of_the_lists(lists: Seq<Seq<FileTouchView>>, path: Seq<char>)
    ensures
        match strongest_on(lists, path) {
            Some(k) => {
                &&& exists|c: int, i: int|
                    0 <= c < lists.len() && 0 <= i < lists[c].len() && (
                    #[trigger] lists[c][i]).path == path && lists[c][i].kind == k
                &&& forall|c: int, i: int|
                    0 <= c < lists.len() && 0 <= i < lists[c].len() && (
                    #[trigger] lists[c][i]).path == path ==> touch_rank(lists[c][i].kind)
                        <= touch_rank(k)
            },
            None => forall|c: int|
                0 <= c < lists.len() ==> !mentions(#[trigger] lists[c], path),
        },
    decreases lists.len(),
{
    if lists.len() > 0 {
        let rest = lists.drop_last();
        let n = lists.len() - 1;
        let before = strongest_on(rest, path);
        strongest_of_the_lists(rest, path);
        strongest_of_a_list(lists[n], path, before);
        match strongest_on(lists, path) {
            Some(k) => {
                if before == Some(k) {
                    let (c, i) = choose|c: int, i: int|
                        0 <= c < rest.len() && 0 <= i < rest[c].len() && (
                        #[trigger] rest[c][i]).path == path && rest[c][i].kind == k;
                    assert(lists[c][i].path == path && lists[c][i].kind == k);
                } else {
                    let i = choose|i: int|
                        0 <= i < lists[n].len() && (#[trigger] lists[n][i]).path == path
                            && lists[n][i].kind == k;
                    assert(lists[n][i].path == path && lists[n][i].kind == k);
                }
                assert forall|c: int, i: int|
                    0 <= c < lists.len() && 0 <= i < lists[c].len() && (
                    #[trigger] lists[c][i]).path == path implies touch_rank(lists[c][i].kind)
                    <= touch_rank(k) by {
                    if c < n {
                        assert(rest[c][i].path == path);
                        if before is None {
                            assert(mentions(rest[c], path));
                        }
                    }
                }
            },
            None => {
                assert forall|c: int| 0 <= c < lists.len() implies !mentions(
                    #[trigger] lists[c],
                    path,
                ) by {
                    if c < n {
                        assert(!mentions(rest[c], path));
                    }
                }
            },
        }
    }
}

/// How often some touches say that a path was touched: each as often as it counts, and at
/// least once.
pub open spec fn counted(files: Seq<FileTouchView>, path: Seq<char>) -> int {
    total_of(
        files,
        |t: FileTouchView|
            if t.path != path {
                0
            } else if t.count >= 1 {
                t.count as int
            } else {
                1
            },
    )
}

/// The row of a path adds up its touches over all conversations, and counts the
/// conversations that touched it, each once.
pub proof fn a_hot_file_adds_its_touches_up(lists: Seq<Seq<FileTouchView>>, path: Seq<char>)
    ensures
        hot_row(lists, path).path == path,
        hot_row(lists, path).touches == total_of(
            lists,
            |files: Seq<FileTouchView>| counted(files, path),
        ),
        hot_row(lists, path).conversations == total_of(
            lists,
            |files: Seq<FileTouchView>|
                if exists|i: int| 0 <= i < files.len() && (#[trigger] files[i]).path == path {
                    1
                } else {
                    0
                },
        ),
    decreases lists.len(),
{
    if lists.len() > 0 {
        a_hot_file_adds_its_touches_up(lists.drop_last(), path);
        touches_are_counted(lists.last(), path);
    }
}

proof fn touches_are_counted(files: Seq<FileTouchView>, path: Seq<char>)
    ensures
        touches_in(files, path) == counted(files, path),
    decreases files.len(),
{
    if files.len() > 0 {
        touches_are_counted(files.drop_last(), path);
    }
}

/// Whether one of the conversations touched a path in some way.
pub open spec fn was_touched(
    lists: Seq<Seq<FileTouchView>>,
    path: Seq<char>,
    kind: Seq<char>,
) -> bool {
    exists|c: int, i: int|
        0 <= c < lists.len() && 0 <= i < lists[c].len() && (#[trigger] lists[c][i]).path == path
            && lists[c][i].kind == kind
}

/// Whether a touch is the first of its path.
pub open spec fn is_first_touch(
    lists: Seq<Seq<FileTouchView>>,
    path: Seq<char>,
    c: int,
    i: int,
) -> bool {
    &&& 0 <= c < lists.len()
    &&& 0 <= i < lists[c].len()
    &&& lists[c][i].path == path
    &&& forall|b: int, j: int|
        0 <= b < lists.len() && 0 <= j < lists[b].len() && (b < c || b == c && j < i) ==> (
        #[trigger] lists[b][j]).path != path
}

/// A path that was created shows as created, whatever else was done to it; one that was
/// edited but not created shows as edited; any other shows what was done to it first.
pub proof fn a_write_is_shown_before_a_read(lists: Seq<Seq<FileTouchView>>, path: Seq<char>)
    requires
        paths_on(lists).contains(path),
    ensures
        ({
            let kind = hot_row(lists, path).kind;
            &&& was_touched(lists, path, "create"@) ==> kind == "create"@
            &&& was_touched(lists, path, "edit"@) && !was_touched(lists, path, "create"@) ==> kind
                == "edit"@
            &&& !was_touched(lists, path, "edit"@) && !was_touched(lists, path, "create"@) ==> (
            exists|c: int, i: int|
                #[trigger] is_first_touch(lists, path, c, i) && lists[c][i].kind == kind)
        }),
{
    let kind = hot_row(lists, path).kind;
    reveal_strlit("create");
    reveal_strlit("edit");
    the_strongest_touch_wins(lists, path);
    every_touched_path_is_listed_once(lists);
    if was_touched(lists, path, "create"@) {
        let (c, i) = choose|c: int, i: int|
            0 <= c < lists.len() && 0 <= i < lists[c].len() && (#[trigger] lists[c][i]).path == path
                && lists[c][i].kind == "create"@;
        assert(touch_rank(lists[c][i].kind) <= touch_rank(kind));
    } else if was_touched(lists, path, "edit"@) {
        let (c, i) = choose|c: int, i: int|
            0 <= c < lists.len() && 0 <= i < lists[c].len() && (#[trigger] lists[c][i]).path == path
                && lists[c][i].kind == "edit"@;
        assert(touch_rank(lists[c][i].kind) <= touch_rank(kind));
        let (b, j) = choose|b: int, j: int|
            0 <= b < lists.len() && 0 <= j < lists[b].len() && (#[trigger] lists[b][j]).path == path
                && lists[b][j].kind == kind;
        assert(lists[b][j].kind != "create"@);
    } else {
        assert forall|c: int, i: int|
            0 <= c < lists.len() && 0 <= i < lists[c].len() && (#[trigger] lists[c][i]).path
                == path implies touch_rank(lists[c][i].kind) == 0 by {
            assert(lists[c][i].kind != "create"@ && lists[c][i].kind != "edit"@);
        }
        the_first_touch_stays(lists, path);
    }
}

proof fn the_first_kind_stays(files: Seq<FileTouchView>, path: Seq<char>, k: Seq<char>)
    requires
        forall|i: int|
            0 <= i < files.len() && (#[trigger] files[i]).path == path ==> touch_rank(files[i].kind)
                == 0,
    ensures
        strongest_in(files, path, Some(k)) == Some(k),
    decreases files.len(),
{
    if files.len() > 0 {
        let rest = files.drop_last();
        assert forall|i: int| 0 <= i < rest.len() && (#[trigger] rest[i]).path
            == path implies touch_rank(rest[i].kind) == 0 by {
            assert(files[i].path == path);
        }
        the_first_kind_stays(rest, path, k);
        if files.last().path == path {
            assert(touch_rank(files[files.len() - 1].kind) == 0);
        }
    }
}

proof fn the_first_of_a_list_stays(files: Seq<FileTouchView>, path: Seq<char>)
    requires
        mentions(files, path),
        forall|i: int|
            0 <= i < files.len() && (#[trigger] files[i]).path == path ==> touch_rank(files[i].kind)
                == 0,
    ensures
        exists|i: int|
            0 <= i < files.len() && (#[trigger] files[i]).path == path && strongest_in(
                files,
                path,
                None,
            ) == Some(files[i].kind) && (forall|j: int| 0 <= j < i ==> files[j].path != path),
    decreases files.len(),
{
    let rest = files.drop_last();
    assert forall|i: int| 0 <= i < rest.len() && (#[trigger] rest[i]).path
        == path implies touch_rank(rest[i].kind) == 0 by {
        assert(files[i].path == path);
    }
    unmentioned_in(rest, path, None);
    if mentions(rest, path) {
        the_first_of_a_list_stays(rest, path);
        let i = choose|i: int|
            0 <= i < rest.len() && (#[trigger] rest[i]).path == path && strongest_in(
                rest,
                path,
                None,
            ) == Some(rest[i].kind) && (forall|j: int| 0 <= j < i ==> rest[j].path != path);
        assert(files[i].path == path);
        assert forall|j: int| 0 <= j < i implies files[j].path != path by {
            assert(rest[j].path != path);
        }
        if files.last().path == path {
            assert(touch_rank(files[files.len() - 1].kind) == 0);
        }
    } else {
        let n = files.len() - 1;
        let m = choose|m: int| 0 <= m < files.len() && (#[trigger] files[m]).path == path;
        if m < n {
            assert(rest[m].path == path);
        }
        assert(files[n].path == path);
        assert forall|j: int| 0 <= j < n implies files[j].path != path by {
            assert(rest[j].path != path);
        }
    }
}

proof fn the_first_touch_stays(lists: Seq<Seq<FileTouchView>>, path: Seq<char>)
    requires
        strongest_on(lists, path) is Some,
        forall|c: int, i: int|
            0 <= c < lists.len() && 0 <= i < lists[c].len() && (#[trigger] lists[c][i]).path == path
                ==> touch_rank(lists[c][i].kind) == 0,
    ensures
        exists|c: int, i: int|
            #[trigger] is_first_touch(lists, path, c, i) && strongest_on(lists, path) == Some(
                lists[c][i].kind,
            ),
    decreases lists.len(),
{
    let rest = lists.drop_last();
    let n = lists.len() - 1;
    let last = lists[n];
    assert forall|c: int, i: int|
        0 <= c < rest.len() && 0 <= i < rest[c].len() && (#[trigger] rest[c][i]).path
            == path implies touch_rank(rest[c][i].kind) == 0 by {
        assert(lists[c][i].path == path);
    }
    assert forall|i: int| 0 <= i < last.len() && (#[trigger] last[i]).path
        == path implies touch_rank(last[i].kind) == 0 by {
        assert(lists[n][i].path == path);
    }
    match strongest_on(rest, path) {
        Some(k) => {
            the_first_touch_stays(rest, path);
            let (c, i) = choose|c: int, i: int|
                #[trigger] is_first_touch(rest, path, c, i) && strongest_on(rest, path) == Some(
                    rest[c][i].kind,
                );
            the_first_kind_stays(last, path, k);
            assert forall|b: int, j: int|
                0 <= b < lists.len() && 0 <= j < lists[b].len() && (b < c || b == c && j
                    < i) implies (#[trigger] lists[b][j]).path != path by {
                assert(rest[b][j].path != path);
            }
            assert(is_first_touch(lists, path, c, i));
        },
        None => {
            unmentioned_in(last, path, None);
            strongest_of_the_lists(rest, path);
            the_first_of_a_list_stays(last, path);
            let i = choose|i: int|
                0 <= i < last.len() && (#[trigger] last[i]).path == path && strongest_in(
                    last,
                    path,
                    None,
                ) == Some(last[i].kind) && (forall|j: int| 0 <= j < i ==> last[j].path != path);
            assert forall|b: int, j: int|
                0 <= b < lists.len() && 0 <= j < lists[b].len() && (b < n || b == n && j
                    < i) implies (#[trigger] lists[b][j]).path != path by {
                if b < n {
                    assert(!mentions(rest[b], path));
                    assert(rest[b][j] == lists[b][j]);
                }
            }
            assert(is_first_touch(lists, path, n, i));
        },
    }
}

/// Of two files on the list, the earlier was touched by more conversations; where as many
/// touched both, more often; and where these are equal too, its path comes first.
pub proof fn hot_files_are_ordered_by_conversations_touches_and_path(
    lists: Seq<Seq<FileTouchView>>,
    limit: nat,
)
    ensures
        ({
            let r = first_rows(arranged::<HotFile>(hot_rows(lists)), limit);
            forall|i: int, j: int|
                0 <= i < j < r.len() ==> (#[trigger] r[i]).conversations > (
                #[trigger] r[j]).conversations || (r[i].conversations == r[j].conversations && (
                r[i].touches > r[j].touches || (r[i].touches == r[j].touches && precedes(
                    r[i].path,
                    r[j].path,
                ))))
        }),
{
    let rows = hot_rows(lists);
    let all = arranged::<HotFile>(rows);
    hotter_is_an_order();
    arranged_rows_are_in_order::<HotFile>(rows);
    arranged_paths_differ(lists);
    assert forall|i: int, j: int| 0 <= i < j < all.len() implies (#[trigger] all[i]).conversations
        > (#[trigger] all[j]).conversations || (all[i].conversations == all[j].conversations && (
    all[i].touches > all[j].touches || (all[i].touches == all[j].touches && precedes(
        all[i].path,
        all[j].path,
    )))) by {
        assert(!HotFile::ahead(all[j], all[i]));
        assert(all[i].path != all[j].path);
        precedes_is_total(all[i].path, all[j].path);
    }
}

/// No two rows are of one path.
proof fn arranged_paths_differ(lists: Seq<Seq<FileTouchView>>)
    ensures
        forall|i: int, j: int|
            0 <= i < j < arranged::<HotFile>(hot_rows(lists)).len() ==> (#[trigger] arranged::<
                HotFile,
            >(hot_rows(lists))[i]).path != (#[trigger] arranged::<HotFile>(
                hot_rows(lists),
            )[j]).path,
        forall|i: int|
            0 <= i < arranged::<HotFile>(hot_rows(lists)).len() ==> {
                let row = #[trigger] arranged::<HotFile>(hot_rows(lists))[i];
                paths_on(lists).contains(row.path) && row == hot_row(lists, row.path)
            },
{
    let rows = hot_rows(lists);
    let all = arranged::<HotFile>(rows);
    every_touched_path_is_listed_once(lists);
    assert(rows.no_duplicates()) by {
        assert forall|i: int, j: int| 0 <= i < rows.len() && 0 <= j < rows.len() && i
            != j implies rows[i] != rows[j] by {
            assert(paths_on(lists)[i] != paths_on(lists)[j]);
        }
    }
    arranged_rows_are_the_same_rows::<HotFile>(rows);
    assert forall|i: int| 0 <= i < all.len() implies {
        let row = #[trigger] all[i];
        paths_on(lists).contains(row.path) && row == hot_row(lists, row.path)
    } by {
        assert(all.contains(all[i]));
        let k = choose|k: int| 0 <= k < rows.len() && rows[k] == all[i];
        assert(paths_on(lists)[k] == all[i].path);
    }
    assert forall|i: int, j: int| 0 <= i < j < all.len() implies (#[trigger] all[i]).path != (
    #[trigger] all[j]).path by {
        assert(all[i] != all[j]);
    }
}

/// Each row of the list is that of its own path, which some conversation touched, and a
/// touched path that is not on the list gave way to the limit: as many files as it says are
/// there, and each is hotter.
pub proof fn the_hottest_files_are_on_the_list(lists: Seq<Seq<FileTouchView>>, limit: nat)
    ensures
        ({
            let r = first_rows(arranged::<HotFile>(hot_rows(lists)), limit);
            &&& r.len() <= limit
            &&& forall|k: int|
                0 <= k < r.len() ==> #[trigger] r[k] == hot_row(lists, r[k].path) && (exists|
                    c: int,
                    i: int,
                |
                    0 <= c < lists.len() && 0 <= i < lists[c].len() && (
                    #[trigger] lists[c][i]).path == r[k].path)
            &&& forall|k: int, l: int|
                0 <= k < l < r.len() ==> (#[trigger] r[k]).path != (#[trigger] r[l]).path
            &&& forall|c: int, i: int|
                0 <= c < lists.len() && 0 <= i < lists[c].len() ==> {
                    let row = hot_row(lists, (#[trigger] lists[c][i]).path);
                    r.contains(row) || (r.len() == limit && forall|k: int|
                        0 <= k < r.len() ==> (#[trigger] r[k]).conversations > row.conversations
                            || (r[k].conversations == row.conversations && (r[k].touches
                            > row.touches || (r[k].touches == row.touches && precedes(
                            r[k].path,
                            row.path,
                        )))))
                }
        }),
{
    let rows = hot_rows(lists);
    let all = arranged::<HotFile>(rows);
    let r = first_rows(all, limit);
    every_touched_path_is_listed_once(lists);
    arranged_paths_differ(lists);
    arranged_rows_are_the_same_rows::<HotFile>(rows);
    let whole = first_rows(all, all.len());
    assert(whole == all);
    hot_files_are_ordered_by_conversations_touches_and_path(lists, all.len());
    assert forall|k: int| 0 <= k < r.len() implies #[trigger] r[k] == hot_row(lists, r[k].path) && (
    exists|c: int, i: int|
        0 <= c < lists.len() && 0 <= i < lists[c].len() && (#[trigger] lists[c][i]).path
            == r[k].path) by {
        assert(r[k] == all[k]);
        let p = r[k].path;
        assert(paths_on(lists).contains(p));
        let c = choose|c: int| 0 <= c < lists.len() && mentions(#[trigger] lists[c], p);
        let i = choose|i: int| 0 <= i < lists[c].len() && (#[trigger] lists[c][i]).path == p;
        assert(lists[c][i].path == p);
    }
    assert forall|k: int, l: int| 0 <= k < l < r.len() implies (#[trigger] r[k]).path != (
    #[trigger] r[l]).path by {
        assert(r[k] == all[k] && r[l] == all[l]);
    }
    assert forall|c: int, i: int| 0 <= c < lists.len() && 0 <= i < lists[c].len() implies {
        let row = hot_row(lists, (#[trigger] lists[c][i]).path);
        r.contains(row) || (r.len() == limit && forall|k: int|
            0 <= k < r.len() ==> (#[trigger] r[k]).conversations > row.conversations || (
            r[k].conversations == row.conversations && (r[k].touches > row.touches || (r[k].touches
                == row.touches && precedes(r[k].path, row.path)))))
    } by {
        let p = lists[c][i].path;
        let row = hot_row(lists, p);
        assert(mentions(lists[c], p));
        assert(paths_on(lists).contains(p));
        let n = choose|n: int| 0 <= n < paths_on(lists).len() && paths_on(lists)[n] == p;
        assert(rows[n] == row);
        assert(rows.contains(row));
        assert(all.contains(row));
        let m = choose|m: int| 0 <= m < all.len() && all[m] == row;
        if m < r.len() {
            assert(r[m] == row);
        } else {
            assert forall|k: int| 0 <= k < r.len() implies (#[trigger] r[k]).conversations
                > row.conversations || (r[k].conversations == row.conversations && (r[k].touches
                > row.touches || (r[k].touches == row.touches && precedes(
                r[k].path,
                row.path,
            )))) by {
                assert(r[k] == all[k]);
                assert(whole[k].conversations >= whole[m].conversations);
            }
        }
    }
}

/// The touches of every path can be counted where no path's touches add up to more than 64
/// bits hold.
pub proof fn touches_fit_where_they_add_up(lists: Seq<Seq<FileTouchView>>)
    ensures
        touches_fit(lists) <==> forall|path: Seq<char>| #[trigger]
            hot_row(lists, path).touches <= i64::MAX,
{
    if touches_fit(lists) {
        assert forall|path: Seq<char>| #[trigger] hot_row(lists, path).touches <= i64::MAX by {
            assert(touches_on(lists, path) <= i64::MAX);
        }
    } else {
        let path = choose|path: Seq<char>| !(#[trigger] touches_on(lists, path) <= i64::MAX);
        assert(hot_row(lists, path).touches > i64::MAX);
    }
}

} // verus!
