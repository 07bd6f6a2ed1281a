//! The catalog: the activities that can be tracked, kept as a flat list with
//! the built-in idle activity at its end, and its file of one line per activity.
use vstd::prelude::*;

use crate::entry::{ActivityEntry, ActivityStart, EntryView, StartView};
use crate::text::{lines_of, split_lines, split_on, split_text, LineError};
use crate::timestamp::Timestamp;
use crate::trackable::{
    activity_line, description_text, full_path_of, idle_view, key_of, read_activity, views_of,
    Activity, ActivityView, ParseActivityErr,
};

verus! {

/// Why a catalog change or lookup failed.
#[derive(Clone, Copy, Debug, PartialEq, Eq, Structural)]
pub enum CatalogError {
    /// An activity with that path already exists.
    Duplicate,
    /// No activity has that path.
    NotFound,
    /// The built-in idle activity cannot be removed.
    Builtin,
}

/// The segments of a path written with `/`.
pub open spec fn path_key(path: Seq<char>) -> Seq<Seq<char>> {
    split_on(path, '/')
}

/// The first activity at `key`, or -1.
pub open spec fn find_index(list: Seq<ActivityView>, key: Seq<Seq<char>>) -> int
    decreases list.len(),
{
    if list.len() == 0 {
        -1
    } else {
        let i = find_index(list.drop_last(), key);
        if i >= 0 {
            i
        } else if key_of(list.last()) == key {
            list.len() - 1
        } else {
            -1
        }
    }
}

/// Some activity of the list is at `key`.
pub open spec fn listed(list: Seq<ActivityView>, key: Seq<Seq<char>>) -> bool {
    exists|i: int| 0 <= i < list.len() && key_of(#[trigger] list[i]) == key
}

/// Adding an activity: refused where its path is taken.
pub open spec fn catalog_add(list: Seq<ActivityView>, a: ActivityView) -> Result<
    Seq<ActivityView>,
    CatalogError,
> {
    if listed(list, key_of(a)) {
        Err(CatalogError::Duplicate)
    } else {
        Ok(list.push(a))
    }
}

/// The activities that are not at `key`.
pub open spec fn not_at(key: Seq<Seq<char>>) -> spec_fn(ActivityView) -> bool {
    |a: ActivityView| key_of(a) != key
}

/// Removing every activity at `key`: refused for the idle activity, and where
/// there is none.
pub open spec fn catalog_remove(list: Seq<ActivityView>, key: Seq<Seq<char>>) -> Result<
    Seq<ActivityView>,
    CatalogError,
> {
    if key == key_of(idle_view()) {
        Err(CatalogError::Builtin)
    } else if !listed(list, key) {
        Err(CatalogError::NotFound)
    } else {
        Ok(list.filter(not_at(key)))
    }
}

/// Looking up the activity at `key`.
pub open spec fn catalog_resolve(list: Seq<ActivityView>, key: Seq<Seq<char>>) -> Result<
    ActivityView,
    CatalogError,
> {
    if listed(list, key) {
        Ok(list[find_index(list, key)])
    } else {
        Err(CatalogError::NotFound)
    }
}

proof fn lemma_find_index(list: Seq<ActivityView>, key: Seq<Seq<char>>)
    ensures
        -1 <= find_index(list, key) < list.len(),
        find_index(list, key) >= 0 <==> listed(list, key),
        find_index(list, key) >= 0 ==> key_of(list[find_index(list, key)]) == key,
        forall|j: int| 0 <= j < find_index(list, key) ==> key_of(#[trigger] list[j]) != key,
    decreases list.len(),
{
    if list.len() > 0 {
        let pre = list.drop_last();
        lemma_find_index(pre, key);
        if listed(list, key) && find_index(pre, key) < 0 {
            let i = choose|i: int| 0 <= i < list.len() && key_of(#[trigger] list[i]) == key;
            if i < pre.len() {
                assert(key_of(pre[i]) == key);
            }
        }
        if listed(pre, key) {
            let i = choose|i: int| 0 <= i < pre.len() && key_of(#[trigger] pre[i]) == key;
            assert(key_of(list[i]) == key);
        }
        assert forall|j: int| 0 <= j < find_index(list, key) implies key_of(#[trigger] list[j])
            != key by {
            assert(list[j] == pre[j]);
        }
    }
}

/// The index of the first activity of `list` at `segs`.
fn position(list: &Vec<Activity>, segs: &Vec<String>) -> (r: Option<usize>)
    ensures
        match r {
            Some(i) => i as int == find_index(views_of(list@), segs@.map_values(|s: String| s@)),
            None => !listed(views_of(list@), segs@.map_values(|s: String| s@)),
        },
{
    let ghost v = views_of(list@);
    let ghost key = segs@.map_values(|s: String| s@);
    let mut i: usize = 0;
    while i < list.len()
        invariant
            v == views_of(list@),
            key == segs@.map_values(|s: String| s@),
            i <= list@.len(),
            forall|j: int| 0 <= j < i ==> key_of(#[trigger] v[j]) != key,
        decreases list@.len() - i,
    {
        if list[i].is_at(segs) {
            proof {
                lemma_find_index(v, key);
                assert(key_of(v[i as int]) == key);
                assert(listed(v, key));
                let f = find_index(v, key);
                if f < i {
                    assert(key_of(v[f]) != key);
                }
                if f > i {
                    assert(key_of(v[i as int]) != key);
                }
            }
            return Some(i);
        }
        proof {
            assert(key_of(v[i as int]) != key);
        }
        i = i + 1;
    }
    proof {
        if listed(v, key) {
            let j = choose|j: int| 0 <= j < v.len() && key_of(#[trigger] v[j]) == key;
        }
    }
    None
}

/// The activity at `path`, its segments written with `/`.
pub fn resolve<'a>(list: &'a Vec<Activity>, path: &str) -> (r: Result<&'a Activity, CatalogError>)
    ensures
        match r {
            Ok(a) => catalog_resolve(views_of(list@), path_key(path@)) == Ok::<
                ActivityView,
                CatalogError,
            >(a@),
            Err(e) => catalog_resolve(views_of(list@), path_key(path@)) == Err::<
                ActivityView,
                CatalogError,
            >(e),
        },
{
    let segs = split_text(path, '/');
    match position(list, &segs) {
        Some(i) => {
            proof {
                lemma_find_index(views_of(list@), path_key(path@));
            }
            Ok(&list[i])
        },
        None => Err(CatalogError::NotFound),
    }
}

/// Adds `activity` at the end of the list, unless its path is taken.
pub fn add(list: &mut Vec<Activity>, activity: Activity) -> (r: Result<(), CatalogError>)
    ensures
        match catalog_add(views_of(old(list)@), activity@) {
            Ok(l) => r is Ok && views_of(final(list)@) == l,
            Err(e) => r == Err::<(), CatalogError>(e) && final(list)@ == old(list)@,
        },
{
    let mut segs: Vec<String> = Vec::new();
    let n = activity.path_len();
    let mut i: usize = 0;
    while i < n
        invariant
            n == activity@.path.len(),
            i <= n,
            segs@.map_values(|s: String| s@) == activity@.path.take(i as int),
        decreases n - i,
    {
        let seg = String::from_str(activity.segment(i));
        let ghost before = segs@;
        segs.push(seg);
        proof {
            assert(segs@.map_values(|s: String| s@) =~= before.map_values(|s: String| s@).push(seg@));
            assert(activity@.path.take(i as int + 1) =~= activity@.path.take(i as int).push(
                activity@.path[i as int],
            ));
        }
        i = i + 1;
    }
    let ghost before = segs@;
    let name = String::from_str(activity.leaf_name());
    segs.push(name);
    proof {
        assert(activity@.path.take(i as int) =~= activity@.path);
        assert(segs@.map_values(|s: String| s@) =~= key_of(activity@));
    }
    match position(list, &segs) {
        Some(_) => {
            proof {
                lemma_find_index(views_of(list@), key_of(activity@));
            }
            Err(CatalogError::Duplicate)
        },
        None => {
            let ghost old_list = list@;
            list.push(activity);
            proof {
                assert(views_of(list@) =~= views_of(old_list).push(activity@));
            }
            Ok(())
        },
    }
}

/// Whether `segs` names the built-in idle activity.
fn is_idle_key(segs: &Vec<String>) -> (r: bool)
    ensures
        r == (segs@.map_values(|s: String| s@) == key_of(idle_view())),
{
    let idle = String::from_str(crate::trackable::BUILTIN_ACTIVITY_IDLE_NAME);
    proof {
        reveal_strlit("Idle");
        assert(idle@ =~= crate::trackable::idle_text());
        assert(key_of(idle_view()) =~= seq![idle@]);
    }
    if segs.len() != 1 {
        return false;
    }
    let r = segs[0] == idle;
    proof {
        if r {
            assert(segs@.map_values(|s: String| s@) =~= key_of(idle_view()));
        } else {
            assert(segs@.map_values(|s: String| s@)[0] != key_of(idle_view())[0]);
        }
    }
    r
}

/// Removes every activity at `path`, its segments written with `/`.
pub fn remove(list: &mut Vec<Activity>, path: &str) -> (r: Result<(), CatalogError>)
    ensures
        match catalog_remove(views_of(old(list)@), path_key(path@)) {
            Ok(l) => r is Ok && views_of(final(list)@) == l,
            Err(e) => r == Err::<(), CatalogError>(e) && final(list)@ == old(list)@,
        },
{
    let segs = split_text(path, '/');
    let ghost key = path_key(path@);
    if is_idle_key(&segs) {
        return Err(CatalogError::Builtin);
    }
    if position(list, &segs).is_none() {
        return Err(CatalogError::NotFound);
    }
    proof {
        lemma_find_index(views_of(list@), key);
    }
    let ghost v = views_of(list@);
    let ghost keep = not_at(key);
    let mut kept: Vec<Activity> = Vec::new();
    let mut i: usize = 0;
    proof {
        reveal(Seq::filter);
        assert(v.take(0) =~= Seq::<ActivityView>::empty());
    }
    while i < list.len()
        invariant
            v == views_of(list@),
            key == segs@.map_values(|s: String| s@),
            keep == not_at(key),
            i <= list@.len(),
            views_of(kept@) == v.take(i as int).filter(keep),
        decreases list@.len() - i,
    {
        proof {
            reveal(Seq::filter);
            assert(v.take(i as int + 1).drop_last() =~= v.take(i as int));
            assert(v.take(i as int + 1).last() == v[i as int]);
        }
        if !list[i].is_at(&segs) {
            let a = list[i].copy_activity();
            let ghost before = kept@;
            kept.push(a);
            proof {
                assert(views_of(kept@) =~= views_of(before).push(a@));
            }
        }
        i = i + 1;
    }
    proof {
        assert(v.take(i as int) =~= v);
    }
    *list = kept;
    Ok(())
}

/// What the catalog file holds: a line for each activity but the built-in
/// idle one, each ended by a line feed.
pub open spec fn catalog_file(list: Seq<ActivityView>) -> Seq<char>
    decreases list.len(),
{
    if list.len() == 0 {
        Seq::empty()
    } else {
        let a = list.last();
        catalog_file(list.drop_last()) + if key_of(a) == key_of(idle_view()) {
            Seq::empty()
        } else {
            activity_line(a) + seq!['\n']
        }
    }
}

/// Writes the catalog file.
pub fn catalog_text(list: &Vec<Activity>) -> (r: String)
    ensures
        r@ == catalog_file(views_of(list@)),
{
    let ghost v = views_of(list@);
    let mut idle_segs: Vec<String> = Vec::new();
    let idle = String::from_str(crate::trackable::BUILTIN_ACTIVITY_IDLE_NAME);
    idle_segs.push(idle);
    proof {
        reveal_strlit("Idle");
        assert(idle@ =~= crate::trackable::idle_text());
        assert(idle_segs@.map_values(|s: String| s@) =~= key_of(idle_view()));
    }
    let mut out = String::new();
    let mut i: usize = 0;
    proof {
        assert(v.take(0) =~= Seq::<ActivityView>::empty());
    }
    while i < list.len()
        invariant
            v == views_of(list@),
            idle_segs@.map_values(|s: String| s@) == key_of(idle_view()),
            i <= list@.len(),
            out@ == catalog_file(v.take(i as int)),
        decreases list@.len() - i,
    {
        proof {
            assert(v.take(i as int + 1).drop_last() =~= v.take(i as int));
            assert(v.take(i as int + 1).last() == v[i as int]);
        }
        if !list[i].is_at(&idle_segs) {
            let line = list[i].to_line();
            out.append(line.as_str());
            out.append("\n");
            proof {
                reveal_strlit("\n");
            }
        }
        proof {
            assert(out@ =~= catalog_file(v.take(i as int + 1)));
        }
        i = i + 1;
    }
    proof {
        assert(v.take(i as int) =~= v);
    }
    out
}

/// Every line before `k` reads as an activity.
pub open spec fn activity_lines_read(lines: Seq<Seq<char>>, k: int) -> bool {
    forall|i: int| 0 <= i < k ==> (#[trigger] read_activity(lines[i])) is Ok
}

/// `r` is what reading a catalog with these lines owes: the activity of each
/// line and then the built-in idle activity, or the first line that fails.
pub open spec fn catalog_lines_fit(
    ls: Seq<Seq<char>>,
    r: Result<Vec<Activity>, LineError<ParseActivityErr>>,
) -> bool {
    &&& (r is Ok <==> activity_lines_read(ls, ls.len() as int))
    &&& match r {
        Ok(v) => v@.len() == ls.len() + 1 && v@[ls.len() as int]@ == idle_view() && forall|i: int|
            0 <= i < ls.len() ==> read_activity(ls[i]) == Ok::<ActivityView, ParseActivityErr>(
                #[trigger] v@[i]@,
            ),
        Err(le) => 1 <= le.line <= ls.len() && activity_lines_read(ls, le.line - 1) && read_activity(
            ls[le.line - 1],
        ) == Err::<ActivityView, ParseActivityErr>(le.error),
    }
}

/// Reads the catalog file, `None` where it does not exist, and appends the
/// built-in idle activity.
pub fn activities_from_catalog(contents: Option<&str>) -> (r: Result<
    Vec<Activity>,
    LineError<ParseActivityErr>,
>)
    ensures
        match contents {
            Some(t) => catalog_lines_fit(lines_of(t@), r),
            None => r is Ok && r->Ok_0@.len() == 1 && r->Ok_0@[0]@ == idle_view(),
        },
{
    let mut activities: Vec<Activity> = Vec::new();
    let text = match contents {
        None => {
            activities.push(Activity::builtin_idle());
            return Ok(activities);
        },
        Some(text) => text,
    };
    let lines = split_lines(text);
    let ghost ls = lines_of(text@);
    let mut i: usize = 0;
    while i < lines.len()
        invariant
            contents == Some(text),
            ls == lines_of(text@),
            ls == lines@.map_values(|l: String| l@),
            i <= lines@.len(),
            activities@.len() == i,
            forall|j: int|
                0 <= j < i ==> read_activity(ls[j]) == Ok::<ActivityView, ParseActivityErr>(
                    #[trigger] activities@[j]@,
                ),
        decreases lines@.len() - i,
    {
        proof {
            assert(lines@[i as int]@ == ls[i as int]);
        }
        match Activity::from_str(lines[i].as_str()) {
            Ok(a) => {
                activities.push(a);
            },
            Err(error) => {
                let r = Err(LineError { line: i + 1, error });
                proof {
                    assert forall|j: int| 0 <= j < i implies (#[trigger] read_activity(ls[j])) is Ok by {
                        assert(read_activity(ls[j]) == Ok::<ActivityView, ParseActivityErr>(
                            activities@[j]@,
                        ));
                    }
                    assert(!activity_lines_read(ls, ls.len() as int));
                    assert(activity_lines_read(ls, i as int));
                    assert(catalog_lines_fit(ls, r));
                }
                return r;
            },
        }
        i = i + 1;
    }
    proof {
        assert forall|j: int| 0 <= j < ls.len() implies (#[trigger] read_activity(ls[j])) is Ok by {
            assert(read_activity(ls[j]) == Ok::<ActivityView, ParseActivityErr>(activities@[j]@));
        }
    }
    activities.push(Activity::builtin_idle());
    Ok(activities)
}

/// Uniqueness: once an activity has been added, adding it again is refused
/// as a duplicate.
pub proof fn lemma_add_twice(list: Seq<ActivityView>, a: ActivityView)
    requires
        catalog_add(list, a) is Ok,
    ensures
        catalog_add(catalog_add(list, a)->Ok_0, a) == Err::<Seq<ActivityView>, CatalogError>(
            CatalogError::Duplicate,
        ),
{
    let l2 = list.push(a);
    assert(key_of(l2[list.len() as int]) == key_of(a));
}

/// After removing the activities at a path other than the idle activity's,
/// whether or not there were any, nothing is found there.
pub proof fn lemma_remove_then_resolve(list: Seq<ActivityView>, key: Seq<Seq<char>>)
    requires
        key != key_of(idle_view()),
    ensures
        catalog_resolve(
            match catalog_remove(list, key) {
                Ok(l) => l,
                Err(_) => list,
            },
            key,
        ) == Err::<ActivityView, CatalogError>(CatalogError::NotFound),
{
    broadcast use vstd::seq_lib::group_filter_ensures;

    if let Ok(l) = catalog_remove(list, key) {
        let keep = not_at(key);
        assert(l == list.filter(keep));
        if listed(l, key) {
            let i = choose|i: int| 0 <= i < l.len() && key_of(#[trigger] l[i]) == key;
            assert(keep(l[i]));
        }
    }
}

/// The entry that starts tracking an activity: its full path, billing code
/// and default description as the catalog has them now.
pub open spec fn start_of(a: ActivityView, attendance_type: Seq<char>, now: Timestamp) -> EntryView {
    EntryView::Start(
        StartView {
            start: now,
            activity_name: full_path_of(a),
            attendance_type,
            description: description_text(a.leaf.description),
            wbs: a.leaf.wbs,
        },
    )
}

/// The entry that starts tracking the activity at `path` at `now`.
pub fn start_entry(list: &Vec<Activity>, path: &str, attendance_type: &str, now: Timestamp) -> (r:
    Result<ActivityEntry, CatalogError>)
    ensures
        match catalog_resolve(views_of(list@), path_key(path@)) {
            Ok(a) => r is Ok && r->Ok_0@ == start_of(a, attendance_type@, now),
            Err(e) => r == Err::<ActivityEntry, CatalogError>(e),
        },
{
    match resolve(list, path) {
        Err(e) => Err(e),
        Ok(a) => {
            let description = match a.description() {
                Some(d) => String::from_str(d),
                None => String::new(),
            };
            Ok(
                ActivityEntry::Start(
                    ActivityStart {
                        start: now,
                        activity_name: a.full_path(),
                        attendance_type: String::from_str(attendance_type),
                        description,
                        wbs: String::from_str(a.wbs()),
                    },
                ),
            )
        },
    }
}

} // verus!
