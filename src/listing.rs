//! The rows that list the catalog: every activity by full path, or one level
//! of the namespace with its branches folded.
use vstd::prelude::*;

use crate::text::{sort_strings, sort_texts};
use crate::trackable::{
    category_activities, full_path_of, leaf_activities, sort_activities, sort_by_path, views_of,
    Activity, ActivityCategory, ActivityView,
};

verus! {

/// One row of a listing. A folded branch has no billing code and no
/// description; neither has an activity without a default description.
#[derive(Clone, Debug)]
pub struct ListRow {
    pub name: String,
    pub wbs: Option<String>,
    pub description: Option<String>,
}

pub struct RowText {
    pub name: Seq<char>,
    pub wbs: Option<Seq<char>>,
    pub description: Option<Seq<char>>,
}

impl View for ListRow {
    type V = RowText;

    open spec fn view(&self) -> RowText {
        RowText {
            name: self.name@,
            wbs: match self.wbs {
                Some(w) => Some(w@),
                None => None,
            },
            description: match self.description {
                Some(d) => Some(d@),
                None => None,
            },
        }
    }
}

pub open spec fn rows_of(rows: Seq<ListRow>) -> Seq<RowText> {
    rows.map_values(|r: ListRow| r@)
}

/// The row of an activity, under its full path or under its name alone.
pub open spec fn activity_row(a: ActivityView, full: bool) -> RowText {
    RowText {
        name: if full {
            full_path_of(a)
        } else {
            a.leaf.name
        },
        wbs: Some(a.leaf.wbs),
        description: a.leaf.description,
    }
}

/// The row of a folded branch.
pub open spec fn branch_row(seg: Seq<char>) -> RowText {
    RowText { name: seg + seq!['/'], wbs: None, description: None }
}

pub open spec fn activity_rows(acts: Seq<ActivityView>, full: bool) -> Seq<RowText> {
    acts.map_values(|a: ActivityView| activity_row(a, full))
}

/// Every activity of the tree, ordered by full path.
pub open spec fn expanded_listing(c: ActivityCategory) -> Seq<RowText> {
    activity_rows(sort_by_path(category_activities(c)), true)
}

/// The branches at the top of the tree, by name, and then its leaves, by name.
pub open spec fn collapsed_listing(c: ActivityCategory) -> Seq<RowText> {
    sort_texts(c.branches@.map_values(|b: (String, ActivityCategory)| b.0@)).map_values(
        |s: Seq<char>| branch_row(s),
    ) + activity_rows(sort_by_path(leaf_activities(c.leafs@)), false)
}

fn row_of(a: &Activity, full: bool) -> (r: ListRow)
    ensures
        r@ == activity_row(a@, full),
{
    let name = if full {
        a.full_path()
    } else {
        String::from_str(a.leaf_name())
    };
    let description = match a.description() {
        Some(d) => Some(String::from_str(d)),
        None => None,
    };
    ListRow { name, wbs: Some(String::from_str(a.wbs())), description }
}

fn push_activity_rows(out: &mut Vec<ListRow>, acts: &Vec<Activity>, full: bool)
    ensures
        rows_of(final(out)@) == rows_of(old(out)@) + activity_rows(views_of(acts@), full),
{
    let ghost base = rows_of(out@);
    let ghost target = activity_rows(views_of(acts@), full);
    let mut i: usize = 0;
    while i < acts.len()
        invariant
            i <= acts@.len(),
            target == activity_rows(views_of(acts@), full),
            rows_of(out@) == base + target.take(i as int),
        decreases acts@.len() - i,
    {
        let r = row_of(&acts[i], full);
        let ghost before = out@;
        out.push(r);
        proof {
            assert(rows_of(out@) =~= rows_of(before).push(r@));
            assert(target.take(i as int + 1) =~= target.take(i as int).push(target[i as int]));
        }
        i = i + 1;
    }
    proof {
        assert(target.take(i as int) =~= target);
    }
}

/// The listing of every activity, ordered by full path.
pub fn expanded_rows(hierarchy: ActivityCategory) -> (r: Vec<ListRow>)
    ensures
        rows_of(r@) == expanded_listing(hierarchy),
{
    let ghost h = hierarchy;
    let sorted = hierarchy.as_activities_sorted();
    let mut out: Vec<ListRow> = Vec::new();
    push_activity_rows(&mut out, &sorted, true);
    proof {
        assert(rows_of(out@) =~= expanded_listing(h));
    }
    out
}

/// The listing of the top of the tree: each branch once, by name and followed
/// by `/`, and then the leaves at the top, by name.
pub fn collapsed_rows(hierarchy: &ActivityCategory) -> (r: Vec<ListRow>)
    ensures
        rows_of(r@) == collapsed_listing(*hierarchy),
{
    let mut names: Vec<String> = Vec::new();
    let mut i: usize = 0;
    while i < hierarchy.branches.len()
        invariant
            i <= hierarchy.branches@.len(),
            names@.map_values(|t: String| t@) == hierarchy.branches@.take(i as int).map_values(
                |b: (String, ActivityCategory)| b.0@,
            ),
        decreases hierarchy.branches@.len() - i,
    {
        let n = hierarchy.branches[i].0.clone();
        let ghost before = names@;
        names.push(n);
        proof {
            assert(names@.map_values(|t: String| t@) =~= before.map_values(|t: String| t@).push(
                n@,
            ));
            assert(hierarchy.branches@.take(i as int + 1).map_values(
                |b: (String, ActivityCategory)| b.0@,
            ) =~= hierarchy.branches@.take(i as int).map_values(
                |b: (String, ActivityCategory)| b.0@,
            ).push(n@));
        }
        i = i + 1;
    }
    proof {
        assert(hierarchy.branches@.take(i as int) =~= hierarchy.branches@);
    }
    let sorted_names = sort_strings(&names);
    let ghost sn = sorted_names@.map_values(|t: String| t@);
    let mut out: Vec<ListRow> = Vec::new();
    let mut j: usize = 0;
    while j < sorted_names.len()
        invariant
            j <= sorted_names@.len(),
            sn == sorted_names@.map_values(|t: String| t@),
            rows_of(out@) == sn.take(j as int).map_values(|s: Seq<char>| branch_row(s)),
        decreases sorted_names@.len() - j,
    {
        let mut name = sorted_names[j].clone();
        let ghost base_name = name@;
        name.append("/");
        let r = ListRow { name, wbs: None, description: None };
        let ghost before = out@;
        out.push(r);
        proof {
            reveal_strlit("/");
            assert(sn[j as int] == sorted_names@[j as int]@);
            assert(rows_of(out@) =~= rows_of(before).push(r@));
            assert(base_name == sn[j as int]);
            assert(r@.name =~= sn[j as int] + seq!['/']);
            assert(r@ == branch_row(sn[j as int]));
            assert(sn.take(j as int + 1).map_values(|s: Seq<char>| branch_row(s)) =~= sn.take(
                j as int,
            ).map_values(|s: Seq<char>| branch_row(s)).push(branch_row(sn[j as int])));
        }
        j = j + 1;
    }
    proof {
        assert(sn.take(j as int) =~= sn);
    }
    let leaves = hierarchy.leaf_list();
    let sorted_leaves = sort_activities(leaves);
    push_activity_rows(&mut out, &sorted_leaves, false);
    out
}

} // verus!
