//! Activities: leaves of a namespace of `/`-separated segments, each with a
//! billing code and an optional default description.
use vstd::prelude::*;

use crate::entry::field_ok;
use crate::text::{
    lacks, lacks_char, lemma_split_join, lemma_split_len, lemma_split_pieces, lemma_split_single,
    lemma_text_le_total, split_on, split_text, text_le, text_le_exec,
};

verus! {

pub const BUILTIN_ACTIVITY_IDLE_NAME: &'static str = "Idle";

pub const BUILTIN_ACTIVITY_IDLE_WBS: &'static str = "Idle";

/// Why a catalog line could not be read.
#[derive(Clone, Copy, Debug, PartialEq, Eq, Structural)]
pub enum ParseActivityErr {
    NoPath,
    NoName,
    NoWbs,
    /// A field holds a tab or a line break.
    BadText,
}

impl ParseActivityErr {
    /// A short description for the user.
    pub fn message(&self) -> String {
        match self {
            ParseActivityErr::NoPath => String::from_str("missing path"),
            ParseActivityErr::NoWbs => String::from_str("missing wbs"),
            ParseActivityErr::NoName => String::from_str("path doesn't end in a name"),
            ParseActivityErr::BadText => String::from_str("a field holds a tab or a line break"),
        }
    }
}

/// The definition of an activity under its namespace.
#[derive(Clone, Debug)]
pub struct ActivityLeaf {
    name: String,
    wbs: String,
    default_description: Option<String>,
}

/// An activity with the namespace segments above it.
#[derive(Clone, Debug)]
pub struct Activity {
    path: Vec<String>,
    leaf: ActivityLeaf,
}

pub struct LeafView {
    pub name: Seq<char>,
    pub wbs: Seq<char>,
    pub description: Option<Seq<char>>,
}

pub struct ActivityView {
    pub path: Seq<Seq<char>>,
    pub leaf: LeafView,
}

pub open spec fn opt_view(o: Option<String>) -> Option<Seq<char>> {
    match o {
        Some(s) => Some(s@),
        None => None,
    }
}

impl View for ActivityLeaf {
    type V = LeafView;

    closed spec fn view(&self) -> LeafView {
        LeafView {
            name: self.name@,
            wbs: self.wbs@,
            description: opt_view(self.default_description),
        }
    }
}

impl View for Activity {
    type V = ActivityView;

    closed spec fn view(&self) -> ActivityView {
        ActivityView { path: self.path@.map_values(|s: String| s@), leaf: self.leaf@ }
    }
}

pub open spec fn idle_text() -> Seq<char> {
    seq!['I', 'd', 'l', 'e']
}

/// The built-in activity that stands for not working.
pub open spec fn idle_view() -> ActivityView {
    ActivityView {
        path: Seq::empty(),
        leaf: LeafView { name: idle_text(), wbs: idle_text(), description: None },
    }
}

/// The segments of the namespace, each followed by `/`.
pub open spec fn path_prefix(path: Seq<Seq<char>>) -> Seq<char>
    decreases path.len(),
{
    if path.len() == 0 {
        Seq::empty()
    } else {
        path[0] + seq!['/'] + path_prefix(path.drop_first())
    }
}

/// The full path of an activity, its segments and name joined by `/`.
pub open spec fn full_path_of(a: ActivityView) -> Seq<char> {
    path_prefix(a.path) + a.leaf.name
}

/// What identifies an activity: its segments and then its name.
pub open spec fn key_of(a: ActivityView) -> Seq<Seq<char>> {
    a.path.push(a.leaf.name)
}

/// The description as it stands in a catalog line: empty where there is none.
pub open spec fn description_text(d: Option<Seq<char>>) -> Seq<char> {
    match d {
        Some(t) => t,
        None => Seq::empty(),
    }
}

/// The catalog line of an activity.
pub open spec fn activity_line(a: ActivityView) -> Seq<char> {
    full_path_of(a) + seq!['\t'] + a.leaf.wbs + seq!['\t'] + description_text(a.leaf.description)
}

/// What a catalog line says: the path, whose last segment is the name, then
/// the billing code, then the description, which is absent where empty.
pub open spec fn read_activity(line: Seq<char>) -> Result<ActivityView, ParseActivityErr> {
    let f = split_on(line, '\t');
    if f.len() < 2 {
        Err(ParseActivityErr::NoWbs)
    } else {
        let segs = split_on(f[0], '/');
        if segs.last().len() == 0 {
            Err(ParseActivityErr::NoName)
        } else {
            Ok(
                ActivityView {
                    path: segs.drop_last(),
                    leaf: LeafView {
                        name: segs.last(),
                        wbs: f[1],
                        description: if f.len() >= 3 && f[2].len() > 0 {
                            Some(f[2])
                        } else {
                            None
                        },
                    },
                },
            )
        }
    }
}

/// The activity at `path` (segments joined by `/`) with the given billing code
/// and description; an empty description counts as none.
pub open spec fn activity_of_parts(
    path: Seq<char>,
    wbs: Seq<char>,
    description: Option<Seq<char>>,
) -> Result<ActivityView, ParseActivityErr> {
    let segs = split_on(path, '/');
    if segs.last().len() == 0 {
        Err(ParseActivityErr::NoName)
    } else if !field_ok(path) || !field_ok(wbs) || (description is Some && !field_ok(
        description->0,
    )) {
        Err(ParseActivityErr::BadText)
    } else {
        Ok(
            ActivityView {
                path: segs.drop_last(),
                leaf: LeafView {
                    name: segs.last(),
                    wbs,
                    description: if description is Some && description->0.len() > 0 {
                        description
                    } else {
                        None
                    },
                },
            },
        )
    }
}

/// A segment or name that can stand in a path.
pub open spec fn segment_ok(s: Seq<char>) -> bool {
    field_ok(s) && lacks(s, '/')
}

impl ActivityView {
    /// The activity can be written as a catalog line and read back as itself.
    pub open spec fn well_formed(self) -> bool {
        &&& forall|i: int| 0 <= i < self.path.len() ==> segment_ok(#[trigger] self.path[i])
        &&& segment_ok(self.leaf.name)
        &&& self.leaf.name.len() > 0
        &&& field_ok(self.leaf.wbs)
        &&& match self.leaf.description {
            Some(d) => field_ok(d) && d.len() > 0,
            None => true,
        }
    }
}

proof fn lemma_path_prefix_push(path: Seq<Seq<char>>, s: Seq<char>)
    ensures
        path_prefix(path.push(s)) == path_prefix(path) + s + seq!['/'],
    decreases path.len(),
{
    if path.len() == 0 {
        assert(path.push(s).drop_first() =~= Seq::<Seq<char>>::empty());
        assert(path_prefix(path.push(s).drop_first()) == Seq::<char>::empty());
        assert(path.push(s)[0] == s);
        assert(path_prefix(path.push(s)) =~= s + seq!['/']);
        assert(path_prefix(path) + s + seq!['/'] =~= s + seq!['/']);
    } else {
        lemma_path_prefix_push(path.drop_first(), s);
        assert(path.push(s).drop_first() =~= path.drop_first().push(s));
        assert(path_prefix(path.push(s)) =~= path_prefix(path) + s + seq!['/']);
    }
}

proof fn lemma_path_prefix_split(path: Seq<Seq<char>>, name: Seq<char>)
    requires
        forall|i: int| 0 <= i < path.len() ==> lacks(#[trigger] path[i], '/'),
    ensures
        split_on(path_prefix(path) + name, '/') == path + split_on(name, '/'),
    decreases path.len(),
{
    if path.len() > 0 {
        let rest = path.drop_first();
        assert forall|i: int| 0 <= i < rest.len() implies lacks(#[trigger] rest[i], '/') by {
            assert(rest[i] == path[i + 1]);
        }
        lemma_path_prefix_split(rest, name);
        assert(lacks(path[0], '/'));
        lemma_split_single(path[0], '/');
        lemma_split_join(path[0], '/', path_prefix(rest) + name);
        assert(path_prefix(path) + name =~= path[0] + seq!['/'] + (path_prefix(rest) + name));
        assert(seq![path[0]] + (rest + split_on(name, '/')) =~= path + split_on(name, '/'));
    } else {
        assert(path_prefix(path) + name =~= name);
        assert(path + split_on(name, '/') =~= split_on(name, '/'));
    }
}

proof fn lemma_path_prefix_lacks(path: Seq<Seq<char>>, c: char)
    requires
        c != '/',
        forall|i: int| 0 <= i < path.len() ==> lacks(#[trigger] path[i], c),
    ensures
        lacks(path_prefix(path), c),
    decreases path.len(),
{
    if path.len() > 0 {
        let rest = path.drop_first();
        assert forall|i: int| 0 <= i < rest.len() implies lacks(#[trigger] rest[i], c) by {
            assert(rest[i] == path[i + 1]);
        }
        lemma_path_prefix_lacks(rest, c);
        assert(lacks(path[0], c));
    }
}

/// Reading the catalog line of a well-formed activity gives back that activity.
pub proof fn lemma_activity_round_trip(a: ActivityView)
    requires
        a.well_formed(),
    ensures
        read_activity(activity_line(a)) == Ok::<ActivityView, ParseActivityErr>(a),
{
    let fp = full_path_of(a);
    let w = a.leaf.wbs;
    let d = description_text(a.leaf.description);
    assert forall|i: int| 0 <= i < a.path.len() implies lacks(#[trigger] a.path[i], '\t') by {
        assert(segment_ok(a.path[i]));
    }
    assert forall|i: int| 0 <= i < a.path.len() implies lacks(#[trigger] a.path[i], '/') by {
        assert(segment_ok(a.path[i]));
    }
    lemma_path_prefix_lacks(a.path, '\t');
    assert(lacks(fp, '\t'));
    lemma_split_single(fp, '\t');
    lemma_split_single(w, '\t');
    lemma_split_single(d, '\t');
    lemma_split_join(w, '\t', d);
    lemma_split_join(fp, '\t', w + seq!['\t'] + d);
    assert(activity_line(a) =~= fp + seq!['\t'] + (w + seq!['\t'] + d));
    assert(split_on(activity_line(a), '\t') =~= seq![fp, w, d]);
    lemma_path_prefix_split(a.path, a.leaf.name);
    lemma_split_single(a.leaf.name, '/');
    let segs = split_on(fp, '/');
    assert(segs =~= a.path.push(a.leaf.name));
    assert(segs.drop_last() =~= a.path);
}

impl ActivityLeaf {
    /// A leaf with the given name, billing code and default description.
    pub fn new(name: String, wbs: String, default_description: Option<String>) -> (r: ActivityLeaf)
        ensures
            r@ == (LeafView { name: name@, wbs: wbs@, description: opt_view(default_description) }),
    {
        ActivityLeaf { name, wbs, default_description }
    }

    pub fn name(&self) -> (r: &str)
        ensures
            r@ == self@.name,
    {
        self.name.as_str()
    }

    pub fn wbs(&self) -> (r: &str)
        ensures
            r@ == self@.wbs,
    {
        self.wbs.as_str()
    }

    pub fn description(&self) -> (r: Option<&str>)
        ensures
            match r {
                Some(d) => self@.description == Some(d@),
                None => self@.description is None,
            },
    {
        match &self.default_description {
            Some(d) => Some(d.as_str()),
            None => None,
        }
    }

    fn copy_leaf(&self) -> (r: ActivityLeaf)
        ensures
            r@ == self@,
    {
        ActivityLeaf {
            name: self.name.clone(),
            wbs: self.wbs.clone(),
            default_description: match &self.default_description {
                Some(d) => Some(d.clone()),
                None => None,
            },
        }
    }
}

impl Activity {
    /// The leaf `leaf` under the namespace `path`.
    pub fn new(path: Vec<String>, leaf: ActivityLeaf) -> (r: Activity)
        ensures
            r@ == (ActivityView { path: path@.map_values(|s: String| s@), leaf: leaf@ }),
    {
        Activity { path, leaf }
    }

    /// The activity at `path`, its segments joined by `/`, with the given
    /// billing code and default description. It can be written as a catalog
    /// line and read back unchanged.
    pub fn from_parts(path: &str, wbs: &str, description: Option<&str>) -> (r: Result<
        Activity,
        ParseActivityErr,
    >)
        ensures
            match r {
                Ok(a) => activity_of_parts(
                    path@,
                    wbs@,
                    match description {
                        Some(d) => Some(d@),
                        None => None,
                    },
                ) == Ok::<ActivityView, ParseActivityErr>(a@) && a@.well_formed(),
                Err(e) => activity_of_parts(
                    path@,
                    wbs@,
                    match description {
                        Some(d) => Some(d@),
                        None => None,
                    },
                ) == Err::<ActivityView, ParseActivityErr>(e),
            },
    {
        let mut segs = split_text(path, '/');
        let ghost sv = split_on(path@, '/');
        proof {
            lemma_split_len(path@, '/');
            assert(segs@.len() == sv.len());
        }
        let name = segs.pop().unwrap();
        proof {
            assert(name@ == sv.last());
        }
        if name.as_str().unicode_len() == 0 {
            return Err(ParseActivityErr::NoName);
        }
        let path_ok = lacks_char(path, '\t') && lacks_char(path, '\n') && lacks_char(path, '\r');
        let wbs_ok = lacks_char(wbs, '\t') && lacks_char(wbs, '\n') && lacks_char(wbs, '\r');
        let description_ok = match description {
            Some(d) => lacks_char(d, '\t') && lacks_char(d, '\n') && lacks_char(d, '\r'),
            None => true,
        };
        if !path_ok || !wbs_ok || !description_ok {
            return Err(ParseActivityErr::BadText);
        }
        let default_description = match description {
            Some(d) => if d.unicode_len() > 0 {
                Some(String::from_str(d))
            } else {
                None
            },
            None => None,
        };
        let r = Activity {
            path: segs,
            leaf: ActivityLeaf { name, wbs: String::from_str(wbs), default_description },
        };
        proof {
            assert(r@.path =~= sv.drop_last());
            lemma_split_pieces(path@, '/', '\t');
            lemma_split_pieces(path@, '/', '\n');
            lemma_split_pieces(path@, '/', '\r');
            assert forall|i: int| 0 <= i < r@.path.len() implies segment_ok(#[trigger] r@.path[i]) by {
                assert(r@.path[i] == sv[i]);
            }
            assert(segment_ok(sv[sv.len() - 1]));
        }
        Ok(r)
    }

    /// The leaf as an activity at the top of the namespace.
    pub fn from_leaf(leaf: ActivityLeaf) -> (r: Activity)
        ensures
            r@ == leaf_act(leaf@),
    {
        let r = Activity { path: Vec::new(), leaf };
        proof {
            assert(r@.path =~= Seq::<Seq<char>>::empty());
        }
        r
    }

    /// The built-in activity for time spent not working.
    pub fn builtin_idle() -> (r: Activity)
        ensures
            r@ == idle_view(),
    {
        let r = Activity {
            path: Vec::new(),
            leaf: ActivityLeaf {
                name: String::from_str(BUILTIN_ACTIVITY_IDLE_NAME),
                wbs: String::from_str(BUILTIN_ACTIVITY_IDLE_WBS),
                default_description: None,
            },
        };
        proof {
            reveal_strlit("Idle");
            assert(r@.path =~= Seq::<Seq<char>>::empty());
            assert(r@.leaf.name =~= idle_text());
        }
        r
    }

    /// The segments and the name, joined by `/`.
    pub fn full_path(&self) -> (r: String)
        ensures
            r@ == full_path_of(self@),
    {
        let ghost p = self@.path;
        let mut out = String::new();
        let mut i: usize = 0;
        proof {
            assert(p.take(0) =~= Seq::<Seq<char>>::empty());
        }
        while i < self.path.len()
            invariant
                p == self@.path,
                p.len() == self.path@.len(),
                i <= p.len(),
                out@ == path_prefix(p.take(i as int)),
            decreases p.len() - i,
        {
            proof {
                assert(p[i as int] == self.path@[i as int]@);
                lemma_path_prefix_push(p.take(i as int), p[i as int]);
                assert(p.take(i as int).push(p[i as int]) =~= p.take(i as int + 1));
                reveal_strlit("/");
            }
            out.append(self.path[i].as_str());
            out.append("/");
            i = i + 1;
        }
        proof {
            assert(p.take(i as int) =~= p);
        }
        out.append(self.leaf.name.as_str());
        out
    }

    /// How many namespace segments stand above the leaf.
    pub fn path_len(&self) -> (r: usize)
        ensures
            r == self@.path.len(),
    {
        self.path.len()
    }

    /// The namespace segment at `i`.
    pub fn segment(&self, i: usize) -> (r: &str)
        requires
            i < self@.path.len(),
        ensures
            r@ == self@.path[i as int],
    {
        self.path[i].as_str()
    }

    pub fn leaf_name(&self) -> (r: &str)
        ensures
            r@ == self@.leaf.name,
    {
        self.leaf.name()
    }

    pub fn wbs(&self) -> (r: &str)
        ensures
            r@ == self@.leaf.wbs,
    {
        self.leaf.wbs()
    }

    pub fn description(&self) -> (r: Option<&str>)
        ensures
            match r {
                Some(d) => self@.leaf.description == Some(d@),
                None => self@.leaf.description is None,
            },
    {
        self.leaf.description()
    }

    pub fn leaf(&self) -> (r: &ActivityLeaf)
        ensures
            r@ == self@.leaf,
    {
        &self.leaf
    }

    /// The catalog line of the activity, without a line terminator.
    pub fn to_line(&self) -> (r: String)
        ensures
            r@ == activity_line(self@),
    {
        let mut out = self.full_path();
        out.append("\t");
        out.append(self.leaf.wbs.as_str());
        out.append("\t");
        match &self.leaf.default_description {
            Some(d) => out.append(d.as_str()),
            None => {},
        }
        proof {
            reveal_strlit("\t");
            assert(out@ =~= activity_line(self@));
        }
        out
    }

    /// Reads one line of the catalog.
    pub fn from_str(input: &str) -> (r: Result<Activity, ParseActivityErr>)
        ensures
            match r {
                Ok(a) => read_activity(input@) == Ok::<ActivityView, ParseActivityErr>(a@),
                Err(e) => read_activity(input@) == Err::<ActivityView, ParseActivityErr>(e),
            },
    {
        let fields = split_text(input, '\t');
        let ghost f = split_on(input@, '\t');
        proof {
            assert(fields@.len() == f.len());
        }
        if fields.len() < 2 {
            return Err(ParseActivityErr::NoWbs);
        }
        proof {
            assert(fields@[0]@ == f[0]);
            assert(fields@[1]@ == f[1]);
        }
        let default_description = if fields.len() >= 3 && fields[2].as_str().unicode_len() > 0 {
            proof {
                assert(fields@[2]@ == f[2]);
            }
            Some(fields[2].clone())
        } else {
            proof {
                if fields.len() >= 3 {
                    assert(fields@[2]@ == f[2]);
                }
            }
            None
        };
        let mut segs = split_text(fields[0].as_str(), '/');
        let ghost sv = split_on(f[0], '/');
        proof {
            crate::text::lemma_split_len(f[0], '/');
            assert(segs@.len() == sv.len());
        }
        let name = segs.pop().unwrap();
        proof {
            assert(name@ == sv.last());
        }
        if name.as_str().unicode_len() == 0 {
            return Err(ParseActivityErr::NoName);
        }
        let r = Activity {
            path: segs,
            leaf: ActivityLeaf { name, wbs: fields[1].clone(), default_description },
        };
        proof {
            assert(r@.path =~= sv.drop_last());
        }
        Ok(r)
    }

    /// Whether the activity's segments and name are `segs`.
    pub fn is_at(&self, segs: &Vec<String>) -> (r: bool)
        ensures
            r == (key_of(self@) == segs@.map_values(|s: String| s@)),
    {
        let ghost k = key_of(self@);
        let ghost sv = segs@.map_values(|s: String| s@);
        if segs.len() == 0 || segs.len() - 1 != self.path.len() {
            proof {
                assert(k.len() != sv.len());
            }
            return false;
        }
        let mut i: usize = 0;
        while i < self.path.len()
            invariant
                k == key_of(self@),
                sv == segs@.map_values(|s: String| s@),
                segs@.len() == self.path@.len() + 1,
                i <= self.path@.len(),
                forall|j: int| 0 <= j < i ==> k[j] == sv[j],
            decreases self.path@.len() - i,
        {
            if self.path[i] != segs[i] {
                proof {
                    assert(k[i as int] == self.path@[i as int]@);
                    assert(k[i as int] != sv[i as int]);
                }
                return false;
            }
            proof {
                assert(k[i as int] == self.path@[i as int]@);
            }
            i = i + 1;
        }
        let last = self.leaf.name == segs[i];
        proof {
            assert(k[i as int] == self.leaf.name@);
            if last {
                assert(k =~= sv);
            } else {
                assert(k[i as int] != sv[i as int]);
            }
        }
        last
    }

    pub(crate) fn copy_activity(&self) -> (r: Activity)
        ensures
            r@ == self@,
    {
        let mut path: Vec<String> = Vec::new();
        let mut i: usize = 0;
        while i < self.path.len()
            invariant
                i <= self.path@.len(),
                path@.map_values(|s: String| s@) == self.path@.take(i as int).map_values(
                    |s: String| s@,
                ),
            decreases self.path@.len() - i,
        {
            let ghost before = path@;
            let seg = self.path[i].clone();
            path.push(seg);
            proof {
                assert(path@ == before.push(seg));
                assert(path@.map_values(|s: String| s@) =~= before.map_values(|s: String| s@).push(
                    seg@,
                ));
                assert(self.path@.take(i as int + 1) =~= self.path@.take(i as int).push(
                    self.path@[i as int],
                ));
                assert(path@.map_values(|s: String| s@) =~= self.path@.take(i as int + 1).map_values(
                    |s: String| s@,
                ));
            }
            i = i + 1;
        }
        proof {
            assert(self.path@.take(i as int) =~= self.path@);
        }
        Activity { path, leaf: self.leaf.copy_leaf() }
    }
}

/// A namespace node: the subtrees under each child segment, and the leaves
/// at this level.
#[derive(Debug)]
pub struct ActivityCategory {
    pub branches: Vec<(String, ActivityCategory)>,
    pub leafs: Vec<ActivityLeaf>,
}

/// Puts `seg` in front of the path of each activity.
pub open spec fn under(seg: Seq<char>, acts: Seq<ActivityView>) -> Seq<ActivityView> {
    acts.map_values(|a: ActivityView| ActivityView { path: seq![seg] + a.path, leaf: a.leaf })
}

/// The activities of the first `k` branches of `c`, in branch order.
pub open spec fn branch_activities(c: ActivityCategory, k: int) -> Seq<ActivityView>
    decreases c, k,
{
    if k <= 0 || k > c.branches@.len() {
        Seq::empty()
    } else {
        let b = c.branches@[k - 1];
        branch_activities(c, k - 1) + under(b.0@, category_activities(b.1))
    }
}

/// The activities at this level.
pub open spec fn leaf_activities(leafs: Seq<ActivityLeaf>) -> Seq<ActivityView> {
    leafs.map_values(|l: ActivityLeaf| ActivityView { path: Seq::empty(), leaf: l@ })
}

/// Every activity of the tree with its full path: those of each branch in
/// turn, then the leaves at this level.
pub open spec fn category_activities(c: ActivityCategory) -> Seq<ActivityView>
    decreases c, c.branches@.len() + 1,
{
    branch_activities(c, c.branches@.len() as int) + leaf_activities(c.leafs@)
}

impl Activity {
    /// The activity with `seg` put in front of its path.
    fn prefixed(self, seg: String) -> (r: Activity)
        ensures
            r@ == (ActivityView { path: seq![seg@] + self@.path, leaf: self@.leaf }),
    {
        let mut path = self.path;
        let ghost before = path@;
        path.insert(0, seg);
        let r = Activity { path, leaf: self.leaf };
        proof {
            assert(path@ == before.insert(0, seg));
            assert(r@.path =~= seq![seg@] + before.map_values(|s: String| s@));
        }
        r
    }
}

impl ActivityCategory {
    fn activities_of(&self) -> (r: Vec<Activity>)
        ensures
            views_of(r@) == category_activities(*self),
        decreases self,
    {
        let mut out: Vec<Activity> = Vec::new();
        let mut i: usize = 0;
        while i < self.branches.len()
            invariant
                i <= self.branches@.len(),
                views_of(out@) == branch_activities(*self, i as int),
            decreases self.branches@.len() - i,
        {
            let seg = &self.branches[i].0;
            let sub = &self.branches[i].1;
            proof {
                assert(decreases_to!(*self => self.branches));
                assert(decreases_to!(self.branches => self.branches@));
                assert(decreases_to!(self.branches@ => self.branches@[i as int]));
                assert(decreases_to!(self.branches@[i as int] => self.branches@[i as int].1));
            }
            let inner = sub.activities_of();
            let ghost base = views_of(out@);
            let ghost target = under(seg@, category_activities(*sub));
            let mut j: usize = 0;
            while j < inner.len()
                invariant
                    i < self.branches@.len(),
                    j <= inner@.len(),
                    views_of(inner@) == category_activities(*sub),
                    target == under(seg@, category_activities(*sub)),
                    views_of(out@) == base + target.take(j as int),
                decreases inner@.len() - j,
            {
                let a = inner[j].copy_activity().prefixed(seg.clone());
                let ghost before = out@;
                out.push(a);
                proof {
                    assert(views_of(out@) =~= views_of(before).push(a@));
                    assert(target.take(j as int + 1) =~= target.take(j as int).push(target[j as int]));
                    assert(views_of(inner@)[j as int] == inner@[j as int]@);
                }
                j = j + 1;
            }
            proof {
                assert(target.take(j as int) =~= target);
            }
            i = i + 1;
        }
        let ghost base = views_of(out@);
        let mut j: usize = 0;
        while j < self.leafs.len()
            invariant
                j <= self.leafs@.len(),
                views_of(out@) == base + leaf_activities(self.leafs@).take(j as int),
            decreases self.leafs@.len() - j,
        {
            let a = Activity::new(Vec::new(), self.leafs[j].copy_leaf());
            let ghost before = out@;
            out.push(a);
            proof {
                assert(a@.path =~= Seq::<Seq<char>>::empty());
                assert(views_of(out@) =~= views_of(before).push(a@));
                assert(leaf_activities(self.leafs@).take(j as int + 1) =~= leaf_activities(
                    self.leafs@,
                ).take(j as int).push(a@));
            }
            j = j + 1;
        }
        proof {
            assert(leaf_activities(self.leafs@).take(j as int) =~= leaf_activities(self.leafs@));
        }
        out
    }

    /// Every activity of the tree with its full path: those of each branch in
    /// turn, then the leaves at this level.
    pub fn as_activities(self) -> (r: Vec<Activity>)
        ensures
            views_of(r@) == category_activities(self),
    {
        self.activities_of()
    }
}

pub open spec fn views_of(list: Seq<Activity>) -> Seq<ActivityView> {
    list.map_values(|a: Activity| a@)
}

/// `x` is one of the activities of the tree.
pub open spec fn member(c: ActivityCategory, x: ActivityView) -> bool {
    exists|i: int|
        0 <= i < category_activities(c).len() && #[trigger] category_activities(c)[i] == x
}

pub open spec fn prefix_with(seg: Seq<char>, y: ActivityView) -> ActivityView {
    ActivityView { path: seq![seg] + y.path, leaf: y.leaf }
}

pub open spec fn leaf_act(l: LeafView) -> ActivityView {
    ActivityView { path: Seq::empty(), leaf: l }
}

/// `x` comes from one of the branches.
pub open spec fn branch_member(c: ActivityCategory, x: ActivityView) -> bool {
    exists|k: int, y: ActivityView|
        0 <= k < c.branches@.len() && #[trigger] member(c.branches@[k].1, y) && x == prefix_with(
            c.branches@[k].0@,
            y,
        )
}

/// `x` is one of the leaves at this level.
pub open spec fn leaf_member(c: ActivityCategory, x: ActivityView) -> bool {
    exists|l: int| 0 <= l < c.leafs@.len() && x == leaf_act(#[trigger] c.leafs@[l]@)
}

/// Branch segments and leaf names are unique at this level.
pub open spec fn level_ok(c: ActivityCategory) -> bool {
    &&& forall|a: int, b: int|
        0 <= a < c.branches@.len() && 0 <= b < c.branches@.len() && a != b
            ==> #[trigger] c.branches@[a].0@ != #[trigger] c.branches@[b].0@
    &&& forall|a: int, b: int|
        0 <= a < c.leafs@.len() && 0 <= b < c.leafs@.len() && a != b
            ==> #[trigger] c.leafs@[a]@.name != #[trigger] c.leafs@[b]@.name
}

/// Branch segments and leaf names are unique at every level.
pub open spec fn tree_ok(c: ActivityCategory) -> bool
    decreases c,
{
    &&& level_ok(c)
    &&& forall|k: int|
        0 <= k < c.branches@.len() ==> tree_ok(#[trigger] c.branches@[k].1)
}

/// Every branch, at every level, holds at least one activity.
pub open spec fn no_empty_branch(c: ActivityCategory) -> bool
    decreases c,
{
    forall|k: int|
        0 <= k < c.branches@.len() ==> (exists|y: ActivityView| member(c.branches@[k].1, y))
            && no_empty_branch(#[trigger] c.branches@[k].1)
}

/// No two activities of the tree share a path.
pub open spec fn paths_unique(c: ActivityCategory) -> bool {
    forall|x: ActivityView, y: ActivityView|
        #[trigger] member(c, x) && #[trigger] member(c, y) && key_of(x) == key_of(y) ==> x == y
}

proof fn lemma_branch_activities_member(c: ActivityCategory, n: int, x: ActivityView)
    requires
        0 <= n <= c.branches@.len(),
    ensures
        (exists|i: int|
            0 <= i < branch_activities(c, n).len() && #[trigger] branch_activities(c, n)[i] == x)
            <==> (exists|k: int, y: ActivityView|
            0 <= k < n && #[trigger] member(c.branches@[k].1, y) && x == prefix_with(
                c.branches@[k].0@,
                y,
            )),
    decreases n,
{
    if n > 0 {
        lemma_branch_activities_member(c, n - 1, x);
        let pre = branch_activities(c, n - 1);
        let b = c.branches@[n - 1];
        let u = under(b.0@, category_activities(b.1));
        assert(branch_activities(c, n) == pre + u);
        if exists|i: int| 0 <= i < (pre + u).len() && #[trigger] (pre + u)[i] == x {
            let i = choose|i: int| 0 <= i < (pre + u).len() && #[trigger] (pre + u)[i] == x;
            if i < pre.len() {
                assert(pre[i] == x);
            } else {
                let y = category_activities(b.1)[i - pre.len()];
                assert(u[i - pre.len()] == prefix_with(b.0@, y));
                assert(member(b.1, y));
            }
        }
        if exists|k: int, y: ActivityView|
            0 <= k < n && #[trigger] member(c.branches@[k].1, y) && x == prefix_with(
                c.branches@[k].0@,
                y,
            ) {
            let (k, y) = choose|k: int, y: ActivityView|
                0 <= k < n && #[trigger] member(c.branches@[k].1, y) && x == prefix_with(
                    c.branches@[k].0@,
                    y,
                );
            if k < n - 1 {
                let i = choose|i: int| 0 <= i < pre.len() && #[trigger] pre[i] == x;
                assert((pre + u)[i] == x);
            } else {
                let j = choose|j: int|
                    0 <= j < category_activities(b.1).len() && #[trigger] category_activities(
                        b.1,
                    )[j] == y;
                assert(u[j] == x);
                assert((pre + u)[pre.len() + j] == x);
            }
        }
    }
}

proof fn lemma_member(c: ActivityCategory, x: ActivityView)
    ensures
        member(c, x) <==> branch_member(c, x) || leaf_member(c, x),
{
    let n = c.branches@.len() as int;
    lemma_branch_activities_member(c, n, x);
    let pre = branch_activities(c, n);
    let lv = leaf_activities(c.leafs@);
    assert(category_activities(c) == pre + lv);
    if member(c, x) {
        let i = choose|i: int|
            0 <= i < category_activities(c).len() && #[trigger] category_activities(c)[i] == x;
        if i < pre.len() {
            assert(pre[i] == x);
        } else {
            assert(lv[i - pre.len()] == x);
            assert(x == leaf_act(c.leafs@[i - pre.len()]@));
        }
    }
    if branch_member(c, x) {
        let i = choose|i: int| 0 <= i < pre.len() && #[trigger] pre[i] == x;
        assert(category_activities(c)[i] == x);
    }
    if leaf_member(c, x) {
        let l = choose|l: int| 0 <= l < c.leafs@.len() && x == leaf_act(#[trigger] c.leafs@[l]@);
        assert(lv[l] == x);
        assert(category_activities(c)[pre.len() + l] == x);
    }
}

proof fn lemma_key_len(a: ActivityView)
    ensures
        key_of(a).len() == a.path.len() + 1,
{
}

/// In a well-formed tree every path has at most one activity.
pub proof fn lemma_tree_paths_unique(c: ActivityCategory)
    requires
        tree_ok(c),
    ensures
        paths_unique(c),
    decreases c,
{
    assert forall|x: ActivityView, y: ActivityView|
        #[trigger] member(c, x) && #[trigger] member(c, y) && key_of(x) == key_of(y) implies x
        == y by {
        lemma_member(c, x);
        lemma_member(c, y);
        if branch_member(c, x) && branch_member(c, y) {
            let (k1, y1) = choose|k: int, z: ActivityView|
                0 <= k < c.branches@.len() && #[trigger] member(c.branches@[k].1, z) && x
                    == prefix_with(c.branches@[k].0@, z);
            let (k2, y2) = choose|k: int, z: ActivityView|
                0 <= k < c.branches@.len() && #[trigger] member(c.branches@[k].1, z) && y
                    == prefix_with(c.branches@[k].0@, z);
            lemma_key_prefix(c.branches@[k1].0@, y1);
            lemma_key_prefix(c.branches@[k2].0@, y2);
            assert(key_of(x)[0] == c.branches@[k1].0@);
            assert(key_of(y)[0] == c.branches@[k2].0@);
            if k1 != k2 {
                assert(c.branches@[k1].0@ != c.branches@[k2].0@);
            }
            assert(key_of(y1) =~= key_of(x).drop_first());
            assert(key_of(y2) =~= key_of(y).drop_first());
            assert(tree_ok(c.branches@[k1].1));
            assert(decreases_to!(c => c.branches));
            assert(decreases_to!(c.branches => c.branches@));
            assert(decreases_to!(c.branches@ => c.branches@[k1]));
            assert(decreases_to!(c.branches@[k1] => c.branches@[k1].1));
            lemma_tree_paths_unique(c.branches@[k1].1);
        } else if leaf_member(c, x) && leaf_member(c, y) {
            let l1 = choose|l: int| 0 <= l < c.leafs@.len() && x == leaf_act(#[trigger] c.leafs@[l]@);
            let l2 = choose|l: int| 0 <= l < c.leafs@.len() && y == leaf_act(#[trigger] c.leafs@[l]@);
            assert(key_of(x)[0] == c.leafs@[l1]@.name);
            assert(key_of(y)[0] == c.leafs@[l2]@.name);
            if l1 != l2 {
                assert(c.leafs@[l1]@.name != c.leafs@[l2]@.name);
            }
        } else if branch_member(c, x) {
            let (k1, y1) = choose|k: int, z: ActivityView|
                0 <= k < c.branches@.len() && #[trigger] member(c.branches@[k].1, z) && x
                    == prefix_with(c.branches@[k].0@, z);
            lemma_key_prefix(c.branches@[k1].0@, y1);
            lemma_key_len(y1);
            let l2 = choose|l: int| 0 <= l < c.leafs@.len() && y == leaf_act(#[trigger] c.leafs@[l]@);
            lemma_key_len(y);
            assert(key_of(x).len() != key_of(y).len());
        } else {
            let (k2, y2) = choose|k: int, z: ActivityView|
                0 <= k < c.branches@.len() && #[trigger] member(c.branches@[k].1, z) && y
                    == prefix_with(c.branches@[k].0@, z);
            lemma_key_prefix(c.branches@[k2].0@, y2);
            lemma_key_len(y2);
            let l1 = choose|l: int| 0 <= l < c.leafs@.len() && x == leaf_act(#[trigger] c.leafs@[l]@);
            lemma_key_len(x);
            assert(key_of(x).len() != key_of(y).len());
        }
    }
}

proof fn lemma_key_prefix(seg: Seq<char>, y: ActivityView)
    ensures
        key_of(prefix_with(seg, y)) == seq![seg] + key_of(y),
{
    assert(key_of(prefix_with(seg, y)) =~= seq![seg] + key_of(y));
}

proof fn lemma_empty_category(c: ActivityCategory, x: ActivityView)
    requires
        c.branches@.len() == 0,
        c.leafs@.len() == 0,
    ensures
        !member(c, x),
{
    assert(category_activities(c) =~= Seq::<ActivityView>::empty());
}

/// What `insert` promises, of the tree before and after.
pub open spec fn inserted(old_c: ActivityCategory, new_c: ActivityCategory, a: ActivityView) -> bool {
    &&& member(new_c, a)
    &&& forall|x: ActivityView|
        member(old_c, x) && key_of(x) != key_of(a) ==> #[trigger] member(new_c, x)
    &&& forall|x: ActivityView| #[trigger] member(new_c, x) ==> x == a || member(old_c, x)
}

proof fn lemma_branch_updated(
    new_c: ActivityCategory,
    old_c: ActivityCategory,
    k: int,
    old_sub: ActivityCategory,
    a: ActivityView,
    rest: ActivityView,
)
    requires
        0 <= k < old_c.branches@.len(),
        old_c.branches@[k].1 == old_sub,
        new_c.leafs == old_c.leafs,
        new_c.branches@ == old_c.branches@.update(k, (old_c.branches@[k].0, new_c.branches@[k].1)),
        inserted(old_sub, new_c.branches@[k].1, rest),
        tree_ok(old_sub) ==> tree_ok(new_c.branches@[k].1),
        no_empty_branch(old_sub) ==> no_empty_branch(new_c.branches@[k].1),
        a == prefix_with(old_c.branches@[k].0@, rest),
    ensures
        level_ok(old_c) ==> level_ok(new_c),
        tree_ok(old_c) ==> tree_ok(new_c),
        no_empty_branch(old_c) ==> no_empty_branch(new_c),
        inserted(old_c, new_c, a),
{
    if no_empty_branch(old_c) {
        assert(no_empty_branch(old_c.branches@[k].1));
        assert forall|j: int| 0 <= j < new_c.branches@.len() implies (exists|y: ActivityView|
            member(new_c.branches@[j].1, y)) && no_empty_branch(#[trigger] new_c.branches@[j].1) by {
            if j != k {
                assert(new_c.branches@[j] == old_c.branches@[j]);
                assert(no_empty_branch(old_c.branches@[j].1));
                let y = choose|y: ActivityView| member(old_c.branches@[j].1, y);
                assert(member(new_c.branches@[j].1, y));
            } else {
                assert(member(new_c.branches@[j].1, rest));
            }
        }
    }
    if tree_ok(old_c) {
        assert(tree_ok(old_c.branches@[k].1));
        assert forall|j: int| 0 <= j < new_c.branches@.len() implies tree_ok(
            #[trigger] new_c.branches@[j].1,
        ) by {
            if j != k {
                assert(new_c.branches@[j] == old_c.branches@[j]);
                assert(tree_ok(old_c.branches@[j].1));
            }
        }
    }
    let seg = old_c.branches@[k].0@;
    let new_sub = new_c.branches@[k].1;
    lemma_key_prefix(seg, rest);
    lemma_member(new_c, a);
    assert(member(new_c.branches@[k].1, rest));
    assert forall|x: ActivityView| member(old_c, x) && key_of(x) != key_of(a) implies #[trigger] member(
        new_c,
        x,
    ) by {
        lemma_member(old_c, x);
        lemma_member(new_c, x);
        if branch_member(old_c, x) {
            let (j, y) = choose|j: int, y: ActivityView|
                0 <= j < old_c.branches@.len() && #[trigger] member(old_c.branches@[j].1, y) && x
                    == prefix_with(old_c.branches@[j].0@, y);
            if j == k {
                lemma_key_prefix(seg, y);
                assert(key_of(y) != key_of(rest));
                assert(member(new_c.branches@[j].1, y));
            } else {
                assert(new_c.branches@[j] == old_c.branches@[j]);
                assert(member(new_c.branches@[j].1, y));
            }
        } else {
            let m = choose|m: int|
                0 <= m < old_c.leafs@.len() && x == leaf_act(#[trigger] old_c.leafs@[m]@);
            assert(new_c.leafs@[m] == old_c.leafs@[m]);
        }
    }
    assert forall|x: ActivityView| #[trigger] member(new_c, x) implies x == a || member(old_c, x) by {
        lemma_member(old_c, x);
        lemma_member(new_c, x);
        if branch_member(new_c, x) {
            let (j, y) = choose|j: int, y: ActivityView|
                0 <= j < new_c.branches@.len() && #[trigger] member(new_c.branches@[j].1, y) && x
                    == prefix_with(new_c.branches@[j].0@, y);
            if j == k {
                if y != rest {
                    assert(member(old_c.branches@[j].1, y));
                }
            } else {
                assert(new_c.branches@[j] == old_c.branches@[j]);
                assert(member(old_c.branches@[j].1, y));
            }
        } else {
            let m = choose|m: int|
                0 <= m < new_c.leafs@.len() && x == leaf_act(#[trigger] new_c.leafs@[m]@);
            assert(new_c.leafs@[m] == old_c.leafs@[m]);
        }
    }
    if level_ok(old_c) {
        assert forall|p: int, q: int|
            0 <= p < new_c.branches@.len() && 0 <= q < new_c.branches@.len() && p != q implies #[trigger] new_c.branches@[p].0@
            != #[trigger] new_c.branches@[q].0@ by {
            assert(new_c.branches@[p].0 == old_c.branches@[p].0);
            assert(new_c.branches@[q].0 == old_c.branches@[q].0);
        }
        assert forall|p: int, q: int|
            0 <= p < new_c.leafs@.len() && 0 <= q < new_c.leafs@.len() && p != q implies #[trigger] new_c.leafs@[p]@.name
            != #[trigger] new_c.leafs@[q]@.name by {
            assert(new_c.leafs@[p] == old_c.leafs@[p]);
            assert(new_c.leafs@[q] == old_c.leafs@[q]);
        }
    }
}

proof fn lemma_branch_pushed(
    new_c: ActivityCategory,
    old_c: ActivityCategory,
    old_sub: ActivityCategory,
    a: ActivityView,
    rest: ActivityView,
)
    requires
        new_c.leafs == old_c.leafs,
        new_c.branches@.len() == old_c.branches@.len() + 1,
        new_c.branches@.drop_last() == old_c.branches@,
        forall|x: ActivityView| !member(old_sub, x),
        inserted(old_sub, new_c.branches@.last().1, rest),
        tree_ok(old_sub) ==> tree_ok(new_c.branches@.last().1),
        no_empty_branch(old_sub) ==> no_empty_branch(new_c.branches@.last().1),
        old_sub.branches@.len() == 0,
        old_sub.leafs@.len() == 0,
        a == prefix_with(new_c.branches@.last().0@, rest),
        forall|m: int|
            0 <= m < old_c.branches@.len() ==> old_c.branches@[m].0@ != new_c.branches@.last().0@,
    ensures
        level_ok(old_c) ==> level_ok(new_c),
        tree_ok(old_c) ==> tree_ok(new_c),
        no_empty_branch(old_c) ==> no_empty_branch(new_c),
        inserted(old_c, new_c, a),
{
    let k = old_c.branches@.len() as int;
    assert(tree_ok(old_sub));
    assert(no_empty_branch(old_sub));
    if no_empty_branch(old_c) {
        assert forall|j: int| 0 <= j < new_c.branches@.len() implies (exists|y: ActivityView|
            member(new_c.branches@[j].1, y)) && no_empty_branch(#[trigger] new_c.branches@[j].1) by {
            if j < k {
                assert(new_c.branches@[j] == new_c.branches@.drop_last()[j]);
                assert(no_empty_branch(old_c.branches@[j].1));
                let y = choose|y: ActivityView| member(old_c.branches@[j].1, y);
                assert(member(new_c.branches@[j].1, y));
            } else {
                assert(new_c.branches@[j] == new_c.branches@.last());
                assert(member(new_c.branches@[j].1, rest));
            }
        }
    }
    if tree_ok(old_c) {
        assert forall|j: int| 0 <= j < new_c.branches@.len() implies tree_ok(
            #[trigger] new_c.branches@[j].1,
        ) by {
            if j < k {
                assert(new_c.branches@[j] == new_c.branches@.drop_last()[j]);
                assert(tree_ok(old_c.branches@[j].1));
            } else {
                assert(new_c.branches@[j] == new_c.branches@.last());
            }
        }
    }
    assert(new_c.branches@[k] == new_c.branches@.last());
    assert forall|j: int| 0 <= j < k implies #[trigger] new_c.branches@[j] == old_c.branches@[j] by {
        assert(new_c.branches@.drop_last()[j] == new_c.branches@[j]);
    }
    lemma_member(new_c, a);
    assert(member(new_c.branches@[k].1, rest));
    assert forall|x: ActivityView| member(old_c, x) && key_of(x) != key_of(a) implies #[trigger] member(
        new_c,
        x,
    ) by {
        lemma_member(old_c, x);
        lemma_member(new_c, x);
        if branch_member(old_c, x) {
            let (j, y) = choose|j: int, y: ActivityView|
                0 <= j < old_c.branches@.len() && #[trigger] member(old_c.branches@[j].1, y) && x
                    == prefix_with(old_c.branches@[j].0@, y);
            assert(new_c.branches@[j] == old_c.branches@[j]);
            assert(member(new_c.branches@[j].1, y));
        } else {
            let m = choose|m: int|
                0 <= m < old_c.leafs@.len() && x == leaf_act(#[trigger] old_c.leafs@[m]@);
            assert(new_c.leafs@[m] == old_c.leafs@[m]);
        }
    }
    assert forall|x: ActivityView| #[trigger] member(new_c, x) implies x == a || member(old_c, x) by {
        lemma_member(old_c, x);
        lemma_member(new_c, x);
        if branch_member(new_c, x) {
            let (j, y) = choose|j: int, y: ActivityView|
                0 <= j < new_c.branches@.len() && #[trigger] member(new_c.branches@[j].1, y) && x
                    == prefix_with(new_c.branches@[j].0@, y);
            if j < k {
                assert(new_c.branches@[j] == old_c.branches@[j]);
                assert(member(old_c.branches@[j].1, y));
            }
        } else {
            let m = choose|m: int|
                0 <= m < new_c.leafs@.len() && x == leaf_act(#[trigger] new_c.leafs@[m]@);
            assert(new_c.leafs@[m] == old_c.leafs@[m]);
        }
    }
    if level_ok(old_c) {
        assert forall|p: int, q: int|
            0 <= p < new_c.branches@.len() && 0 <= q < new_c.branches@.len() && p != q implies #[trigger] new_c.branches@[p].0@
            != #[trigger] new_c.branches@[q].0@ by {
            if p < k && q < k {
                assert(new_c.branches@[p] == old_c.branches@[p]);
                assert(new_c.branches@[q] == old_c.branches@[q]);
            } else if p < k {
                assert(new_c.branches@[p] == old_c.branches@[p]);
            } else {
                assert(new_c.branches@[q] == old_c.branches@[q]);
            }
        }
        assert forall|p: int, q: int|
            0 <= p < new_c.leafs@.len() && 0 <= q < new_c.leafs@.len() && p != q implies #[trigger] new_c.leafs@[p]@.name
            != #[trigger] new_c.leafs@[q]@.name by {
            assert(new_c.leafs@[p] == old_c.leafs@[p]);
            assert(new_c.leafs@[q] == old_c.leafs@[q]);
        }
    }
}

impl ActivityCategory {
    /// A tree with no branches and no leaves.
    pub fn new() -> (r: ActivityCategory)
        ensures
            r.branches@.len() == 0,
            r.leafs@.len() == 0,
    {
        ActivityCategory { branches: Vec::new(), leafs: Vec::new() }
    }

    /// Puts `a` into the tree under its path; a leaf of the same name at that
    /// place is replaced.
    pub fn insert(&mut self, a: Activity)
        ensures
            level_ok(*old(self)) ==> level_ok(*final(self)),
            tree_ok(*old(self)) ==> tree_ok(*final(self)),
            no_empty_branch(*old(self)) ==> no_empty_branch(*final(self)),
            inserted(*old(self), *final(self), a@),
        decreases a@.path.len(),
    {
        let ghost a_view = a@;
        if a.path.len() == 0 {
            let ghost old_self = *self;
            let mut l: usize = 0;
            while l < self.leafs.len() && self.leafs[l].name != a.leaf.name
                invariant
                    *self == old_self,
                    a@ == a_view,
                    l <= self.leafs@.len(),
                    forall|m: int| 0 <= m < l ==> self.leafs@[m]@.name != a_view.leaf.name,
                decreases self.leafs@.len() - l,
            {
                l = l + 1;
            }
            let found = l < self.leafs.len();
            proof {
                if !found {
                    assert(forall|m: int|
                        0 <= m < old_self.leafs@.len() ==> old_self.leafs@[m]@.name
                            != a_view.leaf.name);
                } else {
                    assert(old_self.leafs@[l as int]@.name == a_view.leaf.name);
                }
            }
            proof {
                assert(a_view == leaf_act(a_view.leaf)) by {
                    assert(a_view.path =~= Seq::<Seq<char>>::empty());
                }
            }
            if found {
                self.leafs.set(l, a.leaf);
            } else {
                self.leafs.push(a.leaf);
            }
            proof {
                let new_self = *self;
                let li = if found {
                    l as int
                } else {
                    old_self.leafs@.len() as int
                };
                assert(new_self.branches == old_self.branches);
                assert(new_self.leafs@[li]@ == a_view.leaf);
                if no_empty_branch(old_self) {
                    assert forall|j: int| 0 <= j < new_self.branches@.len() implies (exists|
                        y: ActivityView,
                    | member(new_self.branches@[j].1, y)) && no_empty_branch(
                        #[trigger] new_self.branches@[j].1,
                    ) by {
                        assert(no_empty_branch(old_self.branches@[j].1));
                    }
                }
                if tree_ok(old_self) {
                    assert forall|j: int| 0 <= j < new_self.branches@.len() implies tree_ok(
                        #[trigger] new_self.branches@[j].1,
                    ) by {
                        assert(tree_ok(old_self.branches@[j].1));
                    }
                }
                lemma_member(new_self, a_view);
                assert forall|x: ActivityView|
                    member(old_self, x) && key_of(x) != key_of(a_view) implies #[trigger] member(
                    new_self,
                    x,
                ) by {
                    lemma_member(old_self, x);
                    lemma_member(new_self, x);
                    if branch_member(old_self, x) {
                        let (k, y) = choose|k: int, y: ActivityView|
                            0 <= k < old_self.branches@.len() && #[trigger] member(
                                old_self.branches@[k].1,
                                y,
                            ) && x == prefix_with(old_self.branches@[k].0@, y);
                        assert(member(new_self.branches@[k].1, y));
                    } else {
                        let m = choose|m: int|
                            0 <= m < old_self.leafs@.len() && x == leaf_act(
                                #[trigger] old_self.leafs@[m]@,
                            );
                        if found && m == l {
                            assert(key_of(x) =~= key_of(a_view));
                        } else {
                            assert(new_self.leafs@[m] == old_self.leafs@[m]);
                        }
                    }
                }
                assert forall|x: ActivityView| #[trigger]
                    member(new_self, x) implies x == a_view || member(old_self, x) by {
                    lemma_member(old_self, x);
                    lemma_member(new_self, x);
                    if branch_member(new_self, x) {
                        let (k, y) = choose|k: int, y: ActivityView|
                            0 <= k < new_self.branches@.len() && #[trigger] member(
                                new_self.branches@[k].1,
                                y,
                            ) && x == prefix_with(new_self.branches@[k].0@, y);
                        assert(member(old_self.branches@[k].1, y));
                    } else {
                        let m = choose|m: int|
                            0 <= m < new_self.leafs@.len() && x == leaf_act(
                                #[trigger] new_self.leafs@[m]@,
                            );
                        if m != li {
                            assert(new_self.leafs@[m] == old_self.leafs@[m]);
                        }
                    }
                }
                if level_ok(old_self) {
                    assert forall|p: int, q: int|
                        0 <= p < new_self.leafs@.len() && 0 <= q < new_self.leafs@.len() && p
                            != q implies #[trigger] new_self.leafs@[p]@.name
                        != #[trigger] new_self.leafs@[q]@.name by {
                        if p != li && q != li {
                            assert(new_self.leafs@[p] == old_self.leafs@[p]);
                            assert(new_self.leafs@[q] == old_self.leafs@[q]);
                        } else if p == li {
                            assert(new_self.leafs@[q] == old_self.leafs@[q]);
                            if found {
                                assert(old_self.leafs@[q]@.name != old_self.leafs@[li]@.name);
                            }
                        } else {
                            assert(new_self.leafs@[p] == old_self.leafs@[p]);
                            if found {
                                assert(old_self.leafs@[p]@.name != old_self.leafs@[li]@.name);
                            }
                        }
                    }
                }
            }
        } else {
            let ghost old_self = *self;
            let Activity { path, leaf } = a;
            let mut path = path;
            let ghost pv = path@;
            let seg = path.remove(0);
            let rest = Activity { path, leaf };
            proof {
                assert(rest@.path =~= a_view.path.drop_first());
                assert(a_view.path[0] == seg@);
                assert(a_view == prefix_with(seg@, rest@)) by {
                    assert(a_view.path =~= seq![seg@] + rest@.path);
                }
                lemma_key_prefix(seg@, rest@);
            }
            let mut k: usize = 0;
            while k < self.branches.len() && self.branches[k].0 != seg
                invariant
                    *self == old_self,
                    k <= self.branches@.len(),
                    forall|m: int| 0 <= m < k ==> self.branches@[m].0@ != seg@,
                decreases self.branches@.len() - k,
            {
                k = k + 1;
            }
            let found = k < self.branches.len();
            if found {
                let (s0, mut sub) = self.branches.remove(k);
                let ghost old_sub = sub;
                sub.insert(rest);
                self.branches.insert(k, (s0, sub));
                proof {
                    assert(self.branches@ =~= old_self.branches@.update(k as int, (s0, sub)));
                    assert(old_self.branches@[k as int].0@ == seg@);
                }
                proof {
                    lemma_branch_updated(*self, old_self, k as int, old_sub, a_view, rest@);
                }
            } else {
                let mut sub = ActivityCategory::new();
                let ghost old_sub = sub;
                sub.insert(rest);
                self.branches.push((seg, sub));
                proof {
                    assert forall|x: ActivityView| !member(old_sub, x) by {
                        lemma_empty_category(old_sub, x);
                    }
                    assert(self.branches@.drop_last() =~= old_self.branches@);
                    lemma_branch_pushed(*self, old_self, old_sub, a_view, rest@);
                }
            }
        }
    }
}

/// Some activity of the tree is at `key`.
pub open spec fn key_member(c: ActivityCategory, key: Seq<Seq<char>>) -> bool {
    exists|x: ActivityView| #[trigger] member(c, x) && key_of(x) == key
}

/// Some activity of `list` has `seg` as the first segment of its path.
pub open spec fn starts_some(list: Seq<ActivityView>, seg: Seq<char>) -> bool {
    exists|j: int| 0 <= j < list.len() && list[j].path.len() > 0 && #[trigger] list[j].path[0] == seg
}

/// `x` is one of the first `n` activities of `list`, and none after it among
/// them has its path.
pub open spec fn last_at_path(list: Seq<ActivityView>, n: int, x: ActivityView) -> bool {
    exists|j: int|
        0 <= j < n && #[trigger] list[j] == x && forall|m: int|
            j < m < n ==> key_of(#[trigger] list[m]) != key_of(x)
}

impl ActivityCategory {
    /// The tree of the given activities: each stands under its path, and of
    /// two with the same path the later one stays.
    pub fn from_activities(activities: Vec<Activity>) -> (r: ActivityCategory)
        ensures
            tree_ok(r),
            no_empty_branch(r),
            paths_unique(r),
            forall|k: int|
                0 <= k < r.branches@.len() ==> starts_some(
                    views_of(activities@),
                    #[trigger] r.branches@[k].0@,
                ),
            forall|x: ActivityView| #[trigger]
                member(r, x) ==> last_at_path(views_of(activities@), activities@.len() as int, x),
            forall|j: int|
                0 <= j < activities@.len() ==> key_member(r, key_of(#[trigger] activities@[j]@)),
    {
        let ghost list = views_of(activities@);
        let mut c = ActivityCategory::new();
        let mut i: usize = 0;
        proof {
            assert forall|x: ActivityView| !member(c, x) by {
                lemma_empty_category(c, x);
            }
        }
        while i < activities.len()
            invariant
                list == views_of(activities@),
                i <= activities@.len(),
                tree_ok(c),
                no_empty_branch(c),
                forall|x: ActivityView| #[trigger] member(c, x) ==> last_at_path(list, i as int, x),
                forall|j: int| 0 <= j < i ==> key_member(c, key_of(#[trigger] list[j])),
            decreases activities@.len() - i,
        {
            let a = activities[i].copy_activity();
            let ghost old_c = c;
            c.insert(a);
            proof {
                assert(list[i as int] == a@);
                lemma_tree_paths_unique(c);
                assert forall|x: ActivityView| #[trigger] member(c, x) implies last_at_path(
                    list,
                    i as int + 1,
                    x,
                ) by {
                    if x == a@ {
                        assert(list[i as int] == x);
                    } else {
                        assert(member(old_c, x));
                        assert(key_of(x) != key_of(a@));
                        let j = choose|j: int|
                            0 <= j < i && #[trigger] list[j] == x && forall|m: int|
                                j < m < i ==> key_of(#[trigger] list[m]) != key_of(x);
                        assert forall|m: int| j < m < i + 1 implies key_of(#[trigger] list[m])
                            != key_of(x) by {
                            if m == i {
                                assert(list[m] == a@);
                            }
                        }
                    }
                }
                assert forall|j: int| 0 <= j < i + 1 implies key_member(
                    c,
                    key_of(#[trigger] list[j]),
                ) by {
                    if key_of(list[j]) == key_of(a@) {
                        assert(member(c, a@));
                    } else {
                        let x = choose|x: ActivityView| #[trigger]
                            member(old_c, x) && key_of(x) == key_of(list[j]);
                        assert(member(c, x));
                    }
                }
            }
            i = i + 1;
        }
        proof {
            lemma_tree_paths_unique(c);
            assert forall|k: int| 0 <= k < c.branches@.len() implies starts_some(
                list,
                #[trigger] c.branches@[k].0@,
            ) by {
                let y = choose|y: ActivityView| member(c.branches@[k].1, y);
                let x = prefix_with(c.branches@[k].0@, y);
                lemma_member(c, x);
                assert(branch_member(c, x));
                assert(member(c, x));
                let j = choose|j: int|
                    0 <= j < i && #[trigger] list[j] == x && forall|m: int|
                        j < m < i ==> key_of(#[trigger] list[m]) != key_of(x);
                assert(x.path[0] == c.branches@[k].0@);
            }
            assert forall|j: int| 0 <= j < activities@.len() implies key_member(
                c,
                key_of(#[trigger] activities@[j]@),
            ) by {
                assert(list[j] == activities@[j]@);
            }
        }
        c
    }
}

/// Inserts `x` after every activity whose full path comes no later than its own.
pub open spec fn insert_by_path(sorted: Seq<ActivityView>, x: ActivityView) -> Seq<ActivityView>
    decreases sorted.len(),
{
    if sorted.len() == 0 {
        seq![x]
    } else if text_le(full_path_of(sorted.last()), full_path_of(x)) {
        sorted.push(x)
    } else {
        insert_by_path(sorted.drop_last(), x).push(sorted.last())
    }
}

/// The activities ordered by full path; equal paths keep their order.
pub open spec fn sort_by_path(acts: Seq<ActivityView>) -> Seq<ActivityView>
    decreases acts.len(),
{
    if acts.len() == 0 {
        Seq::empty()
    } else {
        insert_by_path(sort_by_path(acts.drop_last()), acts.last())
    }
}

proof fn lemma_insert_by_path(sorted: Seq<ActivityView>, x: ActivityView, j: int)
    requires
        0 <= j <= sorted.len(),
        forall|i: int|
            j <= i < sorted.len() ==> !text_le(full_path_of(#[trigger] sorted[i]), full_path_of(x)),
        j == 0 || text_le(full_path_of(sorted[j - 1]), full_path_of(x)),
    ensures
        insert_by_path(sorted, x) == sorted.insert(j, x),
    decreases sorted.len(),
{
    if sorted.len() == 0 {
        assert(sorted.insert(j, x) =~= seq![x]);
    } else if j == sorted.len() {
        assert(sorted.insert(j, x) =~= sorted.push(x));
    } else {
        let s2 = sorted.drop_last();
        assert(!text_le(full_path_of(sorted[sorted.len() - 1]), full_path_of(x)));
        assert forall|i: int| j <= i < s2.len() implies !text_le(
            full_path_of(#[trigger] s2[i]),
            full_path_of(x),
        ) by {
            assert(s2[i] == sorted[i]);
        }
        lemma_insert_by_path(s2, x, j);
        assert(s2.insert(j, x).push(sorted.last()) =~= sorted.insert(j, x));
    }
}

/// Each activity's full path comes no later than the next one's.
pub open spec fn path_sorted(acts: Seq<ActivityView>) -> bool {
    forall|i: int|
        0 <= i < acts.len() - 1 ==> text_le(
            full_path_of(#[trigger] acts[i]),
            full_path_of(acts[i + 1]),
        )
}

/// `a` and `b` hold the same activities the same number of times.
pub open spec fn same_activities(a: Seq<ActivityView>, b: Seq<ActivityView>) -> bool {
    a.to_multiset() == b.to_multiset()
}

proof fn lemma_insert_by_path_place(sorted: Seq<ActivityView>, x: ActivityView)
    ensures
        exists|j: int|
            0 <= j <= sorted.len() && insert_by_path(sorted, x) == sorted.insert(j, x) && (j == 0
                || text_le(full_path_of(sorted[j - 1]), full_path_of(x))) && forall|i: int|
                j <= i < sorted.len() ==> !text_le(full_path_of(#[trigger] sorted[i]), full_path_of(x)),
    decreases sorted.len(),
{
    if sorted.len() == 0 {
        assert(insert_by_path(sorted, x) =~= sorted.insert(0, x));
    } else if text_le(full_path_of(sorted.last()), full_path_of(x)) {
        assert(insert_by_path(sorted, x) =~= sorted.insert(sorted.len() as int, x));
    } else {
        let s2 = sorted.drop_last();
        lemma_insert_by_path_place(s2, x);
        let j = choose|j: int|
            0 <= j <= s2.len() && insert_by_path(s2, x) == s2.insert(j, x) && (j == 0 || text_le(
                full_path_of(s2[j - 1]),
                full_path_of(x),
            )) && forall|i: int|
                j <= i < s2.len() ==> !text_le(full_path_of(#[trigger] s2[i]), full_path_of(x));
        assert(s2.insert(j, x).push(sorted.last()) =~= sorted.insert(j, x));
        if j > 0 {
            assert(sorted[j - 1] == s2[j - 1]);
        }
        assert forall|i: int| j <= i < sorted.len() implies !text_le(
            full_path_of(#[trigger] sorted[i]),
            full_path_of(x),
        ) by {
            if i < s2.len() {
                assert(sorted[i] == s2[i]);
            }
        }
    }
}

/// Sorting by full path orders the activities and keeps each of them.
pub proof fn lemma_sort_by_path(acts: Seq<ActivityView>)
    ensures
        path_sorted(sort_by_path(acts)),
        same_activities(sort_by_path(acts), acts),
    decreases acts.len(),
{
    if acts.len() == 0 {
        assert(sort_by_path(acts) =~= acts);
    } else {
        let pre = acts.drop_last();
        let x = acts.last();
        lemma_sort_by_path(pre);
        let sp = sort_by_path(pre);
        lemma_insert_by_path_place(sp, x);
        let j = choose|j: int|
            0 <= j <= sp.len() && insert_by_path(sp, x) == sp.insert(j, x) && (j == 0 || text_le(
                full_path_of(sp[j - 1]),
                full_path_of(x),
            )) && forall|i: int|
                j <= i < sp.len() ==> !text_le(full_path_of(#[trigger] sp[i]), full_path_of(x));
        let out = sp.insert(j, x);
        assert(sort_by_path(acts) == out);
        assert forall|i: int| 0 <= i < out.len() - 1 implies text_le(
            full_path_of(#[trigger] out[i]),
            full_path_of(out[i + 1]),
        ) by {
            if i + 1 < j {
                assert(out[i] == sp[i] && out[i + 1] == sp[i + 1]);
            } else if i + 1 == j {
                assert(out[i] == sp[j - 1] && out[i + 1] == x);
            } else if i == j {
                assert(out[i] == x && out[i + 1] == sp[j]);
                lemma_text_le_total(full_path_of(sp[j]), full_path_of(x));
            } else {
                assert(out[i] == sp[i - 1] && out[i + 1] == sp[i]);
            }
        }
        out.to_multiset_ensures();
        pre.to_multiset_ensures();
        assert(out.remove(j) =~= sp);
        assert(out[j] == x);
        assert(out.contains(x));
        assert(out.to_multiset().count(x) > 0);
        assert(out.to_multiset() =~= sp.to_multiset().insert(x));
        assert(acts =~= pre.push(x));
    }
}

/// Orders activities by full path, keeping the order of equal paths.
pub fn sort_activities(list: Vec<Activity>) -> (r: Vec<Activity>)
    ensures
        views_of(r@) == sort_by_path(views_of(list@)),
{
    let ghost v = views_of(list@);
    let mut sorted: Vec<Activity> = Vec::new();
    let mut i: usize = 0;
    proof {
        assert(v.take(0) =~= Seq::<ActivityView>::empty());
    }
    while i < list.len()
        invariant
            v == views_of(list@),
            i <= list@.len(),
            views_of(sorted@) == sort_by_path(v.take(i as int)),
        decreases list@.len() - i,
    {
        let a = list[i].copy_activity();
        let key = a.full_path();
        let ghost sv = views_of(sorted@);
        let mut j: usize = sorted.len();
        while j > 0 && !text_le_exec(sorted[j - 1].full_path().as_str(), key.as_str())
            invariant
                sv == views_of(sorted@),
                j <= sorted@.len(),
                key@ == full_path_of(a@),
                forall|m: int|
                    j <= m < sorted@.len() ==> !text_le(full_path_of(#[trigger] sv[m]), key@),
            decreases j,
        {
            j = j - 1;
        }
        proof {
            lemma_insert_by_path(sv, a@, j as int);
            assert(v.take(i as int + 1).drop_last() =~= v.take(i as int));
            assert(v[i as int] == a@);
        }
        sorted.insert(j, a);
        proof {
            assert(views_of(sorted@) =~= sv.insert(j as int, a@));
        }
        i = i + 1;
    }
    proof {
        assert(v.take(i as int) =~= v);
    }
    sorted
}

impl ActivityCategory {
    /// The leaves at the top of the tree, as activities.
    pub fn leaf_list(&self) -> (r: Vec<Activity>)
        ensures
            views_of(r@) == leaf_activities(self.leafs@),
    {
        let mut out: Vec<Activity> = Vec::new();
        let mut j: usize = 0;
        while j < self.leafs.len()
            invariant
                j <= self.leafs@.len(),
                views_of(out@) == leaf_activities(self.leafs@).take(j as int),
            decreases self.leafs@.len() - j,
        {
            let a = Activity::new(Vec::new(), self.leafs[j].copy_leaf());
            let ghost before = out@;
            out.push(a);
            proof {
                assert(a@.path =~= Seq::<Seq<char>>::empty());
                assert(views_of(out@) =~= views_of(before).push(a@));
                assert(leaf_activities(self.leafs@).take(j as int + 1) =~= leaf_activities(
                    self.leafs@,
                ).take(j as int).push(a@));
            }
            j = j + 1;
        }
        proof {
            assert(leaf_activities(self.leafs@).take(j as int) =~= leaf_activities(self.leafs@));
        }
        out
    }

    /// Every activity of the tree with its full path, ordered by full path.
    pub fn as_activities_sorted(self) -> (r: Vec<Activity>)
        ensures
            views_of(r@) == sort_by_path(category_activities(self)),
            path_sorted(views_of(r@)),
            same_activities(views_of(r@), category_activities(self)),
    {
        proof {
            lemma_sort_by_path(category_activities(self));
        }
        sort_activities(self.activities_of())
    }
}

} // verus!
