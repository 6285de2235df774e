//! Rating tables read off gradient-boosted trees.
//!
//! Every root-to-node path of a tree is a conjunction of splits. The table for a path
//! lays out every combination of the bounds and categories the path mentions, one
//! feature per column, and carries the node's value on the rows that satisfy every
//! split and zero elsewhere. A tree is then the sum of the tables of its leaves; the
//! analysis layout instead gives every node below the root a table carrying what it
//! adds to its parent.
use crate::features::WILDCARD;
use crate::frame::{ColumnValues, Frame, FrameColumn};
use crate::plan::{
    parse_code, spec_parse_code, axis_len, insert_code, insert_key, interaction_table, key_of, level_index, odometer_column, span,
    Axis, BuildError,
};
use crate::quantity::{Quantity, INFINITY_KEY};
use crate::rating_model::{factor_column_name, factor_name, RatingTable};
use crate::text::push_char;
use vstd::prelude::*;

verus! {

// ---------------------------------------------------------------- category lists

/// `p` with `head` set before its first piece.
pub open spec fn join_front(head: Seq<char>, p: Seq<Seq<char>>) -> Seq<Seq<char>> {
    p.update(0, head + p[0])
}

/// The pieces of `s` between the occurrences of `||`, found left to right as
/// `str::split("||")` finds them.
pub open spec fn bar_pieces(s: Seq<char>) -> Seq<Seq<char>>
    decreases s.len(),
{
    if s.len() == 0 {
        seq![Seq::empty()]
    } else if s.len() >= 2 && s[0] == '|' && s[1] == '|' {
        seq![Seq::<char>::empty()] + bar_pieces(s.skip(2))
    } else {
        join_front(seq![s[0]], bar_pieces(s.skip(1)))
    }
}

/// The codes the pieces read as, in order, each piece that reads as a 32-bit integer
/// giving one and the others none.
pub open spec fn parsed_codes(pieces: Seq<Seq<char>>) -> Seq<i32>
    decreases pieces.len(),
{
    if pieces.len() == 0 {
        Seq::empty()
    } else {
        parsed_codes(pieces.drop_last()) + match spec_parse_code(pieces.last()) {
            Some(c) => seq![c],
            None => Seq::empty(),
        }
    }
}

/// There is always a first piece.
proof fn lemma_bar_pieces_nonempty(s: Seq<char>)
    ensures
        bar_pieces(s).len() >= 1,
    decreases s.len(),
{
    if s.len() >= 2 && s[0] == '|' && s[1] == '|' {
        lemma_bar_pieces_nonempty(s.skip(2));
    } else if s.len() > 0 {
        lemma_bar_pieces_nonempty(s.skip(1));
    }
}

/// The categories of a categorical split as a tree model writes them: codes joined by
/// `||`, each piece read as a 32-bit integer and the pieces that do not read so left
/// out.
pub fn category_codes(s: &str) -> (res: Vec<i32>)
    ensures
        res@ == parsed_codes(bar_pieces(s@)),
{
    let n = s.unicode_len();
    let mut codes: Vec<i32> = Vec::new();
    let mut cur = String::new();
    let ghost mut done: Seq<Seq<char>> = Seq::empty();
    let mut k: usize = 0;
    proof {
        lemma_bar_pieces_nonempty(s@);
        assert(s@.skip(0) =~= s@);
        assert(join_front(Seq::empty(), bar_pieces(s@)) =~= bar_pieces(s@));
    }
    while k < n
        invariant
            n == s@.len(),
            k <= n,
            bar_pieces(s@) == done + join_front(cur@, bar_pieces(s@.skip(k as int))),
            codes@ == parsed_codes(done),
        decreases n - k,
    {
        let c = s.get_char(k);
        let ghost rest = s@.skip(k as int);
        proof {
            lemma_bar_pieces_nonempty(rest);
        }
        if k + 1 < n && c == '|' && s.get_char(k + 1) == '|' {
            proof {
                let later = bar_pieces(rest.skip(2));
                lemma_bar_pieces_nonempty(rest.skip(2));
                assert(rest.skip(2) =~= s@.skip(k + 2));
                assert(bar_pieces(rest) == seq![Seq::<char>::empty()] + later);
                assert(join_front(cur@, bar_pieces(rest)) =~= seq![cur@] + join_front(Seq::empty(), later));
                assert(join_front(Seq::empty(), later) =~= later);
                assert(done.push(cur@) + later =~= done + (seq![cur@] + later));
                assert(done.push(cur@).drop_last() =~= done);
            }
            if let Some(code) = parse_code(cur.as_str()) {
                codes.push(code);
            }
            proof {
                done = done.push(cur@);
            }
            cur = String::new();
            proof {
                assert(join_front(cur@, bar_pieces(s@.skip(k + 2))) =~= bar_pieces(s@.skip(k + 2)));
            }
            k += 2;
        } else {
            proof {
                let later = bar_pieces(rest.skip(1));
                lemma_bar_pieces_nonempty(rest.skip(1));
                assert(rest.skip(1) =~= s@.skip(k + 1));
                assert(bar_pieces(rest) == join_front(seq![c], later));
                assert(cur@ + (seq![c] + later[0]) =~= cur@.push(c) + later[0]);
                assert(join_front(cur@, join_front(seq![c], later)) =~= join_front(cur@.push(c), later));
            }
            push_char(&mut cur, c);
            k += 1;
        }
    }
    proof {
        assert(s@.skip(n as int) =~= Seq::<char>::empty());
        assert(join_front(cur@, seq![Seq::<char>::empty()]) =~= seq![cur@]);
        assert(bar_pieces(s@) =~= done.push(cur@));
        assert(done.push(cur@).drop_last() =~= done);
    }
    if let Some(code) = parse_code(cur.as_str()) {
        codes.push(code);
    }
    codes
}

// ---------------------------------------------------------------- splits and paths

/// The branch of a split that a path takes.
#[derive(Debug, Clone)]
pub enum Decision {
    /// The left branch of a threshold split: at most the bound.
    AtMost(i64),
    /// The right branch of a threshold split: above the bound.
    Above(i64),
    /// The left branch of a categorical split: one of these categories.
    In(Vec<i32>),
    /// The right branch of a categorical split: none of these categories, or the
    /// wildcard.
    NotIn(Vec<i32>),
}

/// A branch as the specifications read it.
pub enum Test {
    AtMost(i64),
    Above(i64),
    In(Seq<i32>),
    NotIn(Seq<i32>),
}

impl View for Decision {
    type V = Test;

    open spec fn view(&self) -> Test {
        match self {
            Decision::AtMost(t) => Test::AtMost(*t),
            Decision::Above(t) => Test::Above(*t),
            Decision::In(c) => Test::In(c@),
            Decision::NotIn(c) => Test::NotIn(c@),
        }
    }
}

/// One split along a path: the feature it reads and the branch taken.
#[derive(Debug, Clone)]
pub struct SplitNodeInfo {
    pub feature_name: String,
    pub decision: Decision,
}

impl View for SplitNodeInfo {
    type V = (Seq<char>, Test);

    open spec fn view(&self) -> (Seq<char>, Test) {
        (self.feature_name@, self.decision@)
    }
}

/// The splits from the root of a tree down to one of its nodes.
#[derive(Debug, Clone)]
pub struct PathInfo {
    pub path: Vec<SplitNodeInfo>,
}

/// A path as the specifications read it.
pub open spec fn path_view(path: Seq<SplitNodeInfo>) -> Seq<(Seq<char>, Test)> {
    path.map_values(|s: SplitNodeInfo| s@)
}

/// Whether a branch is categorical.
pub open spec fn is_category_test(t: Test) -> bool {
    t is In || t is NotIn
}

/// The bound of a threshold branch.
pub open spec fn test_threshold(t: Test) -> Option<i64> {
    match t {
        Test::AtMost(k) => Some(k),
        Test::Above(k) => Some(k),
        _ => None,
    }
}

/// The categories of a categorical branch.
pub open spec fn test_categories(t: Test) -> Seq<i32> {
    match t {
        Test::In(c) => c,
        Test::NotIn(c) => c,
        _ => Seq::empty(),
    }
}

/// The features a path splits on, each once, in the order they first appear.
pub open spec fn path_features(p: Seq<(Seq<char>, Test)>) -> Seq<Seq<char>>
    decreases p.len(),
{
    if p.len() == 0 {
        Seq::empty()
    } else {
        let prev = path_features(p.drop_last());
        if prev.contains(p.last().0) {
            prev
        } else {
            prev.push(p.last().0)
        }
    }
}

/// The features of a path are those it splits on, and none appears twice.
pub proof fn lemma_path_features(p: Seq<(Seq<char>, Test)>)
    ensures
        forall|f: Seq<char>|
            path_features(p).contains(f) <==> exists|i: int| 0 <= i < p.len() && #[trigger] p[i].0 == f,
        forall|a: int, b: int|
            0 <= a < b < path_features(p).len() ==> path_features(p)[a] != path_features(p)[b],
    decreases p.len(),
{
    if p.len() > 0 {
        let q = p.drop_last();
        lemma_path_features(q);
        let prev = path_features(q);
        assert forall|f: Seq<char>|
            path_features(p).contains(f) <==> exists|i: int| 0 <= i < p.len() && #[trigger] p[i].0 == f by {
            if path_features(p).contains(f) {
                if prev.contains(f) {
                    let i = choose|i: int| 0 <= i < q.len() && #[trigger] q[i].0 == f;
                    assert(p[i].0 == f);
                } else {
                    let k = choose|k: int| 0 <= k < path_features(p).len() && path_features(p)[k] == f;
                    assert(k == prev.len());
                    assert(p[p.len() - 1].0 == f);
                }
            }
            if exists|i: int| 0 <= i < p.len() && #[trigger] p[i].0 == f {
                let i = choose|i: int| 0 <= i < p.len() && #[trigger] p[i].0 == f;
                if i < p.len() - 1 {
                    assert(q[i].0 == f);
                    assert(prev.contains(f));
                    let k = choose|k: int| 0 <= k < prev.len() && prev[k] == f;
                    assert(path_features(p)[k] == f);
                } else {
                    if !prev.contains(f) {
                        assert(path_features(p)[prev.len() as int] == f);
                    }
                }
            }
        }
    }
}

/// The names of a path's features, in the order they first appear.
fn features_of(path: &Vec<SplitNodeInfo>) -> (res: Vec<String>)
    ensures
        res.len() == path_features(path_view(path@)).len(),
        forall|a: int| 0 <= a < res.len() ==> #[trigger] res@[a]@ == path_features(path_view(path@))[a],
{
    let ghost p = path_view(path@);
    let mut out: Vec<String> = Vec::new();
    let mut i: usize = 0;
    while i < path.len()
        invariant
            p == path_view(path@),
            i <= path.len(),
            out.len() == path_features(p.take(i as int)).len(),
            forall|a: int| 0 <= a < out.len() ==> #[trigger] out@[a]@ == path_features(p.take(i as int))[a],
        decreases path.len() - i,
    {
        let ghost prev = path_features(p.take(i as int));
        proof {
            assert(p.take(i + 1).drop_last() =~= p.take(i as int));
            assert(p.take(i + 1).last() == p[i as int]);
            assert(p[i as int] == path@[i as int]@);
        }
        let name = &path[i].feature_name;
        let mut j: usize = 0;
        let mut seen = false;
        while j < out.len()
            invariant
                j <= out.len(),
                out.len() == prev.len(),
                forall|a: int| 0 <= a < out.len() ==> #[trigger] out@[a]@ == prev[a],
                seen <==> exists|a: int| 0 <= a < j && prev[a] == name@,
            decreases out.len() - j,
        {
            if out[j] == *name {
                seen = true;
            }
            j += 1;
        }
        if !seen {
            let ghost before = out@;
            out.push(name.clone());
            proof {
                assert(!prev.contains(name@));
                assert forall|a: int| 0 <= a < out.len() implies #[trigger] out@[a]@ == path_features(p.take(i + 1))[a] by {
                    if a < prev.len() {
                        assert(out@[a] == before[a]);
                    }
                }
            }
        } else {
            proof {
                assert(prev.contains(name@));
            }
        }
        i += 1;
    }
    proof {
        assert(p.take(path.len() as int) =~= p);
    }
    out
}

// ---------------------------------------------------------------- the axis of one feature

/// Some split on `f` along the path is categorical.
pub open spec fn category_split(p: Seq<(Seq<char>, Test)>, f: Seq<char>) -> bool {
    exists|i: int| 0 <= i < p.len() && p[i].0 == f && #[trigger] is_category_test(p[i].1)
}

/// Some split on `f` along the path is a threshold.
pub open spec fn threshold_split(p: Seq<(Seq<char>, Test)>, f: Seq<char>) -> bool {
    exists|i: int| 0 <= i < p.len() && p[i].0 == f && #[trigger] test_threshold(p[i].1) is Some
}

/// `f` is split on both by threshold and by category along the path.
pub open spec fn mixed(p: Seq<(Seq<char>, Test)>, f: Seq<char>) -> bool {
    category_split(p, f) && threshold_split(p, f)
}

/// `x` is one of the categories some split on `f` names.
pub open spec fn names_category(p: Seq<(Seq<char>, Test)>, f: Seq<char>, x: i32) -> bool {
    exists|i: int| 0 <= i < p.len() && p[i].0 == f && #[trigger] test_categories(p[i].1).contains(x)
}

/// `k` is the bound of some threshold split on `f`.
pub open spec fn names_bound(p: Seq<(Seq<char>, Test)>, f: Seq<char>, k: i64) -> bool {
    exists|i: int| 0 <= i < p.len() && p[i].0 == f && #[trigger] test_threshold(p[i].1) == Some(k)
}

/// Strictly ascending codes.
pub open spec fn ascending_codes(v: Seq<i32>) -> bool {
    forall|i: int, j: int| 0 <= i < j < v.len() ==> v[i] < v[j]
}

/// Numbers with strictly ascending keys.
pub open spec fn ascending_bounds(v: Seq<Quantity>) -> bool {
    &&& forall|i: int| 0 <= i < v.len() ==> (#[trigger] v[i]) is Ordered
    &&& forall|i: int, j: int| 0 <= i < j < v.len() ==> key_of(v[i]) < key_of(v[j])
}

/// The column a path lays out for feature `f`: for a categorical feature the wildcard
/// and every category its splits name, ascending; otherwise every bound its splits
/// name and then no bound at all, ascending.
pub open spec fn axis_of(p: Seq<(Seq<char>, Test)>, f: Seq<char>, axis: Axis) -> bool {
    match axis {
        Axis::Categorical(v) => {
            &&& category_split(p, f)
            &&& ascending_codes(v@)
            &&& forall|x: i32| v@.contains(x) <==> (x == WILDCARD || names_category(p, f, x))
        },
        Axis::Numeric(v) => {
            &&& !category_split(p, f)
            &&& ascending_bounds(v@)
            &&& forall|q: Quantity|
                v@.contains(q) <==> (q matches Quantity::Ordered(k) && (k == INFINITY_KEY
                    || names_bound(p, f, k)))
        },
    }
}

/// The keys as numbers.
fn as_bounds(keys: Vec<i64>) -> (res: Vec<Quantity>)
    ensures
        res.len() == keys.len(),
        forall|i: int| 0 <= i < res.len() ==> #[trigger] res@[i] == Quantity::Ordered(keys@[i]),
{
    let mut out: Vec<Quantity> = Vec::new();
    let mut i: usize = 0;
    while i < keys.len()
        invariant
            i <= keys.len(),
            out.len() == i,
            forall|j: int| 0 <= j < i ==> #[trigger] out@[j] == Quantity::Ordered(keys@[j]),
        decreases keys.len() - i,
    {
        out.push(Quantity::Ordered(keys[i]));
        i += 1;
    }
    out
}

/// Adds every code of `cats` to strictly ascending codes.
#[verifier::spinoff_prover]
fn insert_codes(acc: &mut Vec<i32>, cats: &Vec<i32>)
    requires
        ascending_codes(old(acc)@),
    ensures
        ascending_codes(final(acc)@),
        forall|x: i32| final(acc)@.contains(x) <==> (old(acc)@.contains(x) || cats@.contains(x)),
{
    let ghost before = acc@;
    let mut m: usize = 0;
    while m < cats.len()
        invariant
            m <= cats.len(),
            ascending_codes(acc@),
            forall|x: i32| acc@.contains(x) <==> (before.contains(x) || cats@.take(m as int).contains(x)),
        decreases cats.len() - m,
    {
        let ghost mid = acc@;
        insert_code(acc, cats[m]);
        proof {
            assert(forall|x: i32| acc@.contains(x) <==> (mid.contains(x) || x == cats@[m as int]));
            assert(forall|x: i32| mid.contains(x) <==> (before.contains(x) || cats@.take(m as int).contains(x)));
            assert(cats@.take(m + 1) =~= cats@.take(m as int).push(cats@[m as int]));
            assert forall|x: i32| acc@.contains(x) <==> (before.contains(x) || cats@.take(m + 1).contains(x)) by {
                let s1 = cats@.take(m + 1);
                let s0 = cats@.take(m as int);
                if s1.contains(x) && x != cats@[m as int] {
                    let t = choose|t: int| 0 <= t < s1.len() && #[trigger] s1[t] == x;
                    assert(s0[t] == x);
                }
                if s0.contains(x) {
                    let t = choose|t: int| 0 <= t < s0.len() && #[trigger] s0[t] == x;
                    assert(s1[t] == x);
                }
                if x == cats@[m as int] {
                    assert(cats@.take(m + 1)[m as int] == x);
                }
            }
        }
        m += 1;
    }
    proof {
        assert(cats@.take(cats.len() as int) =~= cats@);
    }
}

/// The column a path lays out for `f`, or nothing when `f` is split on both ways.
fn feature_axis(path: &Vec<SplitNodeInfo>, f: &String) -> (res: Option<Axis>)
    ensures
        match res {
            None => mixed(path_view(path@), f@),
            Some(axis) => !mixed(path_view(path@), f@) && axis_of(path_view(path@), f@, axis),
        },
{
    let ghost p = path_view(path@);
    let mut codes: Vec<i32> = vec![WILDCARD];
    let mut keys: Vec<i64> = vec![INFINITY_KEY];
    let mut has_cat = false;
    let mut has_num = false;
    let mut i: usize = 0;
    while i < path.len()
        invariant
            p == path_view(path@),
            i <= path.len(),
            ascending_codes(codes@),
            forall|i1: int, j1: int| 0 <= i1 < j1 < keys.len() ==> keys@[i1] < keys@[j1],
            forall|x: i32| codes@.contains(x) <==> (x == WILDCARD || names_category(p.take(i as int), f@, x)),
            forall|k: i64| keys@.contains(k) <==> (k == INFINITY_KEY || names_bound(p.take(i as int), f@, k)),
            has_cat == category_split(p.take(i as int), f@),
            has_num == threshold_split(p.take(i as int), f@),
        decreases path.len() - i,
    {
        let ghost q = p.take(i as int);
        let ghost q1 = p.take(i + 1);
        proof {
            assert(p[i as int] == path@[i as int]@);
            assert forall|j: int| 0 <= j < i implies q1[j] == q[j] by {}
            assert(q1[i as int] == p[i as int]);
        }
        if path[i].feature_name == *f {
            match &path[i].decision {
                Decision::In(cats) | Decision::NotIn(cats) => {
                    has_cat = true;
                    let ghost before = codes@;
                    insert_codes(&mut codes, cats);
                    proof {
                        assert(test_categories(p[i as int].1) == cats@);
                        assert(is_category_test(q1[i as int].1));
                        assert forall|x: i32| codes@.contains(x) <==> (x == WILDCARD || names_category(q1, f@, x)) by {
                            if names_category(q1, f@, x) {
                                let j = choose|j: int| 0 <= j < q1.len() && q1[j].0 == f@ && #[trigger] test_categories(q1[j].1).contains(x);
                                if j < i {
                                    assert(names_category(q, f@, x)) by { assert(q[j] == q1[j]); }
                                } else {
                                    assert(cats@.contains(x));
                                }
                            }
                            if names_category(q, f@, x) {
                                let j = choose|j: int| 0 <= j < q.len() && q[j].0 == f@ && #[trigger] test_categories(q[j].1).contains(x);
                                assert(q1[j] == q[j]);
                                assert(test_categories(q1[j].1).contains(x));
                                assert(names_category(q1, f@, x));
                            }
                            if cats@.contains(x) {
                                assert(test_categories(q1[i as int].1).contains(x));
                                assert(names_category(q1, f@, x));
                            }
                            if codes@.contains(x) {
                                if before.contains(x) {
                                    assert(x == WILDCARD || names_category(q, f@, x));
                                }
                            }
                        }
                        assert forall|k: i64| keys@.contains(k) <==> (k == INFINITY_KEY || names_bound(q1, f@, k)) by {
                            if names_bound(q1, f@, k) {
                                let j = choose|j: int| 0 <= j < q1.len() && q1[j].0 == f@ && #[trigger] test_threshold(q1[j].1) == Some(k);
                                assert(j < i);
                                assert(q[j] == q1[j]);
                            }
                            if names_bound(q, f@, k) {
                                let j = choose|j: int| 0 <= j < q.len() && q[j].0 == f@ && #[trigger] test_threshold(q[j].1) == Some(k);
                                assert(q1[j] == q[j]);
                            }
                        }
                        assert(category_split(q1, f@));
                        assert(has_num == threshold_split(q1, f@)) by {
                            if threshold_split(q1, f@) {
                                let j = choose|j: int| 0 <= j < q1.len() && q1[j].0 == f@ && #[trigger] test_threshold(q1[j].1) is Some;
                                assert(j < i);
                                assert(q[j] == q1[j]);
                            }
                            if threshold_split(q, f@) {
                                let j = choose|j: int| 0 <= j < q.len() && q[j].0 == f@ && #[trigger] test_threshold(q[j].1) is Some;
                                assert(q1[j] == q[j]);
                            }
                        }
                    }
                },
                Decision::AtMost(t) | Decision::Above(t) => {
                    has_num = true;
                    let ghost before = keys@;
                    insert_key(&mut keys, *t);
                    proof {
                        assert(test_threshold(q1[i as int].1) == Some(*t));
                        assert forall|k: i64| keys@.contains(k) <==> (k == INFINITY_KEY || names_bound(q1, f@, k)) by {
                            if names_bound(q1, f@, k) {
                                let j = choose|j: int| 0 <= j < q1.len() && q1[j].0 == f@ && #[trigger] test_threshold(q1[j].1) == Some(k);
                                if j < i {
                                    assert(q[j] == q1[j]);
                                    assert(names_bound(q, f@, k));
                                }
                            }
                            if names_bound(q, f@, k) {
                                let j = choose|j: int| 0 <= j < q.len() && q[j].0 == f@ && #[trigger] test_threshold(q[j].1) == Some(k);
                                assert(q1[j] == q[j]);
                            }
                        }
                        assert forall|x: i32| codes@.contains(x) <==> (x == WILDCARD || names_category(q1, f@, x)) by {
                            if names_category(q1, f@, x) {
                                let j = choose|j: int| 0 <= j < q1.len() && q1[j].0 == f@ && #[trigger] test_categories(q1[j].1).contains(x);
                                assert(j < i);
                                assert(q[j] == q1[j]);
                            }
                            if names_category(q, f@, x) {
                                let j = choose|j: int| 0 <= j < q.len() && q[j].0 == f@ && #[trigger] test_categories(q[j].1).contains(x);
                                assert(q1[j] == q[j]);
                            }
                        }
                        assert(threshold_split(q1, f@));
                        assert(has_cat == category_split(q1, f@)) by {
                            if category_split(q1, f@) {
                                let j = choose|j: int| 0 <= j < q1.len() && q1[j].0 == f@ && #[trigger] is_category_test(q1[j].1);
                                assert(j < i);
                                assert(q[j] == q1[j]);
                            }
                            if category_split(q, f@) {
                                let j = choose|j: int| 0 <= j < q.len() && q[j].0 == f@ && #[trigger] is_category_test(q[j].1);
                                assert(q1[j] == q[j]);
                            }
                        }
                    }
                },
            }
        } else {
            proof {
                assert forall|x: i32| codes@.contains(x) <==> (x == WILDCARD || names_category(q1, f@, x)) by {
                    if names_category(q1, f@, x) {
                        let j = choose|j: int| 0 <= j < q1.len() && q1[j].0 == f@ && #[trigger] test_categories(q1[j].1).contains(x);
                        assert(j < i);
                        assert(q[j] == q1[j]);
                    }
                    if names_category(q, f@, x) {
                        let j = choose|j: int| 0 <= j < q.len() && q[j].0 == f@ && #[trigger] test_categories(q[j].1).contains(x);
                        assert(q1[j] == q[j]);
                    }
                }
                assert forall|k: i64| keys@.contains(k) <==> (k == INFINITY_KEY || names_bound(q1, f@, k)) by {
                    if names_bound(q1, f@, k) {
                        let j = choose|j: int| 0 <= j < q1.len() && q1[j].0 == f@ && #[trigger] test_threshold(q1[j].1) == Some(k);
                        assert(j < i);
                        assert(q[j] == q1[j]);
                    }
                    if names_bound(q, f@, k) {
                        let j = choose|j: int| 0 <= j < q.len() && q[j].0 == f@ && #[trigger] test_threshold(q[j].1) == Some(k);
                        assert(q1[j] == q[j]);
                    }
                }
                assert(has_cat == category_split(q1, f@)) by {
                    if category_split(q1, f@) {
                        let j = choose|j: int| 0 <= j < q1.len() && q1[j].0 == f@ && #[trigger] is_category_test(q1[j].1);
                        assert(j < i);
                        assert(q[j] == q1[j]);
                    }
                    if category_split(q, f@) {
                        let j = choose|j: int| 0 <= j < q.len() && q[j].0 == f@ && #[trigger] is_category_test(q[j].1);
                        assert(q1[j] == q[j]);
                    }
                }
                assert(has_num == threshold_split(q1, f@)) by {
                    if threshold_split(q1, f@) {
                        let j = choose|j: int| 0 <= j < q1.len() && q1[j].0 == f@ && #[trigger] test_threshold(q1[j].1) is Some;
                        assert(j < i);
                        assert(q[j] == q1[j]);
                    }
                    if threshold_split(q, f@) {
                        let j = choose|j: int| 0 <= j < q.len() && q[j].0 == f@ && #[trigger] test_threshold(q[j].1) is Some;
                        assert(q1[j] == q[j]);
                    }
                }
            }
        }
        i += 1;
    }
    proof {
        assert(p.take(path.len() as int) =~= p);
    }
    if has_cat && has_num {
        None
    } else if has_cat {
        Some(Axis::Categorical(codes))
    } else {
        let bounds = as_bounds(keys);
        proof {
            assert forall|qq: Quantity|
                bounds@.contains(qq) <==> (qq matches Quantity::Ordered(k) && (k == INFINITY_KEY
                    || names_bound(p, f@, k))) by {
                if bounds@.contains(qq) {
                    let j = choose|j: int| 0 <= j < bounds.len() && bounds@[j] == qq;
                    assert(keys@.contains(keys@[j]));
                }
                if let Quantity::Ordered(k) = qq {
                    if k == INFINITY_KEY || names_bound(p, f@, k) {
                        assert(keys@.contains(k));
                        let j = choose|j: int| 0 <= j < keys.len() && keys@[j] == k;
                        assert(bounds@[j] == qq);
                    }
                }
            }
        }
        Some(Axis::Numeric(bounds))
    }
}

// ---------------------------------------------------------------- the table of one path

/// Why a path, or a tree, gives no tables.
#[derive(Debug, Clone, PartialEq, Eq)]
pub enum TreeError {
    /// This feature is split on both by threshold and by category along one path.
    MixedSplit { feature: String },
    /// The table of a path could not be laid out.
    Table(BuildError),
    /// A node is neither a leaf nor a split: the booster found no split at all.
    NoSplits,
    /// The analysis layout needs the value of the root, and the root has none.
    MissingRootValue,
}

/// The columns a path lays out, one per feature in the order the features appear.
pub open spec fn path_axes(p: Seq<(Seq<char>, Test)>, axes: Seq<Axis>) -> bool {
    &&& axes.len() == path_features(p).len()
    &&& forall|a: int| 0 <= a < axes.len() ==> axis_of(p, path_features(p)[a], #[trigger] axes[a])
}

/// No feature of the path is split on both ways.
pub open spec fn no_mixed(p: Seq<(Seq<char>, Test)>) -> bool {
    forall|a: int| 0 <= a < path_features(p).len() ==> !mixed(p, #[trigger] path_features(p)[a])
}

/// `f` is the first feature of the path that is split on both ways.
pub open spec fn first_mixed(p: Seq<(Seq<char>, Test)>, f: Seq<char>) -> bool {
    exists|a: int|
        0 <= a < path_features(p).len() && #[trigger] path_features(p)[a] == f && mixed(p, f)
            && forall|b: int| 0 <= b < a ==> !mixed(p, #[trigger] path_features(p)[b])
}

/// Whether branch `t` holds at level `level` of `axis`. A categorical branch that
/// names no category takes nothing on the left and everything on the right.
pub open spec fn test_holds(t: Test, axis: Axis, level: int) -> bool {
    match (t, axis) {
        (Test::AtMost(k), Axis::Numeric(v)) => key_of(v@[level]) <= k,
        (Test::Above(k), Axis::Numeric(v)) => key_of(v@[level]) > k,
        (Test::In(c), Axis::Categorical(v)) => c.contains(v@[level]),
        (Test::NotIn(c), Axis::Categorical(v)) => !c.contains(v@[level]) || v@[level] == WILDCARD,
        _ => false,
    }
}

/// Row `r` of the layout satisfies every split of the path.
pub open spec fn row_satisfies(p: Seq<(Seq<char>, Test)>, axes: Seq<Axis>, r: int) -> bool {
    forall|i: int, a: int|
        #![trigger p[i], path_features(p)[a]]
        0 <= i < p.len() && 0 <= a < path_features(p).len() && path_features(p)[a] == p[i].0
            ==> test_holds(p[i].1, axes[a], level_index(axes, a, r))
}

/// The frame lays out a path: one column per feature, every combination of their
/// levels with the last feature varying fastest, then the factor column.
pub open spec fn grid_layout(p: Seq<(Seq<char>, Test)>, axes: Seq<Axis>, f: Frame) -> bool {
    &&& path_axes(p, axes)
    &&& f.height == span(axes, 0, axes.len() as int)
    &&& f.columns.len() == axes.len() + 1
    &&& forall|a: int|
        0 <= a < axes.len() ==> (#[trigger] f.columns@[a]).name@ == path_features(p)[a]
            && odometer_column(axes, a, f.columns@[a].values)
    &&& f.columns@[axes.len() as int].name@ == factor_name()
}

/// The factor column carries `factor` on the rows that satisfy the path and zero on
/// the others.
pub open spec fn factor_rows(p: Seq<(Seq<char>, Test)>, axes: Seq<Axis>, f: Frame, factor: Quantity) -> bool {
    match f.columns@[axes.len() as int].values {
        ColumnValues::Float(z) => z.len() == f.height && forall|r: int|
            0 <= r < z.len() ==> #[trigger] z@[r] == Some(
                if row_satisfies(p, axes, r) {
                    factor
                } else {
                    Quantity::Ordered(0)
                },
            ),
        _ => false,
    }
}

/// Every factor of the frame is zero.
pub open spec fn zero_rows(axes: Seq<Axis>, f: Frame) -> bool {
    match f.columns@[axes.len() as int].values {
        ColumnValues::Float(z) => z.len() == f.height && forall|r: int|
            0 <= r < z.len() ==> #[trigger] z@[r] == Some(Quantity::Ordered(0)),
        _ => false,
    }
}

/// A product of non-empty axes has at least one combination.
proof fn lemma_span_positive(axes: Seq<Axis>, lo: int, hi: int)
    requires
        forall|a: int| lo <= a < hi ==> axis_len(#[trigger] axes[a]) >= 1,
    ensures
        span(axes, lo, hi) >= 1,
    decreases hi - lo,
{
    if lo < hi {
        lemma_span_positive(axes, lo + 1, hi);
        let x = axis_len(axes[lo]) as int;
        let y = span(axes, lo + 1, hi) as int;
        assert(x * y >= 1) by (nonlinear_arith)
            requires
                x >= 1,
                y >= 1,
        ;
    }
}

/// Lays out a path with every factor zero, returning the columns it laid out.
fn grid(path: &Vec<SplitNodeInfo>) -> (res: Result<(Vec<Axis>, Frame), TreeError>)
    ensures
        match res {
            Ok((axes, f)) => f.wf() && grid_layout(path_view(path@), axes@, f) && zero_rows(axes@, f),
            Err(TreeError::MixedSplit { feature }) => first_mixed(path_view(path@), feature@),
            Err(TreeError::Table(BuildError::TooManyRows)) => no_mixed(path_view(path@)) && exists|axes: Seq<Axis>|
                path_axes(path_view(path@), axes) && span(axes, 0, axes.len() as int) > usize::MAX,
            Err(TreeError::Table(BuildError::Frame(_))) => no_mixed(path_view(path@))
                && path_features(path_view(path@)).contains(factor_name()),
            Err(_) => false,
        },
        no_mixed(path_view(path@)) && !path_features(path_view(path@)).contains(factor_name()) && (
        forall|axes: Seq<Axis>|
            path_axes(path_view(path@), axes) ==> span(axes, 0, axes.len() as int) <= usize::MAX)
            ==> res is Ok,
{
    let ghost p = path_view(path@);
    let ghost feats = path_features(p);
    proof {
        lemma_path_features(p);
    }
    let names = features_of(path);
    let mut axes: Vec<Axis> = Vec::new();
    let mut a: usize = 0;
    while a < names.len()
        invariant
            p == path_view(path@),
            feats == path_features(p),
            names.len() == feats.len(),
            forall|b: int| 0 <= b < names.len() ==> #[trigger] names@[b]@ == feats[b],
            a <= names.len(),
            axes.len() == a,
            forall|b: int| 0 <= b < a ==> !mixed(p, #[trigger] feats[b]),
            forall|b: int| 0 <= b < a ==> axis_of(p, feats[b], #[trigger] axes@[b]),
        decreases names.len() - a,
    {
        match feature_axis(path, &names[a]) {
            None => {
                let feature = names[a].clone();
                proof {
                    assert(feats[a as int] == names@[a as int]@);
                    assert(mixed(p, feats[a as int]));
                    assert(!no_mixed(p));
                    assert(first_mixed(p, feature@));
                }
                return Err(TreeError::MixedSplit { feature });
            },
            Some(axis) => {
                axes.push(axis);
            },
        }
        a += 1;
    }
    proof {
        assert forall|b: int| 0 <= b < axes.len() implies axis_len(#[trigger] axes@[b]) >= 1 by {
            match axes@[b] {
                Axis::Categorical(v) => {
                    assert(v@.contains(WILDCARD));
                },
                Axis::Numeric(v) => {
                    assert(v@.contains(Quantity::Ordered(INFINITY_KEY)));
                },
            }
        }
        lemma_span_positive(axes@, 0, axes.len() as int);
        assert(path_axes(p, axes@));
        assert(no_mixed(p));
    }
    match interaction_table(&names, &axes) {
        Ok(f) => {
            proof {
                assert forall|b: int| 0 <= b < axes.len() implies (#[trigger] f.columns@[b]).name@ == feats[b]
                    && odometer_column(axes@, b, f.columns@[b].values) by {
                    assert(names@[b]@ == feats[b]);
                }
                assert(grid_layout(p, axes@, f));
                assert(zero_rows(axes@, f));
            }
            Ok((axes, f))
        },
        Err(e) => {
            proof {
                if e is Frame {
                    assert(!crate::plan::distinct_names_with_factor(names@));
                    if !feats.contains(factor_name()) {
                        assert forall|x: int, y: int| 0 <= x < names.len() && 0 <= y < names.len() && x != y
                            implies names@[x]@ != names@[y]@ by {
                            if x < y {
                                assert(feats[x] != feats[y]);
                            } else {
                                assert(feats[y] != feats[x]);
                            }
                        }
                        assert forall|x: int| 0 <= x < names.len() implies (#[trigger] names@[x])@ != factor_name() by {
                            if names@[x]@ == factor_name() {
                                assert(feats[x] == factor_name());
                            }
                        }
                    }
                }
            }
            Err(TreeError::Table(e))
        },
    }
}

/// A fresh table over `data`: unnamed, updatable, one free factor per row.
pub open spec fn fresh_table(t: RatingTable) -> bool {
    &&& t.wf()
    &&& t.metadata.name@ == Seq::<char>::empty()
    &&& !t.metadata.is_offset
    &&& t.metadata.is_updatable
    &&& t.metadata.semantics is Step
    &&& t.row_metadata is None
}

/// `t` is the table of path `p` carrying `factor`.
pub open spec fn path_table(p: Seq<(Seq<char>, Test)>, factor: Quantity, t: RatingTable) -> bool {
    &&& fresh_table(t)
    &&& exists|axes: Seq<Axis>| grid_layout(p, axes, t.data) && factor_rows(p, axes, t.data, factor)
}

/// Why the table of path `p` cannot be laid out: this error, and no other, is one
/// the path gives.
pub open spec fn path_fault(p: Seq<(Seq<char>, Test)>, e: TreeError) -> bool {
    match e {
        TreeError::MixedSplit { feature } => first_mixed(p, feature@),
        TreeError::Table(BuildError::TooManyRows) => no_mixed(p) && exists|axes: Seq<Axis>|
            path_axes(p, axes) && span(axes, 0, axes.len() as int) > usize::MAX,
        TreeError::Table(BuildError::Frame(_)) => no_mixed(p) && path_features(p).contains(factor_name()),
        _ => false,
    }
}

/// The table of path `p` can be laid out.
pub open spec fn path_builds(p: Seq<(Seq<char>, Test)>) -> bool {
    &&& no_mixed(p)
    &&& !path_features(p).contains(factor_name())
    &&& forall|axes: Seq<Axis>| path_axes(p, axes) ==> span(axes, 0, axes.len() as int) <= usize::MAX
}

/// The order key of a number, as [`key_of`] reads it.
fn key(q: Quantity) -> (res: i64)
    ensures
        res == key_of(q),
{
    match q {
        Quantity::Ordered(k) => k,
        Quantity::Undefined => 0,
    }
}

/// Whether `x` is one of `codes`.
fn has_code(codes: &Vec<i32>, x: i32) -> (res: bool)
    ensures
        res == codes@.contains(x),
{
    let mut i: usize = 0;
    while i < codes.len()
        invariant
            i <= codes.len(),
            forall|j: int| 0 <= j < i ==> codes@[j] != x,
        decreases codes.len() - i,
    {
        if codes[i] == x {
            return true;
        }
        i += 1;
    }
    false
}

/// Whether the branch holds in row `r` of a column laid out for axis `a`.
fn branch_holds(d: &Decision, values: &ColumnValues, axes: Ghost<Seq<Axis>>, a: Ghost<int>, r: usize) -> (res: bool)
    requires
        0 <= a@ < axes@.len(),
        odometer_column(axes@, a@, *values),
        r < span(axes@, 0, axes@.len() as int),
    ensures
        res == test_holds(d@, axes@[a@], level_index(axes@, a@, r as int)),
{
    match (d, values) {
        (Decision::AtMost(k), ColumnValues::Float(v)) => match v[r] {
            Some(q) => key(q) <= *k,
            None => false,
        },
        (Decision::Above(k), ColumnValues::Float(v)) => match v[r] {
            Some(q) => key(q) > *k,
            None => false,
        },
        (Decision::In(c), ColumnValues::Int32(v)) => match v[r] {
            Some(x) => has_code(c, x),
            None => false,
        },
        (Decision::NotIn(c), ColumnValues::Int32(v)) => match v[r] {
            Some(x) => !has_code(c, x) || x == WILDCARD,
            None => false,
        },
        _ => false,
    }
}

/// Whether row `r` of a path's layout satisfies every split of the path.
fn row_holds(path: &Vec<SplitNodeInfo>, axes: &Vec<Axis>, f: &Frame, r: usize) -> (res: bool)
    requires
        grid_layout(path_view(path@), axes@, *f),
        r < f.height,
    ensures
        res == row_satisfies(path_view(path@), axes@, r as int),
{
    let ghost p = path_view(path@);
    let ghost feats = path_features(p);
    proof {
        lemma_path_features(p);
    }
    let mut i: usize = 0;
    while i < path.len()
        invariant
            p == path_view(path@),
            feats == path_features(p),
            grid_layout(p, axes@, *f),
            r < f.height,
            forall|x: int, y: int| 0 <= x < y < feats.len() ==> feats[x] != feats[y],
            forall|g: Seq<char>| feats.contains(g) <==> exists|j: int| 0 <= j < p.len() && #[trigger] p[j].0 == g,
            i <= path.len(),
            forall|j: int, a: int|
                #![trigger p[j], feats[a]]
                0 <= j < i && 0 <= a < feats.len() && feats[a] == p[j].0
                    ==> test_holds(p[j].1, axes@[a], level_index(axes@, a, r as int)),
        decreases path.len() - i,
    {
        proof {
            assert(p[i as int] == path@[i as int]@);
            assert(p[i as int].0 == p[i as int].0);
            assert(feats.contains(p[i as int].0));
        }
        let mut a: usize = 0;
        while a < axes.len() && f.columns[a].name != path[i].feature_name
            invariant
                grid_layout(p, axes@, *f),
                i < path.len(),
                p[i as int] == path@[i as int]@,
                feats == path_features(p),
                feats.contains(p[i as int].0),
                a <= axes.len(),
                forall|b: int| 0 <= b < a ==> feats[b] != p[i as int].0,
            decreases axes.len() - a,
        {
            proof {
                assert(f.columns@[a as int].name@ == feats[a as int]);
            }
            a += 1;
        }
        if a == axes.len() {
            proof {
                let b = choose|b: int| 0 <= b < feats.len() && feats[b] == p[i as int].0;
                assert(false);
            }
            return false;
        }
        proof {
            assert(f.columns@[a as int].name@ == feats[a as int]);
            assert(feats[a as int] == p[i as int].0);
        }
        let holds = branch_holds(&path[i].decision, &f.columns[a].values, Ghost(axes@), Ghost(a as int), r);
        if !holds {
            proof {
                assert(!test_holds(p[i as int].1, axes@[a as int], level_index(axes@, a as int, r as int)));
                assert(!row_satisfies(p, axes@, r as int));
            }
            return false;
        }
        proof {
            assert forall|j: int, b: int|
                #![trigger p[j], feats[b]]
                0 <= j < i + 1 && 0 <= b < feats.len() && feats[b] == p[j].0
                    implies test_holds(p[j].1, axes@[b], level_index(axes@, b, r as int)) by {
                if j == i && b != a {
                    if b < a {
                        assert(feats[b] != feats[a as int]);
                    } else {
                        assert(feats[a as int] != feats[b]);
                    }
                }
            }
        }
        i += 1;
    }
    true
}

impl PathInfo {
    /// A path of splits.
    pub fn new(path: Vec<SplitNodeInfo>) -> (res: PathInfo)
        ensures
            res.path@ == path@,
    {
        PathInfo { path }
    }

    /// The layout of the path with every factor zero: one column per feature split
    /// on, and one row per combination of their levels.
    ///
    /// A categorical feature's column holds the wildcard and every category the splits
    /// name; a numeric feature's holds every bound the splits name and then no bound.
    /// Both ascend, and the last feature varies fastest.
    pub fn create_df(&self) -> (res: Result<Frame, TreeError>)
        ensures
            match res {
                Ok(f) => f.wf() && exists|axes: Seq<Axis>|
                    grid_layout(path_view(self.path@), axes, f) && zero_rows(axes, f),
                Err(e) => path_fault(path_view(self.path@), e),
            },
            path_builds(path_view(self.path@)) ==> res is Ok,
    {
        match grid(&self.path) {
            Ok((axes, f)) => {
                proof {
                    assert(grid_layout(path_view(self.path@), axes@, f) && zero_rows(axes@, f));
                }
                Ok(f)
            },
            Err(e) => Err(e),
        }
    }

    /// The table of the path carrying `factor`: the layout of [`PathInfo::create_df`],
    /// with `factor` on every row that satisfies all of the path's splits and zero on
    /// the others.
    pub fn create_rating_table(&self, factor: Quantity) -> (res: Result<RatingTable, TreeError>)
        ensures
            match res {
                Ok(t) => path_table(path_view(self.path@), factor, t),
                Err(e) => path_fault(path_view(self.path@), e),
            },
            path_builds(path_view(self.path@)) ==> res is Ok,
    {
        path_rating_table(&self.path, factor)
    }
}

/// The table of a path carrying `factor`.
fn path_rating_table(path: &Vec<SplitNodeInfo>, factor: Quantity) -> (res: Result<RatingTable, TreeError>)
    ensures
        match res {
            Ok(t) => path_table(path_view(path@), factor, t),
            Err(e) => path_fault(path_view(path@), e),
        },
        path_builds(path_view(path@)) ==> res is Ok,
{
    let ghost p = path_view(path@);
    let (axes, f) = match grid(path) {
        Ok(g) => g,
        Err(e) => {
            return Err(e);
        },
    };
    let mut z: Vec<Option<Quantity>> = Vec::new();
    let mut r: usize = 0;
    while r < f.height
        invariant
            p == path_view(path@),
            grid_layout(p, axes@, f),
            r <= f.height,
            z.len() == r,
            forall|k: int| 0 <= k < r ==> #[trigger] z@[k] == Some(
                if row_satisfies(p, axes@, k) {
                    factor
                } else {
                    Quantity::Ordered(0)
                },
            ),
        decreases f.height - r,
    {
        if row_holds(path, &axes, &f, r) {
            z.push(Some(factor));
        } else {
            z.push(Some(Quantity::Ordered(0)));
        }
        r += 1;
    }
    let n = axes.len();
    let height = f.height;
    let ghost before = f.columns@;
    let mut columns = f.columns;
    columns.set(n, FrameColumn { name: factor_column_name(), values: ColumnValues::Float(z) });
    let frame = Frame { columns, height };
    proof {
        assert(frame.columns@ == before.update(n as int, frame.columns@[n as int]));
        assert forall|j: int| 0 <= j < frame.columns.len() implies (#[trigger] frame.columns[j]).values.spec_len()
            == frame.height by {
            if j != n {
                assert(frame.columns@[j] == before[j]);
            }
        }
        assert forall|x: int, y: int| 0 <= x < frame.columns.len() && 0 <= y < frame.columns.len() && x != y
            implies frame.columns@[x].name@ != frame.columns@[y].name@ by {
            assert(frame.columns@[x].name@ == before[x].name@);
            assert(frame.columns@[y].name@ == before[y].name@);
        }
        assert(frame.wf());
        assert forall|b: int| 0 <= b < axes.len() implies (#[trigger] frame.columns@[b]).name@ == path_features(p)[b]
            && odometer_column(axes@, b, frame.columns@[b].values) by {
            assert(frame.columns@[b] == before[b]);
        }
        assert(grid_layout(p, axes@, frame));
        assert(factor_rows(p, axes@, frame, factor));
    }
    let t = RatingTable::new(frame);
    proof {
        assert(grid_layout(p, axes@, t.data) && factor_rows(p, axes@, t.data, factor));
    }
    Ok(t)
}

// ---------------------------------------------------------------- trees

/// How a split divides its node: by a bound, or by a set of categories.
#[derive(Debug, Clone)]
pub enum SplitRule {
    /// At most the bound goes left, above it goes right.
    Threshold(i64),
    /// These categories go left, every other goes right.
    Categories(Vec<i32>),
}

/// A node of a boosted tree, with the factor its own table carries.
///
/// Which factor a node carries depends on the layout being read: for the leaf layout a
/// leaf carries its value (less the overall mean in the first tree); for the analysis
/// layout every node carries what it adds to its parent.
#[derive(Debug)]
pub enum TreeNode {
    /// A leaf.
    Leaf { factor: Quantity },
    /// A split on one feature; `factor` is absent when the node carries no value.
    Split {
        feature_name: String,
        rule: SplitRule,
        factor: Option<Quantity>,
        left: Option<Box<TreeNode>>,
        right: Option<Box<TreeNode>>,
    },
    /// A node that is neither a leaf nor a split: what a booster that found no split
    /// writes in place of a tree.
    Bare,
}

/// The branch a path takes into the left child.
pub open spec fn left_test(rule: SplitRule) -> Test {
    match rule {
        SplitRule::Threshold(k) => Test::AtMost(k),
        SplitRule::Categories(c) => Test::In(c@),
    }
}

/// The branch a path takes into the right child.
pub open spec fn right_test(rule: SplitRule) -> Test {
    match rule {
        SplitRule::Threshold(k) => Test::Above(k),
        SplitRule::Categories(c) => Test::NotIn(c@),
    }
}

/// The left branch of a split.
fn left_decision(rule: &SplitRule) -> (res: Decision)
    ensures
        res@ == left_test(*rule),
{
    match rule {
        SplitRule::Threshold(k) => Decision::AtMost(*k),
        SplitRule::Categories(c) => {
            let copy = c.clone();
            assert(copy@ =~= c@);
            Decision::In(copy)
        },
    }
}

/// The right branch of a split.
fn right_decision(rule: &SplitRule) -> (res: Decision)
    ensures
        res@ == right_test(*rule),
{
    match rule {
        SplitRule::Threshold(k) => Decision::Above(*k),
        SplitRule::Categories(c) => {
            let copy = c.clone();
            assert(copy@ =~= c@);
            Decision::NotIn(copy)
        },
    }
}

/// The paths to the leaves below `node`, reached along `p`, each with the leaf's
/// factor: the right subtree's before the left's.
pub open spec fn leaf_paths(node: TreeNode, p: Seq<(Seq<char>, Test)>) -> Seq<(Seq<(Seq<char>, Test)>, Quantity)>
    decreases node,
{
    match node {
        TreeNode::Leaf { factor } => seq![(p, factor)],
        TreeNode::Bare => Seq::empty(),
        TreeNode::Split { feature_name, rule, left, right, .. } => {
            let r = match right {
                Some(b) => leaf_paths(*b, p.push((feature_name@, right_test(rule)))),
                None => Seq::empty(),
            };
            let l = match left {
                Some(b) => leaf_paths(*b, p.push((feature_name@, left_test(rule)))),
                None => Seq::empty(),
            };
            r + l
        },
    }
}

/// The paths to every node below the root of `node`'s tree that carries a factor,
/// reached along `p`, each with that factor: a node before its right subtree, the right
/// subtree before the left.
pub open spec fn node_paths(node: TreeNode, p: Seq<(Seq<char>, Test)>) -> Seq<(Seq<(Seq<char>, Test)>, Quantity)>
    decreases node,
{
    match node {
        TreeNode::Leaf { factor } => seq![(p, factor)],
        TreeNode::Bare => Seq::empty(),
        TreeNode::Split { feature_name, rule, factor, left, right } => {
            let own = match factor {
                Some(v) => if p.len() > 0 {
                    seq![(p, v)]
                } else {
                    Seq::empty()
                },
                None => Seq::empty(),
            };
            let r = match right {
                Some(b) => node_paths(*b, p.push((feature_name@, right_test(rule)))),
                None => Seq::empty(),
            };
            let l = match left {
                Some(b) => node_paths(*b, p.push((feature_name@, left_test(rule)))),
                None => Seq::empty(),
            };
            own + r + l
        },
    }
}

/// Some node below `node` is bare.
pub open spec fn has_bare(node: TreeNode) -> bool
    decreases node,
{
    match node {
        TreeNode::Leaf { .. } => false,
        TreeNode::Bare => true,
        TreeNode::Split { left, right, .. } => (match right {
            Some(b) => has_bare(*b),
            None => false,
        }) || (match left {
            Some(b) => has_bare(*b),
            None => false,
        }),
    }
}

/// Every path in `cases` lays out.
pub open spec fn all_build(cases: Seq<(Seq<(Seq<char>, Test)>, Quantity)>) -> bool {
    forall|j: int| 0 <= j < cases.len() ==> path_builds(#[trigger] cases[j].0)
}

/// `e` is the fault of one of the paths in `cases`.
pub open spec fn some_fault(cases: Seq<(Seq<(Seq<char>, Test)>, Quantity)>, e: TreeError) -> bool {
    exists|j: int| 0 <= j < cases.len() && path_fault(#[trigger] cases[j].0, e)
}

/// `ts`, from position `at` on, are the tables of `cases` in order.
pub open spec fn tables_of(cases: Seq<(Seq<(Seq<char>, Test)>, Quantity)>, ts: Seq<RatingTable>, at: int) -> bool {
    &&& ts.len() == at + cases.len()
    &&& forall|j: int| 0 <= j < cases.len() ==> path_table(#[trigger] cases[j].0, cases[j].1, ts[at + j])
}

/// A path one split longer.
proof fn lemma_path_push(path: Seq<SplitNodeInfo>, x: SplitNodeInfo)
    ensures
        path_view(path.push(x)) == path_view(path).push(x@),
{
    assert(path_view(path.push(x)) =~= path_view(path).push(x@));
}

/// Appends the tables of the paths below `node` to `out`: one per leaf.
fn leaf_tables(node: &TreeNode, path: &mut Vec<SplitNodeInfo>, out: &mut Vec<RatingTable>) -> (res: Result<(), TreeError>)
    ensures
        final(path)@ == old(path)@,
        match res {
            Ok(()) => {
                &&& old(out)@ == final(out)@.take(old(out).len() as int)
                &&& tables_of(leaf_paths(*node, path_view(old(path)@)), final(out)@, old(out).len() as int)
            },
            Err(e) => (e == TreeError::NoSplits && has_bare(*node)) || some_fault(
                leaf_paths(*node, path_view(old(path)@)),
                e,
            ),
        },
        !has_bare(*node) && all_build(leaf_paths(*node, path_view(old(path)@))) ==> res is Ok,
    decreases node,
{
    let ghost p = path_view(path@);
    let ghost start = out@;
    match node {
        TreeNode::Leaf { factor } => {
            let ghost cases = leaf_paths(*node, p);
            proof {
                assert(cases.len() == 1);
                assert(cases[0] == (p, *factor));
            }
            match path_rating_table(path, *factor) {
                Ok(t) => {
                    out.push(t);
                    proof {
                        assert(start =~= out@.take(start.len() as int));
                        assert(out@[start.len() as int + 0] == t);
                        assert(path_table(cases[0].0, cases[0].1, out@[start.len() as int + 0]));
                    }
                    Ok(())
                },
                Err(e) => {
                    proof {
                        assert(path_fault(cases[0].0, e));
                        assert(!path_builds(cases[0].0));
                    }
                    Err(e)
                },
            }
        },
        TreeNode::Bare => Err(TreeError::NoSplits),
        TreeNode::Split { feature_name, rule, left, right, .. } => {
            let ghost rcases = match right {
                Some(b) => leaf_paths(**b, p.push((feature_name@, right_test(*rule)))),
                None => Seq::empty(),
            };
            let ghost lcases = match left {
                Some(b) => leaf_paths(**b, p.push((feature_name@, left_test(*rule)))),
                None => Seq::empty(),
            };
            proof {
                assert(leaf_paths(*node, p) == rcases + lcases);
                if all_build(rcases + lcases) {
                    assert forall|j: int| 0 <= j < rcases.len() implies path_builds(#[trigger] rcases[j].0) by {
                        assert((rcases + lcases)[j] == rcases[j]);
                    }
                    assert forall|j: int| 0 <= j < lcases.len() implies path_builds(#[trigger] lcases[j].0) by {
                        assert((rcases + lcases)[rcases.len() + j] == lcases[j]);
                    }
                }
            }
            if let Some(b) = right {
                let step = SplitNodeInfo { feature_name: feature_name.clone(), decision: right_decision(rule) };
                let ghost before = path@;
                path.push(step);
                proof {
                    lemma_path_push(before, step);
                }
                let r = leaf_tables(&**b, path, out);
                path.pop();
                proof {
                    assert(path@ =~= before);
                }
                match r {
                    Ok(()) => {},
                    Err(e) => {
                        proof {
                            if !(e == TreeError::NoSplits && has_bare(**b)) {
                                let j = choose|j: int| 0 <= j < rcases.len() && path_fault(#[trigger] rcases[j].0, e);
                                assert((rcases + lcases)[j] == rcases[j]);
                            }
                        }
                        return Err(e);
                    },
                }
            }
            let ghost mid = out@;
            proof {
                assert(mid.len() == start.len() + rcases.len());
            }
            if let Some(b) = left {
                let step = SplitNodeInfo { feature_name: feature_name.clone(), decision: left_decision(rule) };
                let ghost before = path@;
                path.push(step);
                proof {
                    lemma_path_push(before, step);
                }
                let r = leaf_tables(&**b, path, out);
                path.pop();
                proof {
                    assert(path@ =~= before);
                }
                match r {
                    Ok(()) => {},
                    Err(e) => {
                        proof {
                            if !(e == TreeError::NoSplits && has_bare(**b)) {
                                let j = choose|j: int| 0 <= j < lcases.len() && path_fault(#[trigger] lcases[j].0, e);
                                assert((rcases + lcases)[rcases.len() + j] == lcases[j]);
                            }
                        }
                        return Err(e);
                    },
                }
            }
            proof {
                let all = rcases + lcases;
                assert(start =~= out@.take(start.len() as int)) by {
                    assert(start =~= mid.take(start.len() as int));
                    assert(mid =~= out@.take(mid.len() as int));
                }
                assert forall|j: int| 0 <= j < all.len() implies path_table(#[trigger] all[j].0, all[j].1, out@[start.len() + j]) by {
                    if j < rcases.len() {
                        assert(all[j] == rcases[j]);
                        assert(out@[start.len() + j] == mid[start.len() + j]);
                    } else {
                        assert(all[j] == lcases[j - rcases.len()]);
                    }
                }
            }
            Ok(())
        },
    }
}

/// Appends the tables of the nodes below `node` to `out`: one for every node that
/// carries a factor, the root of the tree aside.
fn node_tables(node: &TreeNode, path: &mut Vec<SplitNodeInfo>, out: &mut Vec<RatingTable>) -> (res: Result<(), TreeError>)
    ensures
        final(path)@ == old(path)@,
        match res {
            Ok(()) => {
                &&& old(out)@ == final(out)@.take(old(out).len() as int)
                &&& tables_of(node_paths(*node, path_view(old(path)@)), final(out)@, old(out).len() as int)
            },
            Err(e) => some_fault(node_paths(*node, path_view(old(path)@)), e),
        },
        all_build(node_paths(*node, path_view(old(path)@))) ==> res is Ok,
    decreases node,
{
    let ghost p = path_view(path@);
    let ghost start = out@;
    match node {
        TreeNode::Leaf { factor } => {
            let ghost cases = node_paths(*node, p);
            proof {
                assert(cases.len() == 1);
                assert(cases[0] == (p, *factor));
            }
            match path_rating_table(path, *factor) {
                Ok(t) => {
                    out.push(t);
                    proof {
                        assert(start =~= out@.take(start.len() as int));
                        assert(out@[start.len() as int + 0] == t);
                        assert(path_table(cases[0].0, cases[0].1, out@[start.len() as int + 0]));
                    }
                    Ok(())
                },
                Err(e) => {
                    proof {
                        assert(path_fault(cases[0].0, e));
                        assert(!path_builds(cases[0].0));
                    }
                    Err(e)
                },
            }
        },
        TreeNode::Bare => {
            proof {
                assert(out@.take(start.len() as int) =~= start);
            }
            Ok(())
        },
        TreeNode::Split { feature_name, rule, factor, left, right } => {
            let ghost own: Seq<(Seq<(Seq<char>, Test)>, Quantity)> = match *factor {
                Some(v) => if p.len() > 0 {
                    seq![(p, v)]
                } else {
                    Seq::empty()
                },
                None => Seq::empty(),
            };
            let ghost rcases = match right {
                Some(b) => node_paths(**b, p.push((feature_name@, right_test(*rule)))),
                None => Seq::empty(),
            };
            let ghost lcases = match left {
                Some(b) => node_paths(**b, p.push((feature_name@, left_test(*rule)))),
                None => Seq::empty(),
            };
            let ghost all = own + rcases + lcases;
            proof {
                assert(node_paths(*node, p) == all);
                if all_build(all) {
                    assert forall|j: int| 0 <= j < own.len() implies path_builds(#[trigger] own[j].0) by {
                        assert(all[j] == own[j]);
                    }
                    assert forall|j: int| 0 <= j < rcases.len() implies path_builds(#[trigger] rcases[j].0) by {
                        assert(all[own.len() + j] == rcases[j]);
                    }
                    assert forall|j: int| 0 <= j < lcases.len() implies path_builds(#[trigger] lcases[j].0) by {
                        assert(all[own.len() + rcases.len() + j] == lcases[j]);
                    }
                }
            }
            if let Some(v) = factor {
                if path.len() > 0 {
                    proof {
                        assert(own[0] == (p, *v));
                    }
                    match path_rating_table(path, *v) {
                        Ok(t) => {
                            out.push(t);
                            proof {
                                assert(out@[start.len() as int + 0] == t);
                            }
                        },
                        Err(e) => {
                            proof {
                                assert(all[0] == own[0]);
                                assert(path_fault(all[0].0, e));
                            }
                            return Err(e);
                        },
                    }
                }
            }
            let ghost after_own = out@;
            proof {
                assert(after_own.len() == start.len() + own.len());
                assert(start =~= after_own.take(start.len() as int));
            }
            if let Some(b) = right {
                let step = SplitNodeInfo { feature_name: feature_name.clone(), decision: right_decision(rule) };
                let ghost before = path@;
                path.push(step);
                proof {
                    lemma_path_push(before, step);
                }
                let r = node_tables(&**b, path, out);
                path.pop();
                proof {
                    assert(path@ =~= before);
                }
                match r {
                    Ok(()) => {},
                    Err(e) => {
                        proof {
                            let j = choose|j: int| 0 <= j < rcases.len() && path_fault(#[trigger] rcases[j].0, e);
                            assert(all[own.len() + j] == rcases[j]);
                        }
                        return Err(e);
                    },
                }
            }
            let ghost mid = out@;
            proof {
                assert(mid.len() == after_own.len() + rcases.len());
            }
            if let Some(b) = left {
                let step = SplitNodeInfo { feature_name: feature_name.clone(), decision: left_decision(rule) };
                let ghost before = path@;
                path.push(step);
                proof {
                    lemma_path_push(before, step);
                }
                let r = node_tables(&**b, path, out);
                path.pop();
                proof {
                    assert(path@ =~= before);
                }
                match r {
                    Ok(()) => {},
                    Err(e) => {
                        proof {
                            let j = choose|j: int| 0 <= j < lcases.len() && path_fault(#[trigger] lcases[j].0, e);
                            assert(all[own.len() + rcases.len() + j] == lcases[j]);
                        }
                        return Err(e);
                    },
                }
            }
            proof {
                assert(start =~= out@.take(start.len() as int)) by {
                    assert(after_own =~= mid.take(after_own.len() as int));
                    assert(mid =~= out@.take(mid.len() as int));
                }
                assert forall|j: int| 0 <= j < all.len() implies path_table(#[trigger] all[j].0, all[j].1, out@[start.len() + j]) by {
                    if j < own.len() {
                        assert(all[j] == own[j]);
                        assert(out@[start.len() + j] == mid[start.len() + j]);
                        assert(mid[start.len() + j] == after_own[start.len() + j]);
                    } else if j < own.len() + rcases.len() {
                        assert(all[j] == rcases[j - own.len()]);
                        assert(out@[start.len() + j] == mid[start.len() + j]);
                    } else {
                        assert(all[j] == lcases[j - own.len() - rcases.len()]);
                    }
                }
            }
            Ok(())
        },
    }
}

// ---------------------------------------------------------------- forests

/// The root of a tree carries its value, which the analysis layout needs.
pub open spec fn root_value(node: TreeNode) -> bool {
    node matches TreeNode::Split { factor: Some(_), .. }
}

/// The paths one tree gives tables for, in the layout asked for.
pub open spec fn tree_paths(node: TreeNode, analysis: bool) -> Seq<(Seq<(Seq<char>, Test)>, Quantity)> {
    if analysis {
        node_paths(node, Seq::empty())
    } else {
        leaf_paths(node, Seq::empty())
    }
}

/// The paths of every tree, tree by tree.
pub open spec fn forest_paths(trees: Seq<TreeNode>, analysis: bool) -> Seq<(Seq<(Seq<char>, Test)>, Quantity)>
    decreases trees.len(),
{
    if trees.len() == 0 {
        Seq::empty()
    } else {
        forest_paths(trees.drop_last(), analysis) + tree_paths(trees.last(), analysis)
    }
}

/// The tree can be read in the layout asked for: in the analysis layout its root
/// carries a value; in the leaf layout no node of it is bare.
pub open spec fn tree_ready(node: TreeNode, analysis: bool) -> bool {
    if analysis {
        root_value(node)
    } else {
        !has_bare(node)
    }
}

/// The error a tree that cannot be read gives.
pub open spec fn tree_refusal(analysis: bool) -> TreeError {
    if analysis {
        TreeError::MissingRootValue
    } else {
        TreeError::NoSplits
    }
}

/// The first table carries the overall mean, when there is one.
pub open spec fn mean_first(mean: Option<Quantity>, ts: Seq<RatingTable>) -> bool {
    match mean {
        Some(m) => ts.len() >= 1 && path_table(Seq::empty(), m, ts[0]),
        None => true,
    }
}

/// How many tables the mean takes.
pub open spec fn mean_count(mean: Option<Quantity>) -> int {
    if mean is Some {
        1
    } else {
        0
    }
}

/// The paths of the first trees come first among the paths of all of them.
proof fn lemma_forest_prefix(trees: Seq<TreeNode>, m: int, analysis: bool)
    requires
        0 <= m <= trees.len(),
    ensures
        forest_paths(trees.take(m), analysis).len() <= forest_paths(trees, analysis).len(),
        forall|k: int|
            0 <= k < forest_paths(trees.take(m), analysis).len() ==> #[trigger] forest_paths(trees.take(m), analysis)[k]
                == forest_paths(trees, analysis)[k],
    decreases trees.len(),
{
    if m == trees.len() {
        assert(trees.take(m) =~= trees);
    } else {
        let rest = trees.drop_last();
        lemma_forest_prefix(rest, m, analysis);
        assert(rest.take(m) =~= trees.take(m));
    }
}

/// The empty path lays out: one row and the factor column alone.
proof fn lemma_empty_path_builds()
    ensures
        path_builds(Seq::<(Seq<char>, Test)>::empty()),
{
    let p = Seq::<(Seq<char>, Test)>::empty();
    assert(path_features(p).len() == 0);
    assert forall|axes: Seq<Axis>| path_axes(p, axes) implies span(axes, 0, axes.len() as int) <= usize::MAX by {
        assert(axes.len() == 0);
    }
}

/// The tables of a forest: the overall mean's first, when there is one, then every
/// tree's in order.
fn forest_tables(mean: Option<Quantity>, trees: &Vec<TreeNode>, analysis: bool) -> (res: Result<Vec<RatingTable>, TreeError>)
    ensures
        match res {
            Ok(ts) => mean_first(mean, ts@) && tables_of(forest_paths(trees@, analysis), ts@, mean_count(mean)),
            Err(e) => (e == tree_refusal(analysis) && exists|t: int| 0 <= t < trees.len() && !tree_ready(#[trigger] trees@[t], analysis))
                || some_fault(forest_paths(trees@, analysis), e),
        },
        (forall|t: int| 0 <= t < trees.len() ==> tree_ready(#[trigger] trees@[t], analysis)) && all_build(
            forest_paths(trees@, analysis),
        ) ==> res is Ok,
{
    let mut out: Vec<RatingTable> = Vec::new();
    let empty: Vec<SplitNodeInfo> = Vec::new();
    proof {
        assert(path_view(empty@) =~= Seq::<(Seq<char>, Test)>::empty());
        lemma_empty_path_builds();
    }
    if let Some(m) = mean {
        match path_rating_table(&empty, m) {
            Ok(t) => {
                out.push(t);
            },
            Err(e) => {
                proof {
                    assert(false);
                }
                return Err(e);
            },
        }
    }
    let ghost k = mean_count(mean);
    proof {
        assert(forest_paths(trees@.take(0), analysis) =~= Seq::empty());
    }
    let mut i: usize = 0;
    while i < trees.len()
        invariant
            i <= trees.len(),
            out.len() >= k,
            k == mean_count(mean),
            mean_first(mean, out@),
            tables_of(forest_paths(trees@.take(i as int), analysis), out@, k),
        decreases trees.len() - i,
    {
        let ghost before = out@;
        let ghost done = forest_paths(trees@.take(i as int), analysis);
        let ghost here = tree_paths(trees@[i as int], analysis);
        proof {
            assert(trees@.take(i + 1).drop_last() =~= trees@.take(i as int));
            assert(trees@.take(i + 1).last() == trees@[i as int]);
            assert(forest_paths(trees@.take(i + 1), analysis) == done + here);
            lemma_forest_prefix(trees@, i + 1, analysis);
            if all_build(forest_paths(trees@, analysis)) {
                assert forall|j: int| 0 <= j < here.len() implies path_builds(#[trigger] here[j].0) by {
                    assert((done + here)[done.len() + j] == here[j]);
                    assert(forest_paths(trees@.take(i + 1), analysis)[done.len() + j] == forest_paths(trees@, analysis)[done.len() + j]);
                }
            }
        }
        let mut path: Vec<SplitNodeInfo> = Vec::new();
        proof {
            assert(path_view(path@) =~= Seq::<(Seq<char>, Test)>::empty());
        }
        let r = if analysis {
            match &trees[i] {
                TreeNode::Split { factor: Some(_), .. } => node_tables(&trees[i], &mut path, &mut out),
                _ => Err(TreeError::MissingRootValue),
            }
        } else {
            leaf_tables(&trees[i], &mut path, &mut out)
        };
        match r {
            Ok(()) => {},
            Err(e) => {
                proof {
                    if !(e == tree_refusal(analysis) && !tree_ready(trees@[i as int], analysis)) {
                        let j = choose|j: int| 0 <= j < here.len() && path_fault(#[trigger] here[j].0, e);
                        assert((done + here)[done.len() + j] == here[j]);
                        assert(forest_paths(trees@.take(i + 1), analysis)[done.len() + j] == forest_paths(trees@, analysis)[done.len() + j]);
                        assert(path_fault(forest_paths(trees@, analysis)[done.len() + j].0, e));
                    }
                }
                return Err(e);
            },
        }
        proof {
            let all = done + here;
            assert(out.len() == k + all.len());
            assert forall|j: int| 0 <= j < all.len() implies path_table(#[trigger] all[j].0, all[j].1, out@[k + j]) by {
                if j < done.len() {
                    assert(all[j] == done[j]);
                    assert(out@[k + j] == before[k + j]);
                } else {
                    assert(all[j] == here[j - done.len()]);
                }
            }
            if mean is Some {
                assert(out@[0] == before[0]);
            }
        }
        i += 1;
    }
    proof {
        assert(trees@.take(trees.len() as int) =~= trees@);
    }
    Ok(out)
}

/// The tables of a LightGBM model in the leaf layout: the overall mean's first, when
/// the first tree's root carries it, then one table per leaf of every tree, tree by
/// tree and, within a tree, the right subtree's leaves before the left's.
///
/// A bare node anywhere means the booster found no split, and the model has no tables
/// to give; a path whose table cannot be laid out is reported as such.
pub fn process_lgbm_trees(mean: Option<Quantity>, trees: &Vec<TreeNode>) -> (res: Result<Vec<RatingTable>, TreeError>)
    ensures
        match res {
            Ok(ts) => mean_first(mean, ts@) && tables_of(forest_paths(trees@, false), ts@, mean_count(mean)),
            Err(e) => (e == TreeError::NoSplits && exists|t: int| 0 <= t < trees.len() && has_bare(#[trigger] trees@[t]))
                || some_fault(forest_paths(trees@, false), e),
        },
        (forall|t: int| 0 <= t < trees.len() ==> !has_bare(#[trigger] trees@[t])) && all_build(
            forest_paths(trees@, false),
        ) ==> res is Ok,
{
    let res = forest_tables(mean, trees, false);
    proof {
        if (forall|t: int| 0 <= t < trees.len() ==> !has_bare(#[trigger] trees@[t])) {
            assert forall|t: int| 0 <= t < trees.len() implies tree_ready(#[trigger] trees@[t], false) by {}
        }
        if let Err(e) = &res {
            if !some_fault(forest_paths(trees@, false), *e) {
                let t = choose|t: int| 0 <= t < trees.len() && !tree_ready(#[trigger] trees@[t], false);
                assert(has_bare(trees@[t]));
            }
        }
    }
    res
}

/// The tables of a LightGBM model in the analysis layout: the overall mean's first,
/// when the first tree's root carries it, then one table for every node below the root
/// of each tree that carries a factor, tree by tree and, within a tree, each node
/// before its right subtree and the right subtree before the left.
///
/// Every tree's root must carry its value.
pub fn analysis_tables(mean: Option<Quantity>, trees: &Vec<TreeNode>) -> (res: Result<Vec<RatingTable>, TreeError>)
    ensures
        match res {
            Ok(ts) => mean_first(mean, ts@) && tables_of(forest_paths(trees@, true), ts@, mean_count(mean)),
            Err(e) => (e == TreeError::MissingRootValue && exists|t: int| 0 <= t < trees.len() && !root_value(#[trigger] trees@[t]))
                || some_fault(forest_paths(trees@, true), e),
        },
        (forall|t: int| 0 <= t < trees.len() ==> root_value(#[trigger] trees@[t])) && all_build(
            forest_paths(trees@, true),
        ) ==> res is Ok,
{
    let res = forest_tables(mean, trees, true);
    proof {
        if (forall|t: int| 0 <= t < trees.len() ==> root_value(#[trigger] trees@[t])) {
            assert forall|t: int| 0 <= t < trees.len() implies tree_ready(#[trigger] trees@[t], true) by {}
        }
        if let Err(e) = &res {
            if !some_fault(forest_paths(trees@, true), *e) {
                let t = choose|t: int| 0 <= t < trees.len() && !tree_ready(#[trigger] trees@[t], true);
                assert(!root_value(trees@[t]));
            }
        }
    }
    res
}

} // verus!
