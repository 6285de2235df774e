//! Interval exhibits derived from a table's matching geometry.
//!
//! A first-match table can describe regions that are not rectangles, so its upper
//! bounds alone do not prove lower bounds. Only a complete ordered grid is labelled
//! with intervals: every combination of its axes' values present once, and each row's
//! immediate predecessor along every band axis listed before it, so that first match
//! finds the tightest cell.
use crate::features::WILDCARD;
use crate::frame::{ColumnValues, Frame, FrameColumn};
use crate::plan::insert_key;
use crate::quantity::{spec_is_finite, Quantity, NEG_INFINITY_KEY};
use crate::features::FeatureValue;
use crate::rating_model::{
    cat_cell, cat_input, cat_ok, cat_wild, first_fit, has_all_features, lemma_first_fit, num_cell,
    num_input, num_ok, row_fits, row_wild, spec_find_row, RatingTable,
};
use crate::text::{holds_text, insert_sorted, push_text, strictly_sorted};
use vstd::prelude::*;

verus! {

/// A cell as an axis value: a number by its order key, a code as itself; nothing for a
/// null, an undefined number or the wildcard code.
pub open spec fn axis_cell(v: ColumnValues, r: int) -> Option<i64> {
    match v {
        ColumnValues::Float(c) => match c@[r] {
            Some(Quantity::Ordered(k)) => Some(k),
            _ => None,
        },
        ColumnValues::Int32(c) => match c@[r] {
            Some(x) => if x != WILDCARD {
                Some(x as i64)
            } else {
                None
            },
            None => None,
        },
        _ => None,
    }
}

/// The axis values of a column, or nothing when some cell has none.
fn axis_keys(values: &ColumnValues) -> (res: Option<Vec<i64>>)
    ensures
        match res {
            Some(k) => k.len() == values.spec_len() && forall|r: int|
                0 <= r < k.len() ==> axis_cell(*values, r) == Some(#[trigger] k@[r]),
            None => exists|r: int| 0 <= r < values.spec_len() && #[trigger] axis_cell(*values, r) is None,
        },
{
    let mut out: Vec<i64> = Vec::new();
    match values {
        ColumnValues::Float(c) => {
            let mut r: usize = 0;
            while r < c.len()
                invariant
                    *values == ColumnValues::Float(*c),
                    r <= c.len(),
                    out.len() == r,
                    forall|i: int| 0 <= i < r ==> axis_cell(*values, i) == Some(#[trigger] out@[i]),
                decreases c.len() - r,
            {
                match c[r] {
                    Some(Quantity::Ordered(k)) => out.push(k),
                    _ => {
                        assert(axis_cell(*values, r as int) is None);
                        return None;
                    },
                }
                r += 1;
            }
        },
        ColumnValues::Int32(c) => {
            let mut r: usize = 0;
            while r < c.len()
                invariant
                    *values == ColumnValues::Int32(*c),
                    r <= c.len(),
                    out.len() == r,
                    forall|i: int| 0 <= i < r ==> axis_cell(*values, i) == Some(#[trigger] out@[i]),
                decreases c.len() - r,
            {
                match c[r] {
                    Some(x) => {
                        if x == WILDCARD {
                            assert(axis_cell(*values, r as int) is None);
                            return None;
                        }
                        out.push(x as i64);
                    },
                    None => {
                        assert(axis_cell(*values, r as int) is None);
                        return None;
                    },
                }
                r += 1;
            }
        },
        _ => {
            if values.len() == 0 {
                return Some(out);
            }
            assert(axis_cell(*values, 0) is None);
            return None;
        },
    }
    Some(out)
}

/// Strictly ascending.
pub open spec fn ascending(s: Seq<i64>) -> bool {
    forall|i: int, j: int| 0 <= i < j < s.len() ==> s[i] < s[j]
}

/// Holding the same values.
pub open spec fn same_values(a: Seq<i64>, b: Seq<i64>) -> bool {
    forall|x: i64| a.contains(x) <==> b.contains(x)
}

/// The distinct values of `keys`, ascending.
pub open spec fn axis_of(keys: Seq<i64>) -> Seq<i64> {
    choose|axis: Seq<i64>| ascending(axis) && same_values(axis, keys)
}

/// Where `k` stands in an axis.
pub open spec fn index_in(axis: Seq<i64>, k: i64) -> int {
    choose|i: int| 0 <= i < axis.len() && axis[i] == k
}

/// Two ascending sequences of the same values are one sequence.
proof fn lemma_axis_unique(a: Seq<i64>, b: Seq<i64>)
    requires
        ascending(a),
        ascending(b),
        same_values(a, b),
    ensures
        a == b,
    decreases a.len(),
{
    if a.len() == 0 {
        if b.len() > 0 {
            assert(b.contains(b[0]));
        }
        assert(a =~= b);
    } else if b.len() == 0 {
        assert(a.contains(a[0]));
    } else {
        assert(a.contains(a[0]) && b.contains(b[0]));
        let i = choose|i: int| 0 <= i < b.len() && b[i] == a[0];
        let j = choose|j: int| 0 <= j < a.len() && a[j] == b[0];
        assert(a[0] == b[0]) by {
            if a[0] < b[0] {
                assert(b[i] == a[0]);
                assert(i > 0 ==> b[0] < b[i]);
            } else if b[0] < a[0] {
                assert(j > 0 ==> a[0] < a[j]);
            }
        }
        let a1 = a.drop_first();
        let b1 = b.drop_first();
        assert forall|x: i64| a1.contains(x) <==> b1.contains(x) by {
            if a1.contains(x) {
                let k = choose|k: int| 0 <= k < a1.len() && a1[k] == x;
                assert(a[k + 1] == x && a[0] < x);
                assert(b.contains(x));
                let m = choose|m: int| 0 <= m < b.len() && b[m] == x;
                assert(m != 0);
                assert(b1[m - 1] == x);
            }
            if b1.contains(x) {
                let k = choose|k: int| 0 <= k < b1.len() && b1[k] == x;
                assert(b[k + 1] == x && b[0] < x);
                assert(a.contains(x));
                let m = choose|m: int| 0 <= m < a.len() && a[m] == x;
                assert(m != 0);
                assert(a1[m - 1] == x);
            }
        }
        lemma_axis_unique(a1, b1);
        assert(a =~= seq![a[0]] + a1);
        assert(b =~= seq![b[0]] + b1);
    }
}

/// The distinct values of `keys`, ascending.
fn distinct_ascending(keys: &Vec<i64>) -> (res: Vec<i64>)
    ensures
        res@ == axis_of(keys@),
        ascending(res@),
        same_values(res@, keys@),
{
    let mut acc: Vec<i64> = Vec::new();
    let mut i: usize = 0;
    while i < keys.len()
        invariant
            i <= keys.len(),
            ascending(acc@),
            forall|x: i64| acc@.contains(x) <==> keys@.take(i as int).contains(x),
        decreases keys.len() - i,
    {
        insert_key(&mut acc, keys[i]);
        proof {
            assert forall|x: i64| acc@.contains(x) <==> keys@.take(i + 1).contains(x) by {
                let longer = keys@.take(i + 1);
                let shorter = keys@.take(i as int);
                if longer.contains(x) {
                    let j = choose|j: int| 0 <= j < longer.len() && longer[j] == x;
                    if j < i {
                        assert(shorter[j] == x);
                    }
                }
                if shorter.contains(x) {
                    let j = choose|j: int| 0 <= j < shorter.len() && shorter[j] == x;
                    assert(longer[j] == x);
                }
                if x == keys@[i as int] {
                    assert(longer[i as int] == x);
                }
            }
        }
        i += 1;
    }
    proof {
        assert(keys@.take(keys.len() as int) =~= keys@);
        assert(ascending(axis_of(keys@)) && same_values(axis_of(keys@), keys@));
        lemma_axis_unique(acc@, axis_of(keys@));
    }
    acc
}

/// Where a value stands in an ascending axis holding it.
fn position(axis: &Vec<i64>, k: i64) -> (res: usize)
    requires
        ascending(axis@),
        axis@.contains(k),
    ensures
        res < axis.len(),
        axis@[res as int] == k,
        res as int == index_in(axis@, k),
{
    let mut i: usize = 0;
    while i < axis.len() && axis[i] != k
        invariant
            i <= axis.len(),
            axis@.contains(k),
            forall|j: int| 0 <= j < i ==> axis@[j] != k,
        decreases axis.len() - i,
    {
        i += 1;
    }
    proof {
        if i == axis.len() {
            let j = choose|j: int| 0 <= j < axis.len() && axis@[j] == k;
            assert(false);
        }
        let c = index_in(axis@, k);
        assert(exists|j: int| 0 <= j < axis.len() && axis@[j] == k);
        if c != i as int {
            if c < i {
                assert(axis@[c] != k);
            } else {
                assert(axis@[i as int] < axis@[c]);
            }
        }
    }
    i
}

// ---------------------------------------------------------------- the grid

/// The data column of feature `a`: the band columns first, then the code columns.
pub open spec fn feature_column(t: RatingTable, a: int) -> int {
    if a < t.numeric_columns.len() {
        t.numeric_columns@[a].1 as int
    } else {
        t.categorical_columns@[a - t.numeric_columns.len()].1 as int
    }
}

pub open spec fn feature_count(t: RatingTable) -> int {
    t.numeric_columns.len() + t.categorical_columns.len()
}

/// Every feature cell has an axis value.
pub open spec fn all_defined(t: RatingTable) -> bool {
    forall|a: int, r: int|
        0 <= a < feature_count(t) && 0 <= r < t.data.height ==> #[trigger] axis_cell(
            t.data.columns@[feature_column(t, a)].values,
            r,
        ) is Some
}

/// The axis values of feature `a`, row by row.
pub open spec fn keys_of(t: RatingTable, a: int) -> Seq<i64> {
    Seq::new(t.data.height as nat, |r: int| axis_cell(t.data.columns@[feature_column(t, a)].values, r)->0)
}

/// Row `r`'s position on the axis of feature `a`.
pub open spec fn coord(t: RatingTable, a: int, r: int) -> int {
    index_in(axis_of(keys_of(t, a)), keys_of(t, a)[r])
}

/// The number of cells a grid over the features from `a` on has.
pub open spec fn cells_from(t: RatingTable, a: int) -> nat
    decreases feature_count(t) - a,
{
    if a >= feature_count(t) {
        1
    } else {
        axis_of(keys_of(t, a)).len() * cells_from(t, a + 1)
    }
}

/// Rows `r1` and `r2` stand at the same place on every feature but `skip`.
pub open spec fn same_cell_except(t: RatingTable, r1: int, r2: int, skip: int) -> bool {
    forall|b: int| 0 <= b < feature_count(t) && b != skip ==> #[trigger] coord(t, b, r1) == coord(t, b, r2)
}

/// Every combination of axis values once, and each row's predecessor along every band
/// axis listed earlier.
pub open spec fn ordered_grid(t: RatingTable) -> bool {
    &&& t.numeric_columns.len() > 0
    &&& t.data.height > 0
    &&& all_defined(t)
    &&& cells_from(t, 0) == t.data.height
    &&& forall|r1: int, r2: int|
        0 <= r1 < r2 < t.data.height ==> !#[trigger] same_cell_except(t, r1, r2, -1)
    &&& forall|r: int, a: int|
        0 <= r < t.data.height && 0 <= a < t.numeric_columns.len() && #[trigger] coord(t, a, r) > 0
            ==> exists|p: int|
            0 <= p < r && coord(t, a, p) == coord(t, a, r) - 1 && same_cell_except(t, p, r, a)
}

/// No column is both a band column and a code column.
proof fn lemma_feature_count(t: RatingTable, k: int)
    requires
        0 <= k <= t.data.columns.len(),
    ensures
        crate::rating_model::numeric_indices(t.data.columns@, k).len() + crate::rating_model::categorical_indices(
            t.data.columns@,
            k,
        ).len() <= k,
    decreases k,
{
    if k > 0 {
        lemma_feature_count(t, k - 1);
    }
}

/// Why a table cannot be reviewed.
#[derive(Debug, Clone, PartialEq, Eq)]
pub enum ReviewError {
    /// An interval label would replace an existing column.
    LabelConflict { label: String },
}

/// The name of the column that says whether a table was labelled.
pub open spec fn status_name() -> Seq<char> {
    "Band_Interval_Status"@
}

/// The status a grid is labelled with.
pub open spec fn status_text(ordered: bool) -> Seq<char> {
    if ordered {
        "ordered_grid"@
    } else {
        "requires_match_review"@
    }
}

/// `f` has a column named `name` holding `values`.
pub open spec fn has_column_with(f: Frame, name: Seq<char>, values: ColumnValues) -> bool {
    exists|j: int| 0 <= j < f.columns.len() && (#[trigger] f.columns@[j]).name@ == name && f.columns@[j].values == values
}

/// The greatest value of `keys` below `k`, or negative infinity when none is.
pub open spec fn lower_bound_of(keys: Seq<i64>, k: i64, lower: i64) -> bool {
    ||| (lower == NEG_INFINITY_KEY && forall|x: i64| keys.contains(x) ==> !(x < k))
    ||| (keys.contains(lower) && lower < k && forall|x: i64| keys.contains(x) ==> !(lower < x < k))
}

/// One row's interval on an axis whose values are `keys`.
pub open spec fn row_labelled(keys: Seq<i64>, k: i64, lower: Option<Quantity>, upper: Option<Quantity>, lower_incl: Option<bool>, upper_incl: Option<bool>) -> bool {
    &&& upper == Some(Quantity::Ordered(k))
    &&& lower matches Some(Quantity::Ordered(l)) && lower_bound_of(keys, k, l)
    &&& lower_incl == Some(false)
    &&& upper_incl == Some(spec_is_finite(Quantity::Ordered(k)))
}

/// The interval columns of band feature `a`: each row's lower bound (the next value
/// below its own on that axis, exclusive), its upper bound (its own value, inclusive
/// when finite).
pub open spec fn labels_axis(t: RatingTable, a: int, lower: Seq<Option<Quantity>>, upper: Seq<Option<Quantity>>, lower_incl: Seq<Option<bool>>, upper_incl: Seq<Option<bool>>) -> bool {
    let keys = keys_of(t, a);
    &&& lower.len() == t.data.height
    &&& upper.len() == t.data.height
    &&& lower_incl.len() == t.data.height
    &&& upper_incl.len() == t.data.height
    &&& forall|r: int|
        0 <= r < t.data.height ==> #[trigger] row_labelled(keys, keys[r], lower[r], upper[r], lower_incl[r], upper_incl[r])
}

/// Replaces the column of the same name, or appends.
fn set_column(f: &mut Frame, column: FrameColumn)
    requires
        old(f).wf(),
        column.values.spec_len() == old(f).height,
    ensures
        final(f).wf(),
        final(f).height == old(f).height,
        has_column_with(*final(f), column.name@, column.values),
        forall|j: int|
            0 <= j < old(f).columns.len() && old(f).columns@[j].name@ != column.name@ ==> has_column_with(
                *final(f),
                #[trigger] old(f).columns@[j].name@,
                old(f).columns@[j].values,
            ),
        forall|j: int|
            0 <= j < final(f).columns.len() ==> (#[trigger] final(f).columns@[j]).name@ == column.name@ || exists|i: int|
                0 <= i < old(f).columns.len() && old(f).columns@[i] == final(f).columns@[j],
{
    let ghost before = *f;
    let ghost v = column.values;
    let ghost n = column.name@;
    match f.index_of(&column.name) {
        Some(j) => {
            f.columns.set(j, column);
            proof {
                assert(f.columns@[j as int].name@ == n);
                assert(has_column_with(*f, n, v));
                assert forall|i: int|
                    0 <= i < before.columns.len() && before.columns@[i].name@ != n implies has_column_with(
                        *f,
                        #[trigger] before.columns@[i].name@,
                        before.columns@[i].values,
                    ) by {
                    assert(f.columns@[i] == before.columns@[i]);
                }
                assert forall|a: int, b: int|
                    0 <= a < f.columns.len() && 0 <= b < f.columns.len() && a != b implies f.columns@[a].name@
                    != f.columns@[b].name@ by {
                    assert(f.columns@[a].name@ == before.columns@[a].name@);
                    assert(f.columns@[b].name@ == before.columns@[b].name@);
                }
                assert forall|i: int| 0 <= i < f.columns.len() implies (#[trigger] f.columns@[i]).name@ == n
                    || exists|k: int| 0 <= k < before.columns.len() && before.columns@[k] == f.columns@[i] by {
                    if i != j as int {
                        assert(before.columns@[i] == f.columns@[i]);
                    }
                }
            }
        },
        None => {
            f.columns.push(column);
            proof {
                let last = f.columns.len() - 1;
                assert(f.columns@[last].name@ == n);
                assert(has_column_with(*f, n, v));
                assert forall|i: int|
                    0 <= i < before.columns.len() && before.columns@[i].name@ != n implies has_column_with(
                        *f,
                        #[trigger] before.columns@[i].name@,
                        before.columns@[i].values,
                    ) by {
                    assert(f.columns@[i] == before.columns@[i]);
                }
                assert forall|i: int| 0 <= i < f.columns.len() implies (#[trigger] f.columns@[i]).name@ == n
                    || exists|k: int| 0 <= k < before.columns.len() && before.columns@[k] == f.columns@[i] by {
                    if i < last {
                        assert(before.columns@[i] == f.columns@[i]);
                    }
                }
            }
        },
    }
}

/// `name` with `suffix`.
fn label(name: &String, suffix: &str) -> (res: String)
    ensures
        res@ == name@ + suffix@,
{
    let mut s = name.clone();
    push_text(&mut s, suffix);
    s
}


/// The interval columns of one band axis, for presentation beside its table.
#[derive(Debug, Clone)]
pub struct Interval {
    /// The band column these intervals describe.
    pub column: String,
    pub lower: Vec<Option<Quantity>>,
    pub upper: Vec<Option<Quantity>>,
    pub lower_inclusive: Vec<Option<bool>>,
    pub upper_inclusive: Vec<Option<bool>>,
}

/// The intervals describe a band axis of the table.
pub open spec fn interval_of(t: RatingTable, iv: Interval) -> bool {
    exists|a: int|
        band_named(t, iv.column@, a) && #[trigger] labels_axis(
            t,
            a,
            iv.lower@,
            iv.upper@,
            iv.lower_inclusive@,
            iv.upper_inclusive@,
        )
}

/// A table's data labelled for review.
#[derive(Debug, Clone)]
pub struct Review {
    /// The table's data, with the status column when the table has a band axis.
    pub data: Frame,
    /// Whether the table is a complete ordered grid.
    pub ordered: bool,
    /// For an ordered grid, the intervals of each band axis, in text order of the
    /// axis name.
    pub intervals: Vec<Interval>,
}

/// The four labels an axis's intervals are written under.
pub open spec fn axis_label(name: Seq<char>, k: int) -> Seq<char> {
    if k == 0 {
        name + "_Lower"@
    } else if k == 1 {
        name + "_Upper"@
    } else if k == 2 {
        name + "_Lower_Inclusive"@
    } else {
        name + "_Upper_Inclusive"@
    }
}

/// The band axis named `name`.
pub open spec fn band_named(t: RatingTable, name: Seq<char>, a: int) -> bool {
    0 <= a < t.numeric_columns.len() && t.numeric_columns@[a].0@ == name
}

/// A column of the same text in every row.
pub open spec fn all_reading(values: ColumnValues, text: Seq<char>, n: nat) -> bool {
    values matches ColumnValues::Text(v) && v.len() == n && forall|r: int|
        0 <= r < n ==> ((#[trigger] v@[r]) matches Some(s) && s@ == text)
}

fn status_column(ordered: bool, n: usize) -> (res: FrameColumn)
    ensures
        res.name@ == status_name(),
        all_reading(res.values, status_text(ordered), n as nat),
{
    let mut v: Vec<Option<String>> = Vec::new();
    let mut r: usize = 0;
    while r < n
        invariant
            r <= n,
            v.len() == r,
            forall|i: int| 0 <= i < r ==> ((#[trigger] v@[i]) matches Some(s) && s@ == status_text(ordered)),
        decreases n - r,
    {
        v.push(Some(if ordered { String::from_str("ordered_grid") } else { String::from_str("requires_match_review") }));
        r += 1;
    }
    FrameColumn { name: String::from_str("Band_Interval_Status"), values: ColumnValues::Text(v) }
}

/// Whether two rows stand at the same place on every feature but `skip`.
fn same_cell(coords: &Vec<Vec<usize>>, r1: usize, r2: usize, skip: usize) -> (res: bool)
    requires
        forall|b: int| 0 <= b < coords.len() ==> r1 < (#[trigger] coords@[b]).len() && r2 < coords@[b].len(),
    ensures
        res == forall|b: int| 0 <= b < coords.len() && b != skip ==> #[trigger] coords@[b]@[r1 as int] == coords@[b]@[r2 as int],
{
    let mut b: usize = 0;
    while b < coords.len()
        invariant
            b <= coords.len(),
            forall|c: int| 0 <= c < coords.len() ==> r1 < (#[trigger] coords@[c]).len() && r2 < coords@[c].len(),
            forall|c: int| 0 <= c < b && c != skip ==> #[trigger] coords@[c]@[r1 as int] == coords@[c]@[r2 as int],
        decreases coords.len() - b,
    {
        if b != skip && coords[b][r1] != coords[b][r2] {
            return false;
        }
        b += 1;
    }
    true
}

/// What a review of a table with a band axis gives: the status of every row, the
/// table's own columns kept and no column besides them and the status, and for an ordered grid the intervals of every band axis,
/// in text order of the axis names.
pub open spec fn reviewed(t: RatingTable, rv: Review) -> bool {
    &&& rv.ordered == ordered_grid(t)
    &&& rv.data.wf()
    &&& rv.data.height == t.data.height
    &&& exists|j: int|
        0 <= j < rv.data.columns.len() && (#[trigger] rv.data.columns@[j]).name@ == status_name()
            && all_reading(rv.data.columns@[j].values, status_text(rv.ordered), t.data.height as nat)
    &&& forall|j: int|
        0 <= j < t.data.columns.len() && t.data.columns@[j].name@ != status_name()
            ==> has_column_with(rv.data, #[trigger] t.data.columns@[j].name@, t.data.columns@[j].values)
    &&& forall|j: int|
        0 <= j < rv.data.columns.len() ==> (#[trigger] rv.data.columns@[j]).name@ == status_name() || exists|i: int|
            0 <= i < t.data.columns.len() && t.data.columns@[i] == rv.data.columns@[j]
    &&& !rv.ordered ==> rv.intervals.len() == 0
    &&& rv.ordered ==> {
        &&& forall|a: int|
            0 <= a < t.numeric_columns.len() ==> holds_text(
                rv.intervals@.map_values(|i: Interval| i.column),
                (#[trigger] t.numeric_columns@[a]).0@,
            )
        &&& strictly_sorted(rv.intervals@.map_values(|i: Interval| i.column))
        &&& forall|k: int| 0 <= k < rv.intervals.len() ==> interval_of(t, #[trigger] rv.intervals@[k])
    }
}

impl RatingTable {
    /// The table's data labelled for review: a status column saying whether the table
    /// is a complete ordered grid, and for one, the interval of every band on each band
    /// axis. A table with no band axis is returned as it is.
    ///
    /// An interval label that would replace an existing column is refused
    /// (`LabelConflict`).
    #[verifier::spinoff_prover]
    #[verifier::rlimit(30)]
    pub fn review_data(self) -> (res: Result<Review, ReviewError>)
        requires
            self.wf(),
        ensures
            self.numeric_columns.len() == 0 ==> (res matches Ok(rv) && rv.data == self.data && !rv.ordered
                && rv.intervals.len() == 0),
            self.numeric_columns.len() > 0 ==> match res {
                Ok(rv) => reviewed(self, rv),
                Err(ReviewError::LabelConflict { label }) => {
                    &&& ordered_grid(self)
                    &&& exists|a: int, k: int|
                        0 <= a < self.numeric_columns.len() && 0 <= k < 4 && label@ == axis_label(
                            self.numeric_columns@[a].0@,
                            k,
                        ) && #[trigger] self.data.spec_index_of(axis_label(self.numeric_columns@[a].0@, k)) is Some
                },
            },
            self.numeric_columns.len() > 0 && (!ordered_grid(self) || forall|a: int, k: int|
                0 <= a < self.numeric_columns.len() && 0 <= k < 4 ==> #[trigger] self.data.spec_index_of(
                    axis_label(self.numeric_columns@[a].0@, k),
                ) is None) ==> res is Ok,
    {
        proof {
            self.lemma_wf();
        }
        let nnum = self.numeric_columns.len();
        if nnum == 0 {
            return Ok(Review { data: self.data, ordered: false, intervals: Vec::new() });
        }
        let ncat = self.categorical_columns.len();
        proof {
            lemma_feature_count(self, self.data.columns.len() as int);
        }
        let nf = nnum + ncat;
        let h = self.data.height;
        let ghost t = self;
        // Each feature's axis values, its distinct values ascending, and each row's place.
        let mut keys_all: Vec<Vec<i64>> = Vec::new();
        let mut axes_all: Vec<Vec<i64>> = Vec::new();
        let mut coords_all: Vec<Vec<usize>> = Vec::new();
        let mut defined = true;
        let mut a: usize = 0;
        while a < nf && defined
            invariant
                t == self,
                self.wf(),
                nnum == self.numeric_columns.len(),
                nf == feature_count(self),
                h == self.data.height,
                a <= nf,
                keys_all.len() == a,
                axes_all.len() == a,
                coords_all.len() == a,
                defined ==> forall|b: int, r: int| 0 <= b < a && 0 <= r < h ==> #[trigger] axis_cell(
                    self.data.columns@[feature_column(self, b)].values,
                    r,
                ) is Some,
                forall|b: int| 0 <= b < a ==> (#[trigger] keys_all@[b])@ == keys_of(self, b),
                forall|b: int| 0 <= b < a ==> (#[trigger] axes_all@[b])@ == axis_of(keys_of(self, b)),
                forall|b: int| 0 <= b < a ==> ascending((#[trigger] axes_all@[b])@) && same_values(axes_all@[b]@, keys_of(self, b)),
                forall|b: int| 0 <= b < a ==> (#[trigger] coords_all@[b]).len() == h,
                forall|b: int, r: int| 0 <= b < a && 0 <= r < h ==> #[trigger] coords_all@[b]@[r] == coord(self, b, r),
                !defined ==> !all_defined(self),
            decreases nf - a, if defined { 1int } else { 0int },
        {
            proof {
                self.lemma_wf();
            }
            let idx = if a < nnum { self.numeric_columns[a].1 } else { self.categorical_columns[a - nnum].1 };
            assert(idx as int == feature_column(self, a as int));
            match axis_keys(&self.data.columns[idx].values) {
                None => {
                    proof {
                        let r = choose|r: int| 0 <= r < h && #[trigger] axis_cell(self.data.columns@[idx as int].values, r) is None;
                        assert(axis_cell(self.data.columns@[feature_column(self, a as int)].values, r) is None);
                    }
                    defined = false;
                },
                Some(keys) => {
                    proof {
                        assert(keys@ =~= keys_of(self, a as int));
                    }
                    let axis = distinct_ascending(&keys);
                    let mut coords: Vec<usize> = Vec::new();
                    let mut r: usize = 0;
                    while r < h
                        invariant
                            h == keys.len(),
                            r <= h,
                            coords.len() == r,
                            keys@ == keys_of(self, a as int),
                            axis@ == axis_of(keys@),
                            ascending(axis@),
                            same_values(axis@, keys@),
                            forall|i: int| 0 <= i < r ==> #[trigger] coords@[i] == coord(self, a as int, i),
                        decreases h - r,
                    {
                        assert(keys@.contains(keys@[r as int]));
                        let p = position(&axis, keys[r]);
                        coords.push(p);
                        r += 1;
                    }
                    proof {
                        assert forall|r: int| 0 <= r < h implies #[trigger] axis_cell(
                            self.data.columns@[feature_column(self, a as int)].values,
                            r,
                        ) is Some by {
                            assert(axis_cell(self.data.columns@[idx as int].values, r) == Some(keys@[r]));
                        }
                    }
                    keys_all.push(keys);
                    axes_all.push(axis);
                    coords_all.push(coords);
                    a += 1;
                },
            }
        }
        proof {
            if defined {
                assert(a == nf);
            }
        }
        let mut ordered = defined && h > 0;
        proof {
            if !defined {
                assert(!all_defined(self));
            }
            if ordered {
                assert(a == nf);
                assert(all_defined(self));
            }
        }
        // A complete grid: as many rows as cells.
        if ordered {
            let mut total: usize = 1;
            let mut b: usize = nf;
            let mut overflow = false;
            while b > 0
                invariant
                    b <= nf,
                    nf == feature_count(self),
                    axes_all.len() == nf,
                    forall|c: int| 0 <= c < nf ==> (#[trigger] axes_all@[c])@ == axis_of(keys_of(self, c)),
                    !overflow ==> total == cells_from(self, b as int),
                    overflow ==> cells_from(self, b as int) > usize::MAX || cells_from(self, b as int) == 0,
                decreases b,
            {
                let len = axes_all[b - 1].len();
                if !overflow {
                    match total.checked_mul(len) {
                        Some(n) => {
                            proof {
                                vstd::arithmetic::mul::lemma_mul_is_commutative(total as int, len as int);
                            }
                            total = n;
                        },
                        None => {
                            overflow = true;
                            proof {
                                vstd::arithmetic::mul::lemma_mul_is_commutative(
                                    cells_from(self, b as int) as int,
                                    len as int,
                                );
                            }
                        },
                    }
                } else {
                    proof {
                        let x = cells_from(self, b as int) as int;
                        let l = len as int;
                        assert(l * x == 0 || l * x > usize::MAX) by (nonlinear_arith)
                            requires
                                x > usize::MAX || x == 0,
                                l >= 0,
                        ;
                    }
                }
                b -= 1;
            }
            if overflow || total != h {
                ordered = false;
            }
            proof {
                if !ordered {
                    assert(cells_from(self, 0) != h);
                }
            }
        }
        // Every cell once.
        if ordered {
            let mut r2: usize = 0;
            while r2 < h && ordered
                invariant
                    ordered ==> forall|x: int, y: int| 0 <= x < y < r2 ==> !#[trigger] same_cell_except(self, x, y, -1),
                    !ordered ==> !ordered_grid(self),
                    h == self.data.height,
                    r2 <= h,
                    coords_all.len() == nf,
                    nf == feature_count(self),
                    forall|b: int| 0 <= b < nf ==> (#[trigger] coords_all@[b]).len() == h,
                    forall|b: int, r: int| 0 <= b < nf && 0 <= r < h ==> #[trigger] coords_all@[b]@[r] == coord(self, b, r),
                decreases h - r2,
            {
                let mut r1: usize = 0;
                while r1 < r2 && ordered
                    invariant
                        ordered ==> forall|x: int, y: int| 0 <= x < y < r2 ==> !#[trigger] same_cell_except(self, x, y, -1),
                        ordered ==> forall|x: int| 0 <= x < r1 ==> !#[trigger] same_cell_except(self, x, r2 as int, -1),
                        !ordered ==> !ordered_grid(self),
                        h == self.data.height,
                        r1 <= r2 < h,
                        coords_all.len() == nf,
                        nf == feature_count(self),
                        forall|b: int| 0 <= b < nf ==> (#[trigger] coords_all@[b]).len() == h,
                        forall|b: int, r: int| 0 <= b < nf && 0 <= r < h ==> #[trigger] coords_all@[b]@[r] == coord(self, b, r),
                    decreases r2 - r1,
                {
                    if same_cell(&coords_all, r1, r2, nf) {
                        proof {
                            assert forall|b: int| 0 <= b < feature_count(self) && b != -1 implies #[trigger] coord(self, b, r1 as int)
                                == coord(self, b, r2 as int) by {
                                assert(coords_all@[b]@[r1 as int] == coords_all@[b]@[r2 as int]);
                            }
                            assert(same_cell_except(self, r1 as int, r2 as int, -1));
                        }
                        ordered = false;
                    } else {
                        proof {
                            let b = choose|b: int| 0 <= b < coords_all.len() && b != nf && !(#[trigger] coords_all@[b]@[r1 as int] == coords_all@[b]@[r2 as int]);
                            assert(coord(self, b, r1 as int) != coord(self, b, r2 as int));
                        }
                    }
                    r1 += 1;
                }
                r2 += 1;
            }
        }
        // Every predecessor listed earlier.
        if ordered {
            let mut r: usize = 0;
            while r < h && ordered
                invariant
                    ordered ==> forall|x: int, c: int|
                        0 <= x < r && 0 <= c < nnum && #[trigger] coord(self, c, x) > 0 ==> exists|p: int|
                            0 <= p < x && coord(self, c, p) == coord(self, c, x) - 1 && same_cell_except(self, p, x, c),
                    !ordered ==> !ordered_grid(self),
                    h == self.data.height,
                    r <= h,
                    nnum == self.numeric_columns.len(),
                    nnum <= nf,
                    coords_all.len() == nf,
                    nf == feature_count(self),
                    forall|b: int| 0 <= b < nf ==> (#[trigger] coords_all@[b]).len() == h,
                    forall|b: int, q: int| 0 <= b < nf && 0 <= q < h ==> #[trigger] coords_all@[b]@[q] == coord(self, b, q),
                decreases h - r,
            {
                let mut c: usize = 0;
                while c < nnum && ordered
                    invariant
                        ordered ==> forall|x: int, d: int|
                            0 <= x < r && 0 <= d < nnum && #[trigger] coord(self, d, x) > 0 ==> exists|p: int|
                                0 <= p < x && coord(self, d, p) == coord(self, d, x) - 1 && same_cell_except(self, p, x, d),
                        ordered ==> forall|d: int|
                            0 <= d < c && #[trigger] coord(self, d, r as int) > 0 ==> exists|p: int|
                                0 <= p < r && coord(self, d, p) == coord(self, d, r as int) - 1 && same_cell_except(self, p, r as int, d),
                        !ordered ==> !ordered_grid(self),
                        h == self.data.height,
                        c <= nnum,
                        r < h,
                        nnum == self.numeric_columns.len(),
                        nnum <= nf,
                        coords_all.len() == nf,
                        nf == feature_count(self),
                        forall|b: int| 0 <= b < nf ==> (#[trigger] coords_all@[b]).len() == h,
                        forall|b: int, q: int| 0 <= b < nf && 0 <= q < h ==> #[trigger] coords_all@[b]@[q] == coord(self, b, q),
                    decreases nnum - c,
                {
                    if coords_all[c][r] > 0 {
                        let want = coords_all[c][r] - 1;
                        let mut found = false;
                        let mut p: usize = 0;
                        while p < r && !found
                            invariant
                                h == self.data.height,
                                nnum == self.numeric_columns.len(),
                                c < nnum,
                                nnum <= nf,
                                p <= r < h,
                                c < nf,
                                coords_all.len() == nf,
                                nf == feature_count(self),
                                forall|b: int| 0 <= b < nf ==> (#[trigger] coords_all@[b]).len() == h,
                                forall|b: int, q: int| 0 <= b < nf && 0 <= q < h ==> #[trigger] coords_all@[b]@[q] == coord(self, b, q),
                                want == coord(self, c as int, r as int) - 1,
                                found ==> exists|q: int|
                                    0 <= q < r && coord(self, c as int, q) == want && same_cell_except(self, q, r as int, c as int),
                                !found ==> forall|q: int|
                                    0 <= q < p ==> !(coord(self, c as int, q) == want && #[trigger] same_cell_except(self, q, r as int, c as int)),
                            decreases r - p,
                        {
                            let hit = coords_all[c][p] == want && same_cell(&coords_all, p, r, c);
                            proof {
                                if !hit && coords_all@[c as int]@[p as int] == want {
                                    let b = choose|b: int| 0 <= b < coords_all.len() && b != c && !(#[trigger] coords_all@[b]@[p as int] == coords_all@[b]@[r as int]);
                                    assert(coord(self, b, p as int) != coord(self, b, r as int));
                                }
                            }
                            if hit {
                                proof {
                                    assert forall|b: int| 0 <= b < feature_count(self) && b != c implies #[trigger] coord(self, b, p as int)
                                        == coord(self, b, r as int) by {
                                        assert(coords_all@[b]@[p as int] == coords_all@[b]@[r as int]);
                                    }
                                }
                                found = true;
                            }
                            p += 1;
                        }
                        if !found {
                            proof {
                                assert(coord(self, c as int, r as int) > 0);
                                if ordered_grid(self) {
                                    let q = choose|q: int|
                                        0 <= q < r && coord(self, c as int, q) == coord(self, c as int, r as int) - 1
                                            && same_cell_except(self, q, r as int, c as int);
                                    assert(!(coord(self, c as int, q) == want && same_cell_except(self, q, r as int, c as int)));
                                }
                            }
                            ordered = false;
                        }
                    }
                    c += 1;
                }
                r += 1;
            }
        }
        proof {
            if ordered {
                assert forall|r1: int, r2: int| 0 <= r1 < r2 < h implies !#[trigger] same_cell_except(self, r1, r2, -1) by {}
            }
        }
        let ordered = ordered;
        let mut intervals: Vec<Interval> = Vec::new();
        if ordered {
            // Band axis names in text order.
            let mut names: Vec<String> = Vec::new();
            let mut k: usize = 0;
            while k < nnum
                invariant
                    k <= nnum,
                    nnum == self.numeric_columns.len(),
                    strictly_sorted(names@),
                    forall|u: Seq<char>| holds_text(names@, u) <==> exists|b: int| 0 <= b < k && #[trigger] self.numeric_columns@[b].0@ == u,
                decreases nnum - k,
            {
                insert_sorted(&mut names, self.numeric_columns[k].0.clone());
                proof {
                    assert forall|u: Seq<char>| holds_text(names@, u) <==> exists|b: int| 0 <= b < k + 1 && #[trigger] self.numeric_columns@[b].0@ == u by {
                        if exists|b: int| 0 <= b < k + 1 && #[trigger] self.numeric_columns@[b].0@ == u {
                            let b = choose|b: int| 0 <= b < k + 1 && #[trigger] self.numeric_columns@[b].0@ == u;
                            if b < k {
                                assert(exists|c: int| 0 <= c < k && #[trigger] self.numeric_columns@[c].0@ == u);
                            }
                        }
                    }
                }
                k += 1;
            }
            let mut k: usize = 0;
            while k < names.len()
                invariant
                    ordered_grid(self),
                    self.wf(),
                    nnum == self.numeric_columns.len(),
                    nf == feature_count(self),
                    h == self.data.height,
                    k <= names.len(),
                    strictly_sorted(names@),
                    forall|u: Seq<char>| holds_text(names@, u) <==> exists|b: int| 0 <= b < nnum && #[trigger] self.numeric_columns@[b].0@ == u,
                    keys_all.len() == nf,
                    axes_all.len() == nf,
                    coords_all.len() == nf,
                    forall|b: int| 0 <= b < nf ==> (#[trigger] keys_all@[b])@ == keys_of(self, b),
                    forall|b: int| 0 <= b < nf ==> (#[trigger] axes_all@[b])@ == axis_of(keys_of(self, b)),
                    forall|b: int| 0 <= b < nf ==> ascending((#[trigger] axes_all@[b])@) && same_values(axes_all@[b]@, keys_of(self, b)),
                    forall|b: int| 0 <= b < nf ==> (#[trigger] coords_all@[b]).len() == h,
                    forall|b: int, r: int| 0 <= b < nf && 0 <= r < h ==> #[trigger] coords_all@[b]@[r] == coord(self, b, r),
                    intervals.len() == k,
                    forall|j: int| 0 <= j < k ==> (#[trigger] intervals@[j]).column == names@[j],
                    forall|j: int| 0 <= j < k ==> interval_of(self, #[trigger] intervals@[j]),
                decreases names.len() - k,
            {
                proof {
                    assert(holds_text(names@, names@[k as int]@));
                }
                let mut b: usize = 0;
                while b < nnum && self.numeric_columns[b].0 != names[k]
                    invariant
                        b <= nnum,
                        nnum == self.numeric_columns.len(),
                        k < names.len(),
                        exists|c: int| 0 <= c < nnum && #[trigger] self.numeric_columns@[c].0@ == names@[k as int]@,
                        forall|c: int| 0 <= c < b ==> self.numeric_columns@[c].0@ != names@[k as int]@,
                    decreases nnum - b,
                {
                    b += 1;
                }
                proof {
                    if b == nnum {
                        let c = choose|c: int| 0 <= c < nnum && #[trigger] self.numeric_columns@[c].0@ == names@[k as int]@;
                        assert(false);
                    }
                }
                let name = &names[k];
                let mut which: usize = 0;
                while which < 4
                    invariant
                        ordered_grid(self),
                        self.wf(),
                        which <= 4,
                        b < nnum,
                        nnum == self.numeric_columns.len(),
                        self.numeric_columns@[b as int].0@ == name@,
                        forall|w: int| 0 <= w < which ==> #[trigger] self.data.spec_index_of(axis_label(name@, w)) is None,
                    decreases 4 - which,
                {
                    let l = label(name, if which == 0 {
                        "_Lower"
                    } else if which == 1 {
                        "_Upper"
                    } else if which == 2 {
                        "_Lower_Inclusive"
                    } else {
                        "_Upper_Inclusive"
                    });
                    assert(l@ == axis_label(name@, which as int));
                    if self.data.index_of(&l).is_some() {
                        proof {
                            assert(self.data.spec_index_of(axis_label(self.numeric_columns@[b as int].0@, which as int)) is Some);
                        }
                        return Err(ReviewError::LabelConflict { label: l });
                    }
                    which += 1;
                }
                let axis = &axes_all[b];
                let keys = &keys_all[b];
                let coords = &coords_all[b];
                let mut lower: Vec<Option<Quantity>> = Vec::new();
                let mut upper: Vec<Option<Quantity>> = Vec::new();
                let mut lower_inclusive: Vec<Option<bool>> = Vec::new();
                let mut upper_inclusive: Vec<Option<bool>> = Vec::new();
                proof {
                    assert(ascending(axes_all@[b as int]@));
                }
                let mut r: usize = 0;
                while r < h
                    invariant
                        r <= h,
                        h == self.data.height,
                        b < nf,
                        keys@ == keys_of(self, b as int),
                        axis@ == axis_of(keys_of(self, b as int)),
                        ascending(axis@),
                        same_values(axis@, keys@),
                        coords.len() == h,
                        forall|q: int| 0 <= q < h ==> #[trigger] coords@[q] == coord(self, b as int, q),
                        keys.len() == h,
                        lower.len() == r,
                        upper.len() == r,
                        lower_inclusive.len() == r,
                        upper_inclusive.len() == r,
                        forall|q: int|
                            0 <= q < r ==> #[trigger] row_labelled(
                                keys@,
                                keys@[q],
                                lower@[q],
                                upper@[q],
                                lower_inclusive@[q],
                                upper_inclusive@[q],
                            ),
                    decreases h - r,
                {
                    let c = coords[r];
                    proof {
                        assert(keys@.contains(keys@[r as int]));
                        let i = index_in(axis@, keys@[r as int]);
                        assert(0 <= i < axis.len() && axis@[i] == keys@[r as int]);
                    }
                    let value = keys[r];
                    let ghost lower_before = lower@;
                    if c == 0 {
                        proof {
                            assert forall|x: i64| keys@.contains(x) implies !(x < value) by {
                                assert(axis@.contains(x));
                                let j = choose|j: int| 0 <= j < axis.len() && axis@[j] == x;
                                if j > 0 {
                                    assert(axis@[0] < axis@[j]);
                                }
                            }
                        }
                        lower.push(Some(Quantity::Ordered(NEG_INFINITY_KEY)));
                    } else {
                        let l = axis[c - 1];
                        proof {
                            assert(axis@.contains(l));
                            assert(keys@.contains(l));
                            assert(l < value);
                            assert forall|x: i64| keys@.contains(x) implies !(l < x < value) by {
                                assert(axis@.contains(x));
                                let j = choose|j: int| 0 <= j < axis.len() && axis@[j] == x;
                                if l < x && x < value {
                                    if j <= c - 1 {
                                        if j < c - 1 {
                                            assert(axis@[j] < axis@[c - 1]);
                                        }
                                    } else if j >= c {
                                        if j > c {
                                            assert(axis@[c as int] < axis@[j]);
                                        }
                                    }
                                }
                            }
                        }
                        lower.push(Some(Quantity::Ordered(l)));
                    }
                    let top = Quantity::Ordered(value);
                    let ghost (l0, u0, li0, ui0) = (lower@, upper@, lower_inclusive@, upper_inclusive@);
                    upper.push(Some(top));
                    lower_inclusive.push(Some(false));
                    upper_inclusive.push(Some(top.is_finite()));
                    proof {
                        assert(row_labelled(keys@, keys@[r as int], lower@[r as int], upper@[r as int], lower_inclusive@[r as int], upper_inclusive@[r as int]));
                        assert forall|q: int| 0 <= q < r + 1 implies #[trigger] row_labelled(
                            keys@,
                            keys@[q],
                            lower@[q],
                            upper@[q],
                            lower_inclusive@[q],
                            upper_inclusive@[q],
                        ) by {
                            if q < r {
                                assert(upper@[q] == u0[q] && li0[q] == lower_inclusive@[q] && ui0[q] == upper_inclusive@[q]);
                                assert(lower@[q] == lower_before[q]);
                            }
                        }
                    }
                    r += 1;
                }
                proof {
                    assert(labels_axis(self, b as int, lower@, upper@, lower_inclusive@, upper_inclusive@));
                    assert(band_named(self, names@[k as int]@, b as int));
                }
                let ghost (lw, up, lwi, upi) = (lower@, upper@, lower_inclusive@, upper_inclusive@);
                let ghost before = intervals@;
                intervals.push(Interval { column: names[k].clone(), lower, upper, lower_inclusive, upper_inclusive });
                proof {
                    assert(band_named(self, intervals@[k as int].column@, b as int));
                    assert(intervals@[k as int].lower@ == lw && intervals@[k as int].upper@ == up);
                    assert(intervals@[k as int].lower_inclusive@ == lwi && intervals@[k as int].upper_inclusive@ == upi);
                    assert(labels_axis(self, b as int, intervals@[k as int].lower@, intervals@[k as int].upper@, intervals@[k as int].lower_inclusive@, intervals@[k as int].upper_inclusive@));
                    assert(interval_of(self, intervals@[k as int]));
                    assert forall|j: int| 0 <= j < k + 1 implies interval_of(self, #[trigger] intervals@[j]) by {
                        if j < k {
                            assert(intervals@[j] == before[j]);
                        }
                    }
                }
                k += 1;
            }
            proof {
                let cols = intervals@.map_values(|i: Interval| i.column);
                assert(cols =~= names@);

            }
        }
        let mut data = self.data;
        let status = status_column(ordered, h);
        let ghost sv = status.values;
        set_column(&mut data, status);
        let rv = Review { data, ordered, intervals };
        proof {
            assert(has_column_with(rv.data, status_name(), sv));
            assert(t == self);
            let j = choose|j: int| 0 <= j < rv.data.columns.len() && (#[trigger] rv.data.columns@[j]).name@ == status_name() && rv.data.columns@[j].values == sv;
            assert(all_reading(rv.data.columns@[j].values, status_text(rv.ordered), t.data.height as nat));
            assert(rv.ordered == ordered_grid(t));
            assert(forall|k: int| 0 <= k < rv.intervals.len() ==> interval_of(t, #[trigger] rv.intervals@[k]));
            assert(!rv.ordered ==> rv.intervals.len() == 0);
            assert(reviewed(t, rv));
        }
        Ok(rv)
    }
}

// ---------------------------------------------------------------- intervals and lookup agree

/// Where `x` would stand in an ascending sequence that lacks it.
proof fn lemma_split_point(s: Seq<i64>, x: i64) -> (p: int)
    requires
        ascending(s),
        !s.contains(x),
    ensures
        0 <= p <= s.len(),
        forall|i: int| 0 <= i < p ==> s[i] < x,
        forall|i: int| p <= i < s.len() ==> s[i] > x,
    decreases s.len(),
{
    if s.len() == 0 {
        0
    } else {
        let last = s.len() - 1;
        assert(s[last] != x) by {
            assert(s.contains(s[last]));
        }
        if s[last] < x {
            assert forall|i: int| 0 <= i < s.len() implies s[i] < x by {
                if i < last {
                    assert(s[i] < s[last]);
                }
            }
            s.len() as int
        } else {
            let q = s.drop_last();
            assert forall|i: int, j: int| 0 <= i < j < q.len() implies q[i] < q[j] by {
                assert(q[i] == s[i] && q[j] == s[j]);
            }
            assert(!q.contains(x)) by {
                if q.contains(x) {
                    let i = choose|i: int| 0 <= i < q.len() && q[i] == x;
                    assert(s[i] == x);
                }
            }
            let p = lemma_split_point(q, x);
            assert forall|i: int| 0 <= i < p implies s[i] < x by {
                assert(q[i] == s[i]);
            }
            assert forall|i: int| p <= i < s.len() implies s[i] > x by {
                if i < last {
                    assert(q[i] == s[i]);
                }
            }
            p
        }
    }
}

/// Every sequence of keys has its distinct values in ascending order.
proof fn lemma_axis_exists(keys: Seq<i64>)
    ensures
        ascending(axis_of(keys)),
        same_values(axis_of(keys), keys),
    decreases keys.len(),
{
    if keys.len() == 0 {
        let e = Seq::<i64>::empty();
        assert(ascending(e) && same_values(e, keys));
    } else {
        let rest = keys.drop_last();
        lemma_axis_exists(rest);
        let s = axis_of(rest);
        let x = keys.last();
        assert forall|y: i64| keys.contains(y) <==> (rest.contains(y) || y == x) by {
            if keys.contains(y) {
                let i = choose|i: int| 0 <= i < keys.len() && keys[i] == y;
                if i < keys.len() - 1 {
                    assert(rest[i] == y);
                }
            }
            if rest.contains(y) {
                let i = choose|i: int| 0 <= i < rest.len() && rest[i] == y;
                assert(keys[i] == y);
            }
            if y == x {
                assert(keys[keys.len() - 1] == y);
            }
        }
        if s.contains(x) {
            assert(ascending(s) && same_values(s, keys));
        } else {
            let p = lemma_split_point(s, x);
            let t = s.take(p).push(x) + s.skip(p);
            assert forall|i: int| 0 <= i < t.len() implies #[trigger] t[i] == if i < p {
                s[i]
            } else if i == p {
                x
            } else {
                s[i - 1]
            } by {}
            assert forall|i: int, j: int| 0 <= i < j < t.len() implies t[i] < t[j] by {
                if j < p {
                    assert(s[i] < s[j]);
                } else if j == p {
                } else if i < p {
                    assert(s[i] < x && x < s[j - 1]);
                } else if i == p {
                } else {
                    assert(s[i - 1] < s[j - 1]);
                }
            }
            assert forall|y: i64| t.contains(y) <==> keys.contains(y) by {
                if t.contains(y) {
                    let i = choose|i: int| 0 <= i < t.len() && t[i] == y;
                    if i < p {
                        assert(s.contains(y));
                    } else if i > p {
                        assert(s[i - 1] == y);
                        assert(s.contains(y));
                    }
                }
                if s.contains(y) {
                    let i = choose|i: int| 0 <= i < s.len() && s[i] == y;
                    if i < p {
                        assert(t[i] == y);
                    } else {
                        assert(t[i + 1] == y);
                    }
                }
                if y == x {
                    assert(t[p] == y);
                }
            }
            assert(ascending(t) && same_values(t, keys));
        }
    }
}

/// A row's place on an axis holds its key, and places order as keys do.
proof fn lemma_coord(t: RatingTable, a: int, r: int, s: int)
    requires
        0 <= r < t.data.height,
        0 <= s < t.data.height,
    ensures
        0 <= coord(t, a, r) < axis_of(keys_of(t, a)).len(),
        axis_of(keys_of(t, a))[coord(t, a, r)] == keys_of(t, a)[r],
        (keys_of(t, a)[r] < keys_of(t, a)[s]) <==> (coord(t, a, r) < coord(t, a, s)),
        (keys_of(t, a)[r] == keys_of(t, a)[s]) <==> (coord(t, a, r) == coord(t, a, s)),
{
    let keys = keys_of(t, a);
    let axis = axis_of(keys);
    lemma_axis_exists(keys);
    assert(keys.contains(keys[r]) && keys.contains(keys[s]));
    assert(axis.contains(keys[r]) && axis.contains(keys[s]));
    let i = coord(t, a, r);
    let j = coord(t, a, s);
    assert(0 <= i < axis.len() && axis[i] == keys[r]);
    assert(0 <= j < axis.len() && axis[j] == keys[s]);
    if i < j {
        assert(axis[i] < axis[j]);
    }
    if j < i {
        assert(axis[j] < axis[i]);
    }
}

/// The number an observation offers band axis `a`, by its order key.
pub open spec fn offered_key(t: RatingTable, f: Map<Seq<char>, FeatureValue>, a: int) -> i64 {
    match num_input(f, t.numeric_columns@[a].0@) {
        Some(Quantity::Ordered(x)) => x,
        _ => 0,
    }
}

/// The observation offers every band axis a finite number and every code axis a code.
pub open spec fn offers_grid(t: RatingTable, f: Map<Seq<char>, FeatureValue>) -> bool {
    &&& forall|a: int|
        0 <= a < t.numeric_columns.len() ==> (num_input(f, (#[trigger] t.numeric_columns@[a]).0@) matches Some(q)
            && spec_is_finite(q))
    &&& forall|c: int|
        0 <= c < t.categorical_columns.len() ==> (cat_input(f, (#[trigger] t.categorical_columns@[c]).0@) is Some)
}

/// Row `r` is not below the observation on band axis `a`.
pub open spec fn fits_band(t: RatingTable, f: Map<Seq<char>, FeatureValue>, a: int, r: int) -> bool {
    offered_key(t, f, a) <= keys_of(t, a)[r]
}

/// Row `r` holds the observation's code on code axis `c`.
pub open spec fn fits_code(t: RatingTable, f: Map<Seq<char>, FeatureValue>, c: int, r: int) -> bool {
    cat_cell(t, t.categorical_columns@[c].1 as int, r) == cat_input(f, t.categorical_columns@[c].0@)
}

/// Row `r` admits the observation, axis by axis.
pub open spec fn fits_grid(t: RatingTable, f: Map<Seq<char>, FeatureValue>, r: int) -> bool {
    &&& forall|a: int| 0 <= a < t.numeric_columns.len() ==> #[trigger] fits_band(t, f, a, r)
    &&& forall|c: int| 0 <= c < t.categorical_columns.len() ==> #[trigger] fits_code(t, f, c, r)
}

/// Every value on band axis `a` below row `r`'s is below the observation's.
pub open spec fn above_lower(t: RatingTable, f: Map<Seq<char>, FeatureValue>, a: int, r: int) -> bool {
    forall|s: int|
        0 <= s < t.data.height && #[trigger] keys_of(t, a)[s] < keys_of(t, a)[r] ==> keys_of(t, a)[s]
            < offered_key(t, f, a)
}

/// Row `r` is the grid cell the observation lies in.
pub open spec fn in_cell(t: RatingTable, f: Map<Seq<char>, FeatureValue>, r: int) -> bool {
    &&& fits_grid(t, f, r)
    &&& forall|a: int| 0 <= a < t.numeric_columns.len() ==> #[trigger] above_lower(t, f, a, r)
}

/// In a grid, a band cell holds its key and a code cell holds its code, never the
/// wildcard.
proof fn lemma_grid_cells(t: RatingTable, r: int)
    requires
        t.wf(),
        ordered_grid(t),
        0 <= r < t.data.height,
    ensures
        forall|a: int|
            0 <= a < t.numeric_columns.len() ==> num_cell(t, (#[trigger] t.numeric_columns@[a]).1 as int, r)
                == Some(Quantity::Ordered(keys_of(t, a)[r])),
        forall|c: int|
            0 <= c < t.categorical_columns.len() ==> (cat_cell(t, (#[trigger] t.categorical_columns@[c]).1 as int, r)
                matches Some(y) && y != WILDCARD && y as i64 == keys_of(t, t.numeric_columns.len() + c)[r]),
{
    t.lemma_wf();
    assert forall|a: int| 0 <= a < t.numeric_columns.len() implies num_cell(t, (#[trigger] t.numeric_columns@[a]).1 as int, r)
        == Some(Quantity::Ordered(keys_of(t, a)[r])) by {
        assert(feature_column(t, a) == t.numeric_columns@[a].1 as int);
        assert(axis_cell(t.data.columns@[feature_column(t, a)].values, r) is Some);
    }
    assert forall|c: int| 0 <= c < t.categorical_columns.len() implies (cat_cell(t, (#[trigger] t.categorical_columns@[c]).1 as int, r)
        matches Some(y) && y != WILDCARD && y as i64 == keys_of(t, t.numeric_columns.len() + c)[r]) by {
        let b = t.numeric_columns.len() + c;
        assert(feature_column(t, b) == t.categorical_columns@[c].1 as int);
        assert(axis_cell(t.data.columns@[feature_column(t, b)].values, r) is Some);
    }
}

/// In a grid, the table's rule admits a row exactly when it admits it axis by axis,
/// and never through a wildcard.
proof fn lemma_fits(t: RatingTable, f: Map<Seq<char>, FeatureValue>, r: int)
    requires
        t.wf(),
        ordered_grid(t),
        offers_grid(t, f),
        0 <= r < t.data.height,
    ensures
        row_fits(t, f, r) == fits_grid(t, f, r),
        !row_wild(t, f, r),
{
    lemma_grid_cells(t, r);
    assert forall|a: int| 0 <= a < t.numeric_columns.len() implies #[trigger] num_ok(t, f, a, r) == fits_band(t, f, a, r) by {
        assert(num_input(f, t.numeric_columns@[a].0@) is Some);
    }
    assert forall|c: int| 0 <= c < t.categorical_columns.len() implies #[trigger] cat_ok(t, f, c, r) == fits_code(t, f, c, r)
        && !cat_wild(t, f, c, r) by {
        assert(cat_input(f, t.categorical_columns@[c].0@) is Some);
    }
    if row_fits(t, f, r) {
        assert forall|a: int| 0 <= a < t.numeric_columns.len() implies #[trigger] fits_band(t, f, a, r) by {
            assert(num_ok(t, f, a, r));
        }
        assert forall|c: int| 0 <= c < t.categorical_columns.len() implies #[trigger] fits_code(t, f, c, r) by {
            assert(cat_ok(t, f, c, r));
        }
    }
    if fits_grid(t, f, r) {
        assert forall|a: int| 0 <= a < t.numeric_columns.len() implies #[trigger] num_ok(t, f, a, r) by {
            assert(fits_band(t, f, a, r));
        }
        assert forall|c: int| 0 <= c < t.categorical_columns.len() implies #[trigger] cat_ok(t, f, c, r) by {
            assert(fits_code(t, f, c, r));
        }
    }
    if row_wild(t, f, r) {
        let c = choose|c: int| 0 <= c < t.categorical_columns.len() && #[trigger] cat_wild(t, f, c, r);
    }
}

/// Two rows at the same place on every axis but `skip` are admitted alike on each of
/// those axes.
proof fn lemma_same_place(t: RatingTable, f: Map<Seq<char>, FeatureValue>, p: int, r: int, skip: int)
    requires
        t.wf(),
        ordered_grid(t),
        0 <= p < t.data.height,
        0 <= r < t.data.height,
        same_cell_except(t, p, r, skip),
    ensures
        forall|a: int|
            0 <= a < t.numeric_columns.len() && a != skip ==> #[trigger] fits_band(t, f, a, p) == fits_band(
                t,
                f,
                a,
                r,
            ),
        forall|c: int|
            0 <= c < t.categorical_columns.len() && t.numeric_columns.len() + c != skip ==> #[trigger] fits_code(
                t,
                f,
                c,
                p,
            ) == fits_code(t, f, c, r),
{
    lemma_grid_cells(t, p);
    lemma_grid_cells(t, r);
    assert forall|a: int|
        0 <= a < t.numeric_columns.len() && a != skip implies #[trigger] fits_band(t, f, a, p) == fits_band(
        t,
        f,
        a,
        r,
    ) by {
        assert(coord(t, a, p) == coord(t, a, r));
        lemma_coord(t, a, p, r);
        assert(keys_of(t, a)[p] == keys_of(t, a)[r]);
    }
    assert forall|c: int|
        0 <= c < t.categorical_columns.len() && t.numeric_columns.len() + c != skip implies #[trigger] fits_code(
        t,
        f,
        c,
        p,
    ) == fits_code(t, f, c, r) by {
        let b = t.numeric_columns.len() + c;
        assert(coord(t, b, p) == coord(t, b, r));
        lemma_coord(t, b, p, r);
        assert(cat_cell(t, t.categorical_columns@[c].1 as int, p) == cat_cell(t, t.categorical_columns@[c].1 as int, r));
    }
}

/// Any other row the observation fits comes after the cell it lies in.
proof fn lemma_later(t: RatingTable, f: Map<Seq<char>, FeatureValue>, k: int, r: int)
    requires
        t.wf(),
        ordered_grid(t),
        0 <= k < t.data.height,
        0 <= r < t.data.height,
        in_cell(t, f, k),
        fits_grid(t, f, r),
        r != k,
    ensures
        k < r,
    decreases r,
{
    let nnum = t.numeric_columns.len() as int;
    lemma_grid_cells(t, k);
    lemma_grid_cells(t, r);
    // On a code axis both hold the observation's code, so both stand at its place.
    assert forall|c: int| 0 <= c < t.categorical_columns.len() implies #[trigger] coord(t, nnum + c, r) == coord(
        t,
        nnum + c,
        k,
    ) by {
        assert(fits_code(t, f, c, r) && fits_code(t, f, c, k));
        lemma_coord(t, nnum + c, r, k);
    }
    // On a band axis the row stands no lower than the cell.
    assert forall|a: int| 0 <= a < nnum implies #[trigger] coord(t, a, r) >= coord(t, a, k) by {
        lemma_coord(t, a, r, k);
        assert(fits_band(t, f, a, r));
        assert(above_lower(t, f, a, k));
        if coord(t, a, r) < coord(t, a, k) {
            assert(keys_of(t, a)[r] < keys_of(t, a)[k]);
        }
    }
    if r < k {
        // The two rows differ somewhere, so on some band axis the row stands higher.
        assert(!same_cell_except(t, r, k, -1));
        let b = choose|b: int| 0 <= b < feature_count(t) && b != -1 && !(#[trigger] coord(t, b, r) == coord(t, b, k));
        if b >= nnum {
            assert(coord(t, nnum + (b - nnum), r) == coord(t, nnum + (b - nnum), k));
            assert(false);
        }
        assert(coord(t, b, r) > coord(t, b, k));
        assert(coord(t, b, k) >= 0) by {
            lemma_coord(t, b, k, k);
        }
        // Its predecessor along that axis comes earlier and still fits.
        let p = choose|p: int| 0 <= p < r && coord(t, b, p) == coord(t, b, r) - 1 && same_cell_except(t, p, r, b);
        lemma_same_place(t, f, p, r, b);
        assert(fits_band(t, f, b, p)) by {
            lemma_coord(t, b, p, k);
            assert(fits_band(t, f, b, k));
        }
        assert forall|a: int| 0 <= a < nnum implies #[trigger] fits_band(t, f, a, p) by {
            if a != b {
                assert(fits_band(t, f, a, r));
            }
        }
        assert forall|c: int| 0 <= c < t.categorical_columns.len() implies #[trigger] fits_code(t, f, c, p) by {
            assert(fits_code(t, f, c, r));
        }
        if p != k {
            lemma_later(t, f, k, p);
        }
    }
}

/// In a grid, the row the table's rule gives an observation is the cell it lies in.
proof fn lemma_find_is_cell(t: RatingTable, f: Map<Seq<char>, FeatureValue>, k: int)
    requires
        t.wf(),
        ordered_grid(t),
        offers_grid(t, f),
        0 <= k < t.data.height,
    ensures
        spec_find_row(t, f) == Some(k) <==> in_cell(t, f, k),
{
    let nnum = t.numeric_columns.len() as int;
    assert(has_all_features(t, f)) by {
        assert forall|a: int| 0 <= a < nnum implies f.contains_key((#[trigger] t.numeric_columns@[a]).0@) by {
            assert(num_input(f, t.numeric_columns@[a].0@) is Some);
        }
        assert forall|c: int| 0 <= c < t.categorical_columns.len() implies f.contains_key(
            (#[trigger] t.categorical_columns@[c]).0@,
        ) by {
            assert(cat_input(f, t.categorical_columns@[c].0@) is Some);
        }
    }
    lemma_first_fit(t, f, 0, true);
    lemma_first_fit(t, f, 0, false);
    lemma_fits(t, f, k);
    if in_cell(t, f, k) {
        match first_fit(t, f, 0, true) {
            Some(r) => {
                lemma_fits(t, f, r);
                if r != k {
                    lemma_later(t, f, k, r);
                }
            },
            None => {},
        }
    }
    if spec_find_row(t, f) == Some(k) {
        // `k` is admitted and no earlier row is.
        assert(row_fits(t, f, k));
        assert forall|q: int| 0 <= q < k implies !#[trigger] fits_grid(t, f, q) by {
            lemma_fits(t, f, q);
        }
        assert forall|a: int| 0 <= a < nnum implies #[trigger] above_lower(t, f, a, k) by {
            assert forall|s: int|
                0 <= s < t.data.height && #[trigger] keys_of(t, a)[s] < keys_of(t, a)[k] implies keys_of(t, a)[s]
                < offered_key(t, f, a) by {
                if keys_of(t, a)[s] >= offered_key(t, f, a) {
                    lemma_coord(t, a, s, k);
                    lemma_coord(t, a, s, s);
                    let p = choose|p: int|
                        0 <= p < k && coord(t, a, p) == coord(t, a, k) - 1 && same_cell_except(t, p, k, a);
                    lemma_coord(t, a, s, p);
                    lemma_same_place(t, f, p, k, a);
                    assert forall|b: int| 0 <= b < nnum implies #[trigger] fits_band(t, f, b, p) by {
                        if b != a {
                            assert(fits_band(t, f, b, k));
                        }
                    }
                    assert forall|c: int| 0 <= c < t.categorical_columns.len() implies #[trigger] fits_code(t, f, c, p) by {
                        assert(fits_code(t, f, c, k));
                    }
                    assert(fits_grid(t, f, p));
                }
            }
        }
    }
}

/// The observation's value lies in row `k`'s displayed interval: above its lower
/// bound and not above its upper bound.
pub open spec fn within(iv: Interval, x: Option<Quantity>, k: int) -> bool {
    &&& iv.lower@[k] matches Some(Quantity::Ordered(l))
    &&& iv.upper@[k] matches Some(Quantity::Ordered(u))
    &&& x matches Some(Quantity::Ordered(v))
    &&& l < v
    &&& v <= u
}

/// Row `k`, as the review displays it, holds the observation: on every band axis the
/// value lies in the row's interval, and on every code axis the row shows the code.
pub open spec fn shown_inside(t: RatingTable, rv: Review, f: Map<Seq<char>, FeatureValue>, k: int) -> bool {
    &&& forall|j: int|
        0 <= j < rv.intervals.len() ==> within(
            #[trigger] rv.intervals@[j],
            num_input(f, rv.intervals@[j].column@),
            k,
        )
    &&& forall|c: int| 0 <= c < t.categorical_columns.len() ==> #[trigger] fits_code(t, f, c, k)
}

/// On band axis `a`, row `k`'s displayed interval holds the observation exactly when the
/// row is not below it and every value below the row's is below it.
proof fn lemma_within(t: RatingTable, f: Map<Seq<char>, FeatureValue>, iv: Interval, a: int, k: int)
    requires
        t.wf(),
        offers_grid(t, f),
        0 <= k < t.data.height,
        band_named(t, iv.column@, a),
        labels_axis(t, a, iv.lower@, iv.upper@, iv.lower_inclusive@, iv.upper_inclusive@),
    ensures
        within(iv, num_input(f, iv.column@), k) == (fits_band(t, f, a, k) && above_lower(t, f, a, k)),
{
    let keys = keys_of(t, a);
    assert(row_labelled(keys, keys[k], iv.lower@[k], iv.upper@[k], iv.lower_inclusive@[k], iv.upper_inclusive@[k]));
    assert(num_input(f, t.numeric_columns@[a].0@) matches Some(q) && spec_is_finite(q));
    let x = offered_key(t, f, a);
    let l = iv.lower@[k]->0->Ordered_0;
    assert(lower_bound_of(keys, keys[k], l));
    if l == NEG_INFINITY_KEY && forall|y: i64| keys.contains(y) ==> !(y < keys[k]) {
        assert(above_lower(t, f, a, k)) by {
            assert forall|s: int| 0 <= s < t.data.height && #[trigger] keys_of(t, a)[s] < keys_of(t, a)[k] implies keys_of(t, a)[s]
                < offered_key(t, f, a) by {
                assert(keys.contains(keys[s]));
            }
        }
        assert(l < x);
    } else {
        assert(keys.contains(l) && l < keys[k]);
        let s0 = choose|s: int| 0 <= s < keys.len() && keys[s] == l;
        if above_lower(t, f, a, k) {
            assert(keys_of(t, a)[s0] < keys_of(t, a)[k]);
        }
        if l < x {
            assert forall|s: int| 0 <= s < t.data.height && #[trigger] keys_of(t, a)[s] < keys_of(t, a)[k] implies keys_of(t, a)[s]
                < offered_key(t, f, a) by {
                assert(keys.contains(keys[s]));
                assert(!(l < keys[s] < keys[k]));
            }
        }
    }
}

/// An ordered grid's displayed intervals select exactly the row lookup selects: for an
/// observation offering every band axis a finite number and every code axis a code, a
/// row's intervals hold its value on every band axis, and the row shows its code on
/// every code axis, exactly when that row is the one the table's first-match rule
/// gives it.
pub proof fn law_grid_intervals_select_the_row(t: RatingTable, rv: Review, f: Map<Seq<char>, FeatureValue>, k: int)
    requires
        t.wf(),
        reviewed(t, rv),
        rv.ordered,
        offers_grid(t, f),
        0 <= k < t.data.height,
    ensures
        shown_inside(t, rv, f, k) <==> spec_find_row(t, f) == Some(k),
{
    t.lemma_wf();
    let nnum = t.numeric_columns.len() as int;
    let cols = rv.intervals@.map_values(|i: Interval| i.column);
    lemma_find_is_cell(t, f, k);
    // Each interval describes the band axis it is named for.
    assert forall|j: int| 0 <= j < rv.intervals.len() implies exists|a: int|
        band_named(t, (#[trigger] rv.intervals@[j]).column@, a) && (within(
            rv.intervals@[j],
            num_input(f, rv.intervals@[j].column@),
            k,
        ) == (fits_band(t, f, a, k) && above_lower(t, f, a, k))) by {
        let iv = rv.intervals@[j];
        assert(interval_of(t, iv));
        let a = choose|a: int|
            band_named(t, iv.column@, a) && #[trigger] labels_axis(
                t,
                a,
                iv.lower@,
                iv.upper@,
                iv.lower_inclusive@,
                iv.upper_inclusive@,
            );
        lemma_within(t, f, iv, a, k);
    }
    if shown_inside(t, rv, f, k) {
        assert forall|a: int| 0 <= a < nnum implies #[trigger] fits_band(t, f, a, k) && above_lower(t, f, a, k) by {
            assert(holds_text(cols, t.numeric_columns@[a].0@));
            let j = choose|j: int| 0 <= j < cols.len() && (#[trigger] cols[j])@ == t.numeric_columns@[a].0@;
            assert(cols[j] == rv.intervals@[j].column);
            let a2 = choose|a2: int|
                band_named(t, rv.intervals@[j].column@, a2) && (within(
                    rv.intervals@[j],
                    num_input(f, rv.intervals@[j].column@),
                    k,
                ) == (fits_band(t, f, a2, k) && above_lower(t, f, a2, k)));
            if a2 != a {
                assert(t.numeric_columns@[a2].0@ != t.numeric_columns@[a].0@);
            }
        }
        assert(in_cell(t, f, k));
    }
    if in_cell(t, f, k) {
        assert forall|j: int| 0 <= j < rv.intervals.len() implies within(
            #[trigger] rv.intervals@[j],
            num_input(f, rv.intervals@[j].column@),
            k,
        ) by {
            let a2 = choose|a2: int|
                band_named(t, rv.intervals@[j].column@, a2) && (within(
                    rv.intervals@[j],
                    num_input(f, rv.intervals@[j].column@),
                    k,
                ) == (fits_band(t, f, a2, k) && above_lower(t, f, a2, k)));
            assert(fits_band(t, f, a2, k) && above_lower(t, f, a2, k));
        }
    }
}

} // verus!
