//! Which row of each table every observation falls in.
//!
//! The reference is the first-match scan of [`RatingTable::find_row_match`], run on the
//! features each observation presents. Three shapes of table are common enough to be
//! worth a shortcut: a table that reads nothing, a single ascending band column, and a
//! single category column. Each shortcut, and the scan with its lookups hoisted out of
//! the per-observation work, gives exactly the row the reference scan gives; the
//! contracts below say so for every observation.
use crate::features::{
    extract_row_features, lemma_row_feature, row_features, FeatureValue, WILDCARD,
};
use crate::frame::{ColumnValues, Frame};
use crate::quantity::{spec_exceeds, Quantity};
use crate::rating_model::{
    cat_cell, cat_input, cat_ok, cat_wild, factor_column_name, factor_name, first_fit,
    has_all_features, lemma_first_fit_is, lemma_first_fit_none, num_cell, num_input, num_ok,
    row_fits, row_wild, same_row, spec_find_row, RatingModel, RatingTable,
};
use std::collections::HashMap;
use vstd::prelude::*;

verus! {

broadcast use vstd::std_specs::hash::group_hash_axioms;

/// Marks an observation that fell in no row of a table.
pub const NO_MATCH: u32 = 0xffff_ffff;

/// A row as it is stored in a match array.
pub open spec fn encode_match(o: Option<int>) -> u32 {
    match o {
        Some(r) => r as u32,
        None => NO_MATCH,
    }
}

/// The row of table `t` that observation `i` of `df` falls in, by the reference scan.
pub open spec fn spec_match(t: RatingTable, df: Frame, i: int) -> u32 {
    encode_match(spec_find_row(t, row_features(df.columns@, i)))
}

/// Why matches could not be computed.
#[derive(Debug, Clone, PartialEq, Eq)]
pub enum MatchError {
    /// This table has more rows than a match array can index.
    TooManyRows { table: usize, rows: usize },
    /// This table carries a numeric column of a dtype the matcher does not read, which
    /// would constrain nothing and silently send every observation to the first row.
    UnreadableColumn { table: usize, column: String },
}

/// How a table's rows will be looked up.
pub enum MatchPlan {
    /// The table reads no feature: every observation takes this row.
    Constant(u32),
    /// One band column, ascending bounds and none of them null or undefined.
    SortedNumeric { column: usize, thresholds: Vec<i64> },
    /// One category column with no null codes: each code's first row, and the first
    /// wildcard row.
    Categorical { column: usize, rows: HashMap<i32, u32>, wildcard: u32 },
    /// Anything else.
    General,
}

/// What each plan promises about the table and the data.
pub open spec fn plan_valid(plan: MatchPlan, t: RatingTable, df: Frame) -> bool {
    match plan {
        MatchPlan::Constant(c) => {
            &&& t.numeric_columns.len() == 0
            &&& t.categorical_columns.len() == 0
            &&& c == (if t.data.height > 0 {
                0u32
            } else {
                NO_MATCH
            })
        },
        MatchPlan::SortedNumeric { column, thresholds } => {
            &&& t.categorical_columns.len() == 0
            &&& t.numeric_columns.len() == 1
            &&& column < df.columns.len()
            &&& df.columns@[column as int].name@ == t.numeric_columns@[0].0@
            &&& df.columns@[column as int].values is Float
            &&& thresholds.len() == t.data.height
            &&& forall|r: int|
                0 <= r < t.data.height ==> num_cell(t, t.numeric_columns@[0].1 as int, r) == Some(
                    Quantity::Ordered(#[trigger] thresholds@[r]),
                )
            &&& forall|a: int, b: int|
                0 <= a <= b < thresholds.len() ==> thresholds@[a] <= thresholds@[b]
        },
        MatchPlan::Categorical { column, rows, wildcard } => {
            let idx = t.categorical_columns@[0].1 as int;
            &&& t.numeric_columns.len() == 0
            &&& t.categorical_columns.len() == 1
            &&& column < df.columns.len()
            &&& df.columns@[column as int].name@ == t.categorical_columns@[0].0@
            &&& df.columns@[column as int].values is Int32
            &&& forall|r: int| 0 <= r < t.data.height ==> (#[trigger] cat_cell(t, idx, r)) is Some
            &&& forall|x: i32|
                #![trigger rows@.contains_key(x)]
                rows@.contains_key(x) <==> (x != WILDCARD && exists|r: int|
                    0 <= r < t.data.height && cat_cell(t, idx, r) == Some(x))
            &&& forall|x: i32|
                #![trigger rows@[x]]
                rows@.contains_key(x) ==> {
                    &&& rows@[x] < t.data.height
                    &&& cat_cell(t, idx, rows@[x] as int) == Some(x)
                    &&& forall|k: int| 0 <= k < rows@[x] ==> cat_cell(t, idx, k) != Some(x)
                }
            &&& (wildcard == NO_MATCH ==> forall|k: int|
                0 <= k < t.data.height ==> cat_cell(t, idx, k) != Some(WILDCARD))
            &&& (wildcard != NO_MATCH ==> {
                &&& wildcard < t.data.height
                &&& cat_cell(t, idx, wildcard as int) == Some(WILDCARD)
                &&& forall|k: int| 0 <= k < wildcard ==> cat_cell(t, idx, k) != Some(WILDCARD)
            })
        },
        MatchPlan::General => true,
    }
}

/// The data has a column of this name holding numbers (with `numbers` set) or codes.
pub open spec fn obs_column(df: Frame, name: Seq<char>, numbers: bool) -> bool {
    match df.spec_index_of(name) {
        Some(c) => if numbers {
            df.columns@[c].values is Float
        } else {
            df.columns@[c].values is Int32
        },
        None => false,
    }
}

/// A band bound that is set and defined.
pub open spec fn bound_set(q: Option<Quantity>) -> bool {
    q matches Some(Quantity::Ordered(_))
}

/// The order key of a set bound.
pub open spec fn bound_key(q: Option<Quantity>) -> int {
    match q {
        Some(Quantity::Ordered(k)) => k as int,
        _ => 0,
    }
}

/// A table with one category column can be read by a lookup: the data carries that
/// column as codes, and no row of the table leaves it null.
pub open spec fn lookup_ready(t: RatingTable, df: Frame) -> bool {
    &&& obs_column(df, t.categorical_columns@[0].0@, false)
    &&& forall|r: int|
        0 <= r < t.data.height ==> (#[trigger] cat_cell(t, t.categorical_columns@[0].1 as int, r)) is Some
}

/// A table with one band column can be read by a binary search: the data carries that
/// column as numbers, and the table's bounds are all set, defined and ascending.
pub open spec fn search_ready(t: RatingTable, df: Frame) -> bool {
    let idx = t.numeric_columns@[0].1 as int;
    &&& obs_column(df, t.numeric_columns@[0].0@, true)
    &&& forall|r: int| 0 <= r < t.data.height ==> bound_set(#[trigger] num_cell(t, idx, r))
    &&& forall|a: int, b: int|
        0 <= a <= b < t.data.height ==> bound_key(#[trigger] num_cell(t, idx, a)) <= bound_key(
            #[trigger] num_cell(t, idx, b),
        )
}

/// Picks the cheapest lookup that gives exactly what the reference scan gives.
pub fn plan_for(table: &RatingTable, df: &Frame) -> (res: MatchPlan)
    requires
        table.wf(),
        df.wf(),
        table.data.height < NO_MATCH,
    ensures
        plan_valid(res, *table, *df),
        res is Constant <==> (table.numeric_columns.len() == 0 && table.categorical_columns.len() == 0),
        res is Categorical <==> (table.numeric_columns.len() == 0 && table.categorical_columns.len() == 1
            && lookup_ready(*table, *df)),
        res is SortedNumeric <==> (table.categorical_columns.len() == 0 && table.numeric_columns.len() == 1
            && search_ready(*table, *df)),
{
    proof {
        table.lemma_wf();
    }
    let numeric = table.get_numeric_columns();
    let categorical = table.get_categorical_columns();

    if numeric.len() == 0 && categorical.len() == 0 {
        return if table.data.height > 0 {
            MatchPlan::Constant(0)
        } else {
            MatchPlan::Constant(NO_MATCH)
        };
    }
    if numeric.len() == 0 && categorical.len() == 1 {
        return categorical_plan(table, df);
    }
    if categorical.len() != 0 || numeric.len() != 1 {
        return MatchPlan::General;
    }

    // The observation column has to be present and floating-point, or the scan would
    // find no match for any row and the shortcut must say the same.
    let ghost idx = table.numeric_columns@[0].1 as int;
    let column = match df.index_of(&numeric[0].0) {
        Some(c) => c,
        None => return MatchPlan::General,
    };
    match &df.columns[column].values {
        ColumnValues::Float(_) => {},
        _ => return MatchPlan::General,
    }
    proof {
        assert(obs_column(*df, table.numeric_columns@[0].0@, true));
    }

    let col_idx = numeric[0].1;
    let cells = match &table.data.columns[col_idx].values {
        ColumnValues::Float(v) => v,
        _ => {
            proof {
                assert(false);
            }
            return MatchPlan::General;
        },
    };
    assert(cells.len() == table.data.height);

    // A null bound constrains nothing and an undefined one orders nothing; either way
    // a search over the bounds could disagree with the scan.
    let mut thresholds: Vec<i64> = Vec::new();
    let mut r: usize = 0;
    while r < cells.len()
        invariant
            r <= cells.len(),
            cells.len() == table.data.height,
            table.data.columns@[col_idx as int].values == ColumnValues::Float(*cells),
            thresholds.len() == r,
            idx == col_idx as int,
            idx == table.numeric_columns@[0].1 as int,
            col_idx < table.data.columns.len(),
            table.numeric_columns.len() == 1,
            table.categorical_columns.len() == 0,
            forall|k: int|
                0 <= k < r ==> cells@[k] == Some(Quantity::Ordered(#[trigger] thresholds@[k])),
        decreases cells.len() - r,
    {
        proof {
            assert(num_cell(*table, idx, r as int) == cells@[r as int]);
        }
        match cells[r] {
            Some(Quantity::Ordered(v)) => thresholds.push(v),
            _ => return MatchPlan::General,
        }
        r += 1;
    }

    let mut r: usize = 1;
    while r < thresholds.len()
        invariant
            1 <= r,
            r <= thresholds.len() || thresholds.len() == 0,
            thresholds.len() == cells.len(),
            cells.len() == table.data.height,
            idx == col_idx as int,
            idx == table.numeric_columns@[0].1 as int,
            col_idx < table.data.columns.len(),
            table.data.columns@[col_idx as int].values == ColumnValues::Float(*cells),
            forall|k: int|
                0 <= k < cells.len() ==> cells@[k] == Some(Quantity::Ordered(#[trigger] thresholds@[k])),
            table.numeric_columns.len() == 1,
            table.categorical_columns.len() == 0,
            forall|a: int, b: int|
                0 <= a <= b < r && b < thresholds.len() ==> thresholds@[a] <= thresholds@[b],
        decreases thresholds.len() - r,
    {
        if thresholds[r - 1] > thresholds[r] {
            proof {
                assert(num_cell(*table, idx, r - 1) == cells@[r - 1]);
                assert(num_cell(*table, idx, r as int) == cells@[r as int]);
                assert(cells@[r - 1] == Some(Quantity::Ordered(thresholds@[r - 1])));
                assert(cells@[r as int] == Some(Quantity::Ordered(thresholds@[r as int])));
                assert(bound_key(num_cell(*table, idx, r - 1)) > bound_key(num_cell(*table, idx, r as int)));
            }
            return MatchPlan::General;
        }
        r += 1;
    }
    proof {
        assert forall|a: int| 0 <= a < table.data.height implies bound_set(#[trigger] num_cell(*table, idx, a)) by {
            assert(cells@[a] == Some(Quantity::Ordered(thresholds@[a])));
        }
        assert forall|a: int, b: int| 0 <= a <= b < table.data.height implies bound_key(#[trigger] num_cell(*table, idx, a))
            <= bound_key(#[trigger] num_cell(*table, idx, b)) by {
            assert(cells@[a] == Some(Quantity::Ordered(thresholds@[a])));
            assert(cells@[b] == Some(Quantity::Ordered(thresholds@[b])));
        }
    }
    assert forall|r: int| 0 <= r < table.data.height implies num_cell(
        *table,
        table.numeric_columns@[0].1 as int,
        r,
    ) == Some(Quantity::Ordered(#[trigger] thresholds@[r])) by {}

    MatchPlan::SortedNumeric { column, thresholds }
}

/// Builds the categorical lookup, or hands the table back to the scan.
fn categorical_plan(table: &RatingTable, df: &Frame) -> (res: MatchPlan)
    requires
        table.wf(),
        df.wf(),
        table.data.height < NO_MATCH,
        table.numeric_columns.len() == 0,
        table.categorical_columns.len() == 1,
    ensures
        plan_valid(res, *table, *df),
        res is Categorical || res is General,
        res is Categorical <==> lookup_ready(*table, *df),
{
    proof {
        table.lemma_wf();
    }
    let name = &table.categorical_columns[0].0;
    let col_idx = table.categorical_columns[0].1;
    // Read as anything but a code, an observation column leaves the table column
    // unconstrained rather than unmatched, which the lookup cannot express.
    let column = match df.index_of(name) {
        Some(c) => c,
        None => return MatchPlan::General,
    };
    match &df.columns[column].values {
        ColumnValues::Int32(_) => {},
        _ => return MatchPlan::General,
    }
    proof {
        assert(obs_column(*df, table.categorical_columns@[0].0@, false));
    }
    let values = match &table.data.columns[col_idx].values {
        ColumnValues::Int32(v) => v,
        _ => {
            proof {
                assert(false);
            }
            return MatchPlan::General;
        },
    };
    assert(values.len() == table.data.height);
    let ghost idx = col_idx as int;

    let mut rows: HashMap<i32, u32> = HashMap::new();
    let mut wildcard: u32 = NO_MATCH;
    let mut r: usize = 0;
    while r < values.len()
        invariant
            values.len() == table.data.height,
            table.data.height < NO_MATCH,
            table.data.columns@[idx].values == ColumnValues::Int32(*values),
            idx == table.categorical_columns@[0].1 as int,
            r <= values.len(),
            forall|k: int| 0 <= k < r ==> (#[trigger] cat_cell(*table, idx, k)) is Some,
            forall|x: i32|
                #![trigger rows@.contains_key(x)]
                rows@.contains_key(x) <==> (x != WILDCARD && exists|k: int|
                    0 <= k < r && cat_cell(*table, idx, k) == Some(x)),
            forall|x: i32|
                #![trigger rows@[x]]
                rows@.contains_key(x) ==> {
                    &&& rows@[x] < r
                    &&& cat_cell(*table, idx, rows@[x] as int) == Some(x)
                    &&& forall|k: int| 0 <= k < rows@[x] ==> cat_cell(*table, idx, k) != Some(x)
                },
            wildcard == NO_MATCH ==> forall|k: int|
                0 <= k < r ==> cat_cell(*table, idx, k) != Some(WILDCARD),
            wildcard != NO_MATCH ==> {
                &&& wildcard < r
                &&& cat_cell(*table, idx, wildcard as int) == Some(WILDCARD)
                &&& forall|k: int| 0 <= k < wildcard ==> cat_cell(*table, idx, k) != Some(WILDCARD)
            },
        decreases values.len() - r,
    {
        assert(cat_cell(*table, idx, r as int) == values@[r as int]);
        match values[r] {
            // A null code constrains nothing, making the row a catch-all that the
            // lookup cannot express.
            None => return MatchPlan::General,
            Some(code) => {
                if code == WILDCARD {
                    if wildcard == NO_MATCH {
                        wildcard = r as u32;
                    }
                } else if !rows.contains_key(&code) {
                    rows.insert(code, r as u32);
                }
            },
        }
        r += 1;
    }
    MatchPlan::Categorical { column, rows, wildcard }
}

/// The first bound not below `value`, for ascending bounds; the scan's answer on a
/// single band column.
fn lower_bound(thresholds: &Vec<i64>, value: Quantity) -> (res: u32)
    requires
        thresholds.len() < NO_MATCH,
        forall|a: int, b: int| 0 <= a <= b < thresholds.len() ==> thresholds@[a] <= thresholds@[b],
    ensures
        res == NO_MATCH || res < thresholds.len(),
        res < thresholds.len() ==> !spec_exceeds(value, Quantity::Ordered(thresholds@[res as int])),
        forall|k: int|
            0 <= k < res && k < thresholds.len() ==> spec_exceeds(
                value,
                Quantity::Ordered(thresholds@[k]),
            ),
{
    match value {
        // An undefined value is above no bound, so the scan stops at the first row.
        Quantity::Undefined => {
            if thresholds.len() == 0 {
                NO_MATCH
            } else {
                0
            }
        },
        Quantity::Ordered(x) => {
            let mut lo: usize = 0;
            let mut hi: usize = thresholds.len();
            while lo < hi
                invariant
                    0 <= lo <= hi <= thresholds.len(),
                    forall|a: int, b: int|
                        0 <= a <= b < thresholds.len() ==> thresholds@[a] <= thresholds@[b],
                    forall|k: int| 0 <= k < lo ==> thresholds@[k] < x,
                    forall|k: int| hi <= k < thresholds.len() ==> thresholds@[k] >= x,
                decreases hi - lo,
            {
                let mid = lo + (hi - lo) / 2;
                if thresholds[mid] < x {
                    lo = mid + 1;
                } else {
                    hi = mid;
                }
            }
            if lo < thresholds.len() {
                lo as u32
            } else {
                NO_MATCH
            }
        },
    }
}

/// The constant plan agrees with the scan.
proof fn lemma_constant(t: RatingTable, df: Frame, i: int)
    requires
        t.wf(),
        t.numeric_columns.len() == 0,
        t.categorical_columns.len() == 0,
        t.data.height < NO_MATCH,
    ensures
        spec_match(t, df, i) == (if t.data.height > 0 {
            0u32
        } else {
            NO_MATCH
        }),
{
    let f = row_features(df.columns@, i);
    assert(has_all_features(t, f));
    if t.data.height > 0 {
        assert(row_fits(t, f, 0));
        assert(!row_wild(t, f, 0));
        lemma_first_fit_is(t, f, true, 0);
    } else {
        lemma_first_fit_none(t, f, true);
        lemma_first_fit_none(t, f, false);
    }
}

/// Observation `i`'s value in a floating-point column of the data, if not null.
spec fn float_at(df: Frame, column: int, i: int) -> Option<Quantity> {
    match df.columns@[column].values {
        ColumnValues::Float(v) => v[i],
        _ => None,
    }
}

/// Observation `i`'s code in a 32-bit integer column of the data, if not null.
spec fn code_at(df: Frame, column: int, i: int) -> Option<i32> {
    match df.columns@[column].values {
        ColumnValues::Int32(v) => v[i],
        _ => None,
    }
}

fn sorted_numeric_matches(
    table: &RatingTable,
    df: &Frame,
    column: usize,
    thresholds: &Vec<i64>,
) -> (res: Vec<u32>)
    requires
        table.wf(),
        df.wf(),
        table.data.height < NO_MATCH,
        plan_valid(
            MatchPlan::SortedNumeric { column, thresholds: *thresholds },
            *table,
            *df,
        ),
    ensures
        res.len() == df.height,
        forall|i: int| 0 <= i < df.height ==> #[trigger] res@[i] == spec_match(*table, *df, i),
{
    proof {
        table.lemma_wf();
    }
    let values = match &df.columns[column].values {
        ColumnValues::Float(v) => v,
        _ => {
            proof {
                assert(false);
            }
            return Vec::new();
        },
    };
    assert(values.len() == df.height);
    let mut out: Vec<u32> = Vec::new();
    let mut i: usize = 0;
    while i < df.height
        invariant
            table.wf(),
            df.wf(),
            table.data.height < NO_MATCH,
            plan_valid(
                MatchPlan::SortedNumeric { column, thresholds: *thresholds },
                *table,
                *df,
            ),
            df.columns@[column as int].values == ColumnValues::Float(*values),
            values.len() == df.height,
            i <= df.height,
            out.len() == i,
            forall|k: int| 0 <= k < i ==> #[trigger] out@[k] == spec_match(*table, *df, k),
        decreases df.height - i,
    {
        let m = match values[i] {
            // A null value is a missing feature, which matches nothing.
            Some(v) => lower_bound(thresholds, v),
            None => NO_MATCH,
        };
        proof {
            let f = row_features(df.columns@, i as int);
            let name = table.numeric_columns@[0].0@;
            lemma_row_feature(df.columns@, i as int, column as int);
            match values@[i as int] {
                None => {
                    assert(!f.contains_key(name));
                    assert(!has_all_features(*table, f));
                },
                Some(v) => {
                    assert(f.contains_key(name) && f[name] == FeatureValue::Numeric(v));
                    assert(has_all_features(*table, f));
                    assert(num_input(f, name) == Some(v));
                    let idx = table.numeric_columns@[0].1 as int;
                    assert forall|r: int| 0 <= r < table.data.height implies (row_fits(*table, f, r)
                        == !spec_exceeds(v, Quantity::Ordered(thresholds@[r]))) && !row_wild(
                        *table,
                        f,
                        r,
                    ) by {
                        assert(num_cell(*table, idx, r) == Some(
                            Quantity::Ordered(thresholds@[r]),
                        ));
                        if row_fits(*table, f, r) {
                            assert(num_ok(*table, f, 0, r));
                        }
                        if !spec_exceeds(v, Quantity::Ordered(thresholds@[r])) {
                            assert forall|j: int|
                                0 <= j < table.numeric_columns.len() implies #[trigger] num_ok(
                                *table,
                                f,
                                j,
                                r,
                            ) by {
                                assert(j == 0);
                            }
                        }
                    }
                    if m < thresholds.len() {
                        lemma_first_fit_is(*table, f, true, m as int);
                    } else {
                        lemma_first_fit_none(*table, f, true);
                        lemma_first_fit_none(*table, f, false);
                    }
                },
            }
        }
        out.push(m);
        i += 1;
    }
    out
}

fn categorical_matches(
    table: &RatingTable,
    df: &Frame,
    column: usize,
    rows: &HashMap<i32, u32>,
    wildcard: u32,
) -> (res: Vec<u32>)
    requires
        table.wf(),
        df.wf(),
        table.data.height < NO_MATCH,
        plan_valid(
            MatchPlan::Categorical { column, rows: *rows, wildcard },
            *table,
            *df,
        ),
    ensures
        res.len() == df.height,
        forall|i: int| 0 <= i < df.height ==> #[trigger] res@[i] == spec_match(*table, *df, i),
{
    proof {
        table.lemma_wf();
    }
    let values = match &df.columns[column].values {
        ColumnValues::Int32(v) => v,
        _ => {
            proof {
                assert(false);
            }
            return Vec::new();
        },
    };
    assert(values.len() == df.height);
    let ghost idx = table.categorical_columns@[0].1 as int;
    let mut out: Vec<u32> = Vec::new();
    let mut i: usize = 0;
    while i < df.height
        invariant
            table.wf(),
            df.wf(),
            table.data.height < NO_MATCH,
            plan_valid(
                MatchPlan::Categorical { column, rows: *rows, wildcard },
                *table,
                *df,
            ),
            idx == table.categorical_columns@[0].1 as int,
            df.columns@[column as int].values == ColumnValues::Int32(*values),
            values.len() == df.height,
            i <= df.height,
            out.len() == i,
            forall|k: int| 0 <= k < i ==> #[trigger] out@[k] == spec_match(*table, *df, k),
        decreases df.height - i,
    {
        let m = match values[i] {
            // An exact row beats the wildcard; a null code matches nothing.
            Some(code) => match rows.get(&code) {
                Some(r) => *r,
                None => wildcard,
            },
            None => NO_MATCH,
        };
        proof {
            let f = row_features(df.columns@, i as int);
            let name = table.categorical_columns@[0].0@;
            lemma_row_feature(df.columns@, i as int, column as int);
            match values@[i as int] {
                None => {
                    assert(!f.contains_key(name));
                    assert(!has_all_features(*table, f));
                },
                Some(x) => {
                    assert(f.contains_key(name) && f[name] == FeatureValue::Categorical(x));
                    assert(has_all_features(*table, f));
                    assert(cat_input(f, name) == Some(x));
                    assert forall|r: int| 0 <= r < table.data.height implies (row_fits(*table, f, r)
                        == (cat_cell(*table, idx, r) == Some(WILDCARD) || cat_cell(*table, idx, r)
                        == Some(x))) && (row_wild(*table, f, r) == (cat_cell(*table, idx, r)
                        == Some(WILDCARD))) by {
                        assert(cat_cell(*table, idx, r) is Some);
                        if row_fits(*table, f, r) {
                            assert(cat_ok(*table, f, 0, r));
                        }
                        if cat_cell(*table, idx, r) == Some(WILDCARD) || cat_cell(*table, idx, r)
                            == Some(x) {
                            assert forall|j: int|
                                0 <= j < table.categorical_columns.len() implies #[trigger] cat_ok(
                                *table,
                                f,
                                j,
                                r,
                            ) by {
                                assert(j == 0);
                            }
                        }
                        if row_wild(*table, f, r) {
                            let j = choose|j: int|
                                0 <= j < table.categorical_columns.len() && #[trigger] cat_wild(
                                    *table,
                                    f,
                                    j,
                                    r,
                                );
                            assert(j == 0);
                        }
                        if cat_cell(*table, idx, r) == Some(WILDCARD) {
                            assert(cat_wild(*table, f, 0, r));
                        }
                    }
                    if rows@.contains_key(x) {
                        let r = rows@[x] as int;
                        assert(x != WILDCARD);
                        lemma_first_fit_is(*table, f, true, r);
                        assert(m == rows@[x]);
                    } else {
                        assert forall|k: int| 0 <= k < table.data.height implies !(row_fits(
                            *table,
                            f,
                            k,
                        ) && !row_wild(*table, f, k)) by {
                            if x != WILDCARD && cat_cell(*table, idx, k) == Some(x) {
                                assert(rows@.contains_key(x));
                            }
                        }
                        lemma_first_fit_none(*table, f, true);
                        assert(m == wildcard);
                        if wildcard != NO_MATCH {
                            lemma_first_fit_is(*table, f, false, wildcard as int);
                        } else {
                            assert forall|k: int| 0 <= k < table.data.height implies !(row_fits(
                                *table,
                                f,
                                k,
                            ) && (!false || !row_wild(*table, f, k))) by {
                                if x != WILDCARD && cat_cell(*table, idx, k) == Some(x) {
                                    assert(rows@.contains_key(x));
                                }
                            }
                            lemma_first_fit_none(*table, f, false);
                        }
                    }
                },
            }
        }
        out.push(m);
        i += 1;
    }
    out
}

/// The reference: each observation's features, then the table's first-match rule.
pub fn scan_matches(table: &RatingTable, df: &Frame) -> (res: Vec<u32>)
    requires
        table.wf(),
        df.wf(),
        table.data.height < NO_MATCH,
    ensures
        res.len() == df.height,
        forall|i: int| 0 <= i < df.height ==> #[trigger] res@[i] == spec_match(*table, *df, i),
{
    let mut out: Vec<u32> = Vec::new();
    let mut i: usize = 0;
    while i < df.height
        invariant
            table.wf(),
            df.wf(),
            table.data.height < NO_MATCH,
            i <= df.height,
            out.len() == i,
            forall|k: int| 0 <= k < i ==> #[trigger] out@[k] == spec_match(*table, *df, k),
        decreases df.height - i,
    {
        let features = extract_row_features(df, i);
        let m = match table.find_row_match(&features) {
            Some(r) => r as u32,
            None => NO_MATCH,
        };
        out.push(m);
        i += 1;
    }
    out
}

/// The data carries the column of this name as codes (or numbers, with `numbers`
/// set), with no null anywhere.
pub open spec fn full_column(df: Frame, name: Seq<char>, numbers: bool) -> bool {
    obs_column(df, name, numbers) && forall|i: int|
        0 <= i < df.height ==> #[trigger] full_cell(df, df.spec_index_of(name)->0, i)
}

/// Observation `i` has a value in column `c`.
pub open spec fn full_cell(df: Frame, c: int, i: int) -> bool {
    match df.columns@[c].values {
        ColumnValues::Float(v) => v[i] is Some,
        ColumnValues::Int32(v) => v[i] is Some,
        _ => false,
    }
}

/// Every column the table reads is in the data, of the dtype it reads, with no null.
pub open spec fn pre_resolvable(t: RatingTable, df: Frame) -> bool {
    &&& forall|k: int|
        0 <= k < t.categorical_columns.len() ==> full_column(df, (#[trigger] t.categorical_columns@[k]).0@, false)
    &&& forall|k: int|
        0 <= k < t.numeric_columns.len() ==> full_column(df, (#[trigger] t.numeric_columns@[k]).0@, true)
}

/// The same scan, with each column the table reads located in the data once rather
/// than rebuilt as a feature set for every observation.
///
/// `None` for anything this cannot reproduce exactly: a column that is missing, of
/// another dtype, or carrying nulls. The scan is left to those.
fn pre_resolved_scan(table: &RatingTable, df: &Frame) -> (res: Option<Vec<u32>>)
    requires
        table.wf(),
        df.wf(),
        table.data.height < NO_MATCH,
    ensures
        res is Some <==> pre_resolvable(*table, *df),
        res matches Some(v) ==> v.len() == df.height && forall|i: int|
            0 <= i < df.height ==> #[trigger] v@[i] == spec_match(*table, *df, i),
{
    proof {
        table.lemma_wf();
    }
    // Where each column the table reads sits in the data.
    let mut categorical: Vec<usize> = Vec::new();
    let mut j: usize = 0;
    while j < table.categorical_columns.len()
        invariant
            table.wf(),
            df.wf(),
            j <= table.categorical_columns.len(),
            categorical.len() == j,
            forall|k: int|
                0 <= k < j ==> {
                    let c = #[trigger] categorical@[k] as int;
                    &&& 0 <= c < df.columns.len()
                    &&& df.columns@[c].name@ == table.categorical_columns@[k].0@
                    &&& df.columns@[c].values is Int32
                    &&& forall|i: int| 0 <= i < df.height ==> (#[trigger] code_at(*df, c, i)) is Some
                },
            forall|k: int|
                0 <= k < j ==> full_column(*df, (#[trigger] table.categorical_columns@[k]).0@, false),
        decreases table.categorical_columns.len() - j,
    {
        let ghost name = table.categorical_columns@[j as int].0@;
        let c = match df.index_of(&table.categorical_columns[j].0) {
            Some(c) => c,
            None => return None,
        };
        let values = match &df.columns[c].values {
            ColumnValues::Int32(v) => v,
            _ => return None,
        };
        assert(values.len() == df.height);
        let mut i: usize = 0;
        while i < values.len()
            invariant
                i <= values.len(),
                df.columns@[c as int].values == ColumnValues::Int32(*values),
                forall|k: int| 0 <= k < i ==> (#[trigger] code_at(*df, c as int, k)) is Some,
                df.spec_index_of(name) == Some(c as int),
                j < table.categorical_columns.len(),
                name == table.categorical_columns@[j as int].0@,
                values.len() == df.height,
            decreases values.len() - i,
        {
            if values[i].is_none() {
                proof {
                    assert(!full_cell(*df, c as int, i as int));
                    assert(!full_column(*df, table.categorical_columns@[j as int].0@, false));
                }
                return None;
            }
            i += 1;
        }
        proof {
            assert forall|k: int| 0 <= k < df.height implies #[trigger] full_cell(*df, c as int, k) by {
                assert(code_at(*df, c as int, k) is Some);
            }
            assert(full_column(*df, name, false));
        }
        categorical.push(c);
        j += 1;
    }
    let mut numeric: Vec<usize> = Vec::new();
    let mut j: usize = 0;
    while j < table.numeric_columns.len()
        invariant
            table.wf(),
            df.wf(),
            j <= table.numeric_columns.len(),
            numeric.len() == j,
            forall|k: int|
                0 <= k < j ==> {
                    let c = #[trigger] numeric@[k] as int;
                    &&& 0 <= c < df.columns.len()
                    &&& df.columns@[c].name@ == table.numeric_columns@[k].0@
                    &&& df.columns@[c].values is Float
                    &&& forall|i: int| 0 <= i < df.height ==> (#[trigger] float_at(*df, c, i)) is Some
                },
            forall|k: int|
                0 <= k < table.categorical_columns.len() ==> full_column(*df, (#[trigger] table.categorical_columns@[k]).0@, false),
            forall|k: int|
                0 <= k < j ==> full_column(*df, (#[trigger] table.numeric_columns@[k]).0@, true),
        decreases table.numeric_columns.len() - j,
    {
        let ghost name = table.numeric_columns@[j as int].0@;
        let c = match df.index_of(&table.numeric_columns[j].0) {
            Some(c) => c,
            None => return None,
        };
        let values = match &df.columns[c].values {
            ColumnValues::Float(v) => v,
            _ => return None,
        };
        assert(values.len() == df.height);
        let mut i: usize = 0;
        while i < values.len()
            invariant
                i <= values.len(),
                df.columns@[c as int].values == ColumnValues::Float(*values),
                forall|k: int| 0 <= k < i ==> (#[trigger] float_at(*df, c as int, k)) is Some,
                df.spec_index_of(name) == Some(c as int),
                j < table.numeric_columns.len(),
                name == table.numeric_columns@[j as int].0@,
                values.len() == df.height,
            decreases values.len() - i,
        {
            if values[i].is_none() {
                proof {
                    assert(!full_cell(*df, c as int, i as int));
                    assert(!full_column(*df, table.numeric_columns@[j as int].0@, true));
                }
                return None;
            }
            i += 1;
        }
        proof {
            assert forall|k: int| 0 <= k < df.height implies #[trigger] full_cell(*df, c as int, k) by {
                assert(float_at(*df, c as int, k) is Some);
            }
            assert(full_column(*df, name, true));
        }
        numeric.push(c);
        j += 1;
    }
    proof {
        assert(pre_resolvable(*table, *df));
    }

    let mut out: Vec<u32> = Vec::new();
    let mut i: usize = 0;
    while i < df.height
        invariant
            table.wf(),
            df.wf(),
            table.data.height < NO_MATCH,
            categorical.len() == table.categorical_columns.len(),
            numeric.len() == table.numeric_columns.len(),
            forall|k: int|
                0 <= k < categorical.len() ==> {
                    let c = #[trigger] categorical@[k] as int;
                    &&& 0 <= c < df.columns.len()
                    &&& df.columns@[c].name@ == table.categorical_columns@[k].0@
                    &&& df.columns@[c].values is Int32
                    &&& forall|i: int| 0 <= i < df.height ==> (#[trigger] code_at(*df, c, i)) is Some
                },
            forall|k: int|
                0 <= k < numeric.len() ==> {
                    let c = #[trigger] numeric@[k] as int;
                    &&& 0 <= c < df.columns.len()
                    &&& df.columns@[c].name@ == table.numeric_columns@[k].0@
                    &&& df.columns@[c].values is Float
                    &&& forall|i: int| 0 <= i < df.height ==> (#[trigger] float_at(*df, c, i)) is Some
                },
            i <= df.height,
            out.len() == i,
            forall|k: int| 0 <= k < i ==> #[trigger] out@[k] == spec_match(*table, *df, k),
        decreases df.height - i,
    {
        let ghost f = row_features(df.columns@, i as int);
        let mut categorical_inputs: Vec<Option<i32>> = Vec::new();
        let mut j: usize = 0;
        while j < categorical.len()
            invariant
                df.wf(),
                i < df.height,
                f == row_features(df.columns@, i as int),
                categorical.len() == table.categorical_columns.len(),
                forall|k: int|
                    0 <= k < categorical.len() ==> {
                        let c = #[trigger] categorical@[k] as int;
                        &&& 0 <= c < df.columns.len()
                        &&& df.columns@[c].name@ == table.categorical_columns@[k].0@
                        &&& df.columns@[c].values is Int32
                        &&& forall|i: int|
                            0 <= i < df.height ==> (#[trigger] code_at(*df, c, i)) is Some
                    },
                j <= categorical.len(),
                categorical_inputs.len() == j,
                forall|k: int|
                    0 <= k < j ==> {
                        &&& #[trigger] categorical_inputs@[k] == cat_input(
                            f,
                            table.categorical_columns@[k].0@,
                        )
                        &&& f.contains_key(table.categorical_columns@[k].0@)
                    },
            decreases categorical.len() - j,
        {
            let c = categorical[j];
            let v = match &df.columns[c].values {
                ColumnValues::Int32(v) => v,
                _ => {
                    proof {
                        assert(false);
                    }
                    return None;
                },
            };
            assert(v.len() == df.height);
            proof {
                lemma_row_feature(df.columns@, i as int, c as int);
                assert(code_at(*df, c as int, i as int) is Some);
            }
            categorical_inputs.push(v[i]);
            j += 1;
        }
        let mut numeric_inputs: Vec<Option<Quantity>> = Vec::new();
        let mut j: usize = 0;
        while j < numeric.len()
            invariant
                df.wf(),
                i < df.height,
                f == row_features(df.columns@, i as int),
                numeric.len() == table.numeric_columns.len(),
                forall|k: int|
                    0 <= k < numeric.len() ==> {
                        let c = #[trigger] numeric@[k] as int;
                        &&& 0 <= c < df.columns.len()
                        &&& df.columns@[c].name@ == table.numeric_columns@[k].0@
                        &&& df.columns@[c].values is Float
                        &&& forall|i: int|
                            0 <= i < df.height ==> (#[trigger] float_at(*df, c, i)) is Some
                    },
                j <= numeric.len(),
                numeric_inputs.len() == j,
                forall|k: int|
                    0 <= k < j ==> {
                        &&& #[trigger] numeric_inputs@[k] == num_input(
                            f,
                            table.numeric_columns@[k].0@,
                        )
                        &&& f.contains_key(table.numeric_columns@[k].0@)
                    },
            decreases numeric.len() - j,
        {
            let c = numeric[j];
            let v = match &df.columns[c].values {
                ColumnValues::Float(v) => v,
                _ => {
                    proof {
                        assert(false);
                    }
                    return None;
                },
            };
            assert(v.len() == df.height);
            proof {
                lemma_row_feature(df.columns@, i as int, c as int);
                assert(float_at(*df, c as int, i as int) is Some);
            }
            numeric_inputs.push(v[i]);
            j += 1;
        }
        proof {
            assert forall|k: int| 0 <= k < table.numeric_columns.len() implies f.contains_key(
                (#[trigger] table.numeric_columns@[k]).0@,
            ) by {
                assert(numeric_inputs@[k] == num_input(f, table.numeric_columns@[k].0@));
            }
            assert forall|k: int| 0 <= k < table.categorical_columns.len() implies f.contains_key(
                (#[trigger] table.categorical_columns@[k]).0@,
            ) by {
                assert(categorical_inputs@[k] == cat_input(f, table.categorical_columns@[k].0@));
            }
            assert(has_all_features(*table, f));
        }
        let found = table.first_match_with_inputs(&categorical_inputs, &numeric_inputs, Ghost(f));
        let m = match found {
            Some(r) => r as u32,
            None => NO_MATCH,
        };
        out.push(m);
        i += 1;
    }
    Some(out)
}

/// For tables no shortcut covers: the pre-resolved scan where it applies, else the
/// row-by-row one.
pub fn general_matches(table: &RatingTable, df: &Frame) -> (res: Vec<u32>)
    requires
        table.wf(),
        df.wf(),
        table.data.height < NO_MATCH,
    ensures
        res.len() == df.height,
        forall|i: int| 0 <= i < df.height ==> #[trigger] res@[i] == spec_match(*table, *df, i),
{
    match pre_resolved_scan(table, df) {
        Some(v) => v,
        None => scan_matches(table, df),
    }
}

/// The row of `table` each observation of `df` falls in, or [`NO_MATCH`].
///
/// Whichever lookup is chosen, every entry is the row the reference first-match scan
/// gives that observation's features.
pub fn precompute_table_matches(table: &RatingTable, df: &Frame) -> (res: Vec<u32>)
    requires
        table.wf(),
        df.wf(),
        table.data.height < NO_MATCH,
    ensures
        res.len() == df.height,
        forall|i: int| 0 <= i < df.height ==> #[trigger] res@[i] == spec_match(*table, *df, i),
{
    let plan = plan_for(table, df);
    match plan {
        MatchPlan::Constant(row) => {
            let mut out: Vec<u32> = Vec::new();
            let mut i: usize = 0;
            while i < df.height
                invariant
                    table.wf(),
                    table.numeric_columns.len() == 0,
                    table.categorical_columns.len() == 0,
                    table.data.height < NO_MATCH,
                    row == (if table.data.height > 0 {
                        0u32
                    } else {
                        NO_MATCH
                    }),
                    i <= df.height,
                    out.len() == i,
                    forall|k: int| 0 <= k < i ==> #[trigger] out@[k] == spec_match(*table, *df, k),
                decreases df.height - i,
            {
                proof {
                    lemma_constant(*table, *df, i as int);
                }
                out.push(row);
                i += 1;
            }
            out
        },
        MatchPlan::SortedNumeric { column, thresholds } => {
            sorted_numeric_matches(table, df, column, &thresholds)
        },
        MatchPlan::Categorical { column, rows, wildcard } => {
            categorical_matches(table, df, column, &rows, wildcard)
        },
        MatchPlan::General => general_matches(table, df),
    }
}

/// A table column of a numeric dtype the matcher cannot read.
pub open spec fn is_unreadable(c: crate::frame::FrameColumn) -> bool {
    (c.values is Int64 || c.values is OtherNumeric) && c.name@ != factor_name()
}

/// Refuses a table holding a numeric feature column of a dtype nothing reads.
///
/// Only the floating-point and 32-bit integer dtypes are read. Any other numeric column
/// would constrain no row, so every observation would land in row 0 and the table would
/// fit one factor for the whole feature: a wrong model, produced silently. Non-numeric
/// columns are not features and pass.
pub fn reject_unreadable_columns(table: &RatingTable, index: usize) -> (res: Result<(), MatchError>)
    requires
        table.wf(),
    ensures
        res is Ok <==> forall|c: int|
            0 <= c < table.data.columns.len() ==> !is_unreadable(#[trigger] table.data.columns@[c]),
        res matches Err(e) ==> e matches MatchError::UnreadableColumn { table: t, column } && t
            == index && exists|c: int|
            0 <= c < table.data.columns.len() && is_unreadable(#[trigger] table.data.columns@[c])
                && table.data.columns@[c].name@ == column@ && forall|k: int|
                0 <= k < c ==> !is_unreadable(table.data.columns@[k]),
{
    let factor = factor_column_name();
    let mut c: usize = 0;
    while c < table.data.columns.len()
        invariant
            factor@ == factor_name(),
            c <= table.data.columns.len(),
            forall|k: int| 0 <= k < c ==> !is_unreadable(#[trigger] table.data.columns@[k]),
        decreases table.data.columns.len() - c,
    {
        let column = &table.data.columns[c];
        if column.name != factor {
            match &column.values {
                ColumnValues::Int64(_) | ColumnValues::OtherNumeric(_) => {
                    assert(is_unreadable(table.data.columns@[c as int]));
                    return Err(
                        MatchError::UnreadableColumn { table: index, column: column.name.clone() },
                    );
                },
                _ => {},
            }
        }
        c += 1;
    }
    Ok(())
}

/// For every table, the row each observation falls in: `result[t][i]` is the row of
/// table `t` that observation `i` matches, or [`NO_MATCH`].
///
/// Refused when a table has too many rows for a match array to index, or carries a
/// column the matcher cannot read (see [`reject_unreadable_columns`]), in that order.
pub fn precompute_all_matches(model: &RatingModel, df: &Frame) -> (res: Result<
    Vec<Vec<u32>>,
    MatchError,
>)
    requires
        model.wf(),
        df.wf(),
    ensures
        match res {
            Ok(m) => {
                &&& m.len() == model.tables.len()
                &&& forall|t: int|
                    0 <= t < m.len() ==> {
                        &&& (#[trigger] m@[t]).len() == df.height
                        &&& model.tables@[t].data.height < NO_MATCH
                        &&& forall|i: int|
                            0 <= i < df.height ==> #[trigger] m@[t]@[i] == spec_match(
                                model.tables@[t],
                                *df,
                                i,
                            )
                    }
            },
            Err(MatchError::TooManyRows { table, rows }) => {
                &&& table < model.tables.len()
                &&& rows == model.tables@[table as int].data.height
                &&& rows >= NO_MATCH
                &&& forall|t: int| 0 <= t < table ==> model.tables@[t].data.height < NO_MATCH
            },
            Err(MatchError::UnreadableColumn { table, column }) => {
                &&& table < model.tables.len()
                &&& forall|t: int| 0 <= t < model.tables.len() ==> model.tables@[t].data.height < NO_MATCH
                &&& exists|c: int|
                    0 <= c < model.tables@[table as int].data.columns.len() && is_unreadable(
                        #[trigger] model.tables@[table as int].data.columns@[c],
                    ) && model.tables@[table as int].data.columns@[c].name@ == column@
            },
        },
        res is Ok <==> forall|t: int|
            0 <= t < model.tables.len() ==> {
                &&& (#[trigger] model.tables@[t]).data.height < NO_MATCH
                &&& forall|c: int|
                    0 <= c < model.tables@[t].data.columns.len() ==> !is_unreadable(
                        #[trigger] model.tables@[t].data.columns@[c],
                    )
            },
{
    let mut t: usize = 0;
    while t < model.tables.len()
        invariant
            t <= model.tables.len(),
            forall|k: int| 0 <= k < t ==> (#[trigger] model.tables@[k]).data.height < NO_MATCH,
        decreases model.tables.len() - t,
    {
        if model.tables[t].data.height as u64 >= NO_MATCH as u64 {
            return Err(MatchError::TooManyRows { table: t, rows: model.tables[t].data.height });
        }
        t += 1;
    }
    let mut t: usize = 0;
    while t < model.tables.len()
        invariant
            model.wf(),
            t <= model.tables.len(),
            forall|k: int| 0 <= k < model.tables.len() ==> (#[trigger] model.tables@[k]).data.height < NO_MATCH,
            forall|k: int|
                0 <= k < t ==> forall|c: int|
                    0 <= c < (#[trigger] model.tables@[k]).data.columns.len() ==> !is_unreadable(
                        #[trigger] model.tables@[k].data.columns@[c],
                    ),
        decreases model.tables.len() - t,
    {
        assert(model.tables@[t as int].wf());
        match reject_unreadable_columns(&model.tables[t], t) {
            Ok(()) => {},
            Err(e) => {
                return Err(e);
            },
        }
        t += 1;
    }
    let mut out: Vec<Vec<u32>> = Vec::new();
    let mut t: usize = 0;
    while t < model.tables.len()
        invariant
            model.wf(),
            df.wf(),
            t <= model.tables.len(),
            forall|k: int| 0 <= k < model.tables.len() ==> (#[trigger] model.tables@[k]).data.height < NO_MATCH,
            out.len() == t,
            forall|k: int|
                0 <= k < t ==> {
                    &&& (#[trigger] out@[k]).len() == df.height
                    &&& forall|i: int|
                        0 <= i < df.height ==> #[trigger] out@[k]@[i] == spec_match(
                            model.tables@[k],
                            *df,
                            i,
                        )
                },
        decreases model.tables.len() - t,
    {
        assert(model.tables@[t as int].wf());
        assert(model.tables@[t as int].data.height < NO_MATCH);
        let m = precompute_table_matches(&model.tables[t], df);
        out.push(m);
        t += 1;
    }
    Ok(out)
}

} // verus!
