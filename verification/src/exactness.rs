//! Why a tree's tables reproduce the tree.
//!
//! An observation falls, in the table of a path, in the row that takes for each
//! feature the tightest level that admits it: the least bound at or above its value,
//! its own category when the path names it, the wildcard otherwise. That row satisfies
//! the path exactly when the observation does, so the table gives the observation the
//! node's factor when it follows the path and zero when it does not.
use crate::features::{FeatureValue, WILDCARD};
use crate::frame::{ColumnValues, Frame};
use crate::plan::{
    axis_len, key_of, law_interaction_rows_ascend, lemma_span_split, level_index, odometer_column,
    rows_ascend_at, span, Axis,
};
use crate::quantity::{spec_exceeds, Quantity, INFINITY_KEY};
use crate::rating_model::{
    cat_cell, cat_input, cat_ok, cat_wild, categorical_indices, factor_at, factor_name,
    first_fit, has_all_features, is_categorical_feature, is_numeric_feature, lemma_first_fit_is,
    lemma_first_fit_none, num_cell, num_input, num_ok, numeric_indices, row_fits, row_wild,
    spec_find_row, spec_predict, RatingTable,
};
use crate::trees::{
    ascending_bounds, ascending_codes, axis_of, category_split, grid_layout, is_category_test,
    factor_rows, leaf_paths, left_test, lemma_path_features, names_bound, names_category, node_paths, path_axes,
    path_features, path_table, right_test, row_satisfies, tables_of, test_categories, test_holds,
    test_threshold, SplitRule, Test, TreeNode,
};
use vstd::prelude::*;

verus! {

// ---------------------------------------------------------------- rows by their levels

/// The row of a layout that takes level `levels[a]` on each axis `a` from `lo` up to
/// `hi`, counted within those axes: the last axis varies fastest.
pub open spec fn row_with(axes: Seq<Axis>, levels: Seq<int>, lo: int, hi: int) -> int
    decreases hi - lo,
{
    if lo >= hi {
        0
    } else {
        levels[lo] * span(axes, lo + 1, hi) + row_with(axes, levels, lo + 1, hi)
    }
}

/// Each level is one the axis has.
pub open spec fn levels_in_range(axes: Seq<Axis>, levels: Seq<int>) -> bool {
    &&& levels.len() == axes.len()
    &&& forall|a: int| 0 <= a < axes.len() ==> 0 <= #[trigger] levels[a] < axis_len(axes[a])
}

/// The row lies within the combinations of its axes.
proof fn lemma_row_with_bounds(axes: Seq<Axis>, levels: Seq<int>, lo: int, hi: int)
    requires
        levels_in_range(axes, levels),
        0 <= lo <= hi <= axes.len(),
    ensures
        0 <= row_with(axes, levels, lo, hi) < span(axes, lo, hi),
    decreases hi - lo,
{
    if lo < hi {
        lemma_row_with_bounds(axes, levels, lo + 1, hi);
        let l = levels[lo];
        let len = axis_len(axes[lo]) as int;
        let inner = span(axes, lo + 1, hi) as int;
        let rest = row_with(axes, levels, lo + 1, hi);
        assert(0 <= l * inner + rest < len * inner) by (nonlinear_arith)
            requires
                0 <= l < len,
                0 <= rest < inner,
        ;
    }
}

/// Splitting the axes at `mid` splits the row: the row of the first part, scaled by
/// the combinations of the second, plus the row of the second.
proof fn lemma_row_with_split(axes: Seq<Axis>, levels: Seq<int>, lo: int, mid: int, hi: int)
    requires
        lo <= mid <= hi,
    ensures
        row_with(axes, levels, lo, hi) == row_with(axes, levels, lo, mid) * span(axes, mid, hi) + row_with(
            axes,
            levels,
            mid,
            hi,
        ),
    decreases mid - lo,
{
    if lo < mid {
        lemma_row_with_split(axes, levels, lo + 1, mid, hi);
        lemma_span_split(axes, lo + 1, mid, hi);
        let l = levels[lo];
        let a = span(axes, lo + 1, mid) as int;
        let b = span(axes, mid, hi) as int;
        let x = row_with(axes, levels, lo + 1, mid);
        let y = row_with(axes, levels, mid, hi);
        assert(l * (a * b) + (x * b + y) == (l * a + x) * b + y) by (nonlinear_arith);
    } else {
        assert(row_with(axes, levels, lo, mid) == 0);
        assert(0 * span(axes, mid, hi) == 0) by (nonlinear_arith);
    }
}

/// The row that takes these levels does take them.
pub proof fn lemma_row_with_levels(axes: Seq<Axis>, levels: Seq<int>, a: int)
    requires
        levels_in_range(axes, levels),
        0 <= a < axes.len(),
    ensures
        level_index(axes, a, row_with(axes, levels, 0, axes.len() as int)) == levels[a],
        0 <= row_with(axes, levels, 0, axes.len() as int) < span(axes, 0, axes.len() as int),
{
    let n = axes.len() as int;
    let r = row_with(axes, levels, 0, n);
    lemma_row_with_bounds(axes, levels, 0, n);
    lemma_row_with_split(axes, levels, 0, a + 1, n);
    lemma_row_with_bounds(axes, levels, a + 1, n);
    let q = row_with(axes, levels, 0, a + 1);
    let inner = span(axes, a + 1, n) as int;
    let rest = row_with(axes, levels, a + 1, n);
    assert(q >= 0) by {
        lemma_row_with_bounds(axes, levels, 0, a + 1);
    }
    vstd::arithmetic::div_mod::lemma_fundamental_div_mod_converse(r, inner, q, rest);
    lemma_row_with_split(axes, levels, 0, a, a + 1);
    assert(span(axes, a + 1, a + 1) == 1);
    assert(span(axes, a, a + 1) == axis_len(axes[a]) * 1);
    assert(row_with(axes, levels, a + 1, a + 1) == 0);
    assert(row_with(axes, levels, a, a + 1) == levels[a] * 1 + 0);
    let p = row_with(axes, levels, 0, a);
    let len = axis_len(axes[a]) as int;
    assert(p >= 0) by {
        lemma_row_with_bounds(axes, levels, 0, a);
    }
    assert(q == p * len + levels[a]) by (nonlinear_arith)
        requires
            q == p * (len * 1) + (levels[a] * 1 + 0),
    ;
    vstd::arithmetic::div_mod::lemma_fundamental_div_mod_converse(q, len, p, levels[a]);
}

// ---------------------------------------------------------------- the table's feature columns

/// A column that is read as a band bound appears among the indices of such columns.
proof fn lemma_numeric_listed(columns: Seq<crate::frame::FrameColumn>, k: int, i: int)
    requires
        0 <= i < k <= columns.len(),
        is_numeric_feature(columns[i]),
    ensures
        numeric_indices(columns, k).contains(i),
    decreases k,
{
    if i < k - 1 {
        lemma_numeric_listed(columns, k - 1, i);
        let prev = numeric_indices(columns, k - 1);
        let j = choose|j: int| 0 <= j < prev.len() && prev[j] == i;
        if is_numeric_feature(columns[k - 1]) {
            assert(numeric_indices(columns, k)[j] == i);
        }
    } else {
        let cur = numeric_indices(columns, k);
        assert(cur[cur.len() - 1] == i);
    }
}

/// A column that is read as a category code appears among the indices of such columns.
proof fn lemma_categorical_listed(columns: Seq<crate::frame::FrameColumn>, k: int, i: int)
    requires
        0 <= i < k <= columns.len(),
        is_categorical_feature(columns[i]),
    ensures
        categorical_indices(columns, k).contains(i),
    decreases k,
{
    if i < k - 1 {
        lemma_categorical_listed(columns, k - 1, i);
        let prev = categorical_indices(columns, k - 1);
        let j = choose|j: int| 0 <= j < prev.len() && prev[j] == i;
        if is_categorical_feature(columns[k - 1]) {
            assert(categorical_indices(columns, k)[j] == i);
        }
    } else {
        let cur = categorical_indices(columns, k);
        assert(cur[cur.len() - 1] == i);
    }
}

/// In a path's table, the band-bound columns are the numeric axes and the code columns
/// the categorical ones, each under its feature's name.
proof fn lemma_grid_columns(p: Seq<(Seq<char>, Test)>, axes: Seq<Axis>, t: RatingTable)
    requires
        t.wf(),
        grid_layout(p, axes, t.data),
    ensures
        forall|j: int|
            0 <= j < t.numeric_columns.len() ==> {
                let idx = (#[trigger] t.numeric_columns@[j]).1 as int;
                &&& 0 <= idx < axes.len()
                &&& axes[idx] is Numeric
                &&& t.numeric_columns@[j].0@ == path_features(p)[idx]
            },
        forall|j: int|
            0 <= j < t.categorical_columns.len() ==> {
                let idx = (#[trigger] t.categorical_columns@[j]).1 as int;
                &&& 0 <= idx < axes.len()
                &&& axes[idx] is Categorical
                &&& t.categorical_columns@[j].0@ == path_features(p)[idx]
            },
        forall|a: int|
            0 <= a < axes.len() && (#[trigger] axes[a]) is Numeric ==> exists|j: int|
                0 <= j < t.numeric_columns.len() && t.numeric_columns@[j].1 == a,
        forall|a: int|
            0 <= a < axes.len() && (#[trigger] axes[a]) is Categorical ==> exists|j: int|
                0 <= j < t.categorical_columns.len() && t.categorical_columns@[j].1 == a,
{
    t.lemma_wf();
    let cols = t.data.columns@;
    let n = axes.len() as int;
    assert forall|a: int| 0 <= a < n implies (#[trigger] axes[a] is Numeric) == (cols[a].values is Float) && (
    axes[a] is Categorical) == (cols[a].values is Int32) by {
        assert(odometer_column(axes, a, cols[a].values));
    }
    assert forall|j: int| 0 <= j < t.numeric_columns.len() implies {
        let idx = (#[trigger] t.numeric_columns@[j]).1 as int;
        &&& 0 <= idx < axes.len()
        &&& axes[idx] is Numeric
        &&& t.numeric_columns@[j].0@ == path_features(p)[idx]
    } by {
        let idx = t.numeric_columns@[j].1 as int;
        assert(idx != n);
    }
    assert forall|j: int| 0 <= j < t.categorical_columns.len() implies {
        let idx = (#[trigger] t.categorical_columns@[j]).1 as int;
        &&& 0 <= idx < axes.len()
        &&& axes[idx] is Categorical
        &&& t.categorical_columns@[j].0@ == path_features(p)[idx]
    } by {
        let idx = t.categorical_columns@[j].1 as int;
        assert(idx != n);
    }
    let len = cols.len() as int;
    assert forall|a: int| 0 <= a < axes.len() && (#[trigger] axes[a]) is Numeric implies exists|j: int|
        0 <= j < t.numeric_columns.len() && t.numeric_columns@[j].1 == a by {
        crate::trees::lemma_path_features(p);
        assert(cols[a].name@ == path_features(p)[a]);
        assert(path_features(p)[a] != factor_name()) by {
            assert(cols[n].name@ == factor_name());
            assert(cols[a].name@ != cols[n].name@);
        }
        lemma_numeric_listed(cols, len, a);
        let idxs = numeric_indices(cols, len);
        let j = choose|j: int| 0 <= j < idxs.len() && idxs[j] == a;
        assert(t.numeric_columns@[j].1 as int == idxs[j]);
    }
    assert forall|a: int| 0 <= a < axes.len() && (#[trigger] axes[a]) is Categorical implies exists|j: int|
        0 <= j < t.categorical_columns.len() && t.categorical_columns@[j].1 == a by {
        assert(cols[a].name@ == path_features(p)[a]);
        assert(path_features(p)[a] != factor_name()) by {
            assert(cols[n].name@ == factor_name());
            assert(cols[a].name@ != cols[n].name@);
        }
        lemma_categorical_listed(cols, len, a);
        let idxs = categorical_indices(cols, len);
        let j = choose|j: int| 0 <= j < idxs.len() && idxs[j] == a;
        assert(t.categorical_columns@[j].1 as int == idxs[j]);
    }
}

// ---------------------------------------------------------------- which rows admit an observation

/// Level `l` of the axis admits the value: a bound the value is not above, or the
/// value's own code or the wildcard.
pub open spec fn axis_fits(axis: Axis, x: FeatureValue, l: int) -> bool {
    match (axis, x) {
        (Axis::Numeric(v), FeatureValue::Numeric(q)) => !spec_exceeds(q, v@[l]),
        (Axis::Categorical(v), FeatureValue::Categorical(c)) => v@[l] == WILDCARD || v@[l] == c,
        _ => true,
    }
}

/// Level `l` of the axis is the wildcard, read for a code.
pub open spec fn axis_wild(axis: Axis, x: FeatureValue, l: int) -> bool {
    match (axis, x) {
        (Axis::Categorical(v), FeatureValue::Categorical(_)) => v@[l] == WILDCARD,
        _ => false,
    }
}

/// Every axis of row `r` admits the observation.
pub open spec fn row_admits(axes: Seq<Axis>, feats: Seq<Seq<char>>, f: Map<Seq<char>, FeatureValue>, r: int) -> bool {
    forall|a: int| 0 <= a < axes.len() ==> #[trigger] axis_fits(axes[a], f[feats[a]], level_index(axes, a, r))
}

/// Some axis of row `r` admits the observation only through the wildcard.
pub open spec fn row_through_wildcard(axes: Seq<Axis>, feats: Seq<Seq<char>>, f: Map<Seq<char>, FeatureValue>, r: int) -> bool {
    exists|a: int| 0 <= a < axes.len() && #[trigger] axis_wild(axes[a], f[feats[a]], level_index(axes, a, r))
}

/// In a path's table, a row admits an observation that names every feature exactly
/// when each of its axes does, and does so through a wildcard exactly when one of its
/// code axes is the wildcard.
proof fn lemma_row_fits(p: Seq<(Seq<char>, Test)>, axes: Seq<Axis>, t: RatingTable, f: Map<Seq<char>, FeatureValue>, r: int)
    requires
        t.wf(),
        grid_layout(p, axes, t.data),
        0 <= r < t.data.height,
        forall|a: int| 0 <= a < axes.len() ==> f.contains_key(#[trigger] path_features(p)[a]),
    ensures
        crate::rating_model::row_fits(t, f, r) == row_admits(axes, path_features(p), f, r),
        crate::rating_model::row_wild(t, f, r) == row_through_wildcard(axes, path_features(p), f, r),
{
    lemma_grid_columns(p, axes, t);
    let feats = path_features(p);
    let cols = t.data.columns@;
    assert forall|j: int| 0 <= j < t.numeric_columns.len() implies #[trigger] num_ok(t, f, j, r) == {
        let a = t.numeric_columns@[j].1 as int;
        axis_fits(axes[a], f[feats[a]], level_index(axes, a, r))
    } by {
        let a = t.numeric_columns@[j].1 as int;
        assert(odometer_column(axes, a, cols[a].values));
        assert(f.contains_key(feats[a]));
    }
    assert forall|j: int| 0 <= j < t.categorical_columns.len() implies (#[trigger] cat_ok(t, f, j, r) == {
        let a = t.categorical_columns@[j].1 as int;
        axis_fits(axes[a], f[feats[a]], level_index(axes, a, r))
    }) && cat_wild(t, f, j, r) == {
        let a = t.categorical_columns@[j].1 as int;
        axis_wild(axes[a], f[feats[a]], level_index(axes, a, r))
    } by {
        let a = t.categorical_columns@[j].1 as int;
        assert(odometer_column(axes, a, cols[a].values));
        assert(f.contains_key(feats[a]));
    }
    if row_admits(axes, feats, f, r) {
        assert forall|j: int| 0 <= j < t.numeric_columns.len() implies #[trigger] num_ok(t, f, j, r) by {
            let a = t.numeric_columns@[j].1 as int;
            assert(axis_fits(axes[a], f[feats[a]], level_index(axes, a, r)));
        }
        assert forall|j: int| 0 <= j < t.categorical_columns.len() implies #[trigger] cat_ok(t, f, j, r) by {
            let a = t.categorical_columns@[j].1 as int;
            assert(axis_fits(axes[a], f[feats[a]], level_index(axes, a, r)));
        }
    }
    if crate::rating_model::row_fits(t, f, r) {
        assert forall|a: int| 0 <= a < axes.len() implies #[trigger] axis_fits(axes[a], f[feats[a]], level_index(axes, a, r)) by {
            if axes[a] is Numeric {
                let j = choose|j: int| 0 <= j < t.numeric_columns.len() && t.numeric_columns@[j].1 == a;
                assert(num_ok(t, f, j, r));
            } else {
                let j = choose|j: int| 0 <= j < t.categorical_columns.len() && t.categorical_columns@[j].1 == a;
                assert(cat_ok(t, f, j, r));
            }
        }
    }
    if row_through_wildcard(axes, feats, f, r) {
        let a = choose|a: int| 0 <= a < axes.len() && #[trigger] axis_wild(axes[a], f[feats[a]], level_index(axes, a, r));
        let j = choose|j: int| 0 <= j < t.categorical_columns.len() && t.categorical_columns@[j].1 == a;
        assert(cat_wild(t, f, j, r));
    }
    if crate::rating_model::row_wild(t, f, r) {
        let j = choose|j: int| 0 <= j < t.categorical_columns.len() && #[trigger] cat_wild(t, f, j, r);
        let a = t.categorical_columns@[j].1 as int;
        assert(axis_wild(axes[a], f[feats[a]], level_index(axes, a, r)));
    }
}

// ---------------------------------------------------------------- the level an observation takes

/// The first level from `i` on whose bound is at or above `k`.
pub open spec fn first_at_least(v: Seq<Quantity>, k: int, i: int) -> int
    decreases v.len() - i,
{
    if i < 0 || i >= v.len() {
        v.len() as int
    } else if key_of(v[i]) >= k {
        i
    } else {
        first_at_least(v, k, i + 1)
    }
}

/// The first level from `i` on that is code `c`.
pub open spec fn position_of_code(v: Seq<i32>, c: i32, i: int) -> int
    decreases v.len() - i,
{
    if i < 0 || i >= v.len() {
        v.len() as int
    } else if v[i] == c {
        i
    } else {
        position_of_code(v, c, i + 1)
    }
}

/// The code is one of the axis's own levels, and not the wildcard.
pub open spec fn seen_code(v: Seq<i32>, c: i32) -> bool {
    c != WILDCARD && v.contains(c)
}

/// The level of an axis an observation takes: the least bound at or above its value,
/// or its own code when the axis has it, the wildcard when it does not.
pub open spec fn chosen_level(axis: Axis, x: FeatureValue) -> int {
    match (axis, x) {
        (Axis::Numeric(v), FeatureValue::Numeric(q)) => first_at_least(v@, key_of(q), 0),
        (Axis::Categorical(v), FeatureValue::Categorical(c)) => if seen_code(v@, c) {
            position_of_code(v@, c, 0)
        } else {
            position_of_code(v@, WILDCARD, 0)
        },
        _ => 0,
    }
}

/// When some bound from `i` on is at or above `k`, the first such is found.
proof fn lemma_first_at_least(v: Seq<Quantity>, k: int, i: int, j: int)
    requires
        0 <= i <= j < v.len(),
        key_of(v[j]) >= k,
    ensures
        i <= first_at_least(v, k, i) <= j,
        key_of(v[first_at_least(v, k, i)]) >= k,
        forall|l: int| i <= l < first_at_least(v, k, i) ==> key_of(#[trigger] v[l]) < k,
    decreases v.len() - i,
{
    if key_of(v[i]) < k {
        lemma_first_at_least(v, k, i + 1, j);
    }
}

/// When code `c` is among the levels from `i` on, its first position is found.
proof fn lemma_position_of_code(v: Seq<i32>, c: i32, i: int, j: int)
    requires
        0 <= i <= j < v.len(),
        v[j] == c,
    ensures
        i <= position_of_code(v, c, i) <= j,
        v[position_of_code(v, c, i)] == c,
        forall|l: int| i <= l < position_of_code(v, c, i) ==> #[trigger] v[l] != c,
    decreases v.len() - i,
{
    if v[i] != c {
        lemma_position_of_code(v, c, i + 1, j);
    }
}

/// The observation offers each feature of the path as the path reads it: a defined
/// number for a feature split by threshold, a code for one split by category.
pub open spec fn presents(p: Seq<(Seq<char>, Test)>, f: Map<Seq<char>, FeatureValue>) -> bool {
    forall|a: int|
        0 <= a < path_features(p).len() ==> {
            let g = #[trigger] path_features(p)[a];
            &&& f.contains_key(g)
            &&& if category_split(p, g) {
                f[g] is Categorical
            } else {
                f[g] matches FeatureValue::Numeric(Quantity::Ordered(_))
            }
        }
}

/// The levels an observation takes, axis by axis.
pub open spec fn chosen_levels(axes: Seq<Axis>, feats: Seq<Seq<char>>, f: Map<Seq<char>, FeatureValue>) -> Seq<int> {
    Seq::new(axes.len(), |a: int| chosen_level(axes[a], f[feats[a]]))
}

/// What the chosen level is, on one axis: admitted, through the wildcard only when the
/// code is not the axis's own, and with every lower level refused unless it is the
/// wildcard offered for a code the axis has.
proof fn lemma_chosen_level(p: Seq<(Seq<char>, Test)>, g: Seq<char>, axis: Axis, x: FeatureValue)
    requires
        axis_of(p, g, axis),
        if category_split(p, g) {
            x is Categorical
        } else {
            x matches FeatureValue::Numeric(Quantity::Ordered(_))
        },
    ensures
        0 <= chosen_level(axis, x) < axis_len(axis),
        axis_fits(axis, x, chosen_level(axis, x)),
        axis_wild(axis, x, chosen_level(axis, x)) == (axis matches Axis::Categorical(v) && x matches FeatureValue::Categorical(c) && !seen_code(v@, c)),
        forall|l: int|
            0 <= l < chosen_level(axis, x) ==> !axis_fits(axis, x, l) || (axis_wild(axis, x, l) && (
            axis matches Axis::Categorical(v) && x matches FeatureValue::Categorical(c) && seen_code(v@, c))),
{
    match (axis, x) {
        (Axis::Numeric(v), FeatureValue::Numeric(q)) => {
            let k = key_of(q);
            assert(v@.contains(Quantity::Ordered(INFINITY_KEY)));
            let j = choose|j: int| 0 <= j < v@.len() && v@[j] == Quantity::Ordered(INFINITY_KEY);
            lemma_first_at_least(v@, k, 0, j);
        },
        (Axis::Categorical(v), FeatureValue::Categorical(c)) => {
            assert(v@.contains(WILDCARD));
            let w = choose|j: int| 0 <= j < v@.len() && v@[j] == WILDCARD;
            lemma_position_of_code(v@, WILDCARD, 0, w);
            if seen_code(v@, c) {
                let j = choose|j: int| 0 <= j < v@.len() && v@[j] == c;
                lemma_position_of_code(v@, c, 0, j);
            }
        },
        _ => {},
    }
}

// ---------------------------------------------------------------- following a path

/// The observation's value takes the branch: a number at most, or above, the bound; a
/// code among the categories, or outside them (the wildcard counting as outside).
pub open spec fn takes_branch(t: Test, x: FeatureValue) -> bool {
    match (t, x) {
        (Test::AtMost(k), FeatureValue::Numeric(Quantity::Ordered(v))) => v <= k,
        (Test::Above(k), FeatureValue::Numeric(Quantity::Ordered(v))) => v > k,
        (Test::In(cs), FeatureValue::Categorical(c)) => cs.contains(c),
        (Test::NotIn(cs), FeatureValue::Categorical(c)) => !cs.contains(c) || c == WILDCARD,
        _ => false,
    }
}

/// The observation takes every branch of the path.
pub open spec fn follows(p: Seq<(Seq<char>, Test)>, f: Map<Seq<char>, FeatureValue>) -> bool {
    forall|i: int| 0 <= i < p.len() ==> #[trigger] takes_branch(p[i].1, f[p[i].0])
}

/// No split of the path names the wildcard among its categories.
pub open spec fn no_wildcard_category(p: Seq<(Seq<char>, Test)>) -> bool {
    forall|i: int| 0 <= i < p.len() ==> !(#[trigger] test_categories(p[i].1)).contains(WILDCARD)
}

/// A branch holds at the level an observation takes exactly when the observation takes
/// the branch.
proof fn lemma_branch_at_level(p: Seq<(Seq<char>, Test)>, i: int, axis: Axis, x: FeatureValue)
    requires
        0 <= i < p.len(),
        axis_of(p, p[i].0, axis),
        no_wildcard_category(p),
        if category_split(p, p[i].0) {
            x is Categorical
        } else {
            x matches FeatureValue::Numeric(Quantity::Ordered(_))
        },
    ensures
        test_holds(p[i].1, axis, chosen_level(axis, x)) == takes_branch(p[i].1, x),
{
    let g = p[i].0;
    lemma_chosen_level(p, g, axis, x);
    let l = chosen_level(axis, x);
    if is_category_test(p[i].1) {
        assert(category_split(p, g));
    }
    match (p[i].1, axis, x) {
        (Test::AtMost(k), Axis::Numeric(v), FeatureValue::Numeric(Quantity::Ordered(kx))) => {
            assert(test_threshold(p[i].1) == Some(k));
            assert(names_bound(p, g, k));
            assert(v@.contains(Quantity::Ordered(k)));
            let j = choose|j: int| 0 <= j < v@.len() && v@[j] == Quantity::Ordered(k);
            if kx <= k {
                lemma_first_at_least(v@, kx as int, 0, j);
                if l < j {
                    assert(key_of(v@[l]) < key_of(v@[j]));
                }
            }
        },
        (Test::Above(k), Axis::Numeric(v), FeatureValue::Numeric(Quantity::Ordered(kx))) => {
            assert(test_threshold(p[i].1) == Some(k));
            assert(names_bound(p, g, k));
            assert(v@.contains(Quantity::Ordered(k)));
            let j = choose|j: int| 0 <= j < v@.len() && v@[j] == Quantity::Ordered(k);
            if kx <= k {
                lemma_first_at_least(v@, kx as int, 0, j);
                if l < j {
                    assert(key_of(v@[l]) < key_of(v@[j]));
                }
            }
        },
        (Test::In(cs), Axis::Categorical(v), FeatureValue::Categorical(c)) => {
            assert(!cs.contains(WILDCARD)) by {
                assert(test_categories(p[i].1) == cs);
            }
            if cs.contains(c) {
                assert(names_category(p, g, c)) by {
                    assert(test_categories(p[i].1).contains(c));
                }
            }
        },
        (Test::NotIn(cs), Axis::Categorical(v), FeatureValue::Categorical(c)) => {
            assert(!cs.contains(WILDCARD)) by {
                assert(test_categories(p[i].1) == cs);
            }
            if cs.contains(c) {
                assert(names_category(p, g, c)) by {
                    assert(test_categories(p[i].1).contains(c));
                }
            }
        },
        _ => {},
    }
}

// ---------------------------------------------------------------- the law

/// The observation's codes are each one the path names for their feature, or the path
/// splits on at most one feature by category.
pub open spec fn codes_resolved(p: Seq<(Seq<char>, Test)>, f: Map<Seq<char>, FeatureValue>) -> bool {
    let feats = path_features(p);
    ||| forall|a: int|
        0 <= a < feats.len() && category_split(p, #[trigger] feats[a]) ==> (f[feats[a]] matches FeatureValue::Categorical(c)
            && c != WILDCARD && names_category(p, feats[a], c))
    ||| forall|a: int, b: int|
        0 <= a < feats.len() && 0 <= b < feats.len() && category_split(p, #[trigger] feats[a]) && category_split(
            p,
            #[trigger] feats[b],
        ) ==> a == b
}

/// The conditions the law rests on, axis by axis.
proof fn lemma_axes_chosen(p: Seq<(Seq<char>, Test)>, axes: Seq<Axis>, f: Map<Seq<char>, FeatureValue>)
    requires
        path_axes(p, axes),
        presents(p, f),
    ensures
        levels_in_range(axes, chosen_levels(axes, path_features(p), f)),
        forall|a: int|
            0 <= a < axes.len() ==> {
                let x = f[path_features(p)[a]];
                let l = chosen_level(axes[a], x);
                &&& axis_fits(axes[a], x, l)
                &&& axis_wild(axes[a], x, l) == (axes[a] matches Axis::Categorical(v) && x matches FeatureValue::Categorical(c) && !seen_code(v@, c))
                &&& forall|m: int|
                    0 <= m < l ==> !axis_fits(#[trigger] axes[a], x, m) || (axis_wild(axes[a], x, m) && (
                    axes[a] matches Axis::Categorical(v) && x matches FeatureValue::Categorical(c) && seen_code(v@, c)))
            },
{
    let feats = path_features(p);
    assert forall|a: int| 0 <= a < axes.len() implies {
        let x = f[feats[a]];
        let l = chosen_level(axes[a], x);
        &&& 0 <= l < axis_len(axes[a])
        &&& axis_fits(axes[a], x, l)
        &&& axis_wild(axes[a], x, l) == (axes[a] matches Axis::Categorical(v) && x matches FeatureValue::Categorical(c) && !seen_code(v@, c))
        &&& forall|m: int|
            0 <= m < l ==> !axis_fits(#[trigger] axes[a], x, m) || (axis_wild(axes[a], x, m) && (
            axes[a] matches Axis::Categorical(v) && x matches FeatureValue::Categorical(c) && seen_code(v@, c)))
    } by {
        assert(axis_of(p, feats[a], axes[a]));
        lemma_chosen_level(p, feats[a], axes[a], f[feats[a]]);
    }
}

/// An observation the path's table reads falls in the row that takes, on each axis,
/// the level the observation takes.
proof fn lemma_falls_in(p: Seq<(Seq<char>, Test)>, axes: Seq<Axis>, t: RatingTable, f: Map<Seq<char>, FeatureValue>)
    requires
        t.wf(),
        grid_layout(p, axes, t.data),
        presents(p, f),
        codes_resolved(p, f),
    ensures
        spec_find_row(t, f) == Some(row_with(axes, chosen_levels(axes, path_features(p), f), 0, axes.len() as int)),
{
    let feats = path_features(p);
    let n = axes.len() as int;
    let levels = chosen_levels(axes, feats, f);
    lemma_axes_chosen(p, axes, f);
    lemma_path_features(p);
    let r = row_with(axes, levels, 0, n);
    assert forall|a: int| 0 <= a < n implies #[trigger] level_index(axes, a, r) == levels[a] by {
        lemma_row_with_levels(axes, levels, a);
    }
    lemma_row_with_bounds(axes, levels, 0, n);
    assert(forall|a: int| 0 <= a < axes.len() ==> f.contains_key(#[trigger] feats[a]));
    lemma_row_fits(p, axes, t, f, r);
    assert(row_admits(axes, feats, f, r));
    lemma_grid_columns(p, axes, t);
    assert(has_all_features(t, f));
    if !row_through_wildcard(axes, feats, f, r) {
        assert forall|k: int| 0 <= k < r implies !(row_fits(t, f, k) && !row_wild(t, f, k)) by {
            law_interaction_rows_ascend(axes, k, r);
            let a = choose|a: int| 0 <= a < axes.len() && #[trigger] rows_ascend_at(axes, k, r, a);
            lemma_row_fits(p, axes, t, f, k);
            let m = level_index(axes, a, k);
            assert(m < levels[a]);
            if axis_fits(axes[a], f[feats[a]], m) {
                assert(axis_wild(axes[a], f[feats[a]], m));
                assert(row_through_wildcard(axes, feats, f, k));
            }
        }
        lemma_first_fit_is(t, f, true, r);
    } else {
        let a0 = choose|a: int| 0 <= a < axes.len() && #[trigger] axis_wild(axes[a], f[feats[a]], level_index(axes, a, r));
        assert(category_split(p, feats[a0]));
        assert(!seen_code(axes[a0]->Categorical_0@, f[feats[a0]]->Categorical_0));
        assert forall|a: int, b: int|
            0 <= a < feats.len() && 0 <= b < feats.len() && category_split(p, #[trigger] feats[a]) && category_split(
                p,
                #[trigger] feats[b],
            ) implies a == b by {
            if !(forall|a: int, b: int|
                0 <= a < feats.len() && 0 <= b < feats.len() && category_split(p, #[trigger] feats[a]) && category_split(
                    p,
                    #[trigger] feats[b],
                ) ==> a == b) {
                let c = f[feats[a0]]->Categorical_0;
                assert(names_category(p, feats[a0], c) && c != WILDCARD);
                assert(axes[a0]->Categorical_0@.contains(c));
            }
        }
        assert forall|k: int| 0 <= k < t.data.height implies !(row_fits(t, f, k) && !row_wild(t, f, k)) by {
            lemma_row_fits(p, axes, t, f, k);
            if row_fits(t, f, k) {
                assert(axis_fits(axes[a0], f[feats[a0]], level_index(axes, a0, k)));
                assert(axis_wild(axes[a0], f[feats[a0]], level_index(axes, a0, k)));
            }
        }
        lemma_first_fit_none(t, f, true);
        assert forall|k: int| 0 <= k < r implies !row_fits(t, f, k) by {
            law_interaction_rows_ascend(axes, k, r);
            let a = choose|a: int| 0 <= a < axes.len() && #[trigger] rows_ascend_at(axes, k, r, a);
            lemma_row_fits(p, axes, t, f, k);
            let m = level_index(axes, a, k);
            assert(m < levels[a]);
            if axes[a] is Categorical {
                assert(category_split(p, feats[a]));
                assert(a == a0);
            }
            assert(!axis_fits(axes[a], f[feats[a]], m));
        }
        lemma_first_fit_is(t, f, false, r);
    }
}

/// At the row an observation falls in, the path's splits hold exactly when the
/// observation takes every branch.
proof fn lemma_satisfied_at(p: Seq<(Seq<char>, Test)>, axes: Seq<Axis>, f: Map<Seq<char>, FeatureValue>)
    requires
        path_axes(p, axes),
        presents(p, f),
        no_wildcard_category(p),
    ensures
        row_satisfies(p, axes, row_with(axes, chosen_levels(axes, path_features(p), f), 0, axes.len() as int))
            == follows(p, f),
{
    let feats = path_features(p);
    let n = axes.len() as int;
    let levels = chosen_levels(axes, feats, f);
    lemma_axes_chosen(p, axes, f);
    lemma_path_features(p);
    let r = row_with(axes, levels, 0, n);
    assert forall|a: int| 0 <= a < n implies #[trigger] level_index(axes, a, r) == levels[a] by {
        lemma_row_with_levels(axes, levels, a);
    }
    assert forall|i: int, a: int|
        0 <= i < p.len() && 0 <= a < feats.len() && feats[a] == p[i].0 implies test_holds(
        p[i].1,
        axes[a],
        level_index(axes, a, r),
    ) == takes_branch(p[i].1, f[p[i].0]) by {
        assert(axis_of(p, feats[a], axes[a]));
        lemma_branch_at_level(p, i, axes[a], f[feats[a]]);
    }
    if follows(p, f) {
        assert forall|i: int, a: int|
            #![trigger p[i], path_features(p)[a]]
            0 <= i < p.len() && 0 <= a < feats.len() && feats[a] == p[i].0 implies test_holds(
            p[i].1,
            axes[a],
            level_index(axes, a, r),
        ) by {
            assert(takes_branch(p[i].1, f[p[i].0]));
        }
    }
    if row_satisfies(p, axes, r) {
        assert forall|i: int| 0 <= i < p.len() implies #[trigger] takes_branch(p[i].1, f[p[i].0]) by {
            assert(feats.contains(p[i].0));
            let a = choose|a: int| 0 <= a < feats.len() && feats[a] == p[i].0;
            assert(test_holds(p[i].1, axes[a], level_index(axes, a, r)));
        }
    }
}

/// The table of a path gives an observation that follows the path the path's factor,
/// and any other observation zero: the row it falls in satisfies every split of the
/// path exactly when the observation takes every branch.
///
/// The observation must offer each feature the path splits on, a number for one split
/// by threshold and a code for one split by category; no split may name the wildcard
/// among its categories; and each code must be one the path names for its feature,
/// unless the path splits on at most one feature by category. (With two such
/// features, a code the path does not name sends the observation to the wildcard row,
/// and the wildcard is the lowest code, so a named code on the other feature loses to
/// its own wildcard row.)
pub proof fn law_path_table_exact(p: Seq<(Seq<char>, Test)>, factor: Quantity, t: RatingTable, f: Map<Seq<char>, FeatureValue>)
    requires
        path_table(p, factor, t),
        presents(p, f),
        no_wildcard_category(p),
        codes_resolved(p, f),
    ensures
        spec_predict(t, f) == if follows(p, f) {
            factor
        } else {
            Quantity::Ordered(0)
        },
{
    let axes = choose|axes: Seq<Axis>| grid_layout(p, axes, t.data) && factor_rows(p, axes, t.data, factor);
    let feats = path_features(p);
    let n = axes.len() as int;
    let levels = chosen_levels(axes, feats, f);
    let r = row_with(axes, levels, 0, n);
    lemma_falls_in(p, axes, t, f);
    lemma_satisfied_at(p, axes, f);
    lemma_axes_chosen(p, axes, f);
    lemma_row_with_bounds(axes, levels, 0, n);
    let cols = t.data.columns@;
    assert(cols[n].name@ == factor_name());
    assert(t.data.spec_index_of(factor_name()) == Some(n)) by {
        let j = choose|j: int| 0 <= j < cols.len() && (#[trigger] cols[j]).name@ == factor_name();
        if j != n {
            assert(cols[j].name@ != cols[n].name@);
        }
    }
}

// ---------------------------------------------------------------- trees

/// Every split of the path reads a value the observation offers, of the kind the split
/// reads, and no categorical split names the wildcard.
pub open spec fn path_answered(p: Seq<(Seq<char>, Test)>, f: Map<Seq<char>, FeatureValue>) -> bool {
    forall|i: int|
        0 <= i < p.len() ==> {
            &&& f.contains_key(#[trigger] p[i].0)
            &&& if is_category_test(p[i].1) {
                f[p[i].0] is Categorical && !test_categories(p[i].1).contains(WILDCARD)
            } else {
                f[p[i].0] matches FeatureValue::Numeric(Quantity::Ordered(_))
            }
        }
}

/// The split reads a value the observation offers, of its kind.
pub open spec fn split_answered(feature: Seq<char>, rule: SplitRule, f: Map<Seq<char>, FeatureValue>) -> bool {
    &&& f.contains_key(feature)
    &&& match rule {
        SplitRule::Threshold(_) => f[feature] matches FeatureValue::Numeric(Quantity::Ordered(_)),
        SplitRule::Categories(cs) => f[feature] is Categorical && !cs@.contains(WILDCARD),
    }
}

/// Every split below `node` reads a value the observation offers, of its kind.
pub open spec fn answers(node: TreeNode, f: Map<Seq<char>, FeatureValue>) -> bool
    decreases node,
{
    match node {
        TreeNode::Split { feature_name, rule, left, right, .. } => {
            &&& split_answered(feature_name@, rule, f)
            &&& match left {
                Some(b) => answers(*b, f),
                None => true,
            }
            &&& match right {
                Some(b) => answers(*b, f),
                None => true,
            }
        },
        _ => true,
    }
}

/// The leaf an observation reaches from `node`: left where it takes the left branch,
/// right where it does not; nothing at a bare node or a missing child.
pub open spec fn reached(node: TreeNode, f: Map<Seq<char>, FeatureValue>) -> Option<Quantity>
    decreases node,
{
    match node {
        TreeNode::Leaf { factor } => Some(factor),
        TreeNode::Bare => None,
        TreeNode::Split { feature_name, rule, left, right, .. } => if takes_branch(left_test(rule), f[feature_name@]) {
            match left {
                Some(b) => reached(*b, f),
                None => None,
            }
        } else {
            match right {
                Some(b) => reached(*b, f),
                None => None,
            }
        },
    }
}

/// A split's two branches are complementary for a value of its kind.
proof fn lemma_branches_complement(feature: Seq<char>, rule: SplitRule, f: Map<Seq<char>, FeatureValue>)
    requires
        split_answered(feature, rule, f),
    ensures
        takes_branch(right_test(rule), f[feature]) == !takes_branch(left_test(rule), f[feature]),
{
}

/// Following a longer path follows every prefix of it.
proof fn lemma_follows_prefix(q: Seq<(Seq<char>, Test)>, m: int, f: Map<Seq<char>, FeatureValue>)
    requires
        0 <= m <= q.len(),
        follows(q, f),
    ensures
        follows(q.take(m), f),
{
    assert forall|i: int| 0 <= i < m implies #[trigger] takes_branch(q.take(m)[i].1, f[q.take(m)[i].0]) by {
        assert(q.take(m)[i] == q[i]);
        assert(takes_branch(q[i].1, f[q[i].0]));
    }
}

/// Every leaf path below `node`, reached along `p`, extends `p`, and is answered when
/// `p` is and the tree is.
proof fn lemma_leaf_paths_extend(node: TreeNode, p: Seq<(Seq<char>, Test)>, f: Map<Seq<char>, FeatureValue>)
    ensures
        forall|j: int|
            0 <= j < leaf_paths(node, p).len() ==> (#[trigger] leaf_paths(node, p)[j]).0.len() >= p.len()
                && leaf_paths(node, p)[j].0.take(p.len() as int) == p,
        path_answered(p, f) && answers(node, f) ==> forall|j: int|
            0 <= j < leaf_paths(node, p).len() ==> path_answered(#[trigger] leaf_paths(node, p)[j].0, f),
    decreases node,
{
    match node {
        TreeNode::Split { feature_name, rule, left, right, .. } => {
            let pr = p.push((feature_name@, right_test(rule)));
            let pl = p.push((feature_name@, left_test(rule)));
            let rc = match right {
                Some(b) => leaf_paths(*b, pr),
                None => Seq::empty(),
            };
            let lc = match left {
                Some(b) => leaf_paths(*b, pl),
                None => Seq::empty(),
            };
            if let Some(b) = right {
                lemma_leaf_paths_extend(*b, pr, f);
            }
            if let Some(b) = left {
                lemma_leaf_paths_extend(*b, pl, f);
            }
            assert(leaf_paths(node, p) == rc + lc);
            if path_answered(p, f) && answers(node, f) {
                assert(path_answered(pr, f)) by {
                    assert forall|i: int| 0 <= i < pr.len() implies f.contains_key(#[trigger] pr[i].0) by {
                        if i < p.len() {
                            assert(pr[i] == p[i]);
                        }
                    }
                }
                assert(path_answered(pl, f)) by {
                    assert forall|i: int| 0 <= i < pl.len() implies f.contains_key(#[trigger] pl[i].0) by {
                        if i < p.len() {
                            assert(pl[i] == p[i]);
                        }
                    }
                }
            }
            assert forall|j: int| 0 <= j < leaf_paths(node, p).len() implies (#[trigger] leaf_paths(node, p)[j]).0.len()
                >= p.len() && leaf_paths(node, p)[j].0.take(p.len() as int) == p by {
                if j < rc.len() {
                    assert(leaf_paths(node, p)[j] == rc[j]);
                    assert(rc[j].0.take(pr.len() as int) == pr);
                    assert(rc[j].0.take(p.len() as int) =~= pr.take(p.len() as int));
                    assert(pr.take(p.len() as int) =~= p);
                } else {
                    assert(leaf_paths(node, p)[j] == lc[j - rc.len()]);
                    assert(lc[j - rc.len()].0.take(pl.len() as int) == pl);
                    assert(lc[j - rc.len()].0.take(p.len() as int) =~= pl.take(p.len() as int));
                    assert(pl.take(p.len() as int) =~= p);
                }
            }
            if path_answered(p, f) && answers(node, f) {
                assert forall|j: int| 0 <= j < leaf_paths(node, p).len() implies path_answered(
                    #[trigger] leaf_paths(node, p)[j].0,
                    f,
                ) by {
                    if j < rc.len() {
                        assert(leaf_paths(node, p)[j] == rc[j]);
                    } else {
                        assert(leaf_paths(node, p)[j] == lc[j - rc.len()]);
                    }
                }
            }
        },
        _ => {},
    }
}

/// Below `node`, reached along `p`: an observation that follows a leaf's path reaches
/// that leaf; it follows at most one; and it follows one whenever it follows `p` and
/// reaches a leaf.
proof fn lemma_leaf_paths_partition(node: TreeNode, p: Seq<(Seq<char>, Test)>, f: Map<Seq<char>, FeatureValue>)
    requires
        answers(node, f),
    ensures
        forall|j: int|
            0 <= j < leaf_paths(node, p).len() && follows(#[trigger] leaf_paths(node, p)[j].0, f) ==> reached(node, f)
                == Some(leaf_paths(node, p)[j].1),
        forall|j: int, k: int|
            0 <= j < leaf_paths(node, p).len() && 0 <= k < leaf_paths(node, p).len() && follows(
                #[trigger] leaf_paths(node, p)[j].0,
                f,
            ) && follows(#[trigger] leaf_paths(node, p)[k].0, f) ==> j == k,
        follows(p, f) && reached(node, f) is Some ==> exists|j: int|
            0 <= j < leaf_paths(node, p).len() && follows(#[trigger] leaf_paths(node, p)[j].0, f),
    decreases node,
{
    match node {
        TreeNode::Leaf { factor } => {
            assert(leaf_paths(node, p)[0] == (p, factor));
            if follows(p, f) {
                assert(follows(leaf_paths(node, p)[0].0, f));
            }
        },
        TreeNode::Bare => {},
        TreeNode::Split { feature_name, rule, left, right, .. } => {
            let g = feature_name@;
            let pr = p.push((g, right_test(rule)));
            let pl = p.push((g, left_test(rule)));
            let rc = match right {
                Some(b) => leaf_paths(*b, pr),
                None => Seq::empty(),
            };
            let lc = match left {
                Some(b) => leaf_paths(*b, pl),
                None => Seq::empty(),
            };
            let all = leaf_paths(node, p);
            assert(all == rc + lc);
            lemma_branches_complement(g, rule, f);
            if let Some(b) = right {
                lemma_leaf_paths_partition(*b, pr, f);
                lemma_leaf_paths_extend(*b, pr, f);
            }
            if let Some(b) = left {
                lemma_leaf_paths_partition(*b, pl, f);
                lemma_leaf_paths_extend(*b, pl, f);
            }
            // Following a path below the right child takes the right branch, and
            // likewise on the left.
            assert forall|j: int| 0 <= j < rc.len() && follows(#[trigger] rc[j].0, f) implies takes_branch(
                right_test(rule),
                f[g],
            ) by {
                lemma_follows_prefix(rc[j].0, pr.len() as int, f);
                assert(rc[j].0.take(pr.len() as int) == pr);
                assert(takes_branch(pr[p.len() as int].1, f[pr[p.len() as int].0]));
            }
            assert forall|j: int| 0 <= j < lc.len() && follows(#[trigger] lc[j].0, f) implies takes_branch(
                left_test(rule),
                f[g],
            ) by {
                lemma_follows_prefix(lc[j].0, pl.len() as int, f);
                assert(lc[j].0.take(pl.len() as int) == pl);
                assert(takes_branch(pl[p.len() as int].1, f[pl[p.len() as int].0]));
            }
            assert forall|j: int|
                0 <= j < all.len() && follows(#[trigger] all[j].0, f) implies reached(node, f) == Some(all[j].1) by {
                if j < rc.len() {
                    assert(all[j] == rc[j]);
                } else {
                    assert(all[j] == lc[j - rc.len()]);
                }
            }
            assert forall|j: int, k: int|
                0 <= j < all.len() && 0 <= k < all.len() && follows(#[trigger] all[j].0, f) && follows(
                    #[trigger] all[k].0,
                    f,
                ) implies j == k by {
                if j < rc.len() {
                    assert(all[j] == rc[j]);
                } else {
                    assert(all[j] == lc[j - rc.len()]);
                }
                if k < rc.len() {
                    assert(all[k] == rc[k]);
                } else {
                    assert(all[k] == lc[k - rc.len()]);
                }
            }
            if follows(p, f) && reached(node, f) is Some {
                if takes_branch(left_test(rule), f[g]) {
                    let b = left->0;
                    assert(follows(pl, f)) by {
                        assert forall|i: int| 0 <= i < pl.len() implies #[trigger] takes_branch(pl[i].1, f[pl[i].0]) by {
                            if i < p.len() {
                                assert(pl[i] == p[i]);
                                assert(takes_branch(p[i].1, f[p[i].0]));
                            }
                        }
                    }
                    let j = choose|j: int| 0 <= j < lc.len() && follows(#[trigger] lc[j].0, f);
                    assert(all[rc.len() + j] == lc[j]);
                } else {
                    let b = right->0;
                    assert(follows(pr, f)) by {
                        assert forall|i: int| 0 <= i < pr.len() implies #[trigger] takes_branch(pr[i].1, f[pr[i].0]) by {
                            if i < p.len() {
                                assert(pr[i] == p[i]);
                                assert(takes_branch(p[i].1, f[p[i].0]));
                            }
                        }
                    }
                    let j = choose|j: int| 0 <= j < rc.len() && follows(#[trigger] rc[j].0, f);
                    assert(all[j] == rc[j]);
                }
            }
        },
    }
}

/// An answered path is presented, and names no wildcard among its categories.
proof fn lemma_answered_presents(q: Seq<(Seq<char>, Test)>, f: Map<Seq<char>, FeatureValue>)
    requires
        path_answered(q, f),
    ensures
        presents(q, f),
        no_wildcard_category(q),
{
    lemma_path_features(q);
    let feats = path_features(q);
    assert forall|a: int| 0 <= a < feats.len() implies {
        let g = #[trigger] feats[a];
        &&& f.contains_key(g)
        &&& if category_split(q, g) {
            f[g] is Categorical
        } else {
            f[g] matches FeatureValue::Numeric(Quantity::Ordered(_))
        }
    } by {
        let g = feats[a];
        assert(feats.contains(g));
        let i = choose|i: int| 0 <= i < q.len() && #[trigger] q[i].0 == g;
        assert(f.contains_key(q[i].0));
        if category_split(q, g) {
            let i2 = choose|i2: int| 0 <= i2 < q.len() && q[i2].0 == g && #[trigger] is_category_test(q[i2].1);
            assert(f.contains_key(q[i2].0));
        } else {
            assert(!is_category_test(q[i].1));
        }
    }
    assert forall|i: int| 0 <= i < q.len() implies !(#[trigger] test_categories(q[i].1)).contains(WILDCARD) by {
        assert(f.contains_key(q[i].0));
    }
}

/// The tables of a tree reproduce it: an observation gets the factor of a leaf from
/// that leaf's table exactly when it follows the leaf's path, and zero from every
/// other; it follows at most one leaf's path, and the leaf it follows is the leaf it
/// reaches; and when it reaches a leaf, it follows that leaf's path. So the tables
/// together give the observation the factor of the leaf the tree sends it to, and
/// nothing more.
///
/// The observation must offer every feature the tree splits on, of the kind each split
/// reads, with no categorical split naming the wildcard; and, for each leaf's path,
/// each code must be one the path names, unless the path splits on at most one feature
/// by category (see [`law_path_table_exact`]).
pub proof fn law_tree_tables_exact(node: TreeNode, ts: Seq<RatingTable>, f: Map<Seq<char>, FeatureValue>)
    requires
        tables_of(leaf_paths(node, Seq::empty()), ts, 0),
        answers(node, f),
        forall|j: int|
            0 <= j < leaf_paths(node, Seq::empty()).len() ==> codes_resolved(
                #[trigger] leaf_paths(node, Seq::empty())[j].0,
                f,
            ),
    ensures
        forall|j: int|
            0 <= j < ts.len() ==> #[trigger] spec_predict(ts[j], f) == if follows(
                leaf_paths(node, Seq::empty())[j].0,
                f,
            ) {
                leaf_paths(node, Seq::empty())[j].1
            } else {
                Quantity::Ordered(0)
            },
        forall|j: int|
            0 <= j < ts.len() && follows(#[trigger] leaf_paths(node, Seq::empty())[j].0, f) ==> reached(node, f)
                == Some(leaf_paths(node, Seq::empty())[j].1),
        forall|j: int, k: int|
            0 <= j < ts.len() && 0 <= k < ts.len() && follows(#[trigger] leaf_paths(node, Seq::empty())[j].0, f)
                && follows(#[trigger] leaf_paths(node, Seq::empty())[k].0, f) ==> j == k,
        reached(node, f) is Some ==> exists|j: int|
            0 <= j < ts.len() && follows(#[trigger] leaf_paths(node, Seq::empty())[j].0, f),
{
    let p = Seq::<(Seq<char>, Test)>::empty();
    let cases = leaf_paths(node, p);
    lemma_leaf_paths_extend(node, p, f);
    lemma_leaf_paths_partition(node, p, f);
    assert(path_answered(p, f));
    assert(follows(p, f));
    assert forall|j: int| 0 <= j < ts.len() implies #[trigger] spec_predict(ts[j], f) == if follows(
        cases[j].0,
        f,
    ) {
        cases[j].1
    } else {
        Quantity::Ordered(0)
    } by {
        assert(path_answered(cases[j].0, f));
        lemma_answered_presents(cases[j].0, f);
        assert(path_table(cases[j].0, cases[j].1, ts[0 + j]));
        law_path_table_exact(cases[j].0, cases[j].1, ts[j], f);
    }
}

// ---------------------------------------------------------------- the analysis layout

/// The factors of the entries whose paths the observation follows, in order.
pub open spec fn followed(cases: Seq<(Seq<(Seq<char>, Test)>, Quantity)>, f: Map<Seq<char>, FeatureValue>) -> Seq<Quantity>
    decreases cases.len(),
{
    if cases.len() == 0 {
        Seq::empty()
    } else {
        followed(cases.drop_last(), f) + if follows(cases.last().0, f) {
            seq![cases.last().1]
        } else {
            Seq::empty()
        }
    }
}

/// The factors an observation passes along its route from `node`, reached along `p`:
/// each node's own below the root, ending with the leaf's.
pub open spec fn route(node: TreeNode, p: Seq<(Seq<char>, Test)>, f: Map<Seq<char>, FeatureValue>) -> Seq<Quantity>
    decreases node,
{
    match node {
        TreeNode::Leaf { factor } => seq![factor],
        TreeNode::Bare => Seq::empty(),
        TreeNode::Split { feature_name, rule, factor, left, right } => {
            let own = match factor {
                Some(v) => if p.len() > 0 {
                    seq![v]
                } else {
                    Seq::empty()
                },
                None => Seq::empty(),
            };
            own + if takes_branch(left_test(rule), f[feature_name@]) {
                match left {
                    Some(b) => route(*b, p.push((feature_name@, left_test(rule))), f),
                    None => Seq::empty(),
                }
            } else {
                match right {
                    Some(b) => route(*b, p.push((feature_name@, right_test(rule))), f),
                    None => Seq::empty(),
                }
            }
        },
    }
}

/// The followed entries of two runs of entries are those of the first, then those of
/// the second.
proof fn lemma_followed_add(a: Seq<(Seq<(Seq<char>, Test)>, Quantity)>, b: Seq<(Seq<(Seq<char>, Test)>, Quantity)>, f: Map<Seq<char>, FeatureValue>)
    ensures
        followed(a + b, f) == followed(a, f) + followed(b, f),
    decreases b.len(),
{
    if b.len() == 0 {
        assert(a + b =~= a);
    } else {
        lemma_followed_add(a, b.drop_last(), f);
        assert((a + b).drop_last() =~= a + b.drop_last());
        assert((a + b).last() == b.last());
    }
}

/// Entries none of whose paths the observation follows contribute nothing.
proof fn lemma_followed_none(cases: Seq<(Seq<(Seq<char>, Test)>, Quantity)>, f: Map<Seq<char>, FeatureValue>)
    requires
        forall|j: int| 0 <= j < cases.len() ==> !follows(#[trigger] cases[j].0, f),
    ensures
        followed(cases, f) == Seq::<Quantity>::empty(),
    decreases cases.len(),
{
    if cases.len() > 0 {
        lemma_followed_none(cases.drop_last(), f);
        assert(!follows(cases[cases.len() - 1].0, f));
    }
}

/// Every node path below `node`, reached along `p`, extends `p`, and is answered when
/// `p` is and the tree is.
proof fn lemma_node_paths_extend(node: TreeNode, p: Seq<(Seq<char>, Test)>, f: Map<Seq<char>, FeatureValue>)
    ensures
        forall|j: int|
            0 <= j < node_paths(node, p).len() ==> (#[trigger] node_paths(node, p)[j]).0.len() >= p.len()
                && node_paths(node, p)[j].0.take(p.len() as int) == p,
        path_answered(p, f) && answers(node, f) ==> forall|j: int|
            0 <= j < node_paths(node, p).len() ==> path_answered(#[trigger] node_paths(node, p)[j].0, f),
    decreases node,
{
    match node {
        TreeNode::Split { feature_name, rule, factor, left, right } => {
            let pr = p.push((feature_name@, right_test(rule)));
            let pl = p.push((feature_name@, left_test(rule)));
            let own: Seq<(Seq<(Seq<char>, Test)>, Quantity)> = match factor {
                Some(v) => if p.len() > 0 {
                    seq![(p, v)]
                } else {
                    Seq::empty()
                },
                None => Seq::empty(),
            };
            let rc = match right {
                Some(b) => node_paths(*b, pr),
                None => Seq::empty(),
            };
            let lc = match left {
                Some(b) => node_paths(*b, pl),
                None => Seq::empty(),
            };
            if let Some(b) = right {
                lemma_node_paths_extend(*b, pr, f);
            }
            if let Some(b) = left {
                lemma_node_paths_extend(*b, pl, f);
            }
            let all = node_paths(node, p);
            assert(all == own + rc + lc);
            if path_answered(p, f) && answers(node, f) {
                assert(path_answered(pr, f)) by {
                    assert forall|i: int| 0 <= i < pr.len() implies f.contains_key(#[trigger] pr[i].0) by {
                        if i < p.len() {
                            assert(pr[i] == p[i]);
                        }
                    }
                }
                assert(path_answered(pl, f)) by {
                    assert forall|i: int| 0 <= i < pl.len() implies f.contains_key(#[trigger] pl[i].0) by {
                        if i < p.len() {
                            assert(pl[i] == p[i]);
                        }
                    }
                }
            }
            assert forall|j: int| 0 <= j < all.len() implies (#[trigger] all[j]).0.len() >= p.len()
                && all[j].0.take(p.len() as int) == p by {
                if j < own.len() {
                    assert(all[j] == own[j]);
                    assert(p.take(p.len() as int) =~= p);
                } else if j < own.len() + rc.len() {
                    assert(all[j] == rc[j - own.len()]);
                    assert(rc[j - own.len()].0.take(pr.len() as int) == pr);
                    assert(rc[j - own.len()].0.take(p.len() as int) =~= pr.take(p.len() as int));
                    assert(pr.take(p.len() as int) =~= p);
                } else {
                    assert(all[j] == lc[j - own.len() - rc.len()]);
                    assert(lc[j - own.len() - rc.len()].0.take(pl.len() as int) == pl);
                    assert(lc[j - own.len() - rc.len()].0.take(p.len() as int) =~= pl.take(p.len() as int));
                    assert(pl.take(p.len() as int) =~= p);
                }
            }
            if path_answered(p, f) && answers(node, f) {
                assert forall|j: int| 0 <= j < all.len() implies path_answered(#[trigger] all[j].0, f) by {
                    if j < own.len() {
                        assert(all[j] == own[j]);
                    } else if j < own.len() + rc.len() {
                        assert(all[j] == rc[j - own.len()]);
                    } else {
                        assert(all[j] == lc[j - own.len() - rc.len()]);
                    }
                }
            }
        },
        TreeNode::Leaf { factor } => {
            assert(node_paths(node, p)[0] == (p, factor));
            assert(p.take(p.len() as int) =~= p);
        },
        TreeNode::Bare => {},
    }
}

/// The node paths an observation follows below `node`, reached along `p`, carry the
/// factors of its route, in order, when it follows `p`, and none when it does not.
proof fn lemma_followed_route(node: TreeNode, p: Seq<(Seq<char>, Test)>, f: Map<Seq<char>, FeatureValue>)
    requires
        answers(node, f),
    ensures
        followed(node_paths(node, p), f) == if follows(p, f) {
            route(node, p, f)
        } else {
            Seq::<Quantity>::empty()
        },
    decreases node,
{
    lemma_node_paths_extend(node, p, f);
    if !follows(p, f) {
        assert forall|j: int| 0 <= j < node_paths(node, p).len() implies !follows(#[trigger] node_paths(node, p)[j].0, f) by {
            let q = node_paths(node, p)[j].0;
            if follows(q, f) {
                lemma_follows_prefix(q, p.len() as int, f);
            }
        }
        lemma_followed_none(node_paths(node, p), f);
        return;
    }
    match node {
        TreeNode::Leaf { factor } => {
            let c = node_paths(node, p);
            assert(c == seq![(p, factor)]);
            assert(c.drop_last() =~= Seq::<(Seq<(Seq<char>, Test)>, Quantity)>::empty());
            assert(followed(c.drop_last(), f) == Seq::<Quantity>::empty());
            assert(c.last() == (p, factor));
            assert(follows(c.last().0, f));
            assert(followed(c, f) =~= seq![factor]);
        },
        TreeNode::Bare => {},
        TreeNode::Split { feature_name, rule, factor, left, right } => {
            let g = feature_name@;
            let pr = p.push((g, right_test(rule)));
            let pl = p.push((g, left_test(rule)));
            let own: Seq<(Seq<(Seq<char>, Test)>, Quantity)> = match factor {
                Some(v) => if p.len() > 0 {
                    seq![(p, v)]
                } else {
                    Seq::empty()
                },
                None => Seq::empty(),
            };
            let rc = match right {
                Some(b) => node_paths(*b, pr),
                None => Seq::empty(),
            };
            let lc = match left {
                Some(b) => node_paths(*b, pl),
                None => Seq::empty(),
            };
            assert(node_paths(node, p) == own + rc + lc);
            lemma_followed_add(own + rc, lc, f);
            lemma_followed_add(own, rc, f);
            assert(followed(own, f) =~= match factor {
                Some(v) => if p.len() > 0 {
                    seq![v]
                } else {
                    Seq::<Quantity>::empty()
                },
                None => Seq::<Quantity>::empty(),
            }) by {
                if own.len() == 1 {
                    assert(own.drop_last() =~= Seq::<(Seq<(Seq<char>, Test)>, Quantity)>::empty());
                    assert(followed(own.drop_last(), f) == Seq::<Quantity>::empty());
                    assert(own.last().0 == p);
                    assert(follows(own.last().0, f));
                } else {
                    assert(own.len() == 0);
                }
            }
            lemma_branches_complement(g, rule, f);
            let goes_left = takes_branch(left_test(rule), f[g]);
            assert(follows(pl, f) == goes_left) by {
                if goes_left {
                    assert forall|i: int| 0 <= i < pl.len() implies #[trigger] takes_branch(pl[i].1, f[pl[i].0]) by {
                        if i < p.len() {
                            assert(pl[i] == p[i]);
                            assert(takes_branch(p[i].1, f[p[i].0]));
                        }
                    }
                } else {
                    assert(!takes_branch(pl[p.len() as int].1, f[pl[p.len() as int].0]));
                }
            }
            assert(follows(pr, f) == !goes_left) by {
                if !goes_left {
                    assert forall|i: int| 0 <= i < pr.len() implies #[trigger] takes_branch(pr[i].1, f[pr[i].0]) by {
                        if i < p.len() {
                            assert(pr[i] == p[i]);
                            assert(takes_branch(p[i].1, f[p[i].0]));
                        }
                    }
                } else {
                    assert(!takes_branch(pr[p.len() as int].1, f[pr[p.len() as int].0]));
                }
            }
            match right {
                Some(b) => lemma_followed_route(*b, pr, f),
                None => {},
            }
            match left {
                Some(b) => lemma_followed_route(*b, pl, f),
                None => {},
            }
            if goes_left {
                assert(followed(rc, f) =~= Seq::<Quantity>::empty()) by {
                    if right is None {
                        assert(rc.len() == 0);
                    }
                }
                if left is None {
                    assert(followed(lc, f) =~= Seq::<Quantity>::empty());
                }
            } else {
                assert(followed(lc, f) =~= Seq::<Quantity>::empty()) by {
                    if left is None {
                        assert(lc.len() == 0);
                    }
                }
                if right is None {
                    assert(followed(rc, f) =~= Seq::<Quantity>::empty());
                }
            }
            assert(followed(node_paths(node, p), f) =~= route(node, p, f));
        },
    }
}

/// The analysis tables of a tree decompose the leaf an observation reaches along its
/// route: each table gives the observation its node's factor exactly when the
/// observation follows the node's path, and zero otherwise; and the factors it gets,
/// in table order, are those of the nodes it passes below the root, ending with the
/// leaf it reaches. So the tables together give the observation the sum of the steps
/// along its route.
///
/// The conditions are those of [`law_tree_tables_exact`], for every node's path.
pub proof fn law_analysis_tables_exact(node: TreeNode, ts: Seq<RatingTable>, f: Map<Seq<char>, FeatureValue>)
    requires
        tables_of(node_paths(node, Seq::empty()), ts, 0),
        answers(node, f),
        forall|j: int|
            0 <= j < node_paths(node, Seq::empty()).len() ==> codes_resolved(
                #[trigger] node_paths(node, Seq::empty())[j].0,
                f,
            ),
    ensures
        forall|j: int|
            0 <= j < ts.len() ==> #[trigger] spec_predict(ts[j], f) == if follows(
                node_paths(node, Seq::empty())[j].0,
                f,
            ) {
                node_paths(node, Seq::empty())[j].1
            } else {
                Quantity::Ordered(0)
            },
        followed(node_paths(node, Seq::empty()), f) == route(node, Seq::empty(), f),
{
    let p = Seq::<(Seq<char>, Test)>::empty();
    let cases = node_paths(node, p);
    lemma_node_paths_extend(node, p, f);
    lemma_followed_route(node, p, f);
    assert(path_answered(p, f));
    assert(follows(p, f));
    assert forall|j: int| 0 <= j < ts.len() implies #[trigger] spec_predict(ts[j], f) == if follows(
        cases[j].0,
        f,
    ) {
        cases[j].1
    } else {
        Quantity::Ordered(0)
    } by {
        assert(path_answered(cases[j].0, f));
        lemma_answered_presents(cases[j].0, f);
        assert(path_table(cases[j].0, cases[j].1, ts[0 + j]));
        law_path_table_exact(cases[j].0, cases[j].1, ts[j], f);
    }
}

} // verus!
