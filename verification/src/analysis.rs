//! One-way analysis: which row of a table each observation of a frame falls in.
//!
//! Before any row is read, the frame must carry every column the table reads, with
//! the dtype the table reads it as, the target column, and a floating-point weight
//! column when one is named. Each observation then presents the table its own
//! columns' cells and is given the row the first-match rule finds. The averages per
//! row are sums of floating-point products and are taken by the caller from the rows
//! this module assigns.
use crate::features::{cell_feature, lemma_row_feature, row_features, FeatureValue, Features};
use crate::frame::{ColumnValues, Frame};
use crate::rating_model::{
    column_dtype, column_features, column_fits, dtype_of, factor_column_name, factor_name,
    frame_has, lacking, lemma_lacking_none, pair_names, same_row, spec_find_row, Dtype,
    RatingModel, RatingTable, cat_ok, cat_wild, num_ok, row_fits, row_wild, first_fit,
    has_all_features, spec_predict, factor_at,
};
use vstd::prelude::*;

verus! {

/// The feature a frame's column of this name presents at row `i`: nothing when there
/// is no such column, when the cell is null, or when the column is neither numbers nor
/// category codes.
pub open spec fn cell_at(df: Frame, name: Seq<char>, i: int) -> Option<FeatureValue> {
    match df.spec_index_of(name) {
        Some(j) => cell_feature(df.columns@[j].values, i),
        None => None,
    }
}

/// What row `i` of the frame presents under each of these names.
pub open spec fn observation(req: Seq<(Seq<char>, Dtype)>, df: Frame, i: int) -> Map<
    Seq<char>,
    FeatureValue,
>
    decreases req.len(),
{
    if req.len() == 0 {
        Map::empty()
    } else {
        let rest = observation(req.drop_last(), df, i);
        match cell_at(df, req.last().0, i) {
            Some(v) => rest.insert(req.last().0, v),
            None => rest,
        }
    }
}

/// Row `i` presents a value under every one of these names.
pub open spec fn readable(req: Seq<(Seq<char>, Dtype)>, df: Frame, i: int) -> bool {
    forall|k: int| 0 <= k < req.len() ==> (cell_at(df, #[trigger] req[k].0, i) is Some)
}

/// Row `i` of the frame presents every feature the table reads and falls in one of
/// its rows.
pub open spec fn row_assigned(t: RatingTable, df: Frame, i: int) -> bool {
    let req = column_features(t.data.columns@);
    readable(req, df, i) && spec_find_row(t, observation(req, df, i)) is Some
}

/// The frame carries every column the table reads, each with the dtype the table
/// reads it as.
pub open spec fn columns_ok(t: RatingTable, df: Frame) -> bool {
    let req = column_features(t.data.columns@);
    &&& lacking(req, df).len() == 0
    &&& forall|k: int| 0 <= k < req.len() ==> column_fits(df, #[trigger] req[k])
}

/// The named weight column, if one is named, is a floating-point column of the frame.
pub open spec fn weight_ok(df: Frame, weight: Option<Seq<char>>) -> bool {
    match weight {
        Some(w) => column_dtype(df, w) == Some(Dtype::Float64),
        None => true,
    }
}

/// Everything checked before any row is read holds.
pub open spec fn inputs_ok(t: RatingTable, df: Frame, target: Seq<char>, weight: Option<Seq<char>>) -> bool {
    columns_ok(t, df) && frame_has(df, target) && weight_ok(df, weight)
}

/// Every row of the frame falls in a row of the table.
pub open spec fn rows_ok(t: RatingTable, df: Frame) -> bool {
    forall|i: int| 0 <= i < df.height ==> #[trigger] row_assigned(t, df, i)
}

/// The analysis of this table on this frame succeeds.
pub open spec fn analysis_ok(t: RatingTable, df: Frame, target: Seq<char>, weight: Option<Seq<char>>) -> bool {
    &&& inputs_ok(t, df, target, weight)
    &&& rows_ok(t, df)
    &&& column_dtype(df, target) == Some(Dtype::Float64)
}

/// The name of an optional column, as a view.
pub open spec fn name_of(weight: Option<String>) -> Option<Seq<char>> {
    match weight {
        Some(w) => Some(w@),
        None => None,
    }
}

/// Why a frame cannot be analysed against a table.
#[derive(Debug, Clone, PartialEq, Eq)]
pub enum AnalysisError {
    /// These columns the table reads are missing from the frame.
    MissingColumns { columns: Vec<String> },
    /// This column has dtype `found` where the table reads `expected`.
    Mismatch { column: String, found: Dtype, expected: Dtype },
    /// The target column is missing.
    MissingTarget { column: String },
    /// The weight column is missing.
    MissingWeight { column: String },
    /// The weight column is not a floating-point column.
    WeightNotFloat { found: Dtype },
    /// This row presents no usable value for this feature: the cell is null, or the
    /// column holds neither numbers nor category codes.
    Unsupported { feature: String, row: usize },
    /// This row falls in no row of the table.
    NoMatch { row: usize },
    /// The target column is not a floating-point column.
    TargetNotFloat { found: Dtype },
}

/// What analysing table `t` on frame `df` gives.
///
/// The checks come in this order: missing columns (all of them, in the table's column
/// order), then the first column whose dtype differs, then the target column, then the
/// weight column; then the rows in order, each feature in the table's column order; and
/// last the target's dtype. On success, the row each observation falls in.
pub open spec fn analysis_result(
    t: RatingTable,
    df: Frame,
    target: Seq<char>,
    weight: Option<Seq<char>>,
    res: Result<Vec<usize>, AnalysisError>,
) -> bool {
    let req = column_features(t.data.columns@);
    match res {
        Ok(rows) => {
            &&& analysis_ok(t, df, target, weight)
            &&& rows.len() == df.height
            &&& forall|i: int|
                0 <= i < df.height ==> Some(#[trigger] rows@[i] as int) == spec_find_row(
                    t,
                    observation(req, df, i),
                )
        },
        Err(AnalysisError::MissingColumns { columns }) => {
            &&& lacking(req, df).len() > 0
            &&& columns@.map_values(|s: String| s@) == lacking(req, df)
        },
        Err(AnalysisError::Mismatch { column, found, expected }) => {
            &&& lacking(req, df).len() == 0
            &&& exists|k: int|
                0 <= k < req.len() && #[trigger] req[k] == (column@, expected) && !column_fits(
                    df,
                    req[k],
                ) && column_dtype(df, column@) == Some(found) && forall|j: int|
                    0 <= j < k ==> column_fits(df, #[trigger] req[j])
        },
        Err(AnalysisError::MissingTarget { column }) => {
            &&& columns_ok(t, df)
            &&& column@ == target
            &&& !frame_has(df, target)
        },
        Err(AnalysisError::MissingWeight { column }) => {
            &&& columns_ok(t, df)
            &&& frame_has(df, target)
            &&& weight == Some(column@)
            &&& !frame_has(df, column@)
        },
        Err(AnalysisError::WeightNotFloat { found }) => {
            &&& columns_ok(t, df)
            &&& frame_has(df, target)
            &&& weight is Some
            &&& column_dtype(df, weight->0) == Some(found)
            &&& found != Dtype::Float64
        },
        Err(AnalysisError::Unsupported { feature, row }) => {
            &&& inputs_ok(t, df, target, weight)
            &&& row < df.height
            &&& forall|i: int| 0 <= i < row ==> #[trigger] row_assigned(t, df, i)
            &&& exists|k: int|
                0 <= k < req.len() && #[trigger] req[k].0 == feature@ && cell_at(
                    df,
                    feature@,
                    row as int,
                ) is None && forall|j: int|
                    0 <= j < k ==> (cell_at(df, #[trigger] req[j].0, row as int) is Some)
        },
        Err(AnalysisError::NoMatch { row }) => {
            &&& inputs_ok(t, df, target, weight)
            &&& row < df.height
            &&& forall|i: int| 0 <= i < row ==> #[trigger] row_assigned(t, df, i)
            &&& readable(req, df, row as int)
            &&& spec_find_row(t, observation(req, df, row as int)) is None
        },
        Err(AnalysisError::TargetNotFloat { found }) => {
            &&& inputs_ok(t, df, target, weight)
            &&& rows_ok(t, df)
            &&& column_dtype(df, target) == Some(found)
            &&& found != Dtype::Float64
        },
    }
}

/// The dtype of the frame's column of this name, if there is one.
fn dtype_named(df: &Frame, name: &String) -> (res: Option<Dtype>)
    requires
        df.wf(),
    ensures
        res == column_dtype(*df, name@),
{
    match df.index_of(name) {
        Some(j) => Some(dtype_of(&df.columns[j].values)),
        None => None,
    }
}

/// The feature the frame's column of this name presents at row `i`.
fn cell_value(df: &Frame, name: &String, i: usize) -> (res: Option<FeatureValue>)
    requires
        df.wf(),
        i < df.height,
    ensures
        res == cell_at(*df, name@, i as int),
{
    match df.index_of(name) {
        Some(j) => {
            assert(df.columns@[j as int].values.spec_len() == df.height);
            match &df.columns[j].values {
                ColumnValues::Float(v) => match v[i] {
                    Some(q) => Some(FeatureValue::Numeric(q)),
                    None => None,
                },
                ColumnValues::Int32(v) => match v[i] {
                    Some(c) => Some(FeatureValue::Categorical(c)),
                    None => None,
                },
                _ => None,
            }
        },
        None => None,
    }
}

impl RatingTable {
    /// The columns the table reads, the factor column aside, each with its dtype, in
    /// column order.
    fn feature_list(&self) -> (res: Vec<(String, Dtype)>)
        ensures
            pair_names(res@) == column_features(self.data.columns@),
    {
        let cols = &self.data.columns;
        let factor = factor_column_name();
        let mut all: Vec<(String, Dtype)> = Vec::new();
        let mut c: usize = 0;
        while c < cols.len()
            invariant
                factor@ == factor_name(),
                c <= cols.len(),
                pair_names(all@) == column_features(cols@.take(c as int)),
            decreases cols.len() - c,
        {
            proof {
                assert(cols@.take(c + 1).drop_last() =~= cols@.take(c as int));
                assert(cols@.take(c + 1).last() == cols@[c as int]);
            }
            if cols[c].name != factor {
                let d = dtype_of(&cols[c].values);
                let ghost before = all@;
                all.push((cols[c].name.clone(), d));
                proof {
                    assert(pair_names(all@) =~= pair_names(before).push((cols@[c as int].name@, d)));
                }
            }
            c += 1;
        }
        proof {
            assert(cols@.take(cols.len() as int) =~= cols@);
        }
        all
    }

    /// The features row `i` of the frame presents under the table's own columns, or
    /// the first of those columns, in column order, that presents nothing there.
    fn observe(req: &Vec<(String, Dtype)>, df: &Frame, i: usize) -> (res: Result<Features, usize>)
        requires
            df.wf(),
            i < df.height,
        ensures
            match res {
                Ok(features) => {
                    &&& readable(pair_names(req@), *df, i as int)
                    &&& features@ == observation(pair_names(req@), *df, i as int)
                },
                Err(k) => {
                    &&& k < req.len()
                    &&& cell_at(*df, req@[k as int].0@, i as int) is None
                    &&& forall|j: int|
                        0 <= j < k ==> (cell_at(*df, #[trigger] pair_names(req@)[j].0, i as int) is Some)
                },
            },
    {
        let ghost pv = pair_names(req@);
        let mut features = Features::new();
        let mut k: usize = 0;
        while k < req.len()
            invariant
                pv == pair_names(req@),
                df.wf(),
                i < df.height,
                k <= req.len(),
                features@ == observation(pv.take(k as int), *df, i as int),
                forall|j: int| 0 <= j < k ==> (cell_at(*df, #[trigger] pv[j].0, i as int) is Some),
            decreases req.len() - k,
        {
            proof {
                assert(pv.take(k + 1).drop_last() =~= pv.take(k as int));
                assert(pv.take(k + 1).last() == pv[k as int]);
            }
            match cell_value(df, &req[k].0, i) {
                Some(v) => {
                    features.insert(req[k].0.clone(), v);
                },
                None => {
                    return Err(k);
                },
            }
            k += 1;
        }
        proof {
            assert(pv.take(req.len() as int) =~= pv);
        }
        Ok(features)
    }

    /// The row of the table each observation of `df` falls in, after checking that the
    /// frame carries what the analysis reads: every column the table reads, with the
    /// dtype it reads it as, the target column, and the weight column, when one is
    /// named, as a floating-point column.
    pub fn analysis_rows(&self, df: &Frame, target: &String, weight: &Option<String>) -> (res: Result<
        Vec<usize>,
        AnalysisError,
    >)
        requires
            self.wf(),
            df.wf(),
        ensures
            analysis_result(*self, *df, target@, name_of(*weight), res),
    {
        let ghost req = column_features(self.data.columns@);
        let list = self.feature_list();
        let mut missing: Vec<String> = Vec::new();
        let mut i: usize = 0;
        while i < list.len()
            invariant
                pair_names(list@) == req,
                req == column_features(self.data.columns@),
                df.wf(),
                i <= list.len(),
                missing@.map_values(|s: String| s@) == lacking(req.take(i as int), *df),
            decreases list.len() - i,
        {
            proof {
                assert(req.take(i + 1).drop_last() =~= req.take(i as int));
                assert(req.take(i + 1).last() == req[i as int]);
            }
            let ghost before = missing@;
            match df.index_of(&list[i].0) {
                Some(_) => {
                    proof {
                        assert(frame_has(*df, req[i as int].0));
                    }
                },
                None => {
                    proof {
                        assert(!frame_has(*df, req[i as int].0));
                    }
                    missing.push(list[i].0.clone());
                    proof {
                        assert(missing@.map_values(|s: String| s@) =~= before.map_values(
                            |s: String| s@,
                        ).push(req[i as int].0));
                    }
                },
            }
            i += 1;
        }
        proof {
            assert(req.take(req.len() as int) =~= req);
        }
        if missing.len() > 0 {
            return Err(AnalysisError::MissingColumns { columns: missing });
        }
        proof {
            assert(lacking(req, *df).len() == missing@.map_values(|s: String| s@).len());
        }
        let mut k: usize = 0;
        while k < list.len()
            invariant
                pair_names(list@) == req,
                req == column_features(self.data.columns@),
                lacking(req, *df).len() == 0,
                df.wf(),
                k <= list.len(),
                forall|m: int| 0 <= m < k ==> column_fits(*df, #[trigger] req[m]),
            decreases list.len() - k,
        {
            proof {
                assert(req[k as int] == (list@[k as int].0@, list@[k as int].1));
            }
            match dtype_named(df, &list[k].0) {
                Some(found) => {
                    if found != list[k].1 {
                        return Err(
                            AnalysisError::Mismatch {
                                column: list[k].0.clone(),
                                found,
                                expected: list[k].1,
                            },
                        );
                    }
                },
                None => {
                    proof {
                        lemma_lacking_none(req, *df, k as int);
                        assert(false);
                    }
                    return Err(AnalysisError::MissingColumns { columns: Vec::new() });
                },
            }
            k += 1;
        }
        let target_dtype = dtype_named(df, target);
        if target_dtype.is_none() {
            return Err(AnalysisError::MissingTarget { column: target.clone() });
        }
        proof {
            assert(frame_has(*df, target@));
        }
        match weight {
            Some(w) => match dtype_named(df, w) {
                Some(found) => {
                    if found != Dtype::Float64 {
                        return Err(AnalysisError::WeightNotFloat { found });
                    }
                },
                None => {
                    return Err(AnalysisError::MissingWeight { column: w.clone() });
                },
            },
            None => {},
        }
        let mut rows: Vec<usize> = Vec::new();
        let mut r: usize = 0;
        while r < df.height
            invariant
                pair_names(list@) == req,
                req == column_features(self.data.columns@),
                self.wf(),
                df.wf(),
                inputs_ok(*self, *df, target@, name_of(*weight)),
                r <= df.height,
                rows.len() == r,
                forall|m: int| 0 <= m < r ==> #[trigger] row_assigned(*self, *df, m),
                forall|m: int|
                    0 <= m < r ==> Some(#[trigger] rows@[m] as int) == spec_find_row(
                        *self,
                        observation(req, *df, m),
                    ),
            decreases df.height - r,
        {
            match Self::observe(&list, df, r) {
                Ok(features) => match self.find_row_match(&features) {
                    Some(row) => {
                        proof {
                            assert(row_assigned(*self, *df, r as int));
                        }
                        rows.push(row);
                    },
                    None => {
                        return Err(AnalysisError::NoMatch { row: r });
                    },
                },
                Err(k) => {
                    proof {
                        assert(req[k as int].0 == list@[k as int].0@);
                    }
                    return Err(AnalysisError::Unsupported { feature: list[k].0.clone(), row: r });
                },
            }
            r += 1;
        }
        match target_dtype {
            Some(found) => {
                if found != Dtype::Float64 {
                    return Err(AnalysisError::TargetNotFloat { found });
                }
            },
            None => {},
        }
        Ok(rows)
    }
}

impl RatingModel {
    /// The rows each table assigns the observations of `df`, table by table; the first
    /// table that cannot be analysed stops the analysis with its error.
    pub fn analysis_rows(&self, df: &Frame, target: &String, weight: &Option<String>) -> (res: Result<
        Vec<Vec<usize>>,
        AnalysisError,
    >)
        requires
            forall|t: int| 0 <= t < self.tables.len() ==> (#[trigger] self.tables@[t]).wf(),
            df.wf(),
        ensures
            match res {
                Ok(all) => {
                    &&& all.len() == self.tables.len()
                    &&& forall|t: int|
                        0 <= t < self.tables.len() ==> analysis_result(
                            #[trigger] self.tables@[t],
                            *df,
                            target@,
                            name_of(*weight),
                            Ok(all@[t]),
                        )
                },
                Err(e) => exists|t: int|
                    0 <= t < self.tables.len() && analysis_result(
                        #[trigger] self.tables@[t],
                        *df,
                        target@,
                        name_of(*weight),
                        Err(e),
                    ) && forall|u: int|
                        0 <= u < t ==> analysis_ok(
                            #[trigger] self.tables@[u],
                            *df,
                            target@,
                            name_of(*weight),
                        ),
            },
    {
        let mut all: Vec<Vec<usize>> = Vec::new();
        let mut t: usize = 0;
        while t < self.tables.len()
            invariant
                forall|u: int| 0 <= u < self.tables.len() ==> (#[trigger] self.tables@[u]).wf(),
                df.wf(),
                t <= self.tables.len(),
                all.len() == t,
                forall|u: int|
                    0 <= u < t ==> analysis_result(
                        #[trigger] self.tables@[u],
                        *df,
                        target@,
                        name_of(*weight),
                        Ok(all@[u]),
                    ),
            decreases self.tables.len() - t,
        {
            match self.tables[t].analysis_rows(df, target, weight) {
                Ok(rows) => {
                    all.push(rows);
                },
                Err(e) => {
                    proof {
                        assert forall|u: int| 0 <= u < t implies analysis_ok(
                            #[trigger] self.tables@[u],
                            *df,
                            target@,
                            name_of(*weight),
                        ) by {
                            assert(analysis_result(self.tables@[u], *df, target@, name_of(*weight), Ok(all@[u])));
                        }
                    }
                    return Err(e);
                },
            }
            t += 1;
        }
        Ok(all)
    }
}

// ---------------------------------------------------------------- analysis and scoring agree

/// Two feature sets agree on a name: both carry it, with the same value, or neither does.
pub open spec fn agree_on(f1: Map<Seq<char>, FeatureValue>, f2: Map<Seq<char>, FeatureValue>, n: Seq<char>) -> bool {
    &&& f1.contains_key(n) == f2.contains_key(n)
    &&& f1.contains_key(n) ==> f1[n] == f2[n]
}

/// Feature sets that agree on every column the table reads admit the same rows.
proof fn lemma_first_fit_agree(
    t: RatingTable,
    f1: Map<Seq<char>, FeatureValue>,
    f2: Map<Seq<char>, FeatureValue>,
    from: int,
    exact: bool,
)
    requires
        forall|j: int|
            0 <= j < t.numeric_columns.len() ==> agree_on(f1, f2, #[trigger] t.numeric_columns@[j].0@),
        forall|j: int|
            0 <= j < t.categorical_columns.len() ==> agree_on(
                f1,
                f2,
                #[trigger] t.categorical_columns@[j].0@,
            ),
    ensures
        first_fit(t, f1, from, exact) == first_fit(t, f2, from, exact),
    decreases t.data.height - from,
{
    if 0 <= from < t.data.height {
        assert forall|j: int| 0 <= j < t.categorical_columns.len() implies (#[trigger] cat_ok(t, f1, j, from)
            == cat_ok(t, f2, j, from) && cat_wild(t, f1, j, from) == cat_wild(t, f2, j, from)) by {
            assert(agree_on(f1, f2, t.categorical_columns@[j].0@));
        }
        assert forall|j: int| 0 <= j < t.numeric_columns.len() implies #[trigger] num_ok(t, f1, j, from)
            == num_ok(t, f2, j, from) by {
            assert(agree_on(f1, f2, t.numeric_columns@[j].0@));
        }
        assert(row_fits(t, f1, from) == row_fits(t, f2, from)) by {
            if row_fits(t, f1, from) {
                assert forall|j: int| 0 <= j < t.categorical_columns.len() implies #[trigger] cat_ok(t, f2, j, from) by {
                    assert(cat_ok(t, f1, j, from));
                }
                assert forall|j: int| 0 <= j < t.numeric_columns.len() implies #[trigger] num_ok(t, f2, j, from) by {
                    assert(num_ok(t, f1, j, from));
                }
            }
            if row_fits(t, f2, from) {
                assert forall|j: int| 0 <= j < t.categorical_columns.len() implies #[trigger] cat_ok(t, f1, j, from) by {
                    assert(cat_ok(t, f2, j, from));
                }
                assert forall|j: int| 0 <= j < t.numeric_columns.len() implies #[trigger] num_ok(t, f1, j, from) by {
                    assert(num_ok(t, f2, j, from));
                }
            }
        }
        assert(row_wild(t, f1, from) == row_wild(t, f2, from)) by {
            if row_wild(t, f1, from) {
                let j = choose|j: int| 0 <= j < t.categorical_columns.len() && #[trigger] cat_wild(t, f1, j, from);
                assert(cat_wild(t, f2, j, from));
            }
            if row_wild(t, f2, from) {
                let j = choose|j: int| 0 <= j < t.categorical_columns.len() && #[trigger] cat_wild(t, f2, j, from);
                assert(cat_wild(t, f1, j, from));
            }
        }
        lemma_first_fit_agree(t, f1, f2, from + 1, exact);
    }
}

/// Feature sets that agree on every column the table reads fall in the same row.
proof fn lemma_find_row_agree(t: RatingTable, f1: Map<Seq<char>, FeatureValue>, f2: Map<Seq<char>, FeatureValue>)
    requires
        forall|j: int|
            0 <= j < t.numeric_columns.len() ==> agree_on(f1, f2, #[trigger] t.numeric_columns@[j].0@),
        forall|j: int|
            0 <= j < t.categorical_columns.len() ==> agree_on(
                f1,
                f2,
                #[trigger] t.categorical_columns@[j].0@,
            ),
    ensures
        spec_find_row(t, f1) == spec_find_row(t, f2),
{
    assert(has_all_features(t, f1) == has_all_features(t, f2)) by {
        if has_all_features(t, f1) {
            assert forall|j: int| 0 <= j < t.numeric_columns.len() implies f2.contains_key(
                (#[trigger] t.numeric_columns@[j]).0@,
            ) by {
                assert(agree_on(f1, f2, t.numeric_columns@[j].0@));
            }
            assert forall|j: int| 0 <= j < t.categorical_columns.len() implies f2.contains_key(
                (#[trigger] t.categorical_columns@[j]).0@,
            ) by {
                assert(agree_on(f1, f2, t.categorical_columns@[j].0@));
            }
        }
        if has_all_features(t, f2) {
            assert forall|j: int| 0 <= j < t.numeric_columns.len() implies f1.contains_key(
                (#[trigger] t.numeric_columns@[j]).0@,
            ) by {
                assert(agree_on(f1, f2, t.numeric_columns@[j].0@));
            }
            assert forall|j: int| 0 <= j < t.categorical_columns.len() implies f1.contains_key(
                (#[trigger] t.categorical_columns@[j]).0@,
            ) by {
                assert(agree_on(f1, f2, t.categorical_columns@[j].0@));
            }
        }
    }
    lemma_first_fit_agree(t, f1, f2, 0, true);
    lemma_first_fit_agree(t, f1, f2, 0, false);
}

/// Where the row presents a value under every name, the observation holds that value
/// under each of them.
proof fn lemma_observation_at(req: Seq<(Seq<char>, Dtype)>, df: Frame, i: int, k: int)
    requires
        readable(req, df, i),
        0 <= k < req.len(),
    ensures
        observation(req, df, i).contains_key(req[k].0),
        observation(req, df, i)[req[k].0] == cell_at(df, req[k].0, i)->0,
    decreases req.len(),
{
    let last = req.len() - 1;
    assert(cell_at(df, req[last].0, i) is Some);
    if k < last && req[k].0 != req[last].0 {
        assert forall|m: int| 0 <= m < req.drop_last().len() implies (cell_at(
            df,
            #[trigger] req.drop_last()[m].0,
            i,
        ) is Some) by {
            assert(req.drop_last()[m] == req[m]);
        }
        lemma_observation_at(req.drop_last(), df, i, k);
        assert(req.drop_last()[k] == req[k]);
    }
}

/// Every column of a table but the factor column is among the features it presents.
proof fn lemma_in_column_features(cols: Seq<crate::frame::FrameColumn>, c: int)
    requires
        0 <= c < cols.len(),
        cols[c].name@ != factor_name(),
    ensures
        exists|k: int| 0 <= k < column_features(cols).len() && #[trigger] column_features(cols)[k].0 == cols[c].name@,
    decreases cols.len(),
{
    let last = cols.len() - 1;
    let rest = column_features(cols.drop_last());
    if c == last {
        assert(column_features(cols)[rest.len() as int].0 == cols[c].name@);
    } else {
        assert(cols.drop_last()[c] == cols[c]);
        lemma_in_column_features(cols.drop_last(), c);
        let k = choose|k: int| 0 <= k < rest.len() && #[trigger] rest[k].0 == cols[c].name@;
        assert(column_features(cols)[k] == rest[k]);
    }
}

/// Under a name the row presents a value for, the features scoring reads from the row
/// carry that value.
proof fn lemma_scoring_feature(df: Frame, n: Seq<char>, i: int)
    requires
        df.wf(),
        cell_at(df, n, i) is Some,
    ensures
        row_features(df.columns@, i).contains_key(n),
        row_features(df.columns@, i)[n] == cell_at(df, n, i)->0,
{
    let j = df.spec_index_of(n)->0;
    assert(df.columns@[j].name@ == n);
    lemma_row_feature(df.columns@, i, j);
}

/// The row one-way analysis assigns an observation is the row scoring reads its factor
/// from: wherever the observation presents a value for every column the table reads,
/// the table's own columns and the whole row of the frame fall in the same row, and the
/// factor scoring gives is that row's.
pub proof fn law_analysis_row_is_scoring_row(t: RatingTable, df: Frame, i: int)
    requires
        t.wf(),
        df.wf(),
        0 <= i < df.height,
        readable(column_features(t.data.columns@), df, i),
    ensures
        spec_find_row(t, observation(column_features(t.data.columns@), df, i)) == spec_find_row(
            t,
            row_features(df.columns@, i),
        ),
        spec_find_row(t, observation(column_features(t.data.columns@), df, i)) matches Some(r)
            ==> spec_predict(t, row_features(df.columns@, i)) == factor_at(t, r),
{
    let req = column_features(t.data.columns@);
    let f1 = observation(req, df, i);
    let f2 = row_features(df.columns@, i);
    t.lemma_wf();
    assert forall|n: Seq<char>| exists|k: int| 0 <= k < req.len() && #[trigger] req[k].0 == n implies agree_on(f1, f2, n) by {
        let k = choose|k: int| 0 <= k < req.len() && #[trigger] req[k].0 == n;
        lemma_observation_at(req, df, i, k);
        assert(cell_at(df, req[k].0, i) is Some);
        lemma_scoring_feature(df, n, i);
    }
    assert forall|j: int| 0 <= j < t.numeric_columns.len() implies agree_on(f1, f2, #[trigger] t.numeric_columns@[j].0@) by {
        let idx = t.numeric_columns@[j].1 as int;
        lemma_in_column_features(t.data.columns@, idx);
    }
    assert forall|j: int| 0 <= j < t.categorical_columns.len() implies agree_on(f1, f2, #[trigger] t.categorical_columns@[j].0@) by {
        let idx = t.categorical_columns@[j].1 as int;
        lemma_in_column_features(t.data.columns@, idx);
    }
    lemma_find_row_agree(t, f1, f2);
}

} // verus!
