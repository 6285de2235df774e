//! Rating tables, their metadata, and the first-match rule that reads them.
//!
//! A table is a frame whose feature columns constrain its rows: a floating-point
//! column holds inclusive upper bounds, a 32-bit integer column holds category codes
//! (with `-999` matching any level), and a null entry constrains nothing. An
//! observation falls in the first row it satisfies, except that a row matched
//! exactly displaces one matched only through a wildcard.
use crate::features::{cell_feature, FeatureValue, Features, WILDCARD};
use crate::frame::{
    is_selection, name_views, select_result, selectable, ColumnValues, Frame, FrameColumn,
    SelectError,
};
use crate::quantity::{spec_exceeds, spec_is_finite, Quantity};
use crate::text::{
    all_ascii, ascii_lowered, lemma_lowered_from, lemma_lowers_to, same_ignoring_ascii_case, spec_lowercase, text_is, to_lowercase,
};
use vstd::prelude::*;

verus! {

/// The largest polynomial degree a variate table may take.
pub const MAX_VARIATE_DEGREE: usize = 8;

/// The name of the column that carries a table's factors. It is never a feature.
pub open spec fn factor_name() -> Seq<char> {
    seq!['R', 'a', 't', 'i', 'n', 'g', '_', 'F', 'a', 'c', 't', 'o', 'r']
}

/// The factor column's name.
pub fn factor_column_name() -> (res: String)
    ensures
        res@ == factor_name(),
{
    let s = String::from_str("Rating_Factor");
    proof {
        reveal_strlit("Rating_Factor");
    }
    s
}

/// How many free parameters a table's rows represent.
#[derive(Debug, Clone)]
pub enum TableSemantics {
    /// Every row carries its own free factor.
    Step,
    /// The row factors are tied to a polynomial of the given degree in one value per
    /// row, so the table spends `degree` parameters whatever its row count.
    Variate { values: Vec<Quantity>, degree: usize },
}

/// What a table is, beyond its rows.
#[derive(Debug, Clone)]
pub struct TableMetadata {
    pub name: String,
    /// Held fixed: carried in every prediction, never updated by a fit.
    pub is_offset: bool,
    /// Whether a fit may update this table's factors.
    pub is_updatable: bool,
    pub semantics: TableSemantics,
}

impl TableMetadata {
    /// An unnamed, updatable step table.
    pub fn default() -> (res: TableMetadata)
        ensures
            res.name@ == Seq::<char>::empty(),
            !res.is_offset,
            res.is_updatable,
            res.semantics is Step,
    {
        TableMetadata {
            name: String::new(),
            is_offset: false,
            is_updatable: true,
            semantics: TableSemantics::Step,
        }
    }
}

/// What is known of one row, beyond its cells.
#[derive(Debug, Clone, Copy, PartialEq, Eq, Structural)]
pub struct RowMetadata {
    /// Locked: the fit leaves this row's factor where it is.
    pub is_offset: bool,
}

impl RowMetadata {
    /// An unlocked row.
    pub fn default() -> (res: RowMetadata)
        ensures
            !res.is_offset,
    {
        RowMetadata { is_offset: false }
    }
}

/// A column is read as a band bound when it is floating-point and not the factor column.
pub open spec fn is_numeric_feature(c: FrameColumn) -> bool {
    c.values is Float && c.name@ != factor_name()
}

/// A column is read as a category code when it is a 32-bit integer column and not the
/// factor column.
pub open spec fn is_categorical_feature(c: FrameColumn) -> bool {
    c.values is Int32 && c.name@ != factor_name()
}

/// Indices, in order, of the first `k` columns that are read as band bounds.
pub open spec fn numeric_indices(columns: Seq<FrameColumn>, k: int) -> Seq<int>
    decreases k,
{
    if k <= 0 {
        Seq::empty()
    } else if is_numeric_feature(columns[k - 1]) {
        numeric_indices(columns, k - 1).push(k - 1)
    } else {
        numeric_indices(columns, k - 1)
    }
}

/// Indices, in order, of the first `k` columns that are read as category codes.
pub open spec fn categorical_indices(columns: Seq<FrameColumn>, k: int) -> Seq<int>
    decreases k,
{
    if k <= 0 {
        Seq::empty()
    } else if is_categorical_feature(columns[k - 1]) {
        categorical_indices(columns, k - 1).push(k - 1)
    } else {
        categorical_indices(columns, k - 1)
    }
}

proof fn lemma_numeric_indices(columns: Seq<FrameColumn>, k: int)
    requires
        0 <= k <= columns.len(),
    ensures
        forall|j: int|
            0 <= j < numeric_indices(columns, k).len() ==> 0 <= #[trigger] numeric_indices(
                columns,
                k,
            )[j] < k && is_numeric_feature(columns[numeric_indices(columns, k)[j]]),
        forall|a: int, b: int|
            0 <= a < b < numeric_indices(columns, k).len() ==> numeric_indices(columns, k)[a]
                < numeric_indices(columns, k)[b],
    decreases k,
{
    if k > 0 {
        lemma_numeric_indices(columns, k - 1);
        let prev = numeric_indices(columns, k - 1);
        let cur = numeric_indices(columns, k);
        if is_numeric_feature(columns[k - 1]) {
            assert(cur == prev.push(k - 1));
            assert forall|j: int| 0 <= j < prev.len() implies cur[j] == prev[j] by {}
        } else {
            assert(cur == prev);
        }
    }
}

proof fn lemma_categorical_indices(columns: Seq<FrameColumn>, k: int)
    requires
        0 <= k <= columns.len(),
    ensures
        forall|j: int|
            0 <= j < categorical_indices(columns, k).len() ==> 0 <= #[trigger] categorical_indices(
                columns,
                k,
            )[j] < k && is_categorical_feature(columns[categorical_indices(columns, k)[j]]),
        forall|a: int, b: int|
            0 <= a < b < categorical_indices(columns, k).len() ==> categorical_indices(columns, k)[a]
                < categorical_indices(columns, k)[b],
    decreases k,
{
    if k > 0 {
        lemma_categorical_indices(columns, k - 1);
        let prev = categorical_indices(columns, k - 1);
        let cur = categorical_indices(columns, k);
        if is_categorical_feature(columns[k - 1]) {
            assert(cur == prev.push(k - 1));
            assert forall|j: int| 0 <= j < prev.len() implies cur[j] == prev[j] by {}
        } else {
            assert(cur == prev);
        }
    }
}

/// The relation between a frame and the feature columns a table reads from it.
pub open spec fn lists_columns(
    data: Frame,
    listed: Seq<(String, usize)>,
    indices: Seq<int>,
) -> bool {
    &&& listed.len() == indices.len()
    &&& forall|j: int|
        0 <= j < listed.len() ==> (#[trigger] listed[j]).1 as int == indices[j] && listed[j].0@
            == data.columns[indices[j]].name@
}

/// A table whose column lists describe its frame.
#[derive(Debug, Clone)]
pub struct RatingTable {
    pub data: Frame,
    /// Band-bound columns: name and position in `data`.
    pub numeric_columns: Vec<(String, usize)>,
    /// Category-code columns: name and position in `data`.
    pub categorical_columns: Vec<(String, usize)>,
    pub metadata: TableMetadata,
    /// Per-row locks, created on first use.
    pub row_metadata: Option<Vec<RowMetadata>>,
}

// ---------------------------------------------------------------- the first-match rule

/// The category code a feature set offers for a column name, if it offers one.
pub open spec fn cat_input(f: Map<Seq<char>, FeatureValue>, name: Seq<char>) -> Option<i32> {
    if f.contains_key(name) {
        match f[name] {
            FeatureValue::Categorical(c) => Some(c),
            FeatureValue::Numeric(_) => None,
        }
    } else {
        None
    }
}

/// The number a feature set offers for a column name, if it offers one.
pub open spec fn num_input(f: Map<Seq<char>, FeatureValue>, name: Seq<char>) -> Option<Quantity> {
    if f.contains_key(name) {
        match f[name] {
            FeatureValue::Numeric(q) => Some(q),
            FeatureValue::Categorical(_) => None,
        }
    } else {
        None
    }
}

/// The code in row `r` of the column at `idx`, if it is a code column and not null.
pub open spec fn cat_cell(t: RatingTable, idx: int, r: int) -> Option<i32> {
    match t.data.columns[idx].values {
        ColumnValues::Int32(v) => v[r],
        _ => None,
    }
}

/// The bound in row `r` of the column at `idx`, if it is a bound column and not null.
pub open spec fn num_cell(t: RatingTable, idx: int, r: int) -> Option<Quantity> {
    match t.data.columns[idx].values {
        ColumnValues::Float(v) => v[r],
        _ => None,
    }
}

/// Whether category column `j` of the table lets row `r` stand.
pub open spec fn cat_ok(t: RatingTable, f: Map<Seq<char>, FeatureValue>, j: int, r: int) -> bool {
    match (
        cat_input(f, t.categorical_columns@[j].0@),
        cat_cell(t, t.categorical_columns@[j].1 as int, r),
    ) {
        (Some(x), Some(c)) => c == WILDCARD || c == x,
        _ => true,
    }
}

/// Whether category column `j` of the table matches row `r` only through its wildcard.
pub open spec fn cat_wild(t: RatingTable, f: Map<Seq<char>, FeatureValue>, j: int, r: int) -> bool {
    cat_input(f, t.categorical_columns@[j].0@) is Some && cat_cell(
        t,
        t.categorical_columns@[j].1 as int,
        r,
    ) == Some(WILDCARD)
}

/// Whether bound column `j` of the table lets row `r` stand: the value is not above the
/// row's bound.
pub open spec fn num_ok(t: RatingTable, f: Map<Seq<char>, FeatureValue>, j: int, r: int) -> bool {
    match (num_input(f, t.numeric_columns@[j].0@), num_cell(t, t.numeric_columns@[j].1 as int, r)) {
        (Some(v), Some(b)) => !spec_exceeds(v, b),
        _ => true,
    }
}

/// Whether row `r` admits the features.
pub open spec fn row_fits(t: RatingTable, f: Map<Seq<char>, FeatureValue>, r: int) -> bool {
    &&& forall|j: int| 0 <= j < t.categorical_columns.len() ==> #[trigger] cat_ok(t, f, j, r)
    &&& forall|j: int| 0 <= j < t.numeric_columns.len() ==> #[trigger] num_ok(t, f, j, r)
}

/// Whether row `r` admits the features only through a wildcard code.
pub open spec fn row_wild(t: RatingTable, f: Map<Seq<char>, FeatureValue>, r: int) -> bool {
    exists|j: int| 0 <= j < t.categorical_columns.len() && #[trigger] cat_wild(t, f, j, r)
}

/// Whether the features name every column the table reads.
pub open spec fn has_all_features(t: RatingTable, f: Map<Seq<char>, FeatureValue>) -> bool {
    &&& forall|j: int|
        0 <= j < t.numeric_columns.len() ==> f.contains_key(
            (#[trigger] t.numeric_columns@[j]).0@,
        )
    &&& forall|j: int|
        0 <= j < t.categorical_columns.len() ==> f.contains_key(
            (#[trigger] t.categorical_columns@[j]).0@,
        )
}

/// The first row from `from` on that admits the features, counting only rows matched
/// without a wildcard when `exact` is set.
pub open spec fn first_fit(t: RatingTable, f: Map<Seq<char>, FeatureValue>, from: int, exact: bool) -> Option<
    int,
>
    decreases t.data.height - from,
{
    if from < 0 || from >= t.data.height {
        None
    } else if row_fits(t, f, from) && (!exact || !row_wild(t, f, from)) {
        Some(from)
    } else {
        first_fit(t, f, from + 1, exact)
    }
}

/// The row a table gives these features: the first row matched exactly, or failing
/// that the first row matched at all. Nothing when a feature the table reads is
/// missing.
pub open spec fn spec_find_row(t: RatingTable, f: Map<Seq<char>, FeatureValue>) -> Option<int> {
    if !has_all_features(t, f) {
        None
    } else {
        match first_fit(t, f, 0, true) {
            Some(r) => Some(r),
            None => first_fit(t, f, 0, false),
        }
    }
}

/// `first_fit` is the least qualifying row at or after `from`.
pub proof fn lemma_first_fit(t: RatingTable, f: Map<Seq<char>, FeatureValue>, from: int, exact: bool)
    requires
        0 <= from,
    ensures
        match first_fit(t, f, from, exact) {
            Some(r) => {
                &&& from <= r < t.data.height
                &&& row_fits(t, f, r)
                &&& (!exact || !row_wild(t, f, r))
                &&& forall|k: int|
                    from <= k < r ==> !(row_fits(t, f, k) && (!exact || !row_wild(t, f, k)))
            },
            None => forall|k: int|
                from <= k < t.data.height ==> !(row_fits(t, f, k) && (!exact || !row_wild(
                    t,
                    f,
                    k,
                ))),
        },
    decreases t.data.height - from,
{
    if from < t.data.height {
        lemma_first_fit(t, f, from + 1, exact);
    }
}

/// A least qualifying row is what `first_fit` finds.
pub proof fn lemma_first_fit_is(t: RatingTable, f: Map<Seq<char>, FeatureValue>, exact: bool, r: int)
    requires
        0 <= r < t.data.height,
        row_fits(t, f, r) && (!exact || !row_wild(t, f, r)),
        forall|k: int| 0 <= k < r ==> !(row_fits(t, f, k) && (!exact || !row_wild(t, f, k))),
    ensures
        first_fit(t, f, 0, exact) == Some(r),
{
    lemma_first_fit(t, f, 0, exact);
}

/// No row qualifies, so `first_fit` finds nothing.
pub proof fn lemma_first_fit_none(t: RatingTable, f: Map<Seq<char>, FeatureValue>, exact: bool)
    requires
        forall|k: int|
            0 <= k < t.data.height ==> !(row_fits(t, f, k) && (!exact || !row_wild(t, f, k))),
    ensures
        first_fit(t, f, 0, exact) is None,
{
    lemma_first_fit(t, f, 0, exact);
}

/// The same row as an index, or nothing.
pub open spec fn same_row(res: Option<usize>, spec: Option<int>) -> bool {
    match (res, spec) {
        (Some(a), Some(b)) => a as int == b,
        (None, None) => true,
        _ => false,
    }
}

impl RatingTable {
    /// The column lists describe the frame, and per-row locks cover every row.
    pub open spec fn wf(&self) -> bool {
        &&& self.data.wf()
        &&& lists_columns(
            self.data,
            self.numeric_columns@,
            numeric_indices(self.data.columns@, self.data.columns.len() as int),
        )
        &&& lists_columns(
            self.data,
            self.categorical_columns@,
            categorical_indices(self.data.columns@, self.data.columns.len() as int),
        )
        &&& (self.row_metadata matches Some(m) ==> m.len() == self.data.height)
    }

    /// What `wf` gives about the listed columns, one fact at a time.
    pub proof fn lemma_wf(&self)
        requires
            self.wf(),
        ensures
            forall|j: int|
                0 <= j < self.numeric_columns.len() ==> {
                    let idx = (#[trigger] self.numeric_columns@[j]).1 as int;
                    &&& 0 <= idx < self.data.columns.len()
                    &&& self.data.columns@[idx].values is Float
                    &&& self.data.columns@[idx].name@ == self.numeric_columns@[j].0@
                    &&& self.numeric_columns@[j].0@ != factor_name()
                },
            forall|j: int|
                0 <= j < self.categorical_columns.len() ==> {
                    let idx = (#[trigger] self.categorical_columns@[j]).1 as int;
                    &&& 0 <= idx < self.data.columns.len()
                    &&& self.data.columns@[idx].values is Int32
                    &&& self.data.columns@[idx].name@ == self.categorical_columns@[j].0@
                    &&& self.categorical_columns@[j].0@ != factor_name()
                },
            forall|a: int, b: int|
                0 <= a < self.numeric_columns.len() && 0 <= b < self.numeric_columns.len() && a
                    != b ==> self.numeric_columns@[a].0@ != self.numeric_columns@[b].0@,
            forall|a: int, b: int|
                0 <= a < self.categorical_columns.len() && 0 <= b < self.categorical_columns.len()
                    && a != b ==> self.categorical_columns@[a].0@ != self.categorical_columns@[b].0@,
            forall|a: int, b: int|
                0 <= a < self.numeric_columns.len() && 0 <= b < self.categorical_columns.len()
                    ==> self.numeric_columns@[a].0@ != self.categorical_columns@[b].0@,
    {
        let cols = self.data.columns@;
        let n = cols.len() as int;
        lemma_numeric_indices(cols, n);
        lemma_categorical_indices(cols, n);
        let ni = numeric_indices(cols, n);
        let ci = categorical_indices(cols, n);
        assert forall|a: int, b: int|
            0 <= a < self.numeric_columns.len() && 0 <= b < self.numeric_columns.len() && a
                != b implies self.numeric_columns@[a].0@ != self.numeric_columns@[b].0@ by {
            assert(self.numeric_columns@[a].1 as int == ni[a]);
            assert(self.numeric_columns@[b].1 as int == ni[b]);
            if a < b {
                assert(ni[a] < ni[b]);
            } else {
                assert(ni[b] < ni[a]);
            }
            assert(cols[ni[a]].name@ != cols[ni[b]].name@);
        }
        assert forall|a: int, b: int|
            0 <= a < self.categorical_columns.len() && 0 <= b < self.categorical_columns.len() && a
                != b implies self.categorical_columns@[a].0@ != self.categorical_columns@[b].0@ by {
            assert(self.categorical_columns@[a].1 as int == ci[a]);
            assert(self.categorical_columns@[b].1 as int == ci[b]);
            if a < b {
                assert(ci[a] < ci[b]);
            } else {
                assert(ci[b] < ci[a]);
            }
            assert(cols[ci[a]].name@ != cols[ci[b]].name@);
        }
        assert forall|a: int, b: int|
            0 <= a < self.numeric_columns.len() && 0 <= b < self.categorical_columns.len()
                implies self.numeric_columns@[a].0@ != self.categorical_columns@[b].0@ by {
            assert(self.numeric_columns@[a].1 as int == ni[a]);
            assert(self.categorical_columns@[b].1 as int == ci[b]);
            assert(is_numeric_feature(cols[ni[a]]));
            assert(is_categorical_feature(cols[ci[b]]));
            assert(ni[a] != ci[b]);
            assert(cols[ni[a]].name@ != cols[ci[b]].name@);
        }
        assert forall|j: int| 0 <= j < self.numeric_columns.len() implies {
            let idx = (#[trigger] self.numeric_columns@[j]).1 as int;
            &&& 0 <= idx < self.data.columns.len()
            &&& self.data.columns@[idx].values is Float
            &&& self.data.columns@[idx].name@ == self.numeric_columns@[j].0@
            &&& self.numeric_columns@[j].0@ != factor_name()
        } by {
            assert(self.numeric_columns@[j].1 as int == ni[j]);
            assert(is_numeric_feature(cols[ni[j]]));
        }
        assert forall|j: int| 0 <= j < self.categorical_columns.len() implies {
            let idx = (#[trigger] self.categorical_columns@[j]).1 as int;
            &&& 0 <= idx < self.data.columns.len()
            &&& self.data.columns@[idx].values is Int32
            &&& self.data.columns@[idx].name@ == self.categorical_columns@[j].0@
            &&& self.categorical_columns@[j].0@ != factor_name()
        } by {
            assert(self.categorical_columns@[j].1 as int == ci[j]);
            assert(is_categorical_feature(cols[ci[j]]));
        }
    }

    /// A table over `data`: its floating-point columns are band bounds and its 32-bit
    /// integer columns are category codes, the factor column aside. Columns of any
    /// other dtype are kept but constrain nothing.
    pub fn new(data: Frame) -> (res: RatingTable)
        requires
            data.wf(),
        ensures
            res.wf(),
            res.data == data,
            res.metadata.name@ == Seq::<char>::empty(),
            !res.metadata.is_offset,
            res.metadata.is_updatable,
            res.metadata.semantics is Step,
            res.row_metadata is None,
    {
        let factor = factor_column_name();
        let mut numeric_columns: Vec<(String, usize)> = Vec::new();
        let mut categorical_columns: Vec<(String, usize)> = Vec::new();
        let mut idx: usize = 0;
        while idx < data.columns.len()
            invariant
                factor@ == factor_name(),
                idx <= data.columns.len(),
                lists_columns(data, numeric_columns@, numeric_indices(data.columns@, idx as int)),
                lists_columns(
                    data,
                    categorical_columns@,
                    categorical_indices(data.columns@, idx as int),
                ),
            decreases data.columns.len() - idx,
        {
            let column = &data.columns[idx];
            if column.name != factor {
                match &column.values {
                    ColumnValues::Float(_) => {
                        numeric_columns.push((column.name.clone(), idx));
                    },
                    ColumnValues::Int32(_) => {
                        categorical_columns.push((column.name.clone(), idx));
                    },
                    _ => {},
                }
            }
            idx += 1;
        }
        RatingTable {
            data,
            numeric_columns,
            categorical_columns,
            metadata: TableMetadata::default(),
            row_metadata: None,
        }
    }

    /// Band-bound columns, by name and position.
    pub fn get_numeric_columns(&self) -> (res: &Vec<(String, usize)>)
        ensures
            res == &self.numeric_columns,
    {
        &self.numeric_columns
    }

    /// Category-code columns, by name and position.
    pub fn get_categorical_columns(&self) -> (res: &Vec<(String, usize)>)
        ensures
            res == &self.categorical_columns,
    {
        &self.categorical_columns
    }

    /// Whether the features name every column this table reads.
    fn has_all_required_features(&self, feature_values: &Features) -> (res: bool)
        ensures
            res == has_all_features(*self, feature_values@),
    {
        let mut j: usize = 0;
        while j < self.numeric_columns.len()
            invariant
                j <= self.numeric_columns.len(),
                forall|k: int|
                    0 <= k < j ==> feature_values@.contains_key(
                        (#[trigger] self.numeric_columns@[k]).0@,
                    ),
            decreases self.numeric_columns.len() - j,
        {
            if !feature_values.contains_key(&self.numeric_columns[j].0) {
                return false;
            }
            j += 1;
        }
        let mut j: usize = 0;
        while j < self.categorical_columns.len()
            invariant
                j <= self.categorical_columns.len(),
                forall|k: int|
                    0 <= k < j ==> feature_values@.contains_key(
                        (#[trigger] self.categorical_columns@[k]).0@,
                    ),
            decreases self.categorical_columns.len() - j,
        {
            if !feature_values.contains_key(&self.categorical_columns[j].0) {
                return false;
            }
            j += 1;
        }
        true
    }

    /// Whether row `r` admits the features, and whether only through a wildcard.
    fn check_row(
        &self,
        categorical_inputs: &Vec<Option<i32>>,
        numeric_inputs: &Vec<Option<Quantity>>,
        r: usize,
        Ghost(f): Ghost<Map<Seq<char>, FeatureValue>>,
    ) -> (res: (bool, bool))
        requires
            self.wf(),
            r < self.data.height,
            categorical_inputs.len() == self.categorical_columns.len(),
            numeric_inputs.len() == self.numeric_columns.len(),
            forall|j: int|
                0 <= j < categorical_inputs.len() ==> #[trigger] categorical_inputs@[j]
                    == cat_input(f, self.categorical_columns@[j].0@),
            forall|j: int|
                0 <= j < numeric_inputs.len() ==> #[trigger] numeric_inputs@[j] == num_input(
                    f,
                    self.numeric_columns@[j].0@,
                ),
        ensures
            res.0 == row_fits(*self, f, r as int),
            res.0 ==> res.1 == row_wild(*self, f, r as int),
    {
        proof {
            self.lemma_wf();
        }
        let mut wild = false;
        let mut j: usize = 0;
        while j < categorical_inputs.len()
            invariant
                self.wf(),
                r < self.data.height,
                categorical_inputs.len() == self.categorical_columns.len(),
                forall|k: int|
                    0 <= k < categorical_inputs.len() ==> #[trigger] categorical_inputs@[k]
                        == cat_input(f, self.categorical_columns@[k].0@),
                forall|k: int|
                    0 <= k < self.categorical_columns.len() ==> {
                        let idx = (#[trigger] self.categorical_columns@[k]).1 as int;
                        &&& 0 <= idx < self.data.columns.len()
                        &&& self.data.columns@[idx].values is Int32
                    },
                j <= categorical_inputs.len(),
                forall|k: int| 0 <= k < j ==> #[trigger] cat_ok(*self, f, k, r as int),
                wild == exists|k: int| 0 <= k < j && #[trigger] cat_wild(*self, f, k, r as int),
            decreases categorical_inputs.len() - j,
        {
            if let Some(input) = categorical_inputs[j] {
                let idx = self.categorical_columns[j].1;
                assert(self.data.columns@[idx as int].values.spec_len() == self.data.height);
                let cell = match &self.data.columns[idx].values {
                    ColumnValues::Int32(v) => v[r],
                    _ => None,
                };
                if let Some(code) = cell {
                    if code != WILDCARD && code != input {
                        assert(!cat_ok(*self, f, j as int, r as int));
                        return (false, false);
                    }
                    if code == WILDCARD {
                        assert(cat_wild(*self, f, j as int, r as int));
                        wild = true;
                    } else {
                        assert(!cat_wild(*self, f, j as int, r as int));
                    }
                } else {
                    assert(!cat_wild(*self, f, j as int, r as int));
                }
            } else {
                assert(!cat_wild(*self, f, j as int, r as int));
            }
            assert(cat_ok(*self, f, j as int, r as int));
            j += 1;
        }
        let mut j: usize = 0;
        while j < numeric_inputs.len()
            invariant
                self.wf(),
                r < self.data.height,
                numeric_inputs.len() == self.numeric_columns.len(),
                forall|k: int|
                    0 <= k < numeric_inputs.len() ==> #[trigger] numeric_inputs@[k] == num_input(
                        f,
                        self.numeric_columns@[k].0@,
                    ),
                forall|k: int|
                    0 <= k < self.numeric_columns.len() ==> {
                        let idx = (#[trigger] self.numeric_columns@[k]).1 as int;
                        &&& 0 <= idx < self.data.columns.len()
                        &&& self.data.columns@[idx].values is Float
                    },
                j <= numeric_inputs.len(),
                forall|k: int| 0 <= k < j ==> #[trigger] num_ok(*self, f, k, r as int),
            decreases numeric_inputs.len() - j,
        {
            if let Some(input) = numeric_inputs[j] {
                let idx = self.numeric_columns[j].1;
                assert(self.data.columns@[idx as int].values.spec_len() == self.data.height);
                let cell = match &self.data.columns[idx].values {
                    ColumnValues::Float(v) => v[r],
                    _ => None,
                };
                if let Some(bound) = cell {
                    if input.exceeds(&bound) {
                        assert(!num_ok(*self, f, j as int, r as int));
                        return (false, false);
                    }
                }
            }
            assert(num_ok(*self, f, j as int, r as int));
            j += 1;
        }
        (true, wild)
    }

    /// The row these features fall in: the first row matched without a wildcard, or
    /// failing that the first row matched at all. `None` when a feature the table
    /// reads is missing, or when no row admits them.
    pub fn find_row_match(&self, feature_values: &Features) -> (res: Option<usize>)
        requires
            self.wf(),
        ensures
            same_row(res, spec_find_row(*self, feature_values@)),
    {
        let ghost f = feature_values@;
        if !self.has_all_required_features(feature_values) {
            return None;
        }
        let mut categorical_inputs: Vec<Option<i32>> = Vec::new();
        let mut j: usize = 0;
        while j < self.categorical_columns.len()
            invariant
                f == feature_values@,
                j <= self.categorical_columns.len(),
                categorical_inputs.len() == j,
                forall|k: int|
                    0 <= k < j ==> #[trigger] categorical_inputs@[k] == cat_input(
                        f,
                        self.categorical_columns@[k].0@,
                    ),
            decreases self.categorical_columns.len() - j,
        {
            match feature_values.get(&self.categorical_columns[j].0) {
                Some(FeatureValue::Categorical(c)) => categorical_inputs.push(Some(c)),
                _ => categorical_inputs.push(None),
            }
            j += 1;
        }
        let mut numeric_inputs: Vec<Option<Quantity>> = Vec::new();
        let mut j: usize = 0;
        while j < self.numeric_columns.len()
            invariant
                f == feature_values@,
                j <= self.numeric_columns.len(),
                numeric_inputs.len() == j,
                forall|k: int|
                    0 <= k < j ==> #[trigger] numeric_inputs@[k] == num_input(
                        f,
                        self.numeric_columns@[k].0@,
                    ),
            decreases self.numeric_columns.len() - j,
        {
            match feature_values.get(&self.numeric_columns[j].0) {
                Some(FeatureValue::Numeric(q)) => numeric_inputs.push(Some(q)),
                _ => numeric_inputs.push(None),
            }
            j += 1;
        }
        self.first_match_with_inputs(&categorical_inputs, &numeric_inputs, Ghost(f))
    }

    /// The first-match rule, once the features the table reads have been looked up.
    pub(crate) fn first_match_with_inputs(
        &self,
        categorical_inputs: &Vec<Option<i32>>,
        numeric_inputs: &Vec<Option<Quantity>>,
        Ghost(f): Ghost<Map<Seq<char>, FeatureValue>>,
    ) -> (res: Option<usize>)
        requires
            self.wf(),
            has_all_features(*self, f),
            categorical_inputs.len() == self.categorical_columns.len(),
            numeric_inputs.len() == self.numeric_columns.len(),
            forall|k: int|
                0 <= k < categorical_inputs.len() ==> #[trigger] categorical_inputs@[k]
                    == cat_input(f, self.categorical_columns@[k].0@),
            forall|k: int|
                0 <= k < numeric_inputs.len() ==> #[trigger] numeric_inputs@[k] == num_input(
                    f,
                    self.numeric_columns@[k].0@,
                ),
        ensures
            same_row(res, spec_find_row(*self, f)),
    {
        let mut best: Option<usize> = None;
        let mut used_wildcard = false;
        let mut i: usize = 0;
        while i < self.data.height
            invariant
                self.wf(),
                categorical_inputs.len() == self.categorical_columns.len(),
                numeric_inputs.len() == self.numeric_columns.len(),
                forall|k: int|
                    0 <= k < categorical_inputs.len() ==> #[trigger] categorical_inputs@[k]
                        == cat_input(f, self.categorical_columns@[k].0@),
                forall|k: int|
                    0 <= k < numeric_inputs.len() ==> #[trigger] numeric_inputs@[k] == num_input(
                        f,
                        self.numeric_columns@[k].0@,
                    ),
                i <= self.data.height,
                best is None ==> forall|k: int| 0 <= k < i ==> !row_fits(*self, f, k),
                best matches Some(b) ==> {
                    &&& b < i
                    &&& row_fits(*self, f, b as int)
                    &&& used_wildcard == row_wild(*self, f, b as int)
                    &&& !used_wildcard ==> forall|k: int|
                        0 <= k < b ==> !(row_fits(*self, f, k) && !row_wild(*self, f, k))
                    &&& used_wildcard ==> forall|k: int|
                        0 <= k < i ==> !(row_fits(*self, f, k) && !row_wild(*self, f, k))
                    &&& used_wildcard ==> forall|k: int| 0 <= k < b ==> !row_fits(*self, f, k)
                },
            decreases self.data.height - i,
        {
            let (fits, wild) = self.check_row(&categorical_inputs, &numeric_inputs, i, Ghost(f));
            if fits && (best.is_none() || (used_wildcard && !wild)) {
                best = Some(i);
                used_wildcard = wild;
            }
            i += 1;
        }
        proof {
            match best {
                Some(b) => {
                    if used_wildcard {
                        lemma_first_fit_none(*self, f, true);
                        lemma_first_fit_is(*self, f, false, b as int);
                    } else {
                        lemma_first_fit_is(*self, f, true, b as int);
                    }
                },
                None => {
                    lemma_first_fit_none(*self, f, true);
                    lemma_first_fit_none(*self, f, false);
                },
            }
        }
        best
    }
}

/// The dtype a column has, as the library sorts dtypes.
#[derive(Debug, Clone, Copy, PartialEq, Eq, Structural)]
pub enum Dtype {
    Float64,
    Int32,
    Int64,
    Boolean,
    String,
    OtherNumeric,
    Other,
}

/// A column's dtype.
pub open spec fn spec_dtype(values: ColumnValues) -> Dtype {
    match values {
        ColumnValues::Float(_) => Dtype::Float64,
        ColumnValues::Int32(_) => Dtype::Int32,
        ColumnValues::Int64(_) => Dtype::Int64,
        ColumnValues::Bool(_) => Dtype::Boolean,
        ColumnValues::Text(_) => Dtype::String,
        ColumnValues::OtherNumeric(_) => Dtype::OtherNumeric,
        ColumnValues::Other(_) => Dtype::Other,
    }
}

/// A column's dtype.
pub fn dtype_of(values: &ColumnValues) -> (res: Dtype)
    ensures
        res == spec_dtype(*values),
{
    match values {
        ColumnValues::Float(_) => Dtype::Float64,
        ColumnValues::Int32(_) => Dtype::Int32,
        ColumnValues::Int64(_) => Dtype::Int64,
        ColumnValues::Bool(_) => Dtype::Boolean,
        ColumnValues::Text(_) => Dtype::String,
        ColumnValues::OtherNumeric(_) => Dtype::OtherNumeric,
        ColumnValues::Other(_) => Dtype::Other,
    }
}

/// Number of distinct values in a sequence.
pub open spec fn distinct_count(s: Seq<Quantity>) -> nat
    decreases s.len(),
{
    if s.len() == 0 {
        0
    } else {
        distinct_count(s.drop_last()) + if s.drop_last().contains(s.last()) {
            0nat
        } else {
            1nat
        }
    }
}

/// Why a table cannot become a variate.
#[derive(Debug, Clone, PartialEq, Eq)]
pub enum VariateError {
    /// One value per row is needed.
    WrongLength { values: usize, rows: usize },
    /// The value for this row is undefined or infinite.
    NotFinite { row: usize },
    /// Degree zero is a constant, which the intercept already carries.
    DegreeZero,
    /// The degree is above [`MAX_VARIATE_DEGREE`].
    DegreeTooHigh { degree: usize },
    /// Every value is the same, so there is nothing to fit a curve through.
    NoVariation,
    /// The values take only `distinct` distinct values, too few for this degree.
    DegreeNotIdentified { degree: usize, distinct: usize },
    /// A row is locked; a curve cannot honour a single pinned factor.
    LockedRows,
}

/// What turning `before` into a variate over `values` of this degree gives: the same
/// table with its factors tied to the polynomial, or the first reason it cannot be.
pub open spec fn variate_result(before: RatingTable, values: Vec<Quantity>, degree: usize, res: Result<RatingTable, VariateError>) -> bool {
    match res {
        Ok(t) => {
            &&& values.len() == before.data.height
            &&& forall|r: int| 0 <= r < values.len() ==> spec_is_finite(#[trigger] values@[r])
            &&& 1 <= degree <= MAX_VARIATE_DEGREE
            &&& distinct_count(values@) > degree
            &&& forall|r: int| 0 <= r < before.data.height ==> !#[trigger] before.spec_is_row_offset(r)
            &&& t.metadata.semantics == TableSemantics::Variate { values, degree }
            &&& t.data == before.data
            &&& t.numeric_columns == before.numeric_columns
            &&& t.categorical_columns == before.categorical_columns
            &&& t.row_metadata == before.row_metadata
            &&& t.metadata.name == before.metadata.name
            &&& t.metadata.is_offset == before.metadata.is_offset
            &&& t.metadata.is_updatable == before.metadata.is_updatable
        },
        Err(VariateError::WrongLength { values: n, rows }) => n == values.len() && rows
            == before.data.height && n != rows,
        Err(VariateError::NotFinite { row }) => {
            &&& values.len() == before.data.height
            &&& row < values.len()
            &&& !spec_is_finite(values@[row as int])
            &&& forall|r: int| 0 <= r < row ==> spec_is_finite(#[trigger] values@[r])
        },
        Err(VariateError::DegreeZero) => {
            &&& values.len() == before.data.height
            &&& forall|r: int| 0 <= r < values.len() ==> spec_is_finite(#[trigger] values@[r])
            &&& degree == 0
        },
        Err(VariateError::DegreeTooHigh { degree: d }) => {
            &&& values.len() == before.data.height
            &&& forall|r: int| 0 <= r < values.len() ==> spec_is_finite(#[trigger] values@[r])
            &&& d == degree
            &&& degree > MAX_VARIATE_DEGREE
        },
        Err(VariateError::NoVariation) => {
            &&& values.len() == before.data.height
            &&& forall|r: int| 0 <= r < values.len() ==> spec_is_finite(#[trigger] values@[r])
            &&& 1 <= degree <= MAX_VARIATE_DEGREE
            &&& distinct_count(values@) == 1
        },
        Err(VariateError::DegreeNotIdentified { degree: d, distinct }) => {
            &&& values.len() == before.data.height
            &&& forall|r: int| 0 <= r < values.len() ==> spec_is_finite(#[trigger] values@[r])
            &&& 1 <= degree <= MAX_VARIATE_DEGREE
            &&& d == degree
            &&& distinct == distinct_count(values@)
            &&& distinct != 1
            &&& distinct <= degree
        },
        Err(VariateError::LockedRows) => {
            &&& values.len() == before.data.height
            &&& forall|r: int| 0 <= r < values.len() ==> spec_is_finite(#[trigger] values@[r])
            &&& 1 <= degree <= MAX_VARIATE_DEGREE
            &&& distinct_count(values@) > degree
            &&& exists|r: int| 0 <= r < before.data.height && #[trigger] before.spec_is_row_offset(r)
        },
    }
}

impl RatingTable {
    /// The name and dtype of every column except the factor column.
    pub fn get_feature_info(&self) -> (res: Vec<(String, Dtype)>)
        requires
            self.wf(),
        ensures
            forall|j: int|
                0 <= j < res.len() ==> exists|c: int|
                    0 <= c < self.data.columns.len() && (#[trigger] res@[j]).0@ == (#[trigger] self.data.columns@[c]).name@
                        && res@[j].1 == spec_dtype(self.data.columns@[c].values)
                        && self.data.columns@[c].name@ != factor_name(),
            forall|c: int|
                0 <= c < self.data.columns.len() && #[trigger] self.data.columns@[c].name@
                    != factor_name() ==> exists|j: int|
                    0 <= j < res.len() && res@[j].0@ == self.data.columns@[c].name@ && res@[j].1
                        == spec_dtype(self.data.columns@[c].values),
    {
        let factor = factor_column_name();
        let mut out: Vec<(String, Dtype)> = Vec::new();
        let mut c: usize = 0;
        while c < self.data.columns.len()
            invariant
                factor@ == factor_name(),
                c <= self.data.columns.len(),
                forall|j: int|
                    0 <= j < out.len() ==> exists|k: int|
                        0 <= k < self.data.columns.len() && (#[trigger] out@[j]).0@
                            == (#[trigger] self.data.columns@[k]).name@ && out@[j].1 == spec_dtype(
                            self.data.columns@[k].values,
                        ) && self.data.columns@[k].name@ != factor_name(),
                forall|k: int|
                    0 <= k < c && #[trigger] self.data.columns@[k].name@ != factor_name()
                        ==> exists|j: int|
                        0 <= j < out.len() && out@[j].0@ == self.data.columns@[k].name@
                            && out@[j].1 == spec_dtype(self.data.columns@[k].values),
            decreases self.data.columns.len() - c,
        {
            let column = &self.data.columns[c];
            let ghost before = out@;
            if column.name != factor {
                let d = dtype_of(&column.values);
                out.push((column.name.clone(), d));
                proof {
                    let last = out.len() - 1;
                    assert(out@[last].0@ == self.data.columns@[c as int].name@);
                    assert forall|j: int| 0 <= j < out.len() implies exists|k: int|
                        0 <= k < self.data.columns.len() && (#[trigger] out@[j]).0@
                            == (#[trigger] self.data.columns@[k]).name@ && out@[j].1 == spec_dtype(
                            self.data.columns@[k].values,
                        ) && self.data.columns@[k].name@ != factor_name() by {
                        if j < last {
                            assert(out@[j] == before[j]);
                        } else {
                            assert(out@[j].0@ == self.data.columns@[c as int].name@);
                        }
                    }
                    assert forall|k: int|
                        0 <= k < c + 1 && #[trigger] self.data.columns@[k].name@ != factor_name()
                            implies exists|j: int|
                        0 <= j < out.len() && out@[j].0@ == self.data.columns@[k].name@
                            && out@[j].1 == spec_dtype(self.data.columns@[k].values) by {
                        if k < c {
                            let j = choose|j: int|
                                0 <= j < before.len() && before[j].0@ == self.data.columns@[k].name@
                                    && before[j].1 == spec_dtype(self.data.columns@[k].values);
                            assert(out@[j] == before[j]);
                        } else {
                            assert(out@[last].0@ == self.data.columns@[k].name@);
                        }
                    }
                }
            }
            c += 1;
        }
        out
    }

    /// Marks the whole table as held fixed: carried in every prediction, never updated.
    pub fn as_offset(self) -> (res: RatingTable)
        ensures
            res.metadata.is_offset,
            !res.metadata.is_updatable,
            res.data == self.data,
            res.numeric_columns == self.numeric_columns,
            res.categorical_columns == self.categorical_columns,
            res.row_metadata == self.row_metadata,
            res.metadata.name == self.metadata.name,
            res.metadata.semantics == self.metadata.semantics,
    {
        let mut t = self;
        t.metadata.is_offset = true;
        t.metadata.is_updatable = false;
        t
    }

    /// Whether row `row_idx` is locked.
    pub open spec fn spec_is_row_offset(&self, row_idx: int) -> bool {
        match self.row_metadata {
            Some(m) => 0 <= row_idx < m.len() && m@[row_idx].is_offset,
            None => false,
        }
    }

    /// Locks or unlocks one row. A row index past the end changes nothing.
    pub fn set_row_offset(&mut self, row_idx: usize, is_offset: bool)
        requires
            old(self).wf(),
        ensures
            final(self).wf(),
            final(self).data == old(self).data,
            final(self).numeric_columns == old(self).numeric_columns,
            final(self).categorical_columns == old(self).categorical_columns,
            final(self).metadata == old(self).metadata,
            forall|r: int|
                0 <= r < final(self).data.height ==> #[trigger] final(self).spec_is_row_offset(r)
                    == if r == row_idx {
                    is_offset
                } else {
                    old(self).spec_is_row_offset(r)
                },
    {
        let height = self.data.height;
        if self.row_metadata.is_none() {
            let mut rows: Vec<RowMetadata> = Vec::new();
            let mut r: usize = 0;
            while r < height
                invariant
                    r <= height,
                    rows.len() == r,
                    forall|k: int| 0 <= k < r ==> !(#[trigger] rows@[k]).is_offset,
                decreases height - r,
            {
                rows.push(RowMetadata::default());
                r += 1;
            }
            self.row_metadata = Some(rows);
        }
        if row_idx < height {
            match &mut self.row_metadata {
                Some(rows) => {
                    rows.set(row_idx, RowMetadata { is_offset });
                },
                None => {},
            }
        }
    }

    /// Whether row `row_idx` is locked. Rows past the end are not.
    pub fn is_row_offset(&self, row_idx: usize) -> (res: bool)
        ensures
            res == self.spec_is_row_offset(row_idx as int),
    {
        match &self.row_metadata {
            Some(rows) => row_idx < rows.len() && rows[row_idx].is_offset,
            None => false,
        }
    }

    /// Names the table, for diagnostics.
    pub fn with_name(self, name: &str) -> (res: RatingTable)
        ensures
            res.metadata.name@ == name@,
            res.metadata.is_offset == self.metadata.is_offset,
            res.metadata.is_updatable == self.metadata.is_updatable,
            res.metadata.semantics == self.metadata.semantics,
            res.data == self.data,
            res.numeric_columns == self.numeric_columns,
            res.categorical_columns == self.categorical_columns,
            res.row_metadata == self.row_metadata,
    {
        let mut t = self;
        t.metadata.name = String::from_str(name);
        t
    }

    /// How many free parameters the rows represent.
    pub fn semantics(&self) -> (res: &TableSemantics)
        ensures
            *res == self.metadata.semantics,
    {
        &self.metadata.semantics
    }

    /// The per-row values behind a variate table, or `None` for a step table.
    pub fn variate_values(&self) -> (res: Option<&Vec<Quantity>>)
        ensures
            match self.metadata.semantics {
                TableSemantics::Variate { values, .. } => res == Some(&values),
                TableSemantics::Step => res is None,
            },
    {
        match &self.metadata.semantics {
            TableSemantics::Variate { values, .. } => Some(values),
            TableSemantics::Step => None,
        }
    }

    /// The polynomial degree of a variate table, or `None` for a step table.
    pub fn variate_degree(&self) -> (res: Option<usize>)
        ensures
            match self.metadata.semantics {
                TableSemantics::Variate { degree, .. } => res == Some(degree),
                TableSemantics::Step => res is None,
            },
    {
        match &self.metadata.semantics {
            TableSemantics::Variate { degree, .. } => Some(*degree),
            TableSemantics::Step => None,
        }
    }

    /// The row a straight-line variate reads its slope against row zero from: the
    /// first row whose value differs from row zero's. Nothing for a step table, for a
    /// curve of higher degree, which has no single slope, and when every value is the
    /// same.
    pub fn slope_row(&self) -> (res: Option<usize>)
        requires
            match self.metadata.semantics {
                TableSemantics::Variate { values, degree } => degree == 1 ==> values.len() > 0,
                TableSemantics::Step => true,
            },
        ensures
            match self.metadata.semantics {
                TableSemantics::Variate { values, degree } => match res {
                    Some(r) => {
                        &&& degree == 1
                        &&& 0 < r < values.len()
                        &&& values@[r as int] != values@[0]
                        &&& forall|i: int| 0 <= i < r ==> #[trigger] values@[i] == values@[0]
                    },
                    None => degree != 1 || forall|i: int| 0 <= i < values.len() ==> #[trigger] values@[i] == values@[0],
                },
                TableSemantics::Step => res is None,
            },
    {
        match &self.metadata.semantics {
            TableSemantics::Variate { values, degree } => {
                if *degree != 1 {
                    return None;
                }
                let first = values[0];
                let mut r: usize = 1;
                while r < values.len()
                    invariant
                        1 <= r <= values.len(),
                        first == values@[0],
                        *degree == 1,
                        self.metadata.semantics == (TableSemantics::Variate { values: *values, degree: *degree }),
                        forall|i: int| 0 <= i < r ==> #[trigger] values@[i] == values@[0],
                    decreases values.len() - r,
                {
                    if values[r] != first {
                        return Some(r);
                    }
                    r += 1;
                }
                None
            },
            TableSemantics::Step => None,
        }
    }

    /// A variate of degree one: the factors tied to a straight line in `values`.
    pub fn as_variate(self, values: Vec<Quantity>) -> (res: Result<RatingTable, VariateError>)
        requires
            self.wf(),
        ensures
            variate_result(self, values, 1, res),
    {
        self.as_polynomial_variate(values, 1)
    }

    /// Ties the table's factors to a polynomial of `degree` in `values`, one value per
    /// row, so the table spends `degree` parameters. Lookup is unchanged.
    ///
    /// Refused, in this order: a value count that is not the row count, a value that is
    /// undefined or infinite, degree zero, a degree above [`MAX_VARIATE_DEGREE`], values
    /// that are all equal, a degree at or above the number of distinct values, and a
    /// table with a locked row.
    pub fn as_polynomial_variate(self, values: Vec<Quantity>, degree: usize) -> (res: Result<
        RatingTable,
        VariateError,
    >)
        requires
            self.wf(),
        ensures
            variate_result(self, values, degree, res),
    {
        let n_rows = self.data.height;
        if values.len() != n_rows {
            return Err(VariateError::WrongLength { values: values.len(), rows: n_rows });
        }
        let mut i: usize = 0;
        while i < values.len()
            invariant
                i <= values.len(),
                values.len() == self.data.height,
                forall|r: int| 0 <= r < i ==> spec_is_finite(#[trigger] values@[r]),
            decreases values.len() - i,
        {
            if !values[i].is_finite() {
                return Err(VariateError::NotFinite { row: i });
            }
            i += 1;
        }
        if degree == 0 {
            return Err(VariateError::DegreeZero);
        }
        if degree > MAX_VARIATE_DEGREE {
            return Err(VariateError::DegreeTooHigh { degree });
        }
        let distinct = count_distinct(&values);
        if distinct == 1 {
            return Err(VariateError::NoVariation);
        }
        if distinct <= degree {
            return Err(VariateError::DegreeNotIdentified { degree, distinct });
        }
        let mut r: usize = 0;
        while r < n_rows
            invariant
                r <= n_rows,
                n_rows == self.data.height,
                values.len() == self.data.height,
                forall|k: int| 0 <= k < values.len() ==> spec_is_finite(#[trigger] values@[k]),
                1 <= degree <= MAX_VARIATE_DEGREE,
                distinct_count(values@) > degree,
                forall|k: int| 0 <= k < r ==> !#[trigger] self.spec_is_row_offset(k),
            decreases n_rows - r,
        {
            if self.is_row_offset(r) {
                assert(self.spec_is_row_offset(r as int));
                return Err(VariateError::LockedRows);
            }
            r += 1;
        }
        let mut t = self;
        t.metadata.semantics = TableSemantics::Variate { values, degree };
        Ok(t)
    }
}

/// Number of distinct values.
pub(crate) fn count_distinct(values: &Vec<Quantity>) -> (res: usize)
    ensures
        res == distinct_count(values@),
{
    let mut count: usize = 0;
    let mut i: usize = 0;
    while i < values.len()
        invariant
            i <= values.len(),
            count == distinct_count(values@.take(i as int)),
            count <= i,
        decreases values.len() - i,
    {
        let mut seen = false;
        let mut k: usize = 0;
        while k < i
            invariant
                k <= i < values.len(),
                seen == exists|j: int| 0 <= j < k && values@[j] == values@[i as int],
            decreases i - k,
        {
            if values[k] == values[i] {
                seen = true;
            }
            k += 1;
        }
        proof {
            let prefix = values@.take(i + 1);
            assert(prefix.drop_last() =~= values@.take(i as int));
            assert(prefix.last() == values@[i as int]);
            if seen {
                let j = choose|j: int| 0 <= j < i && values@[j] == values@[i as int];
                assert(values@.take(i as int)[j] == values@[i as int]);
            } else {
                assert forall|j: int| 0 <= j < i implies values@.take(i as int)[j]
                    != values@[i as int] by {}
            }
        }
        if !seen {
            count += 1;
        }
        i += 1;
    }
    assert(values@.take(values.len() as int) =~= values@);
    count
}

/// How the linear predictor maps to the mean.
#[derive(Debug, Clone, Copy, PartialEq, Eq, Structural)]
pub enum LinkFunction {
    Identity,
    Logit,
    Log,
}

/// The link an objective implies, read case-insensitively; identity for anything not
/// recognised.
pub open spec fn spec_link_for(lower: Seq<char>) -> LinkFunction {
    if lower == "regression"@ || lower == "gaussian"@ {
        LinkFunction::Identity
    } else if lower == "binary"@ || lower == "binomial"@ || lower == "logistic"@ {
        LinkFunction::Logit
    } else if lower == "poisson"@ || lower == "tweedie"@ || lower == "gamma"@ {
        LinkFunction::Log
    } else {
        LinkFunction::Identity
    }
}

/// An objective that names the log link, in any ASCII case.
pub open spec fn names_log(objective: Seq<char>) -> bool {
    same_ignoring_ascii_case(objective, "poisson"@) || same_ignoring_ascii_case(objective, "tweedie"@)
        || same_ignoring_ascii_case(objective, "gamma"@)
}

/// An objective that names the identity link, in any ASCII case.
pub open spec fn names_identity(objective: Seq<char>) -> bool {
    same_ignoring_ascii_case(objective, "regression"@) || same_ignoring_ascii_case(objective, "gaussian"@)
}

/// An objective that names the logit link, in any ASCII case.
pub open spec fn names_logit(objective: Seq<char>) -> bool {
    same_ignoring_ascii_case(objective, "binary"@) || same_ignoring_ascii_case(objective, "binomial"@)
        || same_ignoring_ascii_case(objective, "logistic"@)
}

/// The link an objective gives, whatever its ASCII case: `poisson`, `tweedie` and
/// `gamma` give the log link, `regression` and `gaussian` the identity, `binary`,
/// `binomial` and `logistic` the logit. Such an objective is ASCII, so it is lowered
/// by folding its capitals.
pub proof fn law_link_of_objective(objective: Seq<char>)
    ensures
        names_log(objective) ==> all_ascii(objective) && spec_link_for(ascii_lowered(objective))
            == LinkFunction::Log,
        names_identity(objective) ==> all_ascii(objective) && spec_link_for(ascii_lowered(objective))
            == LinkFunction::Identity,
        names_logit(objective) ==> all_ascii(objective) && spec_link_for(ascii_lowered(objective))
            == LinkFunction::Logit,
        all_ascii(objective) && !names_log(objective) && !names_logit(objective) ==> spec_link_for(
            ascii_lowered(objective),
        ) == LinkFunction::Identity,
{
    reveal_strlit("poisson");
    reveal_strlit("tweedie");
    reveal_strlit("gamma");
    reveal_strlit("regression");
    reveal_strlit("gaussian");
    reveal_strlit("binary");
    reveal_strlit("binomial");
    reveal_strlit("logistic");
    if same_ignoring_ascii_case(objective, "poisson"@) {
        lemma_lowers_to(objective, "poisson"@);
    }
    if same_ignoring_ascii_case(objective, "tweedie"@) {
        lemma_lowers_to(objective, "tweedie"@);
    }
    if same_ignoring_ascii_case(objective, "gamma"@) {
        lemma_lowers_to(objective, "gamma"@);
    }
    if same_ignoring_ascii_case(objective, "regression"@) {
        lemma_lowers_to(objective, "regression"@);
    }
    if same_ignoring_ascii_case(objective, "gaussian"@) {
        lemma_lowers_to(objective, "gaussian"@);
    }
    if same_ignoring_ascii_case(objective, "binary"@) {
        lemma_lowers_to(objective, "binary"@);
    }
    if same_ignoring_ascii_case(objective, "binomial"@) {
        lemma_lowers_to(objective, "binomial"@);
        assert("binomial"@[0] != "gaussian"@[0]);
    }
    if same_ignoring_ascii_case(objective, "logistic"@) {
        lemma_lowers_to(objective, "logistic"@);
        assert("logistic"@[0] != "gaussian"@[0]);
    }
    let lower = ascii_lowered(objective);
    if lower == "poisson"@ {
        lemma_lowered_from(objective, "poisson"@);
    }
    if lower == "tweedie"@ {
        lemma_lowered_from(objective, "tweedie"@);
    }
    if lower == "gamma"@ {
        lemma_lowered_from(objective, "gamma"@);
    }
    if lower == "binary"@ {
        lemma_lowered_from(objective, "binary"@);
    }
    if lower == "binomial"@ {
        lemma_lowered_from(objective, "binomial"@);
    }
    if lower == "logistic"@ {
        lemma_lowered_from(objective, "logistic"@);
    }
}

impl LinkFunction {
    /// The link for a model objective such as `poisson` or `binary`.
    pub fn from_objective(objective: &str) -> (res: LinkFunction)
        ensures
            res == spec_link_for(spec_lowercase(objective@)),
            all_ascii(objective@) ==> spec_lowercase(objective@) == ascii_lowered(objective@),
            names_log(objective@) ==> res == LinkFunction::Log,
            names_identity(objective@) ==> res == LinkFunction::Identity,
            names_logit(objective@) ==> res == LinkFunction::Logit,
            all_ascii(objective@) && !names_log(objective@) && !names_logit(objective@) ==> res
                == LinkFunction::Identity,
    {
        proof {
            law_link_of_objective(objective@);
        }
        let lower = to_lowercase(objective);
        if text_is(&lower, "regression") || text_is(&lower, "gaussian") {
            LinkFunction::Identity
        } else if text_is(&lower, "binary") || text_is(&lower, "binomial") || text_is(
            &lower,
            "logistic",
        ) {
            LinkFunction::Logit
        } else if text_is(&lower, "poisson") || text_is(&lower, "tweedie") || text_is(
            &lower,
            "gamma",
        ) {
            LinkFunction::Log
        } else {
            LinkFunction::Identity
        }
    }

    /// The link's name.
    pub fn to_string(&self) -> (res: String)
        ensures
            res@ == match self {
                LinkFunction::Identity => "identity"@,
                LinkFunction::Logit => "logit"@,
                LinkFunction::Log => "log"@,
            },
    {
        match self {
            LinkFunction::Identity => String::from_str("identity"),
            LinkFunction::Logit => String::from_str("logit"),
            LinkFunction::Log => String::from_str("log"),
        }
    }
}

/// Rating tables summed on the linear-predictor scale. Table zero is the intercept.
#[derive(Debug, Clone)]
pub struct RatingModel {
    pub tables: Vec<RatingTable>,
    pub link_function: LinkFunction,
}

impl RatingModel {
    pub fn new(tables: Vec<RatingTable>, link_function: LinkFunction) -> (res: RatingModel)
        ensures
            res.tables == tables,
            res.link_function == link_function,
    {
        RatingModel { tables, link_function }
    }

    /// Every table describes its frame.
    pub open spec fn wf(&self) -> bool {
        forall|t: int| 0 <= t < self.tables.len() ==> (#[trigger] self.tables@[t]).wf()
    }

    /// The link's name.
    pub fn get_link_function(&self) -> (res: String)
        ensures
            res@ == match self.link_function {
                LinkFunction::Identity => "identity"@,
                LinkFunction::Logit => "logit"@,
                LinkFunction::Log => "log"@,
            },
    {
        self.link_function.to_string()
    }

    /// Appends a table held fixed.
    pub fn add_offset_table(&mut self, table: RatingTable)
        ensures
            final(self).tables.len() == old(self).tables.len() + 1,
            forall|t: int| 0 <= t < old(self).tables.len() ==> final(self).tables@[t] == old(self).tables@[t],
            final(self).tables@[old(self).tables.len() as int].metadata.is_offset,
            !final(self).tables@[old(self).tables.len() as int].metadata.is_updatable,
            final(self).tables@[old(self).tables.len() as int].data == table.data,
            final(self).link_function == old(self).link_function,
    {
        self.tables.push(table.as_offset());
    }
}

// ---------------------------------------------------------------- reading factors

/// The factor cell of a row, when the table has a floating-point factor column.
pub open spec fn factor_cell(t: RatingTable, row: int) -> Option<Quantity> {
    match t.data.spec_index_of(factor_name()) {
        Some(j) => match t.data.columns@[j].values {
            ColumnValues::Float(v) => v@[row],
            _ => None,
        },
        None => None,
    }
}

/// The factor a table carries on a row: undefined where the cell is null.
pub open spec fn factor_at(t: RatingTable, row: int) -> Quantity {
    match factor_cell(t, row) {
        Some(q) => q,
        None => Quantity::Undefined,
    }
}

/// The table carries its factors in a floating-point column.
pub open spec fn has_factor_column(t: RatingTable) -> bool {
    match t.data.spec_index_of(factor_name()) {
        Some(j) => t.data.columns@[j].values is Float,
        None => false,
    }
}

/// What a table gives an observation with these features: the factor of the row they
/// fall in, or undefined when they fall in none.
pub open spec fn spec_predict(t: RatingTable, f: Map<Seq<char>, FeatureValue>) -> Quantity {
    match spec_find_row(t, f) {
        Some(r) => factor_at(t, r),
        None => Quantity::Undefined,
    }
}

/// The factors of the requested rows, in order; a request that names no row of the
/// table, and a row whose factor is null, give nothing.
pub open spec fn batch_factors(t: RatingTable, rows: Seq<Option<i32>>) -> Seq<Quantity>
    decreases rows.len(),
{
    if rows.len() == 0 {
        Seq::empty()
    } else {
        let rest = batch_factors(t, rows.drop_last());
        match rows.last() {
            Some(r) => if 0 <= r < t.data.height {
                match factor_cell(t, r as int) {
                    Some(q) => rest.push(q),
                    None => rest,
                }
            } else {
                rest
            },
            None => rest,
        }
    }
}

/// The row `spec_find_row` gives is a row of the table.
proof fn lemma_find_row_in_range(t: RatingTable, f: Map<Seq<char>, FeatureValue>)
    ensures
        spec_find_row(t, f) matches Some(r) ==> 0 <= r < t.data.height,
{
    lemma_first_fit(t, f, 0, true);
    lemma_first_fit(t, f, 0, false);
}

impl RatingTable {
    /// The factor cell of a row.
    fn factor_cell_of(&self, row: usize) -> (res: Option<Quantity>)
        requires
            self.wf(),
            has_factor_column(*self),
            row < self.data.height,
        ensures
            res == factor_cell(*self, row as int),
    {
        let name = factor_column_name();
        match self.data.index_of(&name) {
            Some(j) => {
                assert(self.data.columns@[j as int].values.spec_len() == self.data.height);
                match &self.data.columns[j].values {
                    ColumnValues::Float(v) => v[row],
                    _ => None,
                }
            },
            None => None,
        }
    }

    /// The factor on a row; undefined where the cell is null.
    pub fn get_rating_factor(&self, row: usize) -> (res: Quantity)
        requires
            self.wf(),
            has_factor_column(*self),
            row < self.data.height,
        ensures
            res == factor_at(*self, row as int),
    {
        match self.factor_cell_of(row) {
            Some(q) => q,
            None => Quantity::Undefined,
        }
    }

    /// The factor of the row these features fall in, without the link; undefined when
    /// they fall in none.
    pub fn predict(&self, feature_values: &Features) -> (res: Quantity)
        requires
            self.wf(),
            has_factor_column(*self),
        ensures
            res == spec_predict(*self, feature_values@),
    {
        proof {
            lemma_find_row_in_range(*self, feature_values@);
        }
        match self.find_row_match(feature_values) {
            Some(row) => self.get_rating_factor(row),
            None => Quantity::Undefined,
        }
    }

    /// The factors of the requested rows, in order, skipping a request that names no
    /// row of the table and a row whose factor is null.
    pub fn get_rating_factor_batch(&self, row_nums: &Vec<Option<i32>>) -> (res: Vec<Quantity>)
        requires
            self.wf(),
            has_factor_column(*self),
        ensures
            res@ == batch_factors(*self, row_nums@),
    {
        let mut out: Vec<Quantity> = Vec::new();
        let mut i: usize = 0;
        while i < row_nums.len()
            invariant
                self.wf(),
                has_factor_column(*self),
                i <= row_nums.len(),
                out@ == batch_factors(*self, row_nums@.take(i as int)),
            decreases row_nums.len() - i,
        {
            proof {
                assert(row_nums@.take(i + 1).drop_last() =~= row_nums@.take(i as int));
                assert(row_nums@.take(i + 1).last() == row_nums@[i as int]);
            }
            if let Some(r) = row_nums[i] {
                if 0 <= r && (r as usize) < self.data.height {
                    if let Some(q) = self.factor_cell_of(r as usize) {
                        out.push(q);
                    }
                }
            }
            i += 1;
        }
        proof {
            assert(row_nums@.take(row_nums.len() as int) =~= row_nums@);
        }
        out
    }

    /// One factor per row of `df`, without the link: the factor of the row each
    /// observation falls in, or undefined when it falls in none.
    pub fn predict_batch(&self, df: &Frame) -> (res: Vec<Quantity>)
        requires
            self.wf(),
            has_factor_column(*self),
            df.wf(),
        ensures
            res.len() == df.height,
            forall|i: int| 0 <= i < df.height ==> #[trigger] res@[i] == spec_predict(
                *self,
                crate::features::row_features(df.columns@, i),
            ),
    {
        let mut out: Vec<Quantity> = Vec::new();
        let mut i: usize = 0;
        while i < df.height
            invariant
                self.wf(),
                has_factor_column(*self),
                df.wf(),
                i <= df.height,
                out.len() == i,
                forall|k: int| 0 <= k < i ==> #[trigger] out@[k] == spec_predict(
                    *self,
                    crate::features::row_features(df.columns@, k),
                ),
            decreases df.height - i,
        {
            let features = crate::features::extract_row_features(df, i);
            out.push(self.predict(&features));
            i += 1;
        }
        out
    }
}

// ---------------------------------------------------------------- checking offered features

/// The features a table's columns present, the factor column aside, each with its
/// column's dtype, in column order.
pub open spec fn column_features(cols: Seq<FrameColumn>) -> Seq<(Seq<char>, Dtype)>
    decreases cols.len(),
{
    if cols.len() == 0 {
        Seq::empty()
    } else {
        let rest = column_features(cols.drop_last());
        if cols.last().name@ == factor_name() {
            rest
        } else {
            rest.push((cols.last().name@, spec_dtype(cols.last().values)))
        }
    }
}

/// The features of every table, table by table.
pub open spec fn tables_features(tables: Seq<RatingTable>) -> Seq<(Seq<char>, Dtype)>
    decreases tables.len(),
{
    if tables.len() == 0 {
        Seq::empty()
    } else {
        tables_features(tables.drop_last()) + column_features(tables.last().data.columns@)
    }
}

/// Each feature once, with the dtype it has where it first appears.
pub open spec fn first_features(pairs: Seq<(Seq<char>, Dtype)>) -> Seq<(Seq<char>, Dtype)>
    decreases pairs.len(),
{
    if pairs.len() == 0 {
        Seq::empty()
    } else {
        let prev = first_features(pairs.drop_last());
        if exists|k: int| 0 <= k < prev.len() && #[trigger] prev[k].0 == pairs.last().0 {
            prev
        } else {
            prev.push(pairs.last())
        }
    }
}

/// The features a model reads, the intercept's table aside: each once, with the dtype
/// of the first column that presents it.
pub open spec fn required_features(model: RatingModel) -> Seq<(Seq<char>, Dtype)> {
    first_features(tables_features(model.tables@.skip(1)))
}

/// A feature of this name is offered.
pub open spec fn offered(features: Seq<(String, bool)>, name: Seq<char>) -> bool {
    exists|k: int| 0 <= k < features.len() && #[trigger] features[k].0@ == name
}

/// Every value offered under this name is a whole number.
pub open spec fn offered_whole(features: Seq<(String, bool)>, name: Seq<char>) -> bool {
    forall|k: int| 0 <= k < features.len() && #[trigger] features[k].0@ == name ==> features[k].1
}

/// The names among `required` that are not offered, in order.
pub open spec fn absent(required: Seq<(Seq<char>, Dtype)>, features: Seq<(String, bool)>) -> Seq<Seq<char>>
    decreases required.len(),
{
    if required.len() == 0 {
        Seq::empty()
    } else {
        let rest = absent(required.drop_last(), features);
        if offered(features, required.last().0) {
            rest
        } else {
            rest.push(required.last().0)
        }
    }
}

/// What is wrong with the value offered for a required feature, if anything: a
/// category code must be a whole number, a number may be anything, and a column of any
/// other dtype takes no value.
pub open spec fn value_fault(entry: (Seq<char>, Dtype), features: Seq<(String, bool)>) -> bool {
    match entry.1 {
        Dtype::Int32 => !offered_whole(features, entry.0),
        Dtype::Float64 => false,
        _ => true,
    }
}

/// Why offered features do not suit a model.
#[derive(Debug, Clone, PartialEq, Eq)]
pub enum FeatureError {
    /// These required features are missing, out of all those required.
    Missing { missing: Vec<String>, required: Vec<String> },
    /// A feature read as a category code is offered a value that is not a whole number.
    NotWhole { feature: String },
    /// A feature's column has a dtype that takes no offered value.
    Unsupported { feature: String, dtype: Dtype },
}

/// The names of pairs as views.
pub open spec fn pair_names(pairs: Seq<(String, Dtype)>) -> Seq<(Seq<char>, Dtype)> {
    pairs.map_values(|p: (String, Dtype)| (p.0@, p.1))
}

/// Whether a feature of this name is offered.
fn is_offered(features: &Vec<(String, bool)>, name: &String) -> (res: bool)
    ensures
        res == offered(features@, name@),
{
    let mut k: usize = 0;
    while k < features.len()
        invariant
            k <= features.len(),
            forall|j: int| 0 <= j < k ==> features@[j].0@ != name@,
        decreases features.len() - k,
    {
        if features[k].0 == *name {
            return true;
        }
        k += 1;
    }
    false
}

/// Whether every value offered under this name is a whole number.
fn is_offered_whole(features: &Vec<(String, bool)>, name: &String) -> (res: bool)
    ensures
        res == offered_whole(features@, name@),
{
    let mut k: usize = 0;
    while k < features.len()
        invariant
            k <= features.len(),
            forall|j: int| 0 <= j < k && features@[j].0@ == name@ ==> features@[j].1,
        decreases features.len() - k,
    {
        if features[k].0 == *name && !features[k].1 {
            return false;
        }
        k += 1;
    }
    true
}

impl RatingModel {
    /// The features the model reads, beyond the intercept: each once, with the dtype of
    /// the first column that presents it.
    fn all_features(&self) -> (res: Vec<(String, Dtype)>)
        requires
            self.tables.len() >= 1,
        ensures
            pair_names(res@) == tables_features(self.tables@.skip(1)),
    {
        let ghost ts = self.tables@.skip(1);
        let mut all: Vec<(String, Dtype)> = Vec::new();
        let mut t: usize = 1;
        let factor = factor_column_name();
        while t < self.tables.len()
            invariant
                ts == self.tables@.skip(1),
                factor@ == factor_name(),
                1 <= t <= self.tables.len(),
                pair_names(all@) == tables_features(ts.take(t - 1)),
            decreases self.tables.len() - t,
        {
            let cols = &self.tables[t].data.columns;
            let ghost base = all@;
            let mut c: usize = 0;
            while c < cols.len()
                invariant
                    factor@ == factor_name(),
                    c <= cols.len(),
                    pair_names(all@) == pair_names(base) + column_features(cols@.take(c as int)),
                decreases cols.len() - c,
            {
                proof {
                    assert(cols@.take(c + 1).drop_last() =~= cols@.take(c as int));
                    assert(cols@.take(c + 1).last() == cols@[c as int]);
                }
                if cols[c].name != factor {
                    let d = dtype_of(&cols[c].values);
                    let ghost before = all@;
                    all.push((cols[c].name.clone(), d));
                    proof {
                        assert(pair_names(all@) =~= pair_names(before).push((cols@[c as int].name@, d)));
                        assert(pair_names(all@) =~= pair_names(base) + column_features(cols@.take(c + 1)));
                    }
                }
                c += 1;
            }
            proof {
                assert(cols@.take(cols.len() as int) =~= cols@);
                assert(ts.take(t as int).drop_last() =~= ts.take(t - 1));
                assert(ts.take(t as int).last() == self.tables@[t as int]);
            }
            t += 1;
        }
        proof {
            assert(ts.take(self.tables.len() - 1) =~= ts);
        }
        all
    }

    /// The features the model reads, beyond the intercept: each once, with the dtype of
    /// the first column that presents it.
    fn required(&self) -> (res: Vec<(String, Dtype)>)
        requires
            self.tables.len() >= 1,
        ensures
            pair_names(res@) == required_features(*self),
    {
        let all = self.all_features();
        let mut req: Vec<(String, Dtype)> = Vec::new();
        let mut i: usize = 0;
        while i < all.len()
            invariant
                i <= all.len(),
                pair_names(req@) == first_features(pair_names(all@).take(i as int)),
            decreases all.len() - i,
        {
            let ghost prev = pair_names(req@);
            let ghost pv = pair_names(all@);
            proof {
                assert(pv.take(i + 1).drop_last() =~= pv.take(i as int));
                assert(pv.take(i + 1).last() == pv[i as int]);
            }
            let mut j: usize = 0;
            let mut seen = false;
            while j < req.len()
                invariant
                    prev == pair_names(req@),
                    j <= req.len(),
                    i < all.len(),
                    pv == pair_names(all@),
                    seen <==> exists|k: int| 0 <= k < j && #[trigger] prev[k].0 == pv[i as int].0,
                decreases req.len() - j,
            {
                if req[j].0 == all[i].0 {
                    seen = true;
                    proof {
                        assert(prev[j as int].0 == pv[i as int].0);
                    }
                }
                j += 1;
            }
            if !seen {
                let ghost before = req@;
                req.push((all[i].0.clone(), all[i].1));
                proof {
                    assert(pair_names(req@) =~= pair_names(before).push(pv[i as int]));
                }
            }
            i += 1;
        }
        proof {
            assert(pair_names(all@).take(all.len() as int) =~= pair_names(all@));
        }
        req
    }

    /// Checks that offered features suit the model, the intercept's table aside: every
    /// feature a table reads must be offered, a feature read as a category code must
    /// be offered whole numbers, and a column of a dtype other than codes and numbers
    /// takes nothing.
    ///
    /// `features` holds each offered feature with whether its value is a whole number.
    /// Missing features are reported first, all of them, in the order the tables list
    /// them, together with every feature required; otherwise the first required
    /// feature, in that order, whose value does not suit it.
    pub fn validate_features(&self, features: &Vec<(String, bool)>) -> (res: Result<(), FeatureError>)
        requires
            self.tables.len() >= 1,
        ensures
            match res {
                Ok(()) => absent(required_features(*self), features@).len() == 0 && forall|k: int|
                    0 <= k < required_features(*self).len() ==> !value_fault(
                        #[trigger] required_features(*self)[k],
                        features@,
                    ),
                Err(FeatureError::Missing { missing, required }) => {
                    &&& absent(required_features(*self), features@).len() > 0
                    &&& missing@.map_values(|s: String| s@) == absent(required_features(*self), features@)
                    &&& required@.map_values(|s: String| s@) == required_features(*self).map_values(
                        |p: (Seq<char>, Dtype)| p.0,
                    )
                },
                Err(FeatureError::NotWhole { feature }) => {
                    &&& absent(required_features(*self), features@).len() == 0
                    &&& exists|k: int|
                        0 <= k < required_features(*self).len() && #[trigger] required_features(*self)[k]
                            == (feature@, Dtype::Int32) && value_fault(required_features(*self)[k], features@)
                            && forall|j: int| 0 <= j < k ==> !value_fault(#[trigger] required_features(*self)[j], features@)
                },
                Err(FeatureError::Unsupported { feature, dtype }) => {
                    &&& absent(required_features(*self), features@).len() == 0
                    &&& dtype != Dtype::Int32 && dtype != Dtype::Float64
                    &&& exists|k: int|
                        0 <= k < required_features(*self).len() && #[trigger] required_features(*self)[k]
                            == (feature@, dtype)
                            && forall|j: int| 0 <= j < k ==> !value_fault(#[trigger] required_features(*self)[j], features@)
                },
            },
    {
        let req = self.required();
        let ghost rv = required_features(*self);
        let mut missing: Vec<String> = Vec::new();
        let mut names: Vec<String> = Vec::new();
        let mut i: usize = 0;
        while i < req.len()
            invariant
                rv == pair_names(req@),
                i <= req.len(),
                missing@.map_values(|s: String| s@) == absent(rv.take(i as int), features@),
                names@.map_values(|s: String| s@) == rv.take(i as int).map_values(|p: (Seq<char>, Dtype)| p.0),
            decreases req.len() - i,
        {
            proof {
                assert(rv.take(i + 1).drop_last() =~= rv.take(i as int));
                assert(rv.take(i + 1).last() == rv[i as int]);
                assert(rv[i as int].0 == req@[i as int].0@);
            }
            let ghost before = missing@;
            let ghost nbefore = names@;
            if !is_offered(features, &req[i].0) {
                missing.push(req[i].0.clone());
                proof {
                    assert(missing@.map_values(|s: String| s@) =~= before.map_values(|s: String| s@).push(rv[i as int].0));
                }
            } else {
                proof {
                    assert(missing@ == before);
                }
            }
            names.push(req[i].0.clone());
            proof {
                assert(names@.map_values(|s: String| s@) =~= nbefore.map_values(|s: String| s@).push(rv[i as int].0));
                assert(rv.take(i + 1).map_values(|p: (Seq<char>, Dtype)| p.0) =~= rv.take(i as int).map_values(
                    |p: (Seq<char>, Dtype)| p.0,
                ).push(rv[i as int].0));
            }
            i += 1;
        }
        proof {
            assert(rv.take(req.len() as int) =~= rv);
        }
        if missing.len() > 0 {
            return Err(FeatureError::Missing { missing, required: names });
        }
        proof {
            assert(absent(rv, features@).len() == missing@.map_values(|s: String| s@).len());
        }
        let mut k: usize = 0;
        while k < req.len()
            invariant
                rv == pair_names(req@),
                rv == required_features(*self),
                absent(rv, features@).len() == 0,
                k <= req.len(),
                forall|j: int| 0 <= j < k ==> !value_fault(#[trigger] rv[j], features@),
            decreases req.len() - k,
        {
            proof {
                assert(rv[k as int] == (req@[k as int].0@, req@[k as int].1));
            }
            match req[k].1 {
                Dtype::Int32 => {
                    if !is_offered_whole(features, &req[k].0) {
                        let feature = req[k].0.clone();
                        proof {
                            assert(rv[k as int] == (feature@, Dtype::Int32));
                            assert(value_fault(rv[k as int], features@));
                        }
                        return Err(FeatureError::NotWhole { feature });
                    }
                },
                Dtype::Float64 => {},
                _ => {
                    let feature = req[k].0.clone();
                    proof {
                        assert(rv[k as int] == (feature@, req@[k as int].1));
                    }
                    return Err(FeatureError::Unsupported { feature, dtype: req[k].1 });
                },
            }
            k += 1;
        }
        Ok(())
    }
}

// ---------------------------------------------------------------- checking a frame to score

/// The dtype the last of these pairs gives `name`.
pub open spec fn last_dtype(pairs: Seq<(Seq<char>, Dtype)>, name: Seq<char>) -> Option<Dtype>
    decreases pairs.len(),
{
    if pairs.len() == 0 {
        None
    } else if pairs.last().0 == name {
        Some(pairs.last().1)
    } else {
        last_dtype(pairs.drop_last(), name)
    }
}

/// The columns a model reads to score a frame, the intercept's table aside: each once,
/// in the order they first appear, with the dtype of the last column that presents it.
pub open spec fn scoring_columns(model: RatingModel) -> Seq<(Seq<char>, Dtype)> {
    let pairs = tables_features(model.tables@.skip(1));
    first_features(pairs).map_values(|p: (Seq<char>, Dtype)| (p.0, last_dtype(pairs, p.0)->0))
}

/// The frame has a column of this name.
pub open spec fn frame_has(df: Frame, name: Seq<char>) -> bool {
    exists|j: int| 0 <= j < df.columns.len() && (#[trigger] df.columns@[j]).name@ == name
}

/// The names among `required` the frame lacks, in order.
pub open spec fn lacking(required: Seq<(Seq<char>, Dtype)>, df: Frame) -> Seq<Seq<char>>
    decreases required.len(),
{
    if required.len() == 0 {
        Seq::empty()
    } else {
        let rest = lacking(required.drop_last(), df);
        if frame_has(df, required.last().0) {
            rest
        } else {
            rest.push(required.last().0)
        }
    }
}

/// The dtype of the frame's column of this name.
pub open spec fn column_dtype(df: Frame, name: Seq<char>) -> Option<Dtype> {
    match df.spec_index_of(name) {
        Some(j) => Some(spec_dtype(df.columns@[j].values)),
        None => None,
    }
}

/// The frame's column of this name has the dtype expected.
pub open spec fn column_fits(df: Frame, entry: (Seq<char>, Dtype)) -> bool {
    column_dtype(df, entry.0) == Some(entry.1)
}

/// Why a frame cannot be scored by a model.
#[derive(Debug, Clone, PartialEq, Eq)]
pub enum ColumnError {
    /// These columns the tables read are missing from the frame.
    Missing { columns: Vec<String> },
    /// This column has dtype `found` where the tables read `expected`.
    Mismatch { column: String, found: Dtype, expected: Dtype },
}

/// When nothing is lacking, the frame has every column required.
pub(crate) proof fn lemma_lacking_none(req: Seq<(Seq<char>, Dtype)>, df: Frame, k: int)
    requires
        lacking(req, df).len() == 0,
        0 <= k < req.len(),
    ensures
        frame_has(df, req[k].0),
    decreases req.len(),
{
    if k < req.len() - 1 {
        lemma_lacking_none(req.drop_last(), df, k);
        assert(req.drop_last()[k] == req[k]);
    }
}

/// Every feature the first-appearance list keeps has a last dtype.
proof fn lemma_first_features_names(pairs: Seq<(Seq<char>, Dtype)>)
    ensures
        forall|k: int| 0 <= k < first_features(pairs).len() ==> last_dtype(pairs, #[trigger] first_features(pairs)[k].0) is Some,
    decreases pairs.len(),
{
    if pairs.len() > 0 {
        let q = pairs.drop_last();
        lemma_first_features_names(q);
        assert forall|k: int| 0 <= k < first_features(pairs).len() implies last_dtype(pairs, #[trigger] first_features(pairs)[k].0) is Some by {
            let prev = first_features(q);
            if k < prev.len() {
                assert(first_features(pairs)[k] == prev[k]);
            }
        }
    }
}

impl RatingModel {
    /// The dtype the last column named `name` among `pairs` has.
    fn last_dtype_of(pairs: &Vec<(String, Dtype)>, name: &String) -> (res: Option<Dtype>)
        ensures
            res == last_dtype(pair_names(pairs@), name@),
    {
        let ghost pv = pair_names(pairs@);
        let mut k = pairs.len();
        proof {
            assert(pv.take(k as int) =~= pv);
        }
        while k > 0
            invariant
                pv == pair_names(pairs@),
                k <= pairs.len(),
                last_dtype(pv, name@) == last_dtype(pv.take(k as int), name@),
            decreases k,
        {
            proof {
                assert(pv.take(k as int).drop_last() =~= pv.take(k - 1));
                assert(pv.take(k as int).last() == pv[k - 1]);
            }
            if pairs[k - 1].0 == *name {
                return Some(pairs[k - 1].1);
            }
            k -= 1;
        }
        None
    }

    /// Checks that a frame carries every column the model's tables read, the
    /// intercept's aside, each with the dtype the tables read it as (where tables
    /// disagree, the last one's).
    ///
    /// Missing columns are reported first, all of them, in the order the tables list
    /// them; otherwise the first column, in that order, whose dtype differs.
    pub fn check_columns(&self, df: &Frame) -> (res: Result<(), ColumnError>)
        requires
            self.tables.len() >= 1,
            df.wf(),
        ensures
            match res {
                Ok(()) => lacking(scoring_columns(*self), *df).len() == 0 && forall|k: int|
                    0 <= k < scoring_columns(*self).len() ==> column_fits(*df, #[trigger] scoring_columns(*self)[k]),
                Err(ColumnError::Missing { columns }) => {
                    &&& lacking(scoring_columns(*self), *df).len() > 0
                    &&& columns@.map_values(|s: String| s@) == lacking(scoring_columns(*self), *df)
                },
                Err(ColumnError::Mismatch { column, found, expected }) => {
                    &&& lacking(scoring_columns(*self), *df).len() == 0
                    &&& exists|k: int|
                        0 <= k < scoring_columns(*self).len() && #[trigger] scoring_columns(*self)[k] == (column@, expected)
                            && !column_fits(*df, scoring_columns(*self)[k])
                            && column_dtype(*df, column@) == Some(found)
                            && forall|i: int| 0 <= i < k ==> column_fits(*df, #[trigger] scoring_columns(*self)[i])
                },
            },
    {
        let ghost req = scoring_columns(*self);
        let pairs = self.all_features();
        let firsts = self.required();
        proof {
            lemma_first_features_names(tables_features(self.tables@.skip(1)));
        }
        let mut missing: Vec<String> = Vec::new();
        let mut i: usize = 0;
        while i < firsts.len()
            invariant
                pair_names(pairs@) == tables_features(self.tables@.skip(1)),
                pair_names(firsts@) == required_features(*self),
                req == scoring_columns(*self),
                req.len() == firsts.len(),
                forall|k: int| 0 <= k < req.len() ==> (#[trigger] req[k]).0 == firsts@[k].0@,
                df.wf(),
                i <= firsts.len(),
                missing@.map_values(|s: String| s@) == lacking(req.take(i as int), *df),
            decreases firsts.len() - i,
        {
            proof {
                assert(req.take(i + 1).drop_last() =~= req.take(i as int));
                assert(req.take(i + 1).last() == req[i as int]);
            }
            let ghost before = missing@;
            match df.index_of(&firsts[i].0) {
                Some(_) => {
                    proof {
                        assert(frame_has(*df, req[i as int].0));
                    }
                },
                None => {
                    proof {
                        assert(!frame_has(*df, req[i as int].0));
                    }
                    missing.push(firsts[i].0.clone());
                    proof {
                        assert(missing@.map_values(|s: String| s@) =~= before.map_values(|s: String| s@).push(req[i as int].0));
                    }
                },
            }
            i += 1;
        }
        proof {
            assert(req.take(req.len() as int) =~= req);
        }
        if missing.len() > 0 {
            return Err(ColumnError::Missing { columns: missing });
        }
        proof {
            assert(lacking(req, *df).len() == missing@.map_values(|s: String| s@).len());
        }
        let mut k: usize = 0;
        while k < firsts.len()
            invariant
                pair_names(pairs@) == tables_features(self.tables@.skip(1)),
                pair_names(firsts@) == required_features(*self),
                req == scoring_columns(*self),
                req.len() == firsts.len(),
                forall|m: int| 0 <= m < req.len() ==> (#[trigger] req[m]).0 == firsts@[m].0@,
                lacking(req, *df).len() == 0,
                df.wf(),
                k <= firsts.len(),
                forall|m: int| 0 <= m < k ==> column_fits(*df, #[trigger] req[m]),
            decreases firsts.len() - k,
        {
            let expected = match Self::last_dtype_of(&pairs, &firsts[k].0) {
                Some(d) => d,
                None => {
                    proof {
                        let tf = tables_features(self.tables@.skip(1));
                        lemma_first_features_names(tf);
                        assert(req[k as int].0 == first_features(tf)[k as int].0);
                        assert(last_dtype(tf, first_features(tf)[k as int].0) is Some);
                        assert(false);
                    }
                    return Ok(());
                },
            };
            proof {
                assert(req[k as int] == (firsts@[k as int].0@, expected));
            }
            match df.index_of(&firsts[k].0) {
                Some(j) => {
                    let found = dtype_of(&df.columns[j].values);
                    if found != expected {
                        return Err(ColumnError::Mismatch { column: firsts[k].0.clone(), found, expected });
                    }
                },
                None => {
                    proof {
                        lemma_lacking_none(req, *df, k as int);
                        assert(false);
                    }
                    return Ok(());
                },
            }
            k += 1;
        }
        Ok(())
    }
}

// ---------------------------------------------------------------- loading tables

/// The columns kept from each table when only some features are asked for: those
/// features, then the factor column, then the row-number column when one is named.
pub open spec fn kept_columns(features: Seq<String>, row_col: Option<Seq<char>>) -> Seq<Seq<char>> {
    let base = name_views(features).push(factor_name());
    match row_col {
        Some(r) => base.push(r),
        None => base,
    }
}

/// An optional name as a view.
pub open spec fn str_view(name: Option<&str>) -> Option<Seq<char>> {
    match name {
        Some(s) => Some(s@),
        None => None,
    }
}

/// A table just built over `data`, as [`RatingTable::new`] builds it.
pub open spec fn fresh_table(t: RatingTable, data: Frame) -> bool {
    &&& t.wf()
    &&& t.data == data
    &&& t.metadata.name@ == Seq::<char>::empty()
    &&& !t.metadata.is_offset
    &&& t.metadata.is_updatable
    &&& t.metadata.semantics is Step
    &&& t.row_metadata is None
}

impl RatingModel {
    /// A model over these frames, table zero the intercept, with the link the
    /// objective implies. When feature columns are named, each table keeps only those,
    /// the factor column, and the row-number column if one is named, in that order; a
    /// table missing one of them, or a name asked for twice, refuses the whole model.
    pub fn from_dataframes(
        tables: Vec<Frame>,
        link_function: &str,
        feature_columns: Option<Vec<String>>,
        existing_row_number_col: Option<&str>,
    ) -> (res: Result<RatingModel, SelectError>)
        requires
            forall|k: int| 0 <= k < tables.len() ==> (#[trigger] tables@[k]).wf(),
        ensures
            match res {
                Ok(m) => {
                    &&& m.link_function == spec_link_for(spec_lowercase(link_function@))
                    &&& m.tables.len() == tables.len()
                    &&& forall|k: int|
                        0 <= k < tables.len() ==> match feature_columns {
                            None => fresh_table(#[trigger] m.tables@[k], tables@[k]),
                            Some(f) => {
                                let kept = kept_columns(f@, str_view(existing_row_number_col));
                                &&& fresh_table(#[trigger] m.tables@[k], m.tables@[k].data)
                                &&& selectable(tables@[k], kept)
                                &&& is_selection(m.tables@[k].data, tables@[k], kept)
                            },
                        }
                },
                Err(e) => match feature_columns {
                    None => false,
                    Some(f) => {
                        let kept = kept_columns(f@, str_view(existing_row_number_col));
                        exists|k: int|
                            0 <= k < tables.len() && select_result(#[trigger] tables@[k], kept, Err(e))
                                && forall|j: int| 0 <= j < k ==> selectable(#[trigger] tables@[j], kept)
                    },
                },
            },
    {
        let link = LinkFunction::from_objective(link_function);
        let ghost orig = tables@;
        let ghost row_col = str_view(existing_row_number_col);
        let wanted: Option<Vec<String>> = match feature_columns {
            Some(f) => {
                let mut cols: Vec<String> = Vec::new();
                let mut i: usize = 0;
                while i < f.len()
                    invariant
                        i <= f.len(),
                        name_views(cols@) == name_views(f@.take(i as int)),
                    decreases f.len() - i,
                {
                    let ghost before = cols@;
                    cols.push(f[i].clone());
                    proof {
                        assert(f@.take(i + 1) =~= f@.take(i as int).push(f@[i as int]));
                        assert(name_views(cols@) =~= name_views(before).push(f@[i as int]@));
                        assert(name_views(f@.take(i + 1)) =~= name_views(f@.take(i as int)).push(f@[i as int]@));
                    }
                    i += 1;
                }
                proof {
                    assert(f@.take(f.len() as int) =~= f@);
                }
                let ghost before = cols@;
                cols.push(factor_column_name());
                proof {
                    assert(name_views(cols@) =~= name_views(before).push(factor_name()));
                }
                match existing_row_number_col {
                    Some(r) => {
                        let ghost before = cols@;
                        cols.push(String::from_str(r));
                        proof {
                            assert(name_views(cols@) =~= name_views(before).push(r@));
                        }
                    },
                    None => {},
                }
                proof {
                    assert(name_views(cols@) == kept_columns(f@, row_col));
                }
                Some(cols)
            },
            None => None,
        };
        let mut rest = tables;
        let mut built: Vec<RatingTable> = Vec::new();
        while rest.len() > 0
            invariant
                built.len() + rest.len() == orig.len(),
                rest@ == orig.skip(built.len() as int),
                orig == tables@,
                row_col == str_view(existing_row_number_col),
                link == spec_link_for(spec_lowercase(link_function@)),
                forall|k: int| 0 <= k < orig.len() ==> (#[trigger] orig[k]).wf(),
                match feature_columns {
                    None => wanted is None,
                    Some(f) => wanted matches Some(w) && name_views(w@) == kept_columns(f@, row_col),
                },
                forall|k: int|
                    0 <= k < built.len() ==> match feature_columns {
                        None => fresh_table(#[trigger] built@[k], orig[k]),
                        Some(f) => {
                            let kept = kept_columns(f@, row_col);
                            &&& fresh_table(#[trigger] built@[k], built@[k].data)
                            &&& selectable(orig[k], kept)
                            &&& is_selection(built@[k].data, orig[k], kept)
                        },
                    },
            decreases rest.len(),
        {
            let ghost k = built.len() as int;
            let frame = rest.remove(0);
            proof {
                assert(frame == orig[k]);
                assert(rest@ =~= orig.skip(k + 1));
            }
            match &wanted {
                Some(w) => {
                    match frame.select(w) {
                        Ok(g) => {
                            built.push(RatingTable::new(g));
                        },
                        Err(e) => {
                            proof {
                                assert forall|j: int| 0 <= j < k implies selectable(
                                    #[trigger] orig[j],
                                    kept_columns(feature_columns->0@, row_col),
                                ) by {
                                    assert(fresh_table(built@[j], built@[j].data));
                                }
                                assert(feature_columns is Some);
                                assert(name_views(w@) == kept_columns(feature_columns->0@, row_col));
                                assert(select_result(orig[k], kept_columns(feature_columns->0@, row_col), Err(e)));
                            }
                            return Err(e);
                        },
                    }
                },
                None => {
                    built.push(RatingTable::new(frame));
                },
            }
        }
        Ok(RatingModel::new(built, link))
    }
}

} // verus!
