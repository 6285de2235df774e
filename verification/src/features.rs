//! The feature values one observation presents to a table.
use crate::frame::{ColumnValues, Frame, FrameColumn};
use crate::quantity::Quantity;
use vstd::prelude::*;

verus! {

/// The category code that matches any level.
pub const WILDCARD: i32 = -999;

/// One observation's value for one feature.
#[derive(Debug, Clone, Copy, PartialEq, Eq, Structural)]
pub enum FeatureValue {
    /// A number, compared against band bounds.
    Numeric(Quantity),
    /// A category code.
    Categorical(i32),
}

/// Feature values by name. A later entry for a name replaces an earlier one.
#[derive(Debug, Clone)]
pub struct Features {
    pub entries: Vec<(String, FeatureValue)>,
}

/// The map a sequence of entries stands for: later entries win.
pub open spec fn entries_map(entries: Seq<(String, FeatureValue)>) -> Map<Seq<char>, FeatureValue>
    decreases entries.len(),
{
    if entries.len() == 0 {
        Map::empty()
    } else {
        entries_map(entries.drop_last()).insert(entries.last().0@, entries.last().1)
    }
}

/// Entries past `k` do not mention `name`, so the map agrees with the first `k` entries
/// there.
proof fn lemma_entries_map_prefix(entries: Seq<(String, FeatureValue)>, k: int, name: Seq<char>)
    requires
        0 <= k <= entries.len(),
        forall|j: int| k <= j < entries.len() ==> entries[j].0@ != name,
    ensures
        entries_map(entries).contains_key(name) == entries_map(entries.take(k)).contains_key(name),
        entries_map(entries).contains_key(name) ==> entries_map(entries)[name] == entries_map(
            entries.take(k),
        )[name],
    decreases entries.len(),
{
    if entries.len() == k {
        assert(entries.take(k) =~= entries);
    } else {
        lemma_entries_map_prefix(entries.drop_last(), k, name);
        assert(entries.drop_last().take(k) =~= entries.take(k));
    }
}

impl View for Features {
    type V = Map<Seq<char>, FeatureValue>;

    open spec fn view(&self) -> Map<Seq<char>, FeatureValue> {
        entries_map(self.entries@)
    }
}

impl Features {
    /// No features.
    pub fn new() -> (res: Features)
        ensures
            res@ == Map::<Seq<char>, FeatureValue>::empty(),
    {
        Features { entries: Vec::new() }
    }

    /// Sets the value of a feature.
    pub fn insert(&mut self, name: String, value: FeatureValue)
        ensures
            final(self)@ == old(self)@.insert(name@, value),
    {
        let ghost before = self.entries@;
        self.entries.push((name, value));
        assert(self.entries@.drop_last() =~= before);
    }

    /// The value of a feature, if it is present.
    pub fn get(&self, name: &String) -> (res: Option<FeatureValue>)
        ensures
            match res {
                Some(v) => self@.contains_key(name@) && self@[name@] == v,
                None => !self@.contains_key(name@),
            },
    {
        let mut k = self.entries.len();
        while k > 0
            invariant
                k <= self.entries.len(),
                forall|j: int| k <= j < self.entries.len() ==> self.entries@[j].0@ != name@,
            decreases k,
        {
            if self.entries[k - 1].0 == *name {
                proof {
                    lemma_entries_map_prefix(self.entries@, k as int, name@);
                    assert(self.entries@.take(k as int).drop_last() =~= self.entries@.take(
                        k - 1,
                    ));
                }
                return Some(self.entries[k - 1].1);
            }
            k -= 1;
        }
        proof {
            lemma_entries_map_prefix(self.entries@, 0, name@);
            assert(self.entries@.take(0) =~= Seq::<(String, FeatureValue)>::empty());
        }
        None
    }

    /// Whether a feature is present.
    pub fn contains_key(&self, name: &String) -> (res: bool)
        ensures
            res == self@.contains_key(name@),
    {
        self.get(name).is_some()
    }
}

/// The feature an entry of a column presents: floats as numbers, 32-bit integers as
/// category codes. Nulls and every other dtype present nothing.
pub open spec fn cell_feature(values: ColumnValues, i: int) -> Option<FeatureValue> {
    match values {
        ColumnValues::Float(v) => match v[i] {
            Some(q) => Some(FeatureValue::Numeric(q)),
            None => None,
        },
        ColumnValues::Int32(v) => match v[i] {
            Some(c) => Some(FeatureValue::Categorical(c)),
            None => None,
        },
        _ => None,
    }
}

/// The features of row `i` of these columns.
pub open spec fn row_features(columns: Seq<FrameColumn>, i: int) -> Map<Seq<char>, FeatureValue>
    decreases columns.len(),
{
    if columns.len() == 0 {
        Map::empty()
    } else {
        let rest = row_features(columns.drop_last(), i);
        match cell_feature(columns.last().values, i) {
            Some(v) => rest.insert(columns.last().name@, v),
            None => rest,
        }
    }
}

/// With distinct names, a row's feature under a column's name is that column's entry.
pub proof fn lemma_row_feature(columns: Seq<FrameColumn>, i: int, j: int)
    requires
        crate::frame::distinct_names(columns),
        0 <= j < columns.len(),
    ensures
        row_features(columns, i).contains_key(columns[j].name@) == (cell_feature(
            columns[j].values,
            i,
        ) is Some),
        cell_feature(columns[j].values, i) is Some ==> row_features(columns, i)[columns[j].name@]
            == cell_feature(columns[j].values, i)->0,
    decreases columns.len(),
{
    if j < columns.len() - 1 {
        let last = columns.len() - 1;
        assert(columns[last].name@ != columns[j].name@);
        assert(crate::frame::distinct_names(columns.drop_last()));
        lemma_row_feature(columns.drop_last(), i, j);
        assert(columns.drop_last()[j] == columns[j]);
    } else {
        assert forall|k: int| 0 <= k < columns.drop_last().len() implies (
        #[trigger] columns.drop_last()[k]).name@ != columns[j].name@ by {
            assert(columns.drop_last()[k] == columns[k]);
        }
        lemma_row_feature_absent(columns.drop_last(), i, columns[j].name@);
    }
}

/// A name no column carries is not a feature of any row.
pub proof fn lemma_row_feature_absent(columns: Seq<FrameColumn>, i: int, name: Seq<char>)
    requires
        forall|j: int| 0 <= j < columns.len() ==> (#[trigger] columns[j]).name@ != name,
    ensures
        !row_features(columns, i).contains_key(name),
    decreases columns.len(),
{
    if columns.len() > 0 {
        assert forall|j: int| 0 <= j < columns.drop_last().len() implies (
        #[trigger] columns.drop_last()[j]).name@ != name by {
            assert(columns.drop_last()[j] == columns[j]);
        }
        lemma_row_feature_absent(columns.drop_last(), i, name);
        assert(columns[columns.len() - 1].name@ != name);
    }
}

/// Every feature one row of a frame presents: each floating-point column's value as a
/// number and each 32-bit integer column's as a category code, skipping nulls and
/// columns of any other dtype.
pub fn extract_row_features(df: &Frame, row_idx: usize) -> (res: Features)
    requires
        df.wf(),
        row_idx < df.height,
    ensures
        res@ == row_features(df.columns@, row_idx as int),
{
    let mut features = Features::new();
    let mut j: usize = 0;
    while j < df.columns.len()
        invariant
            df.wf(),
            row_idx < df.height,
            j <= df.columns.len(),
            features@ == row_features(df.columns@.take(j as int), row_idx as int),
        decreases df.columns.len() - j,
    {
        let column = &df.columns[j];
        assert(df.columns@.take(j + 1).drop_last() =~= df.columns@.take(j as int));
        assert(df.columns@.take(j + 1).last() == df.columns@[j as int]);
        assert(column.values.spec_len() == df.height);
        match &column.values {
            ColumnValues::Float(v) => {
                if let Some(q) = v[row_idx] {
                    features.insert(column.name.clone(), FeatureValue::Numeric(q));
                }
            },
            ColumnValues::Int32(v) => {
                if let Some(c) = v[row_idx] {
                    features.insert(column.name.clone(), FeatureValue::Categorical(c));
                }
            },
            _ => {},
        }
        j += 1;
    }
    assert(df.columns@.take(df.columns.len() as int) =~= df.columns@);
    features
}

} // verus!
