//! Columnar data, as the matcher reads it.
//!
//! A frame is a set of equally long, uniquely named columns. Only two kinds of column
//! are ever read as features: a floating-point one, whose entries are compared against
//! band bounds, and a 32-bit integer one, whose entries are category codes. Every other
//! column is carried by its length and by whether its dtype is numeric, which is all
//! the matcher needs to know to refuse or ignore it.
use crate::quantity::Quantity;
use vstd::prelude::*;

verus! {

/// The entries of one column.
#[derive(Debug, Clone)]
pub enum ColumnValues {
    /// A 64-bit floating-point column: numbers that can be banded. `None` is a null.
    Float(Vec<Option<Quantity>>),
    /// A 32-bit integer column: category codes. `None` is a null.
    Int32(Vec<Option<i32>>),
    /// Any other integer dtype whose values fit in 64 bits. The matcher cannot read it,
    /// but it can be cast to category codes.
    Int64(Vec<Option<i64>>),
    /// A boolean column.
    Bool(Vec<Option<bool>>),
    /// Text: a string, categorical or enum column. `None` is a null.
    Text(Vec<Option<String>>),
    /// Another primitive numeric dtype (such as a 32-bit float), by its length. The
    /// matcher cannot read it.
    OtherNumeric(usize),
    /// Any non-numeric dtype, by its length.
    Other(usize),
}

impl ColumnValues {
    pub open spec fn spec_len(&self) -> nat {
        match self {
            ColumnValues::Float(v) => v@.len(),
            ColumnValues::Int32(v) => v@.len(),
            ColumnValues::Int64(v) => v@.len(),
            ColumnValues::Bool(v) => v@.len(),
            ColumnValues::Text(v) => v@.len(),
            ColumnValues::OtherNumeric(n) => *n as nat,
            ColumnValues::Other(n) => *n as nat,
        }
    }

    /// Number of entries.
    pub fn len(&self) -> (res: usize)
        ensures
            res == self.spec_len(),
    {
        match self {
            ColumnValues::Float(v) => v.len(),
            ColumnValues::Int32(v) => v.len(),
            ColumnValues::Int64(v) => v.len(),
            ColumnValues::Bool(v) => v.len(),
            ColumnValues::Text(v) => v.len(),
            ColumnValues::OtherNumeric(n) => *n,
            ColumnValues::Other(n) => *n,
        }
    }
}

/// A named column.
#[derive(Debug, Clone)]
pub struct FrameColumn {
    pub name: String,
    pub values: ColumnValues,
}

/// Why a set of columns does not make a frame.
#[derive(Debug, Clone, PartialEq, Eq)]
pub enum FrameError {
    /// Two columns share this name.
    DuplicateName(String),
    /// This column's length differs from the first column's.
    LengthMismatch(String),
}

/// Equally long, uniquely named columns.
#[derive(Debug, Clone)]
pub struct Frame {
    pub columns: Vec<FrameColumn>,
    pub height: usize,
}

/// No two of these columns share a name.
pub open spec fn distinct_names(columns: Seq<FrameColumn>) -> bool {
    forall|a: int, b: int|
        0 <= a < columns.len() && 0 <= b < columns.len() && a != b ==> columns[a].name@
            != columns[b].name@
}

impl Frame {
    /// Every column has `height` entries and no two columns share a name.
    pub open spec fn wf(&self) -> bool {
        &&& forall|j: int|
            0 <= j < self.columns.len() ==> (#[trigger] self.columns[j]).values.spec_len()
                == self.height
        &&& distinct_names(self.columns@)
    }

    /// The index of the column called `name`, if there is one.
    pub open spec fn spec_index_of(&self, name: Seq<char>) -> Option<int> {
        if exists|j: int| 0 <= j < self.columns.len() && (#[trigger] self.columns[j]).name@ == name {
            Some(choose|j: int| 0 <= j < self.columns.len() && (#[trigger] self.columns[j]).name@ == name)
        } else {
            None
        }
    }

    /// Builds a frame, refusing duplicate names and columns of unequal length.
    ///
    /// The height is the first column's length, or zero for a frame with no columns.
    pub fn new(columns: Vec<FrameColumn>) -> (res: Result<Frame, FrameError>)
        ensures
            match res {
                Ok(frame) => {
                    &&& frame.wf()
                    &&& frame.columns@ == columns@
                    &&& frame.height == (if columns.len() == 0 {
                        0
                    } else {
                        columns@[0].values.spec_len()
                    })
                },
                Err(FrameError::DuplicateName(name)) => !distinct_names(columns@) && exists|
                    a: int,
                    b: int,
                |
                    0 <= a < b < columns.len() && columns@[a].name@ == name@ && columns@[b].name@
                        == name@,
                Err(FrameError::LengthMismatch(name)) => exists|j: int|
                    0 <= j < columns.len() && columns@[j].name@ == name@
                        && columns@[j].values.spec_len() != columns@[0].values.spec_len(),
            },
            (distinct_names(columns@) && forall|j: int|
                0 <= j < columns.len() ==> (#[trigger] columns@[j]).values.spec_len()
                    == columns@[0].values.spec_len()) ==> res is Ok,
    {
        let height = if columns.len() == 0 {
            0
        } else {
            columns[0].values.len()
        };
        let mut j: usize = 0;
        while j < columns.len()
            invariant
                j <= columns.len(),
                columns.len() > 0 ==> height == columns@[0].values.spec_len(),
                forall|k: int| 0 <= k < j ==> (#[trigger] columns@[k]).values.spec_len() == height,
                forall|a: int, b: int|
                    0 <= a < j && 0 <= b < j && a != b ==> columns@[a].name@ != columns@[b].name@,
            decreases columns.len() - j,
        {
            if columns[j].values.len() != height {
                return Err(FrameError::LengthMismatch(columns[j].name.clone()));
            }
            let mut k: usize = 0;
            while k < j
                invariant
                    k <= j < columns.len(),
                    forall|a: int| 0 <= a < k ==> columns@[a].name@ != columns@[j as int].name@,
                decreases j - k,
            {
                if columns[k].name == columns[j].name {
                    return Err(FrameError::DuplicateName(columns[j].name.clone()));
                }
                k += 1;
            }
            j += 1;
        }
        Ok(Frame { columns, height })
    }

    /// The index of the column called `name`, if there is one.
    pub fn index_of(&self, name: &String) -> (res: Option<usize>)
        requires
            self.wf(),
        ensures
            res == (match self.spec_index_of(name@) {
                Some(j) => Some(j as usize),
                None => None,
            }),
            res matches Some(j) ==> j < self.columns.len() && self.columns@[j as int].name@
                == name@,
    {
        let mut j: usize = 0;
        while j < self.columns.len()
            invariant
                self.wf(),
                j <= self.columns.len(),
                forall|k: int| 0 <= k < j ==> self.columns@[k].name@ != name@,
            decreases self.columns.len() - j,
        {
            if self.columns[j].name == *name {
                proof {
                    let c = choose|c: int|
                        0 <= c < self.columns.len() && (#[trigger] self.columns[c]).name@ == name@;
                    if c != j as int {
                        assert(self.columns@[c].name@ != self.columns@[j as int].name@);
                    }
                }
                return Some(j);
            }
            j += 1;
        }
        None
    }
}


/// Why columns cannot be selected from a frame.
#[derive(Debug, Clone, PartialEq, Eq)]
pub enum SelectError {
    /// No column has this name.
    NotFound(String),
    /// This name is asked for more than once.
    Duplicate(String),
}

/// Names as views.
pub open spec fn name_views(names: Seq<String>) -> Seq<Seq<char>> {
    names.map_values(|s: String| s@)
}

/// Every name is a column of the frame, and no name is asked for twice.
pub open spec fn selectable(f: Frame, names: Seq<Seq<char>>) -> bool {
    &&& forall|k: int| 0 <= k < names.len() ==> (f.spec_index_of(#[trigger] names[k]) is Some)
    &&& forall|a: int, b: int| 0 <= a < b < names.len() ==> names[a] != names[b]
}

/// `g` holds the frame's columns of these names, in this order.
pub open spec fn is_selection(g: Frame, f: Frame, names: Seq<Seq<char>>) -> bool {
    &&& g.height == f.height
    &&& g.columns.len() == names.len()
    &&& forall|k: int|
        0 <= k < names.len() ==> #[trigger] g.columns@[k] == f.columns@[f.spec_index_of(
            names[k],
        )->0]
}

/// What selecting these names from the frame gives: the first name, in order, that is
/// no column is refused; failing that, a name asked for twice is refused.
pub open spec fn select_result(f: Frame, names: Seq<Seq<char>>, res: Result<Frame, SelectError>) -> bool {
    match res {
        Ok(g) => selectable(f, names) && g.wf() && is_selection(g, f, names),
        Err(SelectError::NotFound(n)) => exists|k: int|
            0 <= k < names.len() && #[trigger] names[k] == n@ && f.spec_index_of(n@) is None
                && forall|j: int| 0 <= j < k ==> (f.spec_index_of(#[trigger] names[j]) is Some),
        Err(SelectError::Duplicate(n)) => {
            &&& forall|k: int| 0 <= k < names.len() ==> (f.spec_index_of(#[trigger] names[k]) is Some)
            &&& exists|a: int, b: int|
                0 <= a < b < names.len() && #[trigger] names[a] == n@ && #[trigger] names[b] == n@
        },
    }
}

/// Whether column `i` was taken by one of the first `k` picks.
pub open spec fn taken(idx: Seq<usize>, k: int, i: int) -> bool {
    exists|m: int| 0 <= m < k && idx[m] as int == i
}

impl Frame {
    /// The columns of these names, in this order.
    pub fn select(self, names: &Vec<String>) -> (res: Result<Frame, SelectError>)
        requires
            self.wf(),
        ensures
            select_result(self, name_views(names@), res),
    {
        let ghost nv = name_views(names@);
        let ghost orig = self.columns@;
        let mut idx: Vec<usize> = Vec::new();
        let mut k: usize = 0;
        while k < names.len()
            invariant
                self.wf(),
                orig == self.columns@,
                nv == name_views(names@),
                k <= names.len(),
                idx.len() == k,
                forall|m: int|
                    0 <= m < k ==> Some(#[trigger] idx@[m] as int) == self.spec_index_of(nv[m]),
                forall|m: int|
                    0 <= m < k ==> idx@[m] < orig.len() && #[trigger] orig[idx@[m] as int].name@
                        == nv[m],
            decreases names.len() - k,
        {
            match self.index_of(&names[k]) {
                Some(j) => {
                    idx.push(j);
                },
                None => {
                    proof {
                        assert(nv[k as int] == names@[k as int]@);
                        assert forall|j: int| 0 <= j < k implies (self.spec_index_of(#[trigger] nv[j]) is Some) by {
                            assert(Some(idx@[j] as int) == self.spec_index_of(nv[j]));
                        }
                    }
                    return Err(SelectError::NotFound(names[k].clone()));
                },
            }
            k += 1;
        }
        proof {
            assert forall|j: int| 0 <= j < nv.len() implies (self.spec_index_of(#[trigger] nv[j]) is Some) by {
                assert(Some(idx@[j] as int) == self.spec_index_of(nv[j]));
            }
        }
        let mut b: usize = 0;
        while b < names.len()
            invariant
                nv == name_views(names@),
                b <= names.len(),
                forall|x: int, y: int| 0 <= x < y < b ==> nv[x] != nv[y],
                forall|j: int| 0 <= j < nv.len() ==> (self.spec_index_of(#[trigger] nv[j]) is Some),
            decreases names.len() - b,
        {
            let mut a: usize = 0;
            while a < b
                invariant
                    nv == name_views(names@),
                    a <= b < names.len(),
                    forall|x: int| 0 <= x < a ==> nv[x] != nv[b as int],
                    forall|j: int| 0 <= j < nv.len() ==> (self.spec_index_of(#[trigger] nv[j]) is Some),
                decreases b - a,
            {
                if names[a] == names[b] {
                    proof {
                        assert(nv[a as int] == names@[a as int]@);
                        assert(nv[b as int] == names@[b as int]@);
                    }
                    let n = names[b].clone();
                    proof {
                        assert(n@ == nv[b as int]);
                        assert(nv[a as int] == n@);
                    }
                    return Err(SelectError::Duplicate(n));
                }
                a += 1;
            }
            b += 1;
        }
        let height = self.height;
        let mut cols = self.columns;
        let mut slots: Vec<Option<FrameColumn>> = Vec::new();
        while cols.len() > 0
            invariant
                slots.len() + cols.len() == orig.len(),
                cols@ == orig.skip(slots.len() as int),
                forall|i: int| 0 <= i < slots.len() ==> #[trigger] slots@[i] == Some(orig[i]),
            decreases cols.len(),
        {
            let c = cols.remove(0);
            proof {
                assert(c == orig[slots.len() as int]);
            }
            slots.push(Some(c));
            proof {
                assert(cols@ =~= orig.skip(slots.len() as int));
            }
        }
        let mut out: Vec<FrameColumn> = Vec::new();
        let mut k: usize = 0;
        while k < names.len()
            invariant
                nv == name_views(names@),
                idx.len() == names.len(),
                slots.len() == orig.len(),
                k <= names.len(),
                out.len() == k,
                forall|x: int, y: int| 0 <= x < y < nv.len() ==> nv[x] != nv[y],
                forall|m: int|
                    0 <= m < nv.len() ==> idx@[m] < orig.len() && #[trigger] orig[idx@[m] as int].name@
                        == nv[m],
                forall|i: int|
                    0 <= i < slots.len() ==> #[trigger] slots@[i] == (if taken(idx@, k as int, i) {
                        None
                    } else {
                        Some(orig[i])
                    }),
                forall|m: int| 0 <= m < k ==> #[trigger] out@[m] == orig[idx@[m] as int],
            decreases names.len() - k,
        {
            let j = idx[k];
            proof {
                assert(orig[idx@[k as int] as int].name@ == nv[k as int]);
                if taken(idx@, k as int, j as int) {
                    let m = choose|m: int| 0 <= m < k && idx@[m] as int == j as int;
                    assert(orig[idx@[m] as int].name@ == nv[m]);
                    assert(orig[idx@[k as int] as int].name@ == nv[k as int]);
                    assert(false);
                }
            }
            let c = slots[j].take();
            match c {
                Some(c) => {
                    out.push(c);
                },
                None => {
                    proof {
                        assert(false);
                    }
                    return Err(SelectError::NotFound(names[k].clone()));
                },
            }
            proof {
                assert forall|i: int| 0 <= i < slots.len() implies #[trigger] slots@[i] == (if taken(
                    idx@,
                    k + 1,
                    i,
                ) {
                    None
                } else {
                    Some(orig[i])
                }) by {
                    if i == j as int {
                        assert(idx@[k as int] as int == i);
                    } else {
                        if taken(idx@, k + 1, i) {
                            let m = choose|m: int| 0 <= m < k + 1 && idx@[m] as int == i;
                            assert(m < k);
                            assert(taken(idx@, k as int, i));
                        }
                    }
                }
            }
            k += 1;
        }
        let g = Frame { columns: out, height };
        proof {
            assert forall|m: int| 0 <= m < nv.len() implies #[trigger] g.columns@[m] == orig[self.spec_index_of(
                nv[m],
            )->0] by {
                assert(Some(idx@[m] as int) == self.spec_index_of(nv[m]));
            }
            assert forall|m: int| 0 <= m < g.columns.len() implies (#[trigger] g.columns@[m]).values.spec_len()
                == g.height by {
                assert(orig[idx@[m] as int].values.spec_len() == height);
            }
            assert forall|x: int, y: int|
                0 <= x < g.columns.len() && 0 <= y < g.columns.len() && x != y implies g.columns@[x].name@
                != g.columns@[y].name@ by {
                if x < y {
                    assert(nv[x] != nv[y]);
                } else {
                    assert(nv[y] != nv[x]);
                }
            }
        }
        Ok(g)
    }
}

} // verus!
