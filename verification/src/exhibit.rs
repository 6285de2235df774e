//! What a rating table shows a reader beyond its factors: the level text beside each
//! category code, and how each row's factor came to be.
use crate::encoding::{label_of_first, Encoding};
use crate::frame::{ColumnValues, Frame, FrameColumn};
use crate::text::push_text;
use vstd::prelude::*;

verus! {

/// The level text a code stands for in a column: nothing for a null, for a column the
/// encoding does not know, or for a code it gives no level.
pub open spec fn label_of(e: Encoding, column: Seq<char>, v: Option<i32>) -> Option<Seq<char>> {
    match (v, e.spec_levels(column)) {
        (Some(c), Some(l)) => label_of_first(l, c),
        _ => None,
    }
}

/// An optional text as a view.
pub open spec fn text_view(t: Option<String>) -> Option<Seq<char>> {
    match t {
        Some(s) => Some(s@),
        None => None,
    }
}

/// The suffix of a level column's name.
pub open spec fn level_suffix() -> Seq<char> {
    seq!['_', 'L', 'e', 'v', 'e', 'l']
}

/// A code column the encoding knows is given a level column.
pub open spec fn is_labelled(e: Encoding, col: FrameColumn) -> bool {
    e.spec_levels(col.name@) is Some && col.values is Int32
}

/// `out` is the level column of `col`: named for it with `_Level` added, holding the
/// level text of each of its codes.
pub open spec fn labels(e: Encoding, col: FrameColumn, out: FrameColumn) -> bool {
    &&& out.name@ == col.name@ + level_suffix()
    &&& col.values matches ColumnValues::Int32(v) && out.values matches ColumnValues::Text(t) && t.len()
        == v.len() && forall|i: int| 0 <= i < v.len() ==> text_view(#[trigger] t@[i]) == label_of(
        e,
        col.name@,
        v@[i],
    )
}

/// `out` holds a level column for each labelled column of `cols`, in column order.
pub open spec fn lists_levels(e: Encoding, cols: Seq<FrameColumn>, out: Seq<FrameColumn>) -> bool
    decreases cols.len(),
{
    if cols.len() == 0 {
        out.len() == 0
    } else if is_labelled(e, cols.last()) {
        &&& out.len() > 0
        &&& labels(e, cols.last(), out.last())
        &&& lists_levels(e, cols.drop_last(), out.drop_last())
    } else {
        lists_levels(e, cols.drop_last(), out)
    }
}

/// The level column of a code column the encoding knows; nothing for any other column.
pub fn level_column(e: &Encoding, col: &FrameColumn) -> (res: Option<FrameColumn>)
    requires
        e.wf(),
    ensures
        match res {
            Some(out) => is_labelled(*e, *col) && labels(*e, *col, out),
            None => !is_labelled(*e, *col),
        },
{
    if !e.is_encoded(&col.name) {
        return None;
    }
    match &col.values {
        ColumnValues::Int32(v) => {
            let mut texts: Vec<Option<String>> = Vec::new();
            let mut i: usize = 0;
            while i < v.len()
                invariant
                    e.wf(),
                    e.spec_levels(col.name@) is Some,
                    col.values == ColumnValues::Int32(*v),
                    i <= v.len(),
                    texts.len() == i,
                    forall|k: int| 0 <= k < i ==> text_view(#[trigger] texts@[k]) == label_of(
                        *e,
                        col.name@,
                        v@[k],
                    ),
                decreases v.len() - i,
            {
                let label = match v[i] {
                    Some(c) => match e.label_for(&col.name, c) {
                        Some(s) => Some(s.clone()),
                        None => None,
                    },
                    None => None,
                };
                texts.push(label);
                i += 1;
            }
            let mut name = col.name.clone();
            push_text(&mut name, "_Level");
            proof {
                reveal_strlit("_Level");
                assert(name@ == col.name@ + level_suffix());
            }
            Some(FrameColumn { name, values: ColumnValues::Text(texts) })
        },
        _ => None,
    }
}

/// The level columns of a frame: one for each code column the encoding knows, in
/// column order.
pub fn level_columns(e: &Encoding, frame: &Frame) -> (res: Vec<FrameColumn>)
    requires
        e.wf(),
    ensures
        lists_levels(*e, frame.columns@, res@),
{
    let cols = &frame.columns;
    let mut out: Vec<FrameColumn> = Vec::new();
    let mut j: usize = 0;
    while j < cols.len()
        invariant
            e.wf(),
            j <= cols.len(),
            lists_levels(*e, cols@.take(j as int), out@),
        decreases cols.len() - j,
    {
        proof {
            assert(cols@.take(j + 1).drop_last() =~= cols@.take(j as int));
            assert(cols@.take(j + 1).last() == cols@[j as int]);
        }
        let ghost before = out@;
        match level_column(e, &cols[j]) {
            Some(c) => {
                out.push(c);
                proof {
                    assert(out@.drop_last() =~= before);
                }
            },
            None => {},
        }
        j += 1;
    }
    proof {
        assert(cols@.take(cols.len() as int) =~= cols@);
    }
    out
}

/// How a row's factor came to be.
#[derive(Debug, Clone, Copy, PartialEq, Eq, Structural)]
pub enum RowStatus {
    /// No observation fell in the row, so the fit never moved its factor.
    NoData,
    /// The row's factor could not be told apart from others'.
    Aliased,
    /// The row is the reference the others are measured against: its standard error
    /// is zero.
    Reference,
    /// An ordinary estimate.
    Estimated,
}

impl RowStatus {
    pub fn as_str(&self) -> (res: &'static str)
        ensures
            res@ == match self {
                RowStatus::NoData => "no_data"@,
                RowStatus::Aliased => "aliased"@,
                RowStatus::Reference => "reference"@,
                RowStatus::Estimated => "estimated"@,
            },
    {
        match self {
            RowStatus::NoData => "no_data",
            RowStatus::Aliased => "aliased",
            RowStatus::Reference => "reference",
            RowStatus::Estimated => "estimated",
        }
    }
}

/// Whether (table, row) is listed.
pub open spec fn listed(rows: Seq<(usize, usize)>, t: int, r: int) -> bool {
    exists|k: int| 0 <= k < rows.len() && #[trigger] rows[k] == (t as usize, r as usize)
}

/// The status of row `r` of table `t`: a row without data first, then an aliased
/// row, then a row whose standard error is zero.
pub open spec fn status_of(
    unfitted: Seq<(usize, usize)>,
    aliased: Seq<(usize, usize)>,
    zero_error: Seq<bool>,
    t: int,
    r: int,
) -> RowStatus {
    if listed(unfitted, t, r) {
        RowStatus::NoData
    } else if listed(aliased, t, r) {
        RowStatus::Aliased
    } else if r < zero_error.len() && zero_error[r] {
        RowStatus::Reference
    } else {
        RowStatus::Estimated
    }
}

/// Whether a pair is in the list.
fn contains_pair(rows: &Vec<(usize, usize)>, t: usize, r: usize) -> (res: bool)
    ensures
        res == listed(rows@, t as int, r as int),
{
    let mut k: usize = 0;
    while k < rows.len()
        invariant
            k <= rows.len(),
            forall|j: int| 0 <= j < k ==> rows@[j] != (t, r),
        decreases rows.len() - k,
    {
        if rows[k].0 == t && rows[k].1 == r {
            proof {
                assert(rows@[k as int] == (t, r));
            }
            return true;
        }
        k += 1;
    }
    false
}

/// A row with data that is not aliased is the reference exactly when its standard
/// error is zero, and an estimate otherwise, wherever it stands in the table. What the
/// other rows' errors are does not change it.
pub proof fn law_reference_rows(
    unfitted: Seq<(usize, usize)>,
    aliased: Seq<(usize, usize)>,
    zero_error: Seq<bool>,
    t: int,
    r: int,
)
    requires
        0 <= r,
    ensures
        listed(unfitted, t, r) ==> status_of(unfitted, aliased, zero_error, t, r) == RowStatus::NoData,
        !listed(unfitted, t, r) && listed(aliased, t, r) ==> status_of(unfitted, aliased, zero_error, t, r)
            == RowStatus::Aliased,
        !listed(unfitted, t, r) && !listed(aliased, t, r) ==> {
            &&& (status_of(unfitted, aliased, zero_error, t, r) == RowStatus::Reference <==> (r < zero_error.len()
                && zero_error[r]))
            &&& (status_of(unfitted, aliased, zero_error, t, r) == RowStatus::Estimated <==> !(r
                < zero_error.len() && zero_error[r]))
        },
        forall|j: int, b: bool|
            0 <= j < zero_error.len() && j != r ==> #[trigger] status_of(
                unfitted,
                aliased,
                zero_error.update(j, b),
                t,
                r,
            ) == status_of(unfitted, aliased, zero_error, t, r),
{
}

/// The status of each of the `n` rows of table `t`. `zero_error` says, row by row,
/// whether the row's standard error is zero; a row past its end is not.
pub fn row_statuses(
    t: usize,
    n: usize,
    unfitted: &Vec<(usize, usize)>,
    aliased: &Vec<(usize, usize)>,
    zero_error: &Vec<bool>,
) -> (res: Vec<RowStatus>)
    ensures
        res.len() == n,
        forall|r: int| 0 <= r < n ==> #[trigger] res@[r] == status_of(
            unfitted@,
            aliased@,
            zero_error@,
            t as int,
            r,
        ),
        forall|r: int|
            0 <= r < n && !listed(unfitted@, t as int, r) && !listed(aliased@, t as int, r) ==> (
            #[trigger] res@[r] == RowStatus::Reference <==> (r < zero_error.len() && zero_error@[r])),
{
    let mut out: Vec<RowStatus> = Vec::new();
    let mut r: usize = 0;
    while r < n
        invariant
            r <= n,
            out.len() == r,
            forall|k: int| 0 <= k < r ==> #[trigger] out@[k] == status_of(
                unfitted@,
                aliased@,
                zero_error@,
                t as int,
                k,
            ),
        decreases n - r,
    {
        let status = if contains_pair(unfitted, t, r) {
            RowStatus::NoData
        } else if contains_pair(aliased, t, r) {
            RowStatus::Aliased
        } else if r < zero_error.len() && zero_error[r] {
            RowStatus::Reference
        } else {
            RowStatus::Estimated
        };
        out.push(status);
        r += 1;
    }
    out
}

} // verus!
