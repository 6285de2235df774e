//! The checks a fit makes before it starts iterating.
//!
//! The iteration itself is floating-point work; what is decided here is whether the
//! model and data can be fitted at all, and the first reason why not.
use crate::frame::Frame;
use crate::matching::NO_MATCH;
use crate::quantity::Quantity;
use crate::rating_model::{RatingModel, TableSemantics};
use vstd::prelude::*;

verus! {

/// Why a fit cannot start.
#[derive(Debug, Clone, PartialEq, Eq)]
pub enum FitError {
    /// The training data has no rows.
    NoRows,
    /// The target column is not in the data.
    MissingTarget { column: String },
    /// The weight column is not in the data.
    MissingWeight { column: String },
    /// The offset column is not in the data.
    MissingOffset { column: String },
    /// A model needs the intercept and at least one table to fit.
    TooFewTables,
    /// A variate table has a locked row: every factor comes from one curve, so one row
    /// cannot be pinned.
    LockedVariateRow { table: usize, row: usize },
    /// The intercept must have exactly one row.
    InterceptRows { rows: usize },
    /// Some observations fall in no row of a table.
    Unmatched { table: usize, unmatched: usize, rows: usize, first: usize },
}

/// Whether the frame has a column of this name.
pub open spec fn has_column(df: Frame, name: Seq<char>) -> bool {
    df.spec_index_of(name) is Some
}

/// The first locked row of a variate table, if it has one.
pub open spec fn locked_variate_row(model: RatingModel, t: int, r: int) -> bool {
    &&& model.tables@[t].metadata.semantics is Variate
    &&& 0 <= r < model.tables@[t].data.height
    &&& model.tables@[t].spec_is_row_offset(r)
    &&& forall|q: int| 0 <= q < r ==> !#[trigger] model.tables@[t].spec_is_row_offset(q)
}

/// A variate table with a locked row.
pub open spec fn variate_locked(model: RatingModel, t: int) -> bool {
    model.tables@[t].metadata.semantics is Variate && exists|r: int|
        0 <= r < model.tables@[t].data.height && #[trigger] model.tables@[t].spec_is_row_offset(r)
}

/// The result refuses a missing column: the target (0), the weight (1) or the offset
/// (2), by name.
pub open spec fn fails_for_column(res: Result<(), FitError>, which: int, name: Seq<char>) -> bool {
    match res {
        Err(FitError::MissingTarget { column }) => which == 0 && column@ == name,
        Err(FitError::MissingWeight { column }) => which == 1 && column@ == name,
        Err(FitError::MissingOffset { column }) => which == 2 && column@ == name,
        _ => false,
    }
}

/// The first failing precondition of a fit, checked in this order: no rows, a missing
/// target, weight or offset column, fewer than two tables, a variate table with a
/// locked row (the first such table, and its first locked row), an intercept that is
/// not one row.
pub fn validate_inputs(model: &RatingModel, df: &Frame, target: &String, weight: Option<&String>, offset: Option<&String>) -> (res: Result<(), FitError>)
    requires
        df.wf(),
        model.wf(),
    ensures
        df.height == 0 ==> res == Err::<(), FitError>(FitError::NoRows),
        df.height > 0 && !has_column(*df, target@) ==> fails_for_column(res, 0, target@),
        df.height > 0 && has_column(*df, target@) && weight is Some && !has_column(*df, weight->0@)
            ==> fails_for_column(res, 1, weight->0@),
        ({
            let columns_ok = df.height > 0 && has_column(*df, target@) && (weight is Some ==> has_column(
                *df,
                weight->0@,
            ));
            &&& columns_ok && offset is Some && !has_column(*df, offset->0@) ==> fails_for_column(
                res,
                2,
                offset->0@,
            )
            &&& columns_ok && (offset is Some ==> has_column(*df, offset->0@)) ==> {
                &&& model.tables.len() < 2 ==> res == Err::<(), FitError>(FitError::TooFewTables)
                &&& model.tables.len() >= 2 ==> match res {
                    Err(FitError::LockedVariateRow { table, row }) => {
                        &&& table < model.tables.len()
                        &&& locked_variate_row(*model, table as int, row as int)
                        &&& forall|u: int| 0 <= u < table ==> !#[trigger] variate_locked(*model, u)
                    },
                    Err(FitError::InterceptRows { rows }) => {
                        &&& forall|u: int| 0 <= u < model.tables.len() ==> !#[trigger] variate_locked(*model, u)
                        &&& rows == model.tables@[0].data.height
                        &&& rows != 1
                    },
                    Ok(()) => {
                        &&& forall|u: int| 0 <= u < model.tables.len() ==> !#[trigger] variate_locked(*model, u)
                        &&& model.tables@[0].data.height == 1
                    },
                    _ => false,
                }
            }
        }),
{
    if df.height == 0 {
        return Err(FitError::NoRows);
    }
    if df.index_of(target).is_none() {
        return Err(FitError::MissingTarget { column: target.clone() });
    }
    if let Some(w) = weight {
        if df.index_of(w).is_none() {
            return Err(FitError::MissingWeight { column: w.clone() });
        }
    }
    if let Some(o) = offset {
        if df.index_of(o).is_none() {
            return Err(FitError::MissingOffset { column: o.clone() });
        }
    }
    if model.tables.len() < 2 {
        return Err(FitError::TooFewTables);
    }
    let mut t: usize = 0;
    while t < model.tables.len()
        invariant
            df.height > 0,
            has_column(*df, target@),
            weight is Some ==> has_column(*df, weight->0@),
            offset is Some ==> has_column(*df, offset->0@),
            model.tables.len() >= 2,
            model.wf(),
            t <= model.tables.len(),
            forall|u: int| 0 <= u < t ==> !#[trigger] variate_locked(*model, u),
        decreases model.tables.len() - t,
    {
        let table = &model.tables[t];
        if let TableSemantics::Variate { .. } = &table.metadata.semantics {
            let mut r: usize = 0;
            while r < table.data.height
                invariant
                    df.height > 0,
                    has_column(*df, target@),
                    weight is Some ==> has_column(*df, weight->0@),
                    offset is Some ==> has_column(*df, offset->0@),
                    model.tables.len() >= 2,
                    model.wf(),
                    t < model.tables.len(),
                    forall|u: int| 0 <= u < t ==> !#[trigger] variate_locked(*model, u),
                    *table == model.tables@[t as int],
                    table.metadata.semantics is Variate,
                    r <= table.data.height,
                    forall|q: int| 0 <= q < r ==> !#[trigger] table.spec_is_row_offset(q),
                decreases table.data.height - r,
            {
                if table.is_row_offset(r) {
                    return Err(FitError::LockedVariateRow { table: t, row: r });
                }
                r += 1;
            }
        }
        t += 1;
    }
    if model.tables[0].data.height != 1 {
        return Err(FitError::InterceptRows { rows: model.tables[0].data.height });
    }
    Ok(())
}

/// How many observations fall in no row.
pub open spec fn unmatched_count(matches: Seq<u32>) -> nat
    decreases matches.len(),
{
    if matches.len() == 0 {
        0
    } else {
        unmatched_count(matches.drop_last()) + if matches.last() == NO_MATCH {
            1nat
        } else {
            0nat
        }
    }
}

/// A table in which some observation falls in no row.
pub open spec fn has_unmatched(matches: Seq<u32>) -> bool {
    exists|i: int| 0 <= i < matches.len() && #[trigger] matches[i] == NO_MATCH
}

/// Refuses the first table in which some observation falls in no row, saying how many
/// do and where the first is.
pub fn validate_matches(matches: &Vec<Vec<u32>>, n_rows: usize) -> (res: Result<(), FitError>)
    ensures
        match res {
            Ok(()) => forall|t: int| 0 <= t < matches.len() ==> !has_unmatched(#[trigger] matches@[t]@),
            Err(FitError::Unmatched { table, unmatched, rows, first }) => {
                &&& table < matches.len()
                &&& forall|u: int| 0 <= u < table ==> !has_unmatched(#[trigger] matches@[u]@)
                &&& unmatched == unmatched_count(matches@[table as int]@)
                &&& unmatched > 0
                &&& rows == n_rows
                &&& first < matches@[table as int].len()
                &&& matches@[table as int]@[first as int] == NO_MATCH
                &&& forall|i: int| 0 <= i < first ==> matches@[table as int]@[i] != NO_MATCH
            },
            Err(_) => false,
        },
{
    let mut t: usize = 0;
    while t < matches.len()
        invariant
            t <= matches.len(),
            forall|u: int| 0 <= u < t ==> !has_unmatched(#[trigger] matches@[u]@),
        decreases matches.len() - t,
    {
        let m = &matches[t];
        let mut first: usize = 0;
        while first < m.len() && m[first] != NO_MATCH
            invariant
                first <= m.len(),
                forall|i: int| 0 <= i < first ==> m@[i] != NO_MATCH,
            decreases m.len() - first,
        {
            first += 1;
        }
        if first < m.len() {
            let mut count: usize = 0;
            let mut i: usize = 0;
            while i < m.len()
                invariant
                    i <= m.len(),
                    count == unmatched_count(m@.take(i as int)),
                    count <= i,
                decreases m.len() - i,
            {
                proof {
                    assert(m@.take(i + 1).drop_last() =~= m@.take(i as int));
                }
                if m[i] == NO_MATCH {
                    count += 1;
                }
                i += 1;
            }
            proof {
                assert(m@.take(m.len() as int) =~= m@);
                lemma_unmatched_positive(m@, first as int);
            }
            return Err(FitError::Unmatched { table: t, unmatched: count, rows: n_rows, first });
        }
        t += 1;
    }
    Ok(())
}

/// One unmatched observation makes the count positive.
proof fn lemma_unmatched_positive(m: Seq<u32>, i: int)
    requires
        0 <= i < m.len(),
        m[i] == NO_MATCH,
    ensures
        unmatched_count(m) > 0,
    decreases m.len(),
{
    if i < m.len() - 1 {
        assert(m.drop_last()[i] == m[i]);
        lemma_unmatched_positive(m.drop_last(), i);
    }
}


// ---------------------------------------------------------------- sweeps

/// How strongly table `t` is coupled to any other: the greatest correlation of a pair
/// it belongs to, by order key, and never below zero; undefined correlations count for
/// nothing.
pub open spec fn coupling_of(pairs: Seq<(usize, usize, Quantity)>, t: int) -> i64
    decreases pairs.len(),
{
    if pairs.len() == 0 {
        0
    } else {
        let c = coupling_of(pairs.drop_last(), t);
        let p = pairs.last();
        match p.2 {
            Quantity::Ordered(k) => if (p.0 == t || p.1 == t) && k > c {
                k
            } else {
                c
            },
            Quantity::Undefined => c,
        }
    }
}

/// Table `a` is swept before table `b`: more strongly coupled, or as strongly coupled
/// and earlier.
pub open spec fn swept_before(coupling: Seq<i64>, a: int, b: int) -> bool {
    coupling[a] > coupling[b] || (coupling[a] == coupling[b] && a < b)
}

/// The order tables are swept in: most strongly coupled first, ties in table order, so
/// a near-aliased pair is updated early in every sweep.
pub fn sweep_order(pairs: &Vec<(usize, usize, Quantity)>, n_tables: usize) -> (res: Vec<usize>)
    requires
        forall|k: int| 0 <= k < pairs.len() ==> (#[trigger] pairs@[k]).0 < n_tables && pairs@[k].1 < n_tables,
    ensures
        res.len() == n_tables,
        forall|i: int| 0 <= i < n_tables ==> (#[trigger] res@[i]) < n_tables,
        forall|i: int, j: int| 0 <= i < j < n_tables ==> res@[i] != res@[j],
        forall|i: int, j: int|
            0 <= i < j < n_tables ==> swept_before(
                Seq::new(n_tables as nat, |t: int| coupling_of(pairs@, t)),
                res@[i] as int,
                res@[j] as int,
            ),
{
    let mut coupling: Vec<i64> = Vec::new();
    let mut t: usize = 0;
    while t < n_tables
        invariant
            t <= n_tables,
            coupling.len() == t,
            forall|u: int| 0 <= u < t ==> #[trigger] coupling@[u] == 0,
        decreases n_tables - t,
    {
        coupling.push(0);
        t += 1;
    }
    let mut k: usize = 0;
    while k < pairs.len()
        invariant
            k <= pairs.len(),
            coupling.len() == n_tables,
            forall|j: int| 0 <= j < pairs.len() ==> (#[trigger] pairs@[j]).0 < n_tables && pairs@[j].1 < n_tables,
            forall|u: int| 0 <= u < n_tables ==> #[trigger] coupling@[u] == coupling_of(pairs@.take(k as int), u),
        decreases pairs.len() - k,
    {
        let (a, b, q) = pairs[k];
        proof {
            assert(pairs@.take(k + 1).drop_last() =~= pairs@.take(k as int));
            assert(pairs@.take(k + 1).last() == pairs@[k as int]);
        }
        if let Quantity::Ordered(x) = q {
            if x > coupling[a] {
                coupling.set(a, x);
            }
            if x > coupling[b] {
                coupling.set(b, x);
            }
        }
        k += 1;
    }
    proof {
        assert(pairs@.take(pairs.len() as int) =~= pairs@);
    }
    let ghost key = Seq::new(n_tables as nat, |u: int| coupling_of(pairs@, u));
    let mut order: Vec<usize> = Vec::new();
    let mut t: usize = 0;
    while t < n_tables
        invariant
            t <= n_tables,
            coupling.len() == n_tables,
            key == Seq::new(n_tables as nat, |u: int| coupling_of(pairs@, u)),
            forall|u: int| 0 <= u < n_tables ==> #[trigger] coupling@[u] == key[u],
            order.len() == t,
            forall|i: int| 0 <= i < t ==> (#[trigger] order@[i]) < t,
            forall|i: int, j: int| 0 <= i < j < t ==> order@[i] != order@[j],
            forall|i: int, j: int| 0 <= i < j < t ==> swept_before(key, order@[i] as int, order@[j] as int),
        decreases n_tables - t,
    {
        let c = coupling[t];
        let mut p: usize = 0;
        while p < order.len() && coupling[order[p]] >= c
            invariant
                p <= order.len(),
                order.len() == t,
                t < n_tables,
                coupling.len() == n_tables,
                forall|i: int| 0 <= i < t ==> (#[trigger] order@[i]) < t,
                forall|i: int| 0 <= i < p ==> coupling@[order@[i] as int] >= c,
            decreases order.len() - p,
        {
            p += 1;
        }
        let ghost before = order@;
        order.insert(p, t);
        proof {
            assert forall|i: int| 0 <= i < t + 1 implies (#[trigger] order@[i]) < t + 1 by {
                if i < p {
                    assert(order@[i] == before[i]);
                } else if i > p {
                    assert(order@[i] == before[i - 1]);
                }
            }
            assert forall|i: int, j: int| 0 <= i < j < t + 1 implies order@[i] != order@[j] by {
                if i != p && j != p {
                    let bi = if i < p { i } else { i - 1 };
                    let bj = if j < p { j } else { j - 1 };
                    assert(order@[i] == before[bi] && order@[j] == before[bj]);
                } else if i == p {
                    let bj = if j < p { j } else { j - 1 };
                    assert(order@[j] == before[bj]);
                } else {
                    let bi = if i < p { i } else { i - 1 };
                    assert(order@[i] == before[bi]);
                }
            }
            assert forall|i: int, j: int| 0 <= i < j < t + 1 implies swept_before(key, order@[i] as int, order@[j] as int) by {
                if i != p && j != p {
                    let bi = if i < p { i } else { i - 1 };
                    let bj = if j < p { j } else { j - 1 };
                    assert(order@[i] == before[bi] && order@[j] == before[bj]);
                } else if j == p {
                    assert(order@[i] == before[i]);
                    assert(coupling@[before[i] as int] >= c);
                    assert(before[i] < t);
                } else {
                    let bj = j - 1;
                    assert(order@[j] == before[bj]);
                    assert(coupling@[before[p as int] as int] < c);
                    if bj > p {
                        assert(swept_before(key, before[p as int] as int, before[bj] as int));
                    }
                }
            }
        }
        t += 1;
    }
    order
}

/// The pairs are disjoint: no table is in two of them.
pub open spec fn disjoint_pairs(pairs: Seq<(usize, usize)>) -> bool {
    forall|i: int, j: int|
        0 <= i < j < pairs.len() ==> pairs[i].0 != pairs[j].0 && pairs[i].0 != pairs[j].1 && pairs[i].1
            != pairs[j].0 && pairs[i].1 != pairs[j].1
}

/// Whether table `t` is in one of the pairs.
pub open spec fn in_pairs(pairs: Seq<(usize, usize)>, t: usize) -> bool {
    exists|i: int| 0 <= i < pairs.len() && ((#[trigger] pairs[i]).0 == t || pairs[i].1 == t)
}

/// A pair with the table of more levels first.
pub open spec fn oriented(p: (usize, usize), shapes: Seq<usize>) -> (usize, usize) {
    if shapes[p.0 as int] >= shapes[p.1 as int] {
        p
    } else {
        (p.1, p.0)
    }
}

/// `p` is one of the first `bound` given pairs, oriented.
pub open spec fn from_aliased(p: (usize, usize), aliased: Seq<(usize, usize)>, shapes: Seq<usize>, bound: int) -> bool {
    exists|j: int| 0 <= j < bound && p == oriented(#[trigger] aliased[j], shapes)
}

/// The pairs taken from the first `k` given ones: each in turn, oriented, unless a
/// table of it is already in a pair taken.
pub open spec fn greedy_pairs(aliased: Seq<(usize, usize)>, shapes: Seq<usize>, k: int) -> Seq<(usize, usize)>
    decreases k,
{
    if k <= 0 {
        Seq::empty()
    } else {
        let prev = greedy_pairs(aliased, shapes, k - 1);
        let p = aliased[k - 1];
        if in_pairs(prev, p.0) || in_pairs(prev, p.1) {
            prev
        } else {
            prev.push(oriented(p, shapes))
        }
    }
}

/// Picks which near-aliased pairs to solve jointly, greedily and worst first: each
/// pair in the order given (worst first) is taken unless it shares a table with a pair
/// already taken, and leads with the table of more levels. So every table is updated
/// once per sweep.
pub fn choose_joint_pairs(aliased: &Vec<(usize, usize)>, shapes: &Vec<usize>) -> (res: Vec<(usize, usize)>)
    requires
        forall|k: int| 0 <= k < aliased.len() ==> (#[trigger] aliased@[k]).0 < shapes.len() && aliased@[k].1
            < shapes.len(),
    ensures
        res@ == greedy_pairs(aliased@, shapes@, aliased.len() as int),
        disjoint_pairs(res@),
        forall|i: int| 0 <= i < res.len() ==> from_aliased(#[trigger] res@[i], aliased@, shapes@, aliased.len() as int),
        forall|k: int|
            0 <= k < aliased.len() ==> in_pairs(res@, (#[trigger] aliased@[k]).0) || in_pairs(res@, aliased@[k].1),
{
    let mut taken: Vec<bool> = Vec::new();
    let mut t: usize = 0;
    while t < shapes.len()
        invariant
            t <= shapes.len(),
            taken.len() == t,
            forall|u: int| 0 <= u < t ==> !(#[trigger] taken@[u]),
        decreases shapes.len() - t,
    {
        taken.push(false);
        t += 1;
    }
    let mut pairs: Vec<(usize, usize)> = Vec::new();
    let mut k: usize = 0;
    while k < aliased.len()
        invariant
            k <= aliased.len(),
            taken.len() == shapes.len(),
            forall|j: int| 0 <= j < aliased.len() ==> (#[trigger] aliased@[j]).0 < shapes.len() && aliased@[j].1
                < shapes.len(),
            pairs@ == greedy_pairs(aliased@, shapes@, k as int),
            disjoint_pairs(pairs@),
            forall|u: int| 0 <= u < shapes.len() ==> (#[trigger] taken@[u] <==> in_pairs(pairs@, u as usize)),
            forall|i: int| 0 <= i < pairs.len() ==> from_aliased(#[trigger] pairs@[i], aliased@, shapes@, k as int),
            forall|j: int| 0 <= j < k ==> in_pairs(pairs@, (#[trigger] aliased@[j]).0) || in_pairs(pairs@, aliased@[j].1),
        decreases aliased.len() - k,
    {
        let (a, b) = aliased[k];
        let ghost before_all = pairs@;
        if !taken[a] && !taken[b] {
            let chosen = if shapes[a] >= shapes[b] { (a, b) } else { (b, a) };
            proof {
                assert(!in_pairs(pairs@, a) && !in_pairs(pairs@, b));
            }
            let ghost before = pairs@;
            pairs.push(chosen);
            taken.set(a, true);
            taken.set(b, true);
            proof {
                assert(pairs@[pairs.len() - 1] == chosen);
                assert forall|u: int| 0 <= u < shapes.len() implies (#[trigger] taken@[u] <==> in_pairs(pairs@, u as usize)) by {
                    if in_pairs(pairs@, u as usize) {
                        let i = choose|i: int| 0 <= i < pairs.len() && ((#[trigger] pairs@[i]).0 == u as usize || pairs@[i].1 == u as usize);
                        if i < before.len() {
                            assert(pairs@[i] == before[i]);
                            assert(in_pairs(before, u as usize));
                        }
                    }
                    if u != a as int && u != b as int && in_pairs(before, u as usize) {
                        let i = choose|i: int| 0 <= i < before.len() && ((#[trigger] before[i]).0 == u as usize || before[i].1 == u as usize);
                        assert(pairs@[i] == before[i]);
                    }
                    if u == a as int || u == b as int {
                        assert(pairs@[pairs.len() - 1] == chosen);
                    }
                }
                assert forall|i: int, j: int| 0 <= i < j < pairs.len() implies pairs@[i].0 != pairs@[j].0 && pairs@[i].0
                    != pairs@[j].1 && pairs@[i].1 != pairs@[j].0 && pairs@[i].1 != pairs@[j].1 by {
                    if j == pairs.len() - 1 {
                        assert(pairs@[i] == before[i]);
                        assert(!(before[i].0 == a || before[i].1 == a));
                        assert(!(before[i].0 == b || before[i].1 == b));
                    } else {
                        assert(pairs@[i] == before[i] && pairs@[j] == before[j]);
                    }
                }
                assert forall|i: int| 0 <= i < pairs.len() implies from_aliased(#[trigger] pairs@[i], aliased@, shapes@, k + 1) by {
                    if i < before.len() {
                        assert(pairs@[i] == before[i]);
                        assert(from_aliased(before[i], aliased@, shapes@, k as int));
                    } else {
                        assert(pairs@[i] == oriented(aliased@[k as int], shapes@));
                    }
                }
                assert(in_pairs(pairs@, a)) by {
                    assert(pairs@[pairs.len() - 1] == chosen);
                }
            }
        } else {
            proof {
                assert(taken@[a as int] || taken@[b as int]);
                assert forall|i: int| 0 <= i < pairs.len() implies from_aliased(#[trigger] pairs@[i], aliased@, shapes@, k + 1) by {
                    assert(from_aliased(pairs@[i], aliased@, shapes@, k as int));
                }
            }
        }
        proof {
            assert forall|x: usize| in_pairs(before_all, x) implies in_pairs(pairs@, x) by {
                let i = choose|i: int| 0 <= i < before_all.len() && ((#[trigger] before_all[i]).0 == x || before_all[i].1 == x);
                assert(pairs@[i] == before_all[i]);
            }
            assert forall|j: int| 0 <= j < k + 1 implies in_pairs(pairs@, (#[trigger] aliased@[j]).0) || in_pairs(pairs@, aliased@[j].1) by {
                if j < k {
                    if in_pairs(before_all, aliased@[j].0) {
                        assert(in_pairs(pairs@, aliased@[j].0));
                    } else {
                        assert(in_pairs(before_all, aliased@[j].1));
                    }
                }
            }
        }
        k += 1;
    }
    pairs
}

} // verus!
