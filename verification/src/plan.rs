//! Declarative model plans: say what the model is, and let the plan build it.
//!
//! A [`Plan`] names a family, an exposure and a list of [`Term`]s. What it decides
//! from the data (band edges, base levels, the rows of an interaction) is computed
//! here, and every default it applies is stated in the contracts below.
use crate::encoding::{code_of_first, label_of_first, Encoding, UNSEEN_CODE};
use crate::frame::{
    distinct_names, is_selection, name_views, select_result, selectable, ColumnValues, Frame,
    FrameColumn, FrameError,
};
use crate::quantity::{spec_is_finite, Quantity, INFINITY_KEY};
use crate::matching::NO_MATCH;
use crate::rating_model::{
    count_distinct, distinct_count, factor_column_name, factor_name, spec_link_for, LinkFunction,
    RatingModel, RatingTable, TableSemantics, VariateError,
};
use crate::markdown::{push_joined, views};
use crate::text::{
    decimal, joined, push_decimal,
    eq_ignore_ascii_case, push_signed_decimal, push_text, same_ignoring_ascii_case, signed_decimal,
    spec_lowercase, text_is, fold_ascii, all_ascii, ascii_lowered, lemma_lowers_to, lemma_lowered_from,
};
use vstd::prelude::*;

verus! {

/// Levels above this in a single categorical factor are worth remarking on.
pub const WIDE_FACTOR: usize = 50;

/// Total rows above this in one table are worth remarking on.
pub const WIDE_TABLE: usize = 5000;

// ---------------------------------------------------------------- specification

/// How a numeric driver is cut into bands.
#[derive(Debug, Clone)]
pub enum Breaks {
    /// Cut points given outright: the inclusive upper bounds of all but the last band.
    /// A final unbounded band is always added.
    Explicit { edges: Vec<Quantity> },
    /// `n` bands of roughly equal count, cut at the sample quantiles.
    Quantile { n: usize },
    /// `n` bands of equal width between the column's minimum and maximum.
    EqualWidth { n: usize },
}

impl Breaks {
    pub fn explicit(edges: Vec<Quantity>) -> (res: Breaks)
        ensures
            res == (Breaks::Explicit { edges }),
    {
        Breaks::Explicit { edges }
    }

    pub fn quantile(n: usize) -> (res: Breaks)
        ensures
            res == (Breaks::Quantile { n }),
    {
        Breaks::Quantile { n }
    }

    pub fn equal_width(n: usize) -> (res: Breaks)
        ensures
            res == (Breaks::EqualWidth { n }),
    {
        Breaks::EqualWidth { n }
    }
}

/// Which level a categorical factor is anchored on.
#[derive(Debug, Clone)]
pub enum Base {
    /// The lowest code.
    First,
    /// The level carrying the most exposure.
    MostExposed,
    /// A named level, given as it appears in the data.
    Level { value: String },
}

impl Base {
    /// The most exposed level: every relativity is quoted against the base, so a thin
    /// base would widen every other level's standard error.
    pub fn default() -> (res: Base)
        ensures
            res is MostExposed,
    {
        Base::MostExposed
    }
}

/// What a supplied table is for.
#[derive(Debug, Clone, Copy, PartialEq, Eq, Structural)]
pub enum GivenRole {
    /// Its rows define the table; its factors are re-estimated.
    Structure,
    /// Structure and factors are held fixed; it spends no parameters.
    Offset,
}

impl GivenRole {
    pub fn default() -> (res: GivenRole)
        ensures
            res == GivenRole::Structure,
    {
        GivenRole::Structure
    }
}

/// One factor in the model.
#[derive(Debug, Clone)]
pub enum Term {
    /// A numeric driver cut into bands, each band carrying its own free factor.
    Banded { column: String, breaks: Breaks },
    /// A categorical driver, one free factor per level.
    Categorical { column: String, base: Base },
    /// A numeric driver whose band factors are tied to a polynomial of `degree`.
    Variate { column: String, breaks: Breaks, values: Option<Vec<Quantity>>, degree: usize },
    /// Several drivers crossed into one table. `breaks` is positional: `Some` bands
    /// that column, `None` treats it as categorical.
    Interaction { columns: Vec<String>, breaks: Vec<Option<Breaks>> },
    /// A table supplied outright rather than derived from the data.
    Given { name: String, table: Frame, role: GivenRole },
}

/// The data columns a term reads, as text.
pub open spec fn term_columns(term: Term) -> Seq<Seq<char>> {
    match term {
        Term::Banded { column, .. } => seq![column@],
        Term::Categorical { column, .. } => seq![column@],
        Term::Variate { column, .. } => seq![column@],
        Term::Interaction { columns, .. } => columns@.map_values(|c: String| c@),
        Term::Given { .. } => Seq::empty(),
    }
}

/// The name of the table a term produces.
pub open spec fn term_name(term: Term) -> Seq<char> {
    match term {
        Term::Banded { column, .. } => column@,
        Term::Categorical { column, .. } => column@,
        Term::Variate { column, .. } => column@,
        Term::Interaction { columns, .. } => joined(columns@.map_values(|c: String| c@), " x "@),
        Term::Given { name, .. } => name@,
    }
}

impl Term {
    pub fn banded(column: &str, breaks: Breaks) -> (res: Term)
        ensures
            res matches Term::Banded { column: c, breaks: b } && c@ == column@ && b == breaks,
    {
        Term::Banded { column: String::from_str(column), breaks }
    }

    /// A categorical term anchored on its most exposed level.
    pub fn categorical(column: &str) -> (res: Term)
        ensures
            res matches Term::Categorical { column: c, base: b } && c@ == column@ && b is MostExposed,
    {
        Term::Categorical { column: String::from_str(column), base: Base::default() }
    }

    pub fn categorical_based_on(column: &str, base: Base) -> (res: Term)
        ensures
            res matches Term::Categorical { column: c, base: b } && c@ == column@ && b == base,
    {
        Term::Categorical { column: String::from_str(column), base }
    }

    /// A variate over the band midpoints.
    pub fn variate(column: &str, breaks: Breaks, degree: usize) -> (res: Term)
        ensures
            res matches Term::Variate { column: c, breaks: b, values: v, degree: d } && c@ == column@
                && b == breaks && v is None && d == degree,
    {
        Term::Variate { column: String::from_str(column), breaks, values: None, degree }
    }

    pub fn interaction(columns: Vec<String>, breaks: Vec<Option<Breaks>>) -> (res: Term)
        ensures
            res matches Term::Interaction { columns: c, breaks: b } && c@ == columns@ && b@ == breaks@,
    {
        Term::Interaction { columns, breaks }
    }

    /// A table supplied outright, whose factors will be re-estimated.
    pub fn given(name: &str, table: Frame) -> (res: Term)
        ensures
            res matches Term::Given { name: n, table: t, role: r } && n@ == name@ && t == table && r
                == GivenRole::Structure,
    {
        Term::Given { name: String::from_str(name), table, role: GivenRole::Structure }
    }

    /// A table supplied outright and held fixed.
    pub fn offset(name: &str, table: Frame) -> (res: Term)
        ensures
            res matches Term::Given { name: n, table: t, role: r } && n@ == name@ && t == table && r
                == GivenRole::Offset,
    {
        Term::Given { name: String::from_str(name), table, role: GivenRole::Offset }
    }

    /// Every data column this term reads. A supplied table names its own columns, so
    /// it reads none here.
    pub fn columns(&self) -> (res: Vec<String>)
        ensures
            res@.map_values(|c: String| c@) == term_columns(*self),
    {
        let mut out: Vec<String> = Vec::new();
        match self {
            Term::Banded { column, .. } => out.push(column.clone()),
            Term::Categorical { column, .. } => out.push(column.clone()),
            Term::Variate { column, .. } => out.push(column.clone()),
            Term::Interaction { columns, .. } => {
                let mut k: usize = 0;
                while k < columns.len()
                    invariant
                        k <= columns.len(),
                        out.len() == k,
                        forall|j: int| 0 <= j < k ==> (#[trigger] out@[j])@ == columns@[j]@,
                    decreases columns.len() - k,
                {
                    out.push(columns[k].clone());
                    k += 1;
                }
                proof {
                    assert(out@.map_values(|c: String| c@) =~= columns@.map_values(|c: String| c@));
                }
            },
            Term::Given { .. } => {},
        }
        proof {
            assert(out@.map_values(|c: String| c@) =~= term_columns(*self));
        }
        out
    }

    /// The table name this term produces: the column, the interaction's columns joined
    /// by " x ", or the supplied table's name.
    pub fn name(&self) -> (res: String)
        ensures
            res@ == term_name(*self),
    {
        match self {
            Term::Banded { column, .. } => column.clone(),
            Term::Categorical { column, .. } => column.clone(),
            Term::Variate { column, .. } => column.clone(),
            Term::Interaction { columns, .. } => {
                let ghost parts = columns@.map_values(|c: String| c@);
                let mut out = String::new();
                let mut k: usize = 0;
                proof {
                    assert(parts.take(0) =~= Seq::<Seq<char>>::empty());
                }
                while k < columns.len()
                    invariant
                        parts == columns@.map_values(|c: String| c@),
                        k <= columns.len(),
                        out@ == joined(parts.take(k as int), " x "@),
                    decreases columns.len() - k,
                {
                    if k > 0 {
                        push_text(&mut out, " x ");
                    }
                    push_text(&mut out, columns[k].as_str());
                    proof {
                        let next = parts.take(k + 1);
                        assert(next.drop_last() =~= parts.take(k as int));
                        assert(next.last() == columns@[k as int]@);
                        if k == 0 {
                            assert(out@ =~= columns@[0]@);
                        }
                    }
                    k += 1;
                }
                proof {
                    assert(parts.take(columns.len() as int) =~= parts);
                }
                out
            },
            Term::Given { name, .. } => name.clone(),
        }
    }
}

/// How an exposure column enters the model.
#[derive(Debug, Clone, Copy, PartialEq, Eq, Structural)]
pub enum ExposureRole {
    /// `log(exposure)` is added to the linear predictor and held fixed.
    Offset,
    /// Exposure is a prior weight.
    Weight,
}

/// Why a plan could not be extended.
#[derive(Debug, Clone, PartialEq, Eq)]
pub enum PlanError {
    /// A name is owed for every table carried over.
    NameCount { names: usize, tables: usize },
    /// Carried tables need a prefix to keep their names apart from the plan's own.
    MissingPrefix,
}

/// A model, stated rather than constructed.
#[derive(Debug, Clone)]
pub struct Plan {
    /// One of `gaussian`, `poisson`, `gamma`, `tweedie`, `binomial`.
    pub family: String,
    /// Exposure column, if the model has one.
    pub exposure: Option<String>,
    /// Whether that exposure is an offset or a weight; unset means the family default.
    pub exposure_role: Option<ExposureRole>,
    pub terms: Vec<Term>,
    /// Category codes to encode text columns with, rather than deriving them.
    pub encoding: Option<Encoding>,
}

/// The role exposure takes: the one set, else an offset for Poisson (in any ASCII
/// case) and a weight otherwise.
pub open spec fn spec_exposure_role(plan: Plan) -> ExposureRole {
    match plan.exposure_role {
        Some(r) => r,
        None => if same_ignoring_ascii_case(plan.family@, "poisson"@) {
            ExposureRole::Offset
        } else {
            ExposureRole::Weight
        },
    }
}

/// A family named, in any ASCII case, as one whose exposure is not Poisson's.
pub open spec fn names_weighted_family(family: Seq<char>) -> bool {
    same_ignoring_ascii_case(family, "gaussian"@) || same_ignoring_ascii_case(family, "gamma"@)
        || same_ignoring_ascii_case(family, "tweedie"@) || same_ignoring_ascii_case(family, "binomial"@)
        || same_ignoring_ascii_case(family, "binary"@)
}

/// With no role set, exposure is an offset exactly when the family is Poisson, in any
/// ASCII case, and a weight for every other family, such as gaussian, gamma, tweedie,
/// binomial or binary. A role that is set is kept.
pub proof fn law_default_exposure_role(plan: Plan)
    ensures
        plan.exposure_role matches Some(r) ==> spec_exposure_role(plan) == r,
        plan.exposure_role is None ==> (spec_exposure_role(plan) == ExposureRole::Offset
            <==> same_ignoring_ascii_case(plan.family@, "poisson"@)),
        plan.exposure_role is None && names_weighted_family(plan.family@) ==> spec_exposure_role(plan)
            == ExposureRole::Weight,
{
    reveal_strlit("poisson");
    reveal_strlit("gaussian");
    reveal_strlit("gamma");
    reveal_strlit("tweedie");
    reveal_strlit("binomial");
    reveal_strlit("binary");
    let f = plan.family@;
    if same_ignoring_ascii_case(f, "poisson"@) && same_ignoring_ascii_case(f, "tweedie"@) {
        assert(fold_ascii(f[0]) == fold_ascii('p'));
        assert(fold_ascii(f[0]) == fold_ascii('t'));
    }
}

/// A name carried over from another model: `prefix.name`.
pub open spec fn carried_name(prefix: Seq<char>, name: Seq<char>) -> Seq<char> {
    prefix + "."@ + name
}

/// `term` is a supplied table named `name`, holding `table`, held fixed.
pub open spec fn is_carried(term: Term, name: Seq<char>, table: Frame) -> bool {
    match term {
        Term::Given { name: n, table: t, role } => n@ == name && t == table && role == GivenRole::Offset,
        _ => false,
    }
}

/// `after` is `before` with the tables of `model` carried as offsets after its terms.
pub open spec fn carries_model(before: Plan, after: Plan, model: RatingModel, names: Seq<String>, prefix: Seq<char>) -> bool {
    &&& after.family == before.family
    &&& after.exposure == before.exposure
    &&& after.exposure_role == before.exposure_role
    &&& after.encoding == before.encoding
    &&& after.terms.len() == before.terms.len() + model.tables.len()
    &&& forall|k: int| 0 <= k < before.terms.len() ==> #[trigger] after.terms@[k] == before.terms@[k]
    &&& forall|k: int|
        0 <= k < model.tables.len() ==> is_carried(
            #[trigger] after.terms@[before.terms.len() + k],
            carried_name(prefix, names[k]@),
            model.tables@[k].data,
        )
}

impl Plan {
    /// A plan of the given family with no exposure and no terms.
    pub fn new(family: &str) -> (res: Plan)
        ensures
            res.family@ == family@,
            res.exposure is None,
            res.exposure_role is None,
            res.terms.len() == 0,
            res.encoding is None,
    {
        Plan {
            family: String::from_str(family),
            exposure: None,
            exposure_role: None,
            terms: Vec::new(),
            encoding: None,
        }
    }

    /// Claim frequency: Poisson, weighted by exposure.
    pub fn frequency(exposure: &str) -> (res: Plan)
        ensures
            res.family@ == "poisson"@,
            res.exposure matches Some(e) && e@ == exposure@,
            res.exposure_role == Some(ExposureRole::Weight),
            res.terms.len() == 0,
            res.encoding is None,
    {
        let mut plan = Plan::new("poisson");
        plan.exposure = Some(String::from_str(exposure));
        plan.exposure_role = Some(ExposureRole::Weight);
        plan
    }

    /// Claim size: Gamma, weighted by claim count.
    pub fn severity(claim_count: &str) -> (res: Plan)
        ensures
            res.family@ == "gamma"@,
            res.exposure matches Some(e) && e@ == claim_count@,
            res.exposure_role == Some(ExposureRole::Weight),
            res.terms.len() == 0,
            res.encoding is None,
    {
        let mut plan = Plan::new("gamma");
        plan.exposure = Some(String::from_str(claim_count));
        plan.exposure_role = Some(ExposureRole::Weight);
        plan
    }

    /// Loss per unit exposure: Tweedie, weighted by exposure.
    pub fn pure_premium(exposure: &str) -> (res: Plan)
        ensures
            res.family@ == "tweedie"@,
            res.exposure matches Some(e) && e@ == exposure@,
            res.exposure_role == Some(ExposureRole::Weight),
            res.terms.len() == 0,
            res.encoding is None,
    {
        let mut plan = Plan::new("tweedie");
        plan.exposure = Some(String::from_str(exposure));
        plan.exposure_role = Some(ExposureRole::Weight);
        plan
    }

    /// The plan with `term` appended.
    pub fn with(self, term: Term) -> (res: Plan)
        ensures
            res.terms@ == self.terms@.push(term),
            res.family == self.family,
            res.exposure == self.exposure,
            res.exposure_role == self.exposure_role,
            res.encoding == self.encoding,
    {
        let mut plan = self;
        plan.terms.push(term);
        plan
    }

    /// The plan encoding text columns with `encoding` rather than deriving codes.
    pub fn with_encoding(self, encoding: Encoding) -> (res: Plan)
        ensures
            res.encoding == Some(encoding),
            res.terms == self.terms,
            res.family == self.family,
            res.exposure == self.exposure,
            res.exposure_role == self.exposure_role,
    {
        let mut plan = self;
        plan.encoding = Some(encoding);
        plan
    }

    /// Carries every table of an existing model as a fixed offset, named
    /// `prefix.name`, so new factors are fitted on top of a plan already in force.
    ///
    /// A name is owed for every table (`NameCount`), and the prefix may not be empty
    /// (`MissingPrefix`): the carried intercept would otherwise collide with the plan's
    /// own.
    pub fn with_offset_model(self, model: RatingModel, table_names: &Vec<String>, prefix: &str) -> (res: Result<Plan, PlanError>)
        ensures
            table_names.len() != model.tables.len() ==> res == Err::<Plan, PlanError>(
                PlanError::NameCount { names: table_names.len(), tables: model.tables.len() },
            ),
            table_names.len() == model.tables.len() && prefix@.len() == 0 ==> res == Err::<
                Plan,
                PlanError,
            >(PlanError::MissingPrefix),
            table_names.len() == model.tables.len() && prefix@.len() > 0 ==> (res matches Ok(p)
                && carries_model(self, p, model, table_names@, prefix@)),
    {
        if table_names.len() != model.tables.len() {
            return Err(PlanError::NameCount { names: table_names.len(), tables: model.tables.len() });
        }
        if prefix.unicode_len() == 0 {
            return Err(PlanError::MissingPrefix);
        }
        let ghost start = self.terms@;
        let ghost tables = model.tables@;
        let mut plan = self;
        let mut remaining = model.tables;
        let mut carried: Vec<Term> = Vec::new();
        let n = remaining.len();
        while remaining.len() > 0
            invariant
                remaining@ == tables.take(remaining.len() as int),
                n == tables.len(),
                table_names.len() == n,
                carried.len() == n - remaining.len(),
                forall|k: int|
                    0 <= k < carried.len() ==> is_carried(
                        #[trigger] carried@[k],
                        carried_name(prefix@, table_names@[n - 1 - k]@),
                        tables[n - 1 - k].data,
                    ),
            decreases remaining.len(),
        {
            let index = remaining.len() - 1;
            let table = remaining.pop().unwrap();
            let mut name = String::from_str(prefix);
            push_text(&mut name, ".");
            push_text(&mut name, table_names[index].as_str());
            carried.push(Term::Given { name, table: table.data, role: GivenRole::Offset });
            proof {
                assert(remaining@ =~= tables.take(remaining.len() as int));
            }
        }
        let mut k: usize = 0;
        while k < n
            invariant
                n == tables.len(),
                table_names.len() == n,
                carried.len() == n - k,
                k <= n,
                plan.terms.len() == start.len() + k,
                forall|j: int| 0 <= j < start.len() ==> #[trigger] plan.terms@[j] == start[j],
                forall|j: int|
                    0 <= j < carried.len() ==> is_carried(
                        #[trigger] carried@[j],
                        carried_name(prefix@, table_names@[n - 1 - j]@),
                        tables[n - 1 - j].data,
                    ),
                forall|j: int|
                    0 <= j < k ==> is_carried(
                        #[trigger] plan.terms@[start.len() + j],
                        carried_name(prefix@, table_names@[j]@),
                        tables[j].data,
                    ),
                plan.family == self.family,
                plan.exposure == self.exposure,
                plan.exposure_role == self.exposure_role,
                plan.encoding == self.encoding,
            decreases n - k,
        {
            let term = carried.pop().unwrap();
            plan.terms.push(term);
            k += 1;
        }
        Ok(plan)
    }

    /// How exposure enters, resolving the family default when unset.
    pub fn resolved_exposure_role(&self) -> (res: ExposureRole)
        ensures
            res == spec_exposure_role(*self),
            self.exposure_role is None ==> (res == ExposureRole::Offset <==> same_ignoring_ascii_case(
                self.family@,
                "poisson"@,
            )),
            self.exposure_role is None && names_weighted_family(self.family@) ==> res == ExposureRole::Weight,
    {
        proof {
            law_default_exposure_role(*self);
        }
        match self.exposure_role {
            Some(r) => r,
            None => if eq_ignore_ascii_case(self.family.as_str(), "poisson") {
                ExposureRole::Offset
            } else {
                ExposureRole::Weight
            },
        }
    }
}


// ---------------------------------------------------------------- bands

/// The order key of a number; nothing for an undefined one.
pub open spec fn key_of(q: Quantity) -> int {
    match q {
        Quantity::Ordered(k) => k as int,
        Quantity::Undefined => 0,
    }
}

/// Band upper bounds as a table carries them: finite and strictly ascending, then one
/// final unbounded band, so no observation falls past the last row.
pub open spec fn band_bounds(edges: Seq<Quantity>) -> bool {
    &&& edges.len() >= 1
    &&& edges.last() == Quantity::Ordered(INFINITY_KEY)
    &&& forall|i: int| 0 <= i < edges.len() - 1 ==> spec_is_finite(#[trigger] edges[i])
    &&& forall|i: int, j: int| 0 <= i < j < edges.len() - 1 ==> key_of(edges[i]) < key_of(edges[j])
}

/// Inserts `k` into strictly ascending keys, unless it is already there.
pub(crate) fn insert_key(acc: &mut Vec<i64>, k: i64)
    requires
        forall|i: int, j: int| 0 <= i < j < old(acc).len() ==> old(acc)@[i] < old(acc)@[j],
    ensures
        forall|i: int, j: int| 0 <= i < j < final(acc).len() ==> final(acc)@[i] < final(acc)@[j],
        forall|x: i64| final(acc)@.contains(x) <==> (old(acc)@.contains(x) || x == k),
        final(acc).len() <= old(acc).len() + 1,
{
    let mut pos: usize = 0;
    while pos < acc.len() && acc[pos] < k
        invariant
            acc@ == old(acc)@,
            pos <= acc.len(),
            forall|i: int| 0 <= i < pos ==> acc@[i] < k,
        decreases acc.len() - pos,
    {
        pos += 1;
    }
    if pos < acc.len() && acc[pos] == k {
        assert(acc@.contains(k)) by {
            assert(acc@[pos as int] == k);
        }
        return;
    }
    acc.insert(pos, k);
    proof {
        assert forall|x: i64| acc@.contains(x) <==> (old(acc)@.contains(x) || x == k) by {
            if acc@.contains(x) {
                let i = choose|i: int| 0 <= i < acc@.len() && acc@[i] == x;
                if i < pos {
                    assert(old(acc)@[i] == x);
                } else if i > pos {
                    assert(old(acc)@[i - 1] == x);
                }
            }
            if old(acc)@.contains(x) {
                let i = choose|i: int| 0 <= i < old(acc)@.len() && old(acc)@[i] == x;
                if i < pos {
                    assert(acc@[i] == x);
                } else {
                    assert(acc@[i + 1] == x);
                }
            }
            if x == k {
                assert(acc@[pos as int] == k);
            }
        }
    }
}

/// Band upper bounds from cut points: the finite cuts, sorted with duplicates
/// collapsed, then a final unbounded band.
pub fn finish_edges(cuts: &Vec<Quantity>) -> (res: Vec<Quantity>)
    ensures
        band_bounds(res@),
        forall|q: Quantity|
            res@.drop_last().contains(q) <==> (spec_is_finite(q) && cuts@.contains(q)),
{
    let mut keys: Vec<i64> = Vec::new();
    let mut i: usize = 0;
    while i < cuts.len()
        invariant
            i <= cuts.len(),
            forall|a: int, b: int| 0 <= a < b < keys.len() ==> keys@[a] < keys@[b],
            forall|x: i64|
                keys@.contains(x) <==> (exists|j: int|
                    0 <= j < i && spec_is_finite(cuts@[j]) && #[trigger] cuts@[j] == Quantity::Ordered(x)),
            keys.len() <= i,
        decreases cuts.len() - i,
    {
        let ghost before = keys@;
        if cuts[i].is_finite() {
            if let Quantity::Ordered(k) = cuts[i] {
                insert_key(&mut keys, k);
            }
        }
        proof {
            assert forall|x: i64|
                keys@.contains(x) <==> (exists|j: int|
                    0 <= j < i + 1 && spec_is_finite(cuts@[j]) && #[trigger] cuts@[j] == Quantity::Ordered(x)) by {
                if exists|j: int| 0 <= j < i + 1 && spec_is_finite(cuts@[j]) && #[trigger] cuts@[j] == Quantity::Ordered(x) {
                    let j = choose|j: int|
                        0 <= j < i + 1 && spec_is_finite(cuts@[j]) && #[trigger] cuts@[j] == Quantity::Ordered(x);
                    if j < i {
                        assert(before.contains(x));
                    }
                }
            }
        }
        i += 1;
    }
    let mut res: Vec<Quantity> = Vec::new();
    let mut j: usize = 0;
    while j < keys.len()
        invariant
            j <= keys.len(),
            res.len() == j,
            forall|a: int| 0 <= a < j ==> #[trigger] res@[a] == Quantity::Ordered(keys@[a]),
        decreases keys.len() - j,
    {
        res.push(Quantity::Ordered(keys[j]));
        j += 1;
    }
    let ghost body = res@;
    res.push(Quantity::Ordered(INFINITY_KEY));
    proof {
        assert(res@.drop_last() =~= body);
        assert forall|a: int| 0 <= a < res.len() - 1 implies spec_is_finite(#[trigger] res@[a]) by {
            assert(keys@.contains(keys@[a]));
            let w = choose|w: int|
                0 <= w < cuts.len() && spec_is_finite(cuts@[w]) && #[trigger] cuts@[w] == Quantity::Ordered(keys@[a]);
        }
        assert forall|q: Quantity| res@.drop_last().contains(q) <==> (spec_is_finite(q) && cuts@.contains(q)) by {
            if body.contains(q) {
                let a = choose|a: int| 0 <= a < body.len() && body[a] == q;
                assert(keys@.contains(keys@[a]));
                let w = choose|w: int|
                    0 <= w < cuts.len() && spec_is_finite(cuts@[w]) && #[trigger] cuts@[w] == Quantity::Ordered(keys@[a]);
                assert(cuts@[w] == q);
            }
            if spec_is_finite(q) && cuts@.contains(q) {
                let w = choose|w: int| 0 <= w < cuts.len() && cuts@[w] == q;
                let x = key_of(q) as i64;
                assert(cuts@[w] == Quantity::Ordered(x));
                assert(keys@.contains(x));
                let a = choose|a: int| 0 <= a < keys.len() && keys@[a] == x;
                assert(body[a] == q);
            }
        }
    }
    res
}


/// The finite values among numbers, by their order keys, in order.
pub open spec fn finite_keys(values: Seq<Quantity>) -> Seq<i64>
    decreases values.len(),
{
    if values.len() == 0 {
        Seq::empty()
    } else {
        let rest = finite_keys(values.drop_last());
        if spec_is_finite(values.last()) {
            rest.push(key_of(values.last()) as i64)
        } else {
            rest
        }
    }
}

/// Ascending, allowing repeats.
pub open spec fn nondecreasing(s: Seq<i64>) -> bool {
    forall|i: int, j: int| 0 <= i < j < s.len() ==> s[i] <= s[j]
}

/// The nearest rank of the `i`-th of `n` quantiles among `len` values:
/// `ceil(i * len / n)`, kept within `1..=len`.
pub open spec fn nearest_rank(i: int, n: int, len: int) -> int {
    let r = (i * len + n - 1) / n;
    if r < 1 {
        1
    } else if r > len {
        len
    } else {
        r
    }
}

/// Why a column cannot be cut into bands.
#[derive(Debug, Clone, PartialEq, Eq)]
pub enum BandError {
    /// Quantile or equal-width bands need at least one band.
    NeedsBands { column: String, equal_width: bool },
    /// The column has no finite value to cut at.
    NoFiniteValues { column: String, equal_width: bool },
}

/// The finite values' keys sorted ascending.
fn sorted_finite(values: &Vec<Quantity>) -> (res: Vec<i64>)
    ensures
        nondecreasing(res@),
        res@.to_multiset() == finite_keys(values@).to_multiset(),
        res.len() == finite_keys(values@).len(),
{
    let mut out: Vec<i64> = Vec::new();
    let mut i: usize = 0;
    while i < values.len()
        invariant
            i <= values.len(),
            nondecreasing(out@),
            out@.to_multiset() == finite_keys(values@.take(i as int)).to_multiset(),
        decreases values.len() - i,
    {
        proof {
            broadcast use vstd::seq_lib::group_to_multiset_ensures;
            assert(values@.take(i + 1).drop_last() =~= values@.take(i as int));
            assert(values@.take(i + 1).last() == values@[i as int]);
        }
        if values[i].is_finite() {
            if let Quantity::Ordered(k) = values[i] {
                let mut p: usize = 0;
                while p < out.len() && out[p] <= k
                    invariant
                        p <= out.len(),
                        forall|j: int| 0 <= j < p ==> out@[j] <= k,
                    decreases out.len() - p,
                {
                    p += 1;
                }
                let ghost before = out@;
                out.insert(p, k);
                proof {
                    broadcast use vstd::seq_lib::group_to_multiset_ensures;
                    assert forall|a: int, b: int| 0 <= a < b < out.len() implies out@[a] <= out@[b] by {
                        if a < p && b < p {
                            assert(out@[a] == before[a] && out@[b] == before[b]);
                        } else if a < p && b == p {
                            assert(out@[a] == before[a]);
                        } else if a < p {
                            assert(out@[a] == before[a] && out@[b] == before[b - 1]);
                        } else if a == p {
                            assert(out@[b] == before[b - 1]);
                            assert(before[p as int] > k);
                            if b - 1 > p {
                                assert(before[p as int] <= before[b - 1]);
                            }
                        } else {
                            assert(out@[a] == before[a - 1] && out@[b] == before[b - 1]);
                        }
                    }
                    assert(out@.remove(p as int) =~= before);
                    assert(out@.to_multiset() =~= before.to_multiset().insert(k));
                }
            }
        }
        i += 1;
    }
    proof {
        assert(values@.take(values.len() as int) =~= values@);
        out@.to_multiset_ensures();
        finite_keys(values@).to_multiset_ensures();
    }
    out
}

/// Quantile cut points by nearest rank: for each `i` in `1..n`, the value of rank
/// `ceil(i * count / n)` among the finite values, so every cut is a value the column
/// takes. Errors: `n` below one (`NeedsBands`), no finite value (`NoFiniteValues`).
pub fn quantile_cuts(values: &Vec<Quantity>, n: usize, column: &String) -> (res: Result<Vec<Quantity>, BandError>)
    ensures
        n < 1 ==> (res matches Err(BandError::NeedsBands { column: c, equal_width: false }) && c@ == column@),
        n >= 1 && finite_keys(values@).len() == 0 ==> (res matches Err(
            BandError::NoFiniteValues { column: c, equal_width: false },
        ) && c@ == column@),
        n >= 1 && finite_keys(values@).len() > 0 ==> (res matches Ok(cuts) && exists|sorted: Seq<i64>|
            #![trigger sorted.to_multiset()]
            nondecreasing(sorted) && sorted.to_multiset() == finite_keys(values@).to_multiset() && cuts.len()
                == n - 1 && forall|i: int|
                0 <= i < cuts.len() ==> #[trigger] cuts@[i] == Quantity::Ordered(
                    sorted[nearest_rank(i + 1, n as int, sorted.len() as int) - 1],
                )),
{
    if n < 1 {
        return Err(BandError::NeedsBands { column: column.clone(), equal_width: false });
    }
    let sorted = sorted_finite(values);
    if sorted.len() == 0 {
        return Err(BandError::NoFiniteValues { column: column.clone(), equal_width: false });
    }
    let len = sorted.len();
    let mut cuts: Vec<Quantity> = Vec::new();
    let mut i: usize = 1;
    while i < n
        invariant
            1 <= i <= n,
            len == sorted.len(),
            len >= 1,
            cuts.len() == i - 1,
            forall|j: int|
                0 <= j < cuts.len() ==> #[trigger] cuts@[j] == Quantity::Ordered(
                    sorted@[nearest_rank(j + 1, n as int, len as int) - 1],
                ),
        decreases n - i,
    {
        proof {
            let bound: int = 0xffff_ffff_ffff_ffff;
            assert(i * len <= bound * bound) by (nonlinear_arith)
                requires
                    0 <= i <= bound,
                    0 <= len <= bound,
            ;
        }
        let wide: u128 = (i as u128) * (len as u128) + (n as u128) - 1;
        let raw: u128 = wide / (n as u128);
        let rank: usize = if raw < 1 {
            1
        } else if raw > len as u128 {
            len
        } else {
            raw as usize
        };
        proof {
            assert(raw == (i * len + n - 1) / (n as int));
            assert(rank == nearest_rank(i as int, n as int, len as int));
        }
        cuts.push(Quantity::Ordered(sorted[rank - 1]));
        i += 1;
    }
    Ok(cuts)
}

/// Inclusive band upper bounds for a set of breaks, always ending unbounded: the
/// explicit edges, the quantile cuts (see [`quantile_cuts`]), or, for equal-width
/// bands, `width_cuts` (the evenly spaced points between the column's least and
/// greatest finite values, which the caller computes in floating point), each passed
/// through [`finish_edges`].
pub fn band_edges(values: &Vec<Quantity>, breaks: &Breaks, column: &String, width_cuts: &Vec<Quantity>) -> (res: Result<Vec<Quantity>, BandError>)
    ensures
        res matches Ok(edges) ==> band_bounds(edges@),
        match breaks {
            Breaks::Explicit { edges } => res matches Ok(e) && forall|x: Quantity|
                e@.drop_last().contains(x) <==> (spec_is_finite(x) && edges@.contains(x)),
            Breaks::Quantile { n } => (*n < 1 ==> res matches Err(BandError::NeedsBands { equal_width: false, .. }))
                && (*n >= 1 && finite_keys(values@).len() == 0 ==> res matches Err(
                BandError::NoFiniteValues { equal_width: false, .. },
            )) && (*n >= 1 && finite_keys(values@).len() > 0 ==> (res matches Ok(e) && exists|sorted: Seq<i64>|
                #![trigger sorted.to_multiset()]
                nondecreasing(sorted) && sorted.to_multiset() == finite_keys(values@).to_multiset() && forall|x: Quantity|
                    e@.drop_last().contains(x) <==> (spec_is_finite(x) && exists|i: int|
                        1 <= i < *n && x == Quantity::Ordered(
                            #[trigger] sorted[nearest_rank(i, *n as int, sorted.len() as int) - 1],
                        )))),
            Breaks::EqualWidth { n } => (*n < 1 ==> res matches Err(BandError::NeedsBands { equal_width: true, .. }))
                && (*n >= 1 && finite_keys(values@).len() == 0 ==> res matches Err(
                BandError::NoFiniteValues { equal_width: true, .. },
            )) && (*n >= 1 && finite_keys(values@).len() > 0 ==> (res matches Ok(e) && forall|x: Quantity|
                e@.drop_last().contains(x) <==> (spec_is_finite(x) && width_cuts@.contains(x)))),
        },
{
    match breaks {
        Breaks::Explicit { edges } => Ok(finish_edges(edges)),
        Breaks::Quantile { n } => {
            let cuts = quantile_cuts(values, *n, column)?;
            let edges = finish_edges(&cuts);
            proof {
                let sorted = choose|sorted: Seq<i64>|
                    #![trigger sorted.to_multiset()]
                    nondecreasing(sorted) && sorted.to_multiset() == finite_keys(values@).to_multiset()
                        && cuts.len() == *n - 1 && forall|i: int|
                        0 <= i < cuts.len() ==> #[trigger] cuts@[i] == Quantity::Ordered(
                            sorted[nearest_rank(i + 1, *n as int, sorted.len() as int) - 1],
                        );
                assert forall|x: Quantity| cuts@.contains(x) <==> exists|i: int|
                    1 <= i < *n && x == Quantity::Ordered(
                        #[trigger] sorted[nearest_rank(i, *n as int, sorted.len() as int) - 1],
                    ) by {
                    if cuts@.contains(x) {
                        let j = choose|j: int| 0 <= j < cuts.len() && cuts@[j] == x;
                        assert(x == Quantity::Ordered(sorted[nearest_rank(j + 1, *n as int, sorted.len() as int) - 1]));
                    }
                    if exists|i: int| 1 <= i < *n && x == Quantity::Ordered(
                        #[trigger] sorted[nearest_rank(i, *n as int, sorted.len() as int) - 1],
                    ) {
                        let i = choose|i: int| 1 <= i < *n && x == Quantity::Ordered(
                            #[trigger] sorted[nearest_rank(i, *n as int, sorted.len() as int) - 1],
                        );
                        assert(cuts@[i - 1] == x);
                    }
                }
            }
            Ok(edges)
        },
        Breaks::EqualWidth { n } => {
            if *n < 1 {
                return Err(BandError::NeedsBands { column: column.clone(), equal_width: true });
            }
            let mut any = false;
            let mut i: usize = 0;
            while i < values.len()
                invariant
                    i <= values.len(),
                    any == (finite_keys(values@.take(i as int)).len() > 0),
                decreases values.len() - i,
            {
                proof {
                    assert(values@.take(i + 1).drop_last() =~= values@.take(i as int));
                    assert(values@.take(i + 1).last() == values@[i as int]);
                }
                if values[i].is_finite() {
                    any = true;
                }
                i += 1;
            }
            proof {
                assert(values@.take(values.len() as int) =~= values@);
            }
            if !any {
                return Err(BandError::NoFiniteValues { column: column.clone(), equal_width: true });
            }
            Ok(finish_edges(width_cuts))
        },
    }
}

// ---------------------------------------------------------------- levels

/// Whether a character is a decimal digit.
pub open spec fn is_digit(c: char) -> bool {
    '0' <= c <= '9'
}

/// The value of a run of decimal digits.
pub open spec fn digits_value(d: Seq<char>) -> int
    decreases d.len(),
{
    if d.len() == 0 {
        0
    } else {
        digits_value(d.drop_last()) * 10 + (d.last() as int - '0' as int)
    }
}

/// Whether the text opens with a sign.
pub open spec fn signed(s: Seq<char>) -> bool {
    s.len() > 0 && (s[0] == '-' || s[0] == '+')
}

/// The digits of a text, its sign aside.
pub open spec fn unsigned_part(s: Seq<char>) -> Seq<char> {
    if signed(s) {
        s.skip(1)
    } else {
        s
    }
}

/// A text read as a 32-bit integer, as `str::parse::<i32>` reads it: an optional `+`
/// or `-`, then one or more decimal digits, whose value must fit in 32 bits; anything
/// else reads as nothing.
pub open spec fn spec_parse_code(s: Seq<char>) -> Option<i32> {
    let d = unsigned_part(s);
    let v = if s.len() > 0 && s[0] == '-' {
        -digits_value(d)
    } else {
        digits_value(d)
    };
    if d.len() > 0 && (forall|i: int| 0 <= i < d.len() ==> is_digit(#[trigger] d[i])) && i32::MIN <= v
        <= i32::MAX {
        Some(v as i32)
    } else {
        None
    }
}

/// A run of digits is worth at least any run it starts with.
proof fn lemma_digits_grow(d: Seq<char>, k: int)
    requires
        0 <= k <= d.len(),
        forall|i: int| 0 <= i < d.len() ==> is_digit(#[trigger] d[i]),
    ensures
        0 <= digits_value(d.take(k)) <= digits_value(d),
    decreases d.len(),
{
    if d.len() > 0 {
        let q = d.drop_last();
        assert forall|i: int| 0 <= i < q.len() implies is_digit(#[trigger] q[i]) by {
            assert(q[i] == d[i]);
        }
        assert(is_digit(d[d.len() - 1]));
        if k == d.len() {
            lemma_digits_grow(q, q.len() as int);
            assert(d.take(k) =~= d);
        } else {
            lemma_digits_grow(q, k);
            assert(q.take(k) =~= d.take(k));
        }
    } else {
        assert(d.take(k) =~= d);
    }
}

/// Reads a base level given as a number, as `str::parse::<i32>` reads it.
pub(crate) fn parse_code(s: &str) -> (res: Option<i32>)
    ensures
        res == spec_parse_code(s@),
{
    let n = s.unicode_len();
    if n == 0 {
        return None;
    }
    let first = s.get_char(0);
    let negative = first == '-';
    let start: usize = if first == '-' || first == '+' {
        1
    } else {
        0
    };
    let ghost d = unsigned_part(s@);
    proof {
        assert(signed(s@) == (start == 1));
        assert(d =~= s@.skip(start as int));
    }
    if start == n {
        return None;
    }
    let mut acc: i64 = 0;
    let mut k: usize = start;
    while k < n
        invariant
            n == s@.len(),
            start <= k <= n,
            start < n,
            d == s@.skip(start as int),
            d == unsigned_part(s@),
            negative == (s@[0] == '-'),
            forall|i: int| 0 <= i < k - start ==> is_digit(#[trigger] d[i]),
            acc == digits_value(d.take(k - start)),
            0 <= acc <= 0x8000_0000,
        decreases n - k,
    {
        let c = s.get_char(k);
        proof {
            assert(d[k - start] == c);
        }
        if !('0' <= c && c <= '9') {
            return None;
        }
        let digit = (c as u32 - '0' as u32) as i64;
        proof {
            let t = d.take(k - start + 1);
            assert(t.drop_last() =~= d.take(k - start));
            assert(t.last() == c);
        }
        let next = acc * 10 + digit;
        if next > 0x8000_0000 {
            let mut j: usize = k + 1;
            while j < n
                invariant
                    n == s@.len(),
                    start < k + 1 <= j <= n,
                    d == s@.skip(start as int),
                    d == unsigned_part(s@),
                    forall|i: int| 0 <= i < j - start ==> is_digit(#[trigger] d[i]),
                    digits_value(d.take(k + 1 - start)) > 0x8000_0000,
                decreases n - j,
            {
                let c2 = s.get_char(j);
                proof {
                    assert(d[j - start] == c2);
                }
                if !('0' <= c2 && c2 <= '9') {
                    return None;
                }
                j += 1;
            }
            proof {
                assert(d.len() == n - start);
                lemma_digits_grow(d, k + 1 - start);
            }
            return None;
        }
        acc = next;
        k += 1;
    }
    proof {
        assert(d.take(n - start) =~= d);
    }
    if negative {
        Some((0 - acc) as i32)
    } else if acc <= 0x7fff_ffff {
        Some(acc as i32)
    } else {
        None
    }
}

/// Why a categorical column's levels could not be ordered.
#[derive(Debug, Clone, PartialEq, Eq)]
pub enum LevelError {
    /// Every value is null or unseen.
    NoLevels { column: String },
    /// The named base level is neither a level text nor a code.
    UnknownBase { column: String, value: String, present: String },
    /// The named base level does not occur in the data.
    AbsentBase { column: String, value: String, present: String },
}

/// A code that occurs in the data and is a real level.
pub open spec fn occurs(codes: Seq<i32>, c: i32) -> bool {
    c != UNSEEN_CODE && codes.contains(c)
}

/// The code a named base level stands for: its text's code under the encoding, else
/// the text read as a number.
pub open spec fn named_code(encoding: Encoding, column: Seq<char>, value: Seq<char>) -> Option<i32> {
    match encoding.spec_levels(column) {
        Some(l) if code_of_first(l, value) is Some => code_of_first(l, value),
        _ => spec_parse_code(value),
    }
}

/// The level a categorical factor is anchored on, given the lowest level and the most
/// exposed one.
pub open spec fn chosen_base(
    codes: Seq<i32>,
    base: Base,
    lowest: i32,
    most_exposed: i32,
    encoding: Encoding,
    column: Seq<char>,
) -> Option<i32> {
    match base {
        Base::First => Some(lowest),
        Base::MostExposed => Some(if occurs(codes, most_exposed) { most_exposed } else { lowest }),
        Base::Level { value } => match named_code(encoding, column, value@) {
            Some(c) => if occurs(codes, c) {
                Some(c)
            } else {
                None
            },
            None => None,
        },
    }
}

/// The base names the level `value`.
pub open spec fn names_base(base: Base, value: Seq<char>) -> bool {
    match base {
        Base::Level { value: v } => v@ == value,
        _ => false,
    }
}

/// Inserts a code into strictly ascending codes, unless it is already there.
pub(crate) fn insert_code(acc: &mut Vec<i32>, k: i32)
    requires
        forall|i: int, j: int| 0 <= i < j < old(acc).len() ==> old(acc)@[i] < old(acc)@[j],
    ensures
        forall|i: int, j: int| 0 <= i < j < final(acc).len() ==> final(acc)@[i] < final(acc)@[j],
        forall|x: i32| final(acc)@.contains(x) <==> (old(acc)@.contains(x) || x == k),
{
    let mut pos: usize = 0;
    while pos < acc.len() && acc[pos] < k
        invariant
            acc@ == old(acc)@,
            pos <= acc.len(),
            forall|i: int| 0 <= i < pos ==> acc@[i] < k,
        decreases acc.len() - pos,
    {
        pos += 1;
    }
    if pos < acc.len() && acc[pos] == k {
        assert(acc@.contains(k)) by {
            assert(acc@[pos as int] == k);
        }
        return;
    }
    acc.insert(pos, k);
    proof {
        assert forall|x: i32| acc@.contains(x) <==> (old(acc)@.contains(x) || x == k) by {
            if acc@.contains(x) {
                let i = choose|i: int| 0 <= i < acc@.len() && acc@[i] == x;
                if i < pos {
                    assert(old(acc)@[i] == x);
                } else if i > pos {
                    assert(old(acc)@[i - 1] == x);
                }
            }
            if old(acc)@.contains(x) {
                let i = choose|i: int| 0 <= i < old(acc)@.len() && old(acc)@[i] == x;
                if i < pos {
                    assert(acc@[i] == x);
                } else {
                    assert(acc@[i + 1] == x);
                }
            }
            if x == k {
                assert(acc@[pos as int] == k);
            }
        }
    }
}

/// How many levels an error message lists.
pub const LISTED_LEVELS: usize = 20;

/// A level as a reader knows it: its text under the encoding, else its code.
pub open spec fn level_text(e: Encoding, column: Seq<char>, c: i32) -> Seq<char> {
    match e.spec_levels(column) {
        Some(l) if label_of_first(l, c) is Some => label_of_first(l, c)->0,
        _ => signed_decimal(c as int),
    }
}

/// The first [`LISTED_LEVELS`] of these levels as a reader knows them, joined with
/// commas.
pub open spec fn level_list(levels: Seq<i32>, e: Encoding, column: Seq<char>) -> Seq<char> {
    let shown = if levels.len() < LISTED_LEVELS { levels.len() as int } else { LISTED_LEVELS as int };
    joined(levels.take(shown).map_values(|c: i32| level_text(e, column, c)), ", "@)
}

/// `text` lists the levels that occur in `codes`, ascending, as [`level_list`] does.
pub open spec fn describes_levels(text: Seq<char>, codes: Seq<i32>, e: Encoding, column: Seq<char>) -> bool {
    exists|levels: Seq<i32>|
        #![trigger level_list(levels, e, column)]
        (forall|a: int, b: int| 0 <= a < b < levels.len() ==> levels[a] < levels[b]) && (forall|c: i32|
            levels.contains(c) <==> occurs(codes, c)) && text == level_list(levels, e, column)
}

/// The first [`LISTED_LEVELS`] levels as a reader knows them, joined with commas.
pub fn describe_levels(levels: &Vec<i32>, encoding: &Encoding, column: &String) -> (res: String)
    requires
        encoding.wf(),
    ensures
        res@ == level_list(levels@, *encoding, column@),
{
    let shown = if levels.len() < LISTED_LEVELS {
        levels.len()
    } else {
        LISTED_LEVELS
    };
    let mut parts: Vec<String> = Vec::new();
    let mut k: usize = 0;
    while k < shown
        invariant
            encoding.wf(),
            shown <= levels.len(),
            k <= shown,
            views(parts@) == levels@.take(k as int).map_values(|c: i32| level_text(*encoding, column@, c)),
        decreases shown - k,
    {
        let c = levels[k];
        let text = match encoding.label_for(column, c) {
            Some(t) => t.clone(),
            None => {
                let mut t = String::new();
                push_signed_decimal(&mut t, c);
                t
            },
        };
        let ghost before = parts@;
        parts.push(text);
        proof {
            assert(text@ == level_text(*encoding, column@, c));
            assert(views(parts@) =~= views(before).push(text@));
            assert(levels@.take(k + 1) =~= levels@.take(k as int).push(c));
            assert(levels@.take(k + 1).map_values(|c: i32| level_text(*encoding, column@, c)) =~= levels@.take(
                k as int,
            ).map_values(|c: i32| level_text(*encoding, column@, c)).push(level_text(*encoding, column@, c)));
        }
        k += 1;
    }
    let mut out = String::new();
    push_joined(&mut out, &parts, ", ");
    proof {
        assert(out@ =~= joined(views(parts@), ", "@));
    }
    out
}

/// The distinct levels of a categorical column, the chosen base first and the rest
/// ascending.
///
/// A level is a code that occurs and is not the unseen code. The base is the lowest
/// level for [`Base::First`]; `most_exposed` for [`Base::MostExposed`] (the level with
/// the most exposure, which takes float sums and so is found by the caller; the lowest
/// level stands in if it does not occur); and for [`Base::Level`] the named level, by
/// its text under the encoding or else as a number. Errors: no level at all
/// (`NoLevels`), a name that is neither (`UnknownBase`), a level that does not occur
/// (`AbsentBase`).
pub fn ordered_levels(codes: &Vec<i32>, base: &Base, most_exposed: i32, encoding: &Encoding, column: &String) -> (res: Result<Vec<i32>, LevelError>)
    requires
        encoding.wf(),
    ensures
        (forall|c: i32| !occurs(codes@, c)) <==> res matches Err(LevelError::NoLevels { .. }),
        match res {
            Ok(levels) => {
                &&& levels.len() >= 1
                &&& forall|c: i32| levels@.contains(c) <==> occurs(codes@, c)
                &&& forall|i: int, j: int| 1 <= i < j < levels.len() ==> levels@[i] < levels@[j]
                &&& forall|i: int| 1 <= i < levels.len() ==> #[trigger] levels@[i] != levels@[0]
                &&& exists|lowest: i32|
                    occurs(codes@, lowest) && (forall|c: i32| occurs(codes@, c) ==> lowest <= c) && chosen_base(
                        codes@,
                        *base,
                        lowest,
                        most_exposed,
                        *encoding,
                        column@,
                    ) == Some(levels@[0])
            },
            Err(LevelError::NoLevels { column: c }) => c@ == column@,
            Err(LevelError::UnknownBase { column: c, value, present }) => c@ == column@ && names_base(*base, value@)
                && named_code(*encoding, column@, value@) is None && describes_levels(present@, codes@, *encoding, column@),
            Err(LevelError::AbsentBase { column: c, value, present }) => c@ == column@ && names_base(*base, value@)
                && named_code(*encoding, column@, value@) is Some && !occurs(
                codes@,
                named_code(*encoding, column@, value@)->0,
            ) && describes_levels(present@, codes@, *encoding, column@),
        },
        (exists|c: i32| occurs(codes@, c)) && !(*base is Level) ==> res is Ok,
{
    let mut levels: Vec<i32> = Vec::new();
    let mut i: usize = 0;
    while i < codes.len()
        invariant
            i <= codes.len(),
            forall|a: int, b: int| 0 <= a < b < levels.len() ==> levels@[a] < levels@[b],
            forall|x: i32| levels@.contains(x) <==> (x != UNSEEN_CODE && codes@.take(i as int).contains(x)),
        decreases codes.len() - i,
    {
        let ghost before = levels@;
        if codes[i] != UNSEEN_CODE {
            insert_code(&mut levels, codes[i]);
        }
        proof {
            assert forall|x: i32| levels@.contains(x) <==> (x != UNSEEN_CODE && codes@.take(i + 1).contains(x)) by {
                let longer = codes@.take(i + 1);
                let shorter = codes@.take(i as int);
                if longer.contains(x) {
                    let j = choose|j: int| 0 <= j < longer.len() && longer[j] == x;
                    if j < i {
                        assert(shorter[j] == x);
                    }
                }
                if shorter.contains(x) {
                    let j = choose|j: int| 0 <= j < shorter.len() && shorter[j] == x;
                    assert(longer[j] == x);
                }
                if x == codes@[i as int] {
                    assert(longer[i as int] == x);
                }
            }
        }
        i += 1;
    }
    proof {
        assert(codes@.take(codes.len() as int) =~= codes@);
    }
    if levels.len() == 0 {
        proof {
            assert forall|c: i32| !occurs(codes@, c) by {
                if occurs(codes@, c) {
                    assert(levels@.contains(c));
                }
            }
        }
        return Err(LevelError::NoLevels { column: column.clone() });
    }
    let lowest = levels[0];
    proof {
        assert(levels@.contains(lowest));
        assert(occurs(codes@, lowest));
        assert forall|c: i32| occurs(codes@, c) implies lowest <= c by {
            assert(levels@.contains(c));
            let j = choose|j: int| 0 <= j < levels.len() && levels@[j] == c;
        }
    }
    let chosen: i32 = match base {
        Base::First => lowest,
        Base::MostExposed => {
            let mut found = false;
            let mut k: usize = 0;
            while k < levels.len()
                invariant
                    k <= levels.len(),
                    found <==> exists|j: int| 0 <= j < k && levels@[j] == most_exposed,
                decreases levels.len() - k,
            {
                if levels[k] == most_exposed {
                    found = true;
                }
                k += 1;
            }
            proof {
                if found {
                    let j = choose|j: int| 0 <= j < levels.len() && levels@[j] == most_exposed;
                    assert(levels@.contains(most_exposed));
                }
                if levels@.contains(most_exposed) {
                    let j = choose|j: int| 0 <= j < levels.len() && levels@[j] == most_exposed;
                }
            }
            if found {
                most_exposed
            } else {
                lowest
            }
        },
        Base::Level { value } => {
            let named = match encoding.code_for(column, value) {
                Some(c) => Some(c),
                None => parse_code(value.as_str()),
            };
            match named {
                None => {
                    let present = describe_levels(&levels, encoding, column);
                    return Err(LevelError::UnknownBase { column: column.clone(), value: value.clone(), present });
                },
                Some(c) => {
                    let mut found = false;
                    let mut k: usize = 0;
                    while k < levels.len()
                        invariant
                            k <= levels.len(),
                            found <==> exists|j: int| 0 <= j < k && levels@[j] == c,
                        decreases levels.len() - k,
                    {
                        if levels[k] == c {
                            found = true;
                        }
                        k += 1;
                    }
                    proof {
                        if found {
                            let j = choose|j: int| 0 <= j < levels.len() && levels@[j] == c;
                            assert(levels@.contains(c));
                        }
                        if levels@.contains(c) {
                            let j = choose|j: int| 0 <= j < levels.len() && levels@[j] == c;
                        }
                    }
                    if !found {
                        let present = describe_levels(&levels, encoding, column);
                        return Err(LevelError::AbsentBase { column: column.clone(), value: value.clone(), present });
                    }
                    c
                },
            }
        },
    };
    proof {
        assert(chosen_base(codes@, *base, lowest, most_exposed, *encoding, column@) == Some(chosen));
        assert(levels@.contains(chosen));
    }
    let mut out: Vec<i32> = Vec::new();
    out.push(chosen);
    let mut k: usize = 0;
    while k < levels.len()
        invariant
            k <= levels.len(),
            out.len() >= 1,
            out@[0] == chosen,
            levels@.contains(chosen),
            forall|a: int, b: int| 0 <= a < b < levels.len() ==> levels@[a] < levels@[b],
            forall|a: int, b: int| 1 <= a < b < out.len() ==> out@[a] < out@[b],
            forall|a: int| 1 <= a < out.len() ==> #[trigger] out@[a] != chosen,
            forall|a: int| 1 <= a < out.len() ==> exists|b: int| 0 <= b < k && levels@[b] == #[trigger] out@[a],
            forall|b: int| 0 <= b < k && levels@[b] != chosen ==> out@.contains(#[trigger] levels@[b]),
            forall|a: int| 1 <= a < out.len() && k < levels.len() ==> out@[a] < levels@[k as int],
        decreases levels.len() - k,
    {
        let ghost before = out@;
        if levels[k] != chosen {
            out.push(levels[k]);
            proof {
                assert(out@[out.len() - 1] == levels@[k as int]);
                assert forall|b: int| 0 <= b < k && levels@[b] != chosen implies out@.contains(#[trigger] levels@[b]) by {
                    let a = choose|a: int| 0 <= a < before.len() && before[a] == levels@[b];
                    assert(out@[a] == levels@[b]);
                }
            }
        }
        proof {
            assert forall|a: int| 1 <= a < out.len() implies exists|b: int| 0 <= b < k + 1 && levels@[b] == #[trigger] out@[a] by {
                if a < before.len() {
                    let b = choose|b: int| 0 <= b < k && levels@[b] == before[a];
                    assert(levels@[b] == out@[a]);
                } else {
                    assert(levels@[k as int] == out@[a]);
                }
            }
            if levels@[k as int] != chosen {
                assert(out@.contains(levels@[k as int])) by {
                    assert(out@[out.len() - 1] == levels@[k as int]);
                }
            }
            assert forall|a: int| 1 <= a < out.len() && k + 1 < levels.len() implies out@[a] < levels@[k + 1] by {
                let b = choose|b: int| 0 <= b < k + 1 && levels@[b] == #[trigger] out@[a];
            }
        }
        k += 1;
    }
    proof {
        assert forall|c: i32| out@.contains(c) <==> occurs(codes@, c) by {
            if out@.contains(c) {
                let a = choose|a: int| 0 <= a < out.len() && out@[a] == c;
                if a >= 1 {
                    let b = choose|b: int| 0 <= b < levels.len() && levels@[b] == #[trigger] out@[a];
                    assert(levels@.contains(c));
                }
            }
            if occurs(codes@, c) {
                assert(levels@.contains(c));
                let b = choose|b: int| 0 <= b < levels.len() && levels@[b] == c;
                if c == chosen {
                    assert(out@[0] == c);
                } else {
                    assert(out@.contains(levels@[b]));
                }
            }
        }
    }
    Ok(out)
}


// ---------------------------------------------------------------- interactions

/// One axis of an interaction: band bounds, or category levels.
#[derive(Debug, Clone)]
pub enum Axis {
    Numeric(Vec<Quantity>),
    Categorical(Vec<i32>),
}

/// How many levels an axis has.
pub open spec fn axis_len(a: Axis) -> nat {
    match a {
        Axis::Numeric(v) => v@.len(),
        Axis::Categorical(v) => v@.len(),
    }
}

/// The number of combinations of the axes from `lo` up to `hi`.
pub open spec fn span(axes: Seq<Axis>, lo: int, hi: int) -> nat
    decreases hi - lo,
{
    if lo >= hi {
        1
    } else {
        axis_len(axes[lo]) * span(axes, lo + 1, hi)
    }
}

/// Which level of axis `a` row `r` takes: the rows run over every combination, the
/// last axis varying fastest.
pub open spec fn level_index(axes: Seq<Axis>, a: int, r: int) -> int {
    (r / span(axes, a + 1, axes.len() as int) as int) % (axis_len(axes[a]) as int)
}

/// Spans multiply across a split.
pub(crate) proof fn lemma_span_split(axes: Seq<Axis>, lo: int, mid: int, hi: int)
    requires
        lo <= mid <= hi,
    ensures
        span(axes, lo, hi) == span(axes, lo, mid) * span(axes, mid, hi),
    decreases mid - lo,
{
    if lo < mid {
        lemma_span_split(axes, lo + 1, mid, hi);
        vstd::arithmetic::mul::lemma_mul_is_associative(
            axis_len(axes[lo]) as int,
            span(axes, lo + 1, mid) as int,
            span(axes, mid, hi) as int,
        );
    } else {
        vstd::arithmetic::mul::lemma_mul_basics(span(axes, mid, hi) as int);
    }
}

/// A span of one axis is that axis's length.
pub(crate) proof fn lemma_span_one(axes: Seq<Axis>, k: int)
    ensures
        span(axes, k, k + 1) == axis_len(axes[k]),
{
    assert(span(axes, k + 1, k + 1) == 1);
    vstd::arithmetic::mul::lemma_mul_basics(axis_len(axes[k]) as int);
}

/// A non-zero span bounds each of its factors.
pub(crate) proof fn lemma_span_factor(axes: Seq<Axis>, lo: int, mid: int, hi: int)
    requires
        lo <= mid <= hi,
        span(axes, lo, hi) >= 1,
    ensures
        span(axes, lo, mid) <= span(axes, lo, hi),
        span(axes, mid, hi) <= span(axes, lo, hi),
        span(axes, lo, mid) >= 1,
        span(axes, mid, hi) >= 1,
{
    lemma_span_split(axes, lo, mid, hi);
    let a = span(axes, lo, mid) as int;
    let b = span(axes, mid, hi) as int;
    assert(a >= 1 && b >= 1) by (nonlinear_arith)
        requires
            a * b >= 1,
            a >= 0,
            b >= 0,
    ;
    assert(a <= a * b && b <= a * b) by (nonlinear_arith)
        requires
            a >= 1,
            b >= 1,
    ;
}

/// The levels repeated as one axis of an odometer: the whole run `outer` times, each
/// level `inner` times in a row.
fn repeat_levels<T: Copy>(levels: &Vec<T>, inner: usize, outer: usize) -> (res: Vec<T>)
    requires
        inner >= 1,
        levels.len() >= 1,
        outer * levels.len() * inner <= usize::MAX,
    ensures
        res.len() == outer * levels.len() * inner,
        forall|r: int|
            0 <= r < res.len() ==> #[trigger] res@[r] == levels@[(r / inner as int) % levels.len() as int],
{
    let n = levels.len();
    let mut out: Vec<T> = Vec::new();
    let mut o: usize = 0;
    assert(0 * n * inner == 0) by (nonlinear_arith);
    while o < outer
        invariant
            inner >= 1,
            n == levels.len(),
            n >= 1,
            o <= outer,
            out.len() == o * n * inner,
            outer * n * inner <= usize::MAX,
            forall|r: int| 0 <= r < out.len() ==> #[trigger] out@[r] == levels@[(r / inner as int) % n as int],
        decreases outer - o,
    {
        let mut l: usize = 0;
        while l < n
            invariant
                inner >= 1,
                n == levels.len(),
                n >= 1,
                o < outer,
                l <= n,
                out.len() == (o * n + l) * inner,
                outer * n * inner <= usize::MAX,
                forall|r: int| 0 <= r < out.len() ==> #[trigger] out@[r] == levels@[(r / inner as int) % n as int],
            decreases n - l,
        {
            let mut q: usize = 0;
            while q < inner
                invariant
                    inner >= 1,
                    n == levels.len(),
                    n >= 1,
                    o < outer,
                    l < n,
                    q <= inner,
                    out.len() == (o * n + l) * inner + q,
                    outer * n * inner <= usize::MAX,
                    forall|r: int| 0 <= r < out.len() ==> #[trigger] out@[r] == levels@[(r / inner as int) % n as int],
                decreases inner - q,
            {
                let ghost r = out.len() as int;
                proof {
                    vstd::arithmetic::div_mod::lemma_fundamental_div_mod_converse(
                        r,
                        inner as int,
                        (o * n + l) as int,
                        q as int,
                    );
                    vstd::arithmetic::div_mod::lemma_fundamental_div_mod_converse(
                        (o * n + l) as int,
                        n as int,
                        o as int,
                        l as int,
                    );
                    assert((o * n + l) * inner + q < outer * n * inner) by (nonlinear_arith)
                        requires
                            o < outer,
                            l < n,
                            q < inner,
                    ;
                }
                out.push(levels[l]);
                q += 1;
            }
            proof {
                assert((o * n + l) * inner + inner == (o * n + (l + 1)) * inner) by (nonlinear_arith);
            }
            l += 1;
        }
        proof {
            assert((o * n + n) * inner == (o + 1) * n * inner) by (nonlinear_arith);
        }
        o += 1;
    }
    out
}

/// Why a plan could not be turned into tables.
#[derive(Debug, Clone, PartialEq, Eq)]
pub enum BuildError {
    /// A plan needs at least one term.
    NoTerms,
    /// Two terms produce a table of the same name.
    DuplicateTable { name: String },
    /// An interaction needs at least two columns.
    TooFewColumns,
    /// An interaction needs one break specification per column.
    BreaksMismatch { columns: usize, breaks: usize },
    /// An interaction with an axis that has no level.
    NoRows,
    /// An interaction with more rows than can be counted.
    TooManyRows,
    /// A variate needs one value per band.
    VariateValues { column: String, values: usize, bands: usize },
    /// The table's columns clash.
    Frame(FrameError),
    /// A categorical column's levels.
    Levels(LevelError),
    /// The variate could not be set up.
    Variate(VariateError),
}

/// A column of `n` zero factors: every row starts at no effect.
fn zero_factors(n: usize) -> (res: Vec<Option<Quantity>>)
    ensures
        res.len() == n,
        forall|r: int| 0 <= r < n ==> #[trigger] res@[r] == Some(Quantity::Ordered(0)),
{
    let mut out: Vec<Option<Quantity>> = Vec::new();
    let mut k: usize = 0;
    while k < n
        invariant
            k <= n,
            out.len() == k,
            forall|r: int| 0 <= r < k ==> #[trigger] out@[r] == Some(Quantity::Ordered(0)),
        decreases n - k,
    {
        out.push(Some(Quantity::Ordered(0)));
        k += 1;
    }
    out
}

/// The cell of axis `a` in row `r` of an interaction table.
pub open spec fn odometer_column(axes: Seq<Axis>, a: int, values: ColumnValues) -> bool {
    let n = span(axes, 0, axes.len() as int);
    match (axes[a], values) {
        (Axis::Numeric(levels), ColumnValues::Float(v)) => v.len() == n && forall|r: int|
            0 <= r < n ==> #[trigger] v@[r] == Some(levels@[level_index(axes, a, r)]),
        (Axis::Categorical(levels), ColumnValues::Int32(v)) => v.len() == n && forall|r: int|
            0 <= r < n ==> #[trigger] v@[r] == Some(levels@[level_index(axes, a, r)]),
        _ => false,
    }
}

/// The frame of an interaction table: one column per axis, in order, then the factor
/// column, all zero.
pub open spec fn interaction_frame(columns: Seq<String>, axes: Seq<Axis>, f: Frame) -> bool {
    &&& f.height == span(axes, 0, axes.len() as int)
    &&& f.columns.len() == axes.len() + 1
    &&& forall|a: int|
        0 <= a < axes.len() ==> (#[trigger] f.columns@[a]).name@ == columns[a]@ && odometer_column(
            axes,
            a,
            f.columns@[a].values,
        )
    &&& f.columns@[axes.len() as int].name@ == factor_name()
    &&& f.columns@[axes.len() as int].values matches ColumnValues::Float(z) && z.len() == f.height
        && forall|r: int| 0 <= r < z.len() ==> #[trigger] z@[r] == Some(Quantity::Ordered(0))
}

/// The rows of an interaction: every combination of the axes' levels, in
/// lexicographic order with the last axis varying fastest. For any fixed prefix the
/// last axis ascends, so the first row that satisfies every bound is the tightest.
///
/// `NoRows` when some axis is empty, `TooManyRows` when the combinations cannot be
/// counted; a column name repeated among the axes, or the factor column's, is a
/// `Frame` error.
pub fn interaction_table(columns: &Vec<String>, axes: &Vec<Axis>) -> (res: Result<Frame, BuildError>)
    requires
        columns.len() == axes.len(),
    ensures
        match res {
            Ok(f) => f.wf() && interaction_frame(columns@, axes@, f) && f.height >= 1,
            Err(BuildError::NoRows) => span(axes@, 0, axes.len() as int) == 0,
            Err(BuildError::TooManyRows) => span(axes@, 0, axes.len() as int) == 0 || span(
                axes@,
                0,
                axes.len() as int,
            ) > usize::MAX,
            Err(BuildError::Frame(_)) => 1 <= span(axes@, 0, axes.len() as int) <= usize::MAX,
            Err(_) => false,
        },
        1 <= span(axes@, 0, axes.len() as int) <= usize::MAX && distinct_names_with_factor(columns@)
            ==> res is Ok,
{
    let n = axes.len();
    let mut total: usize = 1;
    let mut k: usize = 0;
    while k < n
        invariant
            n == axes.len(),
            k <= n,
            total == span(axes@, 0, k as int),
        decreases n - k,
    {
        let len = match &axes[k] {
            Axis::Numeric(v) => v.len(),
            Axis::Categorical(v) => v.len(),
        };
        proof {
            lemma_span_split(axes@, 0, k as int, k + 1);
            lemma_span_split(axes@, 0, k + 1, n as int);
            lemma_span_split(axes@, 0, k as int, n as int);
            lemma_span_one(axes@, k as int);
        }
        match total.checked_mul(len) {
            Some(t) => total = t,
            None => {
                proof {
                    let pre = span(axes@, 0, k + 1) as int;
                    let post = span(axes@, k + 1, n as int) as int;
                    assert(pre > usize::MAX);
                    assert(pre * post == 0 || pre * post >= pre) by (nonlinear_arith)
                        requires
                            pre >= 0,
                            post >= 0,
                    ;
                }
                return Err(BuildError::TooManyRows);
            },
        }
        k += 1;
    }
    if total == 0 {
        return Err(BuildError::NoRows);
    }
    let mut frame_columns: Vec<FrameColumn> = Vec::new();
    let mut a: usize = 0;
    while a < n
        invariant
            n == axes.len(),
            columns.len() == n,
            a <= n,
            total == span(axes@, 0, n as int),
            1 <= total,
            frame_columns.len() == a,
            forall|b: int|
                0 <= b < a ==> (#[trigger] frame_columns@[b]).name@ == columns@[b]@ && odometer_column(
                    axes@,
                    b,
                    frame_columns@[b].values,
                ),
        decreases n - a,
    {
        let mut inner: usize = 1;
        let mut j: usize = a + 1;
        proof {
            lemma_span_factor(axes@, 0, a + 1, n as int);
            lemma_span_factor(axes@, 0, a as int, n as int);
            lemma_span_split(axes@, a as int, a + 1, n as int);
            lemma_span_split(axes@, 0, a as int, n as int);
        }
        while j < n
            invariant
                n == axes.len(),
                a < j <= n,
                inner == span(axes@, a + 1, j as int),
                span(axes@, a + 1, n as int) <= usize::MAX,
                span(axes@, a + 1, n as int) >= 1,
            decreases n - j,
        {
            let len = match &axes[j] {
                Axis::Numeric(v) => v.len(),
                Axis::Categorical(v) => v.len(),
            };
            proof {
                lemma_span_split(axes@, a + 1, j as int, j + 1);
                lemma_span_one(axes@, j as int);
                lemma_span_factor(axes@, a + 1, j + 1, n as int);
            }
            inner = inner * len;
            j += 1;
        }
        let mut outer: usize = 1;
        let mut j: usize = 0;
        while j < a
            invariant
                n == axes.len(),
                j <= a < n,
                outer == span(axes@, 0, j as int),
                span(axes@, 0, a as int) <= usize::MAX,
                span(axes@, 0, a as int) >= 1,
            decreases a - j,
        {
            let len = match &axes[j] {
                Axis::Numeric(v) => v.len(),
                Axis::Categorical(v) => v.len(),
            };
            proof {
                lemma_span_split(axes@, 0, j as int, j + 1);
                lemma_span_one(axes@, j as int);
                lemma_span_factor(axes@, 0, j + 1, a as int);
            }
            outer = outer * len;
            j += 1;
        }
        proof {
            let sa = axis_len(axes@[a as int]) as int;
            lemma_span_one(axes@, a as int);
            assert(total == outer * (sa * inner)) by {
                lemma_span_split(axes@, a as int, a + 1, n as int);
            }
            vstd::arithmetic::mul::lemma_mul_is_associative(outer as int, sa, inner as int);
            assert(inner >= 1);
            assert(sa >= 1) by {
                assert(span(axes@, a as int, n as int) == sa * inner);
                assert(span(axes@, a as int, n as int) >= 1);
                assert(sa * inner >= 1);
                vstd::arithmetic::mul::lemma_mul_basics(inner as int);
            }
        }
        let values = match &axes[a] {
            Axis::Numeric(levels) => {
                let repeated = repeat_levels(levels, inner, outer);
                let mut cells: Vec<Option<Quantity>> = Vec::new();
                let mut r: usize = 0;
                while r < repeated.len()
                    invariant
                        r <= repeated.len(),
                        cells.len() == r,
                        forall|i: int| 0 <= i < r ==> #[trigger] cells@[i] == Some(repeated@[i]),
                    decreases repeated.len() - r,
                {
                    cells.push(Some(repeated[r]));
                    r += 1;
                }
                ColumnValues::Float(cells)
            },
            Axis::Categorical(levels) => {
                let repeated = repeat_levels(levels, inner, outer);
                let mut cells: Vec<Option<i32>> = Vec::new();
                let mut r: usize = 0;
                while r < repeated.len()
                    invariant
                        r <= repeated.len(),
                        cells.len() == r,
                        forall|i: int| 0 <= i < r ==> #[trigger] cells@[i] == Some(repeated@[i]),
                    decreases repeated.len() - r,
                {
                    cells.push(Some(repeated[r]));
                    r += 1;
                }
                ColumnValues::Int32(cells)
            },
        };
        frame_columns.push(FrameColumn { name: columns[a].clone(), values });
        a += 1;
    }
    frame_columns.push(FrameColumn { name: factor_column_name(), values: ColumnValues::Float(zero_factors(total)) });
    let ghost built = frame_columns@;
    match Frame::new(frame_columns) {
        Ok(f) => {
            proof {
                assert(f.height == total);
                assert forall|b: int| 0 <= b < n implies (#[trigger] f.columns@[b]).name@ == columns@[b]@
                    && odometer_column(axes@, b, f.columns@[b].values) by {
                    assert(f.columns@[b] == built[b]);
                }
            }
            Ok(f)
        },
        Err(e) => {
            proof {
                if distinct_names_with_factor(columns@) {
                    assert forall|x: int, y: int|
                        0 <= x < built.len() && 0 <= y < built.len() && x != y implies built[x].name@
                        != built[y].name@ by {
                        if x < n as int && y < n as int {
                            assert(built[x].name@ == columns@[x]@);
                            assert(built[y].name@ == columns@[y]@);
                        } else if x < n as int {
                            assert(built[x].name@ == columns@[x]@);
                        } else {
                            assert(built[y].name@ == columns@[y]@);
                        }
                    }
                    assert forall|x: int| 0 <= x < built.len() implies (#[trigger] built[x]).values.spec_len()
                        == built[0].values.spec_len() by {
                        if n == 0 {
                        } else {
                            assert(odometer_column(axes@, 0, built[0].values));
                            if x < n as int {
                                assert(odometer_column(axes@, x, built[x].values));
                            }
                        }
                    }
                    assert(false);
                }
            }
            Err(BuildError::Frame(e))
        },
    }
}

/// The positions, among the first `k` axes, of those that are numeric (or, with
/// `numeric` unset, categorical), in axis order.
pub open spec fn kind_positions(axes: Seq<Axis>, k: int, numeric: bool) -> Seq<int>
    decreases k,
{
    if k <= 0 {
        Seq::empty()
    } else {
        let rest = kind_positions(axes, k - 1, numeric);
        if (axes[k - 1] is Numeric) == numeric {
            rest.push(k - 1)
        } else {
            rest
        }
    }
}

/// The order an interaction table lays its axes' columns out in: the numeric axes,
/// then the categorical ones, each in axis order.
pub open spec fn column_order(axes: Seq<Axis>) -> Seq<int> {
    kind_positions(axes, axes.len() as int, true) + kind_positions(axes, axes.len() as int, false)
}

/// The frame of an interaction table as laid out: the column of each axis, in column
/// order, then the factor column, all zero. The rows are the odometer over the axes in
/// their own order.
pub open spec fn interaction_layout(columns: Seq<String>, axes: Seq<Axis>, f: Frame) -> bool {
    &&& f.height == span(axes, 0, axes.len() as int)
    &&& column_order(axes).len() == axes.len()
    &&& f.columns.len() == axes.len() + 1
    &&& forall|p: int|
        0 <= p < axes.len() ==> (#[trigger] f.columns@[p]).name@ == columns[column_order(axes)[p]]@
            && odometer_column(axes, column_order(axes)[p], f.columns@[p].values)
    &&& f.columns@[axes.len() as int].name@ == factor_name()
    &&& f.columns@[axes.len() as int].values matches ColumnValues::Float(z) && z.len() == f.height
        && forall|r: int| 0 <= r < z.len() ==> #[trigger] z@[r] == Some(Quantity::Ordered(0))
}

/// The positions of one kind ascend, lie among the first `k` axes and are of that
/// kind; every axis of the kind is among them; and the two kinds together number `k`.
proof fn lemma_kind_positions(axes: Seq<Axis>, k: int, numeric: bool)
    requires
        0 <= k <= axes.len(),
    ensures
        forall|i: int|
            0 <= i < kind_positions(axes, k, numeric).len() ==> 0 <= #[trigger] kind_positions(
                axes,
                k,
                numeric,
            )[i] < k && (axes[kind_positions(axes, k, numeric)[i]] is Numeric) == numeric,
        forall|i: int, j: int|
            0 <= i < j < kind_positions(axes, k, numeric).len() ==> kind_positions(axes, k, numeric)[i]
                < kind_positions(axes, k, numeric)[j],
        forall|a: int|
            0 <= a < k && (#[trigger] axes[a] is Numeric) == numeric ==> exists|i: int|
                0 <= i < kind_positions(axes, k, numeric).len() && kind_positions(axes, k, numeric)[i]
                    == a,
        kind_positions(axes, k, numeric).len() + kind_positions(axes, k, !numeric).len() == k,
    decreases k,
{
    if k > 0 {
        lemma_kind_positions(axes, k - 1, numeric);
        lemma_kind_positions(axes, k - 1, !numeric);
        let rest = kind_positions(axes, k - 1, numeric);
        let ps = kind_positions(axes, k, numeric);
        assert forall|a: int| 0 <= a < k && (#[trigger] axes[a] is Numeric) == numeric implies exists|i: int|
            0 <= i < ps.len() && ps[i] == a by {
            if a == k - 1 {
                assert(ps[rest.len() as int] == a);
            } else {
                let i = choose|i: int| 0 <= i < rest.len() && rest[i] == a;
                assert(ps[i] == rest[i]);
            }
        }
    }
}

/// The column order names every axis once.
proof fn lemma_column_order(axes: Seq<Axis>)
    ensures
        column_order(axes).len() == axes.len(),
        forall|p: int| 0 <= p < axes.len() ==> 0 <= #[trigger] column_order(axes)[p] < axes.len(),
        forall|p: int, q: int|
            0 <= p < axes.len() && 0 <= q < axes.len() && p != q ==> column_order(axes)[p]
                != column_order(axes)[q],
{
    let n = axes.len() as int;
    lemma_kind_positions(axes, n, true);
    lemma_kind_positions(axes, n, false);
    let nums = kind_positions(axes, n, true);
    let cats = kind_positions(axes, n, false);
    let order = column_order(axes);
    assert forall|p: int| 0 <= p < n implies 0 <= #[trigger] order[p] < n by {
        if p < nums.len() {
            assert(order[p] == nums[p]);
        } else {
            assert(order[p] == cats[p - nums.len()]);
        }
    }
    assert forall|p: int, q: int| 0 <= p < n && 0 <= q < n && p != q implies order[p] != order[q] by {
        if p < nums.len() && q < nums.len() {
            if p < q {
                assert(nums[p] < nums[q]);
            } else {
                assert(nums[q] < nums[p]);
            }
        } else if p >= nums.len() && q >= nums.len() {
            if p < q {
                assert(cats[p - nums.len()] < cats[q - nums.len()]);
            } else {
                assert(cats[q - nums.len()] < cats[p - nums.len()]);
            }
        } else if p < nums.len() {
            assert(axes[nums[p]] is Numeric);
            assert(!(axes[cats[q - nums.len()]] is Numeric));
        } else {
            assert(axes[nums[q]] is Numeric);
            assert(!(axes[cats[p - nums.len()]] is Numeric));
        }
    }
}

/// In a frame, the column at a position is the one its name finds.
proof fn lemma_index_at(f: Frame, a: int)
    requires
        f.wf(),
        0 <= a < f.columns.len(),
    ensures
        f.spec_index_of(f.columns@[a].name@) == Some(a),
{
    let c = choose|c: int| 0 <= c < f.columns.len() && (#[trigger] f.columns[c]).name@ == f.columns@[a].name@;
    if c != a {
        assert(f.columns@[c].name@ != f.columns@[a].name@);
    }
}

/// Lays an interaction frame's columns out in column order, the factor column last.
fn lay_out(columns: &Vec<String>, axes: &Vec<Axis>, f: Frame) -> (res: Frame)
    requires
        columns.len() == axes.len(),
        f.wf(),
        interaction_frame(columns@, axes@, f),
        distinct_names_with_factor(columns@),
    ensures
        res.wf(),
        interaction_layout(columns@, axes@, res),
{
    let ghost n = axes.len() as int;
    let ghost nums = kind_positions(axes@, n, true);
    let ghost cats = kind_positions(axes@, n, false);
    let ghost order = column_order(axes@);
    proof {
        lemma_column_order(axes@);
        lemma_kind_positions(axes@, n, true);
    }
    let mut names: Vec<String> = Vec::new();
    let mut a: usize = 0;
    while a < axes.len()
        invariant
            columns.len() == axes.len(),
            n == axes.len(),
            a <= axes.len(),
            name_views(names@) == kind_positions(axes@, a as int, true).map_values(|p: int| columns@[p]@),
        decreases axes.len() - a,
    {
        let ghost before = names@;
        if let Axis::Numeric(_) = &axes[a] {
            names.push(columns[a].clone());
            proof {
                assert(name_views(names@) =~= name_views(before).push(columns@[a as int]@));
            }
        }
        proof {
            assert(kind_positions(axes@, a + 1, true).map_values(|p: int| columns@[p]@) =~= if axes@[a as int] is Numeric {
                kind_positions(axes@, a as int, true).map_values(|p: int| columns@[p]@).push(columns@[a as int]@)
            } else {
                kind_positions(axes@, a as int, true).map_values(|p: int| columns@[p]@)
            });
        }
        a += 1;
    }
    let mut a: usize = 0;
    while a < axes.len()
        invariant
            columns.len() == axes.len(),
            n == axes.len(),
            nums == kind_positions(axes@, n, true),
            a <= axes.len(),
            name_views(names@) == nums.map_values(|p: int| columns@[p]@) + kind_positions(
                axes@,
                a as int,
                false,
            ).map_values(|p: int| columns@[p]@),
        decreases axes.len() - a,
    {
        let ghost before = names@;
        if let Axis::Categorical(_) = &axes[a] {
            names.push(columns[a].clone());
            proof {
                assert(name_views(names@) =~= name_views(before).push(columns@[a as int]@));
            }
        }
        proof {
            assert(kind_positions(axes@, a + 1, false).map_values(|p: int| columns@[p]@) =~= if !(axes@[a as int] is Numeric) {
                kind_positions(axes@, a as int, false).map_values(|p: int| columns@[p]@).push(columns@[a as int]@)
            } else {
                kind_positions(axes@, a as int, false).map_values(|p: int| columns@[p]@)
            });
        }
        a += 1;
    }
    let ghost axis_names = name_views(names@);
    proof {
        assert(axis_names =~= order.map_values(|p: int| columns@[p]@));
    }
    names.push(factor_column_name());
    let ghost wanted = name_views(names@);
    proof {
        assert(wanted =~= axis_names.push(factor_name()));
        assert forall|p: int| 0 <= p < n implies #[trigger] wanted[p] == f.columns@[order[p]].name@ by {
            assert(wanted[p] == columns@[order[p]]@);
        }
        assert(wanted[n] == f.columns@[n].name@);
        assert forall|k: int| 0 <= k < wanted.len() implies (f.spec_index_of(#[trigger] wanted[k]) is Some) by {
            if k < n {
                lemma_index_at(f, order[k]);
            } else {
                lemma_index_at(f, n);
            }
        }
        assert forall|x: int, y: int| 0 <= x < y < wanted.len() implies wanted[x] != wanted[y] by {
            if y < n {
                assert(order[x] != order[y]);
            } else {
                assert((#[trigger] columns@[order[x]])@ != factor_name());
            }
        }
        assert(selectable(f, wanted));
    }
    let ghost g0 = f;
    match f.select(&names) {
        Ok(g) => {
            proof {
                assert forall|p: int| 0 <= p < n implies (#[trigger] g.columns@[p]).name@
                    == columns@[order[p]]@ && odometer_column(axes@, order[p], g.columns@[p].values) by {
                    lemma_index_at(g0, order[p]);
                    assert(g.columns@[p] == g0.columns@[g0.spec_index_of(wanted[p])->0]);
                }
                lemma_index_at(g0, n);
                assert(g.columns@[n] == g0.columns@[n]);
            }
            g
        },
        Err(_) => {
            proof {
                assert(false);
            }
            Frame { columns: Vec::new(), height: 0 }
        },
    }
}

/// Rows `r1` and `r2` agree on every axis before `a` and `r1` takes the lower level
/// on axis `a`.
pub open spec fn rows_ascend_at(axes: Seq<Axis>, r1: int, r2: int, a: int) -> bool {
    &&& forall|b: int| 0 <= b < a ==> #[trigger] level_index(axes, b, r1) == level_index(axes, b, r2)
    &&& level_index(axes, a, r1) < level_index(axes, a, r2)
}

/// How far along the axes from `a` on row `r` has come: the row divided by the
/// combinations after `a`.
spec fn quotient(axes: Seq<Axis>, a: int, r: int) -> int {
    r / span(axes, a, axes.len() as int) as int
}

/// One axis further in, the quotient gains that axis's level as its lowest digit.
proof fn lemma_quotient_step(axes: Seq<Axis>, a: int, r: int)
    requires
        0 <= a < axes.len(),
        0 <= r,
        span(axes, 0, axes.len() as int) >= 1,
    ensures
        quotient(axes, a + 1, r) == axis_len(axes[a]) * quotient(axes, a, r) + level_index(axes, a, r),
        axis_len(axes[a]) >= 1,
        0 <= level_index(axes, a, r) < axis_len(axes[a]),
{
    let n = axes.len() as int;
    let inner = span(axes, a + 1, n) as int;
    let len = axis_len(axes[a]) as int;
    lemma_span_factor(axes, 0, a + 1, n);
    lemma_span_factor(axes, 0, a, n);
    lemma_span_split(axes, a, a + 1, n);
    lemma_span_one(axes, a);
    assert(len >= 1) by {
        vstd::arithmetic::mul::lemma_mul_basics(inner);
    }
    vstd::arithmetic::div_mod::lemma_div_denominator(r, inner, len);
    vstd::arithmetic::mul::lemma_mul_is_commutative(inner, len);
    let q = r / inner;
    vstd::arithmetic::div_mod::lemma_fundamental_div_mod(q, len);
    vstd::arithmetic::div_mod::lemma_mod_pos_bound(q, len);
}

proof fn lemma_rows_ascend_from(axes: Seq<Axis>, r1: int, r2: int, a: int) -> (first: int)
    requires
        0 <= r1 < r2 < span(axes, 0, axes.len() as int),
        0 <= a <= axes.len(),
        quotient(axes, a, r1) == quotient(axes, a, r2),
        forall|b: int| 0 <= b < a ==> #[trigger] level_index(axes, b, r1) == level_index(axes, b, r2),
    ensures
        a <= first < axes.len(),
        rows_ascend_at(axes, r1, r2, first),
    decreases axes.len() - a,
{
    let n = axes.len() as int;
    if a == n {
        assert(span(axes, n, n) == 1);
        vstd::arithmetic::div_mod::lemma_div_basics(r1);
        vstd::arithmetic::div_mod::lemma_div_basics(r2);
        assert(false);
        a
    } else {
        lemma_quotient_step(axes, a, r1);
        lemma_quotient_step(axes, a, r2);
        if level_index(axes, a, r1) == level_index(axes, a, r2) {
            lemma_rows_ascend_from(axes, r1, r2, a + 1)
        } else {
            lemma_span_factor(axes, 0, a + 1, n);
            vstd::arithmetic::div_mod::lemma_div_is_ordered(r1, r2, span(axes, a + 1, n) as int);
            a
        }
    }
}

/// The rows of an interaction ascend lexicographically over the axes: of any two
/// rows, the earlier one agrees with the later on every axis up to some axis, and
/// takes the lower level there. So no combination appears twice, and for any fixed
/// prefix the last axis ascends, which is what first-match lookup relies on.
pub proof fn law_interaction_rows_ascend(axes: Seq<Axis>, r1: int, r2: int)
    requires
        0 <= r1 < r2 < span(axes, 0, axes.len() as int),
    ensures
        exists|a: int| 0 <= a < axes.len() && #[trigger] rows_ascend_at(axes, r1, r2, a),
{
    let total = span(axes, 0, axes.len() as int) as int;
    vstd::arithmetic::div_mod::lemma_basic_div_specific_divisor(total);
    assert(quotient(axes, 0, r1) == 0);
    assert(quotient(axes, 0, r2) == 0);
    let a = lemma_rows_ascend_from(axes, r1, r2, 0);
}

/// Column names that are distinct and none of them the factor column.
pub open spec fn distinct_names_with_factor(columns: Seq<String>) -> bool {
    &&& forall|a: int, b: int| 0 <= a < columns.len() && 0 <= b < columns.len() && a != b ==> columns[a]@ != columns[b]@
    &&& forall|a: int| 0 <= a < columns.len() ==> (#[trigger] columns[a])@ != factor_name()
}


// ---------------------------------------------------------------- building

/// What a plan decided for one term, once it had seen the data.
#[derive(Debug, Clone)]
pub struct ResolvedTerm {
    pub name: String,
    /// `intercept`, `banded`, `categorical`, `variate`, `interaction`, `given` or `offset`.
    pub kind: String,
    pub columns: Vec<String>,
    /// Rows in the table this term produced.
    pub rows: usize,
    /// Free parameters it spends once anchored.
    pub parameters: usize,
    /// Band upper bounds, for a banded or variate term.
    pub edges: Option<Vec<Quantity>>,
    /// The level anchored at zero, as it reads.
    pub base_level: Option<String>,
    /// The values a variate's polynomial is taken over.
    pub variate_values: Option<Vec<Quantity>>,
}

/// Every value present.
fn present<T: Copy>(values: &Vec<T>) -> (res: Vec<Option<T>>)
    ensures
        res.len() == values.len(),
        forall|r: int| 0 <= r < values.len() ==> #[trigger] res@[r] == Some(values@[r]),
{
    let mut out: Vec<Option<T>> = Vec::new();
    let mut r: usize = 0;
    while r < values.len()
        invariant
            r <= values.len(),
            out.len() == r,
            forall|i: int| 0 <= i < r ==> #[trigger] out@[i] == Some(values@[i]),
        decreases values.len() - r,
    {
        out.push(Some(values[r]));
        r += 1;
    }
    out
}

/// `values` read as cells with every value present.
pub open spec fn cells_of<T>(cells: Seq<Option<T>>, values: Seq<T>) -> bool {
    cells.len() == values.len() && forall|r: int| 0 <= r < values.len() ==> #[trigger] cells[r] == Some(values[r])
}

/// A two-column step table: the driver column, then the factor column at zero.
pub open spec fn step_frame(column: Seq<char>, values: ColumnValues, f: Frame) -> bool {
    &&& f.columns.len() == 2
    &&& f.columns@[0].name@ == column
    &&& f.columns@[0].values == values
    &&& f.columns@[1].name@ == factor_name()
    &&& f.height == values.spec_len()
    &&& f.columns@[1].values matches ColumnValues::Float(z) && z.len() == f.height && forall|r: int|
        0 <= r < z.len() ==> #[trigger] z@[r] == Some(Quantity::Ordered(0))
}

/// The table over one driver column, every factor zero. Refused (`Frame`) only when
/// the driver is named as the factor column.
fn step_table(column: &String, values: ColumnValues) -> (res: Result<RatingTable, BuildError>)
    ensures
        match res {
            Ok(t) => {
                &&& t.wf()
                &&& step_frame(column@, values, t.data)
                &&& t.metadata.name@ == Seq::<char>::empty()
                &&& !t.metadata.is_offset
                &&& t.metadata.is_updatable
                &&& t.metadata.semantics is Step
                &&& t.row_metadata is None
            },
            Err(e) => e is Frame && column@ == factor_name(),
        },
        column@ != factor_name() ==> res is Ok,
{
    let n = values.len();
    let ghost v = values;
    let cols = vec![
        FrameColumn { name: column.clone(), values },
        FrameColumn { name: factor_column_name(), values: ColumnValues::Float(zero_factors(n)) },
    ];
    match Frame::new(cols) {
        Ok(f) => Ok(RatingTable::new(f)),
        Err(e) => Err(BuildError::Frame(e)),
    }
}

/// A copy of numbers.
fn copy_quantities(v: &Vec<Quantity>) -> (res: Vec<Quantity>)
    ensures
        res@ == v@,
{
    let mut copy: Vec<Quantity> = Vec::new();
    let mut k: usize = 0;
    while k < v.len()
        invariant
            k <= v.len(),
            copy@ == v@.take(k as int),
        decreases v.len() - k,
    {
        copy.push(v[k]);
        k += 1;
        proof {
            assert(copy@ =~= v@.take(k as int));
        }
    }
    proof {
        assert(v@.take(v.len() as int) =~= v@);
    }
    copy
}

/// Text for a fixed word.
fn word(w: &str) -> (res: String)
    ensures
        res@ == w@,
{
    String::from_str(w)
}

/// One column name as a list.
fn single(column: &String) -> (res: Vec<String>)
    ensures
        res.len() == 1,
        res@[0]@ == column@,
{
    vec![column.clone()]
}

/// A banded term's table: one row per band, each band's upper bound, the lowest band
/// as base.
pub fn build_banded(column: &String, edges: &Vec<Quantity>) -> (res: Result<(RatingTable, ResolvedTerm), BuildError>)
    ensures
        match res {
            Ok((t, info)) => {
                &&& t.wf()
                &&& t.data.columns.len() == 2
                &&& t.data.columns@[0].values matches ColumnValues::Float(v) && cells_of(v@, edges@)
                &&& step_frame(column@, t.data.columns@[0].values, t.data)
                &&& t.metadata.semantics is Step
                &&& !t.metadata.is_offset
                &&& info.name@ == column@
                &&& info.kind@ == "banded"@
                &&& info.columns.len() == 1 && info.columns@[0]@ == column@
                &&& info.rows == edges.len()
                &&& info.parameters == if edges.len() == 0 { 0 } else { edges.len() - 1 }
                &&& info.edges matches Some(e) && e@ == edges@
                &&& info.base_level matches Some(b) && b@ == "lowest band"@
                &&& info.variate_values is None
            },
            Err(e) => e is Frame && column@ == factor_name(),
        },
        column@ != factor_name() ==> res is Ok,
{
    let table = step_table(column, ColumnValues::Float(present(edges)))?;
    let rows = edges.len();
    let info = ResolvedTerm {
        name: column.clone(),
        kind: word("banded"),
        columns: single(column),
        rows,
        parameters: if rows == 0 { 0 } else { rows - 1 },
        edges: Some(copy_quantities(edges)),
        base_level: Some(word("lowest band")),
        variate_values: None,
    };
    Ok((table, info))
}

/// A categorical term's table: one row per level, the base level first.
pub fn build_categorical(column: &String, levels: &Vec<i32>, encoding: &Encoding) -> (res: Result<(RatingTable, ResolvedTerm), BuildError>)
    requires
        levels.len() >= 1,
        encoding.wf(),
    ensures
        match res {
            Ok((t, info)) => {
                &&& t.wf()
                &&& t.data.columns@[0].values matches ColumnValues::Int32(v) && cells_of(v@, levels@)
                &&& step_frame(column@, t.data.columns@[0].values, t.data)
                &&& t.metadata.semantics is Step
                &&& !t.metadata.is_offset
                &&& info.name@ == column@
                &&& info.kind@ == "categorical"@
                &&& info.columns.len() == 1 && info.columns@[0]@ == column@
                &&& info.rows == levels.len()
                &&& info.parameters == levels.len() - 1
                &&& info.edges is None
                &&& info.variate_values is None
                &&& info.base_level matches Some(b) && (match encoding.spec_levels(column@) {
                    Some(l) if label_of_first(l, levels@[0]) is Some => b@ == label_of_first(l, levels@[0])->0,
                    _ => b@ == signed_decimal(levels@[0] as int),
                })
            },
            Err(e) => e is Frame && column@ == factor_name(),
        },
        column@ != factor_name() ==> res is Ok,
{
    let table = step_table(column, ColumnValues::Int32(present(levels)))?;
    let base_label = match encoding.label_for(column, levels[0]) {
        Some(text) => text.clone(),
        None => {
            let mut text = String::new();
            push_signed_decimal(&mut text, levels[0]);
            text
        },
    };
    let rows = levels.len();
    let info = ResolvedTerm {
        name: column.clone(),
        kind: word("categorical"),
        columns: single(column),
        rows,
        parameters: rows - 1,
        edges: None,
        base_level: Some(base_label),
        variate_values: None,
    };
    Ok((table, info))
}

/// A variate term's table: the band table with its factors tied to a polynomial of
/// `degree` over `values` (one per band), or over `midpoints` when no values were
/// given. A given value count that is not the band count is refused
/// (`VariateValues`), as is anything [`RatingTable::as_polynomial_variate`] refuses.
pub fn build_variate(column: &String, edges: &Vec<Quantity>, values: &Option<Vec<Quantity>>, midpoints: Vec<Quantity>, degree: usize) -> (res: Result<(RatingTable, ResolvedTerm), BuildError>)
    ensures
        match res {
            Ok((t, info)) => {
                let chosen = match values {
                    Some(v) => v@,
                    None => midpoints@,
                };
                &&& t.wf()
                &&& t.data.columns@[0].values matches ColumnValues::Float(v) && cells_of(v@, edges@)
                &&& step_frame(column@, t.data.columns@[0].values, t.data)
                &&& t.metadata.semantics matches TableSemantics::Variate { values: tv, degree: d } && tv@
                    == chosen && d == degree
                &&& !t.metadata.is_offset
                &&& info.name@ == column@
                &&& info.kind@ == "variate"@
                &&& info.columns.len() == 1 && info.columns@[0]@ == column@
                &&& info.rows == edges.len()
                &&& info.parameters == degree
                &&& info.edges matches Some(e) && e@ == edges@
                &&& info.base_level matches Some(b) && b@ == "lowest band"@
                &&& info.variate_values matches Some(vv) && vv@ == chosen
            },
            Err(BuildError::VariateValues { column: c, values: n, bands }) => c@ == column@
                && values is Some && n == values->0.len() && bands == edges.len() && n != bands,
            Err(BuildError::Frame(_)) => column@ == factor_name(),
            Err(BuildError::Variate(_)) => true,
            Err(_) => false,
        },
{
    let chosen: Vec<Quantity> = match values {
        Some(v) => {
            if v.len() != edges.len() {
                return Err(BuildError::VariateValues { column: column.clone(), values: v.len(), bands: edges.len() });
            }
            copy_quantities(v)
        },
        None => midpoints,
    };
    let ghost chosen_view = chosen@;
    let table = step_table(column, ColumnValues::Float(present(edges)))?;
    let recorded = copy_quantities(&chosen);
    let table = match table.as_polynomial_variate(chosen, degree) {
        Ok(t) => t,
        Err(e) => {
            return Err(BuildError::Variate(e));
        },
    };
    let info = ResolvedTerm {
        name: column.clone(),
        kind: word("variate"),
        columns: single(column),
        rows: edges.len(),
        parameters: degree,
        edges: Some(copy_quantities(edges)),
        base_level: Some(word("lowest band")),
        variate_values: Some(recorded),
    };
    Ok((table, info))
}

/// A supplied table, named, and held fixed when it is an offset. An offset spends no
/// parameter; a structure table spends one per row past the first.
pub fn build_given(name: &String, table: Frame, role: GivenRole) -> (res: (RatingTable, ResolvedTerm))
    requires
        table.wf(),
    ensures
        res.0.wf(),
        res.0.data == table,
        res.0.metadata.name@ == name@,
        res.0.metadata.is_offset == (role == GivenRole::Offset),
        res.0.metadata.is_updatable == (role == GivenRole::Structure),
        res.0.metadata.semantics is Step,
        res.1.name@ == name@,
        res.1.kind@ == (if role == GivenRole::Offset { "offset"@ } else { "given"@ }),
        res.1.columns.len() == 0,
        res.1.rows == table.height,
        res.1.parameters == (if role == GivenRole::Offset || table.height == 0 { 0 } else { table.height - 1 }),
        res.1.edges is None,
        res.1.variate_values is None,
        res.1.base_level matches Some(b) && b@ == (if role == GivenRole::Offset { "fixed"@ } else { "first row"@ }),
{
    let rows = table.height;
    let mut built = RatingTable::new(table).with_name(name.as_str());
    if role == GivenRole::Offset {
        built = built.as_offset();
    }
    let info = ResolvedTerm {
        name: name.clone(),
        kind: if role == GivenRole::Offset { word("offset") } else { word("given") },
        columns: Vec::new(),
        rows,
        parameters: if role == GivenRole::Offset || rows == 0 { 0 } else { rows - 1 },
        edges: None,
        base_level: Some(if role == GivenRole::Offset { word("fixed") } else { word("first row") }),
        variate_values: None,
    };
    (built, info)
}

/// The shape an interaction needs before its axes are read: at least two columns
/// (`TooFewColumns`), and one break specification per column (`BreaksMismatch`).
pub fn check_interaction(columns: &Vec<String>, breaks: &Vec<Option<Breaks>>) -> (res: Result<(), BuildError>)
    ensures
        columns.len() < 2 ==> res == Err::<(), BuildError>(BuildError::TooFewColumns),
        columns.len() >= 2 && breaks.len() != columns.len() ==> res == Err::<(), BuildError>(
            BuildError::BreaksMismatch { columns: columns.len(), breaks: breaks.len() },
        ),
        columns.len() >= 2 && breaks.len() == columns.len() ==> res is Ok,
{
    if columns.len() < 2 {
        return Err(BuildError::TooFewColumns);
    }
    if breaks.len() != columns.len() {
        return Err(BuildError::BreaksMismatch { columns: columns.len(), breaks: breaks.len() });
    }
    Ok(())
}

/// An interaction's table over its axes, one row per combination, the first
/// combination as base.
pub fn build_interaction(columns: &Vec<String>, breaks: &Vec<Option<Breaks>>, axes: &Vec<Axis>, name: String) -> (res: Result<(RatingTable, ResolvedTerm), BuildError>)
    requires
        axes.len() == columns.len(),
    ensures
        match res {
            Ok((t, info)) => {
                &&& t.wf()
                &&& interaction_layout(columns@, axes@, t.data)
                &&& t.metadata.semantics is Step
                &&& !t.metadata.is_offset
                &&& info.name == name
                &&& info.kind@ == "interaction"@
                &&& info.columns@ == columns@
                &&& info.rows == span(axes@, 0, axes.len() as int)
                &&& info.parameters == info.rows - 1
                &&& info.edges is None
                &&& info.variate_values is None
                &&& info.base_level matches Some(b) && b@ == "first combination"@
            },
            Err(BuildError::TooFewColumns) => columns.len() < 2,
            Err(BuildError::BreaksMismatch { columns: c, breaks: b }) => columns.len() >= 2 && c
                == columns.len() && b == breaks.len() && b != c,
            Err(BuildError::NoRows) => span(axes@, 0, axes.len() as int) == 0,
            Err(BuildError::TooManyRows) => span(axes@, 0, axes.len() as int) == 0 || span(
                axes@,
                0,
                axes.len() as int,
            ) > usize::MAX,
            Err(BuildError::Frame(_)) => !distinct_names_with_factor(columns@),
            Err(_) => false,
        },
        columns.len() >= 2 && breaks.len() == columns.len() && 1 <= span(axes@, 0, axes.len() as int)
            <= usize::MAX && distinct_names_with_factor(columns@) ==> res is Ok,
{
    check_interaction(columns, breaks)?;
    let built = interaction_table(columns, axes)?;
    proof {
        let n = axes.len() as int;
        assert forall|a: int, b: int| 0 <= a < columns.len() && 0 <= b < columns.len() && a != b implies columns@[a]@ != columns@[b]@ by {
            assert(built.columns@[a].name@ == columns@[a]@);
            assert(built.columns@[b].name@ == columns@[b]@);
        }
        assert forall|a: int| 0 <= a < columns.len() implies (#[trigger] columns@[a])@ != factor_name() by {
            assert(built.columns@[a].name@ == columns@[a]@);
        }
    }
    let frame = lay_out(columns, axes, built);
    let rows = frame.height;
    let table = RatingTable::new(frame);
    let mut names: Vec<String> = Vec::new();
    let mut k: usize = 0;
    while k < columns.len()
        invariant
            k <= columns.len(),
            names.len() == k,
            forall|j: int| 0 <= j < k ==> #[trigger] names@[j] == columns@[j],
        decreases columns.len() - k,
    {
        names.push(columns[k].clone());
        k += 1;
    }
    proof {
        assert(names@ =~= columns@);
    }
    let info = ResolvedTerm {
        name,
        kind: word("interaction"),
        columns: names,
        rows,
        parameters: rows - 1,
        edges: None,
        base_level: Some(word("first combination")),
        variate_values: None,
    };
    Ok((table, info))
}


/// What the data decided for one term, gathered before the plan is built.
#[derive(Debug, Clone)]
pub enum TermData {
    /// A banded term's band upper bounds.
    Bands(Vec<Quantity>),
    /// A categorical term's levels, base first.
    Levels(Vec<i32>),
    /// A variate's band upper bounds, and the band midpoints its polynomial defaults to.
    Variate { edges: Vec<Quantity>, midpoints: Vec<Quantity> },
    /// An interaction's axes, one per column.
    Axes(Vec<Axis>),
    /// A supplied table needs nothing from the data.
    Supplied,
}

/// The data fits the term: the matching kind, levels to anchor on, an axis per column,
/// and a supplied table that describes its frame.
pub open spec fn data_fits(term: Term, data: TermData) -> bool {
    match (term, data) {
        (Term::Banded { .. }, TermData::Bands(_)) => true,
        (Term::Categorical { .. }, TermData::Levels(levels)) => levels.len() >= 1,
        (Term::Variate { .. }, TermData::Variate { .. }) => true,
        (Term::Interaction { columns, .. }, TermData::Axes(axes)) => axes.len() == columns.len(),
        (Term::Given { table, .. }, TermData::Supplied) => table.wf(),
        _ => false,
    }
}

/// A term's table and record, as its builder makes them.
pub open spec fn term_built(term: Term, data: TermData, encoding: Encoding, t: RatingTable, info: ResolvedTerm) -> bool {
    &&& t.wf()
    &&& info.name@ == term_name(term)
    &&& match (term, data) {
        (Term::Banded { column, .. }, TermData::Bands(edges)) => {
            &&& t.data.columns@[0].values matches ColumnValues::Float(v) && cells_of(v@, edges@)
            &&& step_frame(column@, t.data.columns@[0].values, t.data)
            &&& t.metadata.semantics is Step
            &&& info.kind@ == "banded"@
            &&& info.rows == edges.len()
        },
        (Term::Categorical { column, .. }, TermData::Levels(levels)) => {
            &&& t.data.columns@[0].values matches ColumnValues::Int32(v) && cells_of(v@, levels@)
            &&& step_frame(column@, t.data.columns@[0].values, t.data)
            &&& t.metadata.semantics is Step
            &&& info.kind@ == "categorical"@
            &&& info.rows == levels.len()
        },
        (Term::Variate { column, values, degree, .. }, TermData::Variate { edges, midpoints }) => {
            &&& t.data.columns@[0].values matches ColumnValues::Float(v) && cells_of(v@, edges@)
            &&& step_frame(column@, t.data.columns@[0].values, t.data)
            &&& t.metadata.semantics matches TableSemantics::Variate { values: tv, degree: d } && d
                == degree && tv@ == (match values {
                Some(given) => given@,
                None => midpoints@,
            })
            &&& info.kind@ == "variate"@
            &&& info.rows == edges.len()
            &&& info.parameters == degree
        },
        (Term::Interaction { columns, .. }, TermData::Axes(axes)) => {
            &&& interaction_layout(columns@, axes@, t.data)
            &&& t.metadata.semantics is Step
            &&& info.kind@ == "interaction"@
            &&& info.rows == span(axes@, 0, axes.len() as int)
        },
        (Term::Given { table, role, .. }, TermData::Supplied) => {
            &&& t.data == table
            &&& t.metadata.is_offset == (role == GivenRole::Offset)
            &&& info.rows == table.height
        },
        _ => false,
    }
}

/// The errors a term's builder can give, with the inputs they come on.
pub open spec fn term_fails(term: Term, data: TermData, e: BuildError) -> bool {
    match (term, data) {
        (Term::Banded { column, .. }, _) => e is Frame && column@ == factor_name(),
        (Term::Categorical { column, .. }, _) => e is Frame && column@ == factor_name(),
        (Term::Variate { column, values, .. }, TermData::Variate { edges, .. }) => match e {
            BuildError::VariateValues { values: n, bands, .. } => values is Some && n == values->0.len()
                && bands == edges.len() && n != bands,
            BuildError::Frame(_) => column@ == factor_name(),
            BuildError::Variate(_) => true,
            _ => false,
        },
        (Term::Interaction { columns, breaks }, TermData::Axes(axes)) => match e {
            BuildError::TooFewColumns => columns.len() < 2,
            BuildError::BreaksMismatch { .. } => columns.len() >= 2 && breaks.len() != columns.len(),
            BuildError::NoRows => span(axes@, 0, axes.len() as int) == 0,
            BuildError::TooManyRows => span(axes@, 0, axes.len() as int) == 0 || span(
                axes@,
                0,
                axes.len() as int,
            ) > usize::MAX,
            BuildError::Frame(_) => !distinct_names_with_factor(columns@),
            _ => false,
        },
        _ => false,
    }
}

/// A term that builds whatever the data: every term but a variate, whose polynomial the
/// data may not identify, once its columns are well named and an interaction is well
/// shaped with countable rows.
pub open spec fn term_builds(term: Term, data: TermData) -> bool {
    match (term, data) {
        (Term::Banded { column, .. }, _) => column@ != factor_name(),
        (Term::Categorical { column, .. }, _) => column@ != factor_name(),
        (Term::Interaction { columns, breaks }, TermData::Axes(axes)) => {
            &&& columns.len() >= 2
            &&& breaks.len() == columns.len()
            &&& 1 <= span(axes@, 0, axes.len() as int) <= usize::MAX
            &&& distinct_names_with_factor(columns@)
        },
        (Term::Given { .. }, _) => true,
        _ => false,
    }
}

/// A plan turned into a model, with what it decided along the way.
#[derive(Debug, Clone)]
pub struct BuiltPlan {
    pub model: RatingModel,
    pub table_names: Vec<String>,
    pub resolved: Vec<ResolvedTerm>,
    pub encoding: Encoding,
    pub weight_col: Option<String>,
    pub offset_col: Option<String>,
}

/// Names with no repeat.
pub open spec fn distinct_texts(names: Seq<String>) -> bool {
    forall|a: int, b: int| 0 <= a < b < names.len() ==> names[a]@ != names[b]@
}

/// The intercept: one row, nothing to match on, its factor at zero.
pub open spec fn intercept_table(t: RatingTable) -> bool {
    &&& t.wf()
    &&& t.data.height == 1
    &&& t.data.columns.len() == 1
    &&& t.data.columns@[0].name@ == factor_name()
    &&& t.data.columns@[0].values matches ColumnValues::Float(z) && z@ == seq![Some(Quantity::Ordered(0))]
}

/// The intercept's table and record.
fn build_intercept() -> (res: (RatingTable, ResolvedTerm))
    ensures
        intercept_table(res.0),
        res.0.metadata.semantics is Step,
        !res.0.metadata.is_offset,
        res.1.name@ == "intercept"@,
        res.1.kind@ == "intercept"@,
        res.1.rows == 1,
        res.1.parameters == 1,
{
    let cols = vec![FrameColumn { name: factor_column_name(), values: ColumnValues::Float(zero_factors(1)) }];
    let ghost c = cols@;
    let frame = match Frame::new(cols) {
        Ok(f) => f,
        Err(_) => {
            proof {
                assert(distinct_names(c));
                assert(false);
            }
            Frame { columns: Vec::new(), height: 0 }
        },
    };
    proof {
        let z = frame.columns@[0].values->Float_0;
        assert(z@ =~= seq![Some(Quantity::Ordered(0))]);
    }
    let info = ResolvedTerm {
        name: word("intercept"),
        kind: word("intercept"),
        columns: Vec::new(),
        rows: 1,
        parameters: 1,
        edges: None,
        base_level: None,
        variate_values: None,
    };
    (RatingTable::new(frame), info)
}

/// The first repeated name, if any: the later of the two occurrences.
fn first_repeat(names: &Vec<String>) -> (res: Option<usize>)
    ensures
        match res {
            Some(j) => j < names.len() && exists|i: int| 0 <= i < j && names@[i]@ == names@[j as int]@,
            None => distinct_texts(names@),
        },
{
    let mut j: usize = 0;
    while j < names.len()
        invariant
            j <= names.len(),
            forall|a: int, b: int| 0 <= a < b < j ==> names@[a]@ != names@[b]@,
        decreases names.len() - j,
    {
        let mut i: usize = 0;
        while i < j
            invariant
                i <= j < names.len(),
                forall|a: int| 0 <= a < i ==> names@[a]@ != names@[j as int]@,
            decreases j - i,
        {
            if names[i] == names[j] {
                return Some(j);
            }
            i += 1;
        }
        j += 1;
    }
    None
}

impl Plan {
    /// Every supplied table describes its frame.
    pub open spec fn wf(&self) -> bool {
        forall|k: int| 0 <= k < self.terms.len() ==> match #[trigger] self.terms@[k] {
            Term::Given { table, .. } => table.wf(),
            _ => true,
        }
    }

    /// Turns the plan into a model: table zero is the intercept, then one table per
    /// term, in order, named as the term names it.
    ///
    /// `data` holds, per term, what the data decided for it (band edges, ordered
    /// levels, an interaction's axes). A plan with no term is refused (`NoTerms`); a
    /// term whose builder refuses it stops the build with that error; two tables of
    /// the same name are refused (`DuplicateTable`), naming the later one.
    pub fn build(self, data: Vec<TermData>, encoding: Encoding, weight_col: Option<String>, offset_col: Option<String>) -> (res: Result<BuiltPlan, BuildError>)
        requires
            data.len() == self.terms.len(),
            forall|k: int| 0 <= k < data.len() ==> data_fits(#[trigger] self.terms@[k], data@[k]),
            encoding.wf(),
        ensures
            res matches Err(BuildError::NoTerms) <==> self.terms.len() == 0,
            match res {
                Ok(b) => {
                    &&& b.model.wf()
                    &&& b.model.link_function == spec_link_for(spec_lowercase(self.family@))
                    &&& b.model.tables.len() == self.terms.len() + 1
                    &&& b.resolved.len() == self.terms.len() + 1
                    &&& b.table_names.len() == self.terms.len() + 1
                    &&& intercept_table(b.model.tables@[0])
                    &&& b.table_names@[0]@ == "intercept"@
                    &&& b.resolved@[0].kind@ == "intercept"@
                    &&& b.resolved@[0].name@ == "intercept"@
                    &&& forall|k: int|
                        0 <= k < self.terms.len() ==> b.table_names@[k + 1]@ == term_name(
                            #[trigger] self.terms@[k],
                        ) && term_built(
                            self.terms@[k],
                            data@[k],
                            encoding,
                            b.model.tables@[k + 1],
                            b.resolved@[k + 1],
                        )
                    &&& distinct_texts(b.table_names@)
                    &&& b.encoding == encoding
                    &&& b.weight_col == weight_col
                    &&& b.offset_col == offset_col
                },
                Err(BuildError::NoTerms) => true,
                Err(BuildError::DuplicateTable { name }) => exists|a: int, c: int|
                    0 <= a < c <= self.terms.len() && #[trigger] table_name_at(self.terms@, a) == name@
                        && #[trigger] table_name_at(self.terms@, c) == name@,
                Err(e) => exists|k: int|
                    0 <= k < self.terms.len() && term_fails(#[trigger] self.terms@[k], data@[k], e),
            },
            self.terms.len() > 0 && (forall|k: int| 0 <= k < data.len() ==> term_builds(#[trigger] self.terms@[k], data@[k]))
                && (forall|a: int, c: int|
                0 <= a < c <= self.terms.len() ==> table_name_at(self.terms@, a) != table_name_at(self.terms@, c))
                ==> res is Ok,
    {
        if self.terms.len() == 0 {
            return Err(BuildError::NoTerms);
        }
        let link_function = LinkFunction::from_objective(self.family.as_str());
        let ghost terms0 = self.terms@;
        let ghost data0 = data@;
        let n = self.terms.len();
        let (intercept, intercept_info) = build_intercept();
        let mut tables: Vec<RatingTable> = vec![intercept];
        let mut names: Vec<String> = vec![word("intercept")];
        let mut resolved: Vec<ResolvedTerm> = vec![intercept_info];
        let mut terms = self.terms;
        let mut rest = data;
        let mut k: usize = 0;
        while k < n
            invariant
                terms0 == self.terms@,
                data0 == data@,
                n == terms0.len(),
                n == data0.len(),
                k <= n,
                terms@ == terms0.skip(k as int),
                rest@ == data0.skip(k as int),
                forall|j: int| 0 <= j < n ==> data_fits(#[trigger] terms0[j], data0[j]),
                encoding.wf(),
                tables.len() == k + 1,
                names.len() == k + 1,
                resolved.len() == k + 1,
                intercept_table(tables@[0]),
                names@[0]@ == "intercept"@,
                resolved@[0].kind@ == "intercept"@,
                resolved@[0].name@ == "intercept"@,
                forall|j: int|
                    0 <= j < k ==> names@[j + 1]@ == term_name(#[trigger] terms0[j]) && term_built(
                        terms0[j],
                        data0[j],
                        encoding,
                        tables@[j + 1],
                        resolved@[j + 1],
                    ),
            decreases n - k,
        {
            proof {
                assert(terms@[0] == terms0[k as int]);
                assert(rest@[0] == data0[k as int]);
            }
            let term = terms.remove(0);
            let datum = rest.remove(0);
            proof {
                assert(terms@ =~= terms0.skip(k + 1));
                assert(rest@ =~= data0.skip(k + 1));
            }
            let name = term.name();
            let ghost t0 = term;
            let ghost d0 = datum;
            let built = match term {
                Term::Banded { column, .. } => match datum {
                    TermData::Bands(edges) => build_banded(&column, &edges),
                    _ => Err(BuildError::NoTerms),
                },
                Term::Categorical { column, .. } => match datum {
                    TermData::Levels(levels) => build_categorical(&column, &levels, &encoding),
                    _ => Err(BuildError::NoTerms),
                },
                Term::Variate { column, values, degree, .. } => match datum {
                    TermData::Variate { edges, midpoints } => build_variate(&column, &edges, &values, midpoints, degree),
                    _ => Err(BuildError::NoTerms),
                },
                Term::Interaction { columns, breaks } => match datum {
                    TermData::Axes(axes) => build_interaction(&columns, &breaks, &axes, name.clone()),
                    _ => Err(BuildError::NoTerms),
                },
                Term::Given { name: given_name, table, role } => Ok(build_given(&given_name, table, role)),
            };
            match built {
                Ok((table, info)) => {
                    proof {
                        assert(term_built(t0, d0, encoding, table, info));
                    }
                    tables.push(table);
                    names.push(name);
                    resolved.push(info);
                },
                Err(e) => {
                    proof {
                        assert(term_fails(t0, d0, e));
                        assert(term_fails(terms0[k as int], data0[k as int], e));
                    }
                    return Err(e);
                },
            }
            k += 1;
        }
        match first_repeat(&names) {
            Some(j) => {
                let dup = names[j].clone();
                proof {
                    let i = choose|i: int| 0 <= i < j && names@[i]@ == names@[j as int]@;
                    assert(table_name_at(terms0, i) == names@[i]@);
                    assert(table_name_at(terms0, j as int) == names@[j as int]@);
                }
                return Err(BuildError::DuplicateTable { name: dup });
            },
            None => {},
        }
        proof {
            assert forall|t: int| 0 <= t < tables.len() implies (#[trigger] tables@[t]).wf() by {
                if t > 0 {
                    assert(term_built(terms0[t - 1], data0[t - 1], encoding, tables@[t], resolved@[t]));
                }
            }
        }
        let model = RatingModel::new(tables, link_function);
        Ok(BuiltPlan { model, table_names: names, resolved, encoding, weight_col, offset_col })
    }
}

/// The name of table `a` of a built plan: the intercept, then each term's.
pub open spec fn table_name_at(terms: Seq<Term>, a: int) -> Seq<char> {
    if a == 0 {
        "intercept"@
    } else {
        term_name(terms[a - 1])
    }
}


// ---------------------------------------------------------------- checking

/// How much a finding matters.
#[derive(Debug, Clone, Copy, PartialEq, Eq, Structural)]
pub enum Severity {
    Low,
    Medium,
    High,
}

/// Severities in order: low below medium below high.
pub open spec fn rank(s: Severity) -> int {
    match s {
        Severity::Low => 0,
        Severity::Medium => 1,
        Severity::High => 2,
    }
}

impl Severity {
    /// Whether this is at least `other`.
    pub fn at_least(&self, other: &Severity) -> (res: bool)
        ensures
            res == (rank(*self) >= rank(*other)),
    {
        let a: u8 = match self {
            Severity::Low => 0,
            Severity::Medium => 1,
            Severity::High => 2,
        };
        let b: u8 = match other {
            Severity::Low => 0,
            Severity::Medium => 1,
            Severity::High => 2,
        };
        a >= b
    }
}

/// Something worth saying about a plan before it is fitted.
#[derive(Debug, Clone)]
pub struct Issue {
    pub severity: Severity,
    /// A stable name for the kind of finding.
    pub code: String,
    pub message: String,
    pub column: Option<String>,
}

/// How many items satisfy `p`.
pub open spec fn tally<T>(s: Seq<T>, p: spec_fn(T) -> bool) -> nat
    decreases s.len(),
{
    if s.len() == 0 {
        0
    } else {
        tally(s.drop_last(), p) + if p(s.last()) {
            1nat
        } else {
            0nat
        }
    }
}

/// A prefix one longer adds its last item to the tally.
proof fn lemma_tally_step<T>(s: Seq<T>, p: spec_fn(T) -> bool, i: int)
    requires
        0 <= i < s.len(),
    ensures
        tally(s.take(i + 1), p) == tally(s.take(i), p) + if p(s[i]) {
            1nat
        } else {
            0nat
        },
{
    assert(s.take(i + 1).drop_last() =~= s.take(i));
}

/// A null or a value that is not a finite number.
pub open spec fn not_finite_cell(v: Option<Quantity>) -> bool {
    match v {
        Some(q) => !spec_is_finite(q),
        None => true,
    }
}

/// A number below zero.
pub open spec fn below_zero(v: Option<Quantity>) -> bool {
    match v {
        Some(Quantity::Ordered(k)) => k < 0,
        _ => false,
    }
}

/// A number at or below zero.
pub open spec fn at_most_zero(v: Option<Quantity>) -> bool {
    match v {
        Some(Quantity::Ordered(k)) => k <= 0,
        _ => false,
    }
}

/// A present value that is not a finite number: infinite or undefined.
pub open spec fn present_not_finite(v: Option<Quantity>) -> bool {
    match v {
        Some(q) => !spec_is_finite(q),
        None => false,
    }
}

/// Counts the cells that satisfy a predicate.
fn count_quantities(v: &Vec<Option<Quantity>>, which: u8) -> (res: usize)
    requires
        which <= 4,
    ensures
        res == tally(v@, cell_test(which)),
{
    let mut count: usize = 0;
    let mut i: usize = 0;
    while i < v.len()
        invariant
            which <= 4,
            i <= v.len(),
            count == tally(v@.take(i as int), cell_test(which)),
            count <= i,
        decreases v.len() - i,
    {
        proof {
            lemma_tally_step(v@, cell_test(which), i as int);
        }
        let hit = match v[i] {
            None => which == 0 || which == 4,
            Some(q) => match which {
                0 | 3 => !q.is_finite(),
                1 => match q {
                    Quantity::Ordered(k) => k < 0,
                    Quantity::Undefined => false,
                },
                2 => match q {
                    Quantity::Ordered(k) => k <= 0,
                    Quantity::Undefined => false,
                },
                _ => false,
            },
        };
        if hit {
            count += 1;
        }
        i += 1;
    }
    proof {
        assert(v@.take(v.len() as int) =~= v@);
    }
    count
}

/// The cell predicates counted: 0 not finite or null, 1 below zero, 2 at or below
/// zero, 3 present but not finite, 4 null.
pub open spec fn cell_test(which: u8) -> spec_fn(Option<Quantity>) -> bool {
    |v: Option<Quantity>|
        if which == 0 {
            not_finite_cell(v)
        } else if which == 1 {
            below_zero(v)
        } else if which == 2 {
            at_most_zero(v)
        } else if which == 3 {
            present_not_finite(v)
        } else {
            v is None
        }
}

/// Counts nulls.
fn count_nulls<T>(v: &Vec<Option<T>>) -> (res: usize)
    ensures
        res == tally(v@, |c: Option<T>| c is None),
{
    let mut count: usize = 0;
    let mut i: usize = 0;
    while i < v.len()
        invariant
            i <= v.len(),
            count == tally(v@.take(i as int), |c: Option<T>| c is None),
            count <= i,
        decreases v.len() - i,
    {
        proof {
            lemma_tally_step(v@, |c: Option<T>| c is None, i as int);
        }
        if v[i].is_none() {
            count += 1;
        }
        i += 1;
    }
    proof {
        assert(v@.take(v.len() as int) =~= v@);
    }
    count
}

/// Counts codes equal to `code`.
fn count_code(v: &Vec<Option<i32>>, code: i32) -> (res: usize)
    ensures
        res == tally(v@, |c: Option<i32>| c == Some(code)),
{
    let mut count: usize = 0;
    let mut i: usize = 0;
    while i < v.len()
        invariant
            i <= v.len(),
            count == tally(v@.take(i as int), |c: Option<i32>| c == Some(code)),
            count <= i,
        decreases v.len() - i,
    {
        proof {
            lemma_tally_step(v@, |c: Option<i32>| c == Some(code), i as int);
        }
        if v[i] == Some(code) {
            count += 1;
        }
        i += 1;
    }
    proof {
        assert(v@.take(v.len() as int) =~= v@);
    }
    count
}

/// A finding with its message.
fn issue(severity: Severity, code: &str, column: Option<&String>, message: String) -> (res: Issue)
    ensures
        res.severity == severity,
        res.code@ == code@,
        res.message == message,
        match column {
            Some(c) => res.column matches Some(rc) && rc@ == c@,
            None => res.column is None,
        },
{
    Issue {
        severity,
        code: String::from_str(code),
        message,
        column: match column {
            Some(c) => Some(c.clone()),
            None => None,
        },
    }
}

/// `head`, then `name`, then `tail`.
fn quoted(head: &str, name: &String, tail: &str) -> (res: String)
    ensures
        res@ == head@ + name@ + tail@,
{
    let mut m = String::from_str(head);
    push_text(&mut m, name.as_str());
    push_text(&mut m, tail);
    m
}

/// `head`, then `name`, then `middle`, then `count` in decimal, then `tail`.
fn counted(head: &str, name: &String, middle: &str, count: usize, tail: &str) -> (res: String)
    ensures
        res@ == head@ + name@ + middle@ + decimal(count as nat) + tail@,
{
    let mut m = quoted(head, name, middle);
    push_decimal(&mut m, count);
    push_text(&mut m, tail);
    m
}

/// `n` in decimal.
fn decimal_text(n: usize) -> (res: String)
    ensures
        res@ == decimal(n as nat),
{
    let mut m = String::new();
    push_decimal(&mut m, n);
    proof {
        assert(Seq::<char>::empty() + decimal(n as nat) =~= decimal(n as nat));
    }
    m
}

/// Whether the family models a quantity that cannot be negative, by its lowercase name.
pub open spec fn non_negative_family(family: Seq<char>) -> bool {
    lowered_non_negative(spec_lowercase(family))
}

/// Whether a lowercase family name models a quantity that cannot be negative.
pub open spec fn lowered_non_negative(lower: Seq<char>) -> bool {
    let f = lower;
    f == "poisson"@ || f == "gamma"@ || f == "tweedie"@ || f == "binomial"@ || f == "binary"@
}

/// A family named, in any ASCII case, as one that cannot represent a negative target.
pub open spec fn names_non_negative_family(family: Seq<char>) -> bool {
    same_ignoring_ascii_case(family, "poisson"@) || same_ignoring_ascii_case(family, "gamma"@)
        || same_ignoring_ascii_case(family, "tweedie"@) || same_ignoring_ascii_case(family, "binomial"@)
        || same_ignoring_ascii_case(family, "binary"@)
}

/// The families poisson, gamma, tweedie, binomial and binary, in any ASCII case, cannot
/// represent a negative target; gaussian can. Such a name is ASCII, so it is lowered by
/// folding its capitals.
pub proof fn law_non_negative_families(family: Seq<char>)
    ensures
        names_non_negative_family(family) ==> all_ascii(family) && lowered_non_negative(ascii_lowered(family)),
        same_ignoring_ascii_case(family, "gaussian"@) ==> all_ascii(family) && !lowered_non_negative(
            ascii_lowered(family),
        ),
        all_ascii(family) && lowered_non_negative(ascii_lowered(family)) ==> names_non_negative_family(family),
{
    reveal_strlit("poisson");
    reveal_strlit("gamma");
    reveal_strlit("tweedie");
    reveal_strlit("binomial");
    reveal_strlit("binary");
    reveal_strlit("gaussian");
    if same_ignoring_ascii_case(family, "poisson"@) {
        lemma_lowers_to(family, "poisson"@);
    }
    if same_ignoring_ascii_case(family, "gamma"@) {
        lemma_lowers_to(family, "gamma"@);
    }
    if same_ignoring_ascii_case(family, "tweedie"@) {
        lemma_lowers_to(family, "tweedie"@);
    }
    if same_ignoring_ascii_case(family, "binomial"@) {
        lemma_lowers_to(family, "binomial"@);
    }
    if same_ignoring_ascii_case(family, "binary"@) {
        lemma_lowers_to(family, "binary"@);
    }
    if same_ignoring_ascii_case(family, "gaussian"@) {
        lemma_lowers_to(family, "gaussian"@);
        assert("gaussian"@[0] != "binomial"@[0]);
    }
    let lower = ascii_lowered(family);
    if lower == "poisson"@ {
        lemma_lowered_from(family, "poisson"@);
    }
    if lower == "gamma"@ {
        lemma_lowered_from(family, "gamma"@);
    }
    if lower == "tweedie"@ {
        lemma_lowered_from(family, "tweedie"@);
    }
    if lower == "binomial"@ {
        lemma_lowered_from(family, "binomial"@);
    }
    if lower == "binary"@ {
        lemma_lowered_from(family, "binary"@);
    }
}

fn needs_non_negative(family: &String) -> (res: bool)
    ensures
        res == non_negative_family(family@),
        names_non_negative_family(family@) ==> res,
        same_ignoring_ascii_case(family@, "gaussian"@) ==> !res,
        all_ascii(family@) ==> (res <==> names_non_negative_family(family@)),
{
    proof {
        law_non_negative_families(family@);
    }
    let f = crate::text::to_lowercase(family.as_str());
    text_is(&f, "poisson") || text_is(&f, "gamma") || text_is(&f, "tweedie") || text_is(&f, "binomial")
        || text_is(&f, "binary")
}

/// The target column as a check reads it: its values once cast to floating point, or,
/// where that cast is refused, the name of the column's type.
#[derive(Debug, Clone)]
pub enum TargetRead {
    Values(Vec<Option<Quantity>>),
    Refused(String),
}

/// What the target column says, as tallies: null or non-finite values, and negative
/// values.
pub open spec fn target_bad(read: TargetRead) -> nat {
    match read {
        TargetRead::Values(v) => tally(v@, cell_test(0)),
        TargetRead::Refused(_) => 0,
    }
}

pub open spec fn target_negative(read: TargetRead) -> nat {
    match read {
        TargetRead::Values(v) => tally(v@, cell_test(1)),
        TargetRead::Refused(_) => 0,
    }
}

/// A finding of this severity and code, on this column, worded so.
pub open spec fn finding(i: Issue, severity: Severity, code: Seq<char>, column: Option<Seq<char>>, message: Seq<char>) -> bool {
    &&& i.severity == severity
    &&& i.code@ == code
    &&& i.message@ == message
    &&& match column {
        Some(c) => i.column matches Some(ic) && ic@ == c,
        None => i.column is None,
    }
}

// ---------------------------------------------------------------- what a check finds

/// A finding as the contracts read it: severity, code, column and wording.
pub open spec fn summary(i: Issue) -> (Severity, Seq<char>, Option<Seq<char>>, Seq<char>) {
    (
        i.severity,
        i.code@,
        match i.column {
            Some(c) => Some(c@),
            None => None,
        },
        i.message@,
    )
}

/// Findings as the contracts read them.
pub open spec fn summaries(s: Seq<Issue>) -> Seq<(Severity, Seq<char>, Option<Seq<char>>, Seq<char>)> {
    s.map_values(|i: Issue| summary(i))
}

/// One finding of this severity and code, on this column, worded so.
pub open spec fn one(severity: Severity, code: Seq<char>, column: Option<Seq<char>>, message: Seq<char>) -> Seq<(Severity, Seq<char>, Option<Seq<char>>, Seq<char>)> {
    seq![(severity, code, column, message)]
}

/// `x` when `b` holds, else nothing.
pub open spec fn when(b: bool, x: Seq<(Severity, Seq<char>, Option<Seq<char>>, Seq<char>)>) -> Seq<(Severity, Seq<char>, Option<Seq<char>>, Seq<char>)> {
    if b {
        x
    } else {
        Seq::empty()
    }
}

// ---------------------------------------------------------------- how findings read

/// The wording of `missing_target`, naming the columns present.
pub open spec fn missing_target_text(target: Seq<char>, present: Seq<Seq<char>>) -> Seq<char> {
    "Target column '"@ + target + "' is not in the data. Columns present: "@ + joined(present, ", "@)
}

/// The wording of `target_not_numeric`, naming the column's type.
pub open spec fn target_not_numeric_text(target: Seq<char>, dtype: Seq<char>) -> Seq<char> {
    "Target column '"@ + target + "' has dtype "@ + dtype + " and cannot be read as a number."@
}

/// The wording of `target_has_nulls`, for `n` such values.
pub open spec fn target_nulls_text(target: Seq<char>, n: nat) -> Seq<char> {
    "Target column '"@ + target + "' has "@ + decimal(n)
        + " null or non-finite values. Fitting rejects them; drop or impute those rows first."@
}

/// The wording of `negative_target`, for `n` such values under `family`.
pub open spec fn negative_target_text(target: Seq<char>, n: nat, family: Seq<char>) -> Seq<char> {
    "Target column '"@ + target + "' has "@ + decimal(n) + " negative values, which the "@ + family
        + " family cannot represent."@
}

/// The wording of `exposure_has_nulls`, for `n` such values.
pub open spec fn exposure_nulls_text(exposure: Seq<char>, n: nat) -> Seq<char> {
    "Exposure column '"@ + exposure + "' has "@ + decimal(n) + " null values."@
}

/// The wording of `non_positive_exposure`, for `n` such values, by the role exposure plays.
pub open spec fn non_positive_text(exposure: Seq<char>, n: nat, role: ExposureRole) -> Seq<char> {
    "Exposure column '"@ + exposure + "' has "@ + decimal(n) + (if role == ExposureRole::Offset {
        " values at or below zero. It enters as log(exposure), which is undefined there, so those rows must be dropped."@
    } else {
        " values at or below zero. Rows with no weight contribute nothing to the fit."@
    })
}

/// The wording of `feature_has_nulls`, for `n` such values.
pub open spec fn feature_nulls_text(name: Seq<char>, n: nat) -> Seq<char> {
    "Column '"@ + name + "' has "@ + decimal(n)
        + " null values. An observation that fails to match a table is rejected by fitting, so fill or drop them first."@
}

/// The wording of `unencodable_levels`, for `n` such values.
pub open spec fn unencodable_text(name: Seq<char>, n: nat) -> Seq<char> {
    "Column '"@ + name + "' has "@ + decimal(n)
        + " values that are not levels of the encoding this plan was built with."@
}

/// The wording of `feature_not_finite`, for `n` such values.
pub open spec fn not_finite_text(name: Seq<char>, n: nat) -> Seq<char> {
    "Column '"@ + name + "' has "@ + decimal(n) + " infinite or NaN values, which cannot be placed in a band."@
}

/// The wording of `constant_feature`.
pub open spec fn constant_text(name: Seq<char>) -> Seq<char> {
    "Column '"@ + name
        + "' takes a single value, so it carries no information and its factor will be aliased with the intercept."@
}

/// The wording of `wide_table`, for a term of `rows` rows.
pub open spec fn wide_table_text(term: Seq<char>, rows: nat) -> Seq<char> {
    "Term '"@ + term + "' produces "@ + decimal(rows)
        + " rows. Every row is a free parameter unless the term is a variate, and a table this wide will be thinly estimated."@
}

/// The wording of `many_levels`, for a factor of `rows` levels.
pub open spec fn many_levels_text(column: Seq<char>, rows: nat) -> Seq<char> {
    "Column '"@ + column + "' has "@ + decimal(rows)
        + " levels. Consider grouping the thin ones, or a penalty to shrink them toward the base level."@
}

/// The wording of `unmatched_observations`, for `n` such rows.
pub open spec fn unmatched_text(n: nat, table: Seq<char>) -> Seq<char> {
    decimal(n) + " rows do not match any row of table '"@ + table
        + "'. Fitting rejects them rather than dropping a term silently."@
}

/// The wording of `empty_levels`, for `empty` of `rows` rows.
pub open spec fn empty_levels_text(empty: nat, rows: nat, table: Seq<char>) -> Seq<char> {
    decimal(empty) + " of "@ + decimal(rows) + " rows in table '"@ + table
        + "' carry no exposure. They cannot be estimated and will keep their starting factor."@
}

/// The wording of `thin_levels`, for `thin` such rows.
pub open spec fn thin_levels_text(thin: nat, table: Seq<char>) -> Seq<char> {
    decimal(thin) + " rows in table '"@ + table
        + "' hold under 0.1% of exposure each, so their factors will be noisy."@
}

/// The wording of `more_parameters_than_rows`.
pub open spec fn parameters_text(parameters: nat, height: nat) -> Seq<char> {
    "The plan spends "@ + decimal(parameters) + " parameters on "@ + decimal(height)
        + " rows of data. The fit is not identified."@
}

/// The wording of `variate_degree_too_high`, which suggests the highest degree the
/// values identify: one under their count, or zero.
pub open spec fn degree_text(column: Seq<char>, degree: nat, distinct: nat) -> Seq<char> {
    let highest = decimal(if distinct > 0 { (distinct - 1) as nat } else { 0 });
    "Variate '"@ + column + "' is degree "@ + decimal(degree) + " over "@ + decimal(distinct)
        + " distinct band values. A degree at or above the number of distinct values is not identified \u{2014} at "@
        + highest + " the curve already passes through every band. Use degree "@ + highest
        + " or lower, or cut more bands."@
}

/// What [`target_findings`] finds.
pub open spec fn target_summary(read: Option<TargetRead>, target: Seq<char>, family: Seq<char>, present: Seq<Seq<char>>) -> Seq<(Severity, Seq<char>, Option<Seq<char>>, Seq<char>)> {
    match read {
        None => one(Severity::High, "missing_target"@, Some(target), missing_target_text(target, present)),
        Some(TargetRead::Refused(dtype)) => one(
            Severity::High,
            "target_not_numeric"@,
            Some(target),
            target_not_numeric_text(target, dtype@),
        ),
        Some(values) => when(
            target_bad(values) > 0,
            one(Severity::High, "target_has_nulls"@, Some(target), target_nulls_text(target, target_bad(values))),
        ) + when(
            target_negative(values) > 0 && non_negative_family(family),
            one(
                Severity::High,
                "negative_target"@,
                Some(target),
                negative_target_text(target, target_negative(values), family),
            ),
        ),
    }
}

/// What [`exposure_findings`] finds.
pub open spec fn exposure_summary(values: Seq<Option<Quantity>>, exposure: Seq<char>, role: ExposureRole) -> Seq<(Severity, Seq<char>, Option<Seq<char>>, Seq<char>)> {
    when(
        tally(values, cell_test(4)) > 0,
        one(Severity::High, "exposure_has_nulls"@, Some(exposure), exposure_nulls_text(exposure, tally(values, cell_test(4)))),
    ) + when(
        tally(values, cell_test(2)) > 0,
        one(
            if role == ExposureRole::Offset {
                Severity::High
            } else {
                Severity::Medium
            },
            "non_positive_exposure"@,
            Some(exposure),
            non_positive_text(exposure, tally(values, cell_test(2)), role),
        ),
    )
}

/// The wordings of what [`column_findings`] can find, in its order.
pub open spec fn column_texts(column: FrameColumn, encoded: bool) -> Seq<Seq<char>> {
    let name = column.name@;
    seq![
        feature_nulls_text(name, null_count(column.values)),
        unencodable_text(name, unseen_count(column.values, encoded)),
        not_finite_text(name, not_finite_count(column.values)),
        constant_text(name),
    ]
}

/// What [`column_findings`] finds.
pub open spec fn column_summary(column: FrameColumn, encoded: bool) -> Seq<(Severity, Seq<char>, Option<Seq<char>>, Seq<char>)> {
    let name = Some(column.name@);
    let texts = column_texts(column, encoded);
    when(null_count(column.values) > 0, one(Severity::High, "feature_has_nulls"@, name, texts[0])) + when(
        unseen_count(column.values, encoded) > 0,
        one(Severity::High, "unencodable_levels"@, name, texts[1]),
    ) + when(not_finite_count(column.values) > 0, one(Severity::High, "feature_not_finite"@, name, texts[2])) + when(
        takes_one_value(column.values),
        one(Severity::Medium, "constant_feature"@, name, texts[3]),
    )
}

/// What [`size_finding`] finds.
pub open spec fn size_summary(info: ResolvedTerm) -> Seq<(Severity, Seq<char>, Option<Seq<char>>, Seq<char>)> {
    if info.rows > WIDE_TABLE {
        one(Severity::Medium, "wide_table"@, None, wide_table_text(info.name@, info.rows as nat))
    } else if info.kind@ == "categorical"@ && info.rows > WIDE_FACTOR && info.columns.len() >= 1 {
        one(
            Severity::Low,
            "many_levels"@,
            Some(info.columns@[0]@),
            many_levels_text(info.columns@[0]@, info.rows as nat),
        )
    } else {
        Seq::empty()
    }
}

/// What one table's matching and fill give.
pub open spec fn table_summary(matches: Seq<u32>, fill: TableFill, name: Seq<char>) -> Seq<(Severity, Seq<char>, Option<Seq<char>>, Seq<char>)> {
    let unmatched = tally(matches, |m: u32| m == NO_MATCH);
    when(
        unmatched > 0,
        one(Severity::High, "unmatched_observations"@, None, unmatched_text(unmatched, name)),
    ) + when(
        fill.empty > 0,
        one(Severity::Medium, "empty_levels"@, None, empty_levels_text(fill.empty as nat, fill.rows as nat, name)),
    ) + when(fill.thin > 0, one(Severity::Low, "thin_levels"@, None, thin_levels_text(fill.thin as nat, name)))
}

/// The column of a frame called `name`, if there is one.
pub open spec fn frame_column(df: Frame, name: Seq<char>) -> Option<FrameColumn> {
    match df.spec_index_of(name) {
        Some(j) => Some(df.columns@[j]),
        None => None,
    }
}

/// What the columns a term reads give, column by column; a column the frame lacks gives
/// nothing.
pub open spec fn term_columns_summary(columns: Seq<Seq<char>>, df: Frame, encoding: Encoding) -> Seq<(Severity, Seq<char>, Option<Seq<char>>, Seq<char>)>
    decreases columns.len(),
{
    if columns.len() == 0 {
        Seq::empty()
    } else {
        term_columns_summary(columns.drop_last(), df, encoding) + match frame_column(df, columns.last()) {
            Some(c) => column_summary(c, encoding.spec_levels(columns.last()) is Some),
            None => Seq::empty(),
        }
    }
}

/// What the first `n` terms give: each term's columns, then its table's size.
pub open spec fn terms_summary(terms: Seq<Term>, df: Frame, encoding: Encoding, resolved: Seq<ResolvedTerm>, n: int) -> Seq<(Severity, Seq<char>, Option<Seq<char>>, Seq<char>)>
    decreases n,
{
    if n <= 0 {
        Seq::empty()
    } else {
        terms_summary(terms, df, encoding, resolved, n - 1) + term_columns_summary(term_columns(terms[n - 1]), df, encoding)
            + if n < resolved.len() {
            size_summary(resolved[n])
        } else {
            Seq::empty()
        }
    }
}

/// What the tables from one up to `n` give, each table that has a name and a fill.
pub open spec fn tables_summary(matches: Seq<Vec<u32>>, names: Seq<String>, fills: Seq<TableFill>, n: int) -> Seq<(Severity, Seq<char>, Option<Seq<char>>, Seq<char>)>
    decreases n,
{
    if n <= 1 {
        Seq::empty()
    } else {
        tables_summary(matches, names, fills, n - 1) + if n - 1 < names.len() && n - 1 < fills.len() {
            table_summary(matches[n - 1]@, fills[n - 1], names[n - 1]@)
        } else {
            Seq::empty()
        }
    }
}

/// What the exposure column gives, when the plan names one and the frame has it as
/// floating point.
pub open spec fn plan_exposure_summary(plan: Plan, df: Frame) -> Seq<(Severity, Seq<char>, Option<Seq<char>>, Seq<char>)> {
    match plan.exposure {
        Some(e) => match frame_column(df, e@) {
            Some(c) => match c.values {
                ColumnValues::Float(v) => exposure_summary(v@, e@, spec_exposure_role(plan)),
                _ => Seq::empty(),
            },
            None => Seq::empty(),
        },
        None => Seq::empty(),
    }
}

/// A sequence with one more finding.
proof fn lemma_summaries_push(s: Seq<Issue>, i: Issue)
    ensures
        summaries(s.push(i)) == summaries(s).push(summary(i)),
{
    assert(summaries(s.push(i)) =~= summaries(s).push(summary(i)));
}

/// Findings joined.
proof fn lemma_summaries_add(a: Seq<Issue>, b: Seq<Issue>)
    ensures
        summaries(a + b) == summaries(a) + summaries(b),
{
    assert(summaries(a + b) =~= summaries(a) + summaries(b));
}

/// The summary of a finding of this severity, code and column.
proof fn lemma_summary_of(i: Issue, severity: Severity, code: Seq<char>, column: Option<Seq<char>>, message: Seq<char>)
    requires
        finding(i, severity, code, column, message),
    ensures
        summary(i) == (severity, code, column, message),
{
}


/// What [`target_findings`] promises of its findings.
pub open spec fn target_found(res: Seq<Issue>, read: Option<TargetRead>, target: Seq<char>, family: Seq<char>, present: Seq<Seq<char>>) -> bool {
    match read {
        None => res.len() == 1 && finding(
            res[0],
            Severity::High,
            "missing_target"@,
            Some(target),
            missing_target_text(target, present),
        ),
        Some(TargetRead::Refused(dtype)) => res.len() == 1 && finding(
            res[0],
            Severity::High,
            "target_not_numeric"@,
            Some(target),
            target_not_numeric_text(target, dtype@),
        ),
        Some(values) => {
            let bad = target_bad(values) > 0;
            let neg = target_negative(values) > 0 && non_negative_family(family);
            &&& res.len() == (if bad { 1int } else { 0 }) + (if neg { 1int } else { 0 })
            &&& bad ==> finding(res[0], Severity::High, "target_has_nulls"@, Some(target), target_nulls_text(target, target_bad(values)))
            &&& neg ==> finding(
                res[res.len() - 1],
                Severity::High,
                "negative_target"@,
                Some(target),
                negative_target_text(target, target_negative(values), family),
            )
        },
    }
}

/// What [`target_findings`] promises, read as a summary.
proof fn lemma_target_summary(res: Seq<Issue>, read: Option<TargetRead>, target: Seq<char>, family: Seq<char>, present: Seq<Seq<char>>)
    requires
        target_found(res, read, target, family, present),
    ensures
        summaries(res) == target_summary(read, target, family, present),
{
    let expected = target_summary(read, target, family, present);
    assert(summaries(res).len() == expected.len());
    assert forall|i: int| 0 <= i < res.len() implies summaries(res)[i] == expected[i] by {
        match read {
            Some(TargetRead::Values(v)) => {
                let values = TargetRead::Values(v);
                let bad = target_bad(values) > 0;
                if bad && i == 0 {
                    assert(expected[0] == (
                        Severity::High,
                        "target_has_nulls"@,
                        Some(target),
                        target_nulls_text(target, target_bad(values)),
                    ));
                } else {
                    assert(i == res.len() - 1);
                }
            },
            _ => {},
        }
    }
    assert(summaries(res) =~= expected);
}

/// What [`exposure_findings`] promises, read as a summary.
proof fn lemma_exposure_summary(res: Seq<Issue>, values: Seq<Option<Quantity>>, exposure: Seq<char>, role: ExposureRole)
    requires
        ({
            let nulls = tally(values, cell_test(4)) > 0;
            let low = tally(values, cell_test(2)) > 0;
            &&& res.len() == (if nulls { 1int } else { 0 }) + (if low { 1int } else { 0 })
            &&& nulls ==> finding(
                res[0],
                Severity::High,
                "exposure_has_nulls"@,
                Some(exposure),
                exposure_nulls_text(exposure, tally(values, cell_test(4))),
            )
            &&& low ==> finding(
                res[res.len() - 1],
                if role == ExposureRole::Offset {
                    Severity::High
                } else {
                    Severity::Medium
                },
                "non_positive_exposure"@,
                Some(exposure),
                non_positive_text(exposure, tally(values, cell_test(2)), role),
            )
        }),
    ensures
        summaries(res) == exposure_summary(values, exposure, role),
{
    let expected = exposure_summary(values, exposure, role);
    assert(summaries(res).len() == expected.len());
    assert forall|i: int| 0 <= i < res.len() implies summaries(res)[i] == expected[i] by {
        if tally(values, cell_test(4)) > 0 && i == 0 {
        } else {
            assert(i == res.len() - 1);
        }
    }
    assert(summaries(res) =~= expected);
}

/// What [`column_findings`] promises, read as a summary.
proof fn lemma_column_summary(res: Seq<Issue>, column: FrameColumn, encoded: bool)
    requires
        ({
            let flags = seq![
                null_count(column.values) > 0,
                unseen_count(column.values, encoded) > 0,
                not_finite_count(column.values) > 0,
                takes_one_value(column.values),
            ];
            let codes = seq!["feature_has_nulls"@, "unencodable_levels"@, "feature_not_finite"@, "constant_feature"@];
            let severities = seq![Severity::High, Severity::High, Severity::High, Severity::Medium];
            &&& res.len() == tally(flags, |b: bool| b)
            &&& forall|k: int|
                0 <= k < 4 && #[trigger] flags[k] ==> finding(
                    res[tally(flags.take(k), |b: bool| b) as int],
                    severities[k],
                    codes[k],
                    Some(column.name@),
                    column_texts(column, encoded)[k],
                )
        }),
    ensures
        summaries(res) == column_summary(column, encoded),
{
    let flags = seq![
        null_count(column.values) > 0,
        unseen_count(column.values, encoded) > 0,
        not_finite_count(column.values) > 0,
        takes_one_value(column.values),
    ];
    let codes = seq!["feature_has_nulls"@, "unencodable_levels"@, "feature_not_finite"@, "constant_feature"@];
    let severities = seq![Severity::High, Severity::High, Severity::High, Severity::Medium];
    reveal_with_fuel(tally, 5);
    assert(flags.take(0) =~= Seq::<bool>::empty());
    assert(flags.take(1) =~= seq![flags[0]]);
    assert(flags.take(2) =~= seq![flags[0], flags[1]]);
    assert(flags.take(3) =~= seq![flags[0], flags[1], flags[2]]);
    assert(flags.take(1).drop_last() =~= flags.take(0));
    assert(flags.take(2).drop_last() =~= flags.take(1));
    assert(flags.take(3).drop_last() =~= flags.take(2));
    assert(flags.drop_last() =~= flags.take(3));
    let name = Some(column.name@);
    let texts = column_texts(column, encoded);
    let pieces = seq![
        when(flags[0], one(severities[0], codes[0], name, texts[0])),
        when(flags[1], one(severities[1], codes[1], name, texts[1])),
        when(flags[2], one(severities[2], codes[2], name, texts[2])),
        when(flags[3], one(severities[3], codes[3], name, texts[3])),
    ];
    let expected = column_summary(column, encoded);
    assert(expected == pieces[0] + pieces[1] + pieces[2] + pieces[3]);
    let t0 = tally(flags.take(0), |b: bool| b) as int;
    let t1 = tally(flags.take(1), |b: bool| b) as int;
    let t2 = tally(flags.take(2), |b: bool| b) as int;
    let t3 = tally(flags.take(3), |b: bool| b) as int;
    assert(pieces[0].len() == t1 - t0);
    assert(pieces[1].len() == t2 - t1);
    assert(pieces[2].len() == t3 - t2);
    assert(pieces[3].len() == res.len() - t3);
    assert(summaries(res).len() == expected.len());
    assert forall|i: int| 0 <= i < res.len() implies summaries(res)[i] == expected[i] by {
        if i < t1 {
            assert(flags[0]);
            assert(i == t0);
        } else if i < t2 {
            assert(flags[1]);
            assert(i == t1);
        } else if i < t3 {
            assert(flags[2]);
            assert(i == t2);
        } else {
            assert(flags[3]);
            assert(i == t3);
        }
    }
    assert(summaries(res) =~= expected);
}


/// Findings on the target column, as the caller read it: missing from the data
/// (`missing_target`, naming the columns `present`), not castable to floating point
/// (`target_not_numeric`, naming its type), holding nulls or non-finite values
/// (`target_has_nulls`), or negative under a family that cannot represent that
/// (`negative_target`). All high.
pub fn target_findings(read: &Option<TargetRead>, target: &String, family: &String, present: &Vec<String>) -> (res: Vec<Issue>)
    ensures
        target_found(res@, *read, target@, family@, views(present@)),
        *read matches Some(TargetRead::Values(v)) && tally(v@, cell_test(1)) > 0 && names_non_negative_family(
            family@,
        ) ==> res.len() >= 1 && res@[res.len() - 1].code@ == "negative_target"@ && res@[res.len()
            - 1].severity == Severity::High,
        all_ascii(family@) ==> (non_negative_family(family@) <==> names_non_negative_family(family@)),
{
    let non_negative = needs_non_negative(family);
    let mut out: Vec<Issue> = Vec::new();
    match read {
        None => {
            let mut m = quoted("Target column '", target, "' is not in the data. Columns present: ");
            push_joined(&mut m, present, ", ");
            out.push(issue(Severity::High, "missing_target", Some(target), m));
        },
        Some(TargetRead::Refused(dtype)) => {
            let mut m = quoted("Target column '", target, "' has dtype ");
            push_text(&mut m, dtype.as_str());
            push_text(&mut m, " and cannot be read as a number.");
            out.push(issue(Severity::High, "target_not_numeric", Some(target), m));
        },
        Some(TargetRead::Values(v)) => {
            let bad = count_quantities(v, 0);
            let negative = count_quantities(v, 1);
            if bad > 0 {
                out.push(issue(
                    Severity::High,
                    "target_has_nulls",
                    Some(target),
                    counted(
                        "Target column '",
                        target,
                        "' has ",
                        bad,
                        " null or non-finite values. Fitting rejects them; drop or impute those rows first.",
                    ),
                ));
            }
            if negative > 0 && non_negative {
                let mut m = counted("Target column '", target, "' has ", negative, " negative values, which the ");
                push_text(&mut m, family.as_str());
                push_text(&mut m, " family cannot represent.");
                out.push(issue(Severity::High, "negative_target", Some(target), m));
            }
        },
    }
    out
}

/// Findings on the exposure column, read as floating point: nulls
/// (`exposure_has_nulls`, high) and values at or below zero (`non_positive_exposure`,
/// high when exposure is an offset, whose logarithm is undefined there, else medium).
pub fn exposure_findings(values: &Vec<Option<Quantity>>, exposure: &String, role: ExposureRole) -> (res: Vec<Issue>)
    ensures
        ({
            let nulls = tally(values@, cell_test(4)) > 0;
            let low = tally(values@, cell_test(2)) > 0;
            &&& res.len() == (if nulls { 1int } else { 0 }) + (if low { 1int } else { 0 })
            &&& nulls ==> finding(
                res@[0],
                Severity::High,
                "exposure_has_nulls"@,
                Some(exposure@),
                exposure_nulls_text(exposure@, tally(values@, cell_test(4))),
            )
            &&& low ==> finding(
                res@[res.len() - 1],
                if role == ExposureRole::Offset {
                    Severity::High
                } else {
                    Severity::Medium
                },
                "non_positive_exposure"@,
                Some(exposure@),
                non_positive_text(exposure@, tally(values@, cell_test(2)), role),
            )
        }),
{
    let mut out: Vec<Issue> = Vec::new();
    let nulls = count_quantities(values, 4);
    let low = count_quantities(values, 2);
    if nulls > 0 {
        out.push(issue(
            Severity::High,
            "exposure_has_nulls",
            Some(exposure),
            counted("Exposure column '", exposure, "' has ", nulls, " null values."),
        ));
    }
    if low > 0 {
        let (severity, tail) = match role {
            ExposureRole::Offset => (
                Severity::High,
                " values at or below zero. It enters as log(exposure), which is undefined there, so those rows must be dropped.",
            ),
            ExposureRole::Weight => (
                Severity::Medium,
                " values at or below zero. Rows with no weight contribute nothing to the fit.",
            ),
        };
        out.push(issue(
            severity,
            "non_positive_exposure",
            Some(exposure),
            counted("Exposure column '", exposure, "' has ", low, tail),
        ));
    }
    out
}


/// Every cell equal to the first: a column taking at most one value.
pub open spec fn uniform<T>(v: Seq<T>) -> bool {
    forall|i: int| 0 <= i < v.len() ==> #[trigger] v[i] == v[0]
}

fn uniform_quantities(v: &Vec<Option<Quantity>>) -> (res: bool)
    ensures
        res == uniform(v@),
{
    let mut i: usize = 0;
    while i < v.len()
        invariant
            i <= v.len(),
            forall|j: int| 0 <= j < i ==> #[trigger] v@[j] == v@[0],
        decreases v.len() - i,
    {
        let same = match (v[i], v[0]) {
            (Some(a), Some(b)) => a == b,
            (None, None) => true,
            _ => false,
        };
        if !same {
            return false;
        }
        i += 1;
    }
    true
}

fn uniform_codes(v: &Vec<Option<i32>>) -> (res: bool)
    ensures
        res == uniform(v@),
{
    let mut i: usize = 0;
    while i < v.len()
        invariant
            i <= v.len(),
            forall|j: int| 0 <= j < i ==> #[trigger] v@[j] == v@[0],
        decreases v.len() - i,
    {
        if v[i] != v[0] {
            return false;
        }
        i += 1;
    }
    true
}

fn uniform_ints(v: &Vec<Option<i64>>) -> (res: bool)
    ensures
        res == uniform(v@),
{
    let mut i: usize = 0;
    while i < v.len()
        invariant
            i <= v.len(),
            forall|j: int| 0 <= j < i ==> #[trigger] v@[j] == v@[0],
        decreases v.len() - i,
    {
        if v[i] != v[0] {
            return false;
        }
        i += 1;
    }
    true
}

fn uniform_flags(v: &Vec<Option<bool>>) -> (res: bool)
    ensures
        res == uniform(v@),
{
    let mut i: usize = 0;
    while i < v.len()
        invariant
            i <= v.len(),
            forall|j: int| 0 <= j < i ==> #[trigger] v@[j] == v@[0],
        decreases v.len() - i,
    {
        if v[i] != v[0] {
            return false;
        }
        i += 1;
    }
    true
}

/// Text cells that read the same.
pub open spec fn same_text(a: Option<String>, b: Option<String>) -> bool {
    match (a, b) {
        (Some(x), Some(y)) => x@ == y@,
        (None, None) => true,
        _ => false,
    }
}

fn uniform_texts(v: &Vec<Option<String>>) -> (res: bool)
    ensures
        res == forall|i: int| 0 <= i < v.len() ==> same_text(#[trigger] v@[i], v@[0]),
{
    let mut i: usize = 0;
    while i < v.len()
        invariant
            i <= v.len(),
            forall|j: int| 0 <= j < i ==> same_text(#[trigger] v@[j], v@[0]),
        decreases v.len() - i,
    {
        let same = match (&v[i], &v[0]) {
            (Some(a), Some(b)) => *a == *b,
            (None, None) => true,
            _ => false,
        };
        if !same {
            return false;
        }
        i += 1;
    }
    true
}

/// How many nulls a column holds.
pub open spec fn null_count(values: ColumnValues) -> nat {
    match values {
        ColumnValues::Float(v) => tally(v@, cell_test(4)),
        ColumnValues::Int32(v) => tally(v@, |c: Option<i32>| c is None),
        ColumnValues::Int64(v) => tally(v@, |c: Option<i64>| c is None),
        ColumnValues::Bool(v) => tally(v@, |c: Option<bool>| c is None),
        ColumnValues::Text(v) => tally(v@, |c: Option<String>| c is None),
        _ => 0,
    }
}

/// Whether a column takes at most one value, nulls counting as a value. A column whose
/// values are not held counts as varying.
pub open spec fn takes_one_value(values: ColumnValues) -> bool {
    match values {
        ColumnValues::Float(v) => uniform(v@),
        ColumnValues::Int32(v) => uniform(v@),
        ColumnValues::Int64(v) => uniform(v@),
        ColumnValues::Bool(v) => uniform(v@),
        ColumnValues::Text(v) => forall|i: int| 0 <= i < v.len() ==> same_text(#[trigger] v@[i], v@[0]),
        _ => false,
    }
}

/// How many unseen codes an encoded code column holds.
pub open spec fn unseen_count(values: ColumnValues, encoded: bool) -> nat {
    match values {
        ColumnValues::Int32(v) => if encoded {
            tally(v@, |c: Option<i32>| c == Some(UNSEEN_CODE))
        } else {
            0
        },
        _ => 0,
    }
}

/// How many infinite or undefined numbers a floating-point column holds.
pub open spec fn not_finite_count(values: ColumnValues) -> nat {
    match values {
        ColumnValues::Float(v) => tally(v@, cell_test(3)),
        _ => 0,
    }
}

/// The findings on one column a term reads, in this order when they apply: nulls
/// (`feature_has_nulls`, high), codes for text the encoding does not know
/// (`unencodable_levels`, high), infinite or undefined numbers (`feature_not_finite`,
/// high), a single value (`constant_feature`, medium).
pub fn column_findings(column: &FrameColumn, encoded: bool) -> (res: Vec<Issue>)
    ensures
        ({
            let flags = seq![
                null_count(column.values) > 0,
                unseen_count(column.values, encoded) > 0,
                not_finite_count(column.values) > 0,
                takes_one_value(column.values),
            ];
            let codes = seq!["feature_has_nulls"@, "unencodable_levels"@, "feature_not_finite"@, "constant_feature"@];
            let severities = seq![Severity::High, Severity::High, Severity::High, Severity::Medium];
            &&& res.len() == tally(flags, |b: bool| b)
            &&& forall|k: int|
                0 <= k < 4 && #[trigger] flags[k] ==> finding(
                    res@[tally(flags.take(k), |b: bool| b) as int],
                    severities[k],
                    codes[k],
                    Some(column.name@),
                    column_texts(*column, encoded)[k],
                )
        }),
{
    let name = &column.name;
    let ghost flags = seq![
        null_count(column.values) > 0,
        unseen_count(column.values, encoded) > 0,
        not_finite_count(column.values) > 0,
        takes_one_value(column.values),
    ];
    let nulls = match &column.values {
        ColumnValues::Float(v) => count_quantities(v, 4),
        ColumnValues::Int32(v) => count_nulls(v),
        ColumnValues::Int64(v) => count_nulls(v),
        ColumnValues::Bool(v) => count_nulls(v),
        ColumnValues::Text(v) => count_nulls(v),
        _ => 0,
    };
    let unseen = match &column.values {
        ColumnValues::Int32(v) => if encoded {
            count_code(v, UNSEEN_CODE)
        } else {
            0
        },
        _ => 0,
    };
    let not_finite = match &column.values {
        ColumnValues::Float(v) => count_quantities(v, 3),
        _ => 0,
    };
    let one_value = match &column.values {
        ColumnValues::Float(v) => uniform_quantities(v),
        ColumnValues::Int32(v) => uniform_codes(v),
        ColumnValues::Int64(v) => uniform_ints(v),
        ColumnValues::Bool(v) => uniform_flags(v),
        ColumnValues::Text(v) => uniform_texts(v),
        _ => false,
    };
    proof {
        reveal_with_fuel(tally, 5);
        assert(flags.take(0) =~= Seq::<bool>::empty());
        assert(flags.take(1) =~= seq![flags[0]]);
        assert(flags.take(2) =~= seq![flags[0], flags[1]]);
        assert(flags.take(3) =~= seq![flags[0], flags[1], flags[2]]);
        assert(flags.take(1).drop_last() =~= flags.take(0));
        assert(flags.take(2).drop_last() =~= flags.take(1));
        assert(flags.take(3).drop_last() =~= flags.take(2));
        assert(flags.drop_last() =~= flags.take(3));
    }
    let mut out: Vec<Issue> = Vec::new();
    if nulls > 0 {
        out.push(issue(
            Severity::High,
            "feature_has_nulls",
            Some(name),
            counted(
                "Column '",
                name,
                "' has ",
                nulls,
                " null values. An observation that fails to match a table is rejected by fitting, so fill or drop them first.",
            ),
        ));
    }
    if unseen > 0 {
        out.push(issue(
            Severity::High,
            "unencodable_levels",
            Some(name),
            counted(
                "Column '",
                name,
                "' has ",
                unseen,
                " values that are not levels of the encoding this plan was built with.",
            ),
        ));
    }
    if not_finite > 0 {
        out.push(issue(
            Severity::High,
            "feature_not_finite",
            Some(name),
            counted(
                "Column '",
                name,
                "' has ",
                not_finite,
                " infinite or NaN values, which cannot be placed in a band.",
            ),
        ));
    }
    if one_value {
        out.push(issue(
            Severity::Medium,
            "constant_feature",
            Some(name),
            quoted(
                "Column '",
                name,
                "' takes a single value, so it carries no information and its factor will be aliased with the intercept.",
            ),
        ));
    }
    out
}

/// The finding on a table's size: over [`WIDE_TABLE`] rows (`wide_table`, medium), or
/// a categorical factor over [`WIDE_FACTOR`] levels (`many_levels`, low).
pub fn size_finding(info: &ResolvedTerm) -> (res: Option<Issue>)
    ensures
        info.rows > WIDE_TABLE ==> (res matches Some(i) && finding(
            i,
            Severity::Medium,
            "wide_table"@,
            None,
            wide_table_text(info.name@, info.rows as nat),
        )),
        info.rows <= WIDE_TABLE && info.kind@ == "categorical"@ && info.rows > WIDE_FACTOR && info.columns.len()
            >= 1 ==> (res matches Some(i) && finding(
            i,
            Severity::Low,
            "many_levels"@,
            Some(info.columns@[0]@),
            many_levels_text(info.columns@[0]@, info.rows as nat),
        )),
        !(info.rows > WIDE_TABLE) && !(info.kind@ == "categorical"@ && info.rows > WIDE_FACTOR && info.columns.len()
            >= 1) ==> res is None,
{
    if info.rows > WIDE_TABLE {
        let m = counted(
            "Term '",
            &info.name,
            "' produces ",
            info.rows,
            " rows. Every row is a free parameter unless the term is a variate, and a table this wide will be thinly estimated.",
        );
        return Some(issue(Severity::Medium, "wide_table", None, m));
    }
    if text_is(&info.kind, "categorical") && info.rows > WIDE_FACTOR && info.columns.len() >= 1 {
        let m = counted(
            "Column '",
            &info.columns[0],
            "' has ",
            info.rows,
            " levels. Consider grouping the thin ones, or a penalty to shrink them toward the base level.",
        );
        return Some(issue(Severity::Low, "many_levels", Some(&info.columns[0]), m));
    }
    None
}

/// The finding on observations that match no row of a table
/// (`unmatched_observations`, high).
pub fn unmatched_finding(matches: &Vec<u32>, table_name: &String) -> (res: Option<Issue>)
    ensures
        tally(matches@, |m: u32| m == NO_MATCH) > 0 ==> (res matches Some(i) && finding(
            i,
            Severity::High,
            "unmatched_observations"@,
            None,
            unmatched_text(tally(matches@, |m: u32| m == NO_MATCH), table_name@),
        )),
        tally(matches@, |m: u32| m == NO_MATCH) == 0 ==> res is None,
{
    let mut count: usize = 0;
    let mut i: usize = 0;
    while i < matches.len()
        invariant
            i <= matches.len(),
            count == tally(matches@.take(i as int), |m: u32| m == NO_MATCH),
            count <= i,
        decreases matches.len() - i,
    {
        proof {
            lemma_tally_step(matches@, |m: u32| m == NO_MATCH, i as int);
        }
        if matches[i] == NO_MATCH {
            count += 1;
        }
        i += 1;
    }
    proof {
        assert(matches@.take(matches.len() as int) =~= matches@);
    }
    if count == 0 {
        return None;
    }
    let mut m = decimal_text(count);
    push_text(&mut m, " rows do not match any row of table '");
    push_text(&mut m, table_name.as_str());
    push_text(&mut m, "'. Fitting rejects them rather than dropping a term silently.");
    Some(issue(Severity::High, "unmatched_observations", None, m))
}

/// The finding on a variate whose degree the band values cannot identify: a degree at
/// or above the number of distinct values (`variate_degree_too_high`, high).
pub fn variate_finding(column: &String, degree: usize, values: &Vec<Quantity>) -> (res: Option<Issue>)
    ensures
        degree >= distinct_count(values@) ==> (res matches Some(i) && finding(
            i,
            Severity::High,
            "variate_degree_too_high"@,
            Some(column@),
            degree_text(column@, degree as nat, distinct_count(values@)),
        )),
        degree < distinct_count(values@) ==> res is None,
{
    let distinct = count_distinct(values);
    if degree < distinct {
        return None;
    }
    let mut m = quoted("Variate '", column, "' is degree ");
    push_decimal(&mut m, degree);
    push_text(&mut m, " over ");
    push_decimal(&mut m, distinct);
    let highest: usize = if distinct > 0 { distinct - 1 } else { 0 };
    push_text(
        &mut m,
        " distinct band values. A degree at or above the number of distinct values is not identified \u{2014} at ",
    );
    push_decimal(&mut m, highest);
    push_text(&mut m, " the curve already passes through every band. Use degree ");
    push_decimal(&mut m, highest);
    push_text(&mut m, " or lower, or cut more bands.");
    Some(issue(Severity::High, "variate_degree_too_high", Some(column), m))
}

/// The sum of a field over the resolved terms.
pub open spec fn total_parameters(resolved: Seq<ResolvedTerm>) -> nat
    decreases resolved.len(),
{
    if resolved.len() == 0 {
        0
    } else {
        total_parameters(resolved.drop_last()) + resolved.last().parameters as nat
    }
}

pub open spec fn total_rows(resolved: Seq<ResolvedTerm>) -> nat
    decreases resolved.len(),
{
    if resolved.len() == 0 {
        0
    } else {
        total_rows(resolved.drop_last()) + resolved.last().rows as nat
    }
}

/// Free parameters and table rows over all the terms.
pub fn totals(resolved: &Vec<ResolvedTerm>) -> (res: (usize, usize))
    requires
        total_parameters(resolved@) <= usize::MAX,
        total_rows(resolved@) <= usize::MAX,
    ensures
        res.0 == total_parameters(resolved@),
        res.1 == total_rows(resolved@),
{
    let mut p: usize = 0;
    let mut r: usize = 0;
    let mut i: usize = 0;
    while i < resolved.len()
        invariant
            i <= resolved.len(),
            p == total_parameters(resolved@.take(i as int)),
            r == total_rows(resolved@.take(i as int)),
            total_parameters(resolved@) <= usize::MAX,
            total_rows(resolved@) <= usize::MAX,
        decreases resolved.len() - i,
    {
        proof {
            assert(resolved@.take(i + 1).drop_last() =~= resolved@.take(i as int));
            lemma_totals_grow(resolved@, i + 1);
        }
        p = p + resolved[i].parameters;
        r = r + resolved[i].rows;
        i += 1;
    }
    proof {
        assert(resolved@.take(resolved.len() as int) =~= resolved@);
    }
    (p, r)
}

/// Totals of a prefix are no more than the totals of the whole.
proof fn lemma_totals_grow(resolved: Seq<ResolvedTerm>, k: int)
    requires
        0 <= k <= resolved.len(),
    ensures
        total_parameters(resolved.take(k)) <= total_parameters(resolved),
        total_rows(resolved.take(k)) <= total_rows(resolved),
    decreases resolved.len() - k,
{
    if k < resolved.len() {
        lemma_totals_grow(resolved, k + 1);
        assert(resolved.take(k + 1).drop_last() =~= resolved.take(k));
    } else {
        assert(resolved.take(k) =~= resolved);
    }
}

/// The finding on a plan that spends at least as many parameters as there are rows of
/// data (`more_parameters_than_rows`, high).
pub fn parameters_finding(parameters: usize, height: usize) -> (res: Option<Issue>)
    ensures
        parameters >= height ==> (res matches Some(i) && finding(
            i,
            Severity::High,
            "more_parameters_than_rows"@,
            None,
            parameters_text(parameters as nat, height as nat),
        )),
        parameters < height ==> res is None,
{
    if parameters < height {
        return None;
    }
    let mut m = String::from_str("The plan spends ");
    push_decimal(&mut m, parameters);
    push_text(&mut m, " parameters on ");
    push_decimal(&mut m, height);
    push_text(&mut m, " rows of data. The fit is not identified.");
    Some(issue(Severity::High, "more_parameters_than_rows", None, m))
}

/// Findings ordered most severe first, keeping their order within a severity.
pub open spec fn by_severity(issues: Seq<Issue>) -> Seq<Issue> {
    issues.filter(|i: Issue| i.severity == Severity::High) + issues.filter(
        |i: Issue| i.severity == Severity::Medium,
    ) + issues.filter(|i: Issue| i.severity == Severity::Low)
}

/// Sorts findings most severe first; findings of equal severity keep their order.
pub fn sort_issues(issues: Vec<Issue>) -> (res: Vec<Issue>)
    ensures
        res@ == by_severity(issues@),
{
    let ghost all = issues@;
    let mut rest = issues;
    let mut high: Vec<Issue> = Vec::new();
    let mut medium: Vec<Issue> = Vec::new();
    let mut low: Vec<Issue> = Vec::new();
    let n = rest.len();
    let mut i: usize = 0;
    while i < n
        invariant
            n == all.len(),
            i <= n,
            rest@ == all.skip(i as int),
            high@ == all.take(i as int).filter(|x: Issue| x.severity == Severity::High),
            medium@ == all.take(i as int).filter(|x: Issue| x.severity == Severity::Medium),
            low@ == all.take(i as int).filter(|x: Issue| x.severity == Severity::Low),
        decreases n - i,
    {
        proof {
            assert(rest@[0] == all[i as int]);
            reveal(Seq::filter);
            assert(all.take(i + 1).drop_last() =~= all.take(i as int));
            assert(all.take(i + 1).last() == all[i as int]);
        }
        let item = rest.remove(0);
        proof {
            assert(rest@ =~= all.skip(i + 1));
        }
        match item.severity {
            Severity::High => high.push(item),
            Severity::Medium => medium.push(item),
            Severity::Low => low.push(item),
        }
        i += 1;
    }
    proof {
        assert(all.take(n as int) =~= all);
    }
    high.append(&mut medium);
    high.append(&mut low);
    high
}

/// What a plan would do, and everything found wrong with the data, before a fit.
#[derive(Debug, Clone)]
pub struct PlanCheck {
    /// What the plan decided, one entry per table including the intercept.
    pub resolved: Vec<ResolvedTerm>,
    /// Free parameters the model would spend.
    pub parameters: usize,
    /// Rows the model would carry across all tables.
    pub rows: usize,
    /// Findings, most severe first.
    pub issues: Vec<Issue>,
}

impl PlanCheck {
    /// A check of a plan that could not be built: nothing resolved, one finding.
    pub fn blocked(issue: Issue) -> (res: PlanCheck)
        ensures
            res.resolved.len() == 0,
            res.parameters == 0,
            res.rows == 0,
            res.issues@ == seq![issue],
    {
        let issues = vec![issue];
        PlanCheck { resolved: Vec::new(), parameters: 0, rows: 0, issues }
    }

    /// True when nothing found would stop the plan being fitted usefully: no finding is
    /// high.
    pub fn is_fittable(&self) -> (res: bool)
        ensures
            res == forall|k: int| 0 <= k < self.issues.len() ==> (#[trigger] self.issues@[k]).severity
                != Severity::High,
    {
        let mut k: usize = 0;
        while k < self.issues.len()
            invariant
                k <= self.issues.len(),
                forall|j: int| 0 <= j < k ==> (#[trigger] self.issues@[j]).severity != Severity::High,
            decreases self.issues.len() - k,
        {
            if self.issues[k].severity == Severity::High {
                return false;
            }
            k += 1;
        }
        true
    }

    /// The findings of at least `severity`, in order.
    pub fn issues_at_least(&self, severity: Severity) -> (res: Vec<&Issue>)
        ensures
            res@ == self.issues@.filter(|i: Issue| rank(i.severity) >= rank(severity)).map_values(
                |i: Issue| &i,
            ),
    {
        let mut out: Vec<&Issue> = Vec::new();
        let mut k: usize = 0;
        while k < self.issues.len()
            invariant
                k <= self.issues.len(),
                out@ == self.issues@.take(k as int).filter(|i: Issue| rank(i.severity) >= rank(severity)).map_values(
                    |i: Issue| &i,
                ),
            decreases self.issues.len() - k,
        {
            proof {
                reveal(Seq::filter);
                assert(self.issues@.take(k + 1).drop_last() =~= self.issues@.take(k as int));
                assert(self.issues@.take(k + 1).last() == self.issues@[k as int]);
            }
            let ghost before = out@;
            if self.issues[k].severity.at_least(&severity) {
                out.push(&self.issues[k]);
                proof {
                    let f = self.issues@.take(k + 1).filter(|i: Issue| rank(i.severity) >= rank(severity));
                    assert(out@ =~= f.map_values(|i: Issue| &i));
                }
            } else {
                proof {
                    let f = self.issues@.take(k + 1).filter(|i: Issue| rank(i.severity) >= rank(severity));
                    assert(out@ =~= f.map_values(|i: Issue| &i));
                }
            }
            k += 1;
        }
        proof {
            assert(self.issues@.take(self.issues.len() as int) =~= self.issues@);
        }
        out
    }
}


/// The column and degree of every variate term, in order.
pub open spec fn variate_specs(terms: Seq<Term>) -> Seq<(Seq<char>, usize)>
    decreases terms.len(),
{
    if terms.len() == 0 {
        Seq::empty()
    } else {
        let rest = variate_specs(terms.drop_last());
        match terms.last() {
            Term::Variate { column, degree, .. } => rest.push((column@, degree)),
            _ => rest,
        }
    }
}

/// The variates of the first terms come first.
proof fn lemma_variate_specs_prefix(terms: Seq<Term>, m: int)
    requires
        0 <= m <= terms.len(),
    ensures
        variate_specs(terms.take(m)).len() <= variate_specs(terms).len(),
        forall|i: int|
            0 <= i < variate_specs(terms.take(m)).len() ==> #[trigger] variate_specs(terms.take(m))[i]
                == variate_specs(terms)[i],
    decreases terms.len(),
{
    if m == terms.len() {
        assert(terms.take(m) =~= terms);
    } else {
        lemma_variate_specs_prefix(terms.drop_last(), m);
        assert(terms.drop_last().take(m) =~= terms.take(m));
    }
}

/// The smaller of two lengths.
pub open spec fn min_len(a: nat, b: nat) -> int {
    if a <= b {
        a as int
    } else {
        b as int
    }
}

/// What one variate's bands give: the code, the column, and the reason when the bands
/// could not be cut.
pub open spec fn variate_outcome(v: (Seq<char>, usize), band: VariateBands) -> Seq<(Seq<char>, Seq<char>, Seq<char>)> {
    match band {
        VariateBands::Failed(reason) => seq![("bands_cannot_be_cut"@, v.0, reason@)],
        VariateBands::Cut(values) => if v.1 >= distinct_count(values@) {
            seq![("variate_degree_too_high"@, v.0, degree_text(v.0, v.1 as nat, distinct_count(values@)))]
        } else {
            Seq::empty()
        },
    }
}

/// What the first `n` variates give, in order.
pub open spec fn variate_outcomes(vs: Seq<(Seq<char>, usize)>, bands: Seq<VariateBands>, n: int) -> Seq<(Seq<char>, Seq<char>, Seq<char>)>
    decreases n,
{
    if n <= 0 {
        Seq::empty()
    } else {
        variate_outcomes(vs, bands, n - 1) + variate_outcome(vs[n - 1], bands[n - 1])
    }
}

/// The finding is high, with this code, column and wording.
pub open spec fn issue_is(i: Issue, o: (Seq<char>, Seq<char>, Seq<char>)) -> bool {
    finding(i, Severity::High, o.0, Some(o.1), o.2)
}

/// The findings are these outcomes, one for one.
pub open spec fn variate_issues(res: Seq<Issue>, outcomes: Seq<(Seq<char>, Seq<char>, Seq<char>)>) -> bool {
    &&& res.len() == outcomes.len()
    &&& forall|i: int| 0 <= i < res.len() ==> issue_is(#[trigger] res[i], outcomes[i])
}

/// How a variate's bands came out of the data: cut, with the values its polynomial
/// is taken over, or not cut, with the reason.
#[derive(Debug, Clone)]
pub enum VariateBands {
    Cut(Vec<Quantity>),
    Failed(String),
}

/// How one table's rows fill with exposure, counted by the caller from the weights:
/// rows that carry none, and rows that hold under a thousandth of the total each.
#[derive(Debug, Clone, Copy)]
pub struct TableFill {
    pub empty: usize,
    pub rows: usize,
    pub thin: usize,
}

/// The findings on one table's rows: none matched by some observation
/// (`unmatched_observations`, high), rows with no exposure (`empty_levels`, medium),
/// rows with very little (`thin_levels`, low).
fn table_findings(matches: &Vec<u32>, table_name: &String, fill: TableFill) -> (res: Vec<Issue>)
    ensures
        summaries(res@) == table_summary(matches@, fill, table_name@),
{
    let mut out: Vec<Issue> = Vec::new();
    let u = unmatched_finding(matches, table_name);
    proof {
        assert(summaries(out@) =~= Seq::empty());
    }
    if let Some(i) = u {
        proof {
            lemma_summaries_push(out@, i);
            lemma_summary_of(
                i,
                Severity::High,
                "unmatched_observations"@,
                None,
                unmatched_text(tally(matches@, |m: u32| m == NO_MATCH), table_name@),
            );
        }
        out.push(i);
    }
    let ghost part1 = summaries(out@);
    proof {
        assert(part1 == when(
            tally(matches@, |m: u32| m == NO_MATCH) > 0,
            one(
                Severity::High,
                "unmatched_observations"@,
                None,
                unmatched_text(tally(matches@, |m: u32| m == NO_MATCH), table_name@),
            ),
        ));
    }
    if fill.empty > 0 {
        let mut m = decimal_text(fill.empty);
        push_text(&mut m, " of ");
        push_decimal(&mut m, fill.rows);
        push_text(&mut m, " rows in table '");
        push_text(&mut m, table_name.as_str());
        push_text(&mut m, "' carry no exposure. They cannot be estimated and will keep their starting factor.");
        let i = issue(Severity::Medium, "empty_levels", None, m);
        proof {
            lemma_summaries_push(out@, i);
        }
        out.push(i);
    }
    let ghost part2 = summaries(out@);
    proof {
        assert(part2 == part1 + when(
            fill.empty > 0,
            one(
                Severity::Medium,
                "empty_levels"@,
                None,
                empty_levels_text(fill.empty as nat, fill.rows as nat, table_name@),
            ),
        ));
    }
    if fill.thin > 0 {
        let mut m = decimal_text(fill.thin);
        push_text(&mut m, " rows in table '");
        push_text(&mut m, table_name.as_str());
        push_text(&mut m, "' hold under 0.1% of exposure each, so their factors will be noisy.");
        let i = issue(Severity::Low, "thin_levels", None, m);
        proof {
            lemma_summaries_push(out@, i);
        }
        out.push(i);
    }
    proof {
        assert(summaries(out@) == part2 + when(
            fill.thin > 0,
            one(Severity::Low, "thin_levels"@, None, thin_levels_text(fill.thin as nat, table_name@)),
        ));
    }
    out
}

/// Appends every finding of `more` to `all`.
fn extend_issues(all: &mut Vec<Issue>, more: Vec<Issue>)
    ensures
        final(all)@ == old(all)@ + more@,
{
    let mut more = more;
    all.append(&mut more);
}

impl Plan {
    /// The findings a plan's variates give before anything is built: bands that could
    /// not be cut (`bands_cannot_be_cut`, high, with the reason), and a degree the band
    /// values cannot identify (see [`variate_finding`]). `bands` holds one entry per
    /// variate term, in order; variates past its end are not looked at.
    pub fn variate_findings(&self, bands: &Vec<VariateBands>) -> (res: Vec<Issue>)
        ensures
            variate_issues(
                res@,
                variate_outcomes(
                    variate_specs(self.terms@),
                    bands@,
                    min_len(variate_specs(self.terms@).len(), bands@.len()),
                ),
            ),
    {
        let ghost vs = variate_specs(self.terms@);
        let mut out: Vec<Issue> = Vec::new();
        let mut v: usize = 0;
        let mut k: usize = 0;
        proof {
            assert(self.terms@.take(0) =~= Seq::<Term>::empty());
        }
        while k < self.terms.len()
            invariant
                vs == variate_specs(self.terms@),
                k <= self.terms.len(),
                v == min_len(variate_specs(self.terms@.take(k as int)).len(), bands@.len()),
                variate_issues(out@, variate_outcomes(vs, bands@, v as int)),
            decreases self.terms.len() - k,
        {
            proof {
                assert(self.terms@.take(k + 1).drop_last() =~= self.terms@.take(k as int));
                assert(self.terms@.take(k + 1).last() == self.terms@[k as int]);
                lemma_variate_specs_prefix(self.terms@, k + 1);
            }
            if let Term::Variate { column, degree, .. } = &self.terms[k] {
                if v < bands.len() {
                    let ghost before = out@;
                    proof {
                        let pre = variate_specs(self.terms@.take(k as int));
                        assert(v == pre.len());
                        assert(variate_specs(self.terms@.take(k + 1)) == pre.push((column@, *degree)));
                        assert(variate_specs(self.terms@.take(k + 1))[v as int] == (column@, *degree));
                        assert(vs[v as int] == (column@, *degree));
                    }
                    match &bands[v] {
                        VariateBands::Failed(reason) => {
                            out.push(issue(Severity::High, "bands_cannot_be_cut", Some(column), reason.clone()));
                        },
                        VariateBands::Cut(values) => {
                            if let Some(i) = variate_finding(column, *degree, values) {
                                out.push(i);
                            }
                        },
                    }
                    proof {
                        let o = variate_outcome(vs[v as int], bands@[v as int]);
                        assert(variate_outcomes(vs, bands@, v + 1) == variate_outcomes(vs, bands@, v as int) + o);
                        assert(variate_issues(out@, variate_outcomes(vs, bands@, v + 1))) by {
                            let prev = variate_outcomes(vs, bands@, v as int);
                            assert forall|i: int| 0 <= i < out.len() implies issue_is(#[trigger] out@[i], (prev + o)[i]) by {
                                if i < before.len() {
                                    assert(out@[i] == before[i]);
                                    assert((prev + o)[i] == prev[i]);
                                }
                            }
                        }
                    }
                    v += 1;
                }
            }
            k += 1;
        }
        proof {
            assert(self.terms@.take(self.terms.len() as int) =~= self.terms@);
        }
        out
    }

    /// Everything a check finds in the data once the plan is built, most severe first:
    /// `issues` (findings gathered earlier), then the target's, the exposure's, each
    /// term's columns and table size, each table's matching and fill (when `matches`
    /// and `fills` are given, one per table), the caller's findings on correlated
    /// tables, and the parameter count against the rows of data. The built plan's
    /// resolved terms are handed back as they are, with their totals.
    pub fn data_findings(
        &self,
        df: &Frame,
        target: &String,
        target_read: &Option<TargetRead>,
        present: &Vec<String>,
        built: BuiltPlan,
        matches: Option<&Vec<Vec<u32>>>,
        fills: &Vec<TableFill>,
        correlation: Vec<Issue>,
        issues: Vec<Issue>,
    ) -> (res: PlanCheck)
        requires
            df.wf(),
            built.encoding.wf(),
            total_parameters(built.resolved@) <= usize::MAX,
            total_rows(built.resolved@) <= usize::MAX,
        ensures
            exists|raw: Seq<Issue>|
                #![trigger by_severity(raw)]
                {
                    &&& res.issues@ == by_severity(raw)
                    &&& raw.take(issues.len() as int) == issues@
                    &&& summaries(raw) == check_summary(
                        *self,
                        *df,
                        target@,
                        *target_read,
                        views(present@),
                        built,
                        matches,
                        fills@,
                        correlation@,
                        issues@,
                    )
                },
            res.resolved == built.resolved,
            res.parameters == total_parameters(built.resolved@),
            res.rows == total_rows(built.resolved@),
    {
        let ghost terms_in = self.terms@;
        let mut all = issues;
        let ghost given = all@;
        // The target, then the exposure.
        let found = target_findings(target_read, target, &self.family, present);
        proof {
            lemma_target_summary(found@, *target_read, target@, self.family@, views(present@));
            lemma_summaries_add(all@, found@);
        }
        extend_issues(&mut all, found);
        let ghost after_target = summaries(all@);
        if let Some(exposure) = &self.exposure {
            if let Some(j) = df.index_of(exposure) {
                if let ColumnValues::Float(values) = &df.columns[j].values {
                    let e = exposure_findings(values, exposure, self.resolved_exposure_role());
                    proof {
                        lemma_exposure_summary(e@, values@, exposure@, spec_exposure_role(*self));
                        lemma_summaries_add(all@, e@);
                    }
                    extend_issues(&mut all, e);
                }
            }
        }
        proof {
            assert(summaries(all@) == after_target + plan_exposure_summary(*self, *df));
        }
        let ghost base = summaries(all@);
        // Each term's columns and table size.
        let mut k: usize = 0;
        proof {
            assert(summaries(all@) == base + terms_summary(self.terms@, *df, built.encoding, built.resolved@, 0));
        }
        while k < self.terms.len()
            invariant
                df.wf(),
                built.encoding.wf(),
                k <= self.terms.len(),
                all@.take(given.len() as int) == given,
                all.len() >= given.len(),
                summaries(all@) == base + terms_summary(self.terms@, *df, built.encoding, built.resolved@, k as int),
            decreases self.terms.len() - k,
        {
            let columns = self.terms[k].columns();
            let ghost names = term_columns(self.terms@[k as int]);
            let ghost start = summaries(all@);
            let mut c: usize = 0;
            proof {
                assert(columns@.map_values(|x: String| x@) == names);
                assert(names.take(0) =~= Seq::<Seq<char>>::empty());
            }
            while c < columns.len()
                invariant
                    df.wf(),
                    built.encoding.wf(),
                    all@.take(given.len() as int) == given,
                    all.len() >= given.len(),
                    columns@.map_values(|x: String| x@) == names,
                    c <= columns.len(),
                    summaries(all@) == start + term_columns_summary(names.take(c as int), *df, built.encoding),
                decreases columns.len() - c,
            {
                proof {
                    assert(names.take(c + 1).drop_last() =~= names.take(c as int));
                    assert(names.take(c + 1).last() == names[c as int]);
                    assert(names[c as int] == columns@[c as int]@);
                }
                if let Some(j) = df.index_of(&columns[c]) {
                    let encoded = built.encoding.is_encoded(&columns[c]);
                    let ghost before = all@;
                    let found = column_findings(&df.columns[j], encoded);
                    proof {
                        lemma_column_summary(found@, df.columns@[j as int], encoded);
                        lemma_summaries_add(before, found@);
                        assert(frame_column(*df, names[c as int]) == Some(df.columns@[j as int]));
                    }
                    extend_issues(&mut all, found);
                    proof {
                        assert(all@.take(given.len() as int) =~= before.take(given.len() as int));
                    }
                } else {
                    proof {
                        assert(frame_column(*df, names[c as int]) is None);
                    }
                }
                c += 1;
            }
            proof {
                assert(names.take(columns.len() as int) =~= names);
            }
            let ghost mid = summaries(all@);
            if k + 1 < built.resolved.len() {
                if let Some(i) = size_finding(&built.resolved[k + 1]) {
                    let ghost before = all@;
                    proof {
                        lemma_summaries_push(before, i);
                    }
                    all.push(i);
                    proof {
                        assert(all@.take(given.len() as int) =~= before.take(given.len() as int));
                    }
                }
            }
            proof {
                assert(summaries(all@) == mid + if k + 1 < built.resolved.len() {
                    size_summary(built.resolved@[k + 1])
                } else {
                    Seq::empty()
                });
                assert(terms_summary(self.terms@, *df, built.encoding, built.resolved@, k + 1) == terms_summary(
                    self.terms@,
                    *df,
                    built.encoding,
                    built.resolved@,
                    k as int,
                ) + term_columns_summary(names, *df, built.encoding) + if k + 1 < built.resolved.len() {
                    size_summary(built.resolved@[k + 1])
                } else {
                    Seq::empty()
                });
            }
            k += 1;
        }
        let ghost after_terms = summaries(all@);
        // Each table's matching and fill.
        if let Some(m) = matches {
            let mut t: usize = 1;
            proof {
                assert(summaries(all@) == after_terms + tables_summary(m@, built.table_names@, fills@, 1));
            }
            while t < m.len()
                invariant
                    1 <= t,
                    m.len() >= 1 ==> t <= m.len(),
                    m.len() == 0 ==> t == 1,
                    all@.take(given.len() as int) == given,
                    all.len() >= given.len(),
                    summaries(all@) == after_terms + tables_summary(m@, built.table_names@, fills@, t as int),
                decreases m.len() - t,
            {
                if t < built.table_names.len() && t < fills.len() {
                    let ghost before = all@;
                    let found = table_findings(&m[t], &built.table_names[t], fills[t]);
                    proof {
                        lemma_summaries_add(before, found@);
                    }
                    extend_issues(&mut all, found);
                    proof {
                        assert(all@.take(given.len() as int) =~= before.take(given.len() as int));
                    }
                }
                t += 1;
            }
            proof {
                assert(tables_summary(m@, built.table_names@, fills@, m.len() as int) == tables_summary(
                    m@,
                    built.table_names@,
                    fills@,
                    t as int,
                ));
            }
        }
        let ghost after_tables = summaries(all@);
        proof {
            lemma_summaries_add(all@, correlation@);
        }
        extend_issues(&mut all, correlation);
        let (parameters, rows) = totals(&built.resolved);
        let p = parameters_finding(parameters, df.height);
        if let Some(i) = p {
            proof {
                lemma_summaries_push(all@, i);
                lemma_summary_of(
                    i,
                    Severity::High,
                    "more_parameters_than_rows"@,
                    None,
                    parameters_text(parameters as nat, df.height as nat),
                );
            }
            all.push(i);
        }
        proof {
            assert(all@.take(given.len() as int) =~= given);
            assert(summaries(given) == summaries(issues@));
        }
        let ghost raw = all@;
        let sorted = sort_issues(all);
        let resolved = built.resolved;
        let res = PlanCheck { resolved, parameters, rows, issues: sorted };
        proof {
            assert(res.issues@ == by_severity(raw));
        }
        res
    }
}

/// Everything a check finds, in the order it finds it: the findings given, the
/// target's, the exposure's, each term's, each table's, the correlated tables', then
/// the parameter count's.
pub open spec fn check_summary(
    plan: Plan,
    df: Frame,
    target: Seq<char>,
    target_read: Option<TargetRead>,
    present: Seq<Seq<char>>,
    built: BuiltPlan,
    matches: Option<&Vec<Vec<u32>>>,
    fills: Seq<TableFill>,
    correlation: Seq<Issue>,
    issues: Seq<Issue>,
) -> Seq<(Severity, Seq<char>, Option<Seq<char>>, Seq<char>)> {
    summaries(issues) + target_summary(target_read, target, plan.family@, present) + plan_exposure_summary(plan, df) + terms_summary(
        plan.terms@,
        df,
        built.encoding,
        built.resolved@,
        plan.terms.len() as int,
    ) + match matches {
        Some(m) => tables_summary(m@, built.table_names@, fills, m.len() as int),
        None => Seq::empty(),
    } + summaries(correlation) + when(
        total_parameters(built.resolved@) >= df.height,
        one(
            Severity::High,
            "more_parameters_than_rows"@,
            None,
            parameters_text(total_parameters(built.resolved@), df.height as nat),
        ),
    )
}

} // verus!
