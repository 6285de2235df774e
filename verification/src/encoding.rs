//! Category codes for the text columns a plan uses.
//!
//! A model reads categories as 32-bit codes, so text levels are given codes, and the
//! codes travel with the model: scoring must give the same level the same code, and a
//! level missing from a batch must not shift the others. Codes follow the sorted order
//! of the level text, so the same data always encodes the same way.
use crate::frame::{ColumnValues, FrameColumn};
use crate::rating_model::{Dtype, RatingModel, RatingTable, dtype_of, spec_dtype};
use crate::text::{
    holds_text, insert_sorted, lemma_text_lt_asymmetric, lemma_text_lt_irreflexive,
    lemma_text_lt_total, lemma_text_lt_transitive, strictly_sorted, text_less, text_lt,
};
use vstd::prelude::*;

verus! {

/// A code that no level maps to, so an unseen or missing text fails to match rather
/// than colliding with a real level.
pub const UNSEEN_CODE: i32 = -0x8000_0000;

/// One column's levels: level text and its code.
pub type Levels = Vec<(String, i32)>;

/// The code the first entry for `t` carries.
pub open spec fn code_of_first(levels: Seq<(String, i32)>, t: Seq<char>) -> Option<i32>
    decreases levels.len(),
{
    if levels.len() == 0 {
        None
    } else if levels[0].0@ == t {
        Some(levels[0].1)
    } else {
        code_of_first(levels.drop_first(), t)
    }
}

/// The code the last entry for `t` carries.
pub open spec fn code_of_last(levels: Seq<(String, i32)>, t: Seq<char>) -> Option<i32>
    decreases levels.len(),
{
    if levels.len() == 0 {
        None
    } else if levels.last().0@ == t {
        Some(levels.last().1)
    } else {
        code_of_last(levels.drop_last(), t)
    }
}

/// The text of the first entry carrying code `c`.
pub open spec fn label_of_first(levels: Seq<(String, i32)>, c: i32) -> Option<Seq<char>>
    decreases levels.len(),
{
    if levels.len() == 0 {
        None
    } else if levels[0].1 == c {
        Some(levels[0].0@)
    } else {
        label_of_first(levels.drop_first(), c)
    }
}

/// The text of the last entry carrying code `c`.
pub open spec fn label_of_last(levels: Seq<(String, i32)>, c: i32) -> Option<Seq<char>>
    decreases levels.len(),
{
    if levels.len() == 0 {
        None
    } else if levels.last().1 == c {
        Some(levels.last().0@)
    } else {
        label_of_last(levels.drop_last(), c)
    }
}

/// Levels whose texts are all distinct and whose codes are all distinct.
pub open spec fn one_to_one(levels: Seq<(String, i32)>) -> bool {
    forall|a: int, b: int|
        0 <= a < levels.len() && 0 <= b < levels.len() && a != b ==> levels[a].0@ != levels[b].0@
            && levels[a].1 != levels[b].1
}

/// In one-to-one levels, every lookup finds the one entry there is.
pub proof fn lemma_one_to_one_lookup(levels: Seq<(String, i32)>, k: int)
    requires
        one_to_one(levels),
        0 <= k < levels.len(),
    ensures
        code_of_first(levels, levels[k].0@) == Some(levels[k].1),
        code_of_last(levels, levels[k].0@) == Some(levels[k].1),
        label_of_first(levels, levels[k].1) == Some(levels[k].0@),
        label_of_last(levels, levels[k].1) == Some(levels[k].0@),
    decreases levels.len(),
{
    let n = levels.len();
    if k > 0 {
        let rest = levels.drop_first();
        assert(one_to_one(rest)) by {
            assert forall|a: int, b: int|
                0 <= a < rest.len() && 0 <= b < rest.len() && a != b implies rest[a].0@
                != rest[b].0@ && rest[a].1 != rest[b].1 by {
                assert(rest[a] == levels[a + 1]);
                assert(rest[b] == levels[b + 1]);
            }
        }
        assert(rest[k - 1] == levels[k]);
        assert(levels[0].0@ != levels[k].0@);
        assert(levels[0].1 != levels[k].1);
        lemma_one_to_one_lookup(rest, k - 1);
    }
    if k < n - 1 {
        let rest = levels.drop_last();
        assert(one_to_one(rest)) by {
            assert forall|a: int, b: int|
                0 <= a < rest.len() && 0 <= b < rest.len() && a != b implies rest[a].0@
                != rest[b].0@ && rest[a].1 != rest[b].1 by {
                assert(rest[a] == levels[a]);
                assert(rest[b] == levels[b]);
            }
        }
        assert(rest[k] == levels[k]);
        assert(levels[n - 1].0@ != levels[k].0@);
        assert(levels[n - 1].1 != levels[k].1);
        lemma_one_to_one_lookup(rest, k);
    }
}

/// A text no entry carries has no code.
pub proof fn lemma_code_absent(levels: Seq<(String, i32)>, t: Seq<char>)
    requires
        forall|k: int| 0 <= k < levels.len() ==> (#[trigger] levels[k]).0@ != t,
    ensures
        code_of_first(levels, t) is None,
        code_of_last(levels, t) is None,
    decreases levels.len(),
{
    if levels.len() > 0 {
        let rest = levels.drop_first();
        assert forall|k: int| 0 <= k < rest.len() implies (#[trigger] rest[k]).0@ != t by {
            assert(rest[k] == levels[k + 1]);
        }
        lemma_code_absent(rest, t);
        let init = levels.drop_last();
        assert forall|k: int| 0 <= k < init.len() implies (#[trigger] init[k]).0@ != t by {
            assert(init[k] == levels[k]);
        }
        lemma_code_absent(init, t);
        assert(levels[levels.len() - 1].0@ != t);
        assert(levels[0].0@ != t);
    }
}

/// A code no entry carries has no text.
pub proof fn lemma_label_absent(levels: Seq<(String, i32)>, c: i32)
    requires
        forall|k: int| 0 <= k < levels.len() ==> (#[trigger] levels[k]).1 != c,
    ensures
        label_of_first(levels, c) is None,
        label_of_last(levels, c) is None,
    decreases levels.len(),
{
    if levels.len() > 0 {
        let rest = levels.drop_first();
        assert forall|k: int| 0 <= k < rest.len() implies (#[trigger] rest[k]).1 != c by {
            assert(rest[k] == levels[k + 1]);
        }
        lemma_label_absent(rest, c);
        let init = levels.drop_last();
        assert forall|k: int| 0 <= k < init.len() implies (#[trigger] init[k]).1 != c by {
            assert(init[k] == levels[k]);
        }
        lemma_label_absent(init, c);
        assert(levels[levels.len() - 1].1 != c);
        assert(levels[0].1 != c);
    }
}

/// The code of the first entry for `t`.
pub fn first_code(levels: &Levels, t: &String) -> (res: Option<i32>)
    ensures
        res == code_of_first(levels@, t@),
{
    let mut k: usize = 0;
    assert(levels@.skip(0) =~= levels@);
    while k < levels.len()
        invariant
            k <= levels.len(),
            code_of_first(levels@, t@) == code_of_first(levels@.skip(k as int), t@),
        decreases levels.len() - k,
    {
        proof {
            let rest = levels@.skip(k as int);
            assert(rest[0] == levels@[k as int]);
            assert(rest.drop_first() =~= levels@.skip(k + 1));
        }
        if levels[k].0 == *t {
            return Some(levels[k].1);
        }
        k += 1;
    }
    None
}

/// The code of the last entry for `t`.
pub fn last_code(levels: &Levels, t: &String) -> (res: Option<i32>)
    ensures
        res == code_of_last(levels@, t@),
{
    let mut k: usize = levels.len();
    assert(levels@.take(k as int) =~= levels@);
    while k > 0
        invariant
            k <= levels.len(),
            code_of_last(levels@, t@) == code_of_last(levels@.take(k as int), t@),
        decreases k,
    {
        proof {
            let init = levels@.take(k as int);
            assert(init.last() == levels@[k - 1]);
            assert(init.drop_last() =~= levels@.take(k - 1));
        }
        if levels[k - 1].0 == *t {
            return Some(levels[k - 1].1);
        }
        k -= 1;
    }
    None
}

/// The text of the first entry carrying `c`.
pub fn first_label(levels: &Levels, c: i32) -> (res: Option<&String>)
    ensures
        match res {
            Some(s) => label_of_first(levels@, c) == Some(s@),
            None => label_of_first(levels@, c) is None,
        },
{
    let mut k: usize = 0;
    assert(levels@.skip(0) =~= levels@);
    while k < levels.len()
        invariant
            k <= levels.len(),
            label_of_first(levels@, c) == label_of_first(levels@.skip(k as int), c),
        decreases levels.len() - k,
    {
        proof {
            let rest = levels@.skip(k as int);
            assert(rest[0] == levels@[k as int]);
            assert(rest.drop_first() =~= levels@.skip(k + 1));
        }
        if levels[k].1 == c {
            return Some(&levels[k].0);
        }
        k += 1;
    }
    None
}

/// The text of the last entry carrying `c`.
pub fn last_label(levels: &Levels, c: i32) -> (res: Option<&String>)
    ensures
        match res {
            Some(s) => label_of_last(levels@, c) == Some(s@),
            None => label_of_last(levels@, c) is None,
        },
{
    let mut k: usize = levels.len();
    assert(levels@.take(k as int) =~= levels@);
    while k > 0
        invariant
            k <= levels.len(),
            label_of_last(levels@, c) == label_of_last(levels@.take(k as int), c),
        decreases k,
    {
        proof {
            let init = levels@.take(k as int);
            assert(init.last() == levels@[k - 1]);
            assert(init.drop_last() =~= levels@.take(k - 1));
        }
        if levels[k - 1].1 == c {
            return Some(&levels[k - 1].0);
        }
        k -= 1;
    }
    None
}

/// Category codes by column: like an ordered map, one entry per column, in ascending
/// order of the column name.
#[derive(Debug, Clone)]
pub struct Encoding {
    pub maps: Vec<(String, Levels)>,
}

/// The column names of an encoding, in order.
pub open spec fn column_names(maps: Seq<(String, Levels)>) -> Seq<String> {
    maps.map_values(|e: (String, Levels)| e.0)
}

impl Encoding {
    /// Columns in strictly ascending order, so each appears once.
    pub open spec fn wf(&self) -> bool {
        strictly_sorted(column_names(self.maps@))
    }

    /// The levels recorded for `column`, if any.
    pub open spec fn spec_levels(&self, column: Seq<char>) -> Option<Seq<(String, i32)>> {
        if exists|k: int| 0 <= k < self.maps.len() && (#[trigger] self.maps@[k]).0@ == column {
            let k = choose|k: int| 0 <= k < self.maps.len() && (#[trigger] self.maps@[k]).0@ == column;
            Some(self.maps@[k].1@)
        } else {
            None
        }
    }

    /// No columns.
    pub fn default() -> (res: Encoding)
        ensures
            res.wf(),
            res.maps@.len() == 0,
    {
        let res = Encoding { maps: Vec::new() };
        assert(column_names(res.maps@) =~= Seq::<String>::empty());
        res
    }

    /// In a well-formed encoding, a column name is at exactly one position.
    pub proof fn lemma_unique(&self, a: int, b: int)
        requires
            self.wf(),
            0 <= a < self.maps.len(),
            0 <= b < self.maps.len(),
            self.maps@[a].0@ == self.maps@[b].0@,
        ensures
            a == b,
    {
        if a != b {
            let names = column_names(self.maps@);
            assert(names[a] == self.maps@[a].0);
            assert(names[b] == self.maps@[b].0);
            if a < b {
                assert(text_lt(names[a]@, names[b]@));
            } else {
                assert(text_lt(names[b]@, names[a]@));
            }
            lemma_text_lt_irreflexive(self.maps@[a].0@);
        }
    }

    /// The levels recorded for `column`, if any.
    pub fn levels(&self, column: &String) -> (res: Option<&Levels>)
        requires
            self.wf(),
        ensures
            match res {
                Some(l) => self.spec_levels(column@) == Some(l@),
                None => self.spec_levels(column@) is None,
            },
    {
        let mut k: usize = 0;
        while k < self.maps.len()
            invariant
                self.wf(),
                k <= self.maps.len(),
                forall|j: int| 0 <= j < k ==> (#[trigger] self.maps@[j]).0@ != column@,
            decreases self.maps.len() - k,
        {
            if self.maps[k].0 == *column {
                proof {
                    let c = choose|c: int|
                        0 <= c < self.maps.len() && (#[trigger] self.maps@[c]).0@ == column@;
                    self.lemma_unique(c, k as int);
                }
                return Some(&self.maps[k].1);
            }
            k += 1;
        }
        None
    }

    /// Whether `column` has recorded levels.
    pub fn is_encoded(&self, column: &String) -> (res: bool)
        requires
            self.wf(),
        ensures
            res == self.spec_levels(column@) is Some,
    {
        self.levels(column).is_some()
    }

    /// The code recorded for `value` in `column`: the first entry with that text.
    pub fn code_for(&self, column: &String, value: &String) -> (res: Option<i32>)
        requires
            self.wf(),
        ensures
            res == match self.spec_levels(column@) {
                Some(l) => code_of_first(l, value@),
                None => None,
            },
    {
        match self.levels(column) {
            Some(l) => first_code(l, value),
            None => None,
        }
    }

    /// The level text a code stands for in `column`, for presentation: the first entry
    /// carrying that code.
    pub fn label_for(&self, column: &String, code: i32) -> (res: Option<&String>)
        requires
            self.wf(),
        ensures
            match res {
                Some(s) => self.spec_levels(column@) matches Some(l) && label_of_first(l, code)
                    == Some(s@),
                None => match self.spec_levels(column@) {
                    Some(l) => label_of_first(l, code) is None,
                    None => true,
                },
            },
    {
        match self.levels(column) {
            Some(l) => first_label(l, code),
            None => None,
        }
    }
}

/// Why a column cannot be encoded or re-encoded.
#[derive(Debug, Clone, PartialEq, Eq)]
pub enum EncodeError {
    /// The column's dtype cannot be read as a category.
    NotCategorical { column: String, dtype: Dtype },
    /// An encoded table column does not hold 32-bit codes.
    NotCodes { column: String, dtype: Dtype },
    /// A table column holds a code its encoding has no level for.
    UnknownCode { column: String, code: i32 },
}

/// Levels in ascending text order, coded by position.
pub open spec fn enumerated(levels: Seq<(String, i32)>) -> bool {
    &&& strictly_sorted(levels.map_values(|e: (String, i32)| e.0))
    &&& forall|k: int| 0 <= k < levels.len() ==> (#[trigger] levels[k]).1 == k
}

/// Enumerated levels are one-to-one.
pub proof fn lemma_enumerated_one_to_one(levels: Seq<(String, i32)>)
    requires
        enumerated(levels),
    ensures
        one_to_one(levels),
{
    let names = levels.map_values(|e: (String, i32)| e.0);
    assert forall|a: int, b: int|
        0 <= a < levels.len() && 0 <= b < levels.len() && a != b implies levels[a].0@
        != levels[b].0@ && levels[a].1 != levels[b].1 by {
        assert(names[a] == levels[a].0);
        assert(names[b] == levels[b].0);
        if a < b {
            assert(text_lt(names[a]@, names[b]@));
        } else {
            assert(text_lt(names[b]@, names[a]@));
        }
        lemma_text_lt_irreflexive(levels[a].0@);
    }
}

/// Codes `0, 1, ...` for strictly ascending texts.
fn enumerate_levels(texts: Vec<String>) -> (res: Levels)
    requires
        strictly_sorted(texts@),
        texts.len() <= 0x7fff_ffff,
    ensures
        enumerated(res@),
        res.len() == texts.len(),
        forall|k: int| 0 <= k < res.len() ==> (#[trigger] res@[k]).0 == texts@[k],
{
    let mut out: Levels = Vec::new();
    let mut k: usize = 0;
    while k < texts.len()
        invariant
            texts.len() <= 0x7fff_ffff,
            k <= texts.len(),
            out.len() == k,
            forall|j: int| 0 <= j < k ==> (#[trigger] out@[j]).0 == texts@[j] && out@[j].1 == j,
        decreases texts.len() - k,
    {
        out.push((texts[k].clone(), k as i32));
        k += 1;
    }
    proof {
        let names = out@.map_values(|e: (String, i32)| e.0);
        assert(names =~= texts@);
    }
    out
}

/// A non-null value reading `t`.
pub open spec fn is_text(v: Option<String>, t: Seq<char>) -> bool {
    v matches Some(s) && s@ == t
}

/// The texts a column carries, ignoring nulls.
pub open spec fn carries_text(values: Seq<Option<String>>, t: Seq<char>) -> bool {
    exists|i: int| 0 <= i < values.len() && is_text(#[trigger] values[i], t)
}

/// The levels derived from text values: each distinct text once, in ascending order,
/// coded by position.
pub open spec fn derived_from(levels: Seq<(String, i32)>, values: Seq<Option<String>>) -> bool {
    &&& enumerated(levels)
    &&& forall|t: Seq<char>|
        holds_text(levels.map_values(|e: (String, i32)| e.0), t) <==> carries_text(values, t)
}

/// The code a text value is given under `levels`: that of the last entry for its text,
/// or [`UNSEEN_CODE`] for a text with no entry and for a null.
pub open spec fn code_of_value(levels: Seq<(String, i32)>, value: Option<String>) -> i32 {
    match value {
        Some(t) => match code_of_last(levels, t@) {
            Some(c) => c,
            None => UNSEEN_CODE,
        },
        None => UNSEEN_CODE,
    }
}

/// A wider integer as a 32-bit code, or null where it does not fit.
pub open spec fn narrow(v: Option<i64>) -> Option<i32> {
    match v {
        Some(x) => if -0x8000_0000 <= x <= 0x7fff_ffff {
            Some(x as i32)
        } else {
            None
        },
        None => None,
    }
}

/// The levels a text column is coded with: the encoding's for this column where it has
/// them, else those derived from the values.
fn text_levels(values: &Vec<Option<String>>, column: &String, encoding: Option<&Encoding>) -> (res: Levels)
    requires
        encoding matches Some(e) ==> e.wf(),
        values.len() <= 0x7fff_ffff,
    ensures
        match encoding {
            Some(e) if e.spec_levels(column@) is Some => res@ == e.spec_levels(column@)->0,
            _ => derived_from(res@, values@),
        },
{
    if let Some(e) = encoding {
        if let Some(existing) = e.levels(column) {
            let mut copy: Levels = Vec::new();
            let mut k: usize = 0;
            while k < existing.len()
                invariant
                    k <= existing.len(),
                    copy@ =~= existing@.take(k as int),
                decreases existing.len() - k,
            {
                copy.push((existing[k].0.clone(), existing[k].1));
                k += 1;
            }
            assert(existing@.take(existing.len() as int) =~= existing@);
            return copy;
        }
    }
    let mut texts: Vec<String> = Vec::new();
    let mut i: usize = 0;
    while i < values.len()
        invariant
            values.len() <= 0x7fff_ffff,
            i <= values.len(),
            texts.len() <= i,
            strictly_sorted(texts@),
            forall|t: Seq<char>| holds_text(texts@, t) <==> carries_text(values@.take(i as int), t),
        decreases values.len() - i,
    {
        let ghost prefix = values@.take(i + 1);
        proof {
            assert(prefix.drop_last() =~= values@.take(i as int));
        }
        match &values[i] {
            Some(t) => {
                insert_sorted(&mut texts, t.clone());
                proof {
                    assert forall|u: Seq<char>| holds_text(texts@, u) <==> carries_text(prefix, u) by {
                        if carries_text(prefix, u) {
                            let j = choose|j: int|
                                0 <= j < prefix.len() && is_text(#[trigger] prefix[j], u);
                            if j < i {
                                assert(values@.take(i as int)[j] == prefix[j]);
                            }
                        }
                        if carries_text(values@.take(i as int), u) {
                            let j = choose|j: int|
                                0 <= j < i && is_text(#[trigger] values@.take(i as int)[j], u);
                            assert(prefix[j] == values@.take(i as int)[j]);
                        }
                        if u == t@ {
                            assert(prefix[i as int] == values@[i as int]);
                        }
                    }
                }
            },
            None => {
                proof {
                    assert forall|u: Seq<char>| holds_text(texts@, u) <==> carries_text(prefix, u) by {
                        if carries_text(prefix, u) {
                            let j = choose|j: int|
                                0 <= j < prefix.len() && is_text(#[trigger] prefix[j], u);
                            if j < i {
                                assert(values@.take(i as int)[j] == prefix[j]);
                            }
                        }
                        if carries_text(values@.take(i as int), u) {
                            let j = choose|j: int|
                                0 <= j < i && is_text(#[trigger] values@.take(i as int)[j], u);
                            assert(prefix[j] == values@.take(i as int)[j]);
                        }
                    }
                }
            },
        }
        i += 1;
    }
    proof {
        assert(values@.take(values.len() as int) =~= values@);
    }
    let levels = enumerate_levels(texts);
    proof {
        let names = levels@.map_values(|e: (String, i32)| e.0);
        assert(names =~= texts@);
    }
    levels
}

/// Text values coded under the chosen levels: the encoding's for the column where it
/// has them, else levels derived from the values.
pub open spec fn encodes_text(
    res: Result<(ColumnValues, Option<Levels>), EncodeError>,
    values: Seq<Option<String>>,
    column: Seq<char>,
    encoding: Option<&Encoding>,
) -> bool {
    match res {
        Ok((ColumnValues::Int32(codes), Some(levels))) => {
            &&& match encoding {
                Some(e) if e.spec_levels(column) is Some => levels@ == e.spec_levels(column)->0,
                _ => derived_from(levels@, values),
            }
            &&& codes.len() == values.len()
            &&& forall|i: int|
                0 <= i < values.len() ==> #[trigger] codes@[i] == Some(
                    code_of_value(levels@, values[i]),
                )
        },
        _ => false,
    }
}

/// A categorical column as 32-bit codes, with the text levels used when the column
/// was text.
///
/// Text is coded with the encoding's levels for this column where it has them, and
/// otherwise with levels derived from the values: each distinct text once, in ascending
/// order, coded by position. A text with no level, and a null, become [`UNSEEN_CODE`].
/// Codes pass through unchanged, wider integers are narrowed (a value that does not
/// fit becomes null) and booleans become 1 and 0. Any other dtype is refused.
pub fn encode_categorical(series: &FrameColumn, column: &String, encoding: Option<&Encoding>) -> (res: Result<
    (ColumnValues, Option<Levels>),
    EncodeError,
>)
    requires
        encoding matches Some(e) ==> e.wf(),
        series.values.spec_len() <= 0x7fff_ffff,
    ensures
        match series.values {
            ColumnValues::Text(values) => encodes_text(res, values@, column@, encoding),
            ColumnValues::Int32(values) => res matches Ok((ColumnValues::Int32(codes), None))
                && codes@ == values@,
            ColumnValues::Int64(values) => res matches Ok((ColumnValues::Int32(codes), None))
                && codes.len() == values.len() && forall|i: int|
                0 <= i < values.len() ==> #[trigger] codes@[i] == narrow(values@[i]),
            ColumnValues::Bool(values) => res matches Ok((ColumnValues::Int32(codes), None))
                && codes.len() == values.len() && forall|i: int|
                0 <= i < values.len() ==> #[trigger] codes@[i] == match values@[i] {
                    Some(b) => Some(if b {
                        1i32
                    } else {
                        0i32
                    }),
                    None => None,
                },
            _ => res matches Err(EncodeError::NotCategorical { column: c, dtype }) && c@ == column@
                && dtype == spec_dtype(series.values),
        },
{
    match &series.values {
        ColumnValues::Text(values) => {
            let levels = text_levels(values, column, encoding);
            let ghost chosen = levels@;
            let mut codes: Vec<Option<i32>> = Vec::new();
            let mut i: usize = 0;
            while i < values.len()
                invariant
                    levels@ == chosen,
                    i <= values.len(),
                    codes.len() == i,
                    forall|k: int|
                        0 <= k < i ==> #[trigger] codes@[k] == Some(code_of_value(levels@, values@[k])),
                decreases values.len() - i,
            {
                let code = match &values[i] {
                    Some(t) => match last_code(&levels, t) {
                        Some(c) => c,
                        None => UNSEEN_CODE,
                    },
                    None => UNSEEN_CODE,
                };
                codes.push(Some(code));
                i += 1;
            }
            Ok((ColumnValues::Int32(codes), Some(levels)))
        },
        ColumnValues::Int32(values) => {
            let mut copy: Vec<Option<i32>> = Vec::new();
            let mut k: usize = 0;
            while k < values.len()
                invariant
                    k <= values.len(),
                    copy@ =~= values@.take(k as int),
                decreases values.len() - k,
            {
                copy.push(values[k]);
                k += 1;
            }
            assert(values@.take(values.len() as int) =~= values@);
            Ok((ColumnValues::Int32(copy), None))
        },
        ColumnValues::Int64(values) => {
            let mut codes: Vec<Option<i32>> = Vec::new();
            let mut i: usize = 0;
            while i < values.len()
                invariant
                    i <= values.len(),
                    codes.len() == i,
                    forall|k: int| 0 <= k < i ==> #[trigger] codes@[k] == narrow(values@[k]),
                decreases values.len() - i,
            {
                let code = match values[i] {
                    Some(x) => if -0x8000_0000 <= x && x <= 0x7fff_ffff {
                        Some(x as i32)
                    } else {
                        None
                    },
                    None => None,
                };
                codes.push(code);
                i += 1;
            }
            Ok((ColumnValues::Int32(codes), None))
        },
        ColumnValues::Bool(values) => {
            let mut codes: Vec<Option<i32>> = Vec::new();
            let mut i: usize = 0;
            while i < values.len()
                invariant
                    i <= values.len(),
                    codes.len() == i,
                    forall|k: int|
                        0 <= k < i ==> #[trigger] codes@[k] == match values@[k] {
                            Some(b) => Some(if b {
                                1i32
                            } else {
                                0i32
                            }),
                            None => None,
                        },
                decreases values.len() - i,
            {
                let code = match values[i] {
                    Some(b) => Some(if b {
                        1i32
                    } else {
                        0i32
                    }),
                    None => None,
                };
                codes.push(code);
                i += 1;
            }
            Ok((ColumnValues::Int32(codes), None))
        },
        other => Err(
            EncodeError::NotCategorical {
                column: column.clone(),
                dtype: crate::rating_model::dtype_of(other),
            },
        ),
    }
}

/// The encoded levels stay readable: under levels derived from a column, every text
/// the column carries is coded to the position of that text, and the code reads back
/// as the same text.
pub proof fn law_encoding_round_trip(levels: Seq<(String, i32)>, values: Seq<Option<String>>, i: int)
    requires
        derived_from(levels, values),
        0 <= i < values.len(),
        values[i] is Some,
    ensures
        code_of_value(levels, values[i]) != UNSEEN_CODE,
        label_of_first(levels, code_of_value(levels, values[i])) == Some(values[i]->0@),
{
    let t = values[i]->0@;
    let names = levels.map_values(|e: (String, i32)| e.0);
    assert(carries_text(values, t));
    assert(holds_text(names, t));
    let k = choose|k: int| 0 <= k < names.len() && (#[trigger] names[k])@ == t;
    assert(levels[k].0 == names[k]);
    lemma_enumerated_one_to_one(levels);
    lemma_one_to_one_lookup(levels, k);
    assert(levels[k].1 == k);
}

/// The texts of a level list, in order.
pub open spec fn level_texts(levels: Seq<(String, i32)>) -> Seq<String> {
    levels.map_values(|e: (String, i32)| e.0)
}

/// Adds every text of `levels` to strictly ascending text.
fn add_texts(acc: &mut Vec<String>, levels: &Levels)
    requires
        strictly_sorted(old(acc)@),
    ensures
        strictly_sorted(final(acc)@),
        final(acc).len() <= old(acc).len() + levels.len(),
        forall|t: Seq<char>|
            holds_text(final(acc)@, t) <==> (holds_text(old(acc)@, t) || holds_text(
                level_texts(levels@),
                t,
            )),
{
    let ghost start = acc@;
    let mut k: usize = 0;
    while k < levels.len()
        invariant
            k <= levels.len(),
            strictly_sorted(acc@),
            acc.len() <= start.len() + k,
            start == old(acc)@,
            forall|t: Seq<char>|
                #![trigger holds_text(acc@, t)]
                holds_text(acc@, t) <==> (holds_text(start, t) || holds_text(
                    level_texts(levels@).take(k as int),
                    t,
                )),
        decreases levels.len() - k,
    {
        let ghost before = acc@;
        assert(forall|t: Seq<char>|
            #![trigger holds_text(before, t)]
            holds_text(before, t) <==> (holds_text(start, t) || holds_text(
                level_texts(levels@).take(k as int),
                t,
            )));
        insert_sorted(acc, levels[k].0.clone());
        proof {
            let all = level_texts(levels@);
            assert(all.take(k + 1) =~= all.take(k as int).push(levels@[k as int].0));
            assert forall|t: Seq<char>| holds_text(acc@, t) <==> (holds_text(start, t) || holds_text(
                all.take(k + 1),
                t,
            )) by {
                let longer = all.take(k + 1);
                let shorter = all.take(k as int);
                assert(holds_text(acc@, t) <==> (holds_text(before, t) || t == levels@[k as int].0@));
                assert(holds_text(before, t) <==> (holds_text(start, t) || holds_text(shorter, t)));
                if holds_text(longer, t) {
                    let j = choose|j: int| 0 <= j < longer.len() && (#[trigger] longer[j])@ == t;
                    if j < k {
                        assert(shorter[j] == longer[j]);
                    } else {
                        assert(longer[j] == levels@[k as int].0);
                    }
                }
                if holds_text(shorter, t) {
                    let j = choose|j: int| 0 <= j < shorter.len() && (#[trigger] shorter[j])@ == t;
                    assert(longer[j] == shorter[j]);
                }
                if t == levels@[k as int].0@ {
                    assert(longer[k as int] == levels@[k as int].0);
                }
            }
        }
        k += 1;
    }
    proof {
        assert(level_texts(levels@).take(levels.len() as int) =~= level_texts(levels@));
    }
}

/// Every text the levels for `column` carry in `e`.
pub open spec fn encodes_level(e: Encoding, column: Seq<char>, t: Seq<char>) -> bool {
    e.spec_levels(column) matches Some(l) && holds_text(level_texts(l), t)
}

/// One deterministic encoding for two models that may have seen different subsets of
/// the same categorical drivers.
///
/// Level text is the identity; codes are private to the model that produced them. So
/// for every column either encoding carries, the merged levels are every text either
/// carries, once each, in ascending order and coded by position.
pub fn merged_encoding(left: &Encoding, right: &Encoding) -> (res: Encoding)
    requires
        left.wf(),
        right.wf(),
        forall|k: int| 0 <= k < left.maps.len() ==> (#[trigger] left.maps@[k]).1.len() <= 0x3fff_ffff,
        forall|k: int| 0 <= k < right.maps.len() ==> (#[trigger] right.maps@[k]).1.len() <= 0x3fff_ffff,
    ensures
        res.wf(),
        forall|c: Seq<char>|
            holds_text(column_names(res.maps@), c) <==> (holds_text(column_names(left.maps@), c)
                || holds_text(column_names(right.maps@), c)),
        forall|k: int|
            0 <= k < res.maps.len() ==> enumerated((#[trigger] res.maps@[k]).1@) && forall|t: Seq<char>|
                holds_text(level_texts(res.maps@[k].1@), t) <==> (encodes_level(
                    *left,
                    res.maps@[k].0@,
                    t,
                ) || encodes_level(*right, res.maps@[k].0@, t)),
{
    let mut columns: Vec<String> = Vec::new();
    let mut k: usize = 0;
    while k < left.maps.len()
        invariant
            k <= left.maps.len(),
            strictly_sorted(columns@),
            forall|c: Seq<char>|
                holds_text(columns@, c) <==> holds_text(column_names(left.maps@).take(k as int), c),
        decreases left.maps.len() - k,
    {
        insert_sorted(&mut columns, left.maps[k].0.clone());
        proof {
            let all = column_names(left.maps@);
            assert(all.take(k + 1) =~= all.take(k as int).push(left.maps@[k as int].0));
            assert forall|c: Seq<char>| holds_text(columns@, c) <==> holds_text(all.take(k + 1), c) by {
                let longer = all.take(k + 1);
                let shorter = all.take(k as int);
                if holds_text(longer, c) {
                    let j = choose|j: int| 0 <= j < longer.len() && (#[trigger] longer[j])@ == c;
                    if j < k {
                        assert(shorter[j] == longer[j]);
                    }
                }
                if holds_text(shorter, c) {
                    let j = choose|j: int| 0 <= j < shorter.len() && (#[trigger] shorter[j])@ == c;
                    assert(longer[j] == shorter[j]);
                }
                if c == left.maps@[k as int].0@ {
                    assert(longer[k as int] == left.maps@[k as int].0);
                }
            }
        }
        k += 1;
    }
    proof {
        assert(column_names(left.maps@).take(left.maps.len() as int) =~= column_names(left.maps@));
    }
    let mut k: usize = 0;
    while k < right.maps.len()
        invariant
            k <= right.maps.len(),
            strictly_sorted(columns@),
            forall|c: Seq<char>|
                holds_text(columns@, c) <==> (holds_text(column_names(left.maps@), c) || holds_text(
                    column_names(right.maps@).take(k as int),
                    c,
                )),
        decreases right.maps.len() - k,
    {
        insert_sorted(&mut columns, right.maps[k].0.clone());
        proof {
            let all = column_names(right.maps@);
            assert(all.take(k + 1) =~= all.take(k as int).push(right.maps@[k as int].0));
            assert forall|c: Seq<char>| holds_text(columns@, c) <==> (holds_text(
                column_names(left.maps@),
                c,
            ) || holds_text(all.take(k + 1), c)) by {
                let longer = all.take(k + 1);
                let shorter = all.take(k as int);
                if holds_text(longer, c) {
                    let j = choose|j: int| 0 <= j < longer.len() && (#[trigger] longer[j])@ == c;
                    if j < k {
                        assert(shorter[j] == longer[j]);
                    }
                }
                if holds_text(shorter, c) {
                    let j = choose|j: int| 0 <= j < shorter.len() && (#[trigger] shorter[j])@ == c;
                    assert(longer[j] == shorter[j]);
                }
                if c == right.maps@[k as int].0@ {
                    assert(longer[k as int] == right.maps@[k as int].0);
                }
            }
        }
        k += 1;
    }
    proof {
        assert(column_names(right.maps@).take(right.maps.len() as int) =~= column_names(right.maps@));
    }

    let mut maps: Vec<(String, Levels)> = Vec::new();
    let mut j: usize = 0;
    while j < columns.len()
        invariant
            left.wf(),
            right.wf(),
            forall|k: int| 0 <= k < left.maps.len() ==> (#[trigger] left.maps@[k]).1.len() <= 0x3fff_ffff,
            forall|k: int| 0 <= k < right.maps.len() ==> (#[trigger] right.maps@[k]).1.len() <= 0x3fff_ffff,
            j <= columns.len(),
            maps.len() == j,
            forall|k: int| 0 <= k < j ==> (#[trigger] maps@[k]).0 == columns@[k],
            forall|k: int|
                0 <= k < j ==> enumerated((#[trigger] maps@[k]).1@) && forall|t: Seq<char>|
                    holds_text(level_texts(maps@[k].1@), t) <==> (encodes_level(
                        *left,
                        maps@[k].0@,
                        t,
                    ) || encodes_level(*right, maps@[k].0@, t)),
        decreases columns.len() - j,
    {
        let mut texts: Vec<String> = Vec::new();
        assert(strictly_sorted(texts@));
        let from_left = left.levels(&columns[j]);
        let from_right = right.levels(&columns[j]);
        proof {
            if from_left is Some {
                let c = choose|c: int|
                    0 <= c < left.maps.len() && (#[trigger] left.maps@[c]).0@ == columns@[j as int]@;
                assert(left.maps@[c].1.len() <= 0x3fff_ffff);
            }
            if from_right is Some {
                let c = choose|c: int|
                    0 <= c < right.maps.len() && (#[trigger] right.maps@[c]).0@ == columns@[j as int]@;
                assert(right.maps@[c].1.len() <= 0x3fff_ffff);
            }
        }
        if let Some(l) = from_left {
            add_texts(&mut texts, l);
        }
        if let Some(l) = from_right {
            add_texts(&mut texts, l);
        }
        let levels = enumerate_levels(texts);
        proof {
            let names = level_texts(levels@);
            assert forall|t: Seq<char>| holds_text(names, t) <==> holds_text(texts@, t) by {
                if holds_text(names, t) {
                    let i = choose|i: int| 0 <= i < names.len() && (#[trigger] names[i])@ == t;
                    assert(levels@[i].0 == texts@[i]);
                }
                if holds_text(texts@, t) {
                    let i = choose|i: int| 0 <= i < texts.len() && (#[trigger] texts@[i])@ == t;
                    assert(names[i] == levels@[i].0);
                }
            }
        }
        maps.push((columns[j].clone(), levels));
        j += 1;
    }
    let res = Encoding { maps };
    proof {
        assert(column_names(res.maps@) =~= columns@);
    }
    res
}


// ---------------------------------------------------------------- carrying codes across

/// The levels `e` records for `column`, or none.
pub open spec fn levels_or_empty(e: Encoding, column: Seq<char>) -> Seq<(String, i32)> {
    match e.spec_levels(column) {
        Some(l) => l,
        None => Seq::empty(),
    }
}

/// The code `c` takes on the target levels: the text of the last source entry carrying
/// it, then the code of the last target entry for that text.
pub open spec fn remap_code(source: Seq<(String, i32)>, target: Seq<(String, i32)>, c: i32) -> Option<i32> {
    match label_of_last(source, c) {
        Some(t) => code_of_last(target, t),
        None => None,
    }
}

/// A null, or a code with a level on both sides.
pub open spec fn code_remaps(source: Seq<(String, i32)>, target: Seq<(String, i32)>, v: Option<i32>) -> bool {
    match v {
        Some(c) => remap_code(source, target, c) is Some,
        None => true,
    }
}

/// A value carried onto the target levels; nulls stay null.
pub open spec fn remapped(source: Seq<(String, i32)>, target: Seq<(String, i32)>, v: Option<i32>) -> Option<i32> {
    match v {
        Some(c) => remap_code(source, target, c),
        None => None,
    }
}

/// Whether a table column can be carried onto the target encoding: a column the source
/// encoding does not know is left alone; one it knows must hold codes, each with a level.
pub open spec fn column_remaps(col: FrameColumn, source: Encoding, target: Encoding) -> bool {
    match source.spec_levels(col.name@) {
        None => true,
        Some(old) => match col.values {
            ColumnValues::Int32(v) => forall|i: int|
                0 <= i < v.len() ==> code_remaps(old, levels_or_empty(target, col.name@), #[trigger] v@[i]),
            _ => false,
        },
    }
}

/// `after` is `before` carried onto the target encoding.
pub open spec fn column_remapped(before: FrameColumn, after: FrameColumn, source: Encoding, target: Encoding) -> bool {
    &&& after.name@ == before.name@
    &&& match source.spec_levels(before.name@) {
        None => after.values == before.values,
        Some(old) => match (before.values, after.values) {
            (ColumnValues::Int32(v), ColumnValues::Int32(w)) => {
                &&& w.len() == v.len()
                &&& forall|i: int|
                    0 <= i < v.len() ==> #[trigger] w@[i] == remapped(
                        old,
                        levels_or_empty(target, before.name@),
                        v@[i],
                    )
            },
            _ => false,
        },
    }
}

/// Why `col` cannot be carried across, if `e` says so truly.
pub open spec fn column_fault(col: FrameColumn, source: Encoding, target: Encoding, e: EncodeError) -> bool {
    match e {
        EncodeError::NotCodes { column, dtype } => {
            &&& col.name@ == column@
            &&& source.spec_levels(column@) is Some
            &&& !(col.values is Int32)
            &&& dtype == spec_dtype(col.values)
        },
        EncodeError::UnknownCode { column, code } => {
            &&& col.name@ == column@
            &&& source.spec_levels(column@) is Some
            &&& col.values is Int32
            &&& exists|i: int|
                0 <= i < col.values->Int32_0.len() && #[trigger] col.values->Int32_0@[i] == Some(
                    code,
                ) && remap_code(
                    source.spec_levels(column@)->0,
                    levels_or_empty(target, column@),
                    code,
                ) is None
        },
        EncodeError::NotCategorical { .. } => false,
    }
}

/// Every column of the table can be carried across.
pub open spec fn table_remaps(t: RatingTable, source: Encoding, target: Encoding) -> bool {
    forall|j: int| 0 <= j < t.data.columns.len() ==> column_remaps(#[trigger] t.data.columns@[j], source, target)
}

/// `after` is `before` with every column carried across and nothing else changed.
pub open spec fn table_remapped(before: RatingTable, after: RatingTable, source: Encoding, target: Encoding) -> bool {
    &&& after.data.height == before.data.height
    &&& after.data.columns.len() == before.data.columns.len()
    &&& forall|j: int|
        0 <= j < before.data.columns.len() ==> column_remapped(
            #[trigger] before.data.columns@[j],
            after.data.columns@[j],
            source,
            target,
        )
    &&& after.numeric_columns@ == before.numeric_columns@
    &&& after.categorical_columns@ == before.categorical_columns@
    &&& after.metadata == before.metadata
    &&& after.row_metadata == before.row_metadata
}

/// Some column of the table truly fails as `e` says.
pub open spec fn table_fault(t: RatingTable, source: Encoding, target: Encoding, e: EncodeError) -> bool {
    exists|j: int| 0 <= j < t.data.columns.len() && column_fault(#[trigger] t.data.columns@[j], source, target, e)
}

impl Encoding {
    /// The levels at a position are the levels of that column.
    pub proof fn lemma_levels_at(&self, k: int)
        requires
            self.wf(),
            0 <= k < self.maps.len(),
        ensures
            self.spec_levels(self.maps@[k].0@) == Some(self.maps@[k].1@),
    {
        assert(exists|c: int| 0 <= c < self.maps.len() && (#[trigger] self.maps@[c]).0@ == self.maps@[k].0@);
        let c = choose|c: int| 0 <= c < self.maps.len() && (#[trigger] self.maps@[c]).0@ == self.maps@[k].0@;
        self.lemma_unique(c, k);
    }
}

/// The label a code reads as, then the code that label has on the target.
fn remap_codes(codes: &Vec<Option<i32>>, source: &Levels, target: &Levels) -> (res: Result<Vec<Option<i32>>, i32>)
    ensures
        match res {
            Ok(w) => {
                &&& w.len() == codes.len()
                &&& forall|i: int| 0 <= i < codes.len() ==> #[trigger] w@[i] == remapped(source@, target@, codes@[i])
                &&& forall|i: int| 0 <= i < codes.len() ==> code_remaps(source@, target@, #[trigger] codes@[i])
            },
            Err(c) => exists|i: int|
                0 <= i < codes.len() && #[trigger] codes@[i] == Some(c) && remap_code(source@, target@, c) is None,
        },
        (forall|i: int| 0 <= i < codes.len() ==> code_remaps(source@, target@, #[trigger] codes@[i])) ==> res is Ok,
{
    let mut out: Vec<Option<i32>> = Vec::new();
    let mut i: usize = 0;
    while i < codes.len()
        invariant
            i <= codes.len(),
            out.len() == i,
            forall|k: int| 0 <= k < i ==> #[trigger] out@[k] == remapped(source@, target@, codes@[k]),
            forall|k: int| 0 <= k < i ==> code_remaps(source@, target@, #[trigger] codes@[k]),
        decreases codes.len() - i,
    {
        match codes[i] {
            None => out.push(None),
            Some(c) => {
                let found = match last_label(source, c) {
                    Some(t) => last_code(target, t),
                    None => None,
                };
                match found {
                    Some(d) => out.push(Some(d)),
                    None => {
                        assert(codes@[i as int] == Some(c));
                        return Err(c);
                    },
                }
            },
        }
        i += 1;
    }
    Ok(out)
}

/// Columns whose variants and names agree yield the same feature indices.
proof fn lemma_same_shape(a: Seq<FrameColumn>, b: Seq<FrameColumn>, k: int)
    requires
        0 <= k <= a.len(),
        a.len() == b.len(),
        forall|j: int|
            0 <= j < a.len() ==> (#[trigger] a[j]).name@ == b[j].name@ && (a[j].values is Float
                <==> b[j].values is Float) && (a[j].values is Int32 <==> b[j].values is Int32),
    ensures
        crate::rating_model::numeric_indices(a, k) == crate::rating_model::numeric_indices(b, k),
        crate::rating_model::categorical_indices(a, k) == crate::rating_model::categorical_indices(b, k),
    decreases k,
{
    if k > 0 {
        lemma_same_shape(a, b, k - 1);
        assert(a[k - 1].name@ == b[k - 1].name@);
    }
}

/// Carries one table's code columns onto the target encoding, column by column in the
/// order the source encoding lists them.
fn remap_table(table: RatingTable, source: &Encoding, target: &Encoding) -> (res: Result<RatingTable, EncodeError>)
    requires
        table.wf(),
        source.wf(),
        target.wf(),
        forall|k: int| 0 <= k < source.maps.len() ==> target.spec_levels((#[trigger] source.maps@[k]).0@) is Some,
    ensures
        match res {
            Ok(t) => t.wf() && table_remapped(table, t, *source, *target) && table_remaps(table, *source, *target),
            Err(e) => table_fault(table, *source, *target, e),
        },
        table_remaps(table, *source, *target) ==> res is Ok,
{
    let ghost before = table;
    let mut work = table;
    let mut k: usize = 0;
    while k < source.maps.len()
        invariant
            before == table,
            before.wf(),
            source.wf(),
            target.wf(),
            forall|k: int| 0 <= k < source.maps.len() ==> target.spec_levels((#[trigger] source.maps@[k]).0@) is Some,
            k <= source.maps.len(),
            work.data.wf(),
            work.data.height == before.data.height,
            work.data.columns.len() == before.data.columns.len(),
            work.numeric_columns == before.numeric_columns,
            work.categorical_columns == before.categorical_columns,
            work.metadata == before.metadata,
            work.row_metadata == before.row_metadata,
            forall|j: int|
                0 <= j < before.data.columns.len() ==> {
                    let b = #[trigger] before.data.columns@[j];
                    let a = work.data.columns@[j];
                    &&& a.name@ == b.name@
                    &&& (a.values is Float <==> b.values is Float)
                    &&& (a.values is Int32 <==> b.values is Int32)
                    &&& if exists|m: int| 0 <= m < k && (#[trigger] source.maps@[m]).0@ == b.name@ {
                        column_remapped(b, a, *source, *target) && column_remaps(b, *source, *target)
                    } else {
                        a == b
                    }
                },
        decreases source.maps.len() - k,
    {
        proof {
            source.lemma_levels_at(k as int);
        }
        let name = &source.maps[k].0;
        match work.data.index_of(name) {
            None => {},
            Some(j) => {
                let ghost b = before.data.columns@[j as int];
                proof {
                    // Column `j` has not been touched yet: no earlier source entry names it.
                    if exists|m: int| 0 <= m < k && (#[trigger] source.maps@[m]).0@ == b.name@ {
                        let m = choose|m: int| 0 <= m < k && (#[trigger] source.maps@[m]).0@ == b.name@;
                        source.lemma_unique(m, k as int);
                    }
                    assert(work.data.columns@[j as int] == b);
                }
                let col = work.data.columns.remove(j);
                let target_levels = target.levels(name);
                proof {
                    assert(target.spec_levels(source.maps@[k as int].0@) is Some);
                }
                let target_levels = target_levels.unwrap();
                match col.values {
                    ColumnValues::Int32(codes) => {
                        match remap_codes(&codes, &source.maps[k].1, target_levels) {
                            Ok(new_codes) => {
                                work.data.columns.insert(
                                    j,
                                    FrameColumn { name: col.name, values: ColumnValues::Int32(new_codes) },
                                );
                            },
                            Err(code) => {
                                let e = EncodeError::UnknownCode { column: col.name, code };
                                assert(column_fault(before.data.columns@[j as int], *source, *target, e));
                                assert(table_fault(before, *source, *target, e));
                                return Err(e);
                            },
                        }
                    },
                    other => {
                        let dtype = dtype_of(&other);
                        let e = EncodeError::NotCodes { column: col.name, dtype };
                        assert(column_fault(before.data.columns@[j as int], *source, *target, e));
                        assert(table_fault(before, *source, *target, e));
                        return Err(e);
                    },
                }
                proof {
                    let cols = work.data.columns@;
                    assert forall|a: int, c: int|
                        0 <= a < cols.len() && 0 <= c < cols.len() && a != c implies cols[a].name@
                        != cols[c].name@ by {
                        let ba = before.data.columns@[a];
                        let bc = before.data.columns@[c];
                        assert(cols[a].name@ == ba.name@);
                        assert(cols[c].name@ == bc.name@);
                    }
                    assert forall|jj: int| 0 <= jj < cols.len() implies (#[trigger] cols[jj]).values.spec_len()
                        == work.data.height by {
                        assert(before.data.columns@[jj].values.spec_len() == before.data.height);
                    }
                }
            },
        }
        proof {
            assert forall|j: int| 0 <= j < before.data.columns.len() implies {
                let b = #[trigger] before.data.columns@[j];
                let a = work.data.columns@[j];
                &&& a.name@ == b.name@
                &&& (a.values is Float <==> b.values is Float)
                &&& (a.values is Int32 <==> b.values is Int32)
                &&& if exists|m: int| 0 <= m < k + 1 && (#[trigger] source.maps@[m]).0@ == b.name@ {
                    column_remapped(b, a, *source, *target) && column_remaps(b, *source, *target)
                } else {
                    a == b
                }
            } by {
                let b = before.data.columns@[j];
                if b.name@ == source.maps@[k as int].0@ {
                    assert(source.maps@[k as int].0@ == b.name@);
                }
                if exists|m: int| 0 <= m < k && (#[trigger] source.maps@[m]).0@ == b.name@ {
                    let m = choose|m: int| 0 <= m < k && (#[trigger] source.maps@[m]).0@ == b.name@;
                    assert(0 <= m < k + 1);
                }
            }
        }
        k += 1;
    }
    proof {
        let cols = work.data.columns@;
        assert forall|j: int| 0 <= j < before.data.columns.len() implies column_remapped(
            #[trigger] before.data.columns@[j],
            cols[j],
            *source,
            *target,
        ) && column_remaps(before.data.columns@[j], *source, *target) by {
            let b = before.data.columns@[j];
            if source.spec_levels(b.name@) is Some {
                let m = choose|m: int| 0 <= m < source.maps.len() && (#[trigger] source.maps@[m]).0@ == b.name@;
                assert(0 <= m < k);
            }
        }
        let n = cols.len() as int;
        lemma_same_shape(before.data.columns@, cols, n);
        before.lemma_wf();
        let ni = crate::rating_model::numeric_indices(cols, n);
        let ci = crate::rating_model::categorical_indices(cols, n);
        assert forall|j: int| 0 <= j < work.numeric_columns.len() implies (#[trigger] work.numeric_columns@[j]).0@
            == cols[ni[j]].name@ by {
            assert(before.numeric_columns@[j].1 as int == ni[j]);
            assert(before.data.columns@[ni[j]].name@ == cols[ni[j]].name@);
        }
        assert forall|j: int| 0 <= j < work.categorical_columns.len() implies (#[trigger] work.categorical_columns@[j]).0@
            == cols[ci[j]].name@ by {
            assert(before.categorical_columns@[j].1 as int == ci[j]);
            assert(before.data.columns@[ci[j]].name@ == cols[ci[j]].name@);
        }
    }
    Ok(work)
}

/// Rewrites every encoded table column onto a shared encoding, so the tables of two
/// models can be consolidated: each code is read as its level text on `source`, then
/// given that text's code on `target`. Nulls stay null.
///
/// A column the source encoding knows must hold 32-bit codes (`NotCodes` otherwise),
/// and each code must have a level on both sides (`UnknownCode` otherwise). Which fault
/// is reported first follows the tables' order, then the source encoding's column
/// order, then row order.
pub fn remap_model_encoding(model: RatingModel, source: &Encoding, target: &Encoding) -> (res: Result<
    RatingModel,
    EncodeError,
>)
    requires
        model.wf(),
        source.wf(),
        target.wf(),
        forall|k: int| 0 <= k < source.maps.len() ==> target.spec_levels((#[trigger] source.maps@[k]).0@) is Some,
    ensures
        match res {
            Ok(m) => {
                &&& m.wf()
                &&& m.link_function == model.link_function
                &&& m.tables.len() == model.tables.len()
                &&& forall|t: int|
                    0 <= t < model.tables.len() ==> table_remapped(
                        #[trigger] model.tables@[t],
                        m.tables@[t],
                        *source,
                        *target,
                    )
            },
            Err(e) => exists|t: int|
                0 <= t < model.tables.len() && table_fault(#[trigger] model.tables@[t], *source, *target, e),
        },
        res is Ok <==> forall|t: int|
            0 <= t < model.tables.len() ==> table_remaps(#[trigger] model.tables@[t], *source, *target),
{
    let ghost before = model.tables@;
    let link_function = model.link_function;
    let mut tables = model.tables;
    let mut t: usize = 0;
    while t < tables.len()
        invariant
            before == model.tables@,
            source.wf(),
            target.wf(),
            forall|k: int| 0 <= k < source.maps.len() ==> target.spec_levels((#[trigger] source.maps@[k]).0@) is Some,
            tables.len() == before.len(),
            t <= tables.len(),
            forall|u: int| 0 <= u < before.len() ==> (#[trigger] before[u]).wf(),
            forall|u: int| t <= u < before.len() ==> #[trigger] tables@[u] == before[u],
            forall|u: int|
                0 <= u < t ==> (#[trigger] tables@[u]).wf() && table_remapped(before[u], tables@[u], *source, *target)
                    && table_remaps(before[u], *source, *target),
        decreases tables.len() - t,
    {
        let table = tables.remove(t);
        match remap_table(table, source, target) {
            Ok(done) => {
                tables.insert(t, done);
            },
            Err(e) => {
                assert(table_fault(before[t as int], *source, *target, e));
                return Err(e);
            },
        }
        t += 1;
    }
    assert forall|u: int| 0 <= u < before.len() implies table_remaps(#[trigger] before[u], *source, *target) by {
        assert(tables@[u].wf());
    }
    Ok(RatingModel { tables, link_function })
}

/// Carrying codes across keeps their meaning: when the target's levels are one to one
/// (as merged levels are), a remapped code reads on the target as the same level text it
/// read as on the source.
pub proof fn law_remap_keeps_level(source: Seq<(String, i32)>, target: Seq<(String, i32)>, c: i32)
    requires
        one_to_one(target),
        remap_code(source, target, c) is Some,
    ensures
        label_of_last(target, remap_code(source, target, c)->0) == label_of_last(source, c),
        label_of_first(target, remap_code(source, target, c)->0) == label_of_last(source, c),
{
    let t = label_of_last(source, c)->0;
    let k = lemma_code_of_last_entry(target, t);
    lemma_one_to_one_lookup(target, k);
}

/// A code found for `t` is the code of an entry for `t`.
proof fn lemma_code_of_last_entry(levels: Seq<(String, i32)>, t: Seq<char>) -> (k: int)
    requires
        code_of_last(levels, t) is Some,
    ensures
        0 <= k < levels.len(),
        levels[k].0@ == t,
        levels[k].1 == code_of_last(levels, t)->0,
    decreases levels.len(),
{
    if levels.last().0@ == t {
        levels.len() - 1
    } else {
        let k = lemma_code_of_last_entry(levels.drop_last(), t);
        assert(levels.drop_last()[k] == levels[k]);
        k
    }
}

} // verus!
