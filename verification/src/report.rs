//! One verdict for a fitted model, from everything found about it.
//!
//! Findings from the plan check, from validation, and from the fit itself are put in
//! one list, most severe first; a finding reported twice is reported once; and the
//! whole list is reduced to one [`Verdict`] to branch on.
use crate::plan::{rank, Issue, Severity};
use crate::text::{
    lemma_text_lt_irreflexive, lemma_text_lt_transitive, push_char, push_text, text_is, text_less,
    text_lt, decimal, push_decimal,
};
use vstd::prelude::*;

verus! {

broadcast use vstd::seq_lib::group_to_multiset_ensures;

/// Whether the model can be used, in one value.
#[derive(Debug, Clone, Copy, PartialEq, Eq, Structural)]
pub enum Verdict {
    /// Nothing found that should stop it being used.
    Usable,
    /// Usable, but findings belong in whatever is reported to a person.
    UsableWithCaveats,
    /// Something is wrong enough that the model should not be used as it stands.
    NotUsable,
}

impl Verdict {
    pub fn as_str(&self) -> (res: &'static str)
        ensures
            res@ == match self {
                Verdict::Usable => "usable"@,
                Verdict::UsableWithCaveats => "usable_with_caveats"@,
                Verdict::NotUsable => "not_usable"@,
            },
    {
        match self {
            Verdict::Usable => "usable",
            Verdict::UsableWithCaveats => "usable_with_caveats",
            Verdict::NotUsable => "not_usable",
        }
    }
}

/// A finding, wherever it came from.
#[derive(Debug, Clone)]
pub struct Finding {
    pub severity: Severity,
    pub code: String,
    pub message: String,
    /// `plan` for something found before fitting, `fit` or `validation` after.
    pub stage: String,
}

/// The stage a validation finding belongs to, by its code.
pub open spec fn spec_stage_of(code: Seq<char>) -> Seq<char> {
    if code == "not_converged"@ || code == "aliased_levels"@ || code == "unfitted_levels"@ {
        "fit"@
    } else {
        "validation"@
    }
}

/// Which stage a validation finding really belongs to, so the report can say where to
/// go and fix it: the fit's own faults are the fit's.
pub fn stage_of(code: &String) -> (res: &'static str)
    ensures
        res@ == spec_stage_of(code@),
{
    if text_is(code, "not_converged") || text_is(code, "aliased_levels") || text_is(code, "unfitted_levels") {
        "fit"
    } else {
        "validation"
    }
}

/// A finding carrying an issue's severity, code and message, from `stage`.
pub open spec fn carries(f: Finding, severity: Severity, code: Seq<char>, message: Seq<char>, stage: Seq<char>) -> bool {
    &&& f.severity == severity
    &&& f.code@ == code
    &&& f.message@ == message
    &&& f.stage@ == stage
}

fn finding_from(issue: &Issue, stage: &str) -> (res: Finding)
    ensures
        carries(res, issue.severity, issue.code@, issue.message@, stage@),
{
    Finding {
        severity: issue.severity,
        code: issue.code.clone(),
        message: issue.message.clone(),
        stage: String::from_str(stage),
    }
}

/// Every finding about a model, before ordering: the plan check's findings (stage
/// `plan`); then either validation's, each at the stage its code belongs to, or, when
/// the model was not validated, `not_validated` (medium) and, for a fit that did not
/// converge, `not_converged` (high) with the message given.
pub fn collect_findings(plan: Option<&Vec<Issue>>, validation: Option<&Vec<Issue>>, not_converged: Option<String>) -> (res: Vec<Finding>)
    ensures
        ({
            let p = match plan {
                Some(v) => v@,
                None => Seq::empty(),
            };
            &&& forall|k: int|
                0 <= k < p.len() ==> carries(#[trigger] res@[k], p[k].severity, p[k].code@, p[k].message@, "plan"@)
            &&& match validation {
                Some(w) => {
                    &&& res.len() == p.len() + w.len()
                    &&& forall|k: int|
                        0 <= k < w.len() ==> carries(
                            #[trigger] res@[p.len() + k],
                            w@[k].severity,
                            w@[k].code@,
                            w@[k].message@,
                            spec_stage_of(w@[k].code@),
                        )
                },
                None => {
                    &&& res.len() == p.len() + 1 + if not_converged is Some { 1int } else { 0 }
                    &&& res@[p.len() as int].severity == Severity::Medium
                    &&& res@[p.len() as int].code@ == "not_validated"@
                    &&& res@[p.len() as int].stage@ == "validation"@
                    &&& not_converged matches Some(m) ==> carries(
                        res@[p.len() as int + 1],
                        Severity::High,
                        "not_converged"@,
                        m@,
                        "fit"@,
                    )
                },
            }
        }),
{
    let mut out: Vec<Finding> = Vec::new();
    let ghost p = match plan {
        Some(v) => v@,
        None => Seq::empty(),
    };
    if let Some(issues) = plan {
        let mut k: usize = 0;
        while k < issues.len()
            invariant
                p == issues@,
                k <= issues.len(),
                out.len() == k,
                forall|j: int|
                    0 <= j < k ==> carries(#[trigger] out@[j], p[j].severity, p[j].code@, p[j].message@, "plan"@),
            decreases issues.len() - k,
        {
            out.push(finding_from(&issues[k], "plan"));
            k += 1;
        }
    }
    let base = out.len();
    match validation {
        Some(warnings) => {
            let mut k: usize = 0;
            while k < warnings.len()
                invariant
                    base == p.len(),
                    k <= warnings.len(),
                    out.len() == base + k,
                    forall|j: int|
                        0 <= j < base ==> carries(#[trigger] out@[j], p[j].severity, p[j].code@, p[j].message@, "plan"@),
                    forall|j: int|
                        0 <= j < k ==> carries(
                            #[trigger] out@[base + j],
                            warnings@[j].severity,
                            warnings@[j].code@,
                            warnings@[j].message@,
                            spec_stage_of(warnings@[j].code@),
                        ),
                decreases warnings.len() - k,
            {
                let stage = stage_of(&warnings[k].code);
                out.push(finding_from(&warnings[k], stage));
                proof {
                    assert(out@[base + k] == out@[out.len() - 1]);
                }
                k += 1;
            }
        },
        None => {
            out.push(Finding {
                severity: Severity::Medium,
                code: String::from_str("not_validated"),
                message: String::from_str(
                    "The model has not been measured against held-out data. Validate it before treating it as ready for use.",
                ),
                stage: String::from_str("validation"),
            });
            if let Some(message) = not_converged {
                out.push(Finding {
                    severity: Severity::High,
                    code: String::from_str("not_converged"),
                    message,
                    stage: String::from_str("fit"),
                });
            }
        },
    }
    out
}

/// `a` comes strictly before `b`: more severe, or as severe with a code earlier in
/// text order.
pub open spec fn before(a: Finding, b: Finding) -> bool {
    rank(a.severity) > rank(b.severity) || (rank(a.severity) == rank(b.severity) && text_lt(
        a.code@,
        b.code@,
    ))
}

proof fn lemma_before_transitive(a: Finding, b: Finding, c: Finding)
    requires
        before(a, b),
        before(b, c),
    ensures
        before(a, c),
{
    if rank(a.severity) == rank(b.severity) && rank(b.severity) == rank(c.severity) {
        lemma_text_lt_transitive(a.code@, b.code@, c.code@);
    }
}

fn comes_before(a: &Finding, b: &Finding) -> (res: bool)
    ensures
        res == before(*a, *b),
{
    let ra: u8 = match a.severity {
        Severity::Low => 0,
        Severity::Medium => 1,
        Severity::High => 2,
    };
    let rb: u8 = match b.severity {
        Severity::Low => 0,
        Severity::Medium => 1,
        Severity::High => 2,
    };
    ra > rb || (ra == rb && text_less(a.code.as_str(), b.code.as_str()))
}

/// No finding comes strictly before one listed ahead of it.
pub open spec fn in_order(s: Seq<Finding>) -> bool {
    forall|i: int, j: int| 0 <= i < j < s.len() ==> !before(s[j], s[i])
}

/// Two findings that say the same thing.
pub open spec fn same_finding(a: Finding, b: Finding) -> bool {
    a.code@ == b.code@ && a.message@ == b.message@
}

/// The findings with each run of ones saying the same thing kept once: an item is
/// dropped when it says what the last one kept says.
pub open spec fn deduped(s: Seq<Finding>) -> Seq<Finding>
    decreases s.len(),
{
    if s.len() == 0 {
        Seq::empty()
    } else {
        let d = deduped(s.drop_last());
        if d.len() > 0 && same_finding(d.last(), s.last()) {
            d
        } else {
            d.push(s.last())
        }
    }
}

/// Where `x` goes among ordered findings, searching from `from`: before the first one
/// it comes strictly before, else at the end.
pub open spec fn insert_pos(s: Seq<Finding>, x: Finding, from: int) -> int
    decreases s.len() - from,
{
    if from < 0 || from >= s.len() {
        s.len() as int
    } else if before(x, s[from]) {
        from
    } else {
        insert_pos(s, x, from + 1)
    }
}

/// The findings ordered by insertion, one at a time in the order given, each before
/// the first already placed that it comes strictly before: findings that tie keep the
/// order they were given in.
pub open spec fn stable_sorted(s: Seq<Finding>) -> Seq<Finding>
    decreases s.len(),
{
    if s.len() == 0 {
        Seq::empty()
    } else {
        let t = stable_sorted(s.drop_last());
        t.insert(insert_pos(t, s.last(), 0), s.last())
    }
}

/// Orders findings most severe first, then by code, keeping the order of findings
/// with the same severity and code, and keeps one of each run that says the same thing.
/// A finding reported before the fit and again after it is one finding.
pub fn order_findings(findings: Vec<Finding>) -> (res: Vec<Finding>)
    ensures
        exists|sorted: Seq<Finding>|
            #![trigger deduped(sorted)]
            in_order(sorted) && sorted.to_multiset() == findings@.to_multiset() && res@ == deduped(sorted),
        res@ == deduped(stable_sorted(findings@)),
{
    let ghost all = findings@;
    let mut rest = findings;
    let mut sorted: Vec<Finding> = Vec::new();
    let n = rest.len();
    let mut i: usize = 0;
    while i < n
        invariant
            n == all.len(),
            i <= n,
            rest@ == all.skip(i as int),
            in_order(sorted@),
            sorted@.to_multiset() == all.take(i as int).to_multiset(),
            sorted@ == stable_sorted(all.take(i as int)),
        decreases n - i,
    {
        proof {
            assert(rest@[0] == all[i as int]);
        }
        let item = rest.remove(0);
        proof {
            assert(rest@ =~= all.skip(i + 1));
        }
        let mut p: usize = 0;
        while p < sorted.len() && !comes_before(&item, &sorted[p])
            invariant
                p <= sorted.len(),
                forall|q: int| 0 <= q < p ==> !before(item, #[trigger] sorted@[q]),
                insert_pos(sorted@, item, 0) == insert_pos(sorted@, item, p as int),
            decreases sorted.len() - p,
        {
            p += 1;
        }
        proof {
            assert(insert_pos(sorted@, item, 0) == p);
            assert(all.take(i + 1).drop_last() =~= all.take(i as int));
            assert(all.take(i + 1).last() == item);
        }
        let ghost old_sorted = sorted@;
        sorted.insert(p, item);
        proof {
            let s = sorted@;
            assert forall|a: int, b: int| 0 <= a < b < s.len() implies !before(s[b], s[a]) by {
                if b == p {
                    assert(s[a] == old_sorted[a]);
                } else if a == p {
                    assert(s[b] == old_sorted[b - 1]);
                    assert(before(item, old_sorted[p as int]));
                    if p + 1 < b {
                        assert(!before(old_sorted[b - 1], old_sorted[p as int]));
                    }
                    if before(old_sorted[b - 1], item) {
                        lemma_before_transitive(old_sorted[b - 1], item, old_sorted[p as int]);
                        lemma_text_lt_irreflexive(old_sorted[p as int].code@);
                    }
                } else if a < p && b < p {
                    assert(s[a] == old_sorted[a] && s[b] == old_sorted[b]);
                } else if a < p {
                    assert(s[a] == old_sorted[a] && s[b] == old_sorted[b - 1]);
                } else {
                    assert(s[a] == old_sorted[a - 1] && s[b] == old_sorted[b - 1]);
                }
            }
            assert(s.remove(p as int) =~= old_sorted);
            assert(s.to_multiset() =~= old_sorted.to_multiset().insert(item));
            assert(all.take(i + 1) =~= all.take(i as int).push(all[i as int]));
        }
        i += 1;
    }
    proof {
        assert(all.take(n as int) =~= all);
    }
    let ghost sorted_view = sorted@;
    assert(sorted_view == stable_sorted(all));
    let mut out: Vec<Finding> = Vec::new();
    let mut rest = sorted;
    let mut k: usize = 0;
    let m = rest.len();
    while k < m
        invariant
            m == sorted_view.len(),
            k <= m,
            rest@ == sorted_view.skip(k as int),
            out@ == deduped(sorted_view.take(k as int)),
        decreases m - k,
    {
        proof {
            assert(rest@[0] == sorted_view[k as int]);
            assert(sorted_view.take(k + 1).drop_last() =~= sorted_view.take(k as int));
        }
        let item = rest.remove(0);
        proof {
            assert(rest@ =~= sorted_view.skip(k + 1));
        }
        let repeat = match out.last() {
            Some(last) => last.code == item.code && last.message == item.message,
            None => false,
        };
        if !repeat {
            out.push(item);
        }
        k += 1;
    }
    proof {
        assert(sorted_view.take(m as int) =~= sorted_view);
    }
    out
}

/// Every finding kept is one of the findings given.
proof fn lemma_deduped_from(s: Seq<Finding>)
    ensures
        forall|k: int| 0 <= k < deduped(s).len() ==> s.contains(#[trigger] deduped(s)[k]),
        deduped(s).len() <= s.len(),
    decreases s.len(),
{
    if s.len() > 0 {
        let rest = s.drop_last();
        lemma_deduped_from(rest);
        let d = deduped(rest);
        assert forall|k: int| 0 <= k < deduped(s).len() implies s.contains(#[trigger] deduped(s)[k]) by {
            if k < d.len() {
                assert(deduped(s)[k] == d[k]);
                let j = choose|j: int| 0 <= j < rest.len() && rest[j] == d[k];
                assert(s[j] == rest[j]);
            } else {
                assert(deduped(s)[k] == s.last());
                assert(s[s.len() - 1] == s.last());
            }
        }
    }
}

/// A finding reported twice in a row is reported once: no two neighbours of the
/// ordered findings say the same thing.
pub proof fn law_findings_once(s: Seq<Finding>)
    ensures
        forall|k: int| 0 <= k < deduped(s).len() - 1 ==> !same_finding(#[trigger] deduped(s)[k], deduped(s)[k + 1]),
    decreases s.len(),
{
    if s.len() > 0 {
        let rest = s.drop_last();
        law_findings_once(rest);
        let d = deduped(rest);
        assert forall|k: int| 0 <= k < deduped(s).len() - 1 implies !same_finding(#[trigger] deduped(s)[k], deduped(s)[k + 1]) by {
            if k + 1 < d.len() {
                assert(deduped(s)[k] == d[k] && deduped(s)[k + 1] == d[k + 1]);
            } else {
                assert(deduped(s)[k] == d.last());
            }
        }
    }
}

/// Keeping one of each run keeps the order: findings in order stay in order, most
/// severe first.
pub proof fn law_dedup_keeps_order(s: Seq<Finding>)
    requires
        in_order(s),
    ensures
        in_order(deduped(s)),
    decreases s.len(),
{
    if s.len() > 0 {
        let rest = s.drop_last();
        assert(in_order(rest)) by {
            assert forall|i: int, j: int| 0 <= i < j < rest.len() implies !before(rest[j], rest[i]) by {
                assert(rest[i] == s[i] && rest[j] == s[j]);
            }
        }
        law_dedup_keeps_order(rest);
        lemma_deduped_from(rest);
        let d = deduped(rest);
        let e = deduped(s);
        assert forall|i: int, j: int| 0 <= i < j < e.len() implies !before(e[j], e[i]) by {
            if j < d.len() {
                assert(e[i] == d[i] && e[j] == d[j]);
            } else {
                assert(e[j] == s.last());
                assert(e[i] == d[i]);
                assert(rest.contains(d[i]));
                let m = choose|m: int| 0 <= m < rest.len() && rest[m] == d[i];
                assert(s[m] == d[i]);
                assert(s[s.len() - 1] == s.last());
            }
        }
    }
}

/// The verdict the findings give: not usable on any high finding, usable with caveats
/// on any medium one, usable otherwise.
pub open spec fn spec_verdict(findings: Seq<Finding>) -> Verdict {
    if exists|k: int| 0 <= k < findings.len() && (#[trigger] findings[k]).severity == Severity::High {
        Verdict::NotUsable
    } else if exists|k: int| 0 <= k < findings.len() && (#[trigger] findings[k]).severity == Severity::Medium {
        Verdict::UsableWithCaveats
    } else {
        Verdict::Usable
    }
}

/// Some finding, anywhere among them, has this severity.
pub open spec fn has_severity(findings: Seq<Finding>, s: Severity) -> bool {
    exists|k: int| 0 <= k < findings.len() && (#[trigger] findings[k]).severity == s
}

/// The verdict follows the worst severity found, wherever it stands: not usable on any
/// high finding; with no high one, usable with caveats on any medium finding; usable
/// when every finding is low, or there are none.
pub proof fn law_verdict_by_worst(findings: Seq<Finding>)
    ensures
        has_severity(findings, Severity::High) ==> spec_verdict(findings) == Verdict::NotUsable,
        !has_severity(findings, Severity::High) && has_severity(findings, Severity::Medium)
            ==> spec_verdict(findings) == Verdict::UsableWithCaveats,
        (forall|k: int| 0 <= k < findings.len() ==> (#[trigger] findings[k]).severity == Severity::Low)
            ==> spec_verdict(findings) == Verdict::Usable,
{
    if forall|k: int| 0 <= k < findings.len() ==> (#[trigger] findings[k]).severity == Severity::Low {
        assert(!has_severity(findings, Severity::High));
        assert(!has_severity(findings, Severity::Medium));
    }
}

/// The verdict depends only on which severities occur among the findings, not on their
/// order or how often each occurs.
pub proof fn law_verdict_ignores_order(a: Seq<Finding>, b: Seq<Finding>)
    requires
        forall|s: Severity| has_severity(a, s) <==> #[trigger] has_severity(b, s),
    ensures
        spec_verdict(a) == spec_verdict(b),
{
    law_verdict_by_worst(a);
    law_verdict_by_worst(b);
    assert(has_severity(a, Severity::High) == has_severity(b, Severity::High));
    assert(has_severity(a, Severity::Medium) == has_severity(b, Severity::Medium));
    if !has_severity(a, Severity::High) && !has_severity(a, Severity::Medium) {
        assert forall|k: int| 0 <= k < a.len() implies (#[trigger] a[k]).severity == Severity::Low by {
            if a[k].severity == Severity::High {
                assert(has_severity(a, Severity::High));
            }
            if a[k].severity == Severity::Medium {
                assert(has_severity(a, Severity::Medium));
            }
        }
        assert forall|k: int| 0 <= k < b.len() implies (#[trigger] b[k]).severity == Severity::Low by {
            if b[k].severity == Severity::High {
                assert(has_severity(b, Severity::High));
            }
            if b[k].severity == Severity::Medium {
                assert(has_severity(b, Severity::Medium));
            }
        }
    }
}

/// Two lists of findings joined either way give one verdict.
pub proof fn law_verdict_of_joined(a: Seq<Finding>, b: Seq<Finding>)
    ensures
        spec_verdict(a + b) == spec_verdict(b + a),
{
    assert forall|s: Severity| has_severity(a + b, s) <==> #[trigger] has_severity(b + a, s) by {
        if has_severity(a + b, s) {
            let k = choose|k: int| 0 <= k < (a + b).len() && (#[trigger] (a + b)[k]).severity == s;
            if k < a.len() {
                assert((b + a)[b.len() + k] == a[k]);
            } else {
                assert((b + a)[k - a.len()] == b[k - a.len()]);
            }
        }
        if has_severity(b + a, s) {
            let k = choose|k: int| 0 <= k < (b + a).len() && (#[trigger] (b + a)[k]).severity == s;
            if k < b.len() {
                assert((a + b)[a.len() + k] == b[k]);
            } else {
                assert((a + b)[k - b.len()] == a[k - b.len()]);
            }
        }
    }
    law_verdict_ignores_order(a + b, b + a);
}

pub fn verdict_of(findings: &Vec<Finding>) -> (res: Verdict)
    ensures
        res == spec_verdict(findings@),
        has_severity(findings@, Severity::High) ==> res == Verdict::NotUsable,
        !has_severity(findings@, Severity::High) && has_severity(findings@, Severity::Medium) ==> res
            == Verdict::UsableWithCaveats,
        !has_severity(findings@, Severity::High) && !has_severity(findings@, Severity::Medium) ==> res
            == Verdict::Usable,
{
    proof {
        law_verdict_by_worst(findings@);
    }
    let mut high = false;
    let mut medium = false;
    let mut k: usize = 0;
    while k < findings.len()
        invariant
            k <= findings.len(),
            high == exists|j: int| 0 <= j < k && (#[trigger] findings@[j]).severity == Severity::High,
            medium == exists|j: int| 0 <= j < k && (#[trigger] findings@[j]).severity == Severity::Medium,
        decreases findings.len() - k,
    {
        match findings[k].severity {
            Severity::High => high = true,
            Severity::Medium => medium = true,
            Severity::Low => {},
        }
        k += 1;
    }
    if high {
        Verdict::NotUsable
    } else if medium {
        Verdict::UsableWithCaveats
    } else {
        Verdict::Usable
    }
}

// ---------------------------------------------------------------- fingerprint

/// The SHA-256 digest of some bytes, as `ring::digest::digest` computes it.
pub uninterp spec fn spec_sha256(bytes: Seq<u8>) -> Seq<u8>;

/// Digests bytes with SHA-256 by calling `ring::digest::digest`.
///
/// Trusted: the result is named `spec_sha256` of the bytes, a function of the bytes
/// alone, and is 32 bytes long, the output length ring gives SHA-256. The digest
/// itself is not stated. Inputs of 2^61 bytes or more, whose length in bits ring cannot
/// count, are left out.
#[verifier::external_body]
fn sha256(bytes: &[u8]) -> (res: Vec<u8>)
    requires
        bytes@.len() < 0x2000_0000_0000_0000,
    ensures
        res@ == spec_sha256(bytes@),
        res@.len() == 32,
{
    ring::digest::digest(&ring::digest::SHA256, bytes).as_ref().to_vec()
}

/// The lowercase hexadecimal digit for a value below sixteen.
pub open spec fn hex_digit(n: u8) -> char {
    if n < 10 {
        ((n + 48) as u8) as char
    } else {
        ((n + 87) as u8) as char
    }
}

/// Two lowercase hexadecimal digits per byte.
pub open spec fn hex(bytes: Seq<u8>) -> Seq<char>
    decreases bytes.len(),
{
    if bytes.len() == 0 {
        Seq::empty()
    } else {
        hex(bytes.drop_last()) + seq![hex_digit(bytes.last() / 16), hex_digit(bytes.last() % 16)]
    }
}

fn hex_char(n: u8) -> (res: char)
    requires
        n < 16,
    ensures
        res == hex_digit(n),
{
    if n < 10 {
        (n + 48) as char
    } else {
        (n + 87) as char
    }
}

/// A short, stable digest of a text: the first six bytes of its SHA-256 digest, in
/// lowercase hexadecimal.
pub fn fingerprint(text: &String) -> (res: String)
    requires
        vstd::utf8::encode_utf8(text@).len() < 0x2000_0000_0000_0000,
    ensures
        res@ == hex(spec_sha256(vstd::utf8::encode_utf8(text@)).take(6)),
        res@.len() == 12,
{
    let digest = sha256(text.as_str().as_bytes());
    let mut out = String::new();
    let mut k: usize = 0;
    proof {
        assert(digest@.take(0) =~= Seq::<u8>::empty());
    }
    while k < 6
        invariant
            digest@.len() == 32,
            k <= 6,
            out@ == hex(digest@.take(k as int)),
            out@.len() == 2 * k,
        decreases 6 - k,
    {
        let b = digest[k];
        push_char(&mut out, hex_char(b / 16));
        push_char(&mut out, hex_char(b % 16));
        proof {
            let next = digest@.take(k + 1);
            assert(next.drop_last() =~= digest@.take(k as int));
            assert(next.last() == b);
            assert(out@ =~= hex(next));
        }
        k += 1;
    }
    out
}

// ---------------------------------------------------------------- rendering

/// Text made safe for a Markdown table cell: each `|` escaped, each line break a space.
pub open spec fn escaped(s: Seq<char>) -> Seq<char>
    decreases s.len(),
{
    if s.len() == 0 {
        Seq::empty()
    } else {
        escaped(s.drop_last()) + if s.last() == '|' {
            seq!['\\', '|']
        } else if s.last() == '\n' {
            seq![' ']
        } else {
            seq![s.last()]
        }
    }
}

pub fn escape_pipes(text: &str) -> (res: String)
    ensures
        res@ == escaped(text@),
{
    let n = text.unicode_len();
    let mut out = String::new();
    let mut k: usize = 0;
    proof {
        assert(text@.take(0) =~= Seq::<char>::empty());
    }
    while k < n
        invariant
            n == text@.len(),
            k <= n,
            out@ == escaped(text@.take(k as int)),
        decreases n - k,
    {
        let c = text.get_char(k);
        if c == '|' {
            push_char(&mut out, '\\');
            push_char(&mut out, '|');
        } else if c == '\n' {
            push_char(&mut out, ' ');
        } else {
            push_char(&mut out, c);
        }
        proof {
            let next = text@.take(k + 1);
            assert(next.drop_last() =~= text@.take(k as int));
            assert(next.last() == c);
            assert(out@ =~= escaped(next));
        }
        k += 1;
    }
    proof {
        assert(text@.take(n as int) =~= text@);
    }
    out
}

/// The one sentence a report leads with: what the numbers rest on (`quality`, which
/// the caller words from its measurements), and the verdict, with the first finding
/// where there is one to carry forward.
pub fn headline(verdict: Verdict, quality: &String, findings: &Vec<Finding>) -> (res: String)
    ensures
        verdict == Verdict::Usable ==> res@ == quality@ + ". Nothing was found that should stop it being used."@,
        verdict == Verdict::UsableWithCaveats ==> res@ == quality@ + ". It is usable, with "@ + decimal(
            findings.len() as nat,
        ) + (if findings.len() == 1 {
            " caveat"@
        } else {
            " caveats"@
        }) + " to carry forward — the first is: "@ + (if findings.len() > 0 {
            findings@[0].message@
        } else {
            Seq::empty()
        }),
        verdict == Verdict::NotUsable ==> res@ == "This model should not be used as it stands. "@ + (if findings.len()
            > 0 {
            findings@[0].message@
        } else {
            Seq::empty()
        }) + " "@ + quality@ + "."@,
{
    match verdict {
        Verdict::Usable => {
            let mut s = quality.clone();
            push_text(&mut s, ". Nothing was found that should stop it being used.");
            s
        },
        Verdict::UsableWithCaveats => {
            let mut s = quality.clone();
            push_text(&mut s, ". It is usable, with ");
            push_decimal(&mut s, findings.len());
            push_text(&mut s, if findings.len() == 1 { " caveat" } else { " caveats" });
            push_text(&mut s, " to carry forward — the first is: ");
            if findings.len() > 0 {
                push_text(&mut s, findings[0].message.as_str());
            }
            s
        },
        Verdict::NotUsable => {
            let mut s = String::from_str("This model should not be used as it stands. ");
            if findings.len() > 0 {
                push_text(&mut s, findings[0].message.as_str());
            }
            push_text(&mut s, " ");
            push_text(&mut s, quality.as_str());
            push_text(&mut s, ".");
            s
        },
    }
}

} // verus!
