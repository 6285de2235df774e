use avenue_model::plan::{Issue, Severity};
use avenue_model::text::{push_decimal, push_signed_decimal};
use avenue_model::report::{
    collect_findings, escape_pipes, fingerprint, headline, order_findings, stage_of, verdict_of,
    Finding, Verdict,
};

fn finding(severity: Severity, code: &str, message: &str) -> Finding {
    Finding {
        severity,
        code: code.to_string(),
        message: message.to_string(),
        stage: "plan".to_string(),
    }
}

#[test]
fn verdict_words() {
    assert_eq!(Verdict::Usable.as_str(), "usable");
    assert_eq!(Verdict::UsableWithCaveats.as_str(), "usable_with_caveats");
    assert_eq!(Verdict::NotUsable.as_str(), "not_usable");
}

#[test]
fn the_fits_own_faults_belong_to_the_fit() {
    assert_eq!(stage_of(&"not_converged".to_string()), "fit");
    assert_eq!(stage_of(&"aliased_levels".to_string()), "fit");
    assert_eq!(stage_of(&"poor_calibration".to_string()), "validation");
}

#[test]
fn an_unvalidated_model_says_so_and_reports_non_convergence() {
    let plan = vec![Issue {
        severity: Severity::Low,
        code: "thin_levels".to_string(),
        message: "m".to_string(),
        column: None,
    }];
    let found = collect_findings(Some(&plan), None, Some("stopped".to_string()));
    let codes: Vec<&str> = found.iter().map(|f| f.code.as_str()).collect();
    assert_eq!(codes, vec!["thin_levels", "not_validated", "not_converged"]);
    assert_eq!(found[0].stage, "plan");
    assert_eq!(found[2].severity, Severity::High);
    assert_eq!(found[2].stage, "fit");
}

#[test]
fn findings_order_by_severity_then_code_and_repeat_once() {
    let ordered = order_findings(vec![
        finding(Severity::Low, "b", "x"),
        finding(Severity::High, "z", "y"),
        finding(Severity::Low, "a", "x"),
        finding(Severity::High, "z", "y"),
        finding(Severity::Medium, "m", "w"),
    ]);
    let codes: Vec<&str> = ordered.iter().map(|f| f.code.as_str()).collect();
    assert_eq!(codes, vec!["z", "m", "a", "b"]);
    assert_eq!(verdict_of(&ordered), Verdict::NotUsable);
}

#[test]
fn the_verdict_follows_the_worst_finding() {
    assert_eq!(verdict_of(&vec![]), Verdict::Usable);
    assert_eq!(verdict_of(&vec![finding(Severity::Low, "a", "")]), Verdict::Usable);
    assert_eq!(verdict_of(&vec![finding(Severity::Medium, "a", "")]), Verdict::UsableWithCaveats);
}

#[test]
fn the_fingerprint_is_the_head_of_the_sha256_digest() {
    assert_eq!(fingerprint(&"abc".to_string()), "ba7816bf8f01");
    assert_eq!(fingerprint(&String::new()), "e3b0c44298fc");
}

#[test]
fn pipes_and_line_breaks_are_made_table_safe() {
    assert_eq!(escape_pipes("a|b\nc"), "a\\|b c");
}

#[test]
fn headlines_lead_with_the_verdict() {
    let quality = "It has not been measured against any data".to_string();
    assert_eq!(
        headline(Verdict::Usable, &quality, &vec![]),
        "It has not been measured against any data. Nothing was found that should stop it being used."
    );
    let worst = vec![finding(Severity::High, "x", "The target has nulls.")];
    assert_eq!(
        headline(Verdict::NotUsable, &quality, &worst),
        "This model should not be used as it stands. The target has nulls. It has not been measured against any data."
    );
    let caveat = vec![finding(Severity::Medium, "x", "Thin levels.")];
    assert_eq!(
        headline(Verdict::UsableWithCaveats, &quality, &caveat),
        "It has not been measured against any data. It is usable, with 1 caveat to carry forward — the first is: Thin levels."
    );
    let many: Vec<Finding> = (0..12).map(|i| finding(Severity::Low, "x", &format!("Note {}.", i))).collect();
    assert_eq!(
        headline(Verdict::UsableWithCaveats, &quality, &many),
        "It has not been measured against any data. It is usable, with 12 caveats to carry forward — the first is: Note 0."
    );
}

#[test]
fn decimals_have_no_leading_zero() {
    let mut s = String::from("n=");
    push_decimal(&mut s, 0);
    push_text_sep(&mut s);
    push_decimal(&mut s, 1090);
    push_text_sep(&mut s);
    push_signed_decimal(&mut s, i32::MIN);
    push_text_sep(&mut s);
    push_signed_decimal(&mut s, -7);
    assert_eq!(s, "n=0,1090,-2147483648,-7");
}

fn push_text_sep(s: &mut String) {
    s.push(',');
}

#[test]
fn findings_that_tie_keep_the_order_given() {
    let f = |sev: Severity, code: &str, msg: &str| Finding {
        severity: sev,
        code: code.to_string(),
        message: msg.to_string(),
        stage: "plan".to_string(),
    };
    let got = order_findings(vec![
        f(Severity::Low, "b", "first b"),
        f(Severity::High, "z", "z"),
        f(Severity::Low, "b", "second b"),
        f(Severity::Low, "a", "a"),
        f(Severity::Low, "b", "first b"),
    ]);
    let messages: Vec<&str> = got.iter().map(|x| x.message.as_str()).collect();
    assert_eq!(messages, vec!["z", "a", "first b", "second b", "first b"]);
}
