use match_recognize::skip::{report_skip_degradation_once, ExprError, SkipDegradation, SkipMode};

fn messages(report: &[ExprError]) -> Vec<String> {
    report.iter().map(|e| e.message()).collect()
}

/// The reported error must be actionable on its own: it names the skip mode (once), the target
/// variable, and the strategy the resume position degraded to.
#[test]
fn skip_degradation_report_names_clause_and_fallback() {
    let mut report = Vec::new();
    let mut reported = Vec::new();
    report_skip_degradation_once(
        &mut report,
        &SkipMode::ToLast("c".to_owned()),
        SkipDegradation::TargetAbsent,
        &mut reported,
    );
    report_skip_degradation_once(
        &mut report,
        &SkipMode::ToFirst("a".to_owned()),
        SkipDegradation::TargetAtMatchStart,
        &mut reported,
    );
    assert_eq!(
        messages(&report),
        vec![
            "Invalid parameter AFTER MATCH SKIP TO LAST: target variable `c` is bound to no row \
             of the match, so there is no row to resume at; the scan resumed past the match's \
             last row instead (degraded to SKIP PAST LAST ROW)",
            "Invalid parameter AFTER MATCH SKIP TO FIRST: target variable `a` resolves to the \
             match's own first row, so resuming there would re-find the same match forever; the \
             scan resumed at the row after the match's first row instead (degraded to SKIP TO \
             NEXT ROW)",
        ]
    );
}

/// One report per kind per watermark pass.
#[test]
fn skip_degradation_report_is_deduplicated_per_pass() {
    let mut report = Vec::new();
    let skip = SkipMode::ToLast("x".to_owned());
    let mut reported = Vec::new();
    for _ in 0..5 {
        report_skip_degradation_once(
            &mut report,
            &skip,
            SkipDegradation::TargetAbsent,
            &mut reported,
        );
    }
    assert_eq!(messages(&report).len(), 1, "{:?}", messages(&report));
    // A different degradation is a different diagnostic, so it is reported once too.
    report_skip_degradation_once(
        &mut report,
        &skip,
        SkipDegradation::TargetAtMatchStart,
        &mut reported,
    );
    assert_eq!(messages(&report).len(), 2, "{:?}", messages(&report));
    // The next pass starts with a fresh set, so a persisting condition keeps being visible.
    let mut next_pass = Vec::new();
    report_skip_degradation_once(
        &mut report,
        &skip,
        SkipDegradation::TargetAbsent,
        &mut next_pass,
    );
    assert_eq!(messages(&report).len(), 3, "{:?}", messages(&report));
}

fn labels(s: &str) -> Vec<String> {
    s.chars().map(|c| c.to_string()).collect()
}

#[test]
fn resume_positions_and_degradations() {
    let l = labels("abba");
    assert_eq!(SkipMode::PastLastRow.next_pos(2, 6, &l), (6, None));
    assert_eq!(SkipMode::ToNextRow.next_pos(2, 6, &l), (3, None));
    assert_eq!(SkipMode::ToFirst("b".into()).next_pos(2, 6, &l), (3, None));
    assert_eq!(SkipMode::ToLast("b".into()).next_pos(2, 6, &l), (4, None));
    assert_eq!(SkipMode::ToLast("a".into()).next_pos(2, 6, &l), (5, None));
    assert_eq!(
        SkipMode::ToFirst("a".into()).next_pos(2, 6, &l),
        (3, Some(SkipDegradation::TargetAtMatchStart))
    );
    assert_eq!(
        SkipMode::ToLast("c".into()).next_pos(2, 6, &l),
        (6, Some(SkipDegradation::TargetAbsent))
    );
}
