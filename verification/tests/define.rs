use match_recognize::buffer::BufferedRow;
use match_recognize::datum::{Datum, Scalar};
use match_recognize::define::{CompiledDefine, DefineMatcher};
use match_recognize::eval::{EvalRequest, Evaluations};
use match_recognize::incremental::IncrementalMatcher;
use match_recognize::nfa::{LabeledMatch, Nfa};
use match_recognize::pattern::{Pattern, Quantifier};
use match_recognize::plan::{MatchRecognizeDefine, MatchRecognizeDefineSlot, PlanError};
use match_recognize::refresh::{refresh_matcher, try_refresh};
use match_recognize::skip::SkipMode;

/// Slot kinds as the planner encodes them.
const KIND_SELF: u32 = 0;
const KIND_PREV: u32 = 1;
const KIND_NEXT: u32 = 2;
const KIND_RUNNING_FIRST: u32 = 3;
const KIND_RUNNING_LAST: u32 = 4;

/// The expression that compares its two columns for equality.
const EQUAL: usize = 0;
/// The expression that tells whether its first column is at most 2 more than its second.
const WITHIN: usize = 1;

/// One int column named `v` at index 0; the order key mirrors the physical position.
fn buffered(vals: &[i32]) -> Vec<BufferedRow> {
    vals.iter()
        .enumerate()
        .map(|(i, v)| BufferedRow {
            seq: i as i64,
            order_key: Some(Scalar::Int32(i as i32)),
            row: vec![Some(Scalar::Int32(*v))],
        })
        .collect()
}

/// Evaluate an expression.
fn answer(q: &EvalRequest) -> Datum {
    match (q.expr, &q.args[0], &q.args[1]) {
        (EQUAL, Some(a), Some(b)) => Some(Scalar::Bool(a == b)),
        (WITHIN, Some(Scalar::Int32(last)), Some(Scalar::Int32(first))) => {
            Some(Scalar::Bool(last - first <= 2))
        }
        _ => None,
    }
}

/// Take a step until no answer is missing.
fn answered<T>(mut step: impl FnMut(&Evaluations) -> Result<T, EvalRequest>) -> T {
    let mut evals = Evaluations::new();
    loop {
        match step(&evals) {
            Ok(r) => return r,
            Err(q) => {
                let a = answer(&q);
                evals.record(q, a);
            }
        }
    }
}

/// A navigation slot over column `v`.
fn nav_slot(kind: u32, vars: &[&str], offset: u32) -> MatchRecognizeDefineSlot {
    MatchRecognizeDefineSlot {
        kind,
        vars: vars.iter().map(|v| (*v).to_owned()).collect(),
        col_idx: 0,
        offset,
    }
}

/// `DEFINE <symbol> AS <nav> = <symbol>.v`.
fn nav_eq_self(symbol: &str, nav: MatchRecognizeDefineSlot) -> CompiledDefine {
    let pb = MatchRecognizeDefine {
        symbol: symbol.to_owned(),
        condition: Some(EQUAL),
        slots: vec![nav, nav_slot(KIND_SELF, &[], 0)],
    };
    CompiledDefine::from_protobuf(&pb).unwrap()
}

fn plus(var: &str) -> Pattern {
    Pattern::Quantified(
        Box::new(Pattern::Var(var.to_owned())),
        Quantifier::Plus,
        false,
    )
}

fn labels(s: &str) -> Vec<String> {
    s.chars().map(|c| c.to_string()).collect()
}

/// All matches over `vals`, with the whole buffer safe (no watermark boundary in play).
fn find_all(nfa: &Nfa, defines: &Vec<CompiledDefine>, vals: &[i32]) -> Vec<LabeledMatch> {
    let rows = buffered(vals);
    answered(|evals| {
        let matcher = DefineMatcher::new(&rows, rows.len(), defines, None, evals);
        nfa.find_matches_dynamic(rows.len(), &matcher, &SkipMode::PastLastRow)
    })
}

/// `DEFINE a AS LAST(a.v) = a.v` is a tautology: the running navigation sees the candidate,
/// including on the match's first row, where no earlier `a` exists.
#[test]
fn define_running_last_of_self_sees_candidate() {
    let defines = vec![nav_eq_self("a", nav_slot(KIND_RUNNING_LAST, &["a"], 0))];
    assert_eq!(
        find_all(&Nfa::compile(&plus("a")), &defines, &[1, 2, 3]),
        vec![LabeledMatch {
            start: 0,
            end: 3,
            labels: labels("aaa"),
        }]
    );
}

/// The eviction walker shares the finder's verdicts: a lone row that satisfies
/// `a AS LAST(a.v) = a.v` is a live partial match of `(a b)`.
#[test]
fn define_running_last_of_self_keeps_start_alive() {
    let rows = buffered(&[1]);
    let defines = vec![nav_eq_self("a", nav_slot(KIND_RUNNING_LAST, &["a"], 0))];
    let nfa = Nfa::compile(&Pattern::Concat(vec![
        Pattern::Var("a".to_owned()),
        Pattern::Var("b".to_owned()),
    ]));
    assert!(answered(|evals| {
        let matcher = DefineMatcher::new(&rows, rows.len(), &defines, None, evals);
        nfa.reaches_boundary_alive(0, rows.len(), &matcher)
    }));
}

/// `DEFINE a AS FIRST(a.v) = a.v`: the candidate is the *first* `a` only while no earlier `a` is
/// bound, so this holds for the match's first row and then pins later rows to that value.
#[test]
fn define_running_first_of_self_sees_candidate() {
    let defines = vec![nav_eq_self("a", nav_slot(KIND_RUNNING_FIRST, &["a"], 0))];
    assert_eq!(
        find_all(&Nfa::compile(&plus("a")), &defines, &[5, 5, 7]),
        vec![
            // 5, 5 share the first value; 7 breaks it and starts its own match.
            LabeledMatch {
                start: 0,
                end: 2,
                labels: labels("aa"),
            },
            LabeledMatch {
                start: 2,
                end: 3,
                labels: labels("a"),
            },
        ]
    );
}

/// Running navigation that falls back on the labels still indexes from the match's start.
#[test]
fn define_running_first_indexes_from_match_start() {
    let defines = vec![
        nav_eq_self("x", nav_slot(KIND_PREV, &[], 1)),
        nav_eq_self("a", nav_slot(KIND_RUNNING_FIRST, &["a"], 0)),
    ];
    let nfa = Nfa::compile(&Pattern::Concat(vec![
        Pattern::Var("x".to_owned()),
        plus("a"),
    ]));
    assert_eq!(
        // `x` = the second 9 (its physical predecessor is the first 9); the run of 7s is `a+`,
        // whose `FIRST` is `rows[2]`, so the trailing 5 ends the match.
        find_all(&nfa, &defines, &[9, 9, 7, 7, 5]),
        vec![LabeledMatch {
            start: 1,
            end: 4,
            labels: labels("xaa"),
        }]
    );
}

/// `SUBSET u = (a, b)` + `DEFINE a AS LAST(u.v) = a.v`: the candidate is tentatively an `a`, and
/// `a` is in `u`, so it counts as the running last of `u`.
#[test]
fn define_running_last_of_subset_containing_self_sees_candidate() {
    // Membership is a set test, so both declaration orders must behave identically.
    for members in [["a", "b"], ["b", "a"]] {
        let defines = vec![nav_eq_self("a", nav_slot(KIND_RUNNING_LAST, &members, 0))];
        assert_eq!(
            find_all(&Nfa::compile(&plus("a")), &defines, &[1, 2, 3]),
            vec![LabeledMatch {
                start: 0,
                end: 3,
                labels: labels("aaa"),
            }],
            "SUBSET u = ({}, {})",
            members[0],
            members[1]
        );
    }
}

/// Navigation over a variable set that does *not* contain the candidate's own variable keeps
/// resolving to the earlier row: `DEFINE b AS LAST(a.v) = b.v` compares against the `a`, never
/// against the candidate `b`.
#[test]
fn define_running_last_of_other_var_excludes_candidate() {
    let defines = vec![nav_eq_self("b", nav_slot(KIND_RUNNING_LAST, &["a"], 0))];
    let nfa = Nfa::compile(&Pattern::Concat(vec![
        Pattern::Var("a".to_owned()),
        Pattern::Var("b".to_owned()),
    ]));
    // Equal values: the `b` row equals the running `a`, so `(a b)` matches.
    assert_eq!(
        find_all(&nfa, &defines, &[7, 7]),
        vec![LabeledMatch {
            start: 0,
            end: 2,
            labels: labels("ab"),
        }]
    );
    // Different values: had the candidate been treated as the running last of `a`, this would
    // become a tautology and match.
    assert_eq!(find_all(&nfa, &defines, &[7, 8]), vec![]);
}

#[test]
fn a_variable_without_define_matches_every_row() {
    assert_eq!(
        find_all(&Nfa::compile(&plus("z")), &vec![], &[1, 2]),
        vec![LabeledMatch {
            start: 0,
            end: 2,
            labels: labels("zz"),
        }]
    );
}

#[test]
fn the_last_define_of_a_variable_counts() {
    let defines = vec![
        nav_eq_self("a", nav_slot(KIND_PREV, &[], 1)),
        nav_eq_self("a", nav_slot(KIND_SELF, &[], 0)),
    ];
    assert_eq!(
        find_all(&Nfa::compile(&plus("a")), &defines, &[1, 2]).len(),
        1
    );
}

#[test]
fn next_reads_within_the_safe_rows_only() {
    let defines = vec![nav_eq_self("a", nav_slot(KIND_NEXT, &[], 1))];
    let nfa = Nfa::compile(&Pattern::Var("a".to_owned()));
    // the row before the last equals its successor; the last row has none
    assert_eq!(
        find_all(&nfa, &defines, &[3, 4, 4]),
        vec![LabeledMatch {
            start: 1,
            end: 2,
            labels: labels("a"),
        }]
    );
}

#[test]
fn within_prunes_matches_that_span_too_much() {
    let rows = buffered(&[1, 1, 1, 1, 1]);
    let defines = vec![];
    let nfa = Nfa::compile(&plus("a"));
    let found = answered(|evals| {
        let matcher = DefineMatcher::new(&rows, rows.len(), &defines, Some(WITHIN), evals);
        nfa.find_matches_dynamic(rows.len(), &matcher, &SkipMode::PastLastRow)
    });
    let spans: Vec<(usize, usize)> = found.iter().map(|m| (m.start, m.end)).collect();
    assert_eq!(spans, vec![(0, 3), (3, 5)]);
}

#[test]
fn a_missing_answer_stops_the_step_and_names_the_evaluation() {
    let rows = buffered(&[4, 5]);
    let defines = vec![nav_eq_self("a", nav_slot(KIND_PREV, &[], 1))];
    let nfa = Nfa::compile(&Pattern::Var("a".to_owned()));
    let mut evals = Evaluations::new();
    let mut inc = IncrementalMatcher::new(&nfa, SkipMode::PastLastRow);
    let first = {
        let matcher = DefineMatcher::new(&rows, 2, &defines, None, &evals);
        try_refresh(&mut inc, &rows, 2, &matcher).unwrap_err()
    };
    assert_eq!(
        first,
        EvalRequest {
            expr: EQUAL,
            args: vec![None, Some(Scalar::Int32(4))],
        }
    );
    assert_eq!(inc.fed_seqs().len(), 0);
    evals.record(first, None);
    let second = {
        let matcher = DefineMatcher::new(&rows, 2, &defines, None, &evals);
        try_refresh(&mut inc, &rows, 2, &matcher).unwrap_err()
    };
    assert_eq!(
        second,
        EvalRequest {
            expr: EQUAL,
            args: vec![Some(Scalar::Int32(4)), Some(Scalar::Int32(5))],
        }
    );
    // NULL is not true, and neither is any value but `true`
    evals.record(second, Some(Scalar::Int64(1)));
    let matcher = DefineMatcher::new(&rows, 2, &defines, None, &evals);
    try_refresh(&mut inc, &rows, 2, &matcher).unwrap();
    assert_eq!(inc.fed_seqs(), &[0, 1]);
    assert_eq!(inc.provisional().len(), 0);
}

#[test]
fn a_step_that_stops_has_fed_the_rows() {
    let rows = buffered(&[4, 5]);
    let defines = vec![nav_eq_self("a", nav_slot(KIND_PREV, &[], 1))];
    let nfa = Nfa::compile(&Pattern::Var("a".to_owned()));
    let evals = Evaluations::new();
    let matcher = DefineMatcher::new(&rows, 2, &defines, None, &evals);
    let mut inc = IncrementalMatcher::new(&nfa, SkipMode::PastLastRow);
    inc.advance(&[0, 1], &matcher).unwrap_err();
    assert_eq!(inc.fed_seqs(), &[0, 1]);
    assert_eq!(inc.provisional().len(), 0);
    let mut inc = IncrementalMatcher::new(&nfa, SkipMode::PastLastRow);
    refresh_matcher(&mut inc, &rows, 2, &matcher).unwrap_err();
    assert_eq!(inc.fed_seqs(), &[0, 1]);
    // a step that can be taken again has not
    let mut inc = IncrementalMatcher::new(&nfa, SkipMode::PastLastRow);
    try_refresh(&mut inc, &rows, 2, &matcher).unwrap_err();
    assert_eq!(inc.fed_seqs().len(), 0);
}

#[test]
fn refreshing_after_a_late_row_and_after_feeding_too_much() {
    let defines = vec![nav_eq_self("b", nav_slot(KIND_RUNNING_LAST, &["a"], 0))];
    let nfa = Nfa::compile(&Pattern::Concat(vec![
        Pattern::Var("a".to_owned()),
        plus("b"),
    ]));
    let mut inc = IncrementalMatcher::new(&nfa, SkipMode::PastLastRow);
    let mut rows = buffered(&[7, 7, 8, 8]);
    let mut refresh = |rows: &Vec<BufferedRow>, safe: usize| -> Vec<(usize, usize)> {
        answered(|evals| {
            let matcher = DefineMatcher::new(rows, safe, &defines, None, evals);
            try_refresh(&mut inc, rows, safe, &matcher)
        });
        inc.labeled().iter().map(|m| (m.start, m.end)).collect()
    };
    assert_eq!(refresh(&rows, 4), vec![(0, 2), (2, 4)]);
    // nothing changed
    assert_eq!(refresh(&rows, 4), vec![(0, 2), (2, 4)]);
    // only the first three rows are wanted now
    assert_eq!(refresh(&rows, 3), vec![(0, 2)]);
    // a row that belongs between the first two arrives
    rows.insert(
        1,
        BufferedRow {
            seq: 9,
            order_key: Some(Scalar::Int32(0)),
            row: vec![Some(Scalar::Int32(7))],
        },
    );
    assert_eq!(refresh(&rows, 5), vec![(0, 3), (3, 5)]);
}

#[test]
fn plans_that_are_wrong_are_refused() {
    let mut pb = MatchRecognizeDefine {
        symbol: "a".to_owned(),
        condition: None,
        slots: vec![nav_slot(12, &[], 0)],
    };
    let e = CompiledDefine::from_protobuf(&pb).unwrap_err();
    assert_eq!(e, PlanError::MissingCondition);
    assert_eq!(e.message(), "MATCH_RECOGNIZE define missing condition");
    pb.condition = Some(3);
    let e = CompiledDefine::from_protobuf(&pb).unwrap_err();
    assert_eq!(e, PlanError::InvalidDefineSlotKind(12));
    assert_eq!(e.message(), "invalid MATCH_RECOGNIZE define slot kind: 12");
    pb.slots.clear();
    let d = CompiledDefine::from_protobuf(&pb).unwrap();
    assert!(d.within_columns(0));
    pb.slots.push(nav_slot(KIND_SELF, &[], 0));
    assert!(!CompiledDefine::from_protobuf(&pb).unwrap().within_columns(0));
}
