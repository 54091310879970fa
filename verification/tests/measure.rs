use match_recognize::buffer::BufferedRow;
use match_recognize::datum::{Datum, Scalar};
use match_recognize::eval::{EvalRequest, Evaluations};
use match_recognize::measure::{build_match_row, CompiledMeasure};
use match_recognize::plan::{MatchRecognizeMeasure, MatchRecognizeMeasureSlot, PlanError};

/// The expression that is its first column.
const FIRST_COLUMN: usize = 0;
/// The aggregate that sums its arguments.
const SUM: usize = 9;

fn num(i: i32) -> Datum {
    Some(Scalar::Int32(i))
}

fn rows() -> Vec<BufferedRow> {
    [Some(5), Some(3), None, Some(8), Some(3)]
        .iter()
        .enumerate()
        .map(|(i, v)| BufferedRow {
            seq: 100 + i as i64,
            order_key: num(i as i32),
            row: vec![v.map(Scalar::Int32)],
        })
        .collect()
}

fn measure(kind: u32, vars: &[&str]) -> CompiledMeasure {
    CompiledMeasure::from_protobuf(&MatchRecognizeMeasure {
        expr: Some(FIRST_COLUMN),
        slots: vec![MatchRecognizeMeasureSlot {
            kind,
            vars: vars.iter().map(|v| v.to_string()).collect(),
            col_idx: 0,
            agg_call: Some(SUM),
        }],
    })
    .unwrap()
}

fn answer(q: &EvalRequest) -> Datum {
    match q.expr {
        FIRST_COLUMN => match &q.args[0] {
            Some(Scalar::Int32(i)) => num(*i),
            Some(Scalar::Int64(i)) => Some(Scalar::Int64(*i)),
            Some(Scalar::Utf8(s)) => Some(Scalar::Utf8(s.clone())),
            _ => None,
        },
        _ => {
            let mut sum = 0;
            for d in &q.args {
                if let Some(Scalar::Int32(i)) = d {
                    sum += i;
                }
            }
            num(sum)
        }
    }
}

/// The output row of the rows 1 to 4, bound to `labels`.
fn out_row(measures: &Vec<CompiledMeasure>, start: usize, labels: &str) -> Vec<Datum> {
    let labels: Vec<String> = labels.chars().map(|c| c.to_string()).collect();
    let key = vec![Some(Scalar::Bool(true))];
    let mut evals = Evaluations::new();
    loop {
        match build_match_row(measures, &rows(), &key, start, &labels, &evals) {
            Ok(r) => return r,
            Err(q) => {
                let a = answer(&q);
                evals.record(q, a);
            }
        }
    }
}

fn value(kind: u32, vars: &[&str], labels: &str) -> Datum {
    let mut r = out_row(&vec![measure(kind, vars)], 1, labels);
    assert_eq!(r.len(), 3);
    r.remove(1)
}

#[test]
fn slots_read_the_rows_of_the_match() {
    // rows 1 to 4 hold 3, NULL, 8, 3
    assert_eq!(value(0, &["a"], "abab"), num(8));
    assert_eq!(value(0, &["b"], "abab"), num(3));
    assert_eq!(value(1, &["a"], "abab"), num(3));
    assert_eq!(value(1, &["b"], "abab"), None);
    assert_eq!(value(1, &["c"], "abab"), None);
    assert_eq!(value(0, &["c"], "abab"), None);
    assert_eq!(value(2, &[], "abab"), Some(Scalar::Utf8("b".into())));
    assert_eq!(value(3, &[], "abab"), Some(Scalar::Int64(4)));
    assert_eq!(value(4, &["b"], "abab"), Some(Scalar::Int64(1)));
    assert_eq!(value(4, &["a", "b"], "abab"), Some(Scalar::Int64(3)));
    assert_eq!(value(5, &["a", "b"], "abab"), num(3));
    assert_eq!(value(6, &["a", "b"], "abab"), num(8));
    assert_eq!(value(5, &["c"], "abab"), None);
    assert_eq!(value(6, &["b"], "abbb"), num(8));
    assert_eq!(value(7, &["a", "b"], "abab"), num(14));
    assert_eq!(value(7, &["c"], "abab"), None);
}

#[test]
fn an_output_row_is_the_key_the_measures_and_the_identity() {
    let measures = vec![measure(1, &["a"]), measure(3, &[])];
    assert_eq!(
        out_row(&measures, 3, "ab"),
        vec![
            Some(Scalar::Bool(true)),
            num(8),
            Some(Scalar::Int64(2)),
            Some(Scalar::Int64(103)),
        ]
    );
}

#[test]
fn a_sum_asks_for_the_values_of_its_rows() {
    let labels: Vec<String> = vec!["a".into(), "b".into(), "a".into()];
    let q = build_match_row(
        &vec![measure(7, &["a"])],
        &rows(),
        &vec![],
        1,
        &labels,
        &Evaluations::new(),
    )
    .unwrap_err();
    assert_eq!(
        q,
        EvalRequest {
            expr: SUM,
            args: vec![num(3), num(8)],
        }
    );
}

#[test]
fn measures_that_are_planned_wrong_are_refused() {
    let slot = |kind: u32, agg_call: Option<usize>| MatchRecognizeMeasureSlot {
        kind,
        vars: vec![],
        col_idx: 4,
        agg_call,
    };
    let mut pb = MatchRecognizeMeasure {
        expr: None,
        slots: vec![],
    };
    let e = CompiledMeasure::from_protobuf(&pb).unwrap_err();
    assert_eq!(e, PlanError::MissingExpression);
    assert_eq!(e.message(), "MATCH_RECOGNIZE measure missing expression");
    pb.expr = Some(0);
    pb.slots = vec![slot(3, None), slot(8, None)];
    let e = CompiledMeasure::from_protobuf(&pb).unwrap_err();
    assert_eq!(e, PlanError::InvalidMeasureSlotKind(8));
    assert_eq!(e.message(), "invalid MATCH_RECOGNIZE measure slot kind: 8");
    pb.slots = vec![slot(7, None), slot(4294967295, None)];
    let e = CompiledMeasure::from_protobuf(&pb).unwrap_err();
    assert_eq!(e, PlanError::MissingAggCall);
    assert_eq!(
        e.message(),
        "MATCH_RECOGNIZE SUM/AVG measure slot missing agg_call"
    );
    pb.slots = vec![slot(4294967295, None)];
    assert_eq!(
        CompiledMeasure::from_protobuf(&pb).unwrap_err().message(),
        "invalid MATCH_RECOGNIZE measure slot kind: 4294967295"
    );
    pb.slots = vec![slot(7, Some(1))];
    let m = CompiledMeasure::from_protobuf(&pb).unwrap();
    assert!(m.within_columns(5));
    assert!(!m.within_columns(4));
}

#[test]
fn the_classifier_and_the_row_count_read_no_column() {
    let far = |kind: u32| {
        CompiledMeasure::from_protobuf(&MatchRecognizeMeasure {
            expr: Some(FIRST_COLUMN),
            slots: vec![MatchRecognizeMeasureSlot {
                kind,
                vars: vec![],
                col_idx: 77,
                agg_call: None,
            }],
        })
        .unwrap()
    };
    assert!(far(2).within_columns(1));
    assert!(far(3).within_columns(1));
    assert!(!far(4).within_columns(1));
    assert!(!far(0).within_columns(77));
    assert!(far(0).within_columns(78));
    let r = out_row(&vec![far(2), far(3)], 1, "ab");
    assert_eq!(r[1], Some(Scalar::Utf8("b".to_owned())));
    assert_eq!(r[2], Some(Scalar::Int64(2)));
}
