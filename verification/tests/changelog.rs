use match_recognize::changelog::{diff_provisional, plan_provisional_rows, Emitted};
use match_recognize::datum::{Datum, Scalar};
use match_recognize::incremental::SeqMatch;
use match_recognize::plan::Op;

fn found(start: i64, end: i64, labels: &str) -> SeqMatch {
    SeqMatch {
        start_seq: start,
        end_seq: end,
        labels: labels.chars().map(|c| c.to_string()).collect(),
    }
}

fn row(value: i32, id: i64) -> Vec<Datum> {
    vec![Some(Scalar::Int32(value)), Some(Scalar::Int64(id))]
}

fn emitted(start: i64, end: i64, labels: &str, value: i32) -> Emitted {
    (found(start, end, labels), row(value, start))
}

#[test]
fn changes_come_by_identity_and_deletes_before_inserts() {
    let prev = vec![
        emitted(9, 11, "ab", 1),
        emitted(3, 5, "ab", 2),
        emitted(5, 7, "ab", 3),
    ];
    let new = vec![
        emitted(3, 6, "abb", 4),
        emitted(9, 11, "ab", 1),
        emitted(1, 2, "a", 5),
    ];
    assert_eq!(
        diff_provisional(&prev, &new),
        vec![
            (Op::Insert, row(5, 1)),
            (Op::Delete, row(2, 3)),
            (Op::Insert, row(4, 3)),
            (Op::Delete, row(3, 5)),
        ]
    );
}

#[test]
fn nothing_changed_nothing_told() {
    let l = vec![emitted(1, 2, "a", 1), emitted(4, 6, "ab", 2)];
    assert_eq!(diff_provisional(&l, &l), vec![]);
    assert_eq!(diff_provisional(&vec![], &vec![]), vec![]);
}

#[test]
fn a_changed_row_or_a_changed_label_is_a_change() {
    let prev = vec![emitted(1, 3, "ab", 1)];
    let other_row = vec![emitted(1, 3, "ab", 2)];
    assert_eq!(
        diff_provisional(&prev, &other_row),
        vec![(Op::Delete, row(1, 1)), (Op::Insert, row(2, 1))]
    );
    let other_label = vec![emitted(1, 3, "ac", 1)];
    assert_eq!(
        diff_provisional(&prev, &other_label),
        vec![(Op::Delete, row(1, 1)), (Op::Insert, row(1, 1))]
    );
}

/// A table downstream that gets the changes ends up with the new matches.
#[test]
fn changes_lead_from_the_old_to_the_new_table() {
    let prev = vec![
        emitted(9, 11, "ab", 1),
        emitted(3, 5, "ab", 2),
        emitted(5, 7, "ab", 3),
    ];
    let new = vec![emitted(3, 6, "abb", 4), emitted(7, 8, "a", 6)];
    let mut table: Vec<Vec<Datum>> = prev.iter().map(|(_, r)| copy(r)).collect();
    for (op, r) in diff_provisional(&prev, &new) {
        match op {
            Op::Insert => {
                assert!(!table.contains(&r));
                table.push(r);
            }
            Op::Delete => {
                let at = table.iter().position(|x| *x == r).unwrap();
                table.remove(at);
            }
            _ => unreachable!(),
        }
    }
    assert_eq!(table.len(), 2);
    for (_, r) in &new {
        assert!(table.contains(r));
    }
}

fn copy(r: &[Datum]) -> Vec<Datum> {
    r.iter()
        .map(|d| match d {
            Some(Scalar::Int32(i)) => Some(Scalar::Int32(*i)),
            Some(Scalar::Int64(i)) => Some(Scalar::Int64(*i)),
            _ => None,
        })
        .collect()
}

#[test]
fn rows_are_reused_for_unchanged_matches_only() {
    let prev = vec![emitted(9, 11, "ab", 1), emitted(3, 5, "ab", 2)];
    let provisional = vec![
        found(3, 5, "ab"),
        found(9, 12, "abb"),
        found(9, 11, "ab"),
        found(4, 5, "a"),
        found(3, 5, "ac"),
    ];
    assert_eq!(
        plan_provisional_rows(&prev, &provisional),
        vec![Some(1), None, Some(0), None, None]
    );
}
