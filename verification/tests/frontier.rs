use match_recognize::datum::{Datum, Scalar};
use match_recognize::frontier::{
    fold_min, is_idle, move_frontier, remove_frontier, take_candidate, update_frontier_on_insert,
    TableWrite,
};

fn k(i: i32) -> Scalar {
    Scalar::Int32(i)
}

fn num(i: i32) -> Datum {
    Some(k(i))
}

fn key() -> Vec<Datum> {
    vec![Some(Scalar::Utf8("p".into())), None]
}

fn meta(wakeup: i32) -> Vec<Datum> {
    let mut r = key();
    r.push(num(wakeup));
    r
}

fn index(wakeup: i32) -> Vec<Datum> {
    let mut r = vec![num(wakeup)];
    r.extend(key());
    r
}

#[test]
fn fold_min_keeps_the_least() {
    let mut acc: Datum = None;
    for (x, want) in [(5, 5), (7, 5), (5, 5), (-3, -3)] {
        fold_min(&mut acc, &k(x));
        assert_eq!(acc, num(want));
    }
}

#[test]
fn an_insert_moves_a_wakeup_only_earlier() {
    assert_eq!(
        update_frontier_on_insert(&None, &key(), &k(5)),
        vec![
            TableWrite::MetaInsert(meta(5)),
            TableWrite::IndexInsert(index(5)),
        ]
    );
    assert_eq!(
        update_frontier_on_insert(&Some(meta(5)), &key(), &k(4)),
        vec![
            TableWrite::MetaUpdate(meta(5), meta(4)),
            TableWrite::IndexDelete(index(5)),
            TableWrite::IndexInsert(index(4)),
        ]
    );
    assert_eq!(
        update_frontier_on_insert(&Some(meta(5)), &key(), &k(5)),
        vec![]
    );
    assert_eq!(
        update_frontier_on_insert(&Some(meta(5)), &key(), &k(6)),
        vec![]
    );
}

#[test]
fn moves_and_removals_write_both_tables() {
    assert_eq!(
        move_frontier(&key(), &k(5), &k(9)),
        vec![
            TableWrite::IndexDelete(index(5)),
            TableWrite::IndexInsert(index(9)),
            TableWrite::MetaUpdate(meta(5), meta(9)),
        ]
    );
    assert_eq!(
        remove_frontier(&key(), &k(5)),
        vec![
            TableWrite::IndexDelete(index(5)),
            TableWrite::MetaDelete(meta(5)),
        ]
    );
}

#[test]
fn a_watermark_is_idle_only_below_the_bound() {
    assert!(!is_idle(&None, &k(5)));
    assert!(is_idle(&Some(None), &k(5)));
    assert!(is_idle(&Some(num(6)), &k(5)));
    assert!(!is_idle(&Some(num(5)), &k(5)));
    assert!(!is_idle(&Some(num(4)), &k(5)));
}

#[test]
fn the_index_scan_ends_at_the_first_partition_that_is_not_due() {
    let mut next_min: Datum = None;
    assert_eq!(
        take_candidate(&index(4), &k(5), &mut next_min),
        Some((k(4), key()))
    );
    assert_eq!(
        take_candidate(&index(5), &k(5), &mut next_min),
        Some((k(5), key()))
    );
    assert_eq!(next_min, None);
    assert_eq!(take_candidate(&index(8), &k(5), &mut next_min), None);
    assert_eq!(next_min, num(8));
    assert_eq!(take_candidate(&vec![None], &k(5), &mut next_min), None);
    assert_eq!(next_min, num(8));
}
