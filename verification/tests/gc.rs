use match_recognize::gc::{
    any_expired, CompactionTrack, ExpirationStart, IcebergCommittedSnapshot,
    IcebergCompactionManagerInner, SnapshotExpirationProtection,
};
use std::collections::{HashMap, HashSet};

fn snapshot(id: i64, timestamp_ms: i64) -> IcebergCommittedSnapshot {
    IcebergCommittedSnapshot {
        branch: "main".to_owned(),
        snapshot_id: id,
        timestamp_ms,
    }
}

fn manager(
    processing: Option<Option<IcebergCommittedSnapshot>>,
) -> IcebergCompactionManagerInner {
    IcebergCompactionManagerInner {
        sink_schedules: HashMap::from([(
            1,
            CompactionTrack {
                processing_gc_watermark_snapshot: processing,
            },
        )]),
        snapshot_expiration_sink_ids: HashSet::from([1, 2]),
        snapshot_expiration_in_progress_sink_ids: HashSet::new(),
    }
}

#[test]
fn the_earliest_watermark_protects() {
    let mut p = SnapshotExpirationProtection::NoProtection;
    p.protect_with(Some(&snapshot(1, 50)));
    assert_eq!(p, SnapshotExpirationProtection::Watermark(snapshot(1, 50)));
    p.protect_with(Some(&snapshot(2, 60)));
    assert_eq!(p, SnapshotExpirationProtection::Watermark(snapshot(1, 50)));
    p.protect_with(Some(&snapshot(3, 50)));
    assert_eq!(p, SnapshotExpirationProtection::Watermark(snapshot(1, 50)));
    p.protect_with(Some(&snapshot(4, 40)));
    assert_eq!(p, SnapshotExpirationProtection::Watermark(snapshot(4, 40)));
    p.protect_with(None);
    assert_eq!(p, SnapshotExpirationProtection::Skip);
    p.protect_with(Some(&snapshot(5, 10)));
    assert_eq!(p, SnapshotExpirationProtection::Skip);
}

#[test]
fn a_sink_is_expired_by_one_at_a_time() {
    let mut m = manager(None);
    assert_eq!(
        m.begin_snapshot_expiration(1),
        Some(SnapshotExpirationProtection::NoProtection)
    );
    assert_eq!(m.begin_snapshot_expiration(1), None);
    assert!(m.begin_snapshot_expiration(2).is_some());
    m.finish_snapshot_expiration(1);
    assert!(m.begin_snapshot_expiration(1).is_some());
}

#[test]
fn protection_comes_from_the_running_compaction() {
    assert_eq!(
        manager(None).snapshot_expiration_protection(1),
        SnapshotExpirationProtection::NoProtection
    );
    assert_eq!(
        manager(Some(None)).snapshot_expiration_protection(1),
        SnapshotExpirationProtection::Skip
    );
    assert_eq!(
        manager(Some(Some(snapshot(7, 3)))).snapshot_expiration_protection(1),
        SnapshotExpirationProtection::Watermark(snapshot(7, 3))
    );
    assert_eq!(
        manager(Some(None)).snapshot_expiration_protection(2),
        SnapshotExpirationProtection::NoProtection
    );
}

#[test]
fn what_is_decided_for_a_sink() {
    let now = 100_000_000;
    let mut m = manager(None);
    assert_eq!(
        m.start_snapshot_expiration(1, false, now, None),
        ExpirationStart::Disabled
    );
    assert_eq!(m.snapshot_expiration_sink_ids, HashSet::from([2]));

    // a day by default, and what is configured otherwise
    assert_eq!(
        m.start_snapshot_expiration(1, true, now, None),
        ExpirationStart::Proceed {
            cutoff_ms: 13_600_000,
            by_age_ms: 13_600_000,
            watermark: None,
        }
    );
    assert_eq!(
        m.start_snapshot_expiration(1, true, now, None),
        ExpirationStart::InProgress
    );
    m.finish_snapshot_expiration(1);
    assert_eq!(
        m.start_snapshot_expiration(1, true, now, Some(77)),
        ExpirationStart::Proceed {
            cutoff_ms: 77,
            by_age_ms: 77,
            watermark: None,
        }
    );

    // a compaction that observed nothing: nothing happens, and the mark is off again
    let mut m = manager(Some(None));
    assert_eq!(
        m.start_snapshot_expiration(1, true, now, None),
        ExpirationStart::Unprotected
    );
    assert!(m.snapshot_expiration_in_progress_sink_ids.is_empty());

    // the earlier of the age and the watermark counts
    let mut m = manager(Some(Some(snapshot(7, 50))));
    assert_eq!(
        m.start_snapshot_expiration(1, true, now, Some(77)),
        ExpirationStart::Proceed {
            cutoff_ms: 50,
            by_age_ms: 77,
            watermark: Some(snapshot(7, 50)),
        }
    );
    m.finish_snapshot_expiration(1);
    assert_eq!(
        m.start_snapshot_expiration(1, true, now, Some(20)),
        ExpirationStart::Proceed {
            cutoff_ms: 20,
            by_age_ms: 20,
            watermark: Some(snapshot(7, 50)),
        }
    );
}

#[test]
fn expiry_is_strict() {
    assert!(any_expired(&vec![9, 5, 7], 6));
    assert!(!any_expired(&vec![9, 6, 7], 6));
    assert!(!any_expired(&vec![], 6));
}

#[test]
fn the_first_of_the_least_timestamps_protects_in_any_order() {
    let l = [snapshot(1, 50), snapshot(2, 40), snapshot(3, 40), snapshot(4, 60)];
    for (order, first) in [([0, 1, 2, 3], 1), ([3, 2, 0, 1], 2), ([2, 3, 1, 0], 2)] {
        let mut p = SnapshotExpirationProtection::NoProtection;
        for i in order {
            p.protect_with(Some(&l[i]));
        }
        assert_eq!(p, SnapshotExpirationProtection::Watermark(l[first].clone()));
        p.protect_with(None);
        p.protect_with(Some(&l[0]));
        assert_eq!(p, SnapshotExpirationProtection::Skip);
    }
}

#[test]
fn a_disabled_sink_is_forgotten_at_any_time() {
    let mut m = manager(None);
    let start = m.start_snapshot_expiration(1, false, i64::MIN, None);
    assert_eq!(start, ExpirationStart::Disabled);
    assert!(!m.snapshot_expiration_sink_ids.contains(&1));
}
