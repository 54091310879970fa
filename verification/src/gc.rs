//! Expiring old snapshots of an Iceberg table.
//!
//! A snapshot that a running compaction still reads must not be expired. Such a compaction is
//! known by the snapshot that it observed when it began: nothing from that snapshot on is expired
//! while it runs. If it has observed none yet, nothing is expired at all.

use std::collections::{HashMap, HashSet};
use vstd::prelude::*;

verus! {

broadcast use vstd::std_specs::hash::group_hash_axioms;

/// The age in milliseconds from which on a snapshot is expired by default: a day.
pub const MAX_SNAPSHOT_AGE_MS_DEFAULT: i64 = 86_400_000;

/// A snapshot that was committed.
#[derive(Debug, PartialEq, Eq)]
pub struct IcebergCommittedSnapshot {
    pub branch: String,
    pub snapshot_id: i64,
    pub timestamp_ms: i64,
}

impl Clone for IcebergCommittedSnapshot {
    fn clone(&self) -> (r: Self)
        ensures
            r == *self,
    {
        IcebergCommittedSnapshot {
            branch: self.branch.clone(),
            snapshot_id: self.snapshot_id,
            timestamp_ms: self.timestamp_ms,
        }
    }
}

/// What protects snapshots from being expired.
#[derive(Debug, PartialEq, Eq)]
pub enum SnapshotExpirationProtection {
    /// Nothing: they expire by age.
    NoProtection,
    /// A compaction whose snapshot is not known: none expires.
    Skip,
    /// A compaction that reads this snapshot: none from it on expires.
    Watermark(IcebergCommittedSnapshot),
}

/// The protection, with that of a compaction that observed `snapshot` added.
pub open spec fn protected(
    p: SnapshotExpirationProtection,
    snapshot: Option<IcebergCommittedSnapshot>,
) -> SnapshotExpirationProtection {
    match (p, snapshot) {
        (_, None) => SnapshotExpirationProtection::Skip,
        (SnapshotExpirationProtection::Skip, _) => SnapshotExpirationProtection::Skip,
        (
            SnapshotExpirationProtection::NoProtection,
            Some(s),
        ) => SnapshotExpirationProtection::Watermark(s),
        (SnapshotExpirationProtection::Watermark(e), Some(s)) => if s.timestamp_ms
            < e.timestamp_ms {
            SnapshotExpirationProtection::Watermark(s)
        } else {
            SnapshotExpirationProtection::Watermark(e)
        },
    }
}

/// The value that a reference refers to.
pub open spec fn referred(s: Option<&IcebergCommittedSnapshot>) -> Option<
    IcebergCommittedSnapshot,
> {
    match s {
        Some(x) => Some(*x),
        None => None,
    }
}

impl SnapshotExpirationProtection {
    /// Add the protection of a compaction that observed `snapshot`, or that has observed none.
    pub fn protect_with(&mut self, snapshot: Option<&IcebergCommittedSnapshot>)
        ensures
            *final(self) == protected(*old(self), referred(snapshot)),
    {
        match snapshot {
            None => {
                *self = SnapshotExpirationProtection::Skip;
            },
            Some(snapshot) => {
                let replace: bool = match self {
                    SnapshotExpirationProtection::NoProtection => true,
                    SnapshotExpirationProtection::Skip => false,
                    SnapshotExpirationProtection::Watermark(existing) => snapshot.timestamp_ms
                        < existing.timestamp_ms,
                };
                if replace {
                    *self = SnapshotExpirationProtection::Watermark(snapshot.clone());
                }
            },
        }
    }

    /// Whether a snapshot with the timestamp may be expired.
    pub open spec fn allows(self, timestamp_ms: i64) -> bool {
        match self {
            SnapshotExpirationProtection::NoProtection => true,
            SnapshotExpirationProtection::Skip => false,
            SnapshotExpirationProtection::Watermark(s) => timestamp_ms < s.timestamp_ms,
        }
    }
}

/// Adding a protection never lets a snapshot expire that was protected, and protects what the
/// added compaction reads.
pub proof fn lemma_protection_only_grows(
    p: SnapshotExpirationProtection,
    snapshot: Option<IcebergCommittedSnapshot>,
    timestamp_ms: i64,
)
    ensures
        protected(p, snapshot).allows(timestamp_ms) ==> p.allows(timestamp_ms),
        protected(p, snapshot).allows(timestamp_ms) ==> (snapshot matches Some(s) && timestamp_ms
            < s.timestamp_ms),
{
}

/// The order in which protections are added does not matter for what they allow.
pub proof fn lemma_protection_order_is_free(
    p: SnapshotExpirationProtection,
    a: Option<IcebergCommittedSnapshot>,
    b: Option<IcebergCommittedSnapshot>,
    timestamp_ms: i64,
)
    ensures
        protected(protected(p, a), b).allows(timestamp_ms) == protected(
            protected(p, b),
            a,
        ).allows(timestamp_ms),
{
}

/// The protection, with those of compactions added one after the other.
pub open spec fn protected_all(
    p: SnapshotExpirationProtection,
    l: Seq<Option<IcebergCommittedSnapshot>>,
) -> SnapshotExpirationProtection
    decreases l.len(),
{
    if l.len() == 0 {
        p
    } else {
        protected(protected_all(p, l.drop_last()), l.last())
    }
}

/// Of the compactions with the snapshots `l`, the one at `i` is the first that observed the least
/// timestamp.
pub open spec fn is_first_least(l: Seq<Option<IcebergCommittedSnapshot>>, i: int) -> bool {
    &&& 0 <= i < l.len()
    &&& forall|j: int|
        0 <= j < l.len() ==> l[i]->Some_0.timestamp_ms <= (#[trigger] l[j])->Some_0.timestamp_ms
    &&& forall|j: int|
        0 <= j < i ==> l[i]->Some_0.timestamp_ms < (#[trigger] l[j])->Some_0.timestamp_ms
}

/// What any number of compactions protect together: nothing where there is none, everything where
/// one has observed no snapshot, and else what the first that observed the least timestamp reads.
/// What they allow does not depend on the order in which they are added: a snapshot that is older
/// than what each of them observed.
pub proof fn lemma_protection_of_all(l: Seq<Option<IcebergCommittedSnapshot>>, timestamp_ms: i64)
    ensures
        ({
            let r = protected_all(SnapshotExpirationProtection::NoProtection, l);
            &&& l.len() == 0 ==> r is NoProtection
            &&& (exists|i: int| 0 <= i < l.len() && (#[trigger] l[i]) is None) ==> r is Skip
            &&& l.len() > 0 && (forall|i: int| 0 <= i < l.len() ==> (#[trigger] l[i]) is Some)
                ==> exists|i: int| #[trigger]
                is_first_least(l, i) && r == SnapshotExpirationProtection::Watermark(
                    l[i]->Some_0,
                )
            &&& r.allows(timestamp_ms) <==> forall|i: int|
                0 <= i < l.len() ==> ((#[trigger] l[i]) matches Some(s) && timestamp_ms
                    < s.timestamp_ms)
        }),
    decreases l.len(),
{
    if l.len() > 0 {
        let d = l.drop_last();
        let last = l.last();
        let r = protected_all(SnapshotExpirationProtection::NoProtection, l);
        let before = protected_all(SnapshotExpirationProtection::NoProtection, d);
        lemma_protection_of_all(d, timestamp_ms);
        assert(l[l.len() - 1] == last);
        assert forall|i: int| 0 <= i < d.len() implies #[trigger] d[i] == l[i] by {}
        if exists|i: int| 0 <= i < l.len() && (#[trigger] l[i]) is None {
            let i = choose|i: int| 0 <= i < l.len() && (#[trigger] l[i]) is None;
            if i < d.len() {
                assert(d[i] is None);
            }
        } else {
            assert forall|i: int| 0 <= i < d.len() implies (#[trigger] d[i]) is Some by {
                assert(!(l[i] is None));
            }
            assert(!(l[l.len() - 1] is None));
            if d.len() == 0 {
                assert(is_first_least(l, 0));
            } else {
                let k = choose|k: int| #[trigger]
                    is_first_least(d, k) && before == SnapshotExpirationProtection::Watermark(
                        d[k]->Some_0,
                    );
                let best = if last->Some_0.timestamp_ms < d[k]->Some_0.timestamp_ms {
                    l.len() - 1
                } else {
                    k
                };
                assert(is_first_least(l, best)) by {
                    assert forall|j: int| 0 <= j < l.len() implies l[best]->Some_0.timestamp_ms <= (
                    #[trigger] l[j])->Some_0.timestamp_ms by {
                        if j < d.len() {
                            assert(d[j] == l[j]);
                        }
                    }
                    assert forall|j: int| 0 <= j < best implies l[best]->Some_0.timestamp_ms < (
                    #[trigger] l[j])->Some_0.timestamp_ms by {
                        assert(d[j] == l[j]);
                    }
                }
                assert(r == SnapshotExpirationProtection::Watermark(l[best]->Some_0));
            }
        }
        assert(r.allows(timestamp_ms) <==> before.allows(timestamp_ms) && (last matches Some(s)
            && timestamp_ms < s.timestamp_ms));
        if forall|i: int|
            0 <= i < l.len() ==> ((#[trigger] l[i]) matches Some(s) && timestamp_ms
                < s.timestamp_ms) {
            assert forall|i: int| 0 <= i < d.len() implies ((#[trigger] d[i]) matches Some(s)
                && timestamp_ms < s.timestamp_ms) by {
                assert(l[i] matches Some(s) && timestamp_ms < s.timestamp_ms);
            }
            assert(l[l.len() - 1] matches Some(s) && timestamp_ms < s.timestamp_ms);
        }
        if r.allows(timestamp_ms) {
            assert forall|i: int| 0 <= i < l.len() implies ((#[trigger] l[i]) matches Some(s)
                && timestamp_ms < s.timestamp_ms) by {
                if i < d.len() {
                    assert(d[i] matches Some(s) && timestamp_ms < s.timestamp_ms);
                }
            }
        }
    }
}

/// What is known of the compaction of a sink.
#[derive(Debug)]
pub struct CompactionTrack {
    /// The snapshot that the running compaction observed: `None` where none runs, `Some(None)`
    /// where it has observed none yet.
    pub processing_gc_watermark_snapshot: Option<Option<IcebergCommittedSnapshot>>,
}

/// What is known of compactions and of expirations, by sink.
pub struct IcebergCompactionManagerInner {
    /// The sinks whose compactions are tracked.
    pub sink_schedules: HashMap<u32, CompactionTrack>,
    /// The sinks whose snapshots expire.
    pub snapshot_expiration_sink_ids: HashSet<u32>,
    /// The sinks whose snapshots are being expired.
    pub snapshot_expiration_in_progress_sink_ids: HashSet<u32>,
}

/// What the tracked compaction of a sink protects.
pub open spec fn protection_of(
    schedules: Map<u32, CompactionTrack>,
    sink_id: u32,
) -> SnapshotExpirationProtection {
    if schedules.dom().contains(sink_id) {
        match schedules[sink_id].processing_gc_watermark_snapshot {
            Some(snapshot) => protected(SnapshotExpirationProtection::NoProtection, snapshot),
            None => SnapshotExpirationProtection::NoProtection,
        }
    } else {
        SnapshotExpirationProtection::NoProtection
    }
}

/// What to do about the snapshots of a sink.
#[derive(Debug, PartialEq, Eq)]
pub enum ExpirationStart {
    /// Its snapshots do not expire any more.
    Disabled,
    /// They are being expired already.
    InProgress,
    /// A compaction has observed no snapshot yet.
    Unprotected,
    /// Expire those that are older than `cutoff_ms`. `by_age_ms` is what their age alone would
    /// allow, and `watermark` the snapshot that a compaction reads.
    Proceed { cutoff_ms: i64, by_age_ms: i64, watermark: Option<IcebergCommittedSnapshot> },
}

/// The timestamp before which snapshots expire by their age.
pub open spec fn age_cutoff(now_ms: i64, configured_ms: Option<i64>) -> i64 {
    match configured_ms {
        Some(t) => t,
        None => (now_ms - MAX_SNAPSHOT_AGE_MS_DEFAULT) as i64,
    }
}

/// The timestamp before which snapshots expire.
pub open spec fn cutoff(by_age_ms: i64, p: SnapshotExpirationProtection) -> i64 {
    match p {
        SnapshotExpirationProtection::Watermark(s) => if s.timestamp_ms < by_age_ms {
            s.timestamp_ms
        } else {
            by_age_ms
        },
        _ => by_age_ms,
    }
}

/// What to do about the snapshots of a sink, by what is known of it.
pub open spec fn started(
    enabled: bool,
    in_progress: bool,
    by_age_ms: i64,
    p: SnapshotExpirationProtection,
) -> ExpirationStart {
    if !enabled {
        ExpirationStart::Disabled
    } else if in_progress {
        ExpirationStart::InProgress
    } else {
        match p {
            SnapshotExpirationProtection::Skip => ExpirationStart::Unprotected,
            SnapshotExpirationProtection::NoProtection => ExpirationStart::Proceed {
                cutoff_ms: by_age_ms,
                by_age_ms,
                watermark: None,
            },
            SnapshotExpirationProtection::Watermark(s) => ExpirationStart::Proceed {
                cutoff_ms: cutoff(by_age_ms, p),
                by_age_ms,
                watermark: Some(s),
            },
        }
    }
}

impl IcebergCompactionManagerInner {
    /// Mark a sink's snapshots as being expired, and return what protects them. `None` where they
    /// are being expired already.
    pub fn begin_snapshot_expiration(&mut self, sink_id: u32) -> (r: Option<
        SnapshotExpirationProtection,
    >)
        ensures
            final(self).sink_schedules == old(self).sink_schedules,
            final(self).snapshot_expiration_sink_ids == old(self).snapshot_expiration_sink_ids,
            final(self).snapshot_expiration_in_progress_sink_ids@ == old(
                self).snapshot_expiration_in_progress_sink_ids@.insert(sink_id),
            old(self).snapshot_expiration_in_progress_sink_ids@.contains(sink_id) ==> r is None,
            !old(self).snapshot_expiration_in_progress_sink_ids@.contains(sink_id) ==> r == Some(
                protection_of(old(self).sink_schedules@, sink_id),
            ),
    {
        if !self.snapshot_expiration_in_progress_sink_ids.insert(sink_id) {
            return None;
        }
        Some(self.snapshot_expiration_protection(sink_id))
    }

    /// Take the mark off a sink.
    pub fn finish_snapshot_expiration(&mut self, sink_id: u32)
        ensures
            final(self).sink_schedules == old(self).sink_schedules,
            final(self).snapshot_expiration_sink_ids == old(self).snapshot_expiration_sink_ids,
            final(self).snapshot_expiration_in_progress_sink_ids@ == old(
                self).snapshot_expiration_in_progress_sink_ids@.remove(sink_id),
    {
        let _ = self.snapshot_expiration_in_progress_sink_ids.remove(&sink_id);
    }

    /// What the tracked compaction of a sink protects.
    pub fn snapshot_expiration_protection(&self, sink_id: u32) -> (r: SnapshotExpirationProtection)
        ensures
            r == protection_of(self.sink_schedules@, sink_id),
    {
        let mut protection = SnapshotExpirationProtection::NoProtection;
        if let Some(track) = self.sink_schedules.get(&sink_id) {
            if let Some(snapshot) = &track.processing_gc_watermark_snapshot {
                match snapshot {
                    Some(s) => protection.protect_with(Some(s)),
                    None => protection.protect_with(None),
                }
            }
        }
        protection
    }

    /// Decide what to do about the snapshots of a sink, at the time `now_ms`. `enabled` says
    /// whether they expire, and `configured_ms` is the timestamp before which they do, if one is
    /// configured. A sink whose snapshots do not expire any more is forgotten. Where the answer is
    /// to proceed the sink stays marked until [`Self::finish_snapshot_expiration`].
    pub fn start_snapshot_expiration(
        &mut self,
        sink_id: u32,
        enabled: bool,
        now_ms: i64,
        configured_ms: Option<i64>,
    ) -> (r: ExpirationStart)
        requires
            enabled && configured_ms is None ==> now_ms >= i64::MIN + MAX_SNAPSHOT_AGE_MS_DEFAULT,
        ensures
            r == started(
                enabled,
                old(self).snapshot_expiration_in_progress_sink_ids@.contains(sink_id),
                age_cutoff(now_ms, configured_ms),
                protection_of(old(self).sink_schedules@, sink_id),
            ),
            final(self).sink_schedules == old(self).sink_schedules,
            final(self).snapshot_expiration_sink_ids@ == if enabled {
                old(self).snapshot_expiration_sink_ids@
            } else {
                old(self).snapshot_expiration_sink_ids@.remove(sink_id)
            },
            final(self).snapshot_expiration_in_progress_sink_ids@ == if r is Proceed {
                old(self).snapshot_expiration_in_progress_sink_ids@.insert(sink_id)
            } else {
                old(self).snapshot_expiration_in_progress_sink_ids@
            },
    {
        if !enabled {
            let _ = self.snapshot_expiration_sink_ids.remove(&sink_id);
            return ExpirationStart::Disabled;
        }
        let by_age_ms: i64 = match configured_ms {
            Some(t) => t,
            None => now_ms - MAX_SNAPSHOT_AGE_MS_DEFAULT,
        };
        let ghost marks = self.snapshot_expiration_in_progress_sink_ids@;
        match self.begin_snapshot_expiration(sink_id) {
            None => {
                assert(marks.insert(sink_id) =~= marks);
                ExpirationStart::InProgress
            },
            Some(SnapshotExpirationProtection::NoProtection) => ExpirationStart::Proceed {
                cutoff_ms: by_age_ms,
                by_age_ms,
                watermark: None,
            },
            Some(SnapshotExpirationProtection::Skip) => {
                self.finish_snapshot_expiration(sink_id);
                assert(marks.insert(sink_id).remove(sink_id) =~= marks);
                ExpirationStart::Unprotected
            },
            Some(SnapshotExpirationProtection::Watermark(s)) => {
                let cutoff_ms: i64 = if s.timestamp_ms < by_age_ms {
                    s.timestamp_ms
                } else {
                    by_age_ms
                };
                ExpirationStart::Proceed { cutoff_ms, by_age_ms, watermark: Some(s) }
            },
        }
    }
}

/// Whether one of the snapshots is older than `cutoff_ms`.
pub fn any_expired(timestamps_ms: &Vec<i64>, cutoff_ms: i64) -> (r: bool)
    ensures
        r == exists|i: int| 0 <= i < timestamps_ms@.len() && #[trigger] timestamps_ms@[i] < cutoff_ms,
{
    let mut i: usize = 0;
    while i < timestamps_ms.len()
        invariant
            i <= timestamps_ms@.len(),
            forall|j: int| 0 <= j < i ==> #[trigger] timestamps_ms@[j] >= cutoff_ms,
        decreases timestamps_ms@.len() - i,
    {
        if timestamps_ms[i] < cutoff_ms {
            return true;
        }
        i = i + 1;
    }
    false
}

/// No snapshot is expired that a compaction reads: one that is older than the cutoff is older than
/// the snapshot that the compaction of the sink observed.
pub proof fn lemma_expiration_spares_compaction(
    enabled: bool,
    in_progress: bool,
    by_age_ms: i64,
    p: SnapshotExpirationProtection,
    timestamp_ms: i64,
)
    requires
        started(enabled, in_progress, by_age_ms, p) matches ExpirationStart::Proceed {
            cutoff_ms,
            ..
        } && timestamp_ms < cutoff_ms,
    ensures
        p.allows(timestamp_ms),
        timestamp_ms < by_age_ms,
{
}

/// Which snapshots of a sink expire. While they do and are not being expired already:
///
/// - a timestamp that is configured counts as it is, whatever the time: without a compaction it is
///   the cutoff;
/// - a day before the time counts where none is configured, and only there;
/// - while a compaction runs that observed a snapshot, those expire that are older than both;
/// - while one runs that has observed none, nothing expires.
pub proof fn lemma_expired_snapshots(
    schedules: Map<u32, CompactionTrack>,
    sink_id: u32,
    now_ms: i64,
    later_ms: i64,
    configured_ms: Option<i64>,
    timestamp_ms: i64,
)
    requires
        configured_ms is None ==> now_ms >= i64::MIN + 86_400_000,
    ensures
        ({
            let running = if schedules.dom().contains(sink_id) {
                schedules[sink_id].processing_gc_watermark_snapshot
            } else {
                None
            };
            let p = protection_of(schedules, sink_id);
            let r = started(true, false, age_cutoff(now_ms, configured_ms), p);
            let by_age: int = match configured_ms {
                Some(t) => t as int,
                None => now_ms - 86_400_000,
            };
            &&& started(false, false, age_cutoff(now_ms, configured_ms), p) is Disabled
            &&& started(false, true, age_cutoff(now_ms, configured_ms), p) is Disabled
            &&& started(true, true, age_cutoff(now_ms, configured_ms), p) is InProgress
            &&& configured_ms is Some ==> r == started(
                true,
                false,
                age_cutoff(later_ms, configured_ms),
                p,
            )
            &&& match running {
                None => {
                    &&& r is Proceed
                    &&& r->cutoff_ms == by_age
                    &&& r->by_age_ms == by_age
                    &&& r->watermark is None
                },
                Some(None) => r is Unprotected,
                Some(Some(s)) => {
                    &&& r is Proceed
                    &&& timestamp_ms < r->cutoff_ms <==> timestamp_ms < by_age && timestamp_ms
                        < s.timestamp_ms
                    &&& r->by_age_ms == by_age
                    &&& r->watermark == Some(s)
                },
            }
        }),
{
}

/// What each compaction protects alone, and what two protect together: the older of what they read,
/// and the one that was there first where both are as old.
pub proof fn lemma_protection_of_two(
    a: IcebergCommittedSnapshot,
    b: IcebergCommittedSnapshot,
    p: SnapshotExpirationProtection,
)
    ensures
        referred(Some(&a)) == Some(a),
        referred(None) is None,
        protected(SnapshotExpirationProtection::NoProtection, Some(a))
            == SnapshotExpirationProtection::Watermark(a),
        protected(p, None) is Skip,
        protected(SnapshotExpirationProtection::Skip, Some(a)) is Skip,
        b.timestamp_ms < a.timestamp_ms ==> protected(
            SnapshotExpirationProtection::Watermark(a),
            Some(b),
        ) == SnapshotExpirationProtection::Watermark(b),
        b.timestamp_ms >= a.timestamp_ms ==> protected(
            SnapshotExpirationProtection::Watermark(a),
            Some(b),
        ) == SnapshotExpirationProtection::Watermark(a),
{
}

} // verus!
