//! Whole histories of a partition.
//!
//! The laws in [`crate::consistency`] are about one step of a partition that is in step with its
//! rows. Here the steps are put together: a history begins with nothing kept and no row, and then
//! rows arrive, changes are told, watermarks pass and the executor is restarted, in any order. What
//! is kept is in step with the rows all along, and so the laws hold of everything that is told.
//! Where changes are told they apply, whatever the predicates read. What is told is what the query
//! gives where no predicate looks ahead and, once rows are evicted, none reads rows outside of the
//! match in progress. Where matches are told when they are final predicates may look ahead.

use crate::buffer::{seqs, BufferView};
use crate::changelog::{
    applied, applied_all, entry, lemma_applied_append, lemma_place, place, row_id, table_of,
    EmittedView,
};
use crate::consistency::{
    batch, holds, lemma_arrivals_keep_step, lemma_diff_applies, lemma_diff_equals_batch,
    lemma_final_visit_decides, lemma_final_visit_keeps_unfrozen, lemma_first_seed_equals_batch,
    lemma_left_has, lemma_nothing_kept_in_step, lemma_rank_order, lemma_seed_equals_batch,
    lemma_told_in_range, lemma_visit_decides, lemma_visit_keeps_step, lemma_visit_prunes,
    names_row, small_seqs, told_sound, unfrozen_in_step, World,
};
use crate::datum::{DatumView, RowView, ScalarView};
use crate::define::{
    known, more_answers, no_lookahead, reads_inside, reads_no_row_before, Answers,
};
use crate::emission::base;
use crate::eval::Request;
use crate::eviction::{
    is_among, lemma_surviving_entry, lemma_surviving_same_entry, surviving,
};
use crate::executor::{progress_of, Caches, Config, MatchRecognizeExecutor};
use crate::frontier::WriteView;
use crate::pattern::Verdicts;
use crate::plan::Op;
use crate::scan::{extendable, lemma_scan_bounds, scan, Span};
use crate::visit::{
    lemma_finals, lemma_held_is_alive, lemma_no_match_lost_or_repeated, lemma_safe_prefix,
    match_rows, with_answers, VisitView,
};
use vstd::prelude::*;

verus! {

/// What happens to a partition.
pub enum Event {
    /// Rows arrive, or other partitions are worked on, or answers are recorded.
    Arrivals,
    /// It is taken from the partitions that got rows since the last barrier.
    Take,
    /// Its changes are told, or the step stops for a missing answer.
    Diff(Result<Seq<(Op, RowView)>, Request>),
    /// It is visited at a watermark, or the visit stops for a missing answer.
    Visit {
        old_wakeup: ScalarView,
        mark: ScalarView,
        min_before: DatumView,
        min_after: DatumView,
        result: Result<(VisitView, Seq<WriteView>), Request>,
    },
    /// It has no rows and is forgotten.
    Forget,
    /// All that is kept is lost, and the executor is started anew with its tables as they are. Where
    /// there is a changelog what was told last is seeded from the rows, at a moment at which it is
    /// what the query gives.
    Restart(MatchRecognizeExecutor),
}

/// The executor and the buffered rows of a partition at one moment.
pub struct Moment {
    pub x: MatchRecognizeExecutor,
    pub rows: Seq<BufferView>,
}

/// A history of a partition: the moments, and the event after each but the last.
pub struct History {
    pub moments: Seq<Moment>,
    pub events: Seq<Event>,
}

/// What the executors keep of the partition is the same.
pub open spec fn keeps_same(
    x0: MatchRecognizeExecutor,
    x1: MatchRecognizeExecutor,
    key: RowView,
) -> bool {
    &&& progress_of(x1.caches().matchers, key) == progress_of(x0.caches().matchers, key)
    &&& base(x1.caches().last_emitted, key) == base(x0.caches().last_emitted, key)
}

/// One of the rows has the seq.
pub open spec fn has_seq(rows: Seq<BufferView>, id: int) -> bool {
    exists|k: int| 0 <= k < rows.len() && (#[trigger] rows[k]).seq == id
}

impl History {
    /// What the executor was made from.
    pub open spec fn config(self) -> Config {
        self.moments[0].x.config()
    }

    /// The row with the seq was evicted before moment `i`.
    pub open spec fn is_gone(self, i: int, id: int) -> bool
        decreases i,
    {
        if i <= 0 {
            false
        } else {
            self.is_gone(i - 1, id) || match self.events[i - 1] {
                Event::Visit { result: Ok((d, _)), .. } => has_seq(
                    self.moments[i - 1].rows.take(d.retain_from),
                    id,
                ),
                _ => false,
            }
        }
    }

    /// The partition is one of those that got rows since the last barrier.
    pub open spec fn dirty(self, key: RowView, i: int) -> bool {
        self.moments[i].x.caches().dirty.contains(key)
    }

    /// The partition was taken before moment `i`, and its changes were not told since.
    pub open spec fn taken(self, i: int) -> bool
        decreases i,
    {
        if i <= 0 {
            false
        } else {
            match self.events[i - 1] {
                Event::Take => true,
                Event::Diff(Ok(_)) => false,
                Event::Forget => false,
                Event::Restart(_) => false,
                _ => self.taken(i - 1),
            }
        }
    }

    /// The event after moment `i` leads to the next moment. Where there is a changelog rows that
    /// arrive make the partition dirty, and a visit comes only when the partition is not dirty and
    /// not taken: its changes are told before.
    pub open spec fn step(self, w: World, key: RowView, b: Answers, i: int) -> bool {
        let m0 = self.moments[i];
        let m1 = self.moments[i + 1];
        &&& m1.x.config() == m0.x.config()
        &&& more_answers(known(m0.x.evaluations()), b)
        &&& match self.events[i] {
            Event::Arrivals => {
                &&& keeps_same(m0.x, m1.x, key)
                &&& w.has(m1.rows)
                &&& small_seqs(m1.rows)
                &&& forall|k: int|
                    0 <= k < m0.rows.len() ==> holds(m1.rows, (#[trigger] m0.rows[k]).seq)
                &&& forall|k: int|
                    0 <= k < m1.rows.len() ==> !self.is_gone(i, (#[trigger] m1.rows[k]).seq as int)
                &&& m0.x.config().emit_on_update && (self.dirty(key, i) || m1.rows != m0.rows)
                    ==> self.dirty(key, i + 1)
            },
            Event::Take => {
                &&& keeps_same(m0.x, m1.x, key)
                &&& m1.rows == m0.rows
                &&& self.dirty(key, i)
                &&& !self.dirty(key, i + 1)
            },
            Event::Diff(r) => {
                &&& m0.x.config().emit_on_update
                &&& m1.x.diffed(&m0.x, key, m0.rows, r)
                &&& m1.rows == m0.rows
                &&& r is Err ==> self.dirty(key, i + 1) == self.dirty(key, i)
            },
            Event::Visit { old_wakeup, mark, min_before, min_after, result } => {
                &&& m1.x.visited(
                    &m0.x,
                    key,
                    old_wakeup,
                    m0.rows,
                    mark,
                    min_before,
                    min_after,
                    result,
                )
                &&& m1.rows == match result {
                    Ok((d, _)) => m0.rows.skip(d.retain_from),
                    Err(_) => m0.rows,
                }
                &&& self.dirty(key, i + 1) == self.dirty(key, i)
                &&& m0.x.config().emit_on_update ==> !self.dirty(key, i) && !self.taken(i)
            },
            Event::Forget => {
                &&& m0.rows.len() == 0
                &&& m1.rows == m0.rows
                &&& !m1.x.caches().matchers.dom().contains(key)
                &&& base(m1.x.caches().last_emitted, key).len() == 0 || base(
                    m1.x.caches().last_emitted,
                    key,
                ) == base(m0.x.caches().last_emitted, key)
            },
            Event::Restart(fresh) => {
                &&& fresh.config() == m0.x.config()
                &&& more_answers(known(fresh.evaluations()), b)
                &&& !fresh.caches().matchers.dom().contains(key)
                &&& !fresh.caches().last_emitted.dom().contains(key)
                &&& m1.rows == m0.rows
                &&& if m0.x.config().emit_on_update {
                    &&& m1.x.seeded(&fresh, key, m0.rows, Ok(()))
                    &&& batch(m0.x.config(), key, m0.rows, b) == Ok::<Seq<EmittedView>, Request>(
                        base(m0.x.caches().last_emitted, key),
                    )
                } else {
                    keeps_same(fresh, m1.x, key)
                }
            },
        }
    }

    /// The history begins with nothing kept and no row, and each event leads to the next moment.
    /// `w` are the rows that there are at one time or another, and `b` all answers.
    pub open spec fn ok(self, w: World, key: RowView, b: Answers) -> bool {
        &&& self.moments.len() == self.events.len() + 1
        &&& w.ok()
        &&& self.moments[0].rows.len() == 0
        &&& !self.moments[0].x.caches().matchers.dom().contains(key)
        &&& !self.moments[0].x.caches().last_emitted.dom().contains(key)
        &&& forall|i: int| 0 <= i < self.moments.len() ==> (#[trigger] self.moments[i]).x.wf()
        &&& forall|i: int| 0 <= i < self.events.len() ==> #[trigger] self.step(w, key, b, i)
    }

    /// No predicate looks ahead, and where watermarks pass none reads rows outside of the match in
    /// progress.
    pub open spec fn reads_back(self) -> bool {
        &&& no_lookahead(self.config().defines)
        &&& forall|i: int|
            0 <= i < self.events.len() && (#[trigger] self.events[i]) is Visit ==> reads_inside(
                self.config().pattern,
                self.config().defines,
            )
    }

    /// Where watermarks pass no predicate reads rows before the match in progress, which may be
    /// evicted.
    pub open spec fn reads_no_evicted_row(self) -> bool {
        forall|i: int|
            0 <= i < self.events.len() && (#[trigger] self.events[i]) is Visit
                ==> reads_no_row_before(self.config().pattern, self.config().defines)
    }

    /// The changes told before moment `i`.
    pub open spec fn told(self, i: int) -> Seq<(Op, RowView)>
        decreases i,
    {
        if i <= 0 {
            Seq::empty()
        } else {
            match self.events[i - 1] {
                Event::Diff(Ok(ops)) => self.told(i - 1) + ops,
                _ => self.told(i - 1),
            }
        }
    }

    /// Rows arrived before moment `i` that no changes were told of since.
    pub open spec fn pending(self, i: int) -> bool
        decreases i,
    {
        if i <= 0 {
            false
        } else {
            match self.events[i - 1] {
                Event::Arrivals => self.pending(i - 1) || self.moments[i].rows != self.moments[i
                    - 1].rows,
                Event::Diff(Ok(_)) => false,
                Event::Restart(_) => self.pending(i - 1) && !self.config().emit_on_update,
                _ => self.pending(i - 1),
            }
        }
    }

    /// The last moment up to `i` at which what was told last was what the query gives: the first
    /// one, one after changes were told, or one after a restart.
    pub open spec fn told_up_to(self, i: int) -> int
        decreases i,
    {
        if i <= 0 {
            0
        } else {
            match self.events[i - 1] {
                Event::Diff(Ok(_)) => i,
                Event::Restart(_) => i,
                _ => self.told_up_to(i - 1),
            }
        }
    }

    /// The table downstream at moment `i`, keyed by identity; `None` where a change did not apply.
    pub open spec fn table(self, i: int) -> Option<Map<int, RowView>> {
        applied_all(Map::empty(), self.told(i))
    }
}

/// At every moment, whatever the predicates read, the rows are rows of the partition in their order,
/// and each match that was told last has the identity of one of them.
pub proof fn lemma_history_sound(h: History, w: World, key: RowView, b: Answers, i: int)
    requires
        h.ok(w, key, b),
        0 <= i < h.moments.len(),
    ensures
        h.moments[i].x.config() == h.config(),
        w.has(h.moments[i].rows),
        small_seqs(h.moments[i].rows),
        told_sound(h.moments[i].rows, base(h.moments[i].x.caches().last_emitted, key)),
        !h.config().emit_on_update ==> base(h.moments[i].x.caches().last_emitted, key).len() == 0,
    decreases i,
{
    if i > 0 {
        lemma_history_sound(h, w, key, b, i - 1);
        assert(h.step(w, key, b, i - 1));
        let m0 = h.moments[i - 1];
        let m1 = h.moments[i];
        assert(m0.x.wf());
        let last0 = base(m0.x.caches().last_emitted, key);
        let last1 = base(m1.x.caches().last_emitted, key);
        match h.events[i - 1] {
            Event::Arrivals => {
                assert forall|j: int| 0 <= j < last1.len() implies row_id(
                    (#[trigger] last1[j]).1,
                ) == Some(last1[j].0.start_seq) && names_row(m1.rows, last1[j].1) by {
                    assert(names_row(m0.rows, last0[j].1));
                    let k = choose|k: int|
                        0 <= k < m0.rows.len() && row_id(last0[j].1) == Some(
                            (#[trigger] m0.rows[k]).seq as int,
                        );
                    assert(holds(m1.rows, m0.rows[k].seq));
                    let y = choose|y: int|
                        0 <= y < m1.rows.len() && (#[trigger] m1.rows[y]).seq == m0.rows[k].seq;
                    assert(row_id(last1[j].1) == Some(m1.rows[y].seq as int));
                }
            },
            Event::Diff(r) => {
                lemma_diff_applies(&m0.x, &m1.x, key, m0.rows, r);
            },
            Event::Visit { old_wakeup, mark, min_before, min_after, result } => {
                lemma_visit_prunes(
                    &m0.x,
                    &m1.x,
                    key,
                    old_wakeup,
                    m0.rows,
                    mark,
                    min_before,
                    min_after,
                    result,
                );
                if let Ok((d, _)) = result {
                    lemma_left_sound(w, m0.rows, d.retain_from, last0);
                    if d.retain_from == 0 {
                        assert(m0.rows.skip(0) =~= m0.rows);
                    }
                }
            },
            Event::Restart(fresh) => {
                lemma_restart_keeps_base(m0, fresh, m1, key, b);
            },
            _ => {},
        }
    }
}

/// Of the rows that are left the same holds.
proof fn lemma_left_sound(w: World, rows: Seq<BufferView>, k: int, l: Seq<EmittedView>)
    requires
        w.has(rows),
        small_seqs(rows),
        told_sound(rows, l),
        0 <= k <= rows.len(),
    ensures
        w.has(rows.skip(k)),
        small_seqs(rows.skip(k)),
        told_sound(rows.skip(k), surviving(l, seqs(rows).skip(k), l.len() as int)),
{
    let left = rows.skip(k);
    let seqs_left = seqs(rows).skip(k);
    let kept = surviving(l, seqs_left, l.len() as int);
    lemma_left_has(w, rows, k);
    assert forall|i: int| 0 <= i < left.len() implies (#[trigger] left[i]).seq < i64::MAX by {
        assert(rows[i + k].seq < i64::MAX);
    }
    assert forall|i: int| 0 <= i < kept.len() implies row_id((#[trigger] kept[i]).1) == Some(
        kept[i].0.start_seq,
    ) && names_row(left, kept[i].1) by {
        let x = lemma_surviving_entry(l, seqs_left, l.len() as int, i);
        assert(row_id(l[x].1) == Some(l[x].0.start_seq));
        let j = choose|j: int|
            0 <= j < seqs_left.len() && #[trigger] seqs_left[j] == l[x].0.start_seq;
        assert(left[j].seq == seqs_left[j]);
        assert(row_id(kept[i].1) == Some(left[j].seq as int));
    }
}

/// At every moment what is kept is in step with the rows.
pub proof fn lemma_history_in_step(h: History, w: World, key: RowView, b: Answers, i: int)
    requires
        h.ok(w, key, b),
        h.reads_back(),
        0 <= i < h.moments.len(),
    ensures
        h.moments[i].x.config() == h.config(),
        small_seqs(h.moments[i].rows),
        h.moments[i].x.in_step(w, key, b, h.moments[i].rows),
    decreases i,
{
    if i == 0 {
        lemma_nothing_kept_in_step(&h.moments[0].x, w, key, b, h.moments[0].rows);
    } else {
        lemma_history_in_step(h, w, key, b, i - 1);
        assert(h.step(w, key, b, i - 1));
        let m0 = h.moments[i - 1];
        let m1 = h.moments[i];
        match h.events[i - 1] {
            Event::Arrivals => {
                lemma_arrivals_keep_step(&m0.x, w, key, b, m0.rows, m1.rows);
            },
            Event::Take => {},
            Event::Diff(r) => {
                lemma_diff_equals_batch(&m0.x, &m1.x, w, key, b, m0.rows, r);
            },
            Event::Visit { old_wakeup, mark, min_before, min_after, result } => {
                assert(h.events[i - 1] is Visit);
                lemma_visit_keeps_step(
                    &m0.x,
                    &m1.x,
                    w,
                    key,
                    b,
                    old_wakeup,
                    m0.rows,
                    mark,
                    min_before,
                    min_after,
                    result,
                );
                if let Ok((d, _)) = result {
                    assert forall|k: int| 0 <= k < m1.rows.len() implies (
                    #[trigger] m1.rows[k]).seq < i64::MAX by {
                        assert(m0.rows[k + d.retain_from].seq < i64::MAX);
                    }
                }
            },
            Event::Forget => {
                lemma_nothing_told_without_rows(h, w, key, b, i - 1);
                lemma_forgotten_in_step(m0, m1, w, key, b);
            },
            Event::Restart(fresh) => {
                lemma_nothing_kept_in_step(&fresh, w, key, b, m0.rows);
                if m0.x.config().emit_on_update {
                    lemma_seed_equals_batch(&fresh, &m1.x, w, key, b, m0.rows, Ok(()));
                }
            },
        }
    }
}

/// A partition without rows told nothing that is kept.
proof fn lemma_nothing_told_without_rows(
    h: History,
    w: World,
    key: RowView,
    b: Answers,
    i: int,
)
    requires
        h.ok(w, key, b),
        0 <= i < h.moments.len(),
        h.moments[i].rows.len() == 0,
    ensures
        base(h.moments[i].x.caches().last_emitted, key).len() == 0,
{
    let prev = base(h.moments[i].x.caches().last_emitted, key);
    lemma_history_sound(h, w, key, b, i);
    if prev.len() > 0 {
        assert(names_row(h.moments[i].rows, prev[0].1));
    }
}

proof fn lemma_forgotten_in_step(m0: Moment, m1: Moment, w: World, key: RowView, b: Answers)
    requires
        m0.x.in_step(w, key, b, m0.rows),
        base(m0.x.caches().last_emitted, key).len() == 0,
        m1.x.config() == m0.x.config(),
        m1.rows == m0.rows,
        !m1.x.caches().matchers.dom().contains(key),
        base(m1.x.caches().last_emitted, key).len() == 0 || base(m1.x.caches().last_emitted, key)
            == base(m0.x.caches().last_emitted, key),
    ensures
        m1.x.in_step(w, key, b, m1.rows),
{
    let spans: Seq<Span> = Seq::empty();
    assert(spans.take(0) =~= Seq::empty());
}

/// A restart finds what was told last.
proof fn lemma_restart_keeps_base(
    m0: Moment,
    fresh: MatchRecognizeExecutor,
    m1: Moment,
    key: RowView,
    b: Answers,
)
    requires
        !m0.x.config().emit_on_update ==> base(m0.x.caches().last_emitted, key).len() == 0,
        m1.x.config() == m0.x.config(),
        fresh.config() == m0.x.config(),
        more_answers(known(fresh.evaluations()), b),
        !fresh.caches().matchers.dom().contains(key),
        !fresh.caches().last_emitted.dom().contains(key),
        if m0.x.config().emit_on_update {
            &&& m1.x.seeded(&fresh, key, m0.rows, Ok(()))
            &&& batch(m0.x.config(), key, m0.rows, b) == Ok::<Seq<EmittedView>, Request>(
                base(m0.x.caches().last_emitted, key),
            )
        } else {
            keeps_same(fresh, m1.x, key)
        },
    ensures
        base(m1.x.caches().last_emitted, key) == base(m0.x.caches().last_emitted, key),
{
    if m0.x.config().emit_on_update {
        lemma_first_seed_equals_batch(&fresh, &m1.x, key, b, m0.rows);
    } else {
        assert(base(m1.x.caches().last_emitted, key) =~= base(m0.x.caches().last_emitted, key));
    }
}

/// A row that was evicted is not buffered.
pub proof fn lemma_gone_is_not_buffered(
    h: History,
    w: World,
    key: RowView,
    b: Answers,
    i: int,
    id: int,
)
    requires
        h.ok(w, key, b),
        0 <= i < h.moments.len(),
        h.is_gone(i, id),
    ensures
        !has_seq(h.moments[i].rows, id),
    decreases i,
{
    let m0 = h.moments[i - 1];
    let m1 = h.moments[i];
    assert(h.step(w, key, b, i - 1));
    assert(m0.x.wf());
    lemma_history_sound(h, w, key, b, i - 1);
    if h.is_gone(i - 1, id) {
        lemma_gone_is_not_buffered(h, w, key, b, i - 1, id);
    }
    if has_seq(m1.rows, id) {
        let k = choose|k: int| 0 <= k < m1.rows.len() && (#[trigger] m1.rows[k]).seq == id;
        match h.events[i - 1] {
            Event::Visit { result: Ok((d, _)), old_wakeup, mark, min_before, min_after } => {
                lemma_visit_prunes(
                    &m0.x,
                    &m1.x,
                    key,
                    old_wakeup,
                    m0.rows,
                    mark,
                    min_before,
                    min_after,
                    h.events[i - 1]->result,
                );
                let at = d.retain_from;
                assert(m0.rows[k + at].seq == id);
                if has_seq(m0.rows.take(at), id) {
                    let j = choose|j: int|
                        0 <= j < m0.rows.take(at).len() && (#[trigger] m0.rows.take(at)[j]).seq
                            == id;
                    assert(m0.rows[j].seq == id);
                    lemma_rank_order(w, m0.rows, j, k + at);
                }
            },
            _ => {},
        }
    }
}

/// Off the identities in `out`, the tables are the same.
spec fn same_off(t1: Map<int, RowView>, t2: Map<int, RowView>, out: spec_fn(int) -> bool) -> bool {
    forall|id: int|
        !#[trigger] out(id) ==> (t1.dom().contains(id) <==> t2.dom().contains(id)) && (
        t1.dom().contains(id) ==> t1[id] == t2[id])
}

/// On the identities in `out`, the tables are the same.
spec fn same_on(t1: Map<int, RowView>, t2: Map<int, RowView>, out: spec_fn(int) -> bool) -> bool {
    forall|id: int|
        #[trigger] out(id) ==> (t1.dom().contains(id) <==> t2.dom().contains(id)) && (
        t1.dom().contains(id) ==> t1[id] == t2[id])
}

/// Changes that carry no identity in `out` apply the same whatever the table holds of those, and
/// leave that alone.
proof fn lemma_applied_beside(
    t1: Map<int, RowView>,
    t2: Map<int, RowView>,
    ops: Seq<(Op, RowView)>,
    out: spec_fn(int) -> bool,
)
    requires
        same_off(t1, t2, out),
        applied_all(t1, ops) is Some,
        forall|x: int|
            0 <= x < ops.len() ==> (row_id((#[trigger] ops[x]).1) matches Some(id) ==> !out(id)),
    ensures
        applied_all(t2, ops) is Some,
        same_off(applied_all(t1, ops)->Some_0, applied_all(t2, ops)->Some_0, out),
        same_on(t2, applied_all(t2, ops)->Some_0, out),
    decreases ops.len(),
{
    if ops.len() > 0 {
        let rest = ops.drop_first();
        assert(row_id(ops[0].1) matches Some(id) ==> !out(id));
        let n1 = applied(t1, ops[0])->Some_0;
        assert(applied(t2, ops[0]) is Some);
        let n2 = applied(t2, ops[0])->Some_0;
        assert forall|x: int| 0 <= x < rest.len() implies (row_id(
            (#[trigger] rest[x]).1,
        ) matches Some(id) ==> !out(id)) by {
            assert(rest[x] == ops[x + 1]);
        }
        lemma_applied_beside(n1, n2, rest, out);
    }
}

/// The table holds what was told last, and beside it only rows of matches whose first row was
/// evicted.
pub open spec fn holds_told(h: History, i: int, t: Map<int, RowView>, key: RowView) -> bool {
    let last = table_of(base(h.moments[i].x.caches().last_emitted, key));
    &&& forall|id: int| #[trigger]
        last.dom().contains(id) ==> t.dom().contains(id) && t[id] == last[id] && !h.is_gone(i, id)
    &&& forall|id: int| #[trigger]
        t.dom().contains(id) ==> last.dom().contains(id) || h.is_gone(i, id)
}

/// What is told last has identities of buffered rows.
proof fn lemma_told_is_buffered(h: History, w: World, key: RowView, b: Answers, i: int, id: int)
    requires
        h.ok(w, key, b),
        0 <= i < h.moments.len(),
        entry(base(h.moments[i].x.caches().last_emitted, key), id) is Some,
    ensures
        has_seq(h.moments[i].rows, id),
        !h.is_gone(i, id),
{
    let m = h.moments[i];
    let prev = base(m.x.caches().last_emitted, key);
    lemma_history_sound(h, w, key, b, i);
    lemma_place(prev, id, 0);
    let k = place(prev, id, 0)->Some_0;
    lemma_told_in_range(m.rows, prev);
    assert(prev[k].0.start_seq == id);
    let j = choose|j: int|
        0 <= j < m.rows.len() && (#[trigger] m.rows[j]).seq == prev[k].0.start_seq;
    assert(m.rows[j].seq == id);
    if h.is_gone(i, id) {
        lemma_gone_is_not_buffered(h, w, key, b, i, id);
    }
}

/// The law of the changelog over a whole history: all changes apply, one after the other. So each
/// deletion deletes a row that was inserted and not deleted since, each insertion inserts one whose
/// identity is not there, and at most one row has an identity at any time. The table holds what was
/// told last, and beside it only rows of matches whose first row was evicted.
pub proof fn lemma_history_applies(h: History, w: World, key: RowView, b: Answers, i: int)
    requires
        h.ok(w, key, b),
        0 <= i < h.moments.len(),
    ensures
        h.table(i) is Some,
        holds_told(h, i, h.table(i)->Some_0, key),
    decreases i,
{
    if i > 0 {
        lemma_history_applies(h, w, key, b, i - 1);
        lemma_step_applies(h, w, key, b, i);
    }
}

proof fn lemma_step_applies(h: History, w: World, key: RowView, b: Answers, i: int)
    requires
        h.ok(w, key, b),
        0 < i < h.moments.len(),
        h.table(i - 1) is Some,
        holds_told(h, i - 1, h.table(i - 1)->Some_0, key),
    ensures
        h.table(i) is Some,
        holds_told(h, i, h.table(i)->Some_0, key),
        forall|id: int|
            #[trigger] h.is_gone(i - 1, id) ==> (h.table(i)->Some_0.dom().contains(id) <==> h.table(
                i - 1,
            )->Some_0.dom().contains(id)) && (h.table(i)->Some_0.dom().contains(id)
                ==> h.table(i)->Some_0[id] == h.table(i - 1)->Some_0[id]),
{
    let m0 = h.moments[i - 1];
    let m1 = h.moments[i];
    let t = h.table(i - 1)->Some_0;
    let last0 = base(m0.x.caches().last_emitted, key);
    let last1 = base(m1.x.caches().last_emitted, key);
    assert(h.step(w, key, b, i - 1));
    assert(m0.x.wf());
    lemma_history_sound(h, w, key, b, i - 1);
    match h.events[i - 1] {
        Event::Arrivals => {},
        Event::Take => {},
        Event::Diff(Err(q)) => {
            lemma_diff_applies(&m0.x, &m1.x, key, m0.rows, Err(q));
        },
        Event::Diff(Ok(ops)) => {
            let out = |id: int| h.is_gone(i - 1, id);
            lemma_diff_applies(&m0.x, &m1.x, key, m0.rows, Ok(ops));
            assert forall|x: int| 0 <= x < ops.len() implies (row_id(
                (#[trigger] ops[x]).1,
            ) matches Some(id) ==> !out(id)) by {
                assert(names_row(m0.rows, ops[x].1));
                let k = choose|k: int|
                    0 <= k < m0.rows.len() && row_id(ops[x].1) == Some(
                        (#[trigger] m0.rows[k]).seq as int,
                    );
                let id = m0.rows[k].seq as int;
                assert(has_seq(m0.rows, id));
                if h.is_gone(i - 1, id) {
                    lemma_gone_is_not_buffered(h, w, key, b, i - 1, id);
                }
            }
            assert forall|id: int| !#[trigger] out(id) implies (table_of(
                last0,
            ).dom().contains(id) <==> t.dom().contains(id)) && (table_of(last0).dom().contains(id)
                ==> table_of(last0)[id] == t[id]) by {}
            lemma_applied_beside(table_of(last0), t, ops, out);
            lemma_applied_append(Map::empty(), h.told(i - 1), ops);
            let t2 = applied_all(t, ops)->Some_0;
            assert(h.table(i) == Some(t2));
            let told = table_of(last1);
            assert forall|id: int| #[trigger] told.dom().contains(id) implies t2.dom().contains(id)
                && t2[id] == told[id] && !h.is_gone(i, id) by {
                lemma_told_is_buffered(h, w, key, b, i, id);
                assert(!out(id));
            }
            assert forall|id: int| #[trigger] t2.dom().contains(id) implies table_of(
                last1,
            ).dom().contains(id) || h.is_gone(i, id) by {
                if !out(id) {
                    assert(table_of(last1).dom().contains(id));
                }
            }
            assert forall|id: int| #[trigger] h.is_gone(i - 1, id) implies (t2.dom().contains(id)
                <==> t.dom().contains(id)) && (t2.dom().contains(id) ==> t2[id] == t[id]) by {
                assert(out(id));
            }
        },
        Event::Visit { old_wakeup, mark, min_before, min_after, result } => {
            lemma_visit_prunes(
                &m0.x,
                &m1.x,
                key,
                old_wakeup,
                m0.rows,
                mark,
                min_before,
                min_after,
                result,
            );
            if let Ok((d, _)) = result {
                let at = d.retain_from;
                let left = seqs(m0.rows).skip(at);
                let pruned = m0.x.config().emit_on_update && at > 0;
                assert forall|id: int| entry(last1, id) == if !pruned || is_among(left, id) {
                    entry(last0, id)
                } else {
                    None
                } by {
                    if pruned {
                        lemma_surviving_same_entry(last0, left, last0.len() as int, id);
                        assert(last0.take(last0.len() as int) =~= last0);
                    }
                }
                let told = table_of(last1);
                assert forall|id: int| #[trigger] told.dom().contains(id) implies t.dom().contains(
                    id,
                ) && t[id] == told[id] && !h.is_gone(i, id) by {
                    assert(table_of(last0).dom().contains(id));
                    lemma_told_is_buffered(h, w, key, b, i, id);
                }
                assert forall|id: int| #[trigger] t.dom().contains(id) implies table_of(
                    last1,
                ).dom().contains(id) || h.is_gone(i, id) by {
                    if table_of(last0).dom().contains(id) && !table_of(last1).dom().contains(id) {
                        lemma_told_is_buffered(h, w, key, b, i - 1, id);
                        let k = choose|k: int|
                            0 <= k < m0.rows.len() && (#[trigger] m0.rows[k]).seq == id;
                        if at <= k {
                            assert(left[k - at] == id);
                        } else {
                            assert(m0.rows.take(at)[k].seq == id);
                        }
                    }
                }
            }
        },
        Event::Forget => {
            lemma_nothing_told_without_rows(h, w, key, b, i - 1);
        },
        Event::Restart(fresh) => {
            lemma_restart_keeps_base(m0, fresh, m1, key, b);
        },
    }
}

/// What is told of an evicted row stays: from the moment on at which the row is gone, no change
/// carries its identity, and the table keeps what it holds of it. So a match whose first row was
/// evicted is never taken back.
pub proof fn lemma_gone_is_left_alone(
    h: History,
    w: World,
    key: RowView,
    b: Answers,
    i: int,
    j: int,
    id: int,
)
    requires
        h.ok(w, key, b),
        0 <= i <= j < h.moments.len(),
        h.is_gone(i, id),
    ensures
        h.is_gone(j, id),
        h.table(j)->Some_0.dom().contains(id) <==> h.table(i)->Some_0.dom().contains(id),
        h.table(j)->Some_0.dom().contains(id) ==> h.table(j)->Some_0[id] == h.table(i)->Some_0[id],
        h.told(i).len() <= h.told(j).len(),
        forall|x: int|
            h.told(i).len() <= x < h.told(j).len() ==> row_id((#[trigger] h.told(j)[x]).1) != Some(
                id,
            ),
    decreases j - i,
{
    if i < j {
        let m0 = h.moments[j - 1];
        let m1 = h.moments[j];
        lemma_gone_is_left_alone(h, w, key, b, i, j - 1, id);
        lemma_history_applies(h, w, key, b, j - 1);
        lemma_step_applies(h, w, key, b, j);
        assert(h.step(w, key, b, j - 1));
        if let Event::Diff(Ok(ops)) = h.events[j - 1] {
            assert(m0.x.wf());
            lemma_history_sound(h, w, key, b, j - 1);
            lemma_diff_applies(&m0.x, &m1.x, key, m0.rows, Ok(ops));
            lemma_gone_is_not_buffered(h, w, key, b, j - 1, id);
            let before = h.told(j - 1);
            assert forall|x: int| h.told(i).len() <= x < h.told(j).len() implies row_id(
                (#[trigger] h.told(j)[x]).1,
            ) != Some(id) by {
                if x < before.len() {
                    assert(h.told(j)[x] == before[x]);
                } else {
                    let op = ops[x - before.len()];
                    assert(h.told(j)[x] == op);
                    assert(names_row(m0.rows, op.1));
                    let k = choose|k: int|
                        0 <= k < m0.rows.len() && row_id(op.1) == Some(
                            (#[trigger] m0.rows[k]).seq as int,
                        );
                    if row_id(op.1) == Some(id) {
                        assert(has_seq(m0.rows, id));
                    }
                }
            }
        }
    }
}

/// Where the changes were told and the rows are the same since, what was told last is what evaluating
/// the query on the rows from scratch gives.
proof fn lemma_told_is_batch(h: History, w: World, key: RowView, b: Answers, j: int, i: int)
    requires
        h.ok(w, key, b),
        h.reads_back(),
        0 < j <= i < h.moments.len(),
        h.events[j - 1] matches Event::Diff(r) && r is Ok,
        forall|l: int| j <= l <= i ==> (#[trigger] h.moments[l]).rows == h.moments[j].rows,
    ensures
        batch(h.config(), key, h.moments[i].rows, b) == Ok::<Seq<EmittedView>, Request>(
            base(h.moments[i].x.caches().last_emitted, key),
        ),
    decreases i - j,
{
    let m0 = h.moments[i - 1];
    let m1 = h.moments[i];
    assert(h.step(w, key, b, i - 1));
    lemma_history_in_step(h, w, key, b, i - 1);
    assert(m1.rows == h.moments[j].rows);
    if i > j {
        assert(m0.rows == h.moments[j].rows);
        lemma_told_is_batch(h, w, key, b, j, i - 1);
    }
    lemma_history_sound(h, w, key, b, i - 1);
    match h.events[i - 1] {
        Event::Arrivals => {},
        Event::Take => {},
        Event::Diff(r) => {
            lemma_diff_equals_batch(&m0.x, &m1.x, w, key, b, m0.rows, r);
        },
        Event::Visit { old_wakeup, mark, min_before, min_after, result } => {
            assert(h.events[i - 1] is Visit);
            lemma_visit_keeps_step(
                &m0.x,
                &m1.x,
                w,
                key,
                b,
                old_wakeup,
                m0.rows,
                mark,
                min_before,
                min_after,
                result,
            );
            if let Ok((d, _)) = result {
                assert(m0.rows.skip(d.retain_from).len() == m0.rows.len() - d.retain_from);
            }
        },
        Event::Forget => {
            lemma_nothing_told_without_rows(h, w, key, b, i - 1);
            assert(base(m1.x.caches().last_emitted, key) =~= base(
                m0.x.caches().last_emitted,
                key,
            ));
        },
        Event::Restart(fresh) => {
            lemma_restart_keeps_base(m0, fresh, m1, key, b);
        },
    }
}

/// No row is gone where no watermark passed.
proof fn lemma_nothing_gone(h: History, i: int, id: int)
    requires
        0 <= i <= h.events.len(),
        forall|l: int| 0 <= l < i ==> !((#[trigger] h.events[l]) is Visit),
    ensures
        !h.is_gone(i, id),
    decreases i,
{
    if i > 0 {
        lemma_nothing_gone(h, i - 1, id);
        assert(!(h.events[i - 1] is Visit));
    }
}

/// The law of the changelog against the query: where the changes were told and no row arrived or was
/// evicted since, as at a barrier, the table is what evaluating the query on all buffered rows from
/// scratch gives, but for rows of matches whose first row was evicted.
pub proof fn lemma_history_equals_batch(
    h: History,
    w: World,
    key: RowView,
    b: Answers,
    j: int,
    i: int,
)
    requires
        h.ok(w, key, b),
        h.reads_back(),
        0 < j <= i < h.moments.len(),
        h.events[j - 1] matches Event::Diff(r) && r is Ok,
        forall|l: int| j <= l <= i ==> (#[trigger] h.moments[l]).rows == h.moments[j].rows,
    ensures
        h.table(i) is Some,
        batch(h.config(), key, h.moments[i].rows, b) is Ok,
        ({
            let t = h.table(i)->Some_0;
            let query = table_of(batch(h.config(), key, h.moments[i].rows, b)->Ok_0);
            &&& forall|id: int|
                !(#[trigger] h.is_gone(i, id)) ==> (t.dom().contains(id)
                    <==> query.dom().contains(id)) && (t.dom().contains(id) ==> t[id] == query[id])
            &&& forall|id: int| #[trigger] query.dom().contains(id) ==> t.dom().contains(id)
        }),
{
    lemma_told_is_batch(h, w, key, b, j, i);
    lemma_history_applies(h, w, key, b, i);
    let t = h.table(i)->Some_0;
    let query = table_of(batch(h.config(), key, h.moments[i].rows, b)->Ok_0);
    assert forall|id: int| !(#[trigger] h.is_gone(i, id)) implies (t.dom().contains(id)
        <==> query.dom().contains(id)) && (t.dom().contains(id) ==> t[id] == query[id]) by {
        assert(query.dom().contains(id) ==> t.dom().contains(id));
        assert(t.dom().contains(id) ==> query.dom().contains(id));
    }
}

proof fn lemma_clean_is_batch(h: History, w: World, key: RowView, b: Answers, i: int)
    requires
        h.ok(w, key, b),
        h.reads_back(),
        0 <= i < h.moments.len(),
        !h.pending(i),
        forall|l: int| 0 <= l < i ==> !((#[trigger] h.events[l]) is Visit),
    ensures
        batch(h.config(), key, h.moments[i].rows, b) == Ok::<Seq<EmittedView>, Request>(
            base(h.moments[i].x.caches().last_emitted, key),
        ),
    decreases i,
{
    if i == 0 {
        let m = h.moments[0];
        assert(base(m.x.caches().last_emitted, key) =~= Seq::empty());
    } else {
        let m0 = h.moments[i - 1];
        let m1 = h.moments[i];
        assert(h.step(w, key, b, i - 1));
        lemma_history_in_step(h, w, key, b, i - 1);
        assert(!(h.events[i - 1] is Visit));
        lemma_history_sound(h, w, key, b, i - 1);
        match h.events[i - 1] {
            Event::Diff(Ok(ops)) => {
                lemma_diff_equals_batch(&m0.x, &m1.x, w, key, b, m0.rows, Ok(ops));
            },
            Event::Restart(fresh) => {
                lemma_restart_keeps_base(m0, fresh, m1, key, b);
                if !h.pending(i - 1) {
                    lemma_clean_is_batch(h, w, key, b, i - 1);
                }
            },
            _ => {
                lemma_clean_is_batch(h, w, key, b, i - 1);
                if h.events[i - 1] is Forget {
                    lemma_nothing_told_without_rows(h, w, key, b, i - 1);
                    assert(base(m1.x.caches().last_emitted, key) =~= base(
                        m0.x.caches().last_emitted,
                        key,
                    ));
                }
            },
        }
    }
}

/// The law of a barrier: where no watermark passed and the changes were told of all rows that
/// arrived, in whatever order they came, the table is what evaluating the query on all rows from
/// scratch gives.
pub proof fn lemma_barrier_equals_batch(h: History, w: World, key: RowView, b: Answers, i: int)
    requires
        h.ok(w, key, b),
        h.reads_back(),
        0 <= i < h.moments.len(),
        !h.pending(i),
        forall|l: int| 0 <= l < i ==> !((#[trigger] h.events[l]) is Visit),
    ensures
        batch(h.config(), key, h.moments[i].rows, b) is Ok,
        h.table(i) == Some(table_of(batch(h.config(), key, h.moments[i].rows, b)->Ok_0)),
{
    lemma_clean_is_batch(h, w, key, b, i);
    lemma_history_applies(h, w, key, b, i);
    let t = h.table(i)->Some_0;
    let query = table_of(batch(h.config(), key, h.moments[i].rows, b)->Ok_0);
    assert forall|id: int| t.dom().contains(id) <==> query.dom().contains(id) by {
        lemma_nothing_gone(h, i, id);
    }
    assert(t =~= query);
}

/// Scheduling a partition that got rows keeps what is kept of every partition and leaves those dirty
/// that were. Where there is a changelog the partition is dirty then.
pub proof fn lemma_insert_makes_dirty(
    x0: &MatchRecognizeExecutor,
    x1: &MatchRecognizeExecutor,
    got_rows: RowView,
    key: RowView,
)
    requires
        x1.caches() == (Caches {
            dirty: if x0.config().emit_on_update {
                x0.caches().dirty.insert(got_rows)
            } else {
                x0.caches().dirty
            },
            min_wakeup: x1.caches().min_wakeup,
            ..x0.caches()
        }),
    ensures
        keeps_same(*x0, *x1, key),
        x0.caches().dirty.contains(key) ==> x1.caches().dirty.contains(key),
        x0.config().emit_on_update ==> x1.caches().dirty.contains(got_rows),
{
}

/// Taking one of the partitions that got rows keeps what is kept of every partition and leaves the
/// others dirty.
pub proof fn lemma_pop_takes_one(
    x0: &MatchRecognizeExecutor,
    x1: &MatchRecognizeExecutor,
    popped: RowView,
    key: RowView,
)
    requires
        x1.caches() == (Caches {
            dirty: x0.caches().dirty.remove(popped),
            ..x0.caches()
        }),
    ensures
        keeps_same(*x0, *x1, key),
        x1.caches().dirty.contains(key) <==> x0.caches().dirty.contains(key) && key != popped,
{
}

/// A partition with something pending is dirty, or it was taken and its changes are about to be
/// told, and it has rows.
pub proof fn lemma_pending_is_dirty(h: History, w: World, key: RowView, b: Answers, i: int)
    requires
        h.ok(w, key, b),
        h.config().emit_on_update,
        0 <= i < h.moments.len(),
        h.pending(i),
    ensures
        h.dirty(key, i) || h.taken(i),
        h.moments[i].rows.len() > 0,
    decreases i,
{
    let m0 = h.moments[i - 1];
    let m1 = h.moments[i];
    assert(h.step(w, key, b, i - 1));
    lemma_history_sound(h, w, key, b, i - 1);
    if h.pending(i - 1) {
        lemma_pending_is_dirty(h, w, key, b, i - 1);
    }
    if h.events[i - 1] is Arrivals {
        if m0.rows.len() > 0 {
            assert(holds(m1.rows, m0.rows[0].seq));
        } else if m1.rows.len() == 0 {
            assert(m1.rows =~= m0.rows);
        }
    }
}

/// The rows are the last of the others.
pub open spec fn is_rest_of(rows: Seq<BufferView>, all: Seq<BufferView>) -> bool {
    rows.len() <= all.len() && rows == all.skip(all.len() - rows.len())
}

proof fn lemma_nothing_pending(h: History, w: World, key: RowView, b: Answers, i: int)
    requires
        h.ok(w, key, b),
        h.reads_back(),
        h.config().emit_on_update,
        0 <= i < h.moments.len(),
        !h.pending(i),
    ensures
        ({
            let j = h.told_up_to(i);
            &&& 0 <= j <= i
            &&& is_rest_of(h.moments[i].rows, h.moments[j].rows)
            &&& h.told(i) == h.told(j)
            &&& batch(h.config(), key, h.moments[j].rows, b) == Ok::<Seq<EmittedView>, Request>(
                base(h.moments[j].x.caches().last_emitted, key),
            )
        }),
    decreases i,
{
    let m1 = h.moments[i];
    if i == 0 {
        assert(base(m1.x.caches().last_emitted, key) =~= Seq::empty());
        assert(m1.rows.skip(0) =~= m1.rows);
    } else {
        let m0 = h.moments[i - 1];
        assert(h.step(w, key, b, i - 1));
        assert(m0.x.wf());
        lemma_history_in_step(h, w, key, b, i - 1);
        lemma_history_sound(h, w, key, b, i - 1);
        match h.events[i - 1] {
            Event::Diff(Ok(ops)) => {
                lemma_diff_equals_batch(&m0.x, &m1.x, w, key, b, m0.rows, Ok(ops));
                assert(m1.rows.skip(0) =~= m1.rows);
            },
            Event::Restart(fresh) => {
                lemma_restart_keeps_base(m0, fresh, m1, key, b);
                assert(m1.rows.skip(0) =~= m1.rows);
            },
            Event::Visit { old_wakeup, mark, min_before, min_after, result } => {
                lemma_nothing_pending(h, w, key, b, i - 1);
                lemma_visit_prunes(
                    &m0.x,
                    &m1.x,
                    key,
                    old_wakeup,
                    m0.rows,
                    mark,
                    min_before,
                    min_after,
                    result,
                );
                let all = h.moments[h.told_up_to(i - 1)].rows;
                assert(m1.rows =~= all.skip(all.len() - m1.rows.len()));
            },
            _ => {
                lemma_nothing_pending(h, w, key, b, i - 1);
            },
        }
    }
}

/// The law of telling before evicting: when a visit comes, nothing is pending. No row arrived since
/// a moment `j` at which what the query gives was told, and all of that is in the table, with the
/// same rows. So a match of the rows whose first row the visit evicts was told before.
pub proof fn lemma_visit_evicts_what_was_told(
    h: History,
    w: World,
    key: RowView,
    b: Answers,
    i: int,
) -> (j: int)
    requires
        h.ok(w, key, b),
        h.reads_back(),
        h.config().emit_on_update,
        0 <= i < h.events.len(),
        h.events[i] is Visit,
    ensures
        !h.pending(i),
        0 <= j <= i,
        is_rest_of(h.moments[i].rows, h.moments[j].rows),
        batch(h.config(), key, h.moments[j].rows, b) is Ok,
        h.table(i) is Some,
        ({
            let t = h.table(i)->Some_0;
            let query = table_of(batch(h.config(), key, h.moments[j].rows, b)->Ok_0);
            forall|id: int| #[trigger]
                query.dom().contains(id) ==> t.dom().contains(id) && t[id] == query[id]
        }),
{
    assert(h.step(w, key, b, i));
    lemma_history_sound(h, w, key, b, i);
    if h.pending(i) {
        lemma_pending_is_dirty(h, w, key, b, i);
    }
    lemma_nothing_pending(h, w, key, b, i);
    let j = h.told_up_to(i);
    lemma_history_applies(h, w, key, b, j);
    assert(h.table(i) == h.table(j));
    j
}

/// Where matches are told when they are final, nothing is ever deleted: no changes are told.
pub proof fn lemma_no_changes_without_changelog(
    h: History,
    w: World,
    key: RowView,
    b: Answers,
    i: int,
)
    requires
        h.ok(w, key, b),
        !h.config().emit_on_update,
        0 <= i < h.moments.len(),
    ensures
        h.told(i).len() == 0,
    decreases i,
{
    if i > 0 {
        lemma_no_changes_without_changelog(h, w, key, b, i - 1);
        lemma_history_sound(h, w, key, b, i - 1);
        assert(h.step(w, key, b, i - 1));
    }
}

/// Where matches are told when they are final nothing is frozen between visits, and the matcher holds
/// what a scan of its rows finds.
pub proof fn lemma_history_unfrozen(h: History, w: World, key: RowView, b: Answers, i: int)
    requires
        h.ok(w, key, b),
        !h.config().emit_on_update,
        h.reads_no_evicted_row(),
        0 <= i < h.moments.len(),
    ensures
        unfrozen_in_step(
            w,
            h.config(),
            b,
            progress_of(h.moments[i].x.caches().matchers, key),
        ),
    decreases i,
{
    let none: Seq<Span> = Seq::empty();
    assert(none.take(0) =~= none);
    if i > 0 {
        let m0 = h.moments[i - 1];
        let m1 = h.moments[i];
        lemma_history_unfrozen(h, w, key, b, i - 1);
        lemma_history_sound(h, w, key, b, i - 1);
        assert(h.step(w, key, b, i - 1));
        if let Event::Visit { old_wakeup, mark, min_before, min_after, result } = h.events[i - 1] {
            assert(h.events[i - 1] is Visit);
            lemma_final_visit_keeps_unfrozen(
                &m0.x,
                &m1.x,
                w,
                key,
                b,
                old_wakeup,
                m0.rows,
                mark,
                min_before,
                min_after,
                result,
            );
        }
    }
}

/// The law of a watermark: a visit tells the first `k` of the matches that a scan of the safe rows
/// finds, and just them. None of them is held back: a safe row follows it, or its time bound has
/// passed, or it cannot be extended. The next one, where there is one, is held back: it ends with
/// the last safe row and can be extended. Its rows stay buffered. Where matches are told when they
/// are final predicates may look ahead.
pub proof fn lemma_visit_tells_first_matches(
    h: History,
    w: World,
    key: RowView,
    b: Answers,
    i: int,
) -> (k: int)
    requires
        h.ok(w, key, b),
        h.reads_back() || (!h.config().emit_on_update && h.reads_no_evicted_row()),
        0 <= i < h.events.len(),
        h.events[i] is Visit,
        h.events[i]->result is Ok,
    ensures
        ({
            let c = h.config();
            let m = h.moments[i];
            let pass = with_answers(m.x.pass(m.rows, h.events[i]->mark), b);
            let safe = pass.matching.safe_len;
            let all = scan(c.pattern, pass.verdicts(), c.skip, safe, 0);
            let found = all->Ok_0;
            let d = (h.events[i]->result->Ok_0).0;
            &&& all is Ok
            &&& 0 <= k <= found.len()
            &&& d.finals == found.take(k)
            &&& !c.emit_on_update ==> match_rows(m.rows, c.measures, key, b, found.take(k), 0)
                == Ok::<Seq<RowView>, Request>(d.out_rows)
            &&& forall|j: int|
                0 <= j < k ==> !is_held(
                    c,
                    pass.verdicts(),
                    pass.expired((#[trigger] found[j]).start),
                    safe,
                    found[j],
                )
            &&& k < found.len() ==> {
                &&& is_held(c, pass.verdicts(), pass.expired(found[k].start), safe, found[k])
                &&& found[k].end() == safe
                &&& d.retain_from <= found[k].start
            }
            &&& c.within_deadline is None ==> forall|j: int|
                0 <= j < found.len() ==> pass.expired((#[trigger] found[j]).start) == Ok::<
                    bool,
                    Request,
                >(false)
        }),
{
    let c = h.config();
    let m = h.moments[i];
    assert(h.step(w, key, b, i));
    lemma_history_sound(h, w, key, b, i);
    match h.events[i] {
        Event::Visit { old_wakeup, mark, min_before, min_after, result } => {
            let r = result->Ok_0;
            if h.reads_back() {
                lemma_history_in_step(h, w, key, b, i);
                lemma_visit_decides(
                    &m.x,
                    &h.moments[i + 1].x,
                    w,
                    key,
                    b,
                    old_wakeup,
                    m.rows,
                    mark,
                    min_before,
                    min_after,
                    r,
                );
            } else {
                lemma_history_unfrozen(h, w, key, b, i);
                lemma_final_visit_decides(
                    &m.x,
                    &h.moments[i + 1].x,
                    w,
                    key,
                    b,
                    old_wakeup,
                    m.rows,
                    mark,
                    min_before,
                    min_after,
                    r,
                );
            }
            let pass = with_answers(m.x.pass(m.rows, mark), b);
            let safe = pass.matching.safe_len;
            let found = scan(c.pattern, pass.verdicts(), c.skip, safe, 0)->Ok_0;
            lemma_safe_prefix(m.rows, mark, 0);
            lemma_scan_bounds(c.pattern, pass.verdicts(), c.skip, safe, 0);
            assert forall|j: int| 0 <= j < found.len() implies 0 <= (#[trigger] found[j]).start by {
                assert(found[j].start < found[j].end());
            }
            lemma_no_match_lost_or_repeated(pass, found, c.measures, key, !c.emit_on_update);
            let k = lemma_finals(pass, found, 0, 0);
            assert(found.subrange(0, k) =~= found.take(k));
            if k < found.len() {
                assert(found[k].start < found[k].end());
                lemma_held_is_alive(pass, found[k]);
                if r.0.finals.contains(found[k]) {
                    let x = choose|x: int| 0 <= x < r.0.finals.len() && r.0.finals[x] == found[k];
                    assert(r.0.finals[x] == found[x]);
                    assert(found[x].start < found[k].start);
                }
            }
            k
        },
        _ => 0,
    }
}

/// A match is held back: no row before `safe` follows it, its time bound has not passed, and it can
/// be extended.
pub open spec fn is_held(
    c: Config,
    v: Verdicts,
    expired: Result<bool, Request>,
    safe: int,
    m: Span,
) -> bool {
    &&& safe <= m.end()
    &&& expired == Ok::<bool, Request>(false)
    &&& extendable(c.pattern, v, m.start, m.end()) == Ok::<bool, Request>(true)
}

proof fn lemma_kept_beside(
    x0: &MatchRecognizeExecutor,
    x1: &MatchRecognizeExecutor,
    key: RowView,
    other: RowView,
)
    requires
        other != key,
        x1.caches().matchers.remove(key) == x0.caches().matchers.remove(key),
        x1.caches().last_emitted.remove(key) == x0.caches().last_emitted.remove(key),
    ensures
        keeps_same(*x0, *x1, other),
{
    let a = x0.caches();
    let c = x1.caches();
    assert(a.matchers.dom().contains(other) == a.matchers.remove(key).dom().contains(other));
    assert(c.matchers.dom().contains(other) == c.matchers.remove(key).dom().contains(other));
    assert(a.last_emitted.dom().contains(other) == a.last_emitted.remove(key).dom().contains(
        other,
    ));
    assert(c.last_emitted.dom().contains(other) == c.last_emitted.remove(key).dom().contains(
        other,
    ));
    if a.matchers.dom().contains(other) {
        assert(a.matchers[other] == a.matchers.remove(key)[other]);
        assert(c.matchers[other] == c.matchers.remove(key)[other]);
    }
    if a.last_emitted.dom().contains(other) {
        assert(a.last_emitted[other] == a.last_emitted.remove(key)[other]);
        assert(c.last_emitted[other] == c.last_emitted.remove(key)[other]);
    }
}

/// Telling the changes of one partition leaves what is kept of the others alone.
pub proof fn lemma_diff_leaves_others_alone(
    x0: &MatchRecognizeExecutor,
    x1: &MatchRecognizeExecutor,
    key: RowView,
    other: RowView,
    rows: Seq<BufferView>,
    r: Result<Seq<(Op, RowView)>, Request>,
)
    requires
        other != key,
        x1.diffed(x0, key, rows, r),
    ensures
        keeps_same(*x0, *x1, other),
{
    lemma_kept_beside(x0, x1, key, other);
}

/// Visiting one partition leaves what is kept of the others alone.
pub proof fn lemma_visit_leaves_others_alone(
    x0: &MatchRecognizeExecutor,
    x1: &MatchRecognizeExecutor,
    key: RowView,
    other: RowView,
    old_wakeup: ScalarView,
    rows: Seq<BufferView>,
    mark: ScalarView,
    min_before: DatumView,
    min_after: DatumView,
    r: Result<(VisitView, Seq<WriteView>), Request>,
)
    requires
        other != key,
        x1.visited(x0, key, old_wakeup, rows, mark, min_before, min_after, r),
    ensures
        keeps_same(*x0, *x1, other),
{
    assert(x0.caches().matchers.remove(key).remove(key) =~= x0.caches().matchers.remove(key));
    lemma_kept_beside(x0, x1, key, other);
}

} // verus!
