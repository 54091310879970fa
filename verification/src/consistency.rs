//! What an executor keeps of a partition is in step with the partition's rows.
//!
//! The matcher of a partition holds what a scan of its rows finds, and what was told downstream
//! last are matches with the rows that would be built for them now. This holds of a partition of
//! which nothing is kept, and it stays so as rows arrive, as the changes are told, and as rows are
//! evicted. So what is told is what evaluating the query on all rows from scratch gives.

use crate::buffer::{seqs, BufferView};
use crate::changelog::{
    applied_all, changes, identities, is_row_of, lemma_changes_carry_rows, lemma_diff_reaches_new,
    lemma_no_change_no_ops, lemma_place, place, row_id, rows_identified, table_of, EmittedView,
};
use crate::datum::{DatumView, RowView, ScalarView};
use crate::define::{
    define_verdicts, known, lemma_evicted_rows_same_ways, lemma_more_answers_refine,
    lemma_safe_rows_agree, lemma_same_rows_agree, more_answers, no_lookahead, reads_inside,
    reads_no_row_before, Answers, Matching,
};
use crate::emission::{
    base, base_sound, built, built_one, lemma_built_entries, lemma_planned_entries,
    lemma_reuse_equals_rebuild, planned, spans_within, whole_buffer,
};
use crate::eval::Request;
use crate::eviction::{evicted, lemma_eviction_equals_batch, lemma_surviving_entry, surviving};
use crate::executor::{matcher_ok, progress_of, Config, MatchRecognizeExecutor};
use crate::frontier::{move_writes, remove_writes, WriteView};
use crate::incremental::{
    anchored, ended, lemma_progress_agree, lemma_rebased_ok, lemma_seq_pos,
    lemma_step_equals_batch, seq_pos, Progress,
};
use crate::matcher::shifted;
use crate::measure::{lemma_match_row_same, MatchRows};
use crate::pattern::{Outcome, Pattern, Verdicts};
use crate::plan::Op;
use crate::refine::lemma_scan_refines;
use crate::refresh::{
    distinct, diverge_at, lemma_diverge_at, lemma_refresh_equals_batch, lemma_refreshed_ok,
    lemma_refreshed_rows, lemma_same_rows_diverge, refreshed,
};
use crate::scan::{
    agree, lemma_scan_bounds, lemma_scan_moved, lemma_scan_same_ways, moved, preferred, scan, Span,
};
use crate::settled::{dead, lemma_settled_dead, lemma_settled_resumes};
use crate::skip::{lemma_resume_advances, resume, SkipView};
use crate::visit::{
    decided, lemma_decided_refines, lemma_finals, lemma_held_is_alive,
    lemma_no_match_lost_or_repeated, lemma_only_safe_rows_are_evicted, lemma_safe_prefix,
    with_answers, Pass, VisitView,
};
use vstd::prelude::*;

verus! {

/// The rows that a partition has at one time or another: the row that each seq stands for, and its
/// place in the order of the rows.
pub struct World {
    pub row: spec_fn(i64) -> BufferView,
    pub rank: spec_fn(i64) -> int,
}

impl World {
    /// Each row carries its seq.
    pub open spec fn ok(self) -> bool {
        forall|s: i64| (#[trigger] (self.row)(s)).seq == s
    }

    /// The rows with the given seqs.
    pub open spec fn rows(self, s: Seq<i64>) -> Seq<BufferView> {
        s.map_values(self.row)
    }

    /// The rows are rows of the partition, in their order.
    pub open spec fn has(self, rows: Seq<BufferView>) -> bool {
        &&& forall|i: int| 0 <= i < rows.len() ==> #[trigger] rows[i] == (self.row)(rows[i].seq)
        &&& forall|i: int, j: int|
            0 <= i < j < rows.len() ==> (self.rank)((#[trigger] rows[i]).seq) < (self.rank)(
                (#[trigger] rows[j]).seq,
            )
    }
}

/// The row with the seq is one of the rows.
pub open spec fn holds(rows: Seq<BufferView>, s: i64) -> bool {
    exists|k: int| 0 <= k < rows.len() && (#[trigger] rows[k]).seq == s
}

/// The verdicts over the rows.
pub open spec fn verdicts(c: Config, rows: Seq<BufferView>, answers: Answers) -> Verdicts {
    define_verdicts(whole_buffer(rows, c.defines, c.within), answers)
}

/// The matches of the rows with their output rows, from scratch.
pub open spec fn batch(c: Config, key: RowView, rows: Seq<BufferView>, answers: Answers) -> Result<
    Seq<EmittedView>,
    Request,
> {
    match scan(c.pattern, verdicts(c, rows, answers), c.skip, rows.len() as int, 0) {
        Err(q) => Err(q),
        Ok(found) => built(rows, c.measures, key, answers, found),
    }
}

/// The matcher holds what a scan of its rows finds, its frozen matches are settled, and none of the
/// others can be frozen.
pub open spec fn matcher_in_step(w: World, c: Config, answers: Answers, g: Progress) -> bool {
    &&& g.ok()
    &&& g.settled(c.pattern, verdicts(c, w.rows(g.fed), answers), c.skip)
    &&& g.current(c.pattern, verdicts(c, w.rows(g.fed), answers), c.skip)
    &&& g.caught_up(c.pattern, verdicts(c, w.rows(g.fed), answers), c.skip)
}

/// The match was told with the row that is built for it over the rows with the seqs `rs`.
pub open spec fn told_over(
    w: World,
    c: Config,
    key: RowView,
    answers: Answers,
    e: EmittedView,
    rs: Seq<i64>,
) -> bool {
    &&& 0 < rs.len() == e.0.labels.len()
    &&& forall|i: int, j: int|
        0 <= i < j < rs.len() ==> (w.rank)(#[trigger] rs[i]) < (w.rank)(#[trigger] rs[j])
    &&& built_one(
        w.rows(rs),
        c.measures,
        key,
        answers,
        Span { start: 0, labels: e.0.labels },
    ) == Ok::<EmittedView, Request>(e)
}

/// The match was told with the row that is built for it, over rows that are all there.
pub open spec fn entry_in_step(
    w: World,
    c: Config,
    key: RowView,
    answers: Answers,
    rows: Seq<BufferView>,
    e: EmittedView,
) -> bool {
    exists|rs: Seq<i64>| #[trigger]
        told_over(w, c, key, answers, e, rs) && forall|i: int|
            0 <= i < rs.len() ==> holds(rows, #[trigger] rs[i])
}

/// What is kept of a partition is in step with its rows: its matcher holds `g`, and it told `prev`
/// downstream last. `answers` are all answers, those not known yet included.
pub open spec fn in_step(
    w: World,
    c: Config,
    key: RowView,
    answers: Answers,
    rows: Seq<BufferView>,
    g: Progress,
    prev: Seq<EmittedView>,
) -> bool {
    &&& w.ok()
    &&& w.has(rows)
    &&& matcher_in_step(w, c, answers, g)
    &&& forall|i: int|
        0 <= i < prev.len() ==> entry_in_step(w, c, key, answers, rows, #[trigger] prev[i])
    &&& prev.len() > 0 ==> c.emit_on_update
}

impl MatchRecognizeExecutor {
    /// What the executor keeps of a partition is in step with its rows.
    pub open spec fn in_step(
        &self,
        w: World,
        key: RowView,
        answers: Answers,
        rows: Seq<BufferView>,
    ) -> bool {
        in_step(
            w,
            self.config(),
            key,
            answers,
            rows,
            progress_of(self.caches().matchers, key),
            base(self.caches().last_emitted, key),
        )
    }
}

pub proof fn lemma_rank_order(w: World, rows: Seq<BufferView>, i: int, j: int)
    requires
        w.has(rows),
        0 <= i < rows.len(),
        0 <= j < rows.len(),
    ensures
        (w.rank)(rows[i].seq) < (w.rank)(rows[j].seq) <==> i < j,
        rows[i].seq == rows[j].seq ==> i == j,
{
    if i < j {
        assert((w.rank)(rows[i].seq) < (w.rank)(rows[j].seq));
    } else if j < i {
        assert((w.rank)(rows[j].seq) < (w.rank)(rows[i].seq));
    }
}

proof fn lemma_world_rows(w: World, rows: Seq<BufferView>, n: int)
    requires
        w.has(rows),
        0 <= n <= rows.len(),
    ensures
        w.rows(seqs(rows).take(n)) == rows.take(n),
        w.has(rows.take(n)),
{
    assert forall|i: int| 0 <= i < n implies w.rows(seqs(rows).take(n))[i] == rows.take(n)[i] by {
        assert(rows[i] == (w.row)(rows[i].seq));
    }
    assert(w.rows(seqs(rows).take(n)) =~= rows.take(n));
}

/// A partition of which nothing is kept is in step with whatever rows it has.
pub proof fn lemma_nothing_kept_in_step(
    x: &MatchRecognizeExecutor,
    w: World,
    key: RowView,
    answers: Answers,
    rows: Seq<BufferView>,
)
    requires
        w.ok(),
        w.has(rows),
        !x.caches().matchers.dom().contains(key),
        !x.caches().last_emitted.dom().contains(key),
    ensures
        x.in_step(w, key, answers, rows),
{
    lemma_empty_in_step(w, x.config(), answers);
}

proof fn lemma_empty_in_step(w: World, c: Config, answers: Answers)
    ensures
        matcher_in_step(
            w,
            c,
            answers,
            Progress { fed: Seq::empty(), spans: Seq::empty(), frozen: 0, resume: 0 },
        ),
{
    let spans: Seq<Span> = Seq::empty();
    assert(spans.take(0) =~= Seq::empty());
}

/// What is kept of a partition stays in step as rows arrive.
pub proof fn lemma_arrivals_keep_step(
    x: &MatchRecognizeExecutor,
    w: World,
    key: RowView,
    answers: Answers,
    rows: Seq<BufferView>,
    more: Seq<BufferView>,
)
    requires
        x.in_step(w, key, answers, rows),
        w.has(more),
        forall|i: int| 0 <= i < rows.len() ==> holds(more, (#[trigger] rows[i]).seq),
    ensures
        x.in_step(w, key, answers, more),
{
    let c = x.config();
    let prev = base(x.caches().last_emitted, key);
    assert forall|i: int| 0 <= i < prev.len() implies entry_in_step(
        w,
        c,
        key,
        answers,
        more,
        #[trigger] prev[i],
    ) by {
        assert(entry_in_step(w, c, key, answers, rows, prev[i]));
        let rs = choose|rs: Seq<i64>| #[trigger]
            told_over(w, c, key, answers, prev[i], rs) && forall|i: int|
                0 <= i < rs.len() ==> holds(rows, #[trigger] rs[i]);
        assert forall|j: int| 0 <= j < rs.len() implies holds(more, #[trigger] rs[j]) by {
            assert(holds(rows, rs[j]));
            let k = choose|k: int| 0 <= k < rows.len() && (#[trigger] rows[k]).seq == rs[j];
            assert(holds(more, rows[k].seq));
        }
        assert(told_over(w, c, key, answers, prev[i], rs));
    }
}

/// A refresh keeps a matcher in step.
proof fn lemma_refresh_in_step(
    w: World,
    c: Config,
    a: Answers,
    b: Answers,
    g: Progress,
    m: Matching,
)
    requires
        w.ok(),
        w.has(m.rows),
        0 <= m.safe_len <= m.rows.len(),
        m.defines == c.defines,
        m.within == c.within,
        no_lookahead(c.defines),
        more_answers(a, b),
        matcher_in_step(w, c, b, g),
        refreshed(
            g,
            c.pattern,
            define_verdicts(m, a),
            c.skip,
            seqs(m.rows).take(m.safe_len),
        ) is Ok,
        refreshed(
            g,
            c.pattern,
            define_verdicts(m, a),
            c.skip,
            seqs(m.rows).take(m.safe_len),
        )->Ok_0.ok(),
    ensures
        ({
            let n = refreshed(
                g,
                c.pattern,
                define_verdicts(m, a),
                c.skip,
                seqs(m.rows).take(m.safe_len),
            )->Ok_0;
            &&& n.fed == seqs(m.rows).take(m.safe_len)
            &&& n.settled(c.pattern, define_verdicts(m, b), c.skip)
            &&& n.current(c.pattern, define_verdicts(m, b), c.skip)
            &&& n.caught_up(c.pattern, define_verdicts(m, b), c.skip)
            &&& matcher_in_step(w, c, b, n)
        }),
{
    let rows = seqs(m.rows).take(m.safe_len);
    let at = diverge_at(g.fed, rows, 0);
    let fed = w.rows(g.fed);
    let v0 = verdicts(c, fed, b);
    let v = define_verdicts(m, b);
    let n = refreshed(g, c.pattern, define_verdicts(m, a), c.skip, rows)->Ok_0;
    assert(g.fed.take(0) =~= rows.take(0));
    lemma_diverge_at(g.fed, rows, 0);
    assert(m.rows.take(at) =~= fed.take(at)) by {
        assert forall|i: int| 0 <= i < at implies m.rows[i] == fed[i] by {
            assert(g.fed.take(at)[i] == rows.take(at)[i]);
            assert(m.rows[i] == (w.row)(m.rows[i].seq));
        }
    }
    lemma_same_rows_agree(m, whole_buffer(fed, c.defines, c.within), b, at);
    lemma_more_answers_refine(m, a, b, rows.len() as int);
    lemma_refresh_equals_batch(g, c.pattern, v0, define_verdicts(m, a), v, c.skip, rows);
    lemma_safe_in_step(w, c, b, n, m);
}

/// A matcher over the safe rows is in step.
proof fn lemma_safe_in_step(w: World, c: Config, b: Answers, n: Progress, m: Matching)
    requires
        w.has(m.rows),
        0 <= m.safe_len <= m.rows.len(),
        m.defines == c.defines,
        m.within == c.within,
        no_lookahead(c.defines),
        n.ok(),
        n.fed == seqs(m.rows).take(m.safe_len),
        n.settled(c.pattern, define_verdicts(m, b), c.skip),
        n.current(c.pattern, define_verdicts(m, b), c.skip),
        n.caught_up(c.pattern, define_verdicts(m, b), c.skip),
    ensures
        matcher_in_step(w, c, b, n),
{
    lemma_world_rows(w, m.rows, m.safe_len);
    let safe = m.rows.take(m.safe_len);
    assert(m.rows.take(m.safe_len) =~= safe.take(m.safe_len));
    lemma_same_rows_agree(m, whole_buffer(safe, c.defines, c.within), b, m.safe_len);
    lemma_progress_agree(
        n,
        c.pattern,
        define_verdicts(m, b),
        verdicts(c, w.rows(n.fed), b),
        c.skip,
    );
}

proof fn lemma_low(w: World, rows: Seq<BufferView>, rs: Seq<i64>, s: int, k: int, at: int)
    requires
        w.has(rows),
        forall|i: int, j: int|
            0 <= i < j < rs.len() ==> (w.rank)(#[trigger] rs[i]) < (w.rank)(#[trigger] rs[j]),
        forall|i: int| 0 <= i < rs.len() ==> holds(rows, #[trigger] rs[i]),
        0 <= k < rs.len(),
        0 <= s < rows.len(),
        rows[s].seq == rs[0],
        0 <= at < rows.len(),
        rows[at].seq == rs[k],
    ensures
        s + k <= at,
    decreases k,
{
    if k == 0 {
        lemma_rank_order(w, rows, s, at);
    } else {
        assert(holds(rows, rs[k - 1]));
        let x = choose|x: int| 0 <= x < rows.len() && (#[trigger] rows[x]).seq == rs[k - 1];
        lemma_low(w, rows, rs, s, k - 1, x);
        assert((w.rank)(rs[k - 1]) < (w.rank)(rs[k]));
        lemma_rank_order(w, rows, x, at);
    }
}

proof fn lemma_high(w: World, rows: Seq<BufferView>, rs: Seq<i64>, last: int, k: int, at: int)
    requires
        w.has(rows),
        forall|i: int, j: int|
            0 <= i < j < rs.len() ==> (w.rank)(#[trigger] rs[i]) < (w.rank)(#[trigger] rs[j]),
        forall|i: int| 0 <= i < rs.len() ==> holds(rows, #[trigger] rs[i]),
        0 <= k < rs.len(),
        0 <= last < rows.len(),
        rows[last].seq == rs[rs.len() - 1],
        0 <= at < rows.len(),
        rows[at].seq == rs[k],
    ensures
        at <= last - (rs.len() - 1 - k),
    decreases rs.len() - k,
{
    if k == rs.len() - 1 {
        lemma_rank_order(w, rows, last, at);
    } else {
        assert(holds(rows, rs[k + 1]));
        let x = choose|x: int| 0 <= x < rows.len() && (#[trigger] rows[x]).seq == rs[k + 1];
        lemma_high(w, rows, rs, last, k + 1, x);
        assert((w.rank)(rs[k]) < (w.rank)(rs[k + 1]));
        lemma_rank_order(w, rows, at, x);
    }
}

/// What is in step is told with the rows that would be built now.
proof fn lemma_in_step_sound(
    w: World,
    c: Config,
    key: RowView,
    answers: Answers,
    rows: Seq<BufferView>,
    prev: Seq<EmittedView>,
)
    requires
        w.ok(),
        w.has(rows),
        forall|i: int|
            0 <= i < prev.len() ==> entry_in_step(w, c, key, answers, rows, #[trigger] prev[i]),
    ensures
        base_sound(prev, rows, c.measures, key, answers),
        rows_identified(prev),
        forall|i: int|
            0 <= i < prev.len() ==> i64::MIN <= (#[trigger] prev[i]).0.start_seq <= i64::MAX,
{
    assert forall|i: int, m: Span|
        0 <= i < prev.len() && 0 <= m.start < m.end() <= rows.len() && #[trigger] anchored(
            seqs(rows),
            m,
        ) == (#[trigger] prev[i]).0 implies built_one(rows, c.measures, key, answers, m) == Ok::<
        EmittedView,
        Request,
    >(prev[i]) by {
        let e = prev[i];
        assert(entry_in_step(w, c, key, answers, rows, e));
        let rs = choose|rs: Seq<i64>| #[trigger]
            told_over(w, c, key, answers, e, rs) && forall|i: int|
                0 <= i < rs.len() ==> holds(rows, #[trigger] rs[i]);
        lemma_told_over(w, c, key, answers, e, rs);
        let n = rs.len() as int;
        let m1 = MatchRows { rows, start: m.start, labels: m.labels };
        let m2 = MatchRows { rows: w.rows(rs), start: 0, labels: m.labels };
        assert(seqs(rows)[m.start] == rows[m.start].seq);
        assert(seqs(rows)[m.end() - 1] == rows[m.end() - 1].seq);
        assert(rows[m.start].seq == rs[0]);
        assert(rows[m.start + n - 1].seq == rs[n - 1]);
        assert forall|k: int| 0 <= k < n implies #[trigger] rows[m.start + k] == w.rows(rs)[0
            + k] by {
            assert(holds(rows, rs[k]));
            let x = choose|x: int| 0 <= x < rows.len() && (#[trigger] rows[x]).seq == rs[k];
            lemma_low(w, rows, rs, m.start, k, x);
            lemma_high(w, rows, rs, m.start + n - 1, k, x);
            assert(rows[x] == (w.row)(rows[x].seq));
        }
        lemma_match_row_same(m1, m2, c.measures, key, answers);
    }
    assert forall|i: int| 0 <= i < prev.len() implies row_id((#[trigger] prev[i]).1) == Some(
        prev[i].0.start_seq,
    ) && i64::MIN <= prev[i].0.start_seq <= i64::MAX by {
        let e = prev[i];
        assert(entry_in_step(w, c, key, answers, rows, e));
        let rs = choose|rs: Seq<i64>| #[trigger]
            told_over(w, c, key, answers, e, rs) && forall|i: int|
                0 <= i < rs.len() ==> holds(rows, #[trigger] rs[i]);
        lemma_told_over(w, c, key, answers, e, rs);
    }
}

proof fn lemma_told_over(
    w: World,
    c: Config,
    key: RowView,
    answers: Answers,
    e: EmittedView,
    rs: Seq<i64>,
)
    requires
        w.ok(),
        told_over(w, c, key, answers, e, rs),
    ensures
        e.0.start_seq == rs[0],
        e.0.end_seq == rs[rs.len() - 1] + 1,
        row_id(e.1) == Some(e.0.start_seq),
{
    let rows = w.rows(rs);
    assert(rows[0] == (w.row)(rs[0]));
    assert(rows[rs.len() - 1] == (w.row)(rs[rs.len() - 1]));
    assert(seqs(rows)[0] == rs[0]);
    assert(seqs(rows)[rs.len() - 1] == rs[rs.len() - 1]);
    assert(e.1.last() == Some(ScalarView::Int64(rows[0].seq)));
}

/// A match that is built over the rows is in step with them.
proof fn lemma_built_in_step(
    w: World,
    c: Config,
    key: RowView,
    answers: Answers,
    rows: Seq<BufferView>,
    m: Span,
    e: EmittedView,
)
    requires
        w.ok(),
        w.has(rows),
        0 <= m.start < m.end() <= rows.len(),
        built_one(rows, c.measures, key, answers, m) == Ok::<EmittedView, Request>(e),
    ensures
        entry_in_step(w, c, key, answers, rows, e),
{
    let rs = seqs(rows).subrange(m.start, m.end());
    let n = rs.len() as int;
    let own = w.rows(rs);
    assert forall|k: int| 0 <= k < n implies #[trigger] rows[m.start + k] == own[0 + k] && rs[k]
        == rows[m.start + k].seq by {
        assert(rows[m.start + k] == (w.row)(rows[m.start + k].seq));
    }
    let m1 = MatchRows { rows, start: m.start, labels: m.labels };
    let m2 = MatchRows { rows: own, start: 0, labels: m.labels };
    lemma_match_row_same(m1, m2, c.measures, key, answers);
    assert(anchored(seqs(own), Span { start: 0, labels: m.labels }) == anchored(seqs(rows), m)) by {
        assert(own[0] == rows[m.start + 0]);
        assert(own[n - 1] == rows[m.start + (n - 1)]);
        assert(seqs(own)[0] == own[0].seq);
        assert(seqs(own)[n - 1] == own[n - 1].seq);
        assert(seqs(rows)[m.start] == rows[m.start].seq);
        assert(seqs(rows)[m.end() - 1] == rows[m.end() - 1].seq);
    }
    assert forall|i: int, j: int| 0 <= i < j < n implies (w.rank)(#[trigger] rs[i]) < (w.rank)(
        #[trigger] rs[j],
    ) by {
        assert((w.rank)(rows[m.start + i].seq) < (w.rank)(rows[m.start + j].seq));
    }
    assert(told_over(w, c, key, answers, e, rs));
    assert forall|i: int| 0 <= i < n implies holds(rows, #[trigger] rs[i]) by {
        assert(rows[m.start + i].seq == rs[i]);
    }
}

/// Matches that are built over the rows are in step with them.
proof fn lemma_all_built_in_step(
    w: World,
    c: Config,
    key: RowView,
    answers: Answers,
    rows: Seq<BufferView>,
    found: Seq<Span>,
    new: Seq<EmittedView>,
)
    requires
        w.ok(),
        w.has(rows),
        spans_within(found, rows.len() as int),
        built(rows, c.measures, key, answers, found) == Ok::<Seq<EmittedView>, Request>(new),
    ensures
        forall|i: int|
            0 <= i < new.len() ==> entry_in_step(w, c, key, answers, rows, #[trigger] new[i]),
{
    lemma_built_entries(rows, c.measures, key, answers, found, 0, new);
    assert forall|i: int| 0 <= i < new.len() implies entry_in_step(
        w,
        c,
        key,
        answers,
        rows,
        #[trigger] new[i],
    ) by {
        assert(found[0 + i] == found[i]);
        lemma_built_in_step(w, c, key, answers, rows, found[i], new[i]);
    }
}

/// There is a seq after the seq of each row.
pub open spec fn small_seqs(rows: Seq<BufferView>) -> bool {
    forall|i: int| 0 <= i < rows.len() ==> (#[trigger] rows[i]).seq < i64::MAX
}

proof fn lemma_small_seqs(rows: Seq<BufferView>, n: int)
    requires
        small_seqs(rows),
        0 <= n <= rows.len(),
    ensures
        forall|i: int| 0 <= i < n ==> #[trigger] seqs(rows).take(n)[i] < i64::MAX,
        forall|i: int| 0 <= i < rows.len() ==> #[trigger] seqs(rows)[i] < i64::MAX,
{
    assert forall|i: int| 0 <= i < rows.len() implies #[trigger] seqs(rows)[i] < i64::MAX by {
        assert(rows[i].seq < i64::MAX);
    }
    assert forall|i: int| 0 <= i < n implies #[trigger] seqs(rows).take(n)[i] < i64::MAX by {
        assert(rows[i].seq < i64::MAX);
    }
}

/// What a refresh over all rows leaves is in step, and holds what a scan of all rows finds.
proof fn lemma_whole_refresh(
    w: World,
    c: Config,
    a: Answers,
    b: Answers,
    g: Progress,
    rows: Seq<BufferView>,
)
    requires
        w.ok(),
        w.has(rows),
        no_lookahead(c.defines),
        more_answers(a, b),
        matcher_in_step(w, c, b, g),
        refreshed(g, c.pattern, verdicts(c, rows, a), c.skip, seqs(rows)) is Ok,
        small_seqs(rows),
    ensures
        ({
            let n = refreshed(g, c.pattern, verdicts(c, rows, a), c.skip, seqs(rows))->Ok_0;
            &&& n.fed == seqs(rows)
            &&& matcher_in_step(w, c, b, n)
            &&& scan(c.pattern, verdicts(c, rows, b), c.skip, rows.len() as int, 0) == Ok::<
                Seq<Span>,
                Request,
            >(n.spans)
            &&& spans_within(n.spans, rows.len() as int)
        }),
{
    let m = whole_buffer(rows, c.defines, c.within);
    assert(seqs(rows).take(m.safe_len) =~= seqs(rows));
    lemma_small_seqs(rows, m.safe_len);
    lemma_refreshed_ok(g, c.pattern, verdicts(c, rows, a), c.skip, seqs(rows));
    lemma_refresh_in_step(w, c, a, b, g, m);
}

/// The law of the changelog: the changes that a step tells turn the matches that were told before
/// into those that evaluating the query on all rows from scratch gives, and what is kept stays in
/// step, also where the step stops. `b` are all answers, of which the step knows some.
pub proof fn lemma_diff_equals_batch(
    before: &MatchRecognizeExecutor,
    after: &MatchRecognizeExecutor,
    w: World,
    key: RowView,
    b: Answers,
    rows: Seq<BufferView>,
    r: Result<Seq<(Op, RowView)>, Request>,
)
    requires
        after.config() == before.config(),
        before.config().emit_on_update,
        no_lookahead(before.config().defines),
        small_seqs(rows),
        more_answers(known(before.evaluations()), b),
        before.in_step(w, key, b, rows),
        after.diffed(before, key, rows, r),
    ensures
        after.in_step(w, key, b, rows),
        r matches Ok(ops) ==> {
            &&& batch(before.config(), key, rows, b) == Ok::<Seq<EmittedView>, Request>(
                base(after.caches().last_emitted, key),
            )
            &&& applied_all(table_of(base(before.caches().last_emitted, key)), ops) == Some(
                table_of(base(after.caches().last_emitted, key)),
            )
        },
{
    let c = before.config();
    let a = known(before.evaluations());
    let g = progress_of(before.caches().matchers, key);
    let prev = base(before.caches().last_emitted, key);
    lemma_in_step_sound(w, c, key, b, rows, prev);
    if let Ok(n) = refreshed(g, c.pattern, verdicts(c, rows, a), c.skip, seqs(rows)) {
        lemma_whole_refresh(w, c, a, b, g, rows);
        if let Ok(new) = planned(prev, rows, c.measures, key, a, n.spans, 0) {
            lemma_reuse_equals_rebuild(prev, rows, c.measures, key, a, b, n.spans, 0);
            lemma_all_built_in_step(w, c, key, b, rows, n.spans, new);
            lemma_in_step_sound(w, c, key, b, rows, new);
            let ids = choose|ids: Seq<i64>|
                #[trigger] identities(ids, prev, new) && r->Ok_0 == changes(ids, prev, new, 0);
            lemma_diff_reaches_new(ids, prev, new);
        }
    }
}

/// The identity that the row carries is the seq of one of the rows.
pub open spec fn names_row(rows: Seq<BufferView>, row: RowView) -> bool {
    exists|k: int| 0 <= k < rows.len() && row_id(row) == Some((#[trigger] rows[k]).seq as int)
}

/// A match in step with the rows has an identity that is the seq of one of them.
proof fn lemma_entry_names_row(
    w: World,
    c: Config,
    key: RowView,
    answers: Answers,
    rows: Seq<BufferView>,
    e: EmittedView,
)
    requires
        w.ok(),
        entry_in_step(w, c, key, answers, rows, e),
    ensures
        names_row(rows, e.1),
{
    let rs = choose|rs: Seq<i64>| #[trigger]
        told_over(w, c, key, answers, e, rs) && forall|i: int|
            0 <= i < rs.len() ==> holds(rows, #[trigger] rs[i]);
    lemma_told_over(w, c, key, answers, e, rs);
    assert(holds(rows, rs[0]));
    let k = choose|k: int| 0 <= k < rows.len() && (#[trigger] rows[k]).seq == rs[0];
    assert(row_id(e.1) == Some(rows[k].seq as int));
}

/// Each change that is told carries the identity of a row that is buffered. So nothing that is told
/// after a row was evicted carries the identity of that row: a match whose first row is gone is
/// never taken back.
pub proof fn lemma_changes_name_buffered_rows(
    before: &MatchRecognizeExecutor,
    after: &MatchRecognizeExecutor,
    w: World,
    key: RowView,
    b: Answers,
    rows: Seq<BufferView>,
    r: Result<Seq<(Op, RowView)>, Request>,
)
    requires
        after.config() == before.config(),
        before.config().emit_on_update,
        no_lookahead(before.config().defines),
        small_seqs(rows),
        more_answers(known(before.evaluations()), b),
        before.in_step(w, key, b, rows),
        after.diffed(before, key, rows, r),
    ensures
        r matches Ok(ops) ==> forall|i: int|
            0 <= i < ops.len() ==> names_row(rows, (#[trigger] ops[i]).1),
{
    if let Ok(ops) = r {
        let c = before.config();
        let prev = base(before.caches().last_emitted, key);
        let new = base(after.caches().last_emitted, key);
        lemma_diff_equals_batch(before, after, w, key, b, rows, r);
        let ids = choose|ids: Seq<i64>|
            #[trigger] identities(ids, prev, new) && ops == changes(ids, prev, new, 0);
        lemma_changes_carry_rows(ids, prev, new, 0);
        assert forall|i: int| 0 <= i < ops.len() implies names_row(rows, (#[trigger] ops[i]).1) by {
            if is_row_of(prev, ops[i].1) {
                let j = choose|j: int| 0 <= j < prev.len() && (#[trigger] prev[j]).1 == ops[i].1;
                lemma_entry_names_row(w, c, key, b, rows, prev[j]);
            } else {
                assert(is_row_of(new, ops[i].1));
                let j = choose|j: int| 0 <= j < new.len() && (#[trigger] new[j]).1 == ops[i].1;
                lemma_entry_names_row(w, c, key, b, rows, new[j]);
            }
        }
    }
}

/// Each match was told with a row that carries its identity, and that is the seq of one of the rows.
pub open spec fn told_sound(rows: Seq<BufferView>, l: Seq<EmittedView>) -> bool {
    forall|i: int|
        0 <= i < l.len() ==> row_id((#[trigger] l[i]).1) == Some(l[i].0.start_seq) && names_row(
            rows,
            l[i].1,
        )
}

proof fn lemma_planned_sound(
    prev: Seq<EmittedView>,
    rows: Seq<BufferView>,
    c: Config,
    key: RowView,
    a: Answers,
    found: Seq<Span>,
    i: int,
    l: Seq<EmittedView>,
)
    requires
        0 <= i <= found.len(),
        told_sound(rows, prev),
        spans_within(found, rows.len() as int),
        planned(prev, rows, c.measures, key, a, found, i) == Ok::<Seq<EmittedView>, Request>(l),
    ensures
        told_sound(rows, l),
    decreases found.len() - i,
{
    if i < found.len() {
        let m = found[i];
        let id = anchored(seqs(rows), m).start_seq;
        let rest = planned(prev, rows, c.measures, key, a, found, i + 1)->Ok_0;
        lemma_planned_sound(prev, rows, c, key, a, found, i + 1, rest);
        lemma_place(prev, id, 0);
        assert(0 <= m.start < m.end() <= rows.len());
        assert(seqs(rows)[m.start] == rows[m.start].seq);
        assert(l =~= seq![l[0]] + rest);
        assert(row_id(l[0].1) == Some(l[0].0.start_seq));
        assert(row_id(l[0].1) == Some(rows[m.start].seq as int));
        assert forall|j: int| 0 <= j < l.len() implies row_id((#[trigger] l[j]).1) == Some(
            l[j].0.start_seq,
        ) && names_row(rows, l[j].1) by {
            if j > 0 {
                assert(l[j] == rest[j - 1]);
            }
        }
    }
}

/// What a matcher holds after a refresh is sound: its matches bind the rows.
proof fn lemma_refreshed_spans(
    x: &MatchRecognizeExecutor,
    key: RowView,
    v: Verdicts,
    rows: Seq<i64>,
)
    requires
        x.wf(),
        forall|i: int| 0 <= i < rows.len() ==> #[trigger] rows[i] < i64::MAX,
    ensures
        refreshed(
            progress_of(x.caches().matchers, key),
            x.config().pattern,
            v,
            x.config().skip,
            rows,
        ) matches Ok(n) ==> n.fed == rows && spans_within(n.spans, rows.len() as int),
{
    let c = x.config();
    let g = progress_of(x.caches().matchers, key);
    if x.caches().matchers.dom().contains(key) {
        assert(matcher_ok(x.caches().matchers[key], c.pattern, c.skip));
    }
    lemma_refreshed_ok(g, c.pattern, v, c.skip, rows);
    lemma_refreshed_rows(g, c.pattern, v, c.skip, rows);
}

/// The changes that a step tells apply, whatever the predicates read: each deletion deletes a row
/// that was told, each insertion inserts one whose identity is not there, and each carries the
/// identity of a row that is buffered. A step that stops leaves what was told.
pub proof fn lemma_diff_applies(
    before: &MatchRecognizeExecutor,
    after: &MatchRecognizeExecutor,
    key: RowView,
    rows: Seq<BufferView>,
    r: Result<Seq<(Op, RowView)>, Request>,
)
    requires
        before.wf(),
        small_seqs(rows),
        told_sound(rows, base(before.caches().last_emitted, key)),
        after.diffed(before, key, rows, r),
    ensures
        told_sound(rows, base(after.caches().last_emitted, key)),
        match r {
            Ok(ops) => {
                &&& applied_all(table_of(base(before.caches().last_emitted, key)), ops) == Some(
                    table_of(base(after.caches().last_emitted, key)),
                )
                &&& forall|i: int| 0 <= i < ops.len() ==> names_row(rows, (#[trigger] ops[i]).1)
            },
            Err(_) => base(after.caches().last_emitted, key) == base(
                before.caches().last_emitted,
                key,
            ),
        },
{
    if let Ok(ops) = r {
        let c = before.config();
        let a = known(before.evaluations());
        let prev = base(before.caches().last_emitted, key);
        let new = base(after.caches().last_emitted, key);
        let v = before.whole_verdicts(rows);
        lemma_small_seqs(rows, 0);
        lemma_refreshed_spans(before, key, v, seqs(rows));
        let g = progress_of(before.caches().matchers, key);
        let n = refreshed(g, c.pattern, v, c.skip, seqs(rows))->Ok_0;
        lemma_planned_sound(prev, rows, c, key, a, n.spans, 0, new);
        let ids = choose|ids: Seq<i64>|
            #[trigger] identities(ids, prev, new) && ops == changes(ids, prev, new, 0);
        lemma_told_in_range(rows, prev);
        lemma_told_in_range(rows, new);
        lemma_diff_reaches_new(ids, prev, new);
        lemma_changes_carry_rows(ids, prev, new, 0);
        assert forall|i: int| 0 <= i < ops.len() implies names_row(rows, (#[trigger] ops[i]).1) by {
            if is_row_of(prev, ops[i].1) {
                let j = choose|j: int| 0 <= j < prev.len() && (#[trigger] prev[j]).1 == ops[i].1;
                assert(names_row(rows, prev[j].1));
            } else {
                assert(is_row_of(new, ops[i].1));
                let j = choose|j: int| 0 <= j < new.len() && (#[trigger] new[j]).1 == ops[i].1;
                assert(names_row(rows, new[j].1));
            }
        }
    }
}

/// The identities of sound matches are seqs.
pub proof fn lemma_told_in_range(rows: Seq<BufferView>, l: Seq<EmittedView>)
    requires
        told_sound(rows, l),
    ensures
        rows_identified(l),
        forall|i: int|
            0 <= i < l.len() ==> i64::MIN <= (#[trigger] l[i]).0.start_seq <= i64::MAX && exists|
                k: int,
            |
                0 <= k < rows.len() && (#[trigger] rows[k]).seq == l[i].0.start_seq,
{
    assert forall|i: int| 0 <= i < l.len() implies i64::MIN <= (#[trigger] l[i]).0.start_seq
        <= i64::MAX && exists|k: int|
        0 <= k < rows.len() && (#[trigger] rows[k]).seq == l[i].0.start_seq by {
        assert(names_row(rows, l[i].1));
        let k = choose|k: int|
            0 <= k < rows.len() && row_id(l[i].1) == Some((#[trigger] rows[k]).seq as int);
        assert(rows[k].seq == l[i].0.start_seq);
    }
}

/// A visit, whatever the predicates read, evicts first rows of the partition, and what was told is
/// kept but for the matches whose first row is evicted.
pub proof fn lemma_visit_prunes(
    before: &MatchRecognizeExecutor,
    after: &MatchRecognizeExecutor,
    key: RowView,
    old_wakeup: ScalarView,
    rows: Seq<BufferView>,
    mark: ScalarView,
    min_before: DatumView,
    min_after: DatumView,
    r: Result<(VisitView, Seq<WriteView>), Request>,
)
    requires
        before.wf(),
        small_seqs(rows),
        after.visited(before, key, old_wakeup, rows, mark, min_before, min_after, r),
    ensures
        match r {
            Ok((d, _)) => {
                &&& 0 <= d.retain_from <= rows.len()
                &&& base(after.caches().last_emitted, key) == if before.config().emit_on_update
                    && d.retain_from > 0 {
                    surviving(
                        base(before.caches().last_emitted, key),
                        seqs(rows).skip(d.retain_from),
                        base(before.caches().last_emitted, key).len() as int,
                    )
                } else {
                    base(before.caches().last_emitted, key)
                }
            },
            Err(_) => base(after.caches().last_emitted, key) == base(
                before.caches().last_emitted,
                key,
            ),
        },
{
    let c = before.config();
    let pass = before.pass(rows, mark);
    let safe = pass.matching.safe_len;
    lemma_safe_prefix(rows, mark, 0);
    lemma_small_seqs(rows, safe);
    lemma_refreshed_spans(before, key, pass.verdicts(), seqs(rows).take(safe));
    if let Ok(_) = r {
        let g = progress_of(before.caches().matchers, key);
        let n = refreshed(g, c.pattern, pass.verdicts(), c.skip, seqs(rows).take(safe))->Ok_0;
        lemma_only_safe_rows_are_evicted(pass, n.spans, c.measures, key, !c.emit_on_update);
    }
}

/// What a partition of which nothing is kept is seeded with is what evaluating the query on all rows
/// from scratch gives, whatever the predicates read.
pub proof fn lemma_first_seed_equals_batch(
    before: &MatchRecognizeExecutor,
    after: &MatchRecognizeExecutor,
    key: RowView,
    b: Answers,
    rows: Seq<BufferView>,
)
    requires
        more_answers(known(before.evaluations()), b),
        !before.caches().matchers.dom().contains(key),
        !before.caches().last_emitted.dom().contains(key),
        after.seeded(before, key, rows, Ok(())),
    ensures
        batch(before.config(), key, rows, b) == Ok::<Seq<EmittedView>, Request>(
            base(after.caches().last_emitted, key),
        ),
{
    let c = before.config();
    let a = known(before.evaluations());
    let s = seqs(rows);
    let g = progress_of(before.caches().matchers, key);
    let m = whole_buffer(rows, c.defines, c.within);
    let v = verdicts(c, rows, a);
    let n = refreshed(g, c.pattern, v, c.skip, s)->Ok_0;
    let none: Seq<EmittedView> = Seq::empty();
    let new = built(rows, c.measures, key, a, n.spans)->Ok_0;
    assert(g.spans.take(0) =~= Seq::empty());
    assert(diverge_at(g.fed, s, 0) == 0);
    assert(scan(c.pattern, v, c.skip, rows.len() as int, 0) == Ok::<Seq<Span>, Request>(n.spans)) by {
        if s.len() > 0 {
            let tail = scan(c.pattern, v, c.skip, s.len() as int, 0)->Ok_0;
            assert(Seq::<Span>::empty() + tail =~= tail);
        }
    }
    lemma_more_answers_refine(m, a, b, rows.len() as int);
    lemma_scan_refines(c.pattern, v, verdicts(c, rows, b), c.skip, rows.len() as int, 0);
    lemma_scan_bounds(c.pattern, v, c.skip, rows.len() as int, 0);
    let f = scan(c.pattern, v, c.skip, rows.len() as int, 0)->Ok_0;
    assert forall|i: int| 0 <= i < n.spans.len() implies 0 <= (#[trigger] n.spans[i]).start
        < n.spans[i].end() <= rows.len() by {
        assert(f[i].start < f[i].end());
    }
    lemma_reuse_equals_rebuild(none, rows, c.measures, key, a, b, n.spans, 0);
    if new.len() == 0 {
        assert(base(after.caches().last_emitted, key) =~= new);
    }
}

/// The law of a restart: what a partition is seeded with, where nothing was kept of it, is what
/// evaluating the query on all rows from scratch gives, and it is in step.
pub proof fn lemma_seed_equals_batch(
    before: &MatchRecognizeExecutor,
    after: &MatchRecognizeExecutor,
    w: World,
    key: RowView,
    b: Answers,
    rows: Seq<BufferView>,
    r: Result<(), Request>,
)
    requires
        after.config() == before.config(),
        before.config().emit_on_update,
        no_lookahead(before.config().defines),
        small_seqs(rows),
        more_answers(known(before.evaluations()), b),
        before.in_step(w, key, b, rows),
        base(before.caches().last_emitted, key).len() == 0,
        after.seeded(before, key, rows, r),
    ensures
        after.in_step(w, key, b, rows),
        r is Ok ==> batch(before.config(), key, rows, b) == Ok::<Seq<EmittedView>, Request>(
            base(after.caches().last_emitted, key),
        ),
{
    let c = before.config();
    let a = known(before.evaluations());
    let g = progress_of(before.caches().matchers, key);
    let none: Seq<EmittedView> = Seq::empty();
    if let Ok(n) = refreshed(g, c.pattern, verdicts(c, rows, a), c.skip, seqs(rows)) {
        lemma_whole_refresh(w, c, a, b, g, rows);
        if let Ok(new) = built(rows, c.measures, key, a, n.spans) {
            lemma_reuse_equals_rebuild(none, rows, c.measures, key, a, b, n.spans, 0);
            lemma_all_built_in_step(w, c, key, b, rows, n.spans, new);
            if new.len() == 0 {
                assert(base(after.caches().last_emitted, key) =~= new);
            }
        }
    }
}

/// A restart finds what was told before it: an executor that told the changes of a partition and
/// one that was started anew on the same rows take the same matches as told. So the restart tells
/// nothing twice and takes nothing back.
pub proof fn lemma_restart_finds_what_was_told(
    x0: &MatchRecognizeExecutor,
    x1: &MatchRecognizeExecutor,
    y0: &MatchRecognizeExecutor,
    y1: &MatchRecognizeExecutor,
    w: World,
    key: RowView,
    b: Answers,
    rows: Seq<BufferView>,
    ops: Seq<(Op, RowView)>,
)
    requires
        x1.config() == x0.config(),
        y0.config() == x0.config(),
        y1.config() == x0.config(),
        x0.config().emit_on_update,
        no_lookahead(x0.config().defines),
        small_seqs(rows),
        more_answers(known(x0.evaluations()), b),
        more_answers(known(y0.evaluations()), b),
        x0.in_step(w, key, b, rows),
        x1.diffed(x0, key, rows, Ok(ops)),
        !y0.caches().matchers.dom().contains(key),
        !y0.caches().last_emitted.dom().contains(key),
        y1.seeded(y0, key, rows, Ok(())),
    ensures
        base(y1.caches().last_emitted, key) == base(x1.caches().last_emitted, key),
{
    lemma_diff_equals_batch(x0, x1, w, key, b, rows, Ok(ops));
    lemma_nothing_kept_in_step(y0, w, key, b, rows);
    lemma_seed_equals_batch(y0, y1, w, key, b, rows, Ok(()));
}

proof fn lemma_place_of(l: Seq<EmittedView>, i: int, k: int)
    requires
        0 <= i <= k < l.len(),
        forall|j: int| 0 <= j < k ==> (#[trigger] l[j]).0.start_seq != l[k].0.start_seq,
    ensures
        place(l, l[k].0.start_seq, i) == Some(k),
    decreases k - i,
{
    if i < k {
        lemma_place_of(l, i + 1, k);
    }
}

proof fn lemma_all_reused(
    new: Seq<EmittedView>,
    c: Config,
    key: RowView,
    a: Answers,
    rows: Seq<BufferView>,
    found: Seq<Span>,
    i: int,
)
    requires
        0 <= i <= found.len(),
        new.len() == found.len(),
        forall|j: int|
            0 <= j < new.len() ==> (#[trigger] new[j]).0 == anchored(seqs(rows), found[j]),
        forall|j: int, k: int|
            0 <= j < k < new.len() ==> (#[trigger] new[j]).0.start_seq != (
            #[trigger] new[k]).0.start_seq,
    ensures
        planned(new, rows, c.measures, key, a, found, i) == Ok::<Seq<EmittedView>, Request>(
            new.skip(i),
        ),
    decreases found.len() - i,
{
    if i < found.len() {
        lemma_all_reused(new, c, key, a, rows, found, i + 1);
        assert(new[i].0 == anchored(seqs(rows), found[i]));
        lemma_place_of(new, 0, i);
        assert(seq![new[i]] + new.skip(i + 1) =~= new.skip(i));
    } else {
        assert(new.skip(i) =~= Seq::empty());
    }
}

/// Of what a matcher holds after a refresh over all rows, the matches that are planned have first
/// rows of their own.
proof fn lemma_planned_apart(
    x: &MatchRecognizeExecutor,
    key: RowView,
    rows: Seq<BufferView>,
    prev: Seq<EmittedView>,
    n: Progress,
    new: Seq<EmittedView>,
)
    requires
        x.wf(),
        distinct(seqs(rows)),
        small_seqs(rows),
        refreshed(
            progress_of(x.caches().matchers, key),
            x.config().pattern,
            x.whole_verdicts(rows),
            x.config().skip,
            seqs(rows),
        ) == Ok::<Progress, Request>(n),
        planned(prev, rows, x.config().measures, key, known(x.evaluations()), n.spans, 0) == Ok::<
            Seq<EmittedView>,
            Request,
        >(new),
    ensures
        n.fed == seqs(rows),
        new.len() == n.spans.len(),
        forall|j: int|
            0 <= j < new.len() ==> (#[trigger] new[j]).0 == anchored(seqs(rows), n.spans[j]),
        forall|j: int, k: int|
            0 <= j < k < new.len() ==> (#[trigger] new[j]).0.start_seq != (
            #[trigger] new[k]).0.start_seq,
{
    let c = x.config();
    let g = progress_of(x.caches().matchers, key);
    let a = known(x.evaluations());
    let s = seqs(rows);
    if x.caches().matchers.dom().contains(key) {
        assert(matcher_ok(x.caches().matchers[key], c.pattern, c.skip));
    }
    lemma_small_seqs(rows, 0);
    lemma_refreshed_ok(g, c.pattern, x.whole_verdicts(rows), c.skip, s);
    lemma_refreshed_rows(g, c.pattern, x.whole_verdicts(rows), c.skip, s);
    lemma_planned_entries(prev, rows, c.measures, key, a, n.spans, 0, new);
    assert forall|j: int| 0 <= j < new.len() implies (#[trigger] new[j]).0 == anchored(
        s,
        n.spans[j],
    ) by {
        assert(n.spans[0 + j] == n.spans[j]);
    }
    assert forall|j: int, k: int| 0 <= j < k < new.len() implies (#[trigger] new[j]).0.start_seq
        != (#[trigger] new[k]).0.start_seq by {
        assert(n.spans[j].start < n.spans[k].start);
        assert(0 <= n.spans[j].start && n.spans[k].start < n.spans[k].end() <= s.len());
        assert(s[n.spans[j].start] != s[n.spans[k].start]);
    }
}

/// The verdicts on the rows of a partition look back, where no predicate looks ahead. So the law of
/// the matcher cache over its whole life holds of the matcher of a partition, whose rows are the
/// safe ones of a buffer or all of them.
pub proof fn lemma_verdicts_look_back(w: World, answers: Answers, m1: Matching, m2: Matching)
    requires
        w.ok(),
        w.has(m1.rows),
        w.has(m2.rows),
        0 <= m1.safe_len <= m1.rows.len(),
        0 <= m2.safe_len <= m2.rows.len(),
        m1.defines == m2.defines,
        m1.within == m2.within,
        no_lookahead(m1.defines),
    ensures
        agree(
            define_verdicts(m1, answers),
            define_verdicts(m2, answers),
            0,
            diverge_at(seqs(m2.rows).take(m2.safe_len), seqs(m1.rows).take(m1.safe_len), 0),
        ),
{
    let s1 = seqs(m1.rows).take(m1.safe_len);
    let s2 = seqs(m2.rows).take(m2.safe_len);
    let at = diverge_at(s2, s1, 0);
    assert(s2.take(0) =~= s1.take(0));
    lemma_diverge_at(s2, s1, 0);
    assert forall|i: int| 0 <= i < at implies m1.rows[i] == m2.rows[i] by {
        assert(s2.take(at)[i] == s1.take(at)[i]);
        assert(m1.rows[i] == (w.row)(m1.rows[i].seq));
        assert(m2.rows[i] == (w.row)(m2.rows[i].seq));
    }
    assert(m1.rows.take(at) =~= m2.rows.take(at));
    lemma_same_rows_agree(m1, m2, answers, at);
}

/// Telling the changes of a partition again, over the same rows, tells nothing, whatever was kept
/// of it before, and whatever answers are known then.
pub proof fn lemma_second_diff_tells_nothing(
    x0: &MatchRecognizeExecutor,
    x1: &MatchRecognizeExecutor,
    x2: &MatchRecognizeExecutor,
    key: RowView,
    rows: Seq<BufferView>,
    ops: Seq<(Op, RowView)>,
    again: Result<Seq<(Op, RowView)>, Request>,
)
    requires
        x0.wf(),
        x1.config() == x0.config(),
        distinct(seqs(rows)),
        small_seqs(rows),
        x1.diffed(x0, key, rows, Ok(ops)),
        x2.diffed(x1, key, rows, again),
    ensures
        again == Ok::<Seq<(Op, RowView)>, Request>(Seq::empty()),
        base(x2.caches().last_emitted, key) == base(x1.caches().last_emitted, key),
{
    let c = x0.config();
    let g = progress_of(x0.caches().matchers, key);
    let n = refreshed(g, c.pattern, x0.whole_verdicts(rows), c.skip, seqs(rows))->Ok_0;
    let new = base(x1.caches().last_emitted, key);
    lemma_planned_apart(x0, key, rows, base(x0.caches().last_emitted, key), n, new);
    lemma_told_again(x1, x2, key, rows, n, again);
}

/// Telling the changes of a partition whose base was seeded, over the same rows, tells nothing.
pub proof fn lemma_diff_after_seed_tells_nothing(
    x0: &MatchRecognizeExecutor,
    x1: &MatchRecognizeExecutor,
    x2: &MatchRecognizeExecutor,
    key: RowView,
    rows: Seq<BufferView>,
    r: Result<Seq<(Op, RowView)>, Request>,
)
    requires
        x0.wf(),
        x1.config() == x0.config(),
        distinct(seqs(rows)),
        small_seqs(rows),
        base(x0.caches().last_emitted, key).len() == 0,
        x1.seeded(x0, key, rows, Ok(())),
        x2.diffed(x1, key, rows, r),
    ensures
        r == Ok::<Seq<(Op, RowView)>, Request>(Seq::empty()),
        base(x2.caches().last_emitted, key) == base(x1.caches().last_emitted, key),
{
    let c = x0.config();
    let g = progress_of(x0.caches().matchers, key);
    let n = refreshed(g, c.pattern, x0.whole_verdicts(rows), c.skip, seqs(rows))->Ok_0;
    let new = built(rows, c.measures, key, known(x0.evaluations()), n.spans)->Ok_0;
    if new.len() == 0 {
        assert(base(x1.caches().last_emitted, key) =~= new);
    }
    lemma_planned_apart(x0, key, rows, Seq::empty(), n, new);
    lemma_told_again(x1, x2, key, rows, n, r);
}

/// A partition that told the matches that its matcher holds has nothing to tell.
proof fn lemma_told_again(
    x1: &MatchRecognizeExecutor,
    x2: &MatchRecognizeExecutor,
    key: RowView,
    rows: Seq<BufferView>,
    n: Progress,
    again: Result<Seq<(Op, RowView)>, Request>,
)
    requires
        progress_of(x1.caches().matchers, key) == n,
        n.fed == seqs(rows),
        base(x1.caches().last_emitted, key).len() == n.spans.len(),
        forall|j: int|
            0 <= j < n.spans.len() ==> (#[trigger] base(x1.caches().last_emitted, key)[j]).0
                == anchored(seqs(rows), n.spans[j]),
        forall|j: int, k: int|
            0 <= j < k < n.spans.len() ==> (#[trigger] base(
                x1.caches().last_emitted,
                key,
            )[j]).0.start_seq != (#[trigger] base(x1.caches().last_emitted, key)[k]).0.start_seq,
        x2.diffed(x1, key, rows, again),
    ensures
        again == Ok::<Seq<(Op, RowView)>, Request>(Seq::empty()),
        base(x2.caches().last_emitted, key) == base(x1.caches().last_emitted, key),
{
    let new = base(x1.caches().last_emitted, key);
    lemma_all_reused(new, x1.config(), key, known(x1.evaluations()), rows, n.spans, 0);
    assert(new.skip(0) =~= new);
    lemma_same_rows_diverge(seqs(rows), 0);
    let ids = choose|ids: Seq<i64>|
        #[trigger] identities(ids, new, new) && again->Ok_0 == changes(ids, new, new, 0);
    lemma_no_change_no_ops(ids, new, 0);
}

/// Where what a partition told last is what evaluating the query on its rows from scratch gives,
/// there is nothing to tell, whatever its matcher was fed since.
pub proof fn lemma_nothing_new_to_tell(
    before: &MatchRecognizeExecutor,
    after: &MatchRecognizeExecutor,
    w: World,
    key: RowView,
    b: Answers,
    rows: Seq<BufferView>,
    r: Result<Seq<(Op, RowView)>, Request>,
)
    requires
        after.config() == before.config(),
        before.config().emit_on_update,
        no_lookahead(before.config().defines),
        small_seqs(rows),
        more_answers(known(before.evaluations()), b),
        before.in_step(w, key, b, rows),
        batch(before.config(), key, rows, b) == Ok::<Seq<EmittedView>, Request>(
            base(before.caches().last_emitted, key),
        ),
        after.diffed(before, key, rows, r),
    ensures
        r matches Ok(ops) ==> ops.len() == 0 && base(after.caches().last_emitted, key) == base(
            before.caches().last_emitted,
            key,
        ),
{
    if let Ok(ops) = r {
        let told = base(before.caches().last_emitted, key);
        lemma_diff_equals_batch(before, after, w, key, b, rows, r);
        let ids = choose|ids: Seq<i64>|
            #[trigger] identities(ids, told, told) && ops == changes(ids, told, told, 0);
        lemma_no_change_no_ops(ids, told, 0);
    }
}

/// The rows that are left are rows of the partition.
pub proof fn lemma_left_has(w: World, rows: Seq<BufferView>, k: int)
    requires
        w.has(rows),
        0 <= k <= rows.len(),
    ensures
        w.has(rows.skip(k)),
        distinct(seqs(rows)),
{
    let left = rows.skip(k);
    assert forall|i: int| 0 <= i < left.len() implies #[trigger] left[i] == (w.row)(
        left[i].seq,
    ) by {
        assert(rows[i + k] == (w.row)(rows[i + k].seq));
    }
    assert forall|i: int, j: int| 0 <= i < j < left.len() implies (w.rank)(
        (#[trigger] left[i]).seq,
    ) < (w.rank)((#[trigger] left[j]).seq) by {
        assert((w.rank)(rows[i + k].seq) < (w.rank)(rows[j + k].seq));
    }
    let s = seqs(rows);
    assert forall|i: int, j: int| 0 <= i < j < s.len() implies #[trigger] s[i]
        != #[trigger] s[j] by {
        lemma_rank_order(w, rows, i, j);
        assert(s[i] == rows[i].seq && s[j] == rows[j].seq);
    }
}

/// A matcher that goes on after an eviction is in step.
proof fn lemma_eviction_in_step(
    w: World,
    c: Config,
    b: Answers,
    n: Progress,
    m: Matching,
    k: int,
)
    requires
        w.ok(),
        w.has(m.rows),
        0 < k <= m.safe_len <= m.rows.len(),
        m.defines == c.defines,
        m.within == c.within,
        reads_inside(c.pattern, c.defines),
        n.ok(),
        n.fed == seqs(m.rows).take(m.safe_len),
        n.settled(c.pattern, define_verdicts(m, b), c.skip),
        n.current(c.pattern, define_verdicts(m, b), c.skip),
        n.caught_up(c.pattern, define_verdicts(m, b), c.skip),
    ensures
        evicted(n, c.skip, seqs(m.rows), k) matches Some(e) ==> matcher_in_step(w, c, b, e),
{
    if let Some(e) = evicted(n, c.skip, seqs(m.rows), k) {
        let left = Matching {
            rows: m.rows.skip(k),
            safe_len: m.safe_len - k,
            defines: m.defines,
            within: m.within,
        };
        lemma_left_has(w, m.rows, k);
        lemma_eviction_equals_batch(n, c.pattern, c.skip, m, b, k);
        lemma_rebased_ok(n, c.skip, seqs(m.rows)[k]);
        lemma_safe_in_step(w, c, b, e, left);
    }
}

/// The matches that stay told are in step with the rows that are left.
proof fn lemma_pruned_in_step(
    w: World,
    c: Config,
    key: RowView,
    b: Answers,
    rows: Seq<BufferView>,
    k: int,
    prev: Seq<EmittedView>,
)
    requires
        w.ok(),
        w.has(rows),
        0 <= k <= rows.len(),
        forall|i: int|
            0 <= i < prev.len() ==> entry_in_step(w, c, key, b, rows, #[trigger] prev[i]),
    ensures
        ({
            let kept = surviving(prev, seqs(rows).skip(k), prev.len() as int);
            forall|i: int|
                0 <= i < kept.len() ==> entry_in_step(
                    w,
                    c,
                    key,
                    b,
                    rows.skip(k),
                    #[trigger] kept[i],
                )
        }),
{
    let seqs_left = seqs(rows).skip(k);
    let left = rows.skip(k);
    let kept = surviving(prev, seqs_left, prev.len() as int);
    assert forall|i: int| 0 <= i < kept.len() implies entry_in_step(
        w,
        c,
        key,
        b,
        left,
        #[trigger] kept[i],
    ) by {
        let x = lemma_surviving_entry(prev, seqs_left, prev.len() as int, i);
        let e = prev[x];
        assert(entry_in_step(w, c, key, b, rows, e));
        let rs = choose|rs: Seq<i64>| #[trigger]
            told_over(w, c, key, b, e, rs) && forall|i: int|
                0 <= i < rs.len() ==> holds(rows, #[trigger] rs[i]);
        lemma_told_over(w, c, key, b, e, rs);
        let s = choose|j: int|
            0 <= j < seqs_left.len() && #[trigger] seqs_left[j] == e.0.start_seq;
        assert(rows[k + s].seq == rs[0]);
        assert forall|j: int| 0 <= j < rs.len() implies holds(left, #[trigger] rs[j]) by {
            assert(holds(rows, rs[j]));
            let at = choose|at: int| 0 <= at < rows.len() && (#[trigger] rows[at]).seq == rs[j];
            if j > 0 {
                assert((w.rank)(rs[0]) < (w.rank)(rs[j]));
            }
            lemma_rank_order(w, rows, k + s, at);
            assert(left[at - k].seq == rs[j]);
        }
        assert(told_over(w, c, key, b, e, rs));
    }
}

/// What is left of a partition after a visit is in step, and the visit takes nothing back: a match
/// that was told stays told, and is no longer kept if its first row is evicted. A visit that stops
/// evicts nothing and keeps all of them. No predicate may read rows outside of the match in
/// progress, for it could read a row that is evicted.
pub proof fn lemma_visit_keeps_step(
    before: &MatchRecognizeExecutor,
    after: &MatchRecognizeExecutor,
    w: World,
    key: RowView,
    b: Answers,
    old_wakeup: ScalarView,
    rows: Seq<BufferView>,
    mark: ScalarView,
    min_before: DatumView,
    min_after: DatumView,
    r: Result<(VisitView, Seq<WriteView>), Request>,
)
    requires
        after.config() == before.config(),
        reads_inside(before.config().pattern, before.config().defines),
        small_seqs(rows),
        more_answers(known(before.evaluations()), b),
        before.in_step(w, key, b, rows),
        after.visited(before, key, old_wakeup, rows, mark, min_before, min_after, r),
    ensures
        match r {
            Err(q) => {
                &&& after.in_step(w, key, b, rows)
                &&& base(after.caches().last_emitted, key) == base(
                    before.caches().last_emitted,
                    key,
                )
            },
            Ok((d, _)) => {
                &&& 0 <= d.retain_from <= rows.len()
                &&& after.in_step(w, key, b, rows.skip(d.retain_from))
                &&& before.config().emit_on_update ==> d.out_rows.len() == 0
                &&& forall|e: EmittedView| #[trigger]
                    base(after.caches().last_emitted, key).contains(e) ==> base(
                        before.caches().last_emitted,
                        key,
                    ).contains(e)
            },
        },
{
    let c = before.config();
    let pass = before.pass(rows, mark);
    let m = pass.matching;
    let a = known(before.evaluations());
    let g = progress_of(before.caches().matchers, key);
    let prev = base(before.caches().last_emitted, key);
    lemma_safe_prefix(rows, mark, 0);
    if let Ok(n) = refreshed(
        g,
        c.pattern,
        pass.verdicts(),
        c.skip,
        seqs(rows).take(m.safe_len),
    ) {
        lemma_small_seqs(rows, m.safe_len);
        lemma_refreshed_ok(
            g,
            c.pattern,
            pass.verdicts(),
            c.skip,
            seqs(rows).take(m.safe_len),
        );
        lemma_refresh_in_step(w, c, a, b, g, m);
        if let Ok((d, _)) = r {
            lemma_only_safe_rows_are_evicted(
                pass,
                n.spans,
                c.measures,
                key,
                !c.emit_on_update,
            );
            let k = d.retain_from;
            let left = rows.skip(k);
            lemma_left_has(w, rows, k);
            if k == 0 {
                assert(left =~= rows);
            } else {
                lemma_eviction_in_step(w, c, b, n, m, k);
                if evicted(n, c.skip, seqs(rows), k) is None {
                    lemma_empty_in_step(w, c, b);
                }
                if c.emit_on_update {
                    lemma_pruned_in_step(w, c, key, b, rows, k, prev);
                    let kept = base(after.caches().last_emitted, key);
                    assert forall|e: EmittedView| #[trigger] kept.contains(e) implies prev.contains(
                        e,
                    ) by {
                        let y = choose|y: int| 0 <= y < kept.len() && kept[y] == e;
                        let x = lemma_surviving_entry(
                            prev,
                            seqs(rows).skip(k),
                            prev.len() as int,
                            y,
                        );
                        assert(prev[x] == e);
                    }
                }
            }
        }
    }
}

/// A visit can be replayed: two executors that are in step with the same rows decide the same at
/// the same watermark. So after a rollback the same matches are told again, with the same rows.
pub proof fn lemma_visit_replays(
    x0: &MatchRecognizeExecutor,
    x1: &MatchRecognizeExecutor,
    y0: &MatchRecognizeExecutor,
    y1: &MatchRecognizeExecutor,
    w: World,
    key: RowView,
    b: Answers,
    old_wakeup: ScalarView,
    rows: Seq<BufferView>,
    mark: ScalarView,
    min_x0: DatumView,
    min_x1: DatumView,
    min_y0: DatumView,
    min_y1: DatumView,
    rx: (VisitView, Seq<WriteView>),
    ry: (VisitView, Seq<WriteView>),
)
    requires
        y0.config() == x0.config(),
        no_lookahead(x0.config().defines),
        small_seqs(rows),
        more_answers(known(x0.evaluations()), b),
        more_answers(known(y0.evaluations()), b),
        x0.in_step(w, key, b, rows),
        y0.in_step(w, key, b, rows),
        x1.visited(x0, key, old_wakeup, rows, mark, min_x0, min_x1, Ok(rx)),
        y1.visited(y0, key, old_wakeup, rows, mark, min_y0, min_y1, Ok(ry)),
    ensures
        rx == ry,
{
    lemma_visit_decides(x0, x1, w, key, b, old_wakeup, rows, mark, min_x0, min_x1, rx);
    lemma_visit_decides(y0, y1, w, key, b, old_wakeup, rows, mark, min_y0, min_y1, ry);
    let px = with_answers(x0.pass(rows, mark), b);
    let py = with_answers(y0.pass(rows, mark), b);
    assert(px == py);
}

/// A visit decides what is decided from the matches that a scan of the safe rows finds, with all
/// answers known.
pub proof fn lemma_visit_decides(
    before: &MatchRecognizeExecutor,
    after: &MatchRecognizeExecutor,
    w: World,
    key: RowView,
    b: Answers,
    old_wakeup: ScalarView,
    rows: Seq<BufferView>,
    mark: ScalarView,
    min_before: DatumView,
    min_after: DatumView,
    r: (VisitView, Seq<WriteView>),
)
    requires
        no_lookahead(before.config().defines),
        small_seqs(rows),
        more_answers(known(before.evaluations()), b),
        before.in_step(w, key, b, rows),
        after.visited(before, key, old_wakeup, rows, mark, min_before, min_after, Ok(r)),
    ensures
        ({
            let c = before.config();
            let pass = with_answers(before.pass(rows, mark), b);
            let found = scan(c.pattern, pass.verdicts(), c.skip, pass.matching.safe_len, 0);
            &&& found is Ok
            &&& decided(pass, found->Ok_0, c.measures, key, !c.emit_on_update) == Ok::<
                VisitView,
                Request,
            >(r.0)
            &&& r.1 == match r.0.next_wakeup {
                Some(next) => move_writes(key, old_wakeup, next),
                None => remove_writes(key, old_wakeup),
            }
        }),
{
    let c = before.config();
    let pass = before.pass(rows, mark);
    let m = pass.matching;
    let g = progress_of(before.caches().matchers, key);
    lemma_safe_prefix(rows, mark, 0);
    lemma_small_seqs(rows, m.safe_len);
    lemma_refreshed_ok(g, c.pattern, pass.verdicts(), c.skip, seqs(rows).take(m.safe_len));
    lemma_refresh_in_step(w, c, pass.answers, b, g, m);
    let n = refreshed(
        g,
        c.pattern,
        pass.verdicts(),
        c.skip,
        seqs(rows).take(m.safe_len),
    )->Ok_0;
    lemma_decided_refines(pass, b, n.spans, c.measures, key, !c.emit_on_update);
}

/// The matcher holds what a scan of its rows finds, and nothing is frozen.
pub open spec fn unfrozen_in_step(w: World, c: Config, answers: Answers, g: Progress) -> bool {
    &&& g.ok()
    &&& g.frozen == 0
    &&& g.resume == 0
    &&& g.current(c.pattern, verdicts(c, w.rows(g.fed), answers), c.skip)
}

/// A refresh of a matcher in which nothing is frozen finds what a scan of the rows finds, whatever
/// the predicates read.
proof fn lemma_unfrozen_refresh(
    w: World,
    c: Config,
    a: Answers,
    b: Answers,
    g: Progress,
    m: Matching,
)
    requires
        w.has(m.rows),
        small_seqs(m.rows),
        0 <= m.safe_len <= m.rows.len(),
        m.defines == c.defines,
        m.within == c.within,
        more_answers(a, b),
        unfrozen_in_step(w, c, b, g),
        refreshed(
            g,
            c.pattern,
            define_verdicts(m, a),
            c.skip,
            seqs(m.rows).take(m.safe_len),
        ) is Ok,
    ensures
        ({
            let n = refreshed(
                g,
                c.pattern,
                define_verdicts(m, a),
                c.skip,
                seqs(m.rows).take(m.safe_len),
            )->Ok_0;
            &&& n.ok()
            &&& n.fed == seqs(m.rows).take(m.safe_len)
            &&& n.settled(c.pattern, define_verdicts(m, b), c.skip)
            &&& n.current(c.pattern, define_verdicts(m, b), c.skip)
        }),
{
    let rows = seqs(m.rows).take(m.safe_len);
    let at = diverge_at(g.fed, rows, 0);
    let known_v = define_verdicts(m, a);
    let v = define_verdicts(m, b);
    let n = refreshed(g, c.pattern, known_v, c.skip, rows)->Ok_0;
    lemma_small_seqs(m.rows, m.safe_len);
    lemma_refreshed_ok(g, c.pattern, known_v, c.skip, rows);
    lemma_refreshed_rows(g, c.pattern, known_v, c.skip, rows);
    assert(g.fed.take(0) =~= rows.take(0));
    lemma_diverge_at(g.fed, rows, 0);
    let none: Seq<Span> = Seq::empty();
    assert(g.spans.take(0) =~= none);
    assert(none.take(0) =~= none);
    lemma_more_answers_refine(m, a, b, rows.len() as int);
    if at == g.fed.len() && at == rows.len() {
        lemma_safe_verdicts(w, c, b, m);
        lemma_progress_agree(g, c.pattern, verdicts(c, w.rows(rows), b), v, c.skip);
    } else if at == g.fed.len() {
        lemma_step_equals_batch(g, c.pattern, known_v, v, c.skip, rows);
    } else {
        let cut = g.cut(c.skip, at, 0);
        assert(cut.spans =~= none);
        assert(cut.ok()) by {
            assert forall|i: int| 0 <= i < cut.fed.len() implies #[trigger] cut.fed[i]
                < i64::MAX by {
                assert(g.fed[i] < i64::MAX);
            }
        }
        assert(cut.spans.take(0) =~= none);
        lemma_step_equals_batch(cut, c.pattern, known_v, v, c.skip, rows);
    }
}

/// The verdicts on the safe rows are those on the safe rows alone.
proof fn lemma_safe_verdicts(w: World, c: Config, answers: Answers, m: Matching)
    requires
        w.has(m.rows),
        0 <= m.safe_len <= m.rows.len(),
        m.defines == c.defines,
        m.within == c.within,
    ensures
        agree(
            verdicts(c, w.rows(seqs(m.rows).take(m.safe_len)), answers),
            define_verdicts(m, answers),
            0,
            m.safe_len,
        ),
        agree(
            define_verdicts(m, answers),
            verdicts(c, w.rows(seqs(m.rows).take(m.safe_len)), answers),
            0,
            m.safe_len,
        ),
{
    let safe = m.rows.take(m.safe_len);
    let alone = whole_buffer(safe, c.defines, c.within);
    lemma_world_rows(w, m.rows, m.safe_len);
    assert(safe.take(m.safe_len) =~= safe);
    lemma_safe_rows_agree(m, alone, answers);
    lemma_safe_rows_agree(alone, m, answers);
}

/// A visit where matches are told when they are final decides what is decided from the matches that
/// a scan of the safe rows finds, whatever the predicates read.
pub proof fn lemma_final_visit_decides(
    before: &MatchRecognizeExecutor,
    after: &MatchRecognizeExecutor,
    w: World,
    key: RowView,
    b: Answers,
    old_wakeup: ScalarView,
    rows: Seq<BufferView>,
    mark: ScalarView,
    min_before: DatumView,
    min_after: DatumView,
    r: (VisitView, Seq<WriteView>),
)
    requires
        w.has(rows),
        small_seqs(rows),
        more_answers(known(before.evaluations()), b),
        unfrozen_in_step(w, before.config(), b, progress_of(before.caches().matchers, key)),
        after.visited(before, key, old_wakeup, rows, mark, min_before, min_after, Ok(r)),
    ensures
        ({
            let c = before.config();
            let pass = with_answers(before.pass(rows, mark), b);
            let found = scan(c.pattern, pass.verdicts(), c.skip, pass.matching.safe_len, 0);
            &&& found is Ok
            &&& decided(pass, found->Ok_0, c.measures, key, !c.emit_on_update) == Ok::<
                VisitView,
                Request,
            >(r.0)
        }),
{
    let c = before.config();
    let pass = before.pass(rows, mark);
    let m = pass.matching;
    let g = progress_of(before.caches().matchers, key);
    lemma_safe_prefix(rows, mark, 0);
    lemma_unfrozen_refresh(w, c, pass.answers, b, g, m);
    let n = refreshed(
        g,
        c.pattern,
        pass.verdicts(),
        c.skip,
        seqs(rows).take(m.safe_len),
    )->Ok_0;
    lemma_decided_refines(pass, b, n.spans, c.measures, key, !c.emit_on_update);
}

/// After a visit where matches are told when they are final nothing is frozen: all that was frozen
/// is final, and its first rows are evicted. The matcher holds what a scan of the rows that are left
/// finds, where no predicate reads rows before the match in progress.
pub proof fn lemma_final_visit_keeps_unfrozen(
    before: &MatchRecognizeExecutor,
    after: &MatchRecognizeExecutor,
    w: World,
    key: RowView,
    b: Answers,
    old_wakeup: ScalarView,
    rows: Seq<BufferView>,
    mark: ScalarView,
    min_before: DatumView,
    min_after: DatumView,
    r: Result<(VisitView, Seq<WriteView>), Request>,
)
    requires
        w.has(rows),
        small_seqs(rows),
        reads_no_row_before(before.config().pattern, before.config().defines),
        more_answers(known(before.evaluations()), b),
        unfrozen_in_step(w, before.config(), b, progress_of(before.caches().matchers, key)),
        after.visited(before, key, old_wakeup, rows, mark, min_before, min_after, r),
    ensures
        unfrozen_in_step(w, before.config(), b, progress_of(after.caches().matchers, key)),
{
    if let Ok(visit) = r {
        let c = before.config();
        let d = visit.0;
        let pass = with_answers(before.pass(rows, mark), b);
        let m = pass.matching;
        let s = seqs(rows);
        let g = progress_of(before.caches().matchers, key);
        let tell = !c.emit_on_update;
        lemma_safe_prefix(rows, mark, 0);
        lemma_unfrozen_refresh(w, c, known(before.evaluations()), b, g, m);
        lemma_final_visit_decides(
            before,
            after,
            w,
            key,
            b,
            old_wakeup,
            rows,
            mark,
            min_before,
            min_after,
            visit,
        );
        let n = refreshed(
            g,
            c.pattern,
            before.pass(rows, mark).verdicts(),
            c.skip,
            s.take(m.safe_len),
        )->Ok_0;
        lemma_only_safe_rows_are_evicted(pass, n.spans, c.measures, key, tell);
        lemma_no_match_lost_or_repeated(pass, n.spans, c.measures, key, tell);
        lemma_frozen_is_final(pass, n);
        let k = d.retain_from;
        let cursor = (pass.finals(n.spans, 0, 0)->Ok_0).1;
        assert forall|i: int| 0 <= i < n.frozen implies (#[trigger] n.spans[i]).start < k by {
            assert(d.finals[i] == n.spans[i]);
        }
        match evicted(n, c.skip, s, k) {
            None => {
                let none: Seq<Span> = Seq::empty();
                assert(none.take(0) =~= none);
            },
            Some(e) => {
                if k == 0 {
                    if n.frozen > 0 {
                        assert(n.spans[0].start < 0);
                    }
                    lemma_safe_verdicts(w, c, b, m);
                    lemma_progress_agree(
                        n,
                        c.pattern,
                        define_verdicts(m, b),
                        verdicts(c, w.rows(n.fed), b),
                        c.skip,
                    );
                } else {
                    lemma_unfrozen_eviction(w, c, b, n, m, k, cursor);
                }
            },
        }
    }
}

/// The frozen matches are final, and the scan resumes after them.
proof fn lemma_frozen_is_final(pass: Pass, n: Progress)
    requires
        n.ok(),
        n.fed.len() == pass.matching.safe_len,
        n.settled(pass.pattern, pass.verdicts(), pass.skip),
        n.current(pass.pattern, pass.verdicts(), pass.skip),
        pass.finals(n.spans, 0, 0) is Ok,
    ensures
        n.frozen <= (pass.finals(n.spans, 0, 0)->Ok_0).0.len(),
        forall|i: int|
            0 <= i < n.frozen ==> (pass.finals(n.spans, 0, 0)->Ok_0).0[i] == #[trigger] n.spans[i],
        n.resume <= (pass.finals(n.spans, 0, 0)->Ok_0).1,
        n.frozen == 0 ==> n.resume == 0,
{
    let p = pass.pattern;
    let v = pass.verdicts();
    let safe = pass.matching.safe_len;
    let f = n.frozen as int;
    let frozen = n.spans.take(f);
    lemma_scan_bounds(p, v, pass.skip, safe, 0);
    let s = scan(p, v, pass.skip, safe, 0)->Ok_0;
    assert forall|j: int| 0 <= j < n.spans.len() implies 0 <= (#[trigger] n.spans[j]).start by {
        assert(n.spans[j].start < n.spans[j].end());
    }
    let k = lemma_finals(pass, n.spans, 0, 0);
    lemma_settled_dead(p, v, pass.skip, safe, 0, n.resume, frozen);
    lemma_settled_resumes(p, v, pass.skip, safe, 0, n.resume, frozen);
    if k < f {
        assert(frozen[k] == n.spans[k]);
        assert(dead(p, v, frozen[k].start, safe));
        lemma_held_is_alive(pass, n.spans[k]);
    }
    assert forall|i: int| 0 <= i < f implies n.spans.subrange(0, k)[i] == #[trigger] n.spans[i] by {}
    if 0 < f {
        assert(frozen[f - 1] == n.spans[f - 1]);
        if f < k {
            assert(resume(pass.skip, s[f - 1].start, s[f - 1].labels) <= s[k - 1].start);
            assert(n.spans[k - 1].start < (pass.finals(n.spans, 0, 0)->Ok_0).1);
        }
    }
}

/// A matcher that goes on after all that was frozen is evicted has nothing frozen.
proof fn lemma_unfrozen_eviction(
    w: World,
    c: Config,
    b: Answers,
    n: Progress,
    m: Matching,
    k: int,
    cursor: int,
)
    requires
        w.has(m.rows),
        0 < k <= m.safe_len <= m.rows.len(),
        m.defines == c.defines,
        m.within == c.within,
        reads_no_row_before(c.pattern, c.defines),
        n.ok(),
        n.fed == seqs(m.rows).take(m.safe_len),
        n.settled(c.pattern, define_verdicts(m, b), c.skip),
        n.current(c.pattern, define_verdicts(m, b), c.skip),
        forall|i: int| 0 <= i < n.frozen ==> (#[trigger] n.spans[i]).start < k,
        n.resume <= cursor <= k,
        evicted(n, c.skip, seqs(m.rows), k) is Some,
    ensures
        unfrozen_in_step(w, c, b, evicted(n, c.skip, seqs(m.rows), k)->Some_0),
{
    let e = evicted(n, c.skip, seqs(m.rows), k)->Some_0;
    let boundary = seqs(m.rows)[k];
    let at = seq_pos(n.fed, boundary, 0)->Some_0;
    let j = ended(n.spans, at);
    let left = Matching {
        rows: m.rows.skip(k),
        safe_len: m.safe_len - k,
        defines: m.defines,
        within: m.within,
    };
    lemma_left_has(w, m.rows, k);
    lemma_eviction_equals_batch(n, c.pattern, c.skip, m, b, k);
    lemma_rebased_ok(n, c.skip, boundary);
    lemma_seq_pos(n.fed, boundary, 0);
    assert(at == k) by {
        let s = seqs(m.rows);
        assert(s[at] == s[k]);
        if at < k {
            assert(s[at] != s[k]);
        } else if at > k {
            assert(s[k] != s[at]);
        }
    }
    if j < n.frozen {
        assert(at <= n.spans[j as int].start);
    }
    lemma_safe_verdicts(w, c, b, left);
    lemma_progress_agree(
        e,
        c.pattern,
        define_verdicts(left, b),
        verdicts(c, w.rows(e.fed), b),
        c.skip,
    );
}

/// A scan that, after each match that begins before row `k`, resumes at row `k` or before comes by
/// row `k`: from there it finds the matches that begin at row `k` or after.
proof fn lemma_scan_comes_by(
    p: Pattern,
    v: Verdicts,
    skip: SkipView,
    n: int,
    cursor: int,
    f: Seq<Span>,
    k: int,
) -> (j: int)
    requires
        scan(p, v, skip, n, cursor) == Ok::<Seq<Span>, Request>(f),
        cursor <= k <= n,
        forall|i: int|
            0 <= i < f.len() && (#[trigger] f[i]).start < k ==> resume(
                skip,
                f[i].start,
                f[i].labels,
            ) <= k,
    ensures
        0 <= j <= f.len(),
        forall|i: int| 0 <= i < j ==> (#[trigger] f[i]).start < k,
        forall|i: int| j <= i < f.len() ==> k <= (#[trigger] f[i]).start,
        scan(p, v, skip, n, k) == Ok::<Seq<Span>, Request>(f.skip(j)),
    decreases k - cursor,
{
    if cursor == k {
        lemma_scan_bounds(p, v, skip, n, cursor);
        let s = scan(p, v, skip, n, cursor)->Ok_0;
        assert forall|i: int| 0 <= i < f.len() implies k <= (#[trigger] f[i]).start by {
            assert(cursor <= s[i].start);
        }
        assert(f.skip(0) =~= f);
        0
    } else {
        match preferred(p, v, cursor, n) {
            Some(Outcome::Done(l)) => {
                if l.len() > 0 {
                    lemma_resume_advances(skip, cursor, l);
                    let next = resume(skip, cursor, l);
                    let rest = scan(p, v, skip, n, next)->Ok_0;
                    assert(f =~= seq![Span { start: cursor, labels: l }] + rest);
                    assert(f[0].start < k);
                    assert forall|i: int|
                        0 <= i < rest.len() && (#[trigger] rest[i]).start < k implies resume(
                        skip,
                        rest[i].start,
                        rest[i].labels,
                    ) <= k by {
                        assert(f[i + 1] == rest[i]);
                    }
                    let j = lemma_scan_comes_by(p, v, skip, n, next, rest, k);
                    assert forall|i: int| 0 <= i < j + 1 implies (#[trigger] f[i]).start < k by {
                        if i > 0 {
                            assert(f[i] == rest[i - 1]);
                        }
                    }
                    assert forall|i: int| j + 1 <= i < f.len() implies k <= (
                    #[trigger] f[i]).start by {
                        assert(f[i] == rest[i - 1]);
                    }
                    assert(f.skip(j + 1) =~= rest.skip(j));
                    j + 1
                } else {
                    lemma_scan_comes_by(p, v, skip, n, cursor + 1, f, k)
                }
            },
            _ => lemma_scan_comes_by(p, v, skip, n, cursor + 1, f, k),
        }
    }
}

/// The first row of the match is left.
spec fn is_left(left: Seq<i64>, e: EmittedView) -> bool {
    exists|y: int| 0 <= y < left.len() && #[trigger] left[y] == e.0.start_seq
}

proof fn lemma_surviving_skip(l: Seq<EmittedView>, left: Seq<i64>, i: int, j: int)
    requires
        0 <= i <= l.len(),
        0 <= j <= l.len(),
        forall|x: int| 0 <= x < l.len() ==> (is_left(left, #[trigger] l[x]) <==> j <= x),
    ensures
        surviving(l, left, i) == if i <= j {
            Seq::<EmittedView>::empty()
        } else {
            l.subrange(j, i)
        },
    decreases i,
{
    if i > 0 {
        lemma_surviving_skip(l, left, i - 1, j);
        assert(is_left(left, l[i - 1]) <==> j <= i - 1);
        if i > j {
            assert(l.subrange(j, i) =~= (if i - 1 <= j {
                Seq::<EmittedView>::empty()
            } else {
                l.subrange(j, i - 1)
            }).push(l[i - 1]));
        }
    }
}

/// The match of rows that are left is told with the same row.
proof fn lemma_built_moved(
    c: Config,
    key: RowView,
    answers: Answers,
    rows: Seq<BufferView>,
    k: int,
    m: Span,
)
    requires
        0 <= k <= m.start < m.end() <= rows.len(),
    ensures
        built_one(
            rows.skip(k),
            c.measures,
            key,
            answers,
            Span { start: m.start - k, labels: m.labels },
        ) == built_one(rows, c.measures, key, answers, m),
{
    let left = rows.skip(k);
    let moved_m = Span { start: m.start - k, labels: m.labels };
    let m1 = MatchRows { rows: left, start: m.start - k, labels: m.labels };
    let m2 = MatchRows { rows, start: m.start, labels: m.labels };
    assert forall|i: int| 0 <= i < m.labels.len() implies #[trigger] left[m.start - k + i]
        == rows[m.start + i] by {}
    lemma_match_row_same(m1, m2, c.measures, key, answers);
    assert(seqs(left)[moved_m.start] == seqs(rows)[m.start]);
    assert(seqs(left)[moved_m.end() - 1] == seqs(rows)[m.end() - 1]);
}

/// Entries that are built one by one are built together.
proof fn lemma_built_together(
    rows: Seq<BufferView>,
    c: Config,
    key: RowView,
    answers: Answers,
    found: Seq<Span>,
    i: int,
    l: Seq<EmittedView>,
)
    requires
        0 <= i <= found.len(),
        l.len() == found.len(),
        forall|j: int|
            0 <= j < l.len() ==> built_one(rows, c.measures, key, answers, found[j]) == Ok::<
                EmittedView,
                Request,
            >(#[trigger] l[j]),
    ensures
        planned(Seq::empty(), rows, c.measures, key, answers, found, i) == Ok::<
            Seq<EmittedView>,
            Request,
        >(l.skip(i)),
    decreases found.len() - i,
{
    if i < found.len() {
        lemma_built_together(rows, c, key, answers, found, i + 1, l);
        assert(built_one(rows, c.measures, key, answers, found[i]) == Ok::<EmittedView, Request>(
            l[i],
        ));
        assert(seq![l[i]] + l.skip(i + 1) =~= l.skip(i));
    } else {
        assert(l.skip(i) =~= Seq::empty());
    }
}

/// The matches of the rows that are left are those of all rows that begin there, with the same
/// output rows.
proof fn lemma_batch_of_rows_left(
    w: World,
    c: Config,
    key: RowView,
    answers: Answers,
    rows: Seq<BufferView>,
    k: int,
    found: Seq<Span>,
    all: Seq<EmittedView>,
)
    requires
        w.ok(),
        w.has(rows),
        0 <= k <= rows.len(),
        reads_inside(c.pattern, c.defines),
        scan(c.pattern, verdicts(c, rows, answers), c.skip, rows.len() as int, 0) == Ok::<
            Seq<Span>,
            Request,
        >(found),
        built(rows, c.measures, key, answers, found) == Ok::<Seq<EmittedView>, Request>(all),
        comes_by(c.skip, found, k),
    ensures
        batch(c, key, rows.skip(k), answers) == Ok::<Seq<EmittedView>, Request>(
            surviving(all, seqs(rows).skip(k), all.len() as int),
        ),
{
    let n = rows.len() as int;
    let p = c.pattern;
    let v = verdicts(c, rows, answers);
    let left = rows.skip(k);
    let vl = verdicts(c, left, answers);
    let seqs_left = seqs(rows).skip(k);
    let j = lemma_scan_comes_by(p, v, c.skip, n, 0, found, k);
    lemma_scan_bounds(p, v, c.skip, n, 0);
    let f = scan(p, v, c.skip, n, 0)->Ok_0;
    assert forall|i: int| 0 <= i < found.len() implies 0 <= (#[trigger] found[i]).start
        < found[i].end() <= n by {
        assert(0 <= f[i].start);
    }
    lemma_scan_moved(p, v, c.skip, n - k, 0, k);
    lemma_evicted_rows_same_ways(
        p,
        whole_buffer(rows, c.defines, c.within),
        whole_buffer(left, c.defines, c.within),
        answers,
        k,
        n - k,
    );
    lemma_scan_same_ways(p, shifted(v, k), vl, c.skip, n - k, 0);
    let found_left = scan(p, vl, c.skip, n - k, 0)->Ok_0;
    assert(moved(found_left, k) == found.skip(j));
    assert(found_left.len() == found.len() - j) by {
        assert(moved(found_left, k).len() == found_left.len());
    }
    lemma_built_entries(rows, c.measures, key, answers, found, 0, all);
    let kept = all.skip(j);
    assert forall|i: int| 0 <= i < kept.len() implies built_one(
        left,
        c.measures,
        key,
        answers,
        found_left[i],
    ) == Ok::<EmittedView, Request>(#[trigger] kept[i]) by {
        let m = found[j + i];
        assert(moved(found_left, k)[i] == m);
        assert(moved(found_left, k)[i].start == found_left[i].start + k);
        assert(moved(found_left, k)[i].labels == found_left[i].labels);
        assert(found_left[i] == (Span { start: m.start - k, labels: m.labels }));
        assert(kept[i] == all[j + i]);
        assert(found[0 + (j + i)] == m);
        lemma_built_moved(c, key, answers, rows, k, m);
    }
    lemma_built_together(left, c, key, answers, found_left, 0, kept);
    assert(kept.skip(0) =~= kept);
    assert forall|x: int| 0 <= x < all.len() implies (is_left(seqs_left, #[trigger] all[x]) <==> j
        <= x) by {
        let m = found[0 + x];
        assert(all[x].0 == anchored(seqs(rows), m));
        assert(seqs(rows)[m.start] == rows[m.start].seq);
        if x < j {
            assert(found[x].start < k);
            if is_left(seqs_left, all[x]) {
                let y = choose|y: int|
                    0 <= y < seqs_left.len() && #[trigger] seqs_left[y] == all[x].0.start_seq;
                assert(rows[k + y].seq == seqs_left[y]);
                lemma_rank_order(w, rows, m.start, k + y);
            }
        } else {
            assert(k <= found[x].start);
            assert(seqs_left[m.start - k] == all[x].0.start_seq);
        }
    }
    lemma_surviving_skip(all, seqs_left, all.len() as int, j);
    assert(surviving(all, seqs_left, all.len() as int) =~= kept);
}

/// After each match that begins before row `k` a scan resumes at row `k` or before.
pub open spec fn comes_by(skip: SkipView, found: Seq<Span>, k: int) -> bool {
    forall|i: int|
        0 <= i < found.len() && (#[trigger] found[i]).start < k ==> resume(
            skip,
            found[i].start,
            found[i].labels,
        ) <= k
}

/// Evicting rows takes nothing back: where the matches of a partition were told, and then rows of
/// it are evicted and none arrives, there is nothing to tell. A scan of all rows must come by the
/// first row that is left; one that skips across it may find other matches from there on.
pub proof fn lemma_eviction_takes_nothing_back(
    x0: &MatchRecognizeExecutor,
    x1: &MatchRecognizeExecutor,
    x2: &MatchRecognizeExecutor,
    x3: &MatchRecognizeExecutor,
    w: World,
    key: RowView,
    b: Answers,
    rows: Seq<BufferView>,
    ops: Seq<(Op, RowView)>,
    old_wakeup: ScalarView,
    mark: ScalarView,
    min_before: DatumView,
    min_after: DatumView,
    visit: (VisitView, Seq<WriteView>),
    left_ops: Seq<(Op, RowView)>,
)
    requires
        x1.config() == x0.config(),
        x2.config() == x0.config(),
        x3.config() == x0.config(),
        x0.config().emit_on_update,
        reads_inside(x0.config().pattern, x0.config().defines),
        small_seqs(rows),
        more_answers(known(x0.evaluations()), b),
        more_answers(known(x1.evaluations()), b),
        more_answers(known(x2.evaluations()), b),
        x0.in_step(w, key, b, rows),
        x1.diffed(x0, key, rows, Ok(ops)),
        x2.visited(x1, key, old_wakeup, rows, mark, min_before, min_after, Ok(visit)),
        x3.diffed(x2, key, rows.skip(visit.0.retain_from), Ok(left_ops)),
        scan(
            x0.config().pattern,
            verdicts(x0.config(), rows, b),
            x0.config().skip,
            rows.len() as int,
            0,
        ) matches Ok(found) ==> comes_by(x0.config().skip, found, visit.0.retain_from),
    ensures
        left_ops.len() == 0,
{
    let c = x0.config();
    let k = visit.0.retain_from;
    let left = rows.skip(k);
    let all = base(x1.caches().last_emitted, key);
    lemma_diff_equals_batch(x0, x1, w, key, b, rows, Ok(ops));
    lemma_visit_keeps_step(
        x1,
        x2,
        w,
        key,
        b,
        old_wakeup,
        rows,
        mark,
        min_before,
        min_after,
        Ok(visit),
    );
    assert(small_seqs(left)) by {
        assert forall|i: int| 0 <= i < left.len() implies (#[trigger] left[i]).seq < i64::MAX by {
            assert(rows[i + k].seq < i64::MAX);
        }
    }
    lemma_diff_equals_batch(x2, x3, w, key, b, left, Ok(left_ops));
    let found = scan(c.pattern, verdicts(c, rows, b), c.skip, rows.len() as int, 0)->Ok_0;
    lemma_batch_of_rows_left(w, c, key, b, rows, k, found, all);
    let kept = base(x2.caches().last_emitted, key);
    if k == 0 {
        lemma_scan_bounds(c.pattern, verdicts(c, rows, b), c.skip, rows.len() as int, 0);
        lemma_surviving_all(all, seqs(rows).skip(0), rows, found, all.len() as int, c, key, b);
    }
    assert(kept == surviving(all, seqs(rows).skip(k), all.len() as int));
    let new = base(x3.caches().last_emitted, key);
    let ids = choose|ids: Seq<i64>|
        #[trigger] identities(ids, kept, new) && left_ops == changes(ids, kept, new, 0);
    lemma_no_change_no_ops(ids, kept, 0);
}

/// Where no row is evicted every match stays told.
proof fn lemma_surviving_all(
    all: Seq<EmittedView>,
    left: Seq<i64>,
    rows: Seq<BufferView>,
    found: Seq<Span>,
    i: int,
    c: Config,
    key: RowView,
    b: Answers,
)
    requires
        left == seqs(rows).skip(0),
        spans_within(found, rows.len() as int),
        built(rows, c.measures, key, b, found) == Ok::<Seq<EmittedView>, Request>(all),
        i == all.len(),
    ensures
        surviving(all, left, i) == all,
{
    lemma_built_entries(rows, c.measures, key, b, found, 0, all);
    assert forall|x: int| 0 <= x < all.len() implies (is_left(left, #[trigger] all[x]) <==> 0
        <= x) by {
        let m = found[0 + x];
        assert(0 <= found[x].start < found[x].end());
        assert(left[m.start] == all[x].0.start_seq);
    }
    lemma_surviving_skip(all, left, i, 0);
    assert(all.subrange(0, i) =~= all);
}

} // verus!
