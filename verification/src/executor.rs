//! The executor's decisions.
//!
//! The executor reads and writes tables and evaluates expressions elsewhere. What it decides on a
//! chunk, on a watermark and on a barrier is decided here, from the rows that were read. A step
//! that needs an expression evaluated returns the request; once the answer is recorded the same
//! step is taken again.

use crate::buffer::{buffer_view, seqs, BufferView, BufferedRow};
use crate::changelog::{changes, emitted_view, identities, ops_view, Emitted};
use crate::datum::{
    before, datum_view, row_clone, row_view, Datum, DatumView, RowView, Scalar, ScalarView,
};
use crate::define::{
    define_fits, define_verdict, define_verdicts, define_views, known, CompiledDefine, DefineView,
    Matching,
};
use crate::emission::{
    base, built, compute_partition_emitted, emit_partition_diff, lemma_built_entries,
    lemma_planned_entries, planned, rows_ok, told, whole_buffer,
};
use crate::eval::{EvalRequest, Evaluations, Request};
use crate::eviction::{evict_from_matcher, evicted, prune_emitted, surviving};
use crate::frontier::{
    bound_view, fold_min, idle, insert_writes, is_idle, lemma_lower, lower, meta_row, move_frontier,
    move_writes, remove_frontier, remove_writes, update_frontier_on_insert, wakeup_in,
    write_views, TableWrite, WriteView,
};
use crate::incremental::{anchored, lemma_seq_pos, seq_pos, IncrementalMatcher, Progress};
use crate::ingest::{chunk_view, earliest, ingest_chunk, not_insert, noted, timed, Chunk, Ingested};
use crate::measure::{
    match_row, measure_fits, measure_views, reads_column, CompiledMeasure, MatchRows, MeasureView,
};
use crate::nfa::Nfa;
use crate::partitions::PartitionMap;
use crate::pattern::{Pattern, Var, Verdicts};
use crate::plan::{Op, PlanError};
use crate::refresh::{distinct, lemma_refreshed_rows, refreshed};
use crate::skip::{SkipMode, SkipView};
use crate::visit::{
    decided, lemma_safe_prefix, lemma_what_a_visit_gives, rows_view, safe_prefix, visit_partition,
    Pass, PassConfig, Visit, VisitView,
};
use vstd::prelude::*;

verus! {

/// What an executor is made from.
pub struct MatchRecognizeExecutorArgs {
    /// The input columns that the rows are partitioned by.
    pub partition_key_indices: Vec<usize>,
    /// The input columns that the rows are ordered by. The first one carries the watermark.
    pub order_key_indices: Vec<usize>,
    pub measures: Vec<CompiledMeasure>,
    pub defines: Vec<CompiledDefine>,
    /// The number of the expression that says whether a match is within its time bound, over the
    /// order keys of its last and its first row.
    pub within: Option<usize>,
    /// The number of the expression that gives the end of the time bound of a match, over the order
    /// key of its first row.
    pub within_deadline: Option<usize>,
    pub nfa: Nfa,
    pub skip: SkipMode,
    /// The number of input columns.
    pub input_arity: usize,
    /// Whether matches are told as a changelog that is corrected as rows arrive. If not, they are
    /// told once, when they are final.
    pub emit_on_update: bool,
}

/// The columns that are read are input columns.
pub open spec fn args_ok(a: MatchRecognizeExecutorArgs) -> bool {
    &&& a.order_key_indices@.len() > 0
    &&& a.order_key_indices@[0] < a.input_arity
    &&& forall|i: int|
        0 <= i < a.partition_key_indices@.len() ==> #[trigger] a.partition_key_indices@[i]
            < a.input_arity
    &&& forall|i: int|
        0 <= i < a.defines@.len() ==> define_fits((#[trigger] a.defines@[i])@, a.input_arity as int)
    &&& forall|i: int|
        0 <= i < a.measures@.len() ==> measure_fits(
            (#[trigger] a.measures@[i])@,
            a.input_arity as int,
        )
}

/// An executor: what it was made from, and what it keeps between messages. All of what it keeps can
/// be made again from the buffered rows.
pub struct MatchRecognizeExecutor {
    partition_key_indices: Vec<usize>,
    time_col: usize,
    measures: Vec<CompiledMeasure>,
    defines: Vec<CompiledDefine>,
    within: Option<usize>,
    within_deadline: Option<usize>,
    nfa: Nfa,
    skip: SkipMode,
    input_arity: usize,
    emit_on_update: bool,
    /// The matcher of each partition.
    matchers: PartitionMap<IncrementalMatcher>,
    /// What each partition told downstream last.
    last_emitted: PartitionMap<Vec<Emitted>>,
    /// The partitions that got rows since the last barrier.
    dirty_partitions: PartitionMap<()>,
    /// A lower bound of the wakeups of all partitions, if one is known.
    min_wakeup: Option<Datum>,
    /// The answers recorded so far.
    evals: Evaluations,
}

/// The rows of a partition as they are read from the buffer.
pub open spec fn partition_rows(rows: Seq<BufferView>, arity: int) -> bool {
    &&& rows.len() <= i64::MAX
    &&& distinct(seqs(rows))
    &&& forall|i: int|
        0 <= i < rows.len() ==> (#[trigger] rows[i]).row.len() == arity && rows[i].seq < i64::MAX
}

/// What a partition's matcher holds. One that is not there is one that no row was fed to.
pub open spec fn progress_of(matchers: Map<RowView, IncrementalMatcher>, key: RowView) -> Progress {
    if matchers.dom().contains(key) {
        matchers[key]@
    } else {
        Progress { fed: Seq::empty(), spans: Seq::empty(), frozen: 0, resume: 0 }
    }
}

/// The matchers are those of the pattern and the skip strategy.
pub open spec fn matchers_ok(
    matchers: Map<RowView, IncrementalMatcher>,
    pattern: Pattern,
    skip: SkipView,
) -> bool {
    forall|k: RowView| #[trigger]
        matchers.dom().contains(k) ==> matcher_ok(matchers[k], pattern, skip)
}

/// The matcher is one of the pattern and the skip strategy.
pub open spec fn matcher_ok(inc: IncrementalMatcher, pattern: Pattern, skip: SkipView) -> bool {
    &&& inc.wf()
    &&& distinct(inc@.fed)
    &&& inc.pattern() == pattern
    &&& inc.skip() == skip
}

/// What the executor was made from.
pub struct Config {
    pub partition_key_indices: Seq<usize>,
    pub time_col: int,
    pub measures: Seq<MeasureView>,
    pub defines: Seq<DefineView>,
    pub within: Option<usize>,
    pub within_deadline: Option<usize>,
    pub pattern: Pattern,
    pub skip: SkipView,
    pub arity: int,
    pub emit_on_update: bool,
}

/// What the executor keeps between messages.
pub struct Caches {
    pub matchers: Map<RowView, IncrementalMatcher>,
    pub last_emitted: Map<RowView, Vec<Emitted>>,
    pub dirty: Set<RowView>,
    pub min_wakeup: Option<DatumView>,
}

/// The result of visiting a partition at a watermark.
pub struct Visited {
    pub visit: Visit,
    /// The writes to the frontier tables.
    pub writes: Vec<TableWrite>,
}

impl MatchRecognizeExecutor {
    /// What the executor was made from.
    pub closed spec fn config(&self) -> Config {
        Config {
            partition_key_indices: self.partition_key_indices@,
            time_col: self.time_col as int,
            measures: measure_views(self.measures@),
            defines: define_views(self.defines@),
            within: self.within,
            within_deadline: self.within_deadline,
            pattern: self.nfa.pattern(),
            skip: self.skip@,
            arity: self.input_arity as int,
            emit_on_update: self.emit_on_update,
        }
    }

    /// What the executor keeps between messages.
    pub closed spec fn caches(&self) -> Caches {
        Caches {
            matchers: self.matchers@,
            last_emitted: self.last_emitted@,
            dirty: self.dirty_partitions@.dom(),
            min_wakeup: bound_view(self.min_wakeup),
        }
    }

    /// The answers recorded so far.
    pub closed spec fn evaluations(&self) -> Evaluations {
        self.evals
    }

    /// The invariant.
    pub open spec fn wf(&self) -> bool {
        let c = self.config();
        &&& 0 <= c.time_col < c.arity
        &&& forall|i: int|
            0 <= i < c.partition_key_indices.len() ==> #[trigger] c.partition_key_indices[i]
                < c.arity
        &&& forall|i: int| 0 <= i < c.defines.len() ==> define_fits(#[trigger] c.defines[i], c.arity)
        &&& forall|i: int|
            0 <= i < c.measures.len() ==> measure_fits(#[trigger] c.measures[i], c.arity)
        &&& matchers_ok(self.caches().matchers, c.pattern, c.skip)
    }

    /// The verdicts over all rows of a partition.
    pub open spec fn whole_verdicts(&self, rows: Seq<BufferView>) -> Verdicts {
        define_verdicts(
            whole_buffer(rows, self.config().defines, self.config().within),
            known(self.evaluations()),
        )
    }

    /// An executor that keeps nothing yet.
    pub fn new(args: MatchRecognizeExecutorArgs) -> (r: Self)
        requires
            args_ok(args),
        ensures
            r.wf(),
            r.config() == (Config {
                partition_key_indices: args.partition_key_indices@,
                time_col: args.order_key_indices@[0] as int,
                measures: measure_views(args.measures@),
                defines: define_views(args.defines@),
                within: args.within,
                within_deadline: args.within_deadline,
                pattern: args.nfa.pattern(),
                skip: args.skip@,
                arity: args.input_arity as int,
                emit_on_update: args.emit_on_update,
            }),
            r.caches().matchers == Map::<RowView, IncrementalMatcher>::empty(),
            r.caches().last_emitted == Map::<RowView, Vec<Emitted>>::empty(),
            r.caches().dirty == Set::<RowView>::empty(),
            r.caches().min_wakeup is None,
            forall|q: Request| r.evaluations().answer(q) is None,
    {
        let time_col: usize = args.order_key_indices[0];
        let r = MatchRecognizeExecutor {
            partition_key_indices: args.partition_key_indices,
            time_col,
            measures: args.measures,
            defines: args.defines,
            within: args.within,
            within_deadline: args.within_deadline,
            nfa: args.nfa,
            skip: args.skip,
            input_arity: args.input_arity,
            emit_on_update: args.emit_on_update,
            matchers: PartitionMap::new(),
            last_emitted: PartitionMap::new(),
            dirty_partitions: PartitionMap::new(),
            min_wakeup: None,
            evals: Evaluations::new(),
        };
        proof {
            assert(r.caches().dirty =~= Set::empty());
            assert forall|i: int| 0 <= i < r.config().defines.len() implies define_fits(
                #[trigger] r.config().defines[i],
                r.config().arity,
            ) by {
                assert(define_fits(args.defines@[i]@, args.input_arity as int));
            }
            assert forall|i: int| 0 <= i < r.config().measures.len() implies measure_fits(
                #[trigger] r.config().measures[i],
                r.config().arity,
            ) by {
                assert(measure_fits(args.measures@[i]@, args.input_arity as int));
            }
        }
        r
    }

    /// Record the answer to a request.
    pub fn record(&mut self, request: EvalRequest, answer: Datum)
        ensures
            final(self).config() == old(self).config(),
            final(self).caches() == old(self).caches(),
            forall|q: Request|
                #[trigger] final(self).evaluations().answer(q) == match old(
                    self).evaluations().answer(q) {
                    Some(d) => Some(d),
                    None => if request@ == q {
                        Some(datum_view(answer))
                    } else {
                        None
                    },
                },
    {
        self.evals.record(request, answer);
    }

    /// Forget all answers.
    pub fn forget_answers(&mut self)
        ensures
            final(self).config() == old(self).config(),
            final(self).caches() == old(self).caches(),
            forall|q: Request| final(self).evaluations().answer(q) is None,
    {
        self.evals = Evaluations::new();
    }

    /// Take in a chunk.
    pub fn take_chunk(&self, chunk: &Chunk) -> (r: Result<Ingested, PlanError>)
        requires
            self.wf(),
            forall|i: int|
                0 <= i < chunk@.len() ==> (#[trigger] chunk@[i]).1@.len() == self.config().arity,
        ensures
            match not_insert(chunk_view(chunk@), 0) {
                Some(op) => r == Err::<Ingested, PlanError>(PlanError::NotAppendOnly(op)),
                None => {
                    &&& r is Ok
                    &&& rows_view((r->Ok_0).kept@) == timed(
                        chunk_view(chunk@),
                        self.config().time_col,
                        chunk@.len() as int,
                    )
                    &&& forall|key: RowView|
                        noted((r->Ok_0).minima@, key) == #[trigger] earliest(
                            rows_view((r->Ok_0).kept@),
                            self.config().time_col,
                            self.config().partition_key_indices,
                            key,
                        )
                },
            },
    {
        proof {
            assert forall|i: int, j: int|
                0 <= i < chunk@.len() && 0 <= j
                    < self.partition_key_indices@.len() implies #[trigger]
            self.partition_key_indices@[j] < (#[trigger] chunk@[i]).1@.len() by {
                assert(self.config().partition_key_indices[j] < self.config().arity);
            }
        }
        ingest_chunk(chunk, self.time_col, &self.partition_key_indices)
    }

    /// Schedule a partition that got rows, the earliest of them at `new_min`. `meta` is its row in
    /// the meta table. Where matches are told as a changelog the partition is dirty.
    pub fn schedule_insert(
        &mut self,
        partition_key: Vec<Datum>,
        new_min: &Scalar,
        meta: &Option<Vec<Datum>>,
    ) -> (r: Vec<TableWrite>)
        requires
            old(self).wf(),
            *meta matches Some(row) ==> exists|ow: ScalarView|
                row_view(row@) == #[trigger] meta_row(row_view(partition_key@), ow),
        ensures
            final(self).wf(),
            final(self).config() == old(self).config(),
            final(self).evaluations() == old(self).evaluations(),
            final(self).caches() == (Caches {
                dirty: if old(self).config().emit_on_update {
                    old(self).caches().dirty.insert(row_view(partition_key@))
                } else {
                    old(self).caches().dirty
                },
                min_wakeup: match old(self).caches().min_wakeup {
                    Some(m) => Some(lower(m, new_min@)),
                    None => None,
                },
                ..old(self).caches()
            }),
            write_views(r@) == insert_writes(
                wakeup_in(*meta),
                row_view(partition_key@),
                new_min@,
            ),
    {
        if let Some(acc) = &mut self.min_wakeup {
            fold_min(acc, new_min);
        }
        let writes = update_frontier_on_insert(meta, &partition_key, new_min);
        if self.emit_on_update {
            let ghost kv = row_view(partition_key@);
            let ghost before = self.dirty_partitions@;
            self.dirty_partitions.insert(partition_key, ());
            assert(self.dirty_partitions@.dom() =~= before.dom().insert(kv));
        }
        writes
    }

    /// Whether no partition is due at watermark `w`.
    pub fn nothing_due(&self, w: &Scalar) -> (r: bool)
        ensures
            r == idle(self.caches().min_wakeup, w@),
    {
        is_idle(&self.min_wakeup, w)
    }

    /// Note the lower bound of the wakeups that a scan of all of them found.
    pub fn set_min_wakeup(&mut self, next_min: Datum)
        requires
            old(self).wf(),
        ensures
            final(self).wf(),
            final(self).config() == old(self).config(),
            final(self).evaluations() == old(self).evaluations(),
            final(self).caches() == (Caches {
                min_wakeup: Some(datum_view(next_min)),
                ..old(self).caches()
            }),
    {
        self.min_wakeup = Some(next_min);
    }

    /// Whether the partition got rows since the last barrier.
    pub fn is_dirty(&self, key: &Vec<Datum>) -> (r: bool)
        ensures
            r == self.caches().dirty.contains(row_view(key@)),
    {
        self.dirty_partitions.contains(key)
    }

    /// Take one of the partitions that got rows since the last barrier.
    pub fn pop_dirty(&mut self) -> (r: Option<Vec<Datum>>)
        requires
            old(self).wf(),
        ensures
            final(self).wf(),
            final(self).config() == old(self).config(),
            final(self).evaluations() == old(self).evaluations(),
            match r {
                Some(key) => old(self).caches().dirty.contains(row_view(key@))
                    && final(self).caches() == (Caches {
                    dirty: old(self).caches().dirty.remove(row_view(key@)),
                    ..old(self).caches()
                }),
                None => old(self).caches().dirty == Set::<RowView>::empty()
                    && final(self).caches() == old(self).caches(),
            },
    {
        let ghost before = self.dirty_partitions@;
        match self.dirty_partitions.pop() {
            Some((key, ())) => {
                assert(self.dirty_partitions@.dom() =~= before.dom().remove(row_view(key@)));
                Some(key)
            },
            None => {
                assert(before.dom() =~= Set::empty());
                None
            },
        }
    }

    /// The partitions that this executor owns changed: everything that it keeps is void.
    pub fn forget_partitions(&mut self)
        requires
            old(self).wf(),
        ensures
            final(self).wf(),
            final(self).config() == old(self).config(),
            final(self).evaluations() == old(self).evaluations(),
            final(self).caches().matchers == Map::<RowView, IncrementalMatcher>::empty(),
            final(self).caches().last_emitted == Map::<RowView, Vec<Emitted>>::empty(),
            final(self).caches().dirty == Set::<RowView>::empty(),
            final(self).caches().min_wakeup is None,
    {
        self.min_wakeup = None;
        self.matchers.clear();
        self.last_emitted.clear();
        self.dirty_partitions.clear();
        assert(self.dirty_partitions@.dom() =~= Set::empty());
    }

    /// Take a partition's matcher, or a new one where there is none.
    fn take_matcher(&mut self, key: &Vec<Datum>) -> (r: IncrementalMatcher)
        requires
            old(self).wf(),
        ensures
            final(self).wf(),
            final(self).config() == old(self).config(),
            final(self).evaluations() == old(self).evaluations(),
            final(self).caches() == (Caches {
                matchers: old(self).caches().matchers.remove(row_view(key@)),
                ..old(self).caches()
            }),
            matcher_ok(r, old(self).config().pattern, old(self).config().skip),
            r@ == progress_of(old(self).caches().matchers, row_view(key@)),
    {
        let ghost before = self.matchers@;
        match self.matchers.remove(key) {
            Some(inc) => {
                assert(before.dom().contains(row_view(key@)));
                inc
            },
            None => IncrementalMatcher::new(&self.nfa, self.skip.clone()),
        }
    }

    /// Put a partition's matcher back.
    fn put_matcher(&mut self, key: &Vec<Datum>, inc: IncrementalMatcher)
        requires
            old(self).wf(),
            matcher_ok(inc, old(self).config().pattern, old(self).config().skip),
        ensures
            final(self).wf(),
            final(self).config() == old(self).config(),
            final(self).evaluations() == old(self).evaluations(),
            final(self).caches() == (Caches {
                matchers: old(self).caches().matchers.insert(row_view(key@), inc),
                ..old(self).caches()
            }),
    {
        self.matchers.insert(row_clone(key), inc);
    }

    /// The matcher of the partition holds `g`, and the other matchers are as they were.
    pub open spec fn matcher_is(&self, before: &Self, key: RowView, g: Progress) -> bool {
        &&& self.caches().matchers.remove(key) == before.caches().matchers.remove(key)
        &&& progress_of(self.caches().matchers, key) == g
    }

    /// The changes of a partition's matches over all of its rows since it told them downstream
    /// last. A partition without rows is forgotten: its matches are final, and nothing is told of
    /// them.
    pub fn diff_partition(&mut self, key: &Vec<Datum>, rows: &Vec<BufferedRow>) -> (r: Result<
        Vec<(Op, Vec<Datum>)>,
        EvalRequest,
    >)
        requires
            old(self).wf(),
            partition_rows(buffer_view(rows@), old(self).config().arity),
        ensures
            final(self).wf(),
            final(self).config() == old(self).config(),
            final(self).evaluations() == old(self).evaluations(),
            final(self).caches().dirty == old(self).caches().dirty,
            final(self).caches().min_wakeup == old(self).caches().min_wakeup,
            rows@.len() == 0 ==> {
                &&& r is Ok && r->Ok_0@.len() == 0
                &&& final(self).caches().matchers == old(self).caches().matchers.remove(
                    row_view(key@),
                )
                &&& final(self).caches().last_emitted == old(self).caches().last_emitted.remove(
                    row_view(key@),
                )
            },
            rows@.len() > 0 ==> final(self).diffed(
                old(self),
                row_view(key@),
                buffer_view(rows@),
                diff_result(r),
            ),
    {
        let ghost kv = row_view(key@);
        if rows.len() == 0 {
            let _ = self.matchers.remove(key);
            let _ = self.last_emitted.remove(key);
            return Ok(Vec::new());
        }
        let ghost start = *self;
        proof {
            lemma_rows_ok(&start, buffer_view(rows@));
        }
        let mut inc = self.take_matcher(key);
        let ghost inc0 = inc;
        let r = emit_partition_diff(
            &mut inc,
            &mut self.last_emitted,
            key,
            rows,
            &self.defines,
            self.within,
            &self.measures,
            &self.evals,
        );
        proof {
            lemma_refreshed_rows(
                inc0@,
                start.config().pattern,
                start.whole_verdicts(buffer_view(rows@)),
                start.config().skip,
                seqs(buffer_view(rows@)),
            );
        }
        self.put_matcher(key, inc);
        proof {
            assert(self.caches().matchers.remove(kv) =~= start.caches().matchers.remove(kv));
        }
        r
    }

    /// What [`Self::diff_partition`] does to a partition that has rows.
    pub open spec fn diffed(
        &self,
        before: &Self,
        key: RowView,
        rows: Seq<BufferView>,
        r: Result<Seq<(Op, RowView)>, Request>,
    ) -> bool {
        let prev = base(before.caches().last_emitted, key);
        &&& self.caches().last_emitted.remove(key) == before.caches().last_emitted.remove(key)
        &&& match refreshed(
            progress_of(before.caches().matchers, key),
            before.config().pattern,
            before.whole_verdicts(rows),
            before.config().skip,
            seqs(rows),
        ) {
            Err(q) => {
                &&& r == Err::<Seq<(Op, RowView)>, Request>(q)
                &&& self.matcher_is(before, key, progress_of(before.caches().matchers, key))
                &&& self.caches().last_emitted == before.caches().last_emitted
            },
            Ok(g) => {
                &&& self.matcher_is(before, key, g)
                &&& match planned(
                    prev,
                    rows,
                    before.config().measures,
                    key,
                    known(before.evaluations()),
                    g.spans,
                    0,
                ) {
                    Err(q) => {
                        &&& r == Err::<Seq<(Op, RowView)>, Request>(q)
                        &&& self.caches().last_emitted == before.caches().last_emitted
                    },
                    Ok(new) => {
                        &&& r is Ok
                        &&& told(self.caches().last_emitted, key, new)
                        &&& exists|ids: Seq<i64>|
                            #[trigger] identities(ids, prev, new) && r->Ok_0 == changes(
                                ids,
                                prev,
                                new,
                                0,
                            )
                    },
                }
            },
        }
    }

    /// Tell what a partition that is due has not told yet, before rows of it are evicted: a match
    /// whose rows arrived since the last barrier would be lost otherwise. Nothing is to be told
    /// where matches are told when they are final, or where the partition got no rows.
    pub fn emit_before_finalize(&mut self, key: &Vec<Datum>, rows: &Vec<BufferedRow>) -> (r: Result<
        Vec<(Op, Vec<Datum>)>,
        EvalRequest,
    >)
        requires
            old(self).wf(),
            rows@.len() > 0,
            partition_rows(buffer_view(rows@), old(self).config().arity),
        ensures
            final(self).wf(),
            final(self).config() == old(self).config(),
            final(self).evaluations() == old(self).evaluations(),
            final(self).caches().min_wakeup == old(self).caches().min_wakeup,
            old(self).config().emit_on_update && old(self).caches().dirty.contains(
                row_view(key@),
            ) ==> {
                &&& final(self).diffed(
                    old(self),
                    row_view(key@),
                    buffer_view(rows@),
                    diff_result(r),
                )
                &&& final(self).caches().dirty == if r is Ok {
                    old(self).caches().dirty.remove(row_view(key@))
                } else {
                    old(self).caches().dirty
                }
            },
            !(old(self).config().emit_on_update && old(self).caches().dirty.contains(
                row_view(key@),
            )) ==> r is Ok && r->Ok_0@.len() == 0 && final(self).caches() == old(self).caches(),
            r is Ok && old(self).config().emit_on_update ==> !final(self).caches().dirty.contains(
                row_view(key@),
            ),
    {
        if !self.emit_on_update || !self.is_dirty(key) {
            return Ok(Vec::new());
        }
        let r = self.diff_partition(key, rows);
        if let Ok(_) = &r {
            let ghost before = self.dirty_partitions@;
            let _ = self.dirty_partitions.remove(key);
            assert(self.dirty_partitions@.dom() =~= before.dom().remove(row_view(key@)));
        }
        r
    }

    /// Seed what a partition told downstream last, after a restart or when the partitions that this
    /// executor owns changed. Nothing is told: what was told before is what is found again.
    pub fn seed_partition(&mut self, key: &Vec<Datum>, rows: &Vec<BufferedRow>) -> (r: Result<
        (),
        EvalRequest,
    >)
        requires
            old(self).wf(),
            partition_rows(buffer_view(rows@), old(self).config().arity),
        ensures
            final(self).wf(),
            final(self).config() == old(self).config(),
            final(self).evaluations() == old(self).evaluations(),
            final(self).caches().dirty == old(self).caches().dirty,
            final(self).caches().min_wakeup == old(self).caches().min_wakeup,
            final(self).seeded(old(self), row_view(key@), buffer_view(rows@), seed_result(r)),
    {
        let ghost kv = row_view(key@);
        let ghost start = *self;
        proof {
            lemma_rows_ok(&start, buffer_view(rows@));
        }
        let mut inc = self.take_matcher(key);
        let ghost inc0 = inc;
        let r = compute_partition_emitted(
            &mut inc,
            key,
            rows,
            &self.defines,
            self.within,
            &self.measures,
            &self.evals,
        );
        proof {
            lemma_refreshed_rows(
                inc0@,
                start.config().pattern,
                start.whole_verdicts(buffer_view(rows@)),
                start.config().skip,
                seqs(buffer_view(rows@)),
            );
        }
        self.put_matcher(key, inc);
        proof {
            assert(self.caches().matchers.remove(kv) =~= start.caches().matchers.remove(kv));
        }
        match r {
            Err(q) => Err(q),
            Ok(new_emitted) => {
                if new_emitted.len() > 0 {
                    let ghost value = new_emitted;
                    self.last_emitted.insert(row_clone(key), new_emitted);
                    proof {
                        assert(self.caches().last_emitted == start.caches().last_emitted.insert(
                            kv,
                            value,
                        ));
                        assert(self.caches().last_emitted.remove(kv)
                            =~= start.caches().last_emitted.remove(kv));
                    }
                }
                Ok(())
            },
        }
    }

    /// What [`Self::seed_partition`] does.
    pub open spec fn seeded(
        &self,
        before: &Self,
        key: RowView,
        rows: Seq<BufferView>,
        r: Result<(), Request>,
    ) -> bool {
        match refreshed(
            progress_of(before.caches().matchers, key),
            before.config().pattern,
            before.whole_verdicts(rows),
            before.config().skip,
            seqs(rows),
        ) {
            Err(q) => {
                &&& r == Err::<(), Request>(q)
                &&& self.matcher_is(before, key, progress_of(before.caches().matchers, key))
                &&& self.caches().last_emitted == before.caches().last_emitted
            },
            Ok(g) => {
                &&& self.matcher_is(before, key, g)
                &&& match built(
                    rows,
                    before.config().measures,
                    key,
                    known(before.evaluations()),
                    g.spans,
                ) {
                    Err(q) => {
                        &&& r == Err::<(), Request>(q)
                        &&& self.caches().last_emitted == before.caches().last_emitted
                    },
                    Ok(new) => {
                        &&& r is Ok
                        &&& self.caches().last_emitted.remove(key)
                            == before.caches().last_emitted.remove(key)
                        &&& new.len() > 0 ==> told(self.caches().last_emitted, key, new)
                        &&& new.len() == 0 ==> self.caches().last_emitted
                            == before.caches().last_emitted
                    },
                }
            },
        }
    }

    /// Forget a partition that is due and has no rows.
    pub fn drop_empty_partition(&mut self, key: &Vec<Datum>, old_wakeup: &Scalar) -> (r: Vec<
        TableWrite,
    >)
        requires
            old(self).wf(),
        ensures
            final(self).wf(),
            final(self).config() == old(self).config(),
            final(self).evaluations() == old(self).evaluations(),
            final(self).caches() == (Caches {
                matchers: old(self).caches().matchers.remove(row_view(key@)),
                ..old(self).caches()
            }),
            write_views(r@) == remove_writes(row_view(key@), old_wakeup@),
    {
        let _ = self.matchers.remove(key);
        remove_frontier(key, old_wakeup)
    }

    /// The pass over a partition's rows at watermark `w`.
    pub open spec fn pass(&self, rows: Seq<BufferView>, w: ScalarView) -> Pass {
        Pass {
            matching: Matching {
                rows,
                safe_len: safe_prefix(rows, w, 0),
                defines: self.config().defines,
                within: self.config().within,
            },
            answers: known(self.evaluations()),
            pattern: self.config().pattern,
            skip: self.config().skip,
            w,
            deadline: self.config().within_deadline,
        }
    }

    /// Visit a partition that is due at watermark `w`: which matches are final, which rows are
    /// evicted, and when it needs attention next. The caches are kept in line with the rows that
    /// are left, and the next wakeup is folded into `next_min`.
    pub fn visit(
        &mut self,
        key: &Vec<Datum>,
        old_wakeup: &Scalar,
        rows: &Vec<BufferedRow>,
        w: &Scalar,
        next_min: &mut Datum,
    ) -> (r: Result<Visited, EvalRequest>)
        requires
            old(self).wf(),
            partition_rows(buffer_view(rows@), old(self).config().arity),
        ensures
            final(self).wf(),
            final(self).config() == old(self).config(),
            final(self).evaluations() == old(self).evaluations(),
            final(self).caches().dirty == old(self).caches().dirty,
            final(self).caches().min_wakeup == old(self).caches().min_wakeup,
            final(self).visited(
                old(self),
                row_view(key@),
                old_wakeup@,
                buffer_view(rows@),
                w@,
                datum_view(*old(next_min)),
                datum_view(*final(next_min)),
                visit_result(r),
            ),
    {
        let ghost kv = row_view(key@);
        let ghost bv = buffer_view(rows@);
        let ghost start = *self;
        proof {
            lemma_rows_ok(&start, bv);
            lemma_safe_prefix(bv, w@, 0);
        }
        let tell: bool = !self.emit_on_update;
        let mut inc = self.take_matcher(key);
        let ghost inc0 = inc;
        let ghost c = start.pass(bv, w@);
        let ghost g = refreshed(
            inc0@,
            c.pattern,
            c.verdicts(),
            c.skip,
            seqs(bv).take(c.matching.safe_len),
        );
        proof {
            lemma_refreshed_rows(
                inc0@,
                c.pattern,
                c.verdicts(),
                c.skip,
                seqs(bv).take(c.matching.safe_len),
            );
            lemma_distinct_take(seqs(bv), c.matching.safe_len);
        }
        let config = PassConfig {
            nfa: &self.nfa,
            skip: &self.skip,
            defines: &self.defines,
            within: self.within,
            within_deadline: self.within_deadline,
            evals: &self.evals,
        };
        let r = visit_partition(&config, &mut inc, key, rows, w, &self.measures, tell);
        let visit = match r {
            Ok(visit) => visit,
            Err(q) => {
                self.put_matcher(key, inc);
                assert(self.caches().matchers.remove(kv) =~= start.caches().matchers.remove(kv));
                return Err(q);
            },
        };
        let retain_from: usize = visit.retain_from;
        let ghost inc1 = inc;
        let keep: bool = evict_from_matcher(&mut inc, rows, retain_from);
        if keep {
            proof {
                lemma_evicted_distinct(inc1@, c.skip, seqs(bv), retain_from as int);
            }
            self.put_matcher(key, inc);
        }
        proof {
            assert(self.caches().matchers.remove(kv) =~= start.caches().matchers.remove(kv));
        }
        if self.emit_on_update && retain_from > 0 {
            self.prune(key, rows, retain_from);
        }
        let writes = match &visit.next_wakeup {
            Some(nw) => {
                fold_min(next_min, nw);
                move_frontier(key, old_wakeup, nw)
            },
            None => remove_frontier(key, old_wakeup),
        };
        Ok(Visited { visit, writes })
    }

    /// Drop the matches whose first row is evicted from what a partition told downstream last.
    fn prune(&mut self, key: &Vec<Datum>, rows: &Vec<BufferedRow>, retain_from: usize)
        requires
            old(self).wf(),
            retain_from <= rows@.len(),
        ensures
            final(self).wf(),
            final(self).config() == old(self).config(),
            final(self).evaluations() == old(self).evaluations(),
            final(self).caches() == (Caches {
                last_emitted: final(self).caches().last_emitted,
                ..old(self).caches()
            }),
            pruned(
                old(self).caches().last_emitted,
                final(self).caches().last_emitted,
                row_view(key@),
                seqs(buffer_view(rows@)).skip(retain_from as int),
            ),
    {
        let ghost kv = row_view(key@);
        let ghost start = self.last_emitted@;
        let ghost left = seqs(buffer_view(rows@)).skip(retain_from as int);
        if let Some(prev) = self.last_emitted.get(key) {
            let kept = prune_emitted(prev, rows, retain_from);
            if kept.len() == 0 {
                let _ = self.last_emitted.remove(key);
                assert(emitted_view(kept@) =~= Seq::empty());
            } else {
                self.last_emitted.insert(row_clone(key), kept);
            }
        }
        proof {
            assert(self.last_emitted@.remove(kv) =~= start.remove(kv));
        }
    }

    /// What [`Self::visit`] does.
    pub open spec fn visited(
        &self,
        before: &Self,
        key: RowView,
        old_wakeup: ScalarView,
        rows: Seq<BufferView>,
        w: ScalarView,
        min_before: DatumView,
        min_after: DatumView,
        r: Result<(VisitView, Seq<WriteView>), Request>,
    ) -> bool {
        let c = before.pass(rows, w);
        let prog = progress_of(before.caches().matchers, key);
        match refreshed(
            prog,
            c.pattern,
            c.verdicts(),
            c.skip,
            seqs(rows).take(c.matching.safe_len),
        ) {
            Err(q) => {
                &&& r == Err::<(VisitView, Seq<WriteView>), Request>(q)
                &&& self.matcher_is(before, key, prog)
                &&& self.caches().last_emitted == before.caches().last_emitted
                &&& min_after == min_before
            },
            Ok(g) => match decided(
                c,
                g.spans,
                before.config().measures,
                key,
                !before.config().emit_on_update,
            ) {
                Err(q) => {
                    &&& r == Err::<(VisitView, Seq<WriteView>), Request>(q)
                    &&& self.matcher_is(before, key, prog)
                    &&& self.caches().last_emitted == before.caches().last_emitted
                    &&& min_after == min_before
                },
                Ok(d) => {
                    &&& r is Ok
                    &&& (r->Ok_0).0 == d
                    &&& match evicted(g, c.skip, seqs(rows), d.retain_from) {
                        Some(n) => self.matcher_is(before, key, n),
                        None => self.caches().matchers == before.caches().matchers.remove(key),
                    }
                    &&& if before.config().emit_on_update && d.retain_from > 0 {
                        pruned(
                            before.caches().last_emitted,
                            self.caches().last_emitted,
                            key,
                            seqs(rows).skip(d.retain_from),
                        )
                    } else {
                        self.caches().last_emitted == before.caches().last_emitted
                    }
                    &&& match d.next_wakeup {
                        Some(nw) => (r->Ok_0).1 == move_writes(key, old_wakeup, nw) && min_after
                            == lower(min_before, nw),
                        None => (r->Ok_0).1 == remove_writes(key, old_wakeup) && min_after
                            == min_before,
                    }
                },
            },
        }
    }
}

/// What a partition told downstream last, without the matches whose first row is not in `left`.
pub open spec fn pruned(
    before: Map<RowView, Vec<Emitted>>,
    after: Map<RowView, Vec<Emitted>>,
    key: RowView,
    left: Seq<i64>,
) -> bool {
    &&& after.remove(key) == before.remove(key)
    &&& base(after, key) == surviving(base(before, key), left, base(before, key).len() as int)
    &&& after.dom().contains(key) ==> base(after, key).len() > 0
}

/// The model of a list of changes or a request.
pub open spec fn diff_result(r: Result<Vec<(Op, Vec<Datum>)>, EvalRequest>) -> Result<
    Seq<(Op, RowView)>,
    Request,
> {
    match r {
        Ok(l) => Ok(ops_view(l@)),
        Err(q) => Err(q@),
    }
}

/// The model of a seeding or a request.
pub open spec fn seed_result(r: Result<(), EvalRequest>) -> Result<(), Request> {
    match r {
        Ok(()) => Ok(()),
        Err(q) => Err(q@),
    }
}

/// The model of a visit or a request.
pub open spec fn visit_result(r: Result<Visited, EvalRequest>) -> Result<
    (VisitView, Seq<WriteView>),
    Request,
> {
    match r {
        Ok(v) => Ok((v.visit@, write_views(v.writes@))),
        Err(q) => Err(q@),
    }
}

proof fn lemma_rows_ok(x: &MatchRecognizeExecutor, rows: Seq<BufferView>)
    requires
        x.wf(),
        partition_rows(rows, x.config().arity),
    ensures
        rows_ok(rows, x.config().defines, x.config().measures),
{
    let c = x.config();
    assert forall|i: int, d: int, s: int|
        0 <= i < rows.len() && 0 <= d < c.defines.len() && 0 <= s < c.defines[d].slots.len() implies (
    #[trigger] c.defines[d].slots[s]).col_idx < (#[trigger] rows[i]).row.len() by {
        assert(define_fits(c.defines[d], c.arity));
    }
    assert forall|i: int, d: int, s: int|
        0 <= i < rows.len() && 0 <= d < c.measures.len() && 0 <= s
            < c.measures[d].slots.len() && reads_column(
            (#[trigger] c.measures[d].slots[s]).kind,
        ) implies c.measures[d].slots[s].col_idx < (#[trigger] rows[i]).row.len() by {
        assert(measure_fits(c.measures[d], c.arity));
    }
}

proof fn lemma_distinct_take(s: Seq<i64>, n: int)
    requires
        distinct(s),
        0 <= n <= s.len(),
    ensures
        distinct(s.take(n)),
{
    let t = s.take(n);
    assert forall|i: int, j: int| 0 <= i < j < t.len() implies #[trigger] t[i] != #[trigger] t[j] by {
        assert(s[i] != s[j]);
    }
}

proof fn lemma_evicted_distinct(g: Progress, skip: SkipView, rows: Seq<i64>, retain_from: int)
    requires
        distinct(g.fed),
        evicted(g, skip, rows, retain_from) is Some,
        g.ok(),
    ensures
        distinct(evicted(g, skip, rows, retain_from)->Some_0.fed),
{
    let n = evicted(g, skip, rows, retain_from)->Some_0;
    if retain_from != 0 {
        let b = seq_pos(g.fed, rows[retain_from], 0)->Some_0;
        lemma_seq_pos(g.fed, rows[retain_from], 0);
        assert forall|i: int, j: int| 0 <= i < j < n.fed.len() implies #[trigger] n.fed[i]
            != #[trigger] n.fed[j] by {
            assert(g.fed[i + b] != g.fed[j + b]);
        }
    }
}

/// A visit looks at the rows whose order keys come before the watermark, and gives an output row for each
/// match that is final there where matches are told only then. It takes the running minimum of the
/// wakeups on to the wakeup that it schedules: the new minimum is one of the two, and neither comes
/// before it. It stays as it was where none is scheduled.
pub proof fn lemma_visit_folds_wakeup(
    before_visit: &MatchRecognizeExecutor,
    after: &MatchRecognizeExecutor,
    key: RowView,
    old_wakeup: ScalarView,
    rows: Seq<BufferView>,
    w: ScalarView,
    min_before: DatumView,
    min_after: DatumView,
    r: Result<(VisitView, Seq<WriteView>), Request>,
    j: int,
)
    requires
        after.visited(before_visit, key, old_wakeup, rows, w, min_before, min_after, r),
        0 <= j < rows.len(),
    ensures
        ({
            let safe = before_visit.pass(rows, w).matching.safe_len;
            let early = rows[j].order_key matches Some(k) && before(k, w);
            &&& j < safe ==> early
            &&& j == safe ==> !early
            &&& before_visit.pass(rows, w).matching.rows == rows
            &&& before_visit.pass(rows, w).w == w
        }),
        r is Ok && before_visit.config().emit_on_update ==> (r->Ok_0).0.out_rows.len() == 0,
        r is Ok && !before_visit.config().emit_on_update ==> (r->Ok_0).0.out_rows.len()
            == (r->Ok_0).0.finals.len(),
        r is Err ==> min_after == min_before,
        r is Ok && (r->Ok_0).0.next_wakeup is None ==> min_after == min_before,
        r is Ok ==> ((r->Ok_0).0.next_wakeup matches Some(n) ==> {
            &&& min_after matches Some(m) && (m == n || min_before == Some(m)) && !before(n, m)
            &&& min_before matches Some(b) ==> !before(b, min_after->Some_0)
        }),
{
    lemma_safe_prefix(rows, w, 0);
    if r is Ok {
        let c = before_visit.pass(rows, w);
        let g = refreshed(
            progress_of(before_visit.caches().matchers, key),
            c.pattern,
            c.verdicts(),
            c.skip,
            seqs(rows).take(c.matching.safe_len),
        )->Ok_0;
        lemma_what_a_visit_gives(
            c,
            g.spans,
            before_visit.config().measures,
            key,
            !before_visit.config().emit_on_update,
            0,
        );
        if let Some(n) = (r->Ok_0).0.next_wakeup {
            lemma_lower(min_before, n);
        }
    }
}

/// What an operator matches its rows against: the predicates, the bound on the length of a match, the
/// pattern and the skip strategy that it was made from, over the answers recorded so far. At a watermark
/// it is the rows before it, with the time bound that it was made from; where matches are told before
/// they are final it is all rows.
pub proof fn lemma_what_is_matched(
    x: &MatchRecognizeExecutor,
    rows: Seq<BufferView>,
    w: ScalarView,
    q: Request,
    var: Var,
    pos: int,
    labels: Seq<Var>,
)
    ensures
        ({
            let c = x.pass(rows, w);
            &&& c.matching.rows == rows
            &&& c.matching.defines == x.config().defines
            &&& c.matching.within == x.config().within
            &&& (c.answers)(q) == x.evaluations().answer(q)
            &&& c.pattern == x.config().pattern
            &&& c.skip == x.config().skip
            &&& c.w == w
            &&& c.deadline == x.config().within_deadline
            &&& c.verdicts()(var, pos, labels) == define_verdict(
                c.matching,
                known(x.evaluations()),
                var,
                pos,
                labels,
            )
        }),
        x.whole_verdicts(rows)(var, pos, labels) == define_verdict(
            Matching {
                rows,
                safe_len: rows.len() as int,
                defines: x.config().defines,
                within: x.config().within,
            },
            known(x.evaluations()),
            var,
            pos,
            labels,
        ),
{
}

/// What a diff leaves. The matcher of the partition has been fed the rows, and what the partition told
/// downstream last are the matches that it holds then, in their order; what is told is how these differ
/// from what was told before. Other partitions are left alone. A diff that stops tells nothing, and
/// leaves what was told as it was.
pub proof fn lemma_what_a_diff_leaves(
    before_diff: &MatchRecognizeExecutor,
    after: &MatchRecognizeExecutor,
    key: RowView,
    rows: Seq<BufferView>,
    r: Result<Seq<(Op, RowView)>, Request>,
    other: RowView,
    j: int,
)
    requires
        after.diffed(before_diff, key, rows, r),
        other != key,
    ensures
        ({
            let prev = base(before_diff.caches().last_emitted, key);
            let new = base(after.caches().last_emitted, key);
            let found = progress_of(after.caches().matchers, key).spans;
            &&& r is Ok ==> {
                &&& refreshed(
                    progress_of(before_diff.caches().matchers, key),
                    before_diff.config().pattern,
                    before_diff.whole_verdicts(rows),
                    before_diff.config().skip,
                    seqs(rows),
                ) == Ok::<Progress, Request>(progress_of(after.caches().matchers, key))
                &&& new.len() == found.len()
                &&& 0 <= j < found.len() ==> new[j].0 == anchored(seqs(rows), found[j])
                &&& exists|ids: Seq<i64>|
                    #[trigger] identities(ids, prev, new) && r->Ok_0 == changes(ids, prev, new, 0)
            }
            &&& r is Err ==> new == prev
            &&& base(after.caches().last_emitted, other) == base(
                before_diff.caches().last_emitted,
                other,
            )
            &&& progress_of(after.caches().matchers, other) == progress_of(
                before_diff.caches().matchers,
                other,
            )
        }),
{
    lemma_others_alone(before_diff.caches().last_emitted, after.caches().last_emitted, key, other);
    lemma_others_alone(before_diff.caches().matchers, after.caches().matchers, key, other);
    if r is Ok {
        let g = progress_of(after.caches().matchers, key);
        lemma_planned_entries(
            base(before_diff.caches().last_emitted, key),
            rows,
            before_diff.config().measures,
            key,
            known(before_diff.evaluations()),
            g.spans,
            0,
            base(after.caches().last_emitted, key),
        );
    }
}

/// What a seeding leaves. The matcher of the partition has been fed the rows, and where it holds matches
/// then, what the partition told downstream last are these, in their order, each with the output row
/// that is made for it. Other partitions are left alone.
pub proof fn lemma_what_a_seed_leaves(
    before_seed: &MatchRecognizeExecutor,
    after: &MatchRecognizeExecutor,
    key: RowView,
    rows: Seq<BufferView>,
    r: Result<(), Request>,
    other: RowView,
    j: int,
)
    requires
        after.seeded(before_seed, key, rows, r),
        other != key,
    ensures
        ({
            let new = base(after.caches().last_emitted, key);
            let found = progress_of(after.caches().matchers, key).spans;
            &&& r is Ok ==> {
                &&& refreshed(
                    progress_of(before_seed.caches().matchers, key),
                    before_seed.config().pattern,
                    before_seed.whole_verdicts(rows),
                    before_seed.config().skip,
                    seqs(rows),
                ) == Ok::<Progress, Request>(progress_of(after.caches().matchers, key))
                &&& found.len() > 0 ==> new.len() == found.len()
                &&& found.len() == 0 ==> new == base(before_seed.caches().last_emitted, key)
                &&& 0 <= j < found.len() ==> {
                    &&& new[j].0 == anchored(seqs(rows), found[j])
                    &&& match_row(
                        MatchRows { rows, start: found[j].start, labels: found[j].labels },
                        before_seed.config().measures,
                        key,
                        known(before_seed.evaluations()),
                    ) == Ok::<RowView, Request>(new[j].1)
                }
            }
            &&& r is Err ==> new == base(before_seed.caches().last_emitted, key)
            &&& base(after.caches().last_emitted, other) == base(
                before_seed.caches().last_emitted,
                other,
            )
            &&& progress_of(after.caches().matchers, other) == progress_of(
                before_seed.caches().matchers,
                other,
            )
        }),
{
    if after.caches().last_emitted == before_seed.caches().last_emitted {
        assert(base(after.caches().last_emitted, other) == base(
            before_seed.caches().last_emitted,
            other,
        ));
    } else {
        lemma_others_alone(
            before_seed.caches().last_emitted,
            after.caches().last_emitted,
            key,
            other,
        );
    }
    lemma_others_alone(before_seed.caches().matchers, after.caches().matchers, key, other);
    if r is Ok {
        let g = progress_of(after.caches().matchers, key);
        let made = built(
            rows,
            before_seed.config().measures,
            key,
            known(before_seed.evaluations()),
            g.spans,
        )->Ok_0;
        lemma_built_entries(
            rows,
            before_seed.config().measures,
            key,
            known(before_seed.evaluations()),
            g.spans,
            0,
            made,
        );
        if 0 <= j < g.spans.len() {
            assert(made[j] == base(after.caches().last_emitted, key)[j]);
        }
    }
}

/// Where two maps are the same but for one key they are the same at each other key.
proof fn lemma_others_alone<T>(a: Map<RowView, T>, b: Map<RowView, T>, key: RowView, other: RowView)
    requires
        b.remove(key) == a.remove(key),
        other != key,
    ensures
        a.dom().contains(other) <==> b.dom().contains(other),
        a.dom().contains(other) ==> a[other] == b[other],
{
    assert(a.remove(key).dom().contains(other) <==> a.dom().contains(other));
    assert(b.remove(key).dom().contains(other) <==> b.dom().contains(other));
    if a.dom().contains(other) {
        assert(a.remove(key)[other] == a[other]);
        assert(b.remove(key)[other] == b[other]);
    }
}

} // verus!
