//! What a partition's matches are downstream.

use crate::buffer::{buffer_view, seqs, BufferView, BufferedRow};
use crate::changelog::{
    changes, diff_provisional, emitted_view, identities, lemma_place, ops_view,
    plan_provisional_rows, reusable, row_id, rows_identified, Emitted, EmittedView,
};
use crate::datum::{row_clone, row_view, Datum, RowView, ScalarView};
use crate::define::{
    define_verdicts, define_views, known, more_answers, slots_fit, Answers, CompiledDefine,
    DefineMatcher, DefineView, Matching,
};
use crate::eval::{EvalRequest, Evaluations, Request};
use crate::incremental::{anchored, anchored_all, seq_spans, within_rows, IncrementalMatcher};
use crate::measure::{
    build_match_row, lemma_match_row_refines, match_row, measure_slots_fit, measure_views,
    CompiledMeasure, MatchRows, MeasureView,
};
use crate::nfa::{spans, LabeledMatch};
use crate::partitions::PartitionMap;
use crate::plan::Op;
use crate::refresh::{distinct, lemma_refreshed_rows, refreshed, try_refresh};
use crate::scan::Span;
use vstd::prelude::*;

verus! {

/// The matching of all rows of a partition.
pub open spec fn whole_buffer(
    rows: Seq<BufferView>,
    defines: Seq<DefineView>,
    within: Option<usize>,
) -> Matching {
    Matching { rows, safe_len: rows.len() as int, defines, within }
}

/// What the functions below ask of a partition's rows.
pub open spec fn rows_ok(
    rows: Seq<BufferView>,
    defines: Seq<DefineView>,
    measures: Seq<MeasureView>,
) -> bool {
    &&& rows.len() <= i64::MAX
    &&& slots_fit(rows, defines)
    &&& measure_slots_fit(rows, measures)
    &&& forall|i: int| 0 <= i < rows.len() ==> (#[trigger] rows[i]).seq < i64::MAX
}

/// Align a partition's matcher with all of its rows, as if the input ended now, and return its
/// matches.
pub fn refresh_partition_matcher(
    inc: &mut IncrementalMatcher,
    rows: &Vec<BufferedRow>,
    defines: &Vec<CompiledDefine>,
    within: Option<usize>,
    evals: &Evaluations,
) -> (r: Result<Vec<LabeledMatch>, EvalRequest>)
    requires
        old(inc).wf(),
        distinct(old(inc)@.fed),
        slots_fit(buffer_view(rows@), define_views(defines@)),
        forall|i: int| 0 <= i < rows@.len() ==> (#[trigger] rows@[i]).seq < i64::MAX,
    ensures
        final(inc).wf(),
        final(inc).pattern() == old(inc).pattern(),
        final(inc).skip() == old(inc).skip(),
        match refreshed(
            old(inc)@,
            old(inc).pattern(),
            define_verdicts(
                whole_buffer(buffer_view(rows@), define_views(defines@), within),
                known(*evals),
            ),
            old(inc).skip(),
            seqs(buffer_view(rows@)),
        ) {
            Ok(g) => r is Ok && final(inc)@ == g && spans(r->Ok_0@) == g.spans && within_rows(
                r->Ok_0@,
                g.fed.len() as int,
            ),
            Err(q) => r is Err && r->Err_0@ == q && final(inc)@ == old(inc)@,
        },
{
    let matcher = DefineMatcher::new(rows, rows.len(), defines, within, evals);
    assert(seqs(buffer_view(rows@)).take(rows@.len() as int) =~= seqs(buffer_view(rows@)));
    match try_refresh(inc, rows, rows.len(), &matcher) {
        Ok(()) => Ok(inc.labeled()),
        Err(q) => Err(q),
    }
}

/// The match, anchored, with its output row.
pub open spec fn built_one(
    rows: Seq<BufferView>,
    measures: Seq<MeasureView>,
    key: RowView,
    answers: Answers,
    m: Span,
) -> Result<EmittedView, Request> {
    match match_row(
        MatchRows { rows, start: m.start, labels: m.labels },
        measures,
        key,
        answers,
    ) {
        Ok(row) => Ok((anchored(seqs(rows), m), row)),
        Err(q) => Err(q),
    }
}

/// The match, anchored, with the output row that it was emitted with, or with a row built for it if
/// it is new or changed.
pub open spec fn planned_one(
    prev: Seq<EmittedView>,
    rows: Seq<BufferView>,
    measures: Seq<MeasureView>,
    key: RowView,
    answers: Answers,
    m: Span,
) -> Result<EmittedView, Request> {
    match reusable(prev, anchored(seqs(rows), m)) {
        Some(i) => Ok((anchored(seqs(rows), m), prev[i].1)),
        None => built_one(rows, measures, key, answers, m),
    }
}

/// The matches from index `i` on with their output rows, where those of `prev` are reused.
pub open spec fn planned(
    prev: Seq<EmittedView>,
    rows: Seq<BufferView>,
    measures: Seq<MeasureView>,
    key: RowView,
    answers: Answers,
    found: Seq<Span>,
    i: int,
) -> Result<Seq<EmittedView>, Request>
    decreases found.len() - i,
{
    if i < 0 || i >= found.len() {
        Ok(Seq::empty())
    } else {
        match planned_one(prev, rows, measures, key, answers, found[i]) {
            Err(q) => Err(q),
            Ok(e) => match planned(prev, rows, measures, key, answers, found, i + 1) {
                Err(q) => Err(q),
                Ok(rest) => Ok(seq![e] + rest),
            },
        }
    }
}

/// The matches with output rows built for all of them.
pub open spec fn built(
    rows: Seq<BufferView>,
    measures: Seq<MeasureView>,
    key: RowView,
    answers: Answers,
    found: Seq<Span>,
) -> Result<Seq<EmittedView>, Request> {
    planned(Seq::empty(), rows, measures, key, answers, found, 0)
}

/// `head`, followed by what `rest` holds.
spec fn followed(head: Seq<EmittedView>, rest: Result<Seq<EmittedView>, Request>) -> Result<
    Seq<EmittedView>,
    Request,
> {
    match rest {
        Ok(s) => Ok(head + s),
        Err(q) => Err(q),
    }
}

/// The matches of a partition with their output rows. Rows of `prev` are reused.
fn output_rows(
    inc: &IncrementalMatcher,
    found: &Vec<LabeledMatch>,
    prev: &Vec<Emitted>,
    key: &Vec<Datum>,
    rows: &Vec<BufferedRow>,
    measures: &Vec<CompiledMeasure>,
    evals: &Evaluations,
) -> (r: Result<Vec<Emitted>, EvalRequest>)
    requires
        inc.wf(),
        inc@.fed == seqs(buffer_view(rows@)),
        spans(found@) == inc@.spans,
        within_rows(found@, rows@.len() as int),
        measure_slots_fit(buffer_view(rows@), measure_views(measures@)),
        rows@.len() <= i64::MAX,
    ensures
        match planned(
            emitted_view(prev@),
            buffer_view(rows@),
            measure_views(measures@),
            row_view(key@),
            known(*evals),
            inc@.spans,
            0,
        ) {
            Ok(l) => r is Ok && emitted_view(r->Ok_0@) == l,
            Err(q) => r is Err && r->Err_0@ == q,
        },
{
    let ghost pv = emitted_view(prev@);
    let ghost bv = buffer_view(rows@);
    let ghost mv = measure_views(measures@);
    let ghost kv = row_view(key@);
    let ghost answers = known(*evals);
    let ghost sp = inc@.spans;
    let provisional = inc.provisional();
    let plan = plan_provisional_rows(prev, provisional);
    let mut out: Vec<Emitted> = Vec::new();
    let mut i: usize = 0;
    proof {
        assert(provisional@.len() == sp.len()) by {
            assert(seq_spans(provisional@).len() == anchored_all(inc@.fed, sp).len());
        }
        assert(emitted_view(out@) =~= Seq::empty());
        if let Ok(s) = planned(pv, bv, mv, kv, answers, sp, 0) {
            assert(emitted_view(out@) + s =~= s);
        }
    }
    while i < provisional.len()
        invariant
            i <= provisional@.len(),
            provisional@.len() == sp.len(),
            found@.len() == sp.len(),
            plan@.len() == sp.len(),
            seq_spans(provisional@) == anchored_all(inc@.fed, sp),
            inc@.fed == seqs(bv),
            sp == inc@.spans,
            spans(found@) == sp,
            within_rows(found@, rows@.len() as int),
            measure_slots_fit(bv, mv),
            rows@.len() <= i64::MAX,
            pv == emitted_view(prev@),
            bv == buffer_view(rows@),
            mv == measure_views(measures@),
            kv == row_view(key@),
            answers == known(*evals),
            forall|j: int|
                0 <= j < plan@.len() ==> match #[trigger] plan@[j] {
                    Some(k) => reusable(pv, provisional@[j]@) == Some(k as int) && k < prev@.len(),
                    None => reusable(pv, provisional@[j]@) is None,
                },
            planned(pv, bv, mv, kv, answers, sp, 0) == followed(
                emitted_view(out@),
                planned(pv, bv, mv, kv, answers, sp, i as int),
            ),
        decreases provisional@.len() - i,
    {
        let m = &provisional[i];
        let at = &found[i];
        proof {
            assert(seq_spans(provisional@)[i as int] == m@);
            assert(anchored_all(inc@.fed, sp)[i as int] == anchored(seqs(bv), sp[i as int]));
            assert(spans(found@)[i as int] == at@);
            assert(at.wf() && at.start < at.end && at.end <= rows@.len());
        }
        let row: Vec<Datum> = match plan[i] {
            Some(k) => {
                assert(pv[k as int].1 == row_view(prev@[k as int].1@));
                row_clone(&prev[k].1)
            },
            None => {
                match build_match_row(
                    measures,
                    rows,
                    key,
                    at.start,
                    at.labels.as_slice(),
                    evals,
                ) {
                    Ok(row) => row,
                    Err(q) => {
                        return Err(q);
                    },
                }
            },
        };
        let ghost prior = out@;
        let ghost e: EmittedView = (anchored(seqs(bv), sp[i as int]), row_view(row@));
        let copy = m.clone();
        out.push((copy, row));
        proof {
            assert(emitted_view(out@) =~= emitted_view(prior).push(e));
            if let Ok(s) = planned(pv, bv, mv, kv, answers, sp, i + 1) {
                assert(emitted_view(prior) + (seq![e] + s) =~= emitted_view(out@) + s);
            }
        }
        i = i + 1;
    }
    assert(emitted_view(out@) + Seq::empty() =~= emitted_view(out@));
    Ok(out)
}

/// The matches of a partition over all of its rows, with their output rows. This is what the base
/// of the changelog is after a restart: it tells nothing downstream.
pub fn compute_partition_emitted(
    inc: &mut IncrementalMatcher,
    key: &Vec<Datum>,
    rows: &Vec<BufferedRow>,
    defines: &Vec<CompiledDefine>,
    within: Option<usize>,
    measures: &Vec<CompiledMeasure>,
    evals: &Evaluations,
) -> (r: Result<Vec<Emitted>, EvalRequest>)
    requires
        old(inc).wf(),
        distinct(old(inc)@.fed),
        rows_ok(buffer_view(rows@), define_views(defines@), measure_views(measures@)),
    ensures
        final(inc).wf(),
        final(inc).pattern() == old(inc).pattern(),
        final(inc).skip() == old(inc).skip(),
        match refreshed(
            old(inc)@,
            old(inc).pattern(),
            define_verdicts(
                whole_buffer(buffer_view(rows@), define_views(defines@), within),
                known(*evals),
            ),
            old(inc).skip(),
            seqs(buffer_view(rows@)),
        ) {
            Ok(g) => final(inc)@ == g && match built(
                buffer_view(rows@),
                measure_views(measures@),
                row_view(key@),
                known(*evals),
                g.spans,
            ) {
                Ok(l) => r is Ok && emitted_view(r->Ok_0@) == l,
                Err(q) => r is Err && r->Err_0@ == q,
            },
            Err(q) => r is Err && r->Err_0@ == q && final(inc)@ == old(inc)@,
        },
{
    proof {
        lemma_rows_seqs(rows@);
    }
    let found = match refresh_partition_matcher(inc, rows, defines, within, evals) {
        Ok(found) => found,
        Err(q) => {
            return Err(q);
        },
    };
    proof {
        lemma_refreshed_rows(
            old(inc)@,
            old(inc).pattern(),
            define_verdicts(
                whole_buffer(buffer_view(rows@), define_views(defines@), within),
                known(*evals),
            ),
            old(inc).skip(),
            seqs(buffer_view(rows@)),
        );
    }
    let none: Vec<Emitted> = Vec::new();
    assert(emitted_view(none@) =~= Seq::empty());
    output_rows(inc, &found, &none, key, rows, measures, evals)
}

proof fn lemma_rows_seqs(rows: Seq<BufferedRow>)
    requires
        forall|i: int|
            0 <= i < rows.len() ==> (#[trigger] buffer_view(rows)[i]).seq < i64::MAX,
    ensures
        forall|i: int| 0 <= i < rows.len() ==> (#[trigger] rows[i]).seq < i64::MAX,
{
    assert forall|i: int| 0 <= i < rows.len() implies (#[trigger] rows[i]).seq < i64::MAX by {
        assert(buffer_view(rows)[i].seq < i64::MAX);
    }
}

/// What a partition told downstream last.
pub open spec fn base(last_emitted: Map<RowView, Vec<Emitted>>, key: RowView) -> Seq<EmittedView> {
    if last_emitted.dom().contains(key) {
        emitted_view(last_emitted[key]@)
    } else {
        Seq::empty()
    }
}

/// The partition told `new` downstream last. A partition that told nothing has no entry.
pub open spec fn told(
    last_emitted: Map<RowView, Vec<Emitted>>,
    key: RowView,
    new: Seq<EmittedView>,
) -> bool {
    &&& base(last_emitted, key) == new
    &&& last_emitted.dom().contains(key) <==> new.len() > 0
}

/// The changes of a partition's matches over all of its rows since it told them downstream last.
/// The base moves on to the new matches. A step that stops for a missing answer leaves the base as
/// it is.
pub fn emit_partition_diff(
    inc: &mut IncrementalMatcher,
    last_emitted: &mut PartitionMap<Vec<Emitted>>,
    key: &Vec<Datum>,
    rows: &Vec<BufferedRow>,
    defines: &Vec<CompiledDefine>,
    within: Option<usize>,
    measures: &Vec<CompiledMeasure>,
    evals: &Evaluations,
) -> (r: Result<Vec<(Op, Vec<Datum>)>, EvalRequest>)
    requires
        old(inc).wf(),
        distinct(old(inc)@.fed),
        rows_ok(buffer_view(rows@), define_views(defines@), measure_views(measures@)),
    ensures
        final(inc).wf(),
        final(inc).pattern() == old(inc).pattern(),
        final(inc).skip() == old(inc).skip(),
        final(last_emitted)@.remove(row_view(key@)) == old(last_emitted)@.remove(row_view(key@)),
        match refreshed(
            old(inc)@,
            old(inc).pattern(),
            define_verdicts(
                whole_buffer(buffer_view(rows@), define_views(defines@), within),
                known(*evals),
            ),
            old(inc).skip(),
            seqs(buffer_view(rows@)),
        ) {
            Ok(g) => final(inc)@ == g && match planned(
                base(old(last_emitted)@, row_view(key@)),
                buffer_view(rows@),
                measure_views(measures@),
                row_view(key@),
                known(*evals),
                g.spans,
                0,
            ) {
                Ok(new) => r is Ok && told(final(last_emitted)@, row_view(key@), new) && exists|
                    ids: Seq<i64>,
                |
                    #[trigger] identities(ids, base(old(last_emitted)@, row_view(key@)), new)
                        && ops_view(r->Ok_0@) == changes(
                        ids,
                        base(old(last_emitted)@, row_view(key@)),
                        new,
                        0,
                    ),
                Err(q) => {
                    &&& r is Err && r->Err_0@ == q
                    &&& final(last_emitted)@ == old(last_emitted)@
                },
            },
            Err(q) => {
                &&& r is Err && r->Err_0@ == q
                &&& final(inc)@ == old(inc)@
                &&& final(last_emitted)@ == old(last_emitted)@
            },
        },
{
    let ghost kv = row_view(key@);
    let ghost start = last_emitted@;
    proof {
        lemma_rows_seqs(rows@);
    }
    let found = match refresh_partition_matcher(inc, rows, defines, within, evals) {
        Ok(found) => found,
        Err(q) => {
            return Err(q);
        },
    };
    proof {
        lemma_refreshed_rows(
            old(inc)@,
            old(inc).pattern(),
            define_verdicts(
                whole_buffer(buffer_view(rows@), define_views(defines@), within),
                known(*evals),
            ),
            old(inc).skip(),
            seqs(buffer_view(rows@)),
        );
    }
    let none: Vec<Emitted> = Vec::new();
    let (ops, new_emitted): (Vec<(Op, Vec<Datum>)>, Vec<Emitted>) = {
        let prev: &Vec<Emitted> = match last_emitted.get(key) {
            Some(prev) => prev,
            None => &none,
        };
        assert(emitted_view(prev@) =~= base(start, kv));
        let new_emitted = match output_rows(inc, &found, prev, key, rows, measures, evals) {
            Ok(l) => l,
            Err(q) => {
                return Err(q);
            },
        };
        (diff_provisional(prev, &new_emitted), new_emitted)
    };
    let ghost new = emitted_view(new_emitted@);
    if new_emitted.len() == 0 {
        let _ = last_emitted.remove(key);
        assert(new =~= Seq::empty());
        assert(last_emitted@.remove(kv) =~= start.remove(kv));
    } else {
        let ghost value = new_emitted;
        last_emitted.insert(row_clone(key), new_emitted);
        assert(last_emitted@ == start.insert(kv, value));
        assert(last_emitted@.remove(kv) =~= start.remove(kv));
    }
    Ok(ops)
}

/// The matches bind rows before `n`.
pub open spec fn spans_within(l: Seq<Span>, n: int) -> bool {
    forall|j: int| 0 <= j < l.len() ==> 0 <= (#[trigger] l[j]).start < l[j].end() <= n
}

/// Each row of `prev` is the row that would be built for its match.
pub open spec fn base_sound(
    prev: Seq<EmittedView>,
    rows: Seq<BufferView>,
    measures: Seq<MeasureView>,
    key: RowView,
    answers: Answers,
) -> bool {
    forall|i: int, m: Span|
        0 <= i < prev.len() && 0 <= m.start < m.end() <= rows.len() && #[trigger] anchored(
            seqs(rows),
            m,
        ) == (#[trigger] prev[i]).0 ==> built_one(rows, measures, key, answers, m) == Ok::<
            EmittedView,
            Request,
        >(prev[i])
}

/// Reusing the rows of matches that did not change gives the rows that building all of them gives.
pub proof fn lemma_reuse_equals_rebuild(
    prev: Seq<EmittedView>,
    rows: Seq<BufferView>,
    measures: Seq<MeasureView>,
    key: RowView,
    a: Answers,
    b: Answers,
    found: Seq<Span>,
    i: int,
)
    requires
        more_answers(a, b),
        base_sound(prev, rows, measures, key, b),
        spans_within(found, rows.len() as int),
        planned(prev, rows, measures, key, a, found, i) is Ok,
    ensures
        planned(Seq::empty(), rows, measures, key, b, found, i) == planned(
            prev,
            rows,
            measures,
            key,
            a,
            found,
            i,
        ),
    decreases found.len() - i,
{
    if 0 <= i < found.len() {
        let m = found[i];
        lemma_reuse_equals_rebuild(prev, rows, measures, key, a, b, found, i + 1);
        lemma_place(prev, anchored(seqs(rows), m).start_seq, 0);
        match reusable(prev, anchored(seqs(rows), m)) {
            Some(k) => {
                assert(anchored(seqs(rows), m) == prev[k].0);
            },
            None => {
                lemma_match_row_refines(
                    MatchRows { rows, start: m.start, labels: m.labels },
                    measures,
                    key,
                    a,
                    b,
                );
            },
        }
    }
}

/// The entries that are planned are those of the matches, in their order.
pub proof fn lemma_planned_entries(
    prev: Seq<EmittedView>,
    rows: Seq<BufferView>,
    measures: Seq<MeasureView>,
    key: RowView,
    answers: Answers,
    found: Seq<Span>,
    i: int,
    l: Seq<EmittedView>,
)
    requires
        0 <= i <= found.len(),
        planned(prev, rows, measures, key, answers, found, i) == Ok::<Seq<EmittedView>, Request>(l),
    ensures
        l.len() == found.len() - i,
        forall|j: int|
            #![trigger l[j]]
            0 <= j < l.len() ==> l[j].0 == anchored(seqs(rows), found[i + j]),
    decreases found.len() - i,
{
    if i < found.len() {
        let rest = planned(prev, rows, measures, key, answers, found, i + 1)->Ok_0;
        lemma_planned_entries(prev, rows, measures, key, answers, found, i + 1, rest);
        assert forall|j: int| #![trigger l[j]] 0 <= j < l.len() implies l[j].0 == anchored(
            seqs(rows),
            found[i + j],
        ) by {
            if j > 0 {
                assert(l[j] == rest[j - 1]);
                assert(found[i + 1 + (j - 1)] == found[i + j]);
            }
        }
    }
}

/// The entries that are built are those of the matches, in their order.
pub proof fn lemma_built_entries(
    rows: Seq<BufferView>,
    measures: Seq<MeasureView>,
    key: RowView,
    answers: Answers,
    found: Seq<Span>,
    i: int,
    l: Seq<EmittedView>,
)
    requires
        0 <= i <= found.len(),
        planned(Seq::empty(), rows, measures, key, answers, found, i) == Ok::<
            Seq<EmittedView>,
            Request,
        >(l),
    ensures
        l.len() == found.len() - i,
        forall|j: int|
            #![trigger l[j]]
            0 <= j < l.len() ==> built_one(rows, measures, key, answers, found[i + j]) == Ok::<
                EmittedView,
                Request,
            >(l[j]),
    decreases found.len() - i,
{
    if i < found.len() {
        let rest = planned(
            Seq::empty(),
            rows,
            measures,
            key,
            answers,
            found,
            i + 1,
        )->Ok_0;
        lemma_built_entries(rows, measures, key, answers, found, i + 1, rest);
        assert forall|j: int| #![trigger l[j]] 0 <= j < l.len() implies built_one(
            rows,
            measures,
            key,
            answers,
            found[i + j],
        ) == Ok::<EmittedView, Request>(l[j]) by {
            if j > 0 {
                assert(l[j] == rest[j - 1]);
                assert(found[(i + 1) + (j - 1)] == found[i + j]);
            }
        }
    }
}

/// The output rows carry the identities of their matches.
pub proof fn lemma_planned_identified(
    prev: Seq<EmittedView>,
    rows: Seq<BufferView>,
    measures: Seq<MeasureView>,
    key: RowView,
    answers: Answers,
    found: Seq<Span>,
    i: int,
)
    requires
        rows_identified(prev),
        spans_within(found, rows.len() as int),
    ensures
        planned(prev, rows, measures, key, answers, found, i) matches Ok(l) ==> rows_identified(l),
    decreases found.len() - i,
{
    if 0 <= i < found.len() {
        let m = found[i];
        lemma_planned_identified(prev, rows, measures, key, answers, found, i + 1);
        lemma_place(prev, anchored(seqs(rows), m).start_seq, 0);
        if let Ok(l) = planned(prev, rows, measures, key, answers, found, i) {
            let rest = planned(prev, rows, measures, key, answers, found, i + 1)->Ok_0;
            let e = planned_one(prev, rows, measures, key, answers, m)->Ok_0;
            assert(row_id(e.1) == Some(e.0.start_seq)) by {
                match reusable(prev, anchored(seqs(rows), m)) {
                    Some(k) => {
                        assert(prev[k].0 == e.0);
                    },
                    None => {
                        assert(seqs(rows)[m.start] == rows[m.start].seq);
                        assert(e.1.last() == Some(ScalarView::Int64(rows[m.start].seq)));
                    },
                }
            }
            assert forall|j: int| 0 <= j < l.len() implies row_id((#[trigger] l[j]).1) == Some(
                l[j].0.start_seq,
            ) by {
                if j > 0 {
                    assert(l[j] == rest[j - 1]);
                }
            }
        }
    }
}

/// The output rows of a diff: a match that was emitted and has not changed keeps the row that it was
/// emitted with, and each other match gets the row that is made for it.
pub proof fn lemma_rows_of_matches(
    prev: Seq<EmittedView>,
    rows: Seq<BufferView>,
    measures: Seq<MeasureView>,
    key: RowView,
    answers: Answers,
    found: Seq<Span>,
    i: int,
    j: int,
)
    requires
        0 <= i <= found.len(),
        planned(prev, rows, measures, key, answers, found, i) is Ok,
        i <= j < found.len(),
    ensures
        ({
            let l = planned(prev, rows, measures, key, answers, found, i)->Ok_0;
            let m = found[j];
            &&& l.len() == found.len() - i
            &&& l[j - i].0 == anchored(seqs(rows), m)
            &&& reusable(prev, anchored(seqs(rows), m)) matches Some(k) ==> l[j - i].1 == prev[k].1
            &&& reusable(prev, anchored(seqs(rows), m)) is None ==> match_row(
                MatchRows { rows, start: m.start, labels: m.labels },
                measures,
                key,
                answers,
            ) == Ok::<RowView, Request>(l[j - i].1)
        }),
    decreases j - i,
{
    let rest = planned(prev, rows, measures, key, answers, found, i + 1)->Ok_0;
    lemma_planned_entries(prev, rows, measures, key, answers, found, i + 1, rest);
    if i < j {
        lemma_rows_of_matches(prev, rows, measures, key, answers, found, i + 1, j);
        let l = planned(prev, rows, measures, key, answers, found, i)->Ok_0;
        assert(l[j - i] == rest[j - (i + 1)]);
    }
}

} // verus!
