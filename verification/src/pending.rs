//! Steps that stop for a missing answer.
//!
//! A step that stops returns a request whose answer is not known. Once it is recorded the step gets
//! farther, and with all answers known no step stops.

use crate::buffer::{seqs, BufferView};
use crate::changelog::EmittedView;
use crate::datum::{DatumView, RowView, ScalarView};
use crate::define::{define_verdicts, known, Answers, Matching};
use crate::emission::{base, planned, whole_buffer};
use crate::eval::Request;
use crate::executor::{progress_of, MatchRecognizeExecutor};
use crate::incremental::{derived, Progress};
use crate::measure::{
    measured_all, resolved_all, MatchRows, MeasureSlotView, MeasureView,
};
use crate::pattern::{
    bind, concat_from, extra, least, loop_from, permute_from, repeat_from, trace, trace_alt,
    trace_concat, trace_loop, trace_permute, trace_repeat, Outcome, Pattern, Trace, Var, Verdicts,
    Window,
};
use crate::refresh::{diverge_at, refreshed};
use crate::scan::{first_stop, lemma_first_stop, preferred, scan, ways, window, Goal, Span};
use crate::settled::{alive_through, settles};
use crate::skip::{lemma_resume_advances, resume, SkipView};
use crate::trace::lemma_bind_item;
use crate::visit::{decided, match_rows, Pass};
use vstd::prelude::*;

verus! {

/// Each verdict that is missing takes an answer that is not known.
pub open spec fn lacks(v: Verdicts, answers: Answers) -> bool {
    forall|var: Var, pos: int, labels: Seq<Var>|
        (#[trigger] v(var, pos, labels)) matches Err(q) ==> answers(q) is None
}

/// Each way of `t` that is blocked takes an answer that is not known.
spec fn blocked_lack(t: Trace, answers: Answers) -> bool {
    forall|i: int|
        0 <= i < t.len() ==> ((#[trigger] t[i]) matches Outcome::Blocked(q) ==> answers(q) is None)
}

proof fn lemma_append_lacks(a: Trace, b: Trace, answers: Answers)
    requires
        blocked_lack(a, answers),
        blocked_lack(b, answers),
    ensures
        blocked_lack(a + b, answers),
{
    assert forall|i: int| 0 <= i < (a + b).len() implies ((#[trigger] (a + b)[i]) matches
    Outcome::Blocked(q) ==> answers(q) is None) by {
        if i < a.len() {
            assert((a + b)[i] == a[i]);
        } else {
            assert((a + b)[i] == b[i - a.len()]);
        }
    }
}

proof fn lemma_bind_lacks(t: Trace, f: spec_fn(Seq<Var>) -> Trace, answers: Answers)
    requires
        blocked_lack(t, answers),
        forall|l: Seq<Var>| blocked_lack(#[trigger] f(l), answers),
    ensures
        blocked_lack(bind(t, f), answers),
{
    assert forall|i: int| 0 <= i < bind(t, f).len() implies ((#[trigger] bind(t, f)[i]) matches
    Outcome::Blocked(q) ==> answers(q) is None) by {
        let r = lemma_bind_item(t, f, i);
        if let Outcome::Done(l) = t[r.0] {
            assert(blocked_lack(f(l), answers));
            assert(f(l)[r.1] == bind(t, f)[i]);
        }
    }
}

proof fn lemma_trace_lacks(p: Pattern, w: Window, labels: Seq<Var>, answers: Answers)
    requires
        lacks(w.verdicts, answers),
    ensures
        blocked_lack(trace(p, w, labels), answers),
    decreases p, 0nat, 0int, 0nat,
{
    match p {
        Pattern::Var(v) => {
            let verdict = (w.verdicts)(v@, w.start + labels.len(), labels);
            if let Err(q) = verdict {
                assert(answers(q) is None);
            }
        },
        Pattern::Concat(ps) => {
            lemma_concat_lacks(ps@, 0, w, labels, answers);
        },
        Pattern::Alt(ps) => {
            lemma_alt_lacks(ps@, 0, w, labels, answers);
        },
        Pattern::Quantified(inner, q, reluctant) => {
            lemma_repeat_lacks(*inner, least(q), extra(q), reluctant, w, labels, answers);
        },
        Pattern::Permute(ps) => {
            lemma_permute_lacks(ps@, Seq::new(ps@.len(), |i: int| i), 0, w, labels, answers);
        },
    }
}

proof fn lemma_concat_lacks(
    ps: Seq<Pattern>,
    i: int,
    w: Window,
    labels: Seq<Var>,
    answers: Answers,
)
    requires
        lacks(w.verdicts, answers),
    ensures
        blocked_lack(trace_concat(ps, i, w, labels), answers),
    decreases ps, 0nat, ps.len() - i, 0nat,
{
    if 0 <= i < ps.len() {
        let f = concat_from(ps, i + 1, w);
        lemma_trace_lacks(ps[i], w, labels, answers);
        assert forall|l: Seq<Var>| blocked_lack(#[trigger] f(l), answers) by {
            lemma_concat_lacks(ps, i + 1, w, l, answers);
        }
        lemma_bind_lacks(trace(ps[i], w, labels), f, answers);
    }
}

proof fn lemma_alt_lacks(ps: Seq<Pattern>, i: int, w: Window, labels: Seq<Var>, answers: Answers)
    requires
        lacks(w.verdicts, answers),
    ensures
        blocked_lack(trace_alt(ps, i, w, labels), answers),
    decreases ps, 0nat, ps.len() - i, 0nat,
{
    if 0 <= i < ps.len() {
        lemma_trace_lacks(ps[i], w, labels, answers);
        lemma_alt_lacks(ps, i + 1, w, labels, answers);
        lemma_append_lacks(
            trace(ps[i], w, labels),
            trace_alt(ps, i + 1, w, labels),
            answers,
        );
    }
}

proof fn lemma_permute_lacks(
    ps: Seq<Pattern>,
    rest: Seq<int>,
    i: int,
    w: Window,
    labels: Seq<Var>,
    answers: Answers,
)
    requires
        lacks(w.verdicts, answers),
    ensures
        blocked_lack(trace_permute(ps, rest, i, w, labels), answers),
    decreases ps, rest.len(), rest.len() - i, 0nat,
{
    if 0 <= i < rest.len() {
        let b = trace_permute(ps, rest, i + 1, w, labels);
        lemma_permute_lacks(ps, rest, i + 1, w, labels, answers);
        if 0 <= rest[i] < ps.len() {
            let t = trace(ps[rest[i]], w, labels);
            let f = permute_from(ps, rest.remove(i), w);
            lemma_trace_lacks(ps[rest[i]], w, labels, answers);
            assert forall|l: Seq<Var>| blocked_lack(#[trigger] f(l), answers) by {
                lemma_permute_lacks(ps, rest.remove(i), 0, w, l, answers);
            }
            lemma_bind_lacks(t, f, answers);
            lemma_append_lacks(bind(t, f), b, answers);
        } else {
            lemma_append_lacks(Seq::empty(), b, answers);
        }
    }
}

proof fn lemma_repeat_lacks(
    p: Pattern,
    min: nat,
    extra: Option<nat>,
    reluctant: bool,
    w: Window,
    labels: Seq<Var>,
    answers: Answers,
)
    requires
        lacks(w.verdicts, answers),
    ensures
        blocked_lack(trace_repeat(p, min, extra, reluctant, w, labels), answers),
    decreases p, 2 + min + extra.unwrap_or(0), 0int, 0nat,
{
    let t = trace(p, w, labels);
    lemma_trace_lacks(p, w, labels, answers);
    if min > 0 {
        let f = repeat_from(p, (min - 1) as nat, extra, reluctant, w);
        assert forall|l: Seq<Var>| blocked_lack(#[trigger] f(l), answers) by {
            lemma_repeat_lacks(p, (min - 1) as nat, extra, reluctant, w, l, answers);
        }
        lemma_bind_lacks(t, f, answers);
    } else {
        match extra {
            None => lemma_loop_lacks(p, reluctant, w, labels, answers),
            Some(k) => {
                if k > 0 {
                    let f = repeat_from(p, 0, Some((k - 1) as nat), reluctant, w);
                    assert forall|l: Seq<Var>| blocked_lack(#[trigger] f(l), answers) by {
                        lemma_repeat_lacks(
                            p,
                            0,
                            Some((k - 1) as nat),
                            reluctant,
                            w,
                            l,
                            answers,
                        );
                    }
                    lemma_bind_lacks(t, f, answers);
                    lemma_append_lacks(bind(t, f), seq![Outcome::Done(labels)], answers);
                    lemma_append_lacks(seq![Outcome::Done(labels)], bind(t, f), answers);
                }
            },
        }
    }
}

proof fn lemma_loop_lacks(
    p: Pattern,
    reluctant: bool,
    w: Window,
    labels: Seq<Var>,
    answers: Answers,
)
    requires
        lacks(w.verdicts, answers),
    ensures
        blocked_lack(trace_loop(p, reluctant, w, labels), answers),
    decreases p, 1nat, w.n - w.start - labels.len(), 1nat,
{
    let t = trace(p, w, labels);
    let f = loop_from(p, reluctant, w, labels.len());
    lemma_trace_lacks(p, w, labels, answers);
    assert forall|l: Seq<Var>| blocked_lack(#[trigger] f(l), answers) by {
        if labels.len() < l.len() && w.start + l.len() <= w.n {
            lemma_loop_lacks(p, reluctant, w, l, answers);
        }
    }
    lemma_bind_lacks(t, f, answers);
    lemma_append_lacks(bind(t, f), seq![Outcome::Done(labels)], answers);
    lemma_append_lacks(seq![Outcome::Done(labels)], bind(t, f), answers);
}

/// An attempt that is blocked takes an answer that is not known.
proof fn lemma_stop_lacks(
    p: Pattern,
    v: Verdicts,
    start: int,
    n: int,
    goal: Goal,
    answers: Answers,
)
    requires
        lacks(v, answers),
    ensures
        first_stop(ways(p, v, start, n), goal, window(v, start, n)) matches Some(
            Outcome::Blocked(q),
        ) ==> answers(q) is None,
{
    let t = ways(p, v, start, n);
    let k = lemma_first_stop(t, goal, window(v, start, n));
    lemma_trace_lacks(p, window(v, start, n), Seq::empty(), answers);
    if let Some(Outcome::Blocked(q)) = first_stop(t, goal, window(v, start, n)) {
        assert(t[k] == Outcome::Blocked(q));
    }
}

proof fn lemma_scan_lacks(
    p: Pattern,
    v: Verdicts,
    skip: SkipView,
    n: int,
    cursor: int,
    answers: Answers,
)
    requires
        lacks(v, answers),
    ensures
        scan(p, v, skip, n, cursor) matches Err(q) ==> answers(q) is None,
    decreases if cursor < n { n - cursor } else { 0 },
{
    if cursor < n {
        lemma_stop_lacks(p, v, cursor, n, Goal::Match, answers);
        match preferred(p, v, cursor, n) {
            Some(Outcome::Done(l)) => {
                if l.len() > 0 {
                    lemma_resume_advances(skip, cursor, l);
                    lemma_scan_lacks(p, v, skip, n, resume(skip, cursor, l), answers);
                } else {
                    lemma_scan_lacks(p, v, skip, n, cursor + 1, answers);
                }
            },
            Some(Outcome::Blocked(_)) => {},
            _ => lemma_scan_lacks(p, v, skip, n, cursor + 1, answers),
        }
    }
}

proof fn lemma_alive_through_lacks(
    p: Pattern,
    v: Verdicts,
    from: int,
    to: int,
    n: int,
    answers: Answers,
)
    requires
        lacks(v, answers),
    ensures
        alive_through(p, v, from, to, n) matches Err(q) ==> answers(q) is None,
    decreases if from <= to { to - from + 1 } else { 0 },
{
    if from <= to {
        lemma_stop_lacks(p, v, from, n, Goal::Reach, answers);
        lemma_alive_through_lacks(p, v, from + 1, to, n, answers);
    }
}

proof fn lemma_settles_lacks(
    p: Pattern,
    v: Verdicts,
    skip: SkipView,
    n: int,
    cursor: int,
    tail: Seq<Span>,
    answers: Answers,
)
    requires
        lacks(v, answers),
    ensures
        settles(p, v, skip, n, cursor, tail) matches Err(q) ==> answers(q) is None,
    decreases tail.len(),
{
    if tail.len() > 0 && tail[0].end() <= n {
        lemma_alive_through_lacks(p, v, cursor, tail[0].start, n, answers);
        lemma_settles_lacks(
            p,
            v,
            skip,
            n,
            resume(skip, tail[0].start, tail[0].labels),
            tail.drop_first(),
            answers,
        );
    }
}

proof fn lemma_derived_lacks(
    p: Pattern,
    v: Verdicts,
    skip: SkipView,
    n: int,
    from: int,
    answers: Answers,
)
    requires
        lacks(v, answers),
    ensures
        derived(p, v, skip, n, from) matches Err(q) ==> answers(q) is None,
{
    lemma_scan_lacks(p, v, skip, n, from, answers);
    if let Ok(tail) = scan(p, v, skip, n, from) {
        lemma_settles_lacks(p, v, skip, n, from, tail, answers);
    }
}

/// A verdict that is missing takes an answer that is not known.
proof fn lemma_define_lacks(m: Matching, answers: Answers)
    ensures
        lacks(define_verdicts(m, answers), answers),
{
}

/// A refresh that stops asks for an answer that is not known.
pub proof fn lemma_refresh_asks_what_is_not_known(
    g: Progress,
    p: Pattern,
    m: Matching,
    answers: Answers,
    skip: SkipView,
    rows: Seq<i64>,
)
    ensures
        refreshed(g, p, define_verdicts(m, answers), skip, rows) matches Err(q) ==> answers(
            q,
        ) is None,
{
    let v = define_verdicts(m, answers);
    let n = rows.len() as int;
    let at = diverge_at(g.fed, rows, 0);
    let frozen = g.spans.take(g.frozen as int);
    lemma_define_lacks(m, answers);
    lemma_derived_lacks(p, v, skip, n, g.resume, answers);
    lemma_settles_lacks(p, v, skip, at, 0, frozen, answers);
    if let Ok(kept) = settles(p, v, skip, at, 0, frozen) {
        lemma_derived_lacks(p, v, skip, n, g.cut(skip, at, kept).resume, answers);
    }
}

proof fn lemma_resolved_all_lacks(
    m: MatchRows,
    slots: Seq<MeasureSlotView>,
    answers: Answers,
    i: int,
)
    ensures
        resolved_all(m, slots, answers, i) matches Err(q) ==> answers(q) is None,
    decreases slots.len() - i,
{
    if 0 <= i < slots.len() {
        lemma_resolved_all_lacks(m, slots, answers, i + 1);
    }
}

proof fn lemma_measured_all_lacks(
    m: MatchRows,
    measures: Seq<MeasureView>,
    answers: Answers,
    i: int,
)
    ensures
        measured_all(m, measures, answers, i) matches Err(q) ==> answers(q) is None,
    decreases measures.len() - i,
{
    if 0 <= i < measures.len() {
        lemma_resolved_all_lacks(m, measures[i].slots, answers, 0);
        lemma_measured_all_lacks(m, measures, answers, i + 1);
    }
}

/// Output rows that are not made for want of an answer ask for an answer that is not known.
pub proof fn lemma_rows_ask_what_is_not_known(
    prev: Seq<EmittedView>,
    rows: Seq<BufferView>,
    measures: Seq<MeasureView>,
    key: RowView,
    answers: Answers,
    found: Seq<Span>,
    i: int,
)
    ensures
        planned(prev, rows, measures, key, answers, found, i) matches Err(q) ==> answers(q) is None,
    decreases found.len() - i,
{
    if 0 <= i < found.len() {
        let m = MatchRows { rows, start: found[i].start, labels: found[i].labels };
        lemma_measured_all_lacks(m, measures, answers, 0);
        lemma_rows_ask_what_is_not_known(prev, rows, measures, key, answers, found, i + 1);
    }
}

proof fn lemma_match_rows_lack(
    rows: Seq<BufferView>,
    measures: Seq<MeasureView>,
    key: RowView,
    answers: Answers,
    l: Seq<Span>,
    i: int,
)
    ensures
        match_rows(rows, measures, key, answers, l, i) matches Err(q) ==> answers(q) is None,
    decreases l.len() - i,
{
    if 0 <= i < l.len() {
        let m = MatchRows { rows, start: l[i].start, labels: l[i].labels };
        lemma_measured_all_lacks(m, measures, answers, 0);
        lemma_match_rows_lack(rows, measures, key, answers, l, i + 1);
    }
}

proof fn lemma_finals_lack(c: Pass, found: Seq<Span>, i: int, cursor: int)
    ensures
        c.finals(found, i, cursor) matches Err(q) ==> (c.answers)(q) is None,
    decreases found.len() - i,
{
    if 0 <= i < found.len() {
        let m = found[i];
        lemma_define_lacks(c.matching, c.answers);
        lemma_stop_lacks(c.pattern, c.verdicts(), m.start, m.end(), Goal::Decide, c.answers);
        lemma_finals_lack(c, found, i + 1, cursor);
        lemma_finals_lack(c, found, i + 1, resume(c.skip, m.start, m.labels));
    }
}

proof fn lemma_retained_lacks(c: Pass, p: int)
    ensures
        c.retained(p) matches Err(q) ==> (c.answers)(q) is None,
    decreases c.matching.safe_len - p,
{
    if p < c.matching.safe_len {
        lemma_define_lacks(c.matching, c.answers);
        lemma_stop_lacks(
            c.pattern,
            c.verdicts(),
            p,
            c.matching.safe_len,
            Goal::Reach,
            c.answers,
        );
        lemma_retained_lacks(c, p + 1);
    }
}

/// A pass over a partition that stops asks for an answer that is not known.
pub proof fn lemma_pass_asks_what_is_not_known(
    c: Pass,
    found: Seq<Span>,
    measures: Seq<MeasureView>,
    key: RowView,
    tell: bool,
)
    ensures
        decided(c, found, measures, key, tell) matches Err(q) ==> (c.answers)(q) is None,
{
    lemma_finals_lack(c, found, 0, 0);
    if let Ok((finals, cursor)) = c.finals(found, 0, 0) {
        let told = if tell {
            finals
        } else {
            Seq::empty()
        };
        lemma_match_rows_lack(c.matching.rows, measures, key, c.answers, told, 0);
        lemma_retained_lacks(c, cursor);
    }
}

/// A step that tells the changes of a partition and stops asks for an answer that is not known.
pub proof fn lemma_diff_asks_what_is_not_known(
    before: &MatchRecognizeExecutor,
    after: &MatchRecognizeExecutor,
    key: RowView,
    rows: Seq<BufferView>,
    q: Request,
)
    requires
        after.diffed(before, key, rows, Err(q)),
    ensures
        before.evaluations().answer(q) is None,
{
    let c = before.config();
    let a = known(before.evaluations());
    let g = progress_of(before.caches().matchers, key);
    let m = whole_buffer(rows, c.defines, c.within);
    lemma_refresh_asks_what_is_not_known(g, c.pattern, m, a, c.skip, seqs(rows));
    if let Ok(n) = refreshed(g, c.pattern, define_verdicts(m, a), c.skip, seqs(rows)) {
        let prev = base(before.caches().last_emitted, key);
        lemma_rows_ask_what_is_not_known(prev, rows, c.measures, key, a, n.spans, 0);
    }
}

/// A seeding that stops asks for an answer that is not known.
pub proof fn lemma_seed_asks_what_is_not_known(
    before: &MatchRecognizeExecutor,
    after: &MatchRecognizeExecutor,
    key: RowView,
    rows: Seq<BufferView>,
    q: Request,
)
    requires
        after.seeded(before, key, rows, Err(q)),
    ensures
        before.evaluations().answer(q) is None,
{
    let c = before.config();
    let a = known(before.evaluations());
    let g = progress_of(before.caches().matchers, key);
    let m = whole_buffer(rows, c.defines, c.within);
    lemma_refresh_asks_what_is_not_known(g, c.pattern, m, a, c.skip, seqs(rows));
    if let Ok(n) = refreshed(g, c.pattern, define_verdicts(m, a), c.skip, seqs(rows)) {
        lemma_rows_ask_what_is_not_known(Seq::empty(), rows, c.measures, key, a, n.spans, 0);
    }
}

/// A visit that stops asks for an answer that is not known.
pub proof fn lemma_visit_asks_what_is_not_known(
    before: &MatchRecognizeExecutor,
    after: &MatchRecognizeExecutor,
    key: RowView,
    old_wakeup: ScalarView,
    rows: Seq<BufferView>,
    mark: ScalarView,
    min_before: DatumView,
    min_after: DatumView,
    q: Request,
)
    requires
        after.visited(before, key, old_wakeup, rows, mark, min_before, min_after, Err(q)),
    ensures
        before.evaluations().answer(q) is None,
{
    let c = before.config();
    let pass = before.pass(rows, mark);
    let g = progress_of(before.caches().matchers, key);
    let safe = seqs(rows).take(pass.matching.safe_len);
    lemma_refresh_asks_what_is_not_known(
        g,
        c.pattern,
        pass.matching,
        pass.answers,
        c.skip,
        safe,
    );
    if let Ok(n) = refreshed(g, c.pattern, pass.verdicts(), c.skip, safe) {
        lemma_pass_asks_what_is_not_known(
            pass,
            n.spans,
            c.measures,
            key,
            !c.emit_on_update,
        );
    }
}

} // verus!
