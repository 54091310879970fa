//! What a watermark does to a partition that is due.
//!
//! The rows before the watermark are safe: they are final, and no row can come before them any
//! more. A match over the safe rows is final if a safe row follows it, if its time bound has
//! passed, or if nothing can extend it. Rows that can be part of no match to come are evicted.
//! Every test is strict, because a row at the watermark itself may still arrive.

use crate::buffer::{buffer_view, seqs, BufferView, BufferedRow};
use crate::datum::{
    before, datum_clone, datum_view, lemma_before_is_total_order, row_view, Datum, DatumView,
    RowView, Scalar, ScalarView,
};
use crate::define::{
    define_verdicts, define_views, known, lemma_more_answers_refine, more_answers, Answers,
    CompiledDefine, DefineMatcher, Matching,
};
use crate::emission::{rows_ok, spans_within};
use crate::eval::{EvalRequest, Evaluations, Request};
use crate::incremental::{within_rows, IncrementalMatcher};
use crate::matcher::CandidateMatcher;
use crate::measure::{
    answered, build_match_row, lemma_match_row_refines, match_row, measure_slots_fit,
    measure_views, CompiledMeasure, MatchRows, MeasureView,
};
use crate::names::names_clone;
use crate::nfa::{spans, LabeledMatch, Nfa};
use crate::pattern::{Outcome, Pattern, Verdicts};
use crate::refine::{lemma_alive_refines, lemma_extendable_refines};
use crate::refresh::{distinct, lemma_refreshed_rows, refresh_matcher, refreshed};
use crate::scan::{
    alive, extendable, first_stop, lemma_first_stop, lemma_scan_bounds, scan, stops, ways, window,
    Goal, Span,
};
use crate::settled::dead;
use crate::skip::{degradation, lemma_resume_advances, resume, SkipDegradation, SkipMode, SkipView};
use vstd::prelude::*;

verus! {

/// The first row from `i` on that is not safe at watermark `w`.
pub open spec fn safe_prefix(rows: Seq<BufferView>, w: ScalarView, i: int) -> int
    decreases rows.len() - i,
{
    if i < 0 || i >= rows.len() {
        i
    } else {
        match rows[i].order_key {
            Some(k) => if before(k, w) {
                safe_prefix(rows, w, i + 1)
            } else {
                i
            },
            None => i,
        }
    }
}

/// How many of the first rows are safe at watermark `w`.
pub fn safe_len(rows: &Vec<BufferedRow>, w: &Scalar) -> (r: usize)
    ensures
        r == safe_prefix(buffer_view(rows@), w@, 0),
        r <= rows@.len(),
{
    let ghost v = buffer_view(rows@);
    let mut i: usize = 0;
    while i < rows.len()
        invariant
            i <= rows@.len(),
            v == buffer_view(rows@),
            safe_prefix(v, w@, 0) == safe_prefix(v, w@, i as int),
        decreases rows@.len() - i,
    {
        assert(v[i as int] == rows@[i as int]@);
        match &rows[i].order_key {
            Some(k) => {
                if !k.less(w) {
                    return i;
                }
            },
            None => {
                return i;
            },
        }
        i = i + 1;
    }
    i
}

/// A pass over a partition at watermark `w`. `deadline` is the number of the expression that gives
/// the end of a row's time bound.
pub struct Pass {
    pub matching: Matching,
    pub answers: Answers,
    pub pattern: Pattern,
    pub skip: SkipView,
    pub w: ScalarView,
    pub deadline: Option<usize>,
}

impl Pass {
    pub open spec fn verdicts(self) -> Verdicts {
        define_verdicts(self.matching, self.answers)
    }

    /// The end of the time bound of a match that starts at row `i`.
    pub open spec fn deadline_of(self, expr: usize, i: int) -> Result<DatumView, Request> {
        answered(self.answers, Request { expr, args: seq![self.matching.rows[i].order_key] })
    }

    /// Whether the time bound of a match that starts at row `i` has passed. One that is NULL has
    /// not.
    pub open spec fn expired(self, i: int) -> Result<bool, Request> {
        match self.deadline {
            None => Ok(false),
            Some(e) => match self.deadline_of(e, i) {
                Err(q) => Err(q),
                Ok(Some(d)) => Ok(before(d, self.w)),
                Ok(None) => Ok(false),
            },
        }
    }

    /// Whether a match is held back: no safe row follows it, its time bound has not passed, and it
    /// can still be extended.
    pub open spec fn held(self, m: Span) -> Result<bool, Request> {
        if m.end() < self.matching.safe_len {
            Ok(false)
        } else {
            match self.expired(m.start) {
                Err(q) => Err(q),
                Ok(true) => Ok(false),
                Ok(false) => extendable(self.pattern, self.verdicts(), m.start, m.end()),
            }
        }
    }

    /// The matches from index `i` on that are final, up to the first that is held back, and where
    /// the scan resumes after them.
    pub open spec fn finals(self, found: Seq<Span>, i: int, cursor: int) -> Result<
        (Seq<Span>, int),
        Request,
    >
        decreases found.len() - i,
    {
        if i < 0 || i >= found.len() {
            Ok((Seq::empty(), cursor))
        } else if found[i].start < cursor {
            self.finals(found, i + 1, cursor)
        } else {
            match self.held(found[i]) {
                Err(q) => Err(q),
                Ok(true) => Ok((Seq::empty(), cursor)),
                Ok(false) => match self.finals(
                    found,
                    i + 1,
                    resume(self.skip, found[i].start, found[i].labels),
                ) {
                    Err(q) => Err(q),
                    Ok((l, c)) => Ok((seq![found[i]] + l, c)),
                },
            }
        }
    }

    /// The first row from `p` on that can still begin a match: its time bound has not passed, and
    /// some way to match from it reaches the last safe row.
    pub open spec fn retained(self, p: int) -> Result<int, Request>
        decreases self.matching.safe_len - p,
    {
        if p >= self.matching.safe_len {
            Ok(self.matching.safe_len)
        } else {
            match self.expired(p) {
                Err(q) => Err(q),
                Ok(true) => self.retained(p + 1),
                Ok(false) => match alive(
                    self.pattern,
                    self.verdicts(),
                    p,
                    self.matching.safe_len,
                ) {
                    Err(q) => Err(q),
                    Ok(true) => Ok(p),
                    Ok(false) => self.retained(p + 1),
                },
            }
        }
    }

    /// The order key of the first row from `i` on that is not safe.
    pub open spec fn row_wakeup(self, i: int) -> DatumView
        decreases self.matching.rows.len() - i,
    {
        if i < 0 || i >= self.matching.rows.len() {
            None
        } else {
            match self.matching.rows[i].order_key {
                Some(k) => if before(k, self.w) {
                    self.row_wakeup(i + 1)
                } else {
                    Some(k)
                },
                None => self.row_wakeup(i + 1),
            }
        }
    }

    /// The end of the time bound of row `i`, where it is safe.
    pub open spec fn within_wakeup(self, i: int) -> Result<DatumView, Request> {
        match self.deadline {
            None => Ok(None),
            Some(e) => if i < self.matching.rows.len() {
                match self.matching.rows[i].order_key {
                    Some(k) => if before(k, self.w) {
                        self.deadline_of(e, i)
                    } else {
                        Ok(None)
                    },
                    None => Ok(None),
                }
            } else {
                Ok(None)
            },
        }
    }

    /// When the partition needs attention next, where the rows from `i` on are left.
    pub open spec fn next_wakeup(self, i: int) -> Result<DatumView, Request> {
        match self.within_wakeup(i) {
            Err(q) => Err(q),
            Ok(b) => Ok(earlier(self.row_wakeup(i), b)),
        }
    }
}

/// The earlier of two wakeups.
pub open spec fn earlier(a: DatumView, b: DatumView) -> DatumView {
    match (a, b) {
        (Some(x), Some(y)) => if before(y, x) {
            Some(y)
        } else {
            Some(x)
        },
        (Some(x), None) => Some(x),
        (None, y) => y,
    }
}

/// What a watermark decides for a partition.
pub struct Visit {
    /// The matches that are final.
    pub finals: Vec<LabeledMatch>,
    /// The output rows of the final matches, where they are told at the watermark.
    pub out_rows: Vec<Vec<Datum>>,
    /// Why skips after the final matches could not be honored.
    pub degradations: Vec<SkipDegradation>,
    /// The rows before this one are evicted.
    pub retain_from: usize,
    /// When the partition needs attention next.
    pub next_wakeup: Option<Scalar>,
}

/// The model of a list of rows.
pub open spec fn rows_view(l: Seq<Vec<Datum>>) -> Seq<RowView> {
    l.map_values(|r: Vec<Datum>| row_view(r@))
}

/// The output rows of the matches from index `i` on.
pub open spec fn match_rows(
    rows: Seq<BufferView>,
    measures: Seq<MeasureView>,
    key: RowView,
    answers: Answers,
    l: Seq<Span>,
    i: int,
) -> Result<Seq<RowView>, Request>
    decreases l.len() - i,
{
    if i < 0 || i >= l.len() {
        Ok(Seq::empty())
    } else {
        match match_row(
            MatchRows { rows, start: l[i].start, labels: l[i].labels },
            measures,
            key,
            answers,
        ) {
            Err(q) => Err(q),
            Ok(row) => match match_rows(rows, measures, key, answers, l, i + 1) {
                Err(q) => Err(q),
                Ok(rest) => Ok(seq![row] + rest),
            },
        }
    }
}

/// Why skips after the matches from index `i` on could not be honored.
pub open spec fn degraded(skip: SkipView, l: Seq<Span>, i: int) -> Seq<SkipDegradation>
    decreases l.len() - i,
{
    if i < 0 || i >= l.len() {
        Seq::empty()
    } else {
        match degradation(skip, l[i].labels) {
            Some(d) => seq![d] + degraded(skip, l, i + 1),
            None => degraded(skip, l, i + 1),
        }
    }
}

/// The configuration of a pass.
pub struct PassConfig<'a> {
    pub nfa: &'a Nfa,
    pub skip: &'a SkipMode,
    pub defines: &'a Vec<CompiledDefine>,
    pub within: Option<usize>,
    pub within_deadline: Option<usize>,
    pub evals: &'a Evaluations,
}

impl<'a> PassConfig<'a> {
    /// The pass over the given rows.
    pub open spec fn pass(&self, rows: Seq<BufferView>, safe: int, w: ScalarView) -> Pass {
        Pass {
            matching: Matching {
                rows,
                safe_len: safe,
                defines: define_views(self.defines@),
                within: self.within,
            },
            answers: known(*self.evals),
            pattern: self.nfa.pattern(),
            skip: self.skip@,
            w,
            deadline: self.within_deadline,
        }
    }

    /// The end of the time bound of a match that starts at row `i`.
    fn deadline_at(&self, expr: usize, rows: &Vec<BufferedRow>, i: usize) -> (r: Result<
        Datum,
        EvalRequest,
    >)
        requires
            i < rows@.len(),
        ensures
            match answered(
                known(*self.evals),
                Request { expr, args: seq![buffer_view(rows@)[i as int].order_key] },
            ) {
                Ok(d) => r is Ok && datum_view(r->Ok_0) == d,
                Err(q) => r is Err && r->Err_0@ == q,
            },
    {
        let mut args: Vec<Datum> = Vec::new();
        args.push(datum_clone(&rows[i].order_key));
        assert(row_view(args@) =~= seq![buffer_view(rows@)[i as int].order_key]);
        self.evals.get(expr, args)
    }

    /// Whether the time bound of a match that starts at row `i` has passed.
    fn is_expired(&self, rows: &Vec<BufferedRow>, w: &Scalar, i: usize) -> (r: Result<
        bool,
        EvalRequest,
    >)
        requires
            i < rows@.len(),
        ensures
            forall|safe: int|
                match (#[trigger] self.pass(buffer_view(rows@), safe, w@)).expired(i as int) {
                    Ok(b) => r == Ok::<bool, EvalRequest>(b),
                    Err(q) => r is Err && r->Err_0@ == q,
                },
    {
        match self.within_deadline {
            None => Ok(false),
            Some(e) => match self.deadline_at(e, rows, i) {
                Err(q) => Err(q),
                Ok(Some(d)) => Ok(d.less(w)),
                Ok(None) => Ok(false),
            },
        }
    }

    /// Whether a match is held back.
    fn is_held(
        &self,
        rows: &Vec<BufferedRow>,
        w: &Scalar,
        matcher: &DefineMatcher<'_>,
        m: &LabeledMatch,
    ) -> (r: Result<bool, EvalRequest>)
        requires
            m.wf(),
            m.start < m.end <= matcher.rows(),
            matcher.rows() <= rows@.len(),
            matcher.matching() == self.pass(
                buffer_view(rows@),
                matcher.rows() as int,
                w@,
            ).matching,
            matcher.answers() == known(*self.evals),
        ensures
            match self.pass(buffer_view(rows@), matcher.rows() as int, w@).held(m@) {
                Ok(b) => r == Ok::<bool, EvalRequest>(b),
                Err(q) => r is Err && r->Err_0@ == q,
            },
    {
        let safe: usize = matcher.row_count();
        if m.end < safe {
            return Ok(false);
        }
        match self.is_expired(rows, w, m.start) {
            Err(q) => Err(q),
            Ok(true) => Ok(false),
            Ok(false) => self.nfa.may_extend(m.start, m.end, matcher),
        }
    }

    /// The matches that are final, up to the first that is held back, and where the scan resumes
    /// after them.
    fn final_matches(
        &self,
        rows: &Vec<BufferedRow>,
        w: &Scalar,
        matcher: &DefineMatcher<'_>,
        found: &Vec<LabeledMatch>,
    ) -> (r: Result<(Vec<LabeledMatch>, usize), EvalRequest>)
        requires
            within_rows(found@, matcher.rows() as int),
            matcher.rows() <= rows@.len(),
            matcher.matching() == self.pass(
                buffer_view(rows@),
                matcher.rows() as int,
                w@,
            ).matching,
            matcher.answers() == known(*self.evals),
        ensures
            match self.pass(buffer_view(rows@), matcher.rows() as int, w@).finals(
                spans(found@),
                0,
                0,
            ) {
                Ok((l, c)) => r is Ok && spans((r->Ok_0).0@) == l && (r->Ok_0).1 == c && c
                    <= matcher.rows() && within_rows((r->Ok_0).0@, matcher.rows() as int),
                Err(q) => r is Err && r->Err_0@ == q,
            },
    {
        let ghost c = self.pass(buffer_view(rows@), matcher.rows() as int, w@);
        let ghost l = spans(found@);
        let mut out: Vec<LabeledMatch> = Vec::new();
        let mut cursor: usize = 0;
        let mut i: usize = 0;
        proof {
            assert(spans(out@) =~= Seq::empty());
            if let Ok((s, e)) = c.finals(l, 0, 0) {
                assert(spans(out@) + s =~= s);
            }
        }
        while i < found.len()
            invariant_except_break
                c.finals(l, 0, 0) == joined(
                    spans(out@),
                    c.finals(l, i as int, cursor as int),
                ),
            invariant
                i <= found@.len(),
                c == self.pass(buffer_view(rows@), matcher.rows() as int, w@),
                l == spans(found@),
                within_rows(found@, matcher.rows() as int),
                within_rows(out@, matcher.rows() as int),
                matcher.rows() <= rows@.len(),
                matcher.matching() == c.matching,
                matcher.answers() == known(*self.evals),
                cursor <= matcher.rows(),
            ensures
                c.finals(l, 0, 0) == Ok::<(Seq<Span>, int), Request>(
                    (spans(out@), cursor as int),
                ),
            decreases found@.len() - i,
        {
            let m = &found[i];
            assert(l[i as int] == m@);
            assert(m.wf() && m.start < m.end && m.end <= matcher.rows());
            if m.start >= cursor {
                match self.is_held(rows, w, matcher, m) {
                    Err(q) => {
                        return Err(q);
                    },
                    Ok(true) => {
                        assert(spans(out@) + Seq::empty() =~= spans(out@));
                        break;
                    },
                    Ok(false) => {},
                }
                let (next, _) = self.skip.next_pos(m.start, m.end, m.labels.as_slice());
                let ghost prior = out@;
                let copy = LabeledMatch {
                    start: m.start,
                    end: m.end,
                    labels: names_clone(m.labels.as_slice()),
                };
                out.push(copy);
                proof {
                    assert(spans(out@) =~= spans(prior).push(m@));
                    if let Ok((s, e)) = c.finals(l, i + 1, next as int) {
                        assert(spans(prior) + (seq![m@] + s) =~= spans(out@) + s);
                    }
                }
                cursor = next;
            }
            i = i + 1;
            proof {
                if i == found@.len() {
                    assert(spans(out@) + Seq::empty() =~= spans(out@));
                }
            }
        }
        Ok((out, cursor))
    }

    /// Why skips after the matches could not be honored.
    fn degradations(&self, l: &Vec<LabeledMatch>) -> (r: Vec<SkipDegradation>)
        requires
            forall|i: int| 0 <= i < l@.len() ==> (#[trigger] l@[i]).wf() && l@[i].start < l@[i].end,
        ensures
            r@ == degraded(self.skip@, spans(l@), 0),
    {
        let ghost s = spans(l@);
        let mut r: Vec<SkipDegradation> = Vec::new();
        let mut i: usize = 0;
        assert(r@ + degraded(self.skip@, s, 0) =~= degraded(self.skip@, s, 0));
        while i < l.len()
            invariant
                i <= l@.len(),
                s == spans(l@),
                forall|j: int|
                    0 <= j < l@.len() ==> (#[trigger] l@[j]).wf() && l@[j].start < l@[j].end,
                degraded(self.skip@, s, 0) == r@ + degraded(self.skip@, s, i as int),
            decreases l@.len() - i,
        {
            let m = &l[i];
            assert(s[i as int] == m@);
            let (_, d) = self.skip.next_pos(m.start, m.end, m.labels.as_slice());
            if let Some(d) = d {
                let ghost prior = r@;
                r.push(d);
                assert(prior + (seq![d] + degraded(self.skip@, s, i + 1)) =~= r@ + degraded(
                    self.skip@,
                    s,
                    i + 1,
                ));
            }
            i = i + 1;
        }
        assert(r@ + Seq::empty() =~= r@);
        r
    }

    /// The first row from `cursor` on that can still begin a match.
    fn retain_from(
        &self,
        rows: &Vec<BufferedRow>,
        w: &Scalar,
        matcher: &DefineMatcher<'_>,
        cursor: usize,
    ) -> (r: Result<usize, EvalRequest>)
        requires
            cursor <= matcher.rows(),
            matcher.rows() <= rows@.len(),
            matcher.matching() == self.pass(
                buffer_view(rows@),
                matcher.rows() as int,
                w@,
            ).matching,
            matcher.answers() == known(*self.evals),
        ensures
            match self.pass(buffer_view(rows@), matcher.rows() as int, w@).retained(
                cursor as int,
            ) {
                Ok(p) => r is Ok && r->Ok_0 == p && cursor <= p <= matcher.rows(),
                Err(q) => r is Err && r->Err_0@ == q,
            },
    {
        let ghost c = self.pass(buffer_view(rows@), matcher.rows() as int, w@);
        let safe: usize = matcher.row_count();
        let mut p: usize = cursor;
        while p < safe
            invariant
                cursor <= p <= safe,
                safe == matcher.rows(),
                c == self.pass(buffer_view(rows@), matcher.rows() as int, w@),
                matcher.rows() <= rows@.len(),
                matcher.matching() == c.matching,
                matcher.answers() == known(*self.evals),
                c.retained(cursor as int) == c.retained(p as int),
            decreases safe - p,
        {
            match self.is_expired(rows, w, p) {
                Err(q) => {
                    return Err(q);
                },
                Ok(true) => {},
                Ok(false) => {
                    match self.nfa.reaches_boundary_alive(p, safe, matcher) {
                        Err(q) => {
                            return Err(q);
                        },
                        Ok(true) => {
                            return Ok(p);
                        },
                        Ok(false) => {},
                    }
                },
            }
            p = p + 1;
        }
        Ok(safe)
    }

    /// The order key of the first row from `from` on that is not safe.
    fn first_unsafe(&self, rows: &Vec<BufferedRow>, w: &Scalar, from: usize) -> (r: Option<Scalar>)
        requires
            from <= rows@.len(),
        ensures
            forall|safe: int|
                datum_view(r) == (#[trigger] self.pass(
                    buffer_view(rows@),
                    safe,
                    w@,
                )).row_wakeup(from as int),
    {
        let ghost v = buffer_view(rows@);
        let mut i: usize = from;
        while i < rows.len()
            invariant
                from <= i <= rows@.len(),
                v == buffer_view(rows@),
                forall|safe: int|
                    (#[trigger] self.pass(v, safe, w@)).row_wakeup(from as int) == self.pass(
                        v,
                        safe,
                        w@,
                    ).row_wakeup(i as int),
            decreases rows@.len() - i,
        {
            assert(v[i as int] == rows@[i as int]@);
            if let Some(k) = &rows[i].order_key {
                if !k.less(w) {
                    return Some(k.clone());
                }
            }
            i = i + 1;
        }
        None
    }

    /// When the partition needs attention next, where the rows from `from` on are left.
    fn wakeup(&self, rows: &Vec<BufferedRow>, w: &Scalar, from: usize) -> (r: Result<
        Option<Scalar>,
        EvalRequest,
    >)
        requires
            from <= rows@.len(),
        ensures
            forall|safe: int|
                match (#[trigger] self.pass(buffer_view(rows@), safe, w@)).next_wakeup(
                    from as int,
                ) {
                    Ok(d) => r is Ok && datum_view(r->Ok_0) == d,
                    Err(q) => r is Err && r->Err_0@ == q,
                },
    {
        let ghost v = buffer_view(rows@);
        let row_wakeup = self.first_unsafe(rows, w, from);
        let mut within_wakeup: Datum = None;
        if let Some(e) = self.within_deadline {
            if from < rows.len() {
                assert(v[from as int] == rows@[from as int]@);
                if let Some(k) = &rows[from].order_key {
                    if k.less(w) {
                        match self.deadline_at(e, rows, from) {
                            Err(q) => {
                                return Err(q);
                            },
                            Ok(d) => {
                                within_wakeup = d;
                            },
                        }
                    }
                }
            }
        }
        assert forall|safe: int|
            (#[trigger] self.pass(v, safe, w@)).within_wakeup(from as int) == Ok::<
                DatumView,
                Request,
            >(datum_view(within_wakeup)) by {
            let _ = self.pass(v, safe, w@).row_wakeup(from as int);
        }
        let r = match (row_wakeup, within_wakeup) {
            (Some(a), Some(b)) => {
                if b.less(&a) {
                    Some(b)
                } else {
                    Some(a)
                }
            },
            (Some(a), None) => Some(a),
            (None, b) => b,
        };
        Ok(r)
    }
}

/// `head`, followed by the matches that `rest` holds.
spec fn joined(head: Seq<Span>, rest: Result<(Seq<Span>, int), Request>) -> Result<
    (Seq<Span>, int),
    Request,
> {
    match rest {
        Ok((l, c)) => Ok((head + l, c)),
        Err(q) => Err(q),
    }
}

/// `head`, followed by the rows that `rest` holds.
spec fn rows_after(head: Seq<RowView>, rest: Result<Seq<RowView>, Request>) -> Result<
    Seq<RowView>,
    Request,
> {
    match rest {
        Ok(l) => Ok(head + l),
        Err(q) => Err(q),
    }
}

/// The output rows of matches.
fn final_rows(
    l: &Vec<LabeledMatch>,
    rows: &Vec<BufferedRow>,
    measures: &Vec<CompiledMeasure>,
    key: &Vec<Datum>,
    evals: &Evaluations,
) -> (r: Result<Vec<Vec<Datum>>, EvalRequest>)
    requires
        within_rows(l@, rows@.len() as int),
        measure_slots_fit(buffer_view(rows@), measure_views(measures@)),
        rows@.len() <= i64::MAX,
    ensures
        match match_rows(
            buffer_view(rows@),
            measure_views(measures@),
            row_view(key@),
            known(*evals),
            spans(l@),
            0,
        ) {
            Ok(out) => r is Ok && rows_view(r->Ok_0@) == out,
            Err(q) => r is Err && r->Err_0@ == q,
        },
{
    let ghost bv = buffer_view(rows@);
    let ghost mv = measure_views(measures@);
    let ghost kv = row_view(key@);
    let ghost answers = known(*evals);
    let ghost s = spans(l@);
    let mut out: Vec<Vec<Datum>> = Vec::new();
    let mut i: usize = 0;
    proof {
        assert(rows_view(out@) =~= Seq::empty());
        if let Ok(all) = match_rows(bv, mv, kv, answers, s, 0) {
            assert(rows_view(out@) + all =~= all);
        }
    }
    while i < l.len()
        invariant
            i <= l@.len(),
            bv == buffer_view(rows@),
            mv == measure_views(measures@),
            kv == row_view(key@),
            answers == known(*evals),
            s == spans(l@),
            within_rows(l@, rows@.len() as int),
            measure_slots_fit(bv, mv),
            rows@.len() <= i64::MAX,
            match_rows(bv, mv, kv, answers, s, 0) == rows_after(
                rows_view(out@),
                match_rows(bv, mv, kv, answers, s, i as int),
            ),
        decreases l@.len() - i,
    {
        let m = &l[i];
        assert(s[i as int] == m@);
        assert(m.wf() && m.start < m.end && m.end <= rows@.len());
        match build_match_row(measures, rows, key, m.start, m.labels.as_slice(), evals) {
            Err(q) => {
                return Err(q);
            },
            Ok(row) => {
                let ghost prior = out@;
                let ghost rv = row_view(row@);
                out.push(row);
                proof {
                    assert(rows_view(out@) =~= rows_view(prior).push(rv));
                    if let Ok(rest) = match_rows(bv, mv, kv, answers, s, i + 1) {
                        assert(rows_view(prior) + (seq![rv] + rest) =~= rows_view(out@) + rest);
                    }
                }
            },
        }
        i = i + 1;
    }
    assert(rows_view(out@) + Seq::empty() =~= rows_view(out@));
    Ok(out)
}

/// What a watermark decides for a partition whose matcher holds the matches `found`.
pub struct VisitView {
    pub finals: Seq<Span>,
    pub out_rows: Seq<RowView>,
    pub degradations: Seq<SkipDegradation>,
    pub retain_from: int,
    pub next_wakeup: DatumView,
}

impl View for Visit {
    type V = VisitView;

    open spec fn view(&self) -> VisitView {
        VisitView {
            finals: spans(self.finals@),
            out_rows: rows_view(self.out_rows@),
            degradations: self.degradations@,
            retain_from: self.retain_from as int,
            next_wakeup: datum_view(self.next_wakeup),
        }
    }
}

/// What a pass decides for a partition whose matcher holds the matches `found`. The output rows of
/// final matches are made where `tell` says that they are told at the watermark.
pub open spec fn decided(
    c: Pass,
    found: Seq<Span>,
    measures: Seq<MeasureView>,
    key: RowView,
    tell: bool,
) -> Result<VisitView, Request> {
    match c.finals(found, 0, 0) {
        Err(q) => Err(q),
        Ok((finals, cursor)) => match match_rows(
            c.matching.rows,
            measures,
            key,
            c.answers,
            if tell {
                finals
            } else {
                Seq::empty()
            },
            0,
        ) {
            Err(q) => Err(q),
            Ok(out_rows) => match c.retained(cursor) {
                Err(q) => Err(q),
                Ok(retain_from) => match c.next_wakeup(retain_from) {
                    Err(q) => Err(q),
                    Ok(next_wakeup) => Ok(
                        VisitView {
                            finals,
                            out_rows,
                            degradations: degraded(c.skip, finals, 0),
                            retain_from,
                            next_wakeup,
                        },
                    ),
                },
            },
        },
    }
}

/// Visit a partition at watermark `w`: align its matcher with the safe rows, and decide which
/// matches are final, which rows are evicted, and when the partition needs attention next. A visit
/// that stops for a missing answer decides nothing and changes nothing.
pub fn visit_partition(
    config: &PassConfig<'_>,
    inc: &mut IncrementalMatcher,
    key: &Vec<Datum>,
    rows: &Vec<BufferedRow>,
    w: &Scalar,
    measures: &Vec<CompiledMeasure>,
    tell: bool,
) -> (r: Result<Visit, EvalRequest>)
    requires
        old(inc).wf(),
        distinct(old(inc)@.fed),
        old(inc).pattern() == config.nfa.pattern(),
        old(inc).skip() == config.skip@,
        rows_ok(buffer_view(rows@), define_views(config.defines@), measure_views(measures@)),
    ensures
        final(inc).wf(),
        final(inc).pattern() == old(inc).pattern(),
        final(inc).skip() == old(inc).skip(),
        ({
            let safe = safe_prefix(buffer_view(rows@), w@, 0);
            let c = config.pass(buffer_view(rows@), safe, w@);
            match refreshed(
                old(inc)@,
                old(inc).pattern(),
                c.verdicts(),
                old(inc).skip(),
                seqs(buffer_view(rows@)).take(safe),
            ) {
                Ok(g) => match decided(
                    c,
                    g.spans,
                    measure_views(measures@),
                    row_view(key@),
                    tell,
                ) {
                    Ok(d) => r is Ok && (r->Ok_0)@ == d && 0 <= d.retain_from <= safe
                        && within_rows((r->Ok_0).finals@, safe) && final(inc)@ == g,
                    Err(q) => r is Err && r->Err_0@ == q && final(inc)@ == old(inc)@,
                },
                Err(q) => r is Err && r->Err_0@ == q && final(inc)@ == old(inc)@,
            }
        }),
{
    let safe: usize = safe_len(rows, w);
    let ghost c = config.pass(buffer_view(rows@), safe as int, w@);
    let matcher = DefineMatcher::new(rows, safe, config.defines, config.within, config.evals);
    proof {
        assert forall|i: int| 0 <= i < safe implies (#[trigger] rows@[i]).seq < i64::MAX by {
            assert(buffer_view(rows@)[i].seq < i64::MAX);
        }
    }
    let mut next = inc.clone();
    match refresh_matcher(&mut next, rows, safe, &matcher) {
        Ok(()) => {},
        Err(q) => {
            return Err(q);
        },
    }
    proof {
        lemma_refreshed_rows(
            old(inc)@,
            old(inc).pattern(),
            c.verdicts(),
            old(inc).skip(),
            seqs(buffer_view(rows@)).take(safe as int),
        );
    }
    let found = next.labeled();
    let (finals, cursor) = match config.final_matches(rows, w, &matcher, &found) {
        Ok(f) => f,
        Err(q) => {
            return Err(q);
        },
    };
    let none: Vec<LabeledMatch> = Vec::new();
    assert(spans(none@) =~= Seq::empty());
    let told: &Vec<LabeledMatch> = if tell {
        &finals
    } else {
        &none
    };
    let out_rows = match final_rows(told, rows, measures, key, config.evals) {
        Ok(l) => l,
        Err(q) => {
            return Err(q);
        },
    };
    let retain_from: usize = match config.retain_from(rows, w, &matcher, cursor) {
        Ok(p) => p,
        Err(q) => {
            return Err(q);
        },
    };
    let next_wakeup = match config.wakeup(rows, w, retain_from) {
        Ok(k) => k,
        Err(q) => {
            return Err(q);
        },
    };
    let degradations = config.degradations(&finals);
    *inc = next;
    Ok(Visit { finals, out_rows, degradations, retain_from, next_wakeup })
}

/// The final matches are the first ones, up to the first that is held back, and the scan resumes
/// after the last of them.
pub proof fn lemma_finals(c: Pass, found: Seq<Span>, i: int, cursor: int) -> (k: int)
    requires
        0 <= i <= found.len(),
        scan(c.pattern, c.verdicts(), c.skip, c.matching.safe_len, 0) == Ok::<Seq<Span>, Request>(
            found,
        ),
        forall|j: int| i <= j < found.len() ==> cursor <= (#[trigger] found[j]).start,
        c.finals(found, i, cursor) is Ok,
    ensures
        i <= k <= found.len(),
        (c.finals(found, i, cursor)->Ok_0).0 == found.subrange(i, k),
        cursor <= (c.finals(found, i, cursor)->Ok_0).1,
        forall|j: int|
            i <= j < k ==> (#[trigger] found[j]).start < (c.finals(found, i, cursor)->Ok_0).1,
        forall|j: int|
            k <= j < found.len() ==> (c.finals(found, i, cursor)->Ok_0).1 <= (
            #[trigger] found[j]).start,
        forall|j: int| i <= j < k ==> c.held(#[trigger] found[j]) == Ok::<bool, Request>(false),
        k < found.len() ==> c.held(found[k]) == Ok::<bool, Request>(true),
        (c.finals(found, i, cursor)->Ok_0).1 == if k == i {
            cursor
        } else {
            resume(c.skip, found[k - 1].start, found[k - 1].labels)
        },
    decreases found.len() - i,
{
    lemma_scan_bounds(c.pattern, c.verdicts(), c.skip, c.matching.safe_len, 0);
    let f = scan(c.pattern, c.verdicts(), c.skip, c.matching.safe_len, 0)->Ok_0;
    if i >= found.len() {
        assert(found.subrange(i, i) =~= Seq::empty());
        i
    } else if c.held(found[i]) == Ok::<bool, Request>(true) {
        assert(found.subrange(i, i) =~= Seq::empty());
        i
    } else {
        let next = resume(c.skip, found[i].start, found[i].labels);
        assert(f[i].start < f[i].end());
        lemma_resume_advances(c.skip, found[i].start, found[i].labels);
        assert forall|j: int| i + 1 <= j < found.len() implies next <= (
        #[trigger] found[j]).start by {
            assert(resume(c.skip, f[i].start, f[i].labels) <= f[j].start);
        }
        let k = lemma_finals(c, found, i + 1, next);
        assert(seq![found[i]] + found.subrange(i + 1, k) =~= found.subrange(i, k));
        k
    }
}

/// A match that is held back is alive.
pub proof fn lemma_held_is_alive(c: Pass, m: Span)
    requires
        m.end() <= c.matching.safe_len,
        c.held(m) == Ok::<bool, Request>(true),
    ensures
        m.end() == c.matching.safe_len,
        c.expired(m.start) == Ok::<bool, Request>(false),
        alive(c.pattern, c.verdicts(), m.start, c.matching.safe_len) == Ok::<bool, Request>(true),
{
    let t = ways(c.pattern, c.verdicts(), m.start, m.end());
    let wd = window(c.verdicts(), m.start, m.end());
    let k = lemma_first_stop(t, Goal::Decide, wd);
    assert(first_stop(t, Goal::Decide, wd) == Some(Outcome::Wants));
    if k > 0 {
        assert(!stops(Goal::Decide, wd, t[0]));
    }
    assert(t[0] is Wants);
}

proof fn lemma_retained_at_most(c: Pass, p: int, at: int)
    requires
        p <= at < c.matching.safe_len,
        c.expired(at) == Ok::<bool, Request>(false),
        alive(c.pattern, c.verdicts(), at, c.matching.safe_len) == Ok::<bool, Request>(true),
        c.retained(p) is Ok,
    ensures
        c.retained(p)->Ok_0 <= at,
    decreases at - p,
{
    if p < at {
        if c.expired(p) == Ok::<bool, Request>(true) || alive(
            c.pattern,
            c.verdicts(),
            p,
            c.matching.safe_len,
        ) == Ok::<bool, Request>(false) {
            lemma_retained_at_most(c, p + 1, at);
        }
    }
}

proof fn lemma_retained_bounds(c: Pass, p: int)
    requires
        c.retained(p) is Ok,
        p <= c.matching.safe_len,
    ensures
        p <= c.retained(p)->Ok_0 <= c.matching.safe_len,
        forall|x: int|
            p <= x < c.retained(p)->Ok_0 ==> #[trigger] c.expired(x) == Ok::<bool, Request>(true)
                || dead(c.pattern, c.verdicts(), x, c.matching.safe_len),
    decreases c.matching.safe_len - p,
{
    if p < c.matching.safe_len {
        if c.expired(p) == Ok::<bool, Request>(true) || dead(
            c.pattern,
            c.verdicts(),
            p,
            c.matching.safe_len,
        ) {
            lemma_retained_bounds(c, p + 1);
        }
    }
}

/// No match is lost and none is told twice: the rows of a match that is held back, and of every
/// match after it, are kept, and the first row of every match that is final is evicted.
pub proof fn lemma_no_match_lost_or_repeated(
    c: Pass,
    found: Seq<Span>,
    measures: Seq<MeasureView>,
    key: RowView,
    tell: bool,
)
    requires
        scan(c.pattern, c.verdicts(), c.skip, c.matching.safe_len, 0) == Ok::<Seq<Span>, Request>(
            found,
        ),
        decided(c, found, measures, key, tell) is Ok,
        0 <= c.matching.safe_len,
    ensures
        ({
            let d = decided(c, found, measures, key, tell)->Ok_0;
            &&& forall|i: int|
                0 <= i < found.len() ==> d.finals.contains(#[trigger] found[i]) || d.retain_from
                    <= found[i].start
            &&& forall|i: int|
                0 <= i < d.finals.len() ==> (#[trigger] d.finals[i]).start < d.retain_from
        }),
{
    let d = decided(c, found, measures, key, tell)->Ok_0;
    let cursor = (c.finals(found, 0, 0)->Ok_0).1;
    lemma_scan_bounds(c.pattern, c.verdicts(), c.skip, c.matching.safe_len, 0);
    let f = scan(c.pattern, c.verdicts(), c.skip, c.matching.safe_len, 0)->Ok_0;
    assert forall|j: int| 0 <= j < found.len() implies 0 <= (#[trigger] found[j]).start by {
        assert(0 <= f[j].start);
    }
    let k = lemma_finals(c, found, 0, 0);
    assert(spans_within(found, c.matching.safe_len)) by {
        assert forall|j: int| 0 <= j < found.len() implies 0 <= (#[trigger] found[j]).start
            < found[j].end() <= c.matching.safe_len by {
            assert(f[j].start < f[j].end());
        }
    }
    lemma_finals_cursor(c, found, 0, 0);
    lemma_retained_bounds(c, cursor);
    if k < found.len() {
        assert(f[k].start < f[k].end() <= c.matching.safe_len);
        lemma_held_is_alive(c, found[k]);
        lemma_retained_at_most(c, cursor, found[k].start);
    }
    assert forall|i: int| 0 <= i < found.len() implies d.finals.contains(#[trigger] found[i])
        || d.retain_from <= found[i].start by {
        if i < k {
            assert(d.finals[i] == found[i]);
        } else if i > k {
            assert(f[k].start < f[i].start);
        }
    }
    assert forall|i: int| 0 <= i < d.finals.len() implies (#[trigger] d.finals[i]).start
        < d.retain_from by {
        assert(d.finals[i] == found[i]);
    }
}

/// The scan resumes within the safe rows.
proof fn lemma_finals_cursor(c: Pass, found: Seq<Span>, i: int, cursor: int)
    requires
        0 <= cursor <= c.matching.safe_len,
        spans_within(found, c.matching.safe_len),
        c.finals(found, i, cursor) is Ok,
    ensures
        0 <= (c.finals(found, i, cursor)->Ok_0).1 <= c.matching.safe_len,
    decreases found.len() - i,
{
    if 0 <= i < found.len() {
        if found[i].start < cursor {
            lemma_finals_cursor(c, found, i + 1, cursor);
        } else if c.held(found[i]) == Ok::<bool, Request>(false) {
            lemma_resume_advances(c.skip, found[i].start, found[i].labels);
            lemma_finals_cursor(
                c,
                found,
                i + 1,
                resume(c.skip, found[i].start, found[i].labels),
            );
        }
    }
}

/// The scan resumes within the safe rows after the final matches.
pub proof fn lemma_finals_in_rows(c: Pass, found: Seq<Span>)
    requires
        0 <= c.matching.safe_len,
        spans_within(found, c.matching.safe_len),
        c.finals(found, 0, 0) is Ok,
    ensures
        0 <= (c.finals(found, 0, 0)->Ok_0).1 <= c.matching.safe_len,
{
    lemma_finals_cursor(c, found, 0, 0);
}

/// Only safe rows are evicted, those before the row where the scan resumes after the final matches
/// among them.
pub proof fn lemma_only_safe_rows_are_evicted(
    c: Pass,
    found: Seq<Span>,
    measures: Seq<MeasureView>,
    key: RowView,
    tell: bool,
)
    requires
        decided(c, found, measures, key, tell) is Ok,
        0 <= c.matching.safe_len,
        spans_within(found, c.matching.safe_len),
    ensures
        0 <= decided(c, found, measures, key, tell)->Ok_0.retain_from <= c.matching.safe_len,
        (c.finals(found, 0, 0)->Ok_0).1 <= decided(
            c,
            found,
            measures,
            key,
            tell,
        )->Ok_0.retain_from,
{
    lemma_finals_cursor(c, found, 0, 0);
    lemma_retained_bounds(c, (c.finals(found, 0, 0)->Ok_0).1);
}

/// A row behind the final matches is evicted only if its time bound has passed or if no way to
/// match from it reaches the last safe row.
pub proof fn lemma_evicted_rows_are_dead(
    c: Pass,
    found: Seq<Span>,
    measures: Seq<MeasureView>,
    key: RowView,
    tell: bool,
    x: int,
)
    requires
        decided(c, found, measures, key, tell) is Ok,
        (c.finals(found, 0, 0)->Ok_0).1 <= x < decided(
            c,
            found,
            measures,
            key,
            tell,
        )->Ok_0.retain_from,
        (c.finals(found, 0, 0)->Ok_0).1 <= c.matching.safe_len,
    ensures
        c.expired(x) == Ok::<bool, Request>(true) || dead(
            c.pattern,
            c.verdicts(),
            x,
            c.matching.safe_len,
        ),
{
    lemma_retained_bounds(c, (c.finals(found, 0, 0)->Ok_0).1);
}

/// The rows come by ascending order key.
pub open spec fn by_order_key(rows: Seq<BufferView>) -> bool {
    forall|i: int, j: int|
        0 <= i < j < rows.len() ==> (match (
            (#[trigger] rows[i]).order_key,
            (#[trigger] rows[j]).order_key,
        ) {
            (Some(a), Some(b)) => !before(b, a),
            _ => false,
        })
}

proof fn lemma_row_wakeup(c: Pass, i: int, x: int, k: ScalarView)
    requires
        0 <= i <= x < c.matching.rows.len(),
        by_order_key(c.matching.rows),
        c.matching.rows[x].order_key == Some(k),
        !before(k, c.w),
    ensures
        c.row_wakeup(i) matches Some(r) && !before(k, r) && !before(r, c.w),
    decreases x - i,
{
    lemma_before_is_total_order(k, k, k);
    if i < x {
        match c.matching.rows[i].order_key {
            Some(y) => {
                if before(y, c.w) {
                    lemma_row_wakeup(c, i + 1, x, k);
                } else {
                    match (c.matching.rows[i].order_key, c.matching.rows[x].order_key) {
                        (Some(a), Some(b)) => assert(!before(b, a)),
                        _ => {},
                    }
                }
            },
            None => lemma_row_wakeup(c, i + 1, x, k),
        }
    }
}

/// A partition with a row that is not safe yet is woken no later than for that row.
pub proof fn lemma_woken_for_every_row(c: Pass, i: int, x: int, k: ScalarView)
    requires
        0 <= i <= x < c.matching.rows.len(),
        by_order_key(c.matching.rows),
        c.matching.rows[x].order_key == Some(k),
        !before(k, c.w),
        c.next_wakeup(i) is Ok,
    ensures
        c.next_wakeup(i)->Ok_0 matches Some(r) && !before(k, r),
{
    lemma_row_wakeup(c, i, x, k);
    let a = c.row_wakeup(i)->Some_0;
    if let Some(b) = c.within_wakeup(i)->Ok_0 {
        lemma_before_is_total_order(k, b, a);
        lemma_before_is_total_order(b, a, k);
        lemma_before_is_total_order(k, a, b);
    }
}

/// A partition whose first row that is left is safe is woken no later than when the time bound of
/// that row has passed, and not before the watermark.
pub proof fn lemma_woken_for_expiry(c: Pass, i: int, k: ScalarView, d: ScalarView)
    requires
        0 <= i < c.matching.rows.len(),
        c.matching.rows[i].order_key == Some(k),
        before(k, c.w),
        c.deadline is Some,
        c.deadline_of(c.deadline->Some_0, i) == Ok::<DatumView, Request>(Some(d)),
    ensures
        c.next_wakeup(i) matches Ok(Some(r)) && !before(d, r),
{
    lemma_before_is_total_order(d, d, d);
    if let Some(a) = c.row_wakeup(i) {
        lemma_before_is_total_order(d, a, a);
    }
}

proof fn lemma_row_wakeup_not_early(c: Pass, i: int)
    ensures
        c.row_wakeup(i) matches Some(r) ==> !before(r, c.w),
    decreases c.matching.rows.len() - i,
{
    if 0 <= i < c.matching.rows.len() {
        lemma_row_wakeup_not_early(c, i + 1);
    }
}

/// A partition is never woken for a watermark that has passed: the next wakeup is at the watermark
/// or after it.
pub proof fn lemma_wakeup_not_in_the_past(c: Pass, cursor: int)
    requires
        c.retained(cursor) is Ok,
        0 <= cursor <= c.matching.safe_len,
        c.matching.safe_len == safe_prefix(c.matching.rows, c.w, 0),
        c.next_wakeup(c.retained(cursor)->Ok_0) is Ok,
    ensures
        c.next_wakeup(c.retained(cursor)->Ok_0)->Ok_0 matches Some(r) ==> !before(r, c.w),
{
    let p = c.retained(cursor)->Ok_0;
    lemma_row_wakeup_not_early(c, p);
    lemma_retained_bounds(c, cursor);
    lemma_safe_prefix(c.matching.rows, c.w, 0);
    if p < c.matching.safe_len {
        lemma_first_row_left_is_live(c, cursor);
    }
}

/// The first row that is left, where it is safe, can still begin a match: its time bound has not
/// passed, and some way to match from it reaches the last safe row.
pub proof fn lemma_first_row_left_is_live(c: Pass, p: int)
    requires
        c.retained(p) is Ok,
        c.retained(p)->Ok_0 < c.matching.safe_len,
    ensures
        c.expired(c.retained(p)->Ok_0) == Ok::<bool, Request>(false),
        alive(
            c.pattern,
            c.verdicts(),
            c.retained(p)->Ok_0,
            c.matching.safe_len,
        ) == Ok::<bool, Request>(true),
    decreases c.matching.safe_len - p,
{
    if p < c.matching.safe_len {
        if c.expired(p) == Ok::<bool, Request>(true) || alive(
            c.pattern,
            c.verdicts(),
            p,
            c.matching.safe_len,
        ) == Ok::<bool, Request>(false) {
            lemma_first_row_left_is_live(c, p + 1);
        }
    }
}

/// The safe rows have order keys before the watermark, and the row behind them has not.
pub proof fn lemma_safe_prefix(rows: Seq<BufferView>, w: ScalarView, i: int)
    requires
        0 <= i <= rows.len(),
    ensures
        i <= safe_prefix(rows, w, i) <= rows.len(),
        forall|j: int|
            i <= j < safe_prefix(rows, w, i) ==> ((#[trigger] rows[j]).order_key matches Some(k)
                && before(k, w)),
        safe_prefix(rows, w, i) < rows.len() ==> !(rows[safe_prefix(
            rows,
            w,
            i,
        )].order_key matches Some(k) && before(k, w)),
    decreases rows.len() - i,
{
    if i < rows.len() {
        if let Some(k) = rows[i].order_key {
            if before(k, w) {
                lemma_safe_prefix(rows, w, i + 1);
            }
        }
    }
}

/// The pass with other answers.
pub open spec fn with_answers(c: Pass, answers: Answers) -> Pass {
    Pass { answers, ..c }
}

proof fn lemma_finals_refine(c: Pass, b: Answers, found: Seq<Span>, i: int, cursor: int)
    requires
        more_answers(c.answers, b),
        spans_within(found, c.matching.safe_len),
        c.finals(found, i, cursor) is Ok,
    ensures
        with_answers(c, b).finals(found, i, cursor) == c.finals(found, i, cursor),
    decreases found.len() - i,
{
    if 0 <= i < found.len() {
        let m = found[i];
        if m.start < cursor {
            lemma_finals_refine(c, b, found, i + 1, cursor);
        } else {
            let d = with_answers(c, b);
            assert(m.end() <= c.matching.safe_len);
            lemma_more_answers_refine(c.matching, c.answers, b, m.end());
            if m.end() >= c.matching.safe_len && c.expired(m.start) == Ok::<bool, Request>(false) {
                lemma_extendable_refines(
                    c.pattern,
                    c.verdicts(),
                    d.verdicts(),
                    m.start,
                    m.end(),
                );
            }
            assert(d.held(m) == c.held(m));
            if c.held(m) == Ok::<bool, Request>(false) {
                lemma_finals_refine(c, b, found, i + 1, resume(c.skip, m.start, m.labels));
            }
        }
    }
}

proof fn lemma_retained_refines(c: Pass, b: Answers, p: int)
    requires
        more_answers(c.answers, b),
        c.retained(p) is Ok,
    ensures
        with_answers(c, b).retained(p) == c.retained(p),
    decreases c.matching.safe_len - p,
{
    if p < c.matching.safe_len {
        let n = c.matching.safe_len;
        let d = with_answers(c, b);
        if c.expired(p) == Ok::<bool, Request>(true) {
            lemma_retained_refines(c, b, p + 1);
        } else {
            lemma_more_answers_refine(c.matching, c.answers, b, n);
            lemma_alive_refines(c.pattern, c.verdicts(), d.verdicts(), p, n);
            if alive(c.pattern, c.verdicts(), p, n) == Ok::<bool, Request>(false) {
                lemma_retained_refines(c, b, p + 1);
            }
        }
    }
}

proof fn lemma_match_rows_refine(
    rows: Seq<BufferView>,
    measures: Seq<MeasureView>,
    key: RowView,
    a: Answers,
    b: Answers,
    l: Seq<Span>,
    i: int,
)
    requires
        more_answers(a, b),
        match_rows(rows, measures, key, a, l, i) is Ok,
    ensures
        match_rows(rows, measures, key, b, l, i) == match_rows(rows, measures, key, a, l, i),
    decreases l.len() - i,
{
    if 0 <= i < l.len() {
        let m = MatchRows { rows, start: l[i].start, labels: l[i].labels };
        lemma_match_row_refines(m, measures, key, a, b);
        lemma_match_rows_refine(rows, measures, key, a, b, l, i + 1);
    }
}

/// With more answers what a pass decides stays as it is.
pub proof fn lemma_decided_refines(
    c: Pass,
    b: Answers,
    found: Seq<Span>,
    measures: Seq<MeasureView>,
    key: RowView,
    tell: bool,
)
    requires
        more_answers(c.answers, b),
        spans_within(found, c.matching.safe_len),
        decided(c, found, measures, key, tell) is Ok,
    ensures
        decided(with_answers(c, b), found, measures, key, tell) == decided(
            c,
            found,
            measures,
            key,
            tell,
        ),
{
    let (finals, cursor) = c.finals(found, 0, 0)->Ok_0;
    let told = if tell {
        finals
    } else {
        Seq::empty()
    };
    let d = with_answers(c, b);
    lemma_finals_refine(c, b, found, 0, 0);
    lemma_match_rows_refine(c.matching.rows, measures, key, c.answers, b, told, 0);
    lemma_retained_refines(c, b, cursor);
    let p = c.retained(cursor)->Ok_0;
    lemma_row_wakeup_same(c, d, p);
}

proof fn lemma_row_wakeup_same(c: Pass, d: Pass, i: int)
    requires
        c.matching == d.matching,
        c.w == d.w,
    ensures
        c.row_wakeup(i) == d.row_wakeup(i),
    decreases c.matching.rows.len() - i,
{
    if 0 <= i < c.matching.rows.len() {
        lemma_row_wakeup_same(c, d, i + 1);
    }
}

/// When a match that starts at row `i` is out of its time bound: where there is a bound, its end is
/// known and not NULL, and the watermark has passed it.
pub proof fn lemma_when_expired(c: Pass, i: int)
    ensures
        ({
            let q = Request {
                expr: c.deadline->Some_0,
                args: seq![c.matching.rows[i].order_key],
            };
            c.expired(i) == match c.deadline {
                None => Ok::<bool, Request>(false),
                Some(_) => match (c.answers)(q) {
                    None => Err(q),
                    Some(None) => Ok(false),
                    Some(Some(end)) => Ok(before(end, c.w)),
                },
            }
        }),
{
}

/// When a match is held back: where it ends at the last safe row, its time bound has not passed and
/// the way that is preferred over it runs out of rows there. It is told where a safe row follows it,
/// whatever else holds.
pub proof fn lemma_when_held(c: Pass, m: Span)
    ensures
        m.start + m.labels.len() < c.matching.safe_len ==> c.held(m) == Ok::<bool, Request>(false),
        m.start + m.labels.len() >= c.matching.safe_len ==> c.held(m) == match c.expired(m.start) {
            Err(q) => Err(q),
            Ok(true) => Ok(false),
            Ok(false) => extendable(
                c.pattern,
                define_verdicts(c.matching, c.answers),
                m.start,
                m.start + m.labels.len(),
            ),
        },
{
}

/// Which rows are evicted. Behind the matches that are told, the rows before the first that can still
/// begin a match: one whose time bound has not passed and whose attempt rows to come can change. All
/// safe rows are where there is no such row.
pub proof fn lemma_where_eviction_ends(c: Pass, p: int, row: int)
    requires
        c.retained(p) is Ok,
        p <= row < c.matching.safe_len,
    ensures
        ({
            let at = c.retained(p)->Ok_0;
            let live = c.expired(row) == Ok::<bool, Request>(false) && alive(
                c.pattern,
                define_verdicts(c.matching, c.answers),
                row,
                c.matching.safe_len,
            ) == Ok::<bool, Request>(true);
            &&& row < at ==> !live
            &&& row == at ==> live
            &&& at <= c.matching.safe_len
        }),
    decreases c.matching.safe_len - p,
{
    if !(c.expired(p) == Ok::<bool, Request>(false) && alive(
        c.pattern,
        c.verdicts(),
        p,
        c.matching.safe_len,
    ) == Ok::<bool, Request>(true)) {
        if p + 1 <= row {
            lemma_where_eviction_ends(c, p + 1, row);
        } else {
            lemma_retained_from(c, p + 1);
        }
    }
}

proof fn lemma_retained_from(c: Pass, p: int)
    requires
        c.retained(p) is Ok,
    ensures
        p <= c.matching.safe_len ==> p <= c.retained(p)->Ok_0 <= c.matching.safe_len,
    decreases c.matching.safe_len - p,
{
    if p < c.matching.safe_len {
        if !(c.expired(p) == Ok::<bool, Request>(false) && alive(
            c.pattern,
            c.verdicts(),
            p,
            c.matching.safe_len,
        ) == Ok::<bool, Request>(true)) {
            lemma_retained_from(c, p + 1);
        }
    }
}

/// When a partition needs attention next, where the rows from `i` on are left: at the order key of the
/// first of them that is not safe, or at the end of the time bound of row `i` where that row is safe,
/// whichever comes first. At no time where there is neither.
pub proof fn lemma_when_woken(c: Pass, i: int)
    requires
        0 <= i,
        c.next_wakeup(i) is Ok,
    ensures
        ({
            let rows = c.matching.rows;
            let q = Request { expr: c.deadline->Some_0, args: seq![rows[i].order_key] };
            let by_bound: DatumView = if c.deadline is Some && i < rows.len() && (
            rows[i].order_key matches Some(k) && before(k, c.w)) {
                (c.answers)(q)->Some_0
            } else {
                None
            };
            &&& c.next_wakeup(i)->Ok_0 matches Some(r) ==> {
                &&& by_bound == Some(r) || exists|j: int| #[trigger] is_first_unsafe(c, i, j)
                    && rows[j].order_key == Some(r)
                &&& by_bound matches Some(b) ==> !before(b, r)
                &&& forall|j: int| #[trigger]
                    is_first_unsafe(c, i, j) ==> !before(rows[j].order_key->Some_0, r)
            }
            &&& c.next_wakeup(i)->Ok_0 is None ==> {
                &&& by_bound is None
                &&& forall|j: int| !#[trigger] is_first_unsafe(c, i, j)
            }
        }),
{
    let first = c.row_wakeup(i);
    let bound = c.within_wakeup(i)->Ok_0;
    let j = lemma_first_unsafe(c, i);
    assert forall|x: int| #[trigger] is_first_unsafe(c, i, x) implies first
        == c.matching.rows[x].order_key by {
        if first is Some {
            if x < j {
                assert(c.matching.rows[x].order_key is Some);
            } else if j < x {
                assert(c.matching.rows[j].order_key is Some);
            }
        }
    }
    if let (Some(x), Some(y)) = (first, bound) {
        lemma_before_is_total_order(x, y, x);
        lemma_before_is_total_order(y, x, y);
    }
    if let Some(x) = first {
        lemma_before_is_total_order(x, x, x);
    }
    if let Some(y) = bound {
        lemma_before_is_total_order(y, y, y);
    }
}

/// Row `j` is the first from `i` on whose order key is not before the watermark. One that is NULL is no
/// such row.
pub open spec fn is_first_unsafe(c: Pass, i: int, j: int) -> bool {
    &&& i <= j < c.matching.rows.len()
    &&& c.matching.rows[j].order_key matches Some(k) && !before(k, c.w)
    &&& forall|x: int|
        i <= x < j ==> ((#[trigger] c.matching.rows[x]).order_key matches Some(k) ==> before(
            k,
            c.w,
        ))
}

proof fn lemma_first_unsafe(c: Pass, i: int) -> (j: int)
    requires
        0 <= i,
    ensures
        match c.row_wakeup(i) {
            Some(k) => is_first_unsafe(c, i, j) && c.matching.rows[j].order_key == Some(k),
            None => forall|x: int|
                i <= x < c.matching.rows.len() ==> ((
                #[trigger] c.matching.rows[x]).order_key matches Some(k) ==> before(k, c.w)),
        },
    decreases c.matching.rows.len() - i,
{
    if i >= c.matching.rows.len() {
        i
    } else {
        match c.matching.rows[i].order_key {
            Some(k) => if before(k, c.w) {
                lemma_first_unsafe(c, i + 1)
            } else {
                i
            },
            None => lemma_first_unsafe(c, i + 1),
        }
    }
}

/// What a visit gives: the final matches; an output row for each of them, in their order, where matches
/// are told at the watermark, and none where they are not; a report for each whose skip could not be
/// honored, and for no other; the first row that is left behind them, and when the partition needs
/// attention next with the rows from there on.
pub proof fn lemma_what_a_visit_gives(
    c: Pass,
    found: Seq<Span>,
    measures: Seq<MeasureView>,
    key: RowView,
    tell: bool,
    i: int,
)
    requires
        decided(c, found, measures, key, tell) is Ok,
    ensures
        ({
            let d = decided(c, found, measures, key, tell)->Ok_0;
            let (finals, cursor) = c.finals(found, 0, 0)->Ok_0;
            &&& d.finals == finals
            &&& c.retained(cursor) == Ok::<int, Request>(d.retain_from)
            &&& c.next_wakeup(d.retain_from) == Ok::<DatumView, Request>(d.next_wakeup)
            &&& tell ==> d.out_rows.len() == d.finals.len()
            &&& tell && 0 <= i < d.finals.len() ==> match_row(
                MatchRows {
                    rows: c.matching.rows,
                    start: d.finals[i].start,
                    labels: d.finals[i].labels,
                },
                measures,
                key,
                c.answers,
            ) == Ok::<RowView, Request>(d.out_rows[i])
            &&& !tell ==> d.out_rows.len() == 0
            &&& d.degradations == d.finals.filter(
                |m: Span| degradation(c.skip, m.labels) is Some,
            ).map_values(|m: Span| degradation(c.skip, m.labels)->Some_0)
        }),
{
    let d = decided(c, found, measures, key, tell)->Ok_0;
    let l = if tell {
        d.finals
    } else {
        Seq::empty()
    };
    lemma_match_rows_each(c.matching.rows, measures, key, c.answers, l, 0, i);
    lemma_degraded_each(c.skip, d.finals, 0);
    assert(d.finals.skip(0) =~= d.finals);
}

proof fn lemma_match_rows_each(
    rows: Seq<BufferView>,
    measures: Seq<MeasureView>,
    key: RowView,
    answers: Answers,
    l: Seq<Span>,
    from: int,
    i: int,
)
    requires
        0 <= from <= l.len(),
        match_rows(rows, measures, key, answers, l, from) is Ok,
    ensures
        ({
            let out = match_rows(rows, measures, key, answers, l, from)->Ok_0;
            &&& out.len() == l.len() - from
            &&& from <= i < l.len() ==> match_row(
                MatchRows { rows, start: l[i].start, labels: l[i].labels },
                measures,
                key,
                answers,
            ) == Ok::<RowView, Request>(out[i - from])
        }),
    decreases l.len() - from,
{
    if from < l.len() {
        lemma_match_rows_each(rows, measures, key, answers, l, from + 1, i);
    }
}

proof fn lemma_degraded_each(skip: SkipView, l: Seq<Span>, i: int)
    requires
        0 <= i <= l.len(),
    ensures
        degraded(skip, l, i) == l.skip(i).filter(
            |m: Span| degradation(skip, m.labels) is Some,
        ).map_values(|m: Span| degradation(skip, m.labels)->Some_0),
    decreases l.len() - i,
{
    reveal(Seq::filter);
    let f = |m: Span| degradation(skip, m.labels) is Some;
    let g = |m: Span| degradation(skip, m.labels)->Some_0;
    if i < l.len() {
        lemma_degraded_each(skip, l, i + 1);
        let rest = l.skip(i + 1);
        assert(l.skip(i) =~= seq![l[i]] + rest);
        Seq::filter_distributes_over_add(seq![l[i]], rest, f);
        assert(seq![l[i]].drop_last() =~= Seq::empty());
        assert(Seq::<Span>::empty().filter(f) =~= Seq::empty());
        assert(seq![l[i]].last() == l[i]);
        assert(seq![l[i]].filter(f) =~= if f(l[i]) {
            seq![l[i]]
        } else {
            Seq::empty()
        });
        assert((seq![l[i]].filter(f) + rest.filter(f)).map_values(g) =~= seq![l[i]].filter(
            f,
        ).map_values(g) + rest.filter(f).map_values(g));
        assert(degraded(skip, l, i) =~= l.skip(i).filter(f).map_values(g));
    } else {
        assert(l.skip(i) =~= Seq::empty());
        assert(degraded(skip, l, i) =~= l.skip(i).filter(f).map_values(g));
    }
}

} // verus!
