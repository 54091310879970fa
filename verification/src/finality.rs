//! What a watermark decides stays right whatever rows follow.
//!
//! A match that is told at a watermark is the match of its attempt for good, and no attempt at a
//! row that is evicted, other than those of the matches told, ever finds a match.

use crate::datum::RowView;
use crate::define::{
    define_verdicts, lemma_more_answers_refine, lemma_same_rows_agree, more_answers, no_lookahead,
    Answers, Matching,
};
use crate::eval::Request;
use crate::measure::MeasureView;
use crate::pattern::{
    bind, concat_from, extra, least, loop_from, permute_from, prefer, repeat_from, trace,
    trace_alt, trace_concat, trace_loop, trace_permute, trace_repeat, Outcome, Pattern, Trace, Var,
    Verdicts, Window,
};
use crate::refine::{
    lemma_alive_refines, lemma_extendable_refines, lemma_final_match, lemma_preferred_refines,
};
use crate::scan::{
    alive, extendable, first_stop, lemma_agree_same_ways, lemma_same_ways, lemma_scan_bounds,
    preferred, scan, ways, window, Goal, Span,
};
use crate::settled::{lemma_dead_stays, resume_after};
use crate::skip::{lemma_resume_advances, resume, SkipView};
use crate::trace::{extends, lemma_trace_extends};
use crate::visit::{
    decided, lemma_evicted_rows_are_dead, lemma_finals, lemma_finals_in_rows,
    lemma_no_match_lost_or_repeated, lemma_only_safe_rows_are_evicted, Pass,
};
use vstd::prelude::*;

verus! {

/// No row from `from` up to `to` can be bound in a match that starts at row `start`.
pub open spec fn closed_to(v: Verdicts, start: int, from: int, to: int) -> bool {
    forall|var: Var, pos: int, labels: Seq<Var>|
        pos - labels.len() == start && from <= pos < to ==> #[trigger] v(var, pos, labels) == Ok::<
            bool,
            Request,
        >(false)
}

/// The ways of `t` that did not run out of rows.
spec fn drop_wants(t: Trace) -> Trace
    decreases t.len(),
{
    if t.len() == 0 {
        Seq::empty()
    } else if t[0] is Wants {
        drop_wants(t.drop_first())
    } else {
        seq![t[0]] + drop_wants(t.drop_first())
    }
}

proof fn lemma_drop_append(a: Trace, b: Trace)
    ensures
        drop_wants(a + b) == drop_wants(a) + drop_wants(b),
    decreases a.len(),
{
    if a.len() == 0 {
        assert(a + b =~= b);
        assert(drop_wants(a) + drop_wants(b) =~= drop_wants(b));
    } else {
        assert((a + b).drop_first() =~= a.drop_first() + b);
        lemma_drop_append(a.drop_first(), b);
        assert(drop_wants(a + b) =~= drop_wants(a) + drop_wants(b));
    }
}

/// Continuations that give the same on every way of `t` that is done, but for ways that ran out of
/// rows.
spec fn same_but_wants(
    t: Trace,
    f: spec_fn(Seq<Var>) -> Trace,
    g: spec_fn(Seq<Var>) -> Trace,
) -> bool {
    forall|i: int|
        0 <= i < t.len() && #[trigger] t[i] is Done ==> drop_wants(f(t[i]->Done_0)) == drop_wants(
            g(t[i]->Done_0),
        )
}

proof fn lemma_drop_bind_one(t: Trace, f: spec_fn(Seq<Var>) -> Trace)
    ensures
        drop_wants(bind(t, f)) == drop_wants(bind(drop_wants(t), f)),
    decreases t.len(),
{
    if t.len() > 0 {
        let d = t.drop_first();
        let head = match t[0] {
            Outcome::Done(l) => f(l),
            o => seq![o],
        };
        lemma_drop_bind_one(d, f);
        lemma_drop_append(head, bind(d, f));
        if t[0] is Wants {
            assert(head.drop_first() =~= Seq::empty());
            assert(drop_wants(head.drop_first()) =~= Seq::empty());
            assert(drop_wants(head) =~= Seq::empty());
            assert(drop_wants(bind(t, f)) =~= drop_wants(bind(d, f)));
        } else {
            let rest = drop_wants(d);
            let all = seq![t[0]] + rest;
            assert(all.drop_first() =~= rest);
            assert(all[0] == t[0]);
            lemma_drop_append(head, bind(rest, f));
        }
    }
}

proof fn lemma_drop_bind_same(
    t: Trace,
    f: spec_fn(Seq<Var>) -> Trace,
    g: spec_fn(Seq<Var>) -> Trace,
)
    requires
        same_but_wants(t, f, g),
    ensures
        drop_wants(bind(t, f)) == drop_wants(bind(t, g)),
    decreases t.len(),
{
    if t.len() > 0 {
        let d = t.drop_first();
        assert(same_but_wants(d, f, g)) by {
            assert forall|i: int| 0 <= i < d.len() && #[trigger] d[i] is Done implies drop_wants(
                f(d[i]->Done_0),
            ) == drop_wants(g(d[i]->Done_0)) by {
                assert(d[i] == t[i + 1]);
            }
        }
        lemma_drop_bind_same(d, f, g);
        match t[0] {
            Outcome::Done(l) => {
                assert(t[0] is Done);
                lemma_drop_append(f(l), bind(d, f));
                lemma_drop_append(g(l), bind(d, g));
            },
            o => {
                lemma_drop_append(seq![o], bind(d, f));
                lemma_drop_append(seq![o], bind(d, g));
            },
        }
    }
}

/// A way of `t` that did not run out of rows is one of `t`.
proof fn lemma_drop_item(t: Trace, i: int) -> (k: int)
    requires
        0 <= i < drop_wants(t).len(),
    ensures
        0 <= k < t.len(),
        t[k] == drop_wants(t)[i],
    decreases t.len(),
{
    if t[0] is Wants {
        lemma_drop_item(t.drop_first(), i) + 1
    } else if i == 0 {
        0
    } else {
        lemma_drop_item(t.drop_first(), i - 1) + 1
    }
}

proof fn lemma_drop_bind(
    t1: Trace,
    t2: Trace,
    f1: spec_fn(Seq<Var>) -> Trace,
    f2: spec_fn(Seq<Var>) -> Trace,
)
    requires
        drop_wants(t1) == drop_wants(t2),
        same_but_wants(t1, f1, f2),
    ensures
        drop_wants(bind(t1, f1)) == drop_wants(bind(t2, f2)),
{
    let t = drop_wants(t1);
    assert(same_but_wants(t, f1, f2)) by {
        assert forall|i: int| 0 <= i < t.len() && #[trigger] t[i] is Done implies drop_wants(
            f1(t[i]->Done_0),
        ) == drop_wants(f2(t[i]->Done_0)) by {
            let k = lemma_drop_item(t1, i);
            assert(t1[k] is Done);
        }
    }
    lemma_drop_bind_one(t1, f1);
    lemma_drop_bind_one(t2, f2);
    lemma_drop_bind_same(t, f1, f2);
}

/// `w2` shows the rows of `w1` and more, none of which can be bound.
spec fn closed_windows(w1: Window, w2: Window) -> bool {
    &&& w1.start == w2.start
    &&& w1.n <= w2.n
    &&& w1.verdicts == w2.verdicts
    &&& closed_to(w2.verdicts, w2.start, w1.n, w2.n)
}

proof fn lemma_trace_closed(p: Pattern, w1: Window, w2: Window, labels: Seq<Var>)
    requires
        closed_windows(w1, w2),
    ensures
        drop_wants(trace(p, w1, labels)) == drop_wants(trace(p, w2, labels)),
    decreases p, 0nat, 0int, 0nat,
{
    match p {
        Pattern::Var(v) => {
            let pos = w1.start + labels.len();
            let wants: Trace = seq![Outcome::Wants];
            assert(wants.drop_first() =~= Seq::empty());
            assert(drop_wants(wants) == drop_wants(wants.drop_first()));
            if w1.n <= pos < w2.n {
                assert((w2.verdicts)(v@, pos, labels) == Ok::<bool, Request>(false));
            }
        },
        Pattern::Concat(ps) => {
            lemma_concat_closed(ps@, 0, w1, w2, labels);
        },
        Pattern::Alt(ps) => {
            lemma_alt_closed(ps@, 0, w1, w2, labels);
        },
        Pattern::Quantified(inner, q, reluctant) => {
            lemma_repeat_closed(*inner, least(q), extra(q), reluctant, w1, w2, labels);
        },
        Pattern::Permute(ps) => {
            lemma_permute_closed(ps@, Seq::new(ps@.len(), |i: int| i), 0, w1, w2, labels);
        },
    }
}

proof fn lemma_concat_closed(ps: Seq<Pattern>, i: int, w1: Window, w2: Window, labels: Seq<Var>)
    requires
        closed_windows(w1, w2),
    ensures
        drop_wants(trace_concat(ps, i, w1, labels)) == drop_wants(trace_concat(ps, i, w2, labels)),
    decreases ps, 0nat, ps.len() - i, 0nat,
{
    if 0 <= i < ps.len() {
        let t = trace(ps[i], w1, labels);
        let f1 = concat_from(ps, i + 1, w1);
        let f2 = concat_from(ps, i + 1, w2);
        lemma_trace_closed(ps[i], w1, w2, labels);
        assert forall|j: int| 0 <= j < t.len() && #[trigger] t[j] is Done implies drop_wants(
            f1(t[j]->Done_0),
        ) == drop_wants(f2(t[j]->Done_0)) by {
            lemma_concat_closed(ps, i + 1, w1, w2, t[j]->Done_0);
        }
        lemma_drop_bind(t, trace(ps[i], w2, labels), f1, f2);
    }
}

proof fn lemma_alt_closed(ps: Seq<Pattern>, i: int, w1: Window, w2: Window, labels: Seq<Var>)
    requires
        closed_windows(w1, w2),
    ensures
        drop_wants(trace_alt(ps, i, w1, labels)) == drop_wants(trace_alt(ps, i, w2, labels)),
    decreases ps, 0nat, ps.len() - i, 0nat,
{
    if 0 <= i < ps.len() {
        lemma_trace_closed(ps[i], w1, w2, labels);
        lemma_alt_closed(ps, i + 1, w1, w2, labels);
        lemma_drop_append(trace(ps[i], w1, labels), trace_alt(ps, i + 1, w1, labels));
        lemma_drop_append(trace(ps[i], w2, labels), trace_alt(ps, i + 1, w2, labels));
    }
}

proof fn lemma_permute_closed(
    ps: Seq<Pattern>,
    rest: Seq<int>,
    i: int,
    w1: Window,
    w2: Window,
    labels: Seq<Var>,
)
    requires
        closed_windows(w1, w2),
    ensures
        drop_wants(trace_permute(ps, rest, i, w1, labels)) == drop_wants(
            trace_permute(ps, rest, i, w2, labels),
        ),
    decreases ps, rest.len(), rest.len() - i, 0nat,
{
    if 0 <= i < rest.len() {
        let b1 = trace_permute(ps, rest, i + 1, w1, labels);
        let b2 = trace_permute(ps, rest, i + 1, w2, labels);
        lemma_permute_closed(ps, rest, i + 1, w1, w2, labels);
        if 0 <= rest[i] < ps.len() {
            let t = trace(ps[rest[i]], w1, labels);
            let t2 = trace(ps[rest[i]], w2, labels);
            let f1 = permute_from(ps, rest.remove(i), w1);
            let f2 = permute_from(ps, rest.remove(i), w2);
            lemma_trace_closed(ps[rest[i]], w1, w2, labels);
            assert forall|j: int| 0 <= j < t.len() && #[trigger] t[j] is Done implies drop_wants(
                f1(t[j]->Done_0),
            ) == drop_wants(f2(t[j]->Done_0)) by {
                lemma_permute_closed(ps, rest.remove(i), 0, w1, w2, t[j]->Done_0);
            }
            lemma_drop_bind(t, t2, f1, f2);
            lemma_drop_append(bind(t, f1), b1);
            lemma_drop_append(bind(t2, f2), b2);
        } else {
            lemma_drop_append(Seq::empty(), b1);
            lemma_drop_append(Seq::empty(), b2);
        }
    }
}

proof fn lemma_prefer_closed(reluctant: bool, a1: Trace, a2: Trace, none: Trace)
    requires
        drop_wants(a1) == drop_wants(a2),
    ensures
        drop_wants(prefer(reluctant, a1, none)) == drop_wants(prefer(reluctant, a2, none)),
{
    lemma_drop_append(a1, none);
    lemma_drop_append(a2, none);
    lemma_drop_append(none, a1);
    lemma_drop_append(none, a2);
}

proof fn lemma_repeat_closed(
    p: Pattern,
    min: nat,
    extra: Option<nat>,
    reluctant: bool,
    w1: Window,
    w2: Window,
    labels: Seq<Var>,
)
    requires
        closed_windows(w1, w2),
    ensures
        drop_wants(trace_repeat(p, min, extra, reluctant, w1, labels)) == drop_wants(
            trace_repeat(p, min, extra, reluctant, w2, labels),
        ),
    decreases p, 2 + min + extra.unwrap_or(0), 0int, 0nat,
{
    let t = trace(p, w1, labels);
    let t2 = trace(p, w2, labels);
    lemma_trace_closed(p, w1, w2, labels);
    if min > 0 {
        let f1 = repeat_from(p, (min - 1) as nat, extra, reluctant, w1);
        let f2 = repeat_from(p, (min - 1) as nat, extra, reluctant, w2);
        assert forall|j: int| 0 <= j < t.len() && #[trigger] t[j] is Done implies drop_wants(
            f1(t[j]->Done_0),
        ) == drop_wants(f2(t[j]->Done_0)) by {
            lemma_repeat_closed(p, (min - 1) as nat, extra, reluctant, w1, w2, t[j]->Done_0);
        }
        lemma_drop_bind(t, t2, f1, f2);
    } else {
        match extra {
            None => lemma_loop_closed(p, reluctant, w1, w2, labels),
            Some(k) => {
                if k > 0 {
                    let f1 = repeat_from(p, 0, Some((k - 1) as nat), reluctant, w1);
                    let f2 = repeat_from(p, 0, Some((k - 1) as nat), reluctant, w2);
                    assert forall|j: int|
                        0 <= j < t.len() && #[trigger] t[j] is Done implies drop_wants(
                        f1(t[j]->Done_0),
                    ) == drop_wants(f2(t[j]->Done_0)) by {
                        lemma_repeat_closed(
                            p,
                            0,
                            Some((k - 1) as nat),
                            reluctant,
                            w1,
                            w2,
                            t[j]->Done_0,
                        );
                    }
                    lemma_drop_bind(t, t2, f1, f2);
                    lemma_prefer_closed(
                        reluctant,
                        bind(t, f1),
                        bind(t2, f2),
                        seq![Outcome::Done(labels)],
                    );
                }
            },
        }
    }
}

proof fn lemma_loop_closed(p: Pattern, reluctant: bool, w1: Window, w2: Window, labels: Seq<Var>)
    requires
        closed_windows(w1, w2),
    ensures
        drop_wants(trace_loop(p, reluctant, w1, labels)) == drop_wants(
            trace_loop(p, reluctant, w2, labels),
        ),
    decreases p, 1nat, w1.n - w1.start - labels.len(), 1nat,
{
    let t = trace(p, w1, labels);
    let t2 = trace(p, w2, labels);
    let f1 = loop_from(p, reluctant, w1, labels.len());
    let f2 = loop_from(p, reluctant, w2, labels.len());
    lemma_trace_closed(p, w1, w2, labels);
    lemma_trace_extends(p, w1, labels);
    assert forall|j: int| 0 <= j < t.len() && #[trigger] t[j] is Done implies drop_wants(
        f1(t[j]->Done_0),
    ) == drop_wants(f2(t[j]->Done_0)) by {
        let l = t[j]->Done_0;
        assert(extends(w1, labels, l));
        if labels.len() < l.len() {
            lemma_loop_closed(p, reluctant, w1, w2, l);
        }
    }
    lemma_drop_bind(t, t2, f1, f2);
    lemma_prefer_closed(reluctant, bind(t, f1), bind(t2, f2), seq![Outcome::Done(labels)]);
}

proof fn lemma_first_stop_drop(t: Trace, w: Window, w2: Window)
    ensures
        first_stop(t, Goal::Match, w) == first_stop(drop_wants(t), Goal::Match, w2),
    decreases t.len(),
{
    if t.len() > 0 {
        lemma_first_stop_drop(t.drop_first(), w, w2);
        if !(t[0] is Wants) {
            let d = drop_wants(t);
            assert(d[0] == t[0]);
            assert(d.drop_first() =~= drop_wants(t.drop_first()));
        }
    }
}

/// An attempt takes the same course where rows follow of which it can bind none.
pub proof fn lemma_closed_attempt(p: Pattern, v: Verdicts, start: int, n1: int, n2: int)
    requires
        n1 <= n2,
        closed_to(v, start, n1, n2),
    ensures
        preferred(p, v, start, n2) == preferred(p, v, start, n1),
{
    let w1 = window(v, start, n1);
    let w2 = window(v, start, n2);
    lemma_trace_closed(p, w1, w2, Seq::empty());
    lemma_first_stop_drop(ways(p, v, start, n1), w1, w2);
    lemma_first_stop_drop(ways(p, v, start, n2), w2, w2);
}

/// `more` has the safe rows of `m`, and other rows after them.
pub open spec fn followed_by(m: Matching, more: Matching) -> bool {
    &&& 0 <= m.safe_len <= m.rows.len()
    &&& m.safe_len <= more.safe_len <= more.rows.len()
    &&& more.rows.take(m.safe_len) == m.rows.take(m.safe_len)
    &&& more.defines == m.defines
    &&& more.within == m.within
}

/// Attempts over the safe rows take the same course with all answers, and with rows after them that
/// they do not see.
proof fn lemma_attempt_of_safe_rows(c: Pass, more: Matching, b: Answers, start: int)
    requires
        followed_by(c.matching, more),
        no_lookahead(c.matching.defines),
        more_answers(c.answers, b),
        0 <= start,
    ensures
        ({
            let n = c.matching.safe_len;
            let v = define_verdicts(more, b);
            &&& !(preferred(c.pattern, c.verdicts(), start, n) matches Some(Outcome::Blocked(_)))
                ==> preferred(c.pattern, v, start, n) == preferred(
                c.pattern,
                c.verdicts(),
                start,
                n,
            )
            &&& alive(c.pattern, c.verdicts(), start, n) is Ok ==> alive(c.pattern, v, start, n)
                == alive(c.pattern, c.verdicts(), start, n)
            &&& extendable(c.pattern, c.verdicts(), start, n) is Ok ==> extendable(
                c.pattern,
                v,
                start,
                n,
            ) == extendable(c.pattern, c.verdicts(), start, n)
        }),
{
    let n = c.matching.safe_len;
    let p = c.pattern;
    let v1 = define_verdicts(c.matching, b);
    let v = define_verdicts(more, b);
    lemma_more_answers_refine(c.matching, c.answers, b, n);
    lemma_same_rows_agree(c.matching, more, b, n);
    lemma_agree_same_ways(p, v1, v, 0, n);
    assert(ways(p, v1, start, n) == ways(p, v, start, n));
    lemma_same_ways(p, v1, v, start, n);
    if !(preferred(p, c.verdicts(), start, n) matches Some(Outcome::Blocked(_))) {
        lemma_preferred_refines(p, c.verdicts(), v1, start, n);
    }
    if alive(p, c.verdicts(), start, n) is Ok {
        lemma_alive_refines(p, c.verdicts(), v1, start, n);
    }
    if extendable(p, c.verdicts(), start, n) is Ok {
        lemma_extendable_refines(p, c.verdicts(), v1, start, n);
    }
}

/// A match that is told at a watermark is final: whatever rows follow the safe rows, its attempt
/// finds that match. Where the time bound of its first row has passed, no row that follows can be
/// bound with it. Where it is told only because a safe row follows it, no way that is preferred
/// over it may still wait for rows.
pub proof fn lemma_told_match_is_final(c: Pass, m: Span, more: Matching, b: Answers)
    requires
        followed_by(c.matching, more),
        no_lookahead(c.matching.defines),
        more_answers(c.answers, b),
        0 <= m.start < m.end() <= c.matching.safe_len,
        preferred(c.pattern, c.verdicts(), m.start, c.matching.safe_len) == Some(
            Outcome::Done(m.labels),
        ),
        c.held(m) == Ok::<bool, Request>(false),
        c.expired(m.start) == Ok::<bool, Request>(true) ==> closed_to(
            define_verdicts(more, b),
            m.start,
            c.matching.safe_len,
            more.safe_len,
        ),
        m.end() < c.matching.safe_len && c.expired(m.start) != Ok::<bool, Request>(true)
            ==> extendable(c.pattern, c.verdicts(), m.start, c.matching.safe_len) == Ok::<
            bool,
            Request,
        >(false),
    ensures
        preferred(c.pattern, define_verdicts(more, b), m.start, more.safe_len) == Some(
            Outcome::Done(m.labels),
        ),
{
    let n = c.matching.safe_len;
    let v = define_verdicts(more, b);
    lemma_attempt_of_safe_rows(c, more, b, m.start);
    if c.expired(m.start) == Ok::<bool, Request>(true) {
        lemma_closed_attempt(c.pattern, v, m.start, n, more.safe_len);
    } else {
        lemma_final_match(c.pattern, v, v, m.start, n, more.safe_len);
    }
}

/// Where a scan resumes after its first `k` matches it finds the others.
proof fn lemma_scan_after(
    p: Pattern,
    v: Verdicts,
    skip: SkipView,
    n: int,
    cursor: int,
    f: Seq<Span>,
    k: nat,
)
    requires
        scan(p, v, skip, n, cursor) == Ok::<Seq<Span>, Request>(f),
        k <= f.len(),
    ensures
        scan(p, v, skip, n, resume_after(skip, cursor, f, k)) == Ok::<Seq<Span>, Request>(
            f.skip(k as int),
        ),
    decreases if cursor < n { n - cursor } else { 0 },
{
    if k == 0 {
        assert(f.skip(0) =~= f);
    } else {
        match preferred(p, v, cursor, n) {
            Some(Outcome::Done(l)) => {
                if l.len() > 0 {
                    lemma_resume_advances(skip, cursor, l);
                    let next = resume(skip, cursor, l);
                    let rest = scan(p, v, skip, n, next)->Ok_0;
                    assert(f =~= seq![Span { start: cursor, labels: l }] + rest);
                    lemma_scan_after(p, v, skip, n, next, rest, (k - 1) as nat);
                    assert(f.skip(k as int) =~= rest.skip(k - 1));
                    if k > 1 {
                        assert(f[k - 1] == rest[k - 2]);
                    }
                } else {
                    lemma_scan_after(p, v, skip, n, cursor + 1, f, k);
                }
            },
            _ => lemma_scan_after(p, v, skip, n, cursor + 1, f, k),
        }
    }
}

/// No attempt before the first match of a scan finds a match.
proof fn lemma_scan_gap(
    p: Pattern,
    v: Verdicts,
    skip: SkipView,
    n: int,
    cursor: int,
    s: Seq<Span>,
    x: int,
)
    requires
        scan(p, v, skip, n, cursor) == Ok::<Seq<Span>, Request>(s),
        cursor <= x < n,
        s.len() == 0 || x < s[0].start,
    ensures
        match preferred(p, v, x, n) {
            Some(Outcome::Blocked(_)) => false,
            Some(Outcome::Done(l)) => l.len() == 0,
            _ => true,
        },
    decreases n - cursor,
{
    match preferred(p, v, cursor, n) {
        Some(Outcome::Done(l)) => {
            if l.len() > 0 {
                assert(s[0].start == cursor);
            } else if cursor < x {
                lemma_scan_gap(p, v, skip, n, cursor + 1, s, x);
            }
        },
        Some(Outcome::Blocked(_)) => {},
        _ => {
            if cursor < x {
                lemma_scan_gap(p, v, skip, n, cursor + 1, s, x);
            }
        },
    }
}

/// No match is lost: whatever rows follow the safe rows, no attempt at a row that is evicted,
/// behind where the scan resumes after the matches told, finds a match. Where the time bound of
/// such a row has passed, no row that follows can be bound with it.
pub proof fn lemma_evicted_rows_begin_no_match(
    c: Pass,
    found: Seq<Span>,
    measures: Seq<MeasureView>,
    key: RowView,
    tell: bool,
    more: Matching,
    b: Answers,
    x: int,
)
    requires
        followed_by(c.matching, more),
        no_lookahead(c.matching.defines),
        more_answers(c.answers, b),
        scan(c.pattern, c.verdicts(), c.skip, c.matching.safe_len, 0) == Ok::<Seq<Span>, Request>(
            found,
        ),
        decided(c, found, measures, key, tell) is Ok,
        (c.finals(found, 0, 0)->Ok_0).1 <= x < decided(
            c,
            found,
            measures,
            key,
            tell,
        )->Ok_0.retain_from,
        c.expired(x) == Ok::<bool, Request>(true) ==> closed_to(
            define_verdicts(more, b),
            x,
            c.matching.safe_len,
            more.safe_len,
        ),
    ensures
        preferred(c.pattern, define_verdicts(more, b), x, more.safe_len) matches Some(
            Outcome::Done(l),
        ) ==> l.len() == 0,
{
    let n = c.matching.safe_len;
    let p = c.pattern;
    let v = define_verdicts(more, b);
    let d = decided(c, found, measures, key, tell)->Ok_0;
    let cursor = (c.finals(found, 0, 0)->Ok_0).1;
    lemma_scan_bounds(p, c.verdicts(), c.skip, n, 0);
    let f = scan(p, c.verdicts(), c.skip, n, 0)->Ok_0;
    assert forall|j: int| 0 <= j < found.len() implies 0 <= (#[trigger] found[j]).start
        < found[j].end() <= n by {
        assert(0 <= f[j].start);
    }
    lemma_only_safe_rows_are_evicted(c, found, measures, key, tell);
    lemma_no_match_lost_or_repeated(c, found, measures, key, tell);
    let k = lemma_finals(c, found, 0, 0);
    assert(cursor == resume_after(c.skip, 0, found, k as nat));
    lemma_scan_after(p, c.verdicts(), c.skip, n, 0, found, k as nat);
    let rest = found.skip(k);
    if rest.len() > 0 {
        assert(rest[0] == found[k]);
        if d.finals.contains(found[k]) {
            let i = choose|i: int| 0 <= i < d.finals.len() && d.finals[i] == found[k];
            assert(d.finals[i] == found[i]);
            assert(f[i].start < f[k].start);
        }
    }
    lemma_finals_in_rows(c, found);
    lemma_scan_gap(p, c.verdicts(), c.skip, n, cursor, rest, x);
    lemma_evicted_rows_are_dead(c, found, measures, key, tell, x);
    lemma_attempt_of_safe_rows(c, more, b, x);
    if c.expired(x) == Ok::<bool, Request>(true) {
        lemma_closed_attempt(p, v, x, n, more.safe_len);
    } else {
        lemma_dead_stays(p, v, v, x, n, more.safe_len);
    }
}

} // verus!
