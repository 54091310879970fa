//! Missing verdicts and missing rows: what is found without them stays as it is once they are
//! there.

use crate::eval::Request;
use crate::pattern::{
    bind, concat_from, extra, least, loop_from, permute_from, prefer, repeat_from, trace,
    trace_alt, trace_concat, trace_loop, trace_permute, trace_repeat, Outcome, Pattern, Trace, Var,
    Verdicts, Window,
};
use crate::scan::{alive, extendable, first_stop, preferred, scan, stops, ways, window, Goal};
use crate::skip::{lemma_resume_advances, resume, SkipView};
use crate::trace::{extends, lemma_trace_extends};
use vstd::prelude::*;

verus! {

/// On the rows before `n`, `v2` gives each verdict that `v1` gives.
pub open spec fn refines(v1: Verdicts, v2: Verdicts, n: int) -> bool {
    forall|var: Var, pos: int, labels: Seq<Var>|
        pos < n ==> (#[trigger] v1(var, pos, labels) is Err || v1(var, pos, labels) == v2(
            var,
            pos,
            labels,
        ))
}

/// The outcome may change with more verdicts, or with more rows where there are more.
spec fn is_open(o: Outcome, more_rows: bool) -> bool {
    o is Blocked || (more_rows && o is Wants)
}

/// The ways of `t1` before the first open one are those of `t2`; without an open one they are all
/// of them.
spec fn fills(t1: Trace, t2: Trace, more_rows: bool) -> bool
    decreases t1.len(),
{
    if t1.len() == 0 {
        t2.len() == 0
    } else if is_open(t1[0], more_rows) {
        true
    } else {
        t2.len() > 0 && t1[0] == t2[0] && fills(t1.drop_first(), t2.drop_first(), more_rows)
    }
}

proof fn lemma_fills_same(t: Trace, more_rows: bool)
    ensures
        fills(t, t, more_rows),
    decreases t.len(),
{
    if t.len() > 0 {
        lemma_fills_same(t.drop_first(), more_rows);
    }
}

proof fn lemma_fills_append(a1: Trace, a2: Trace, b1: Trace, b2: Trace, more_rows: bool)
    requires
        fills(a1, a2, more_rows),
        fills(b1, b2, more_rows),
    ensures
        fills(a1 + b1, a2 + b2, more_rows),
    decreases a1.len(),
{
    if a1.len() == 0 {
        assert(a1 + b1 =~= b1);
        assert(a2 + b2 =~= b2);
    } else if !is_open(a1[0], more_rows) {
        lemma_fills_append(a1.drop_first(), a2.drop_first(), b1, b2, more_rows);
        assert((a1 + b1).drop_first() =~= a1.drop_first() + b1);
        assert((a2 + b2).drop_first() =~= a2.drop_first() + b2);
    }
}

proof fn lemma_fills_bind(
    t1: Trace,
    t2: Trace,
    f1: spec_fn(Seq<Var>) -> Trace,
    f2: spec_fn(Seq<Var>) -> Trace,
    more_rows: bool,
)
    requires
        fills(t1, t2, more_rows),
        forall|j: int|
            0 <= j < t1.len() && #[trigger] t1[j] is Done ==> fills(
                f1(t1[j]->Done_0),
                f2(t1[j]->Done_0),
                more_rows,
            ),
    ensures
        fills(bind(t1, f1), bind(t2, f2), more_rows),
    decreases t1.len(),
{
    if t1.len() > 0 {
        let d1 = t1.drop_first();
        if is_open(t1[0], more_rows) {
            assert(bind(t1, f1)[0] == t1[0]);
        } else {
            let d2 = t2.drop_first();
            assert forall|j: int| 0 <= j < d1.len() && #[trigger] d1[j] is Done implies fills(
                f1(d1[j]->Done_0),
                f2(d1[j]->Done_0),
                more_rows,
            ) by {
                assert(d1[j] == t1[j + 1]);
            }
            lemma_fills_bind(d1, d2, f1, f2, more_rows);
            match t1[0] {
                Outcome::Done(l) => {
                    assert(t1[0] is Done);
                    lemma_fills_append(f1(l), f2(l), bind(d1, f1), bind(d2, f2), more_rows);
                },
                o => {
                    lemma_fills_same(seq![o], more_rows);
                    lemma_fills_append(
                        seq![o],
                        seq![o],
                        bind(d1, f1),
                        bind(d2, f2),
                        more_rows,
                    );
                },
            }
        }
    }
}

proof fn lemma_fills_prefer(
    reluctant: bool,
    a1: Trace,
    a2: Trace,
    none: Trace,
    more_rows: bool,
)
    requires
        fills(a1, a2, more_rows),
    ensures
        fills(prefer(reluctant, a1, none), prefer(reluctant, a2, none), more_rows),
{
    lemma_fills_same(none, more_rows);
    if reluctant {
        lemma_fills_append(none, none, a1, a2, more_rows);
    } else {
        lemma_fills_append(a1, a2, none, none, more_rows);
    }
}

/// `w2` shows the rows of `w1`, or more, and gives each verdict that `w1` gives.
spec fn filled(w1: Window, w2: Window) -> bool {
    &&& w1.start == w2.start
    &&& w1.n <= w2.n
    &&& refines(w1.verdicts, w2.verdicts, w1.n)
}

proof fn lemma_trace_fills(p: Pattern, w1: Window, w2: Window, labels: Seq<Var>)
    requires
        filled(w1, w2),
    ensures
        fills(trace(p, w1, labels), trace(p, w2, labels), w1.n < w2.n),
    decreases p, 0nat, 0int, 0nat,
{
    match p {
        Pattern::Var(v) => {
            let t1 = trace(p, w1, labels);
            let t2 = trace(p, w2, labels);
            if w1.start + labels.len() < w1.n {
                let verdict = (w1.verdicts)(v@, w1.start + labels.len(), labels);
                if verdict is Err {
                    assert(t1[0] is Blocked);
                } else {
                    lemma_fills_same(t1, w1.n < w2.n);
                    assert(t1 =~= t2);
                }
            } else if w1.n == w2.n {
                lemma_fills_same(t1, w1.n < w2.n);
                assert(t1 =~= t2);
            }
        },
        Pattern::Concat(ps) => {
            lemma_concat_fills(ps@, 0, w1, w2, labels);
        },
        Pattern::Alt(ps) => {
            lemma_alt_fills(ps@, 0, w1, w2, labels);
        },
        Pattern::Quantified(inner, q, reluctant) => {
            lemma_repeat_fills(*inner, least(q), extra(q), reluctant, w1, w2, labels);
        },
        Pattern::Permute(ps) => {
            lemma_permute_fills(ps@, Seq::new(ps@.len(), |i: int| i), 0, w1, w2, labels);
        },
    }
}

proof fn lemma_concat_fills(ps: Seq<Pattern>, i: int, w1: Window, w2: Window, labels: Seq<Var>)
    requires
        filled(w1, w2),
    ensures
        fills(
            trace_concat(ps, i, w1, labels),
            trace_concat(ps, i, w2, labels),
            w1.n < w2.n,
        ),
    decreases ps, 0nat, ps.len() - i, 0nat,
{
    if 0 <= i < ps.len() {
        let f1 = concat_from(ps, i + 1, w1);
        let f2 = concat_from(ps, i + 1, w2);
        let t1 = trace(ps[i], w1, labels);
        lemma_trace_fills(ps[i], w1, w2, labels);
        assert forall|j: int| 0 <= j < t1.len() && #[trigger] t1[j] is Done implies fills(
            f1(t1[j]->Done_0),
            f2(t1[j]->Done_0),
            w1.n < w2.n,
        ) by {
            lemma_concat_fills(ps, i + 1, w1, w2, t1[j]->Done_0);
        }
        lemma_fills_bind(t1, trace(ps[i], w2, labels), f1, f2, w1.n < w2.n);
    } else {
        lemma_fills_same(trace_concat(ps, i, w1, labels), w1.n < w2.n);
    }
}

proof fn lemma_alt_fills(ps: Seq<Pattern>, i: int, w1: Window, w2: Window, labels: Seq<Var>)
    requires
        filled(w1, w2),
    ensures
        fills(trace_alt(ps, i, w1, labels), trace_alt(ps, i, w2, labels), w1.n < w2.n),
    decreases ps, 0nat, ps.len() - i, 0nat,
{
    if 0 <= i < ps.len() {
        lemma_trace_fills(ps[i], w1, w2, labels);
        lemma_alt_fills(ps, i + 1, w1, w2, labels);
        lemma_fills_append(
            trace(ps[i], w1, labels),
            trace(ps[i], w2, labels),
            trace_alt(ps, i + 1, w1, labels),
            trace_alt(ps, i + 1, w2, labels),
            w1.n < w2.n,
        );
    }
}

proof fn lemma_permute_fills(
    ps: Seq<Pattern>,
    rest: Seq<int>,
    i: int,
    w1: Window,
    w2: Window,
    labels: Seq<Var>,
)
    requires
        filled(w1, w2),
    ensures
        fills(
            trace_permute(ps, rest, i, w1, labels),
            trace_permute(ps, rest, i, w2, labels),
            w1.n < w2.n,
        ),
    decreases ps, rest.len(), rest.len() - i, 0nat,
{
    if rest.len() == 0 {
        lemma_fills_same(trace_permute(ps, rest, i, w1, labels), w1.n < w2.n);
    } else if 0 <= i < rest.len() {
        let b1 = trace_permute(ps, rest, i + 1, w1, labels);
        let b2 = trace_permute(ps, rest, i + 1, w2, labels);
        lemma_permute_fills(ps, rest, i + 1, w1, w2, labels);
        if 0 <= rest[i] < ps.len() {
            let f1 = permute_from(ps, rest.remove(i), w1);
            let f2 = permute_from(ps, rest.remove(i), w2);
            let t1 = trace(ps[rest[i]], w1, labels);
            let t2 = trace(ps[rest[i]], w2, labels);
            lemma_trace_fills(ps[rest[i]], w1, w2, labels);
            assert forall|j: int| 0 <= j < t1.len() && #[trigger] t1[j] is Done implies fills(
                f1(t1[j]->Done_0),
                f2(t1[j]->Done_0),
                w1.n < w2.n,
            ) by {
                lemma_permute_fills(ps, rest.remove(i), 0, w1, w2, t1[j]->Done_0);
            }
            lemma_fills_bind(t1, t2, f1, f2, w1.n < w2.n);
            lemma_fills_append(bind(t1, f1), bind(t2, f2), b1, b2, w1.n < w2.n);
        } else {
            lemma_fills_append(Seq::empty(), Seq::empty(), b1, b2, w1.n < w2.n);
        }
    }
}

proof fn lemma_repeat_fills(
    p: Pattern,
    min: nat,
    extra: Option<nat>,
    reluctant: bool,
    w1: Window,
    w2: Window,
    labels: Seq<Var>,
)
    requires
        filled(w1, w2),
    ensures
        fills(
            trace_repeat(p, min, extra, reluctant, w1, labels),
            trace_repeat(p, min, extra, reluctant, w2, labels),
            w1.n < w2.n,
        ),
    decreases p, 2 + min + extra.unwrap_or(0), 0int, 0nat,
{
    let t1 = trace(p, w1, labels);
    let t2 = trace(p, w2, labels);
    lemma_trace_fills(p, w1, w2, labels);
    if min > 0 {
        let f1 = repeat_from(p, (min - 1) as nat, extra, reluctant, w1);
        let f2 = repeat_from(p, (min - 1) as nat, extra, reluctant, w2);
        assert forall|j: int| 0 <= j < t1.len() && #[trigger] t1[j] is Done implies fills(
            f1(t1[j]->Done_0),
            f2(t1[j]->Done_0),
            w1.n < w2.n,
        ) by {
            lemma_repeat_fills(p, (min - 1) as nat, extra, reluctant, w1, w2, t1[j]->Done_0);
        }
        lemma_fills_bind(t1, t2, f1, f2, w1.n < w2.n);
    } else {
        match extra {
            None => lemma_loop_fills(p, reluctant, w1, w2, labels),
            Some(k) => {
                if k == 0 {
                    lemma_fills_same(seq![Outcome::Done(labels)], w1.n < w2.n);
                } else {
                    let f1 = repeat_from(p, 0, Some((k - 1) as nat), reluctant, w1);
                    let f2 = repeat_from(p, 0, Some((k - 1) as nat), reluctant, w2);
                    assert forall|j: int|
                        0 <= j < t1.len() && #[trigger] t1[j] is Done implies fills(
                        f1(t1[j]->Done_0),
                        f2(t1[j]->Done_0),
                        w1.n < w2.n,
                    ) by {
                        lemma_repeat_fills(
                            p,
                            0,
                            Some((k - 1) as nat),
                            reluctant,
                            w1,
                            w2,
                            t1[j]->Done_0,
                        );
                    }
                    lemma_fills_bind(t1, t2, f1, f2, w1.n < w2.n);
                    lemma_fills_prefer(
                        reluctant,
                        bind(t1, f1),
                        bind(t2, f2),
                        seq![Outcome::Done(labels)],
                        w1.n < w2.n,
                    );
                }
            },
        }
    }
}

proof fn lemma_loop_fills(p: Pattern, reluctant: bool, w1: Window, w2: Window, labels: Seq<Var>)
    requires
        filled(w1, w2),
    ensures
        fills(
            trace_loop(p, reluctant, w1, labels),
            trace_loop(p, reluctant, w2, labels),
            w1.n < w2.n,
        ),
    decreases p, 1nat, w1.n - w1.start - labels.len(), 1nat,
{
    let t1 = trace(p, w1, labels);
    let t2 = trace(p, w2, labels);
    let f1 = loop_from(p, reluctant, w1, labels.len());
    let f2 = loop_from(p, reluctant, w2, labels.len());
    lemma_trace_fills(p, w1, w2, labels);
    lemma_trace_extends(p, w1, labels);
    assert forall|j: int| 0 <= j < t1.len() && #[trigger] t1[j] is Done implies fills(
        f1(t1[j]->Done_0),
        f2(t1[j]->Done_0),
        w1.n < w2.n,
    ) by {
        let l = t1[j]->Done_0;
        assert(extends(w1, labels, l));
        if labels.len() < l.len() && w1.start + l.len() <= w1.n {
            lemma_loop_fills(p, reluctant, w1, w2, l);
        } else {
            lemma_fills_same(Seq::empty(), w1.n < w2.n);
        }
    }
    lemma_fills_bind(t1, t2, f1, f2, w1.n < w2.n);
    lemma_fills_prefer(
        reluctant,
        bind(t1, f1),
        bind(t2, f2),
        seq![Outcome::Done(labels)],
        w1.n < w2.n,
    );
}

proof fn lemma_first_stop_fills(t1: Trace, t2: Trace, goal: Goal, w1: Window, w2: Window)
    requires
        fills(t1, t2, false),
        w1.start == w2.start,
        w1.n == w2.n,
        !(first_stop(t1, goal, w1) matches Some(Outcome::Blocked(_))),
    ensures
        first_stop(t2, goal, w2) == first_stop(t1, goal, w1),
    decreases t1.len(),
{
    if t1.len() > 0 {
        assert(stops(goal, w1, t1[0]) == stops(goal, w2, t1[0]));
        if !stops(goal, w1, t1[0]) {
            lemma_first_stop_fills(t1.drop_first(), t2.drop_first(), goal, w1, w2);
        }
    }
}

proof fn lemma_stop_refines(
    p: Pattern,
    v1: Verdicts,
    v2: Verdicts,
    start: int,
    n: int,
    goal: Goal,
)
    requires
        refines(v1, v2, n),
        !(first_stop(ways(p, v1, start, n), goal, window(v1, start, n)) matches Some(
            Outcome::Blocked(_),
        )),
    ensures
        first_stop(ways(p, v2, start, n), goal, window(v2, start, n)) == first_stop(
            ways(p, v1, start, n),
            goal,
            window(v1, start, n),
        ),
{
    let w1 = window(v1, start, n);
    let w2 = window(v2, start, n);
    lemma_trace_fills(p, w1, w2, Seq::empty());
    lemma_first_stop_fills(ways(p, v1, start, n), ways(p, v2, start, n), goal, w1, w2);
}

/// An attempt that no missing verdict stops finds the same once all verdicts are known.
pub proof fn lemma_preferred_refines(p: Pattern, v1: Verdicts, v2: Verdicts, start: int, n: int)
    requires
        refines(v1, v2, n),
        !(preferred(p, v1, start, n) matches Some(Outcome::Blocked(_))),
    ensures
        preferred(p, v2, start, n) == preferred(p, v1, start, n),
{
    lemma_stop_refines(p, v1, v2, start, n, Goal::Match);
}

/// Whether an attempt reaches the last row does not change once all verdicts are known.
pub proof fn lemma_alive_refines(p: Pattern, v1: Verdicts, v2: Verdicts, start: int, n: int)
    requires
        refines(v1, v2, n),
        alive(p, v1, start, n) is Ok,
    ensures
        alive(p, v2, start, n) == alive(p, v1, start, n),
{
    lemma_stop_refines(p, v1, v2, start, n, Goal::Reach);
}

/// Whether a match can change does not change once all verdicts are known.
pub proof fn lemma_extendable_refines(p: Pattern, v1: Verdicts, v2: Verdicts, start: int, end: int)
    requires
        refines(v1, v2, end),
        extendable(p, v1, start, end) is Ok,
    ensures
        extendable(p, v2, start, end) == extendable(p, v1, start, end),
{
    lemma_stop_refines(p, v1, v2, start, end, Goal::Decide);
}

proof fn lemma_first_stop_final(t1: Trace, t2: Trace, w1: Window, w2: Window)
    requires
        fills(t1, t2, true) || fills(t1, t2, false),
        first_stop(t1, Goal::Decide, w1) matches Some(Outcome::Done(_)),
    ensures
        first_stop(t2, Goal::Match, w2) == first_stop(t1, Goal::Decide, w1),
    decreases t1.len(),
{
    if !(t1[0] is Done) {
        lemma_first_stop_final(t1.drop_first(), t2.drop_first(), w1, w2);
    }
}

proof fn lemma_decide_is_match(t: Trace, w: Window)
    ensures
        first_stop(t, Goal::Decide, w) matches Some(Outcome::Done(_)) ==> first_stop(
            t,
            Goal::Match,
            w,
        ) == first_stop(t, Goal::Decide, w),
        first_stop(t, Goal::Decide, w) is None ==> t.len() == 0,
    decreases t.len(),
{
    if t.len() > 0 && !(t[0] is Done) {
        lemma_decide_is_match(t.drop_first(), w);
    }
}

/// A match that cannot be extended is final: whatever rows follow, the attempt finds that match.
pub proof fn lemma_final_match(
    p: Pattern,
    v1: Verdicts,
    v2: Verdicts,
    start: int,
    n1: int,
    n2: int,
)
    requires
        n1 <= n2,
        refines(v1, v2, n1),
        extendable(p, v1, start, n1) == Ok::<bool, Request>(false),
        preferred(p, v1, start, n1) is Some,
    ensures
        preferred(p, v2, start, n2) == preferred(p, v1, start, n1),
{
    let w1 = window(v1, start, n1);
    let w2 = window(v2, start, n2);
    let t1 = ways(p, v1, start, n1);
    lemma_trace_fills(p, w1, w2, Seq::empty());
    lemma_decide_is_match(t1, w1);
    lemma_first_stop_final(t1, ways(p, v2, start, n2), w1, w2);
}

/// A scan that no missing verdict stops finds the same once all verdicts are known.
pub proof fn lemma_scan_refines(
    p: Pattern,
    v1: Verdicts,
    v2: Verdicts,
    skip: SkipView,
    n: int,
    cursor: int,
)
    requires
        refines(v1, v2, n),
        scan(p, v1, skip, n, cursor) is Ok,
    ensures
        scan(p, v2, skip, n, cursor) == scan(p, v1, skip, n, cursor),
    decreases if cursor < n { n - cursor } else { 0 },
{
    if cursor < n {
        lemma_preferred_refines(p, v1, v2, cursor, n);
        match preferred(p, v1, cursor, n) {
            Some(Outcome::Done(l)) => {
                if l.len() > 0 {
                    lemma_resume_advances(skip, cursor, l);
                    lemma_scan_refines(p, v1, v2, skip, n, resume(skip, cursor, l));
                } else {
                    lemma_scan_refines(p, v1, v2, skip, n, cursor + 1);
                }
            },
            _ => lemma_scan_refines(p, v1, v2, skip, n, cursor + 1),
        }
    }
}

} // verus!
