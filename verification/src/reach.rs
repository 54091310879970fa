//! How far from the start of a match a pattern's variables are.
//!
//! A predicate that reads a row by its distance from the candidate row reads a row of the match in
//! progress, if the candidate row is at least that far from the match's first row.

use crate::pattern::{
    bind, concat_from, extra, least, loop_from, permute_from, repeat_from, trace, trace_alt,
    trace_concat, trace_loop, trace_permute, trace_repeat, Outcome, Pattern, Trace, Var, Verdicts,
    Window,
};
use crate::scan::{ways, window};
use crate::trace::{
    extends, lemma_bind_item, lemma_bind_same, lemma_repeat_extends, lemma_trace_extends, same_rows,
};
use vstd::prelude::*;

verus! {

/// The least number of rows that a match of `p` binds.
pub open spec fn min_rows(p: Pattern) -> nat
    decreases p, 0int,
{
    match p {
        Pattern::Var(_) => 1,
        Pattern::Concat(ps) => min_rows_sum(ps@, 0),
        Pattern::Alt(ps) => min_rows_alt(ps@, 0),
        Pattern::Quantified(inner, q, _) => least(q) * min_rows(*inner),
        Pattern::Permute(ps) => min_rows_sum(ps@, 0),
    }
}

/// The least number of rows that matches of the patterns from index `i` on bind together.
pub open spec fn min_rows_sum(ps: Seq<Pattern>, i: int) -> nat
    decreases ps, ps.len() - i,
{
    if i < 0 || i >= ps.len() {
        0
    } else {
        min_rows(ps[i]) + min_rows_sum(ps, i + 1)
    }
}

/// The least number of rows that a match of one of the patterns from index `i` on binds.
pub open spec fn min_rows_alt(ps: Seq<Pattern>, i: int) -> nat
    decreases ps, ps.len() - i,
{
    if i < 0 || i >= ps.len() {
        0
    } else if i == ps.len() - 1 {
        min_rows(ps[i])
    } else {
        let a = min_rows(ps[i]);
        let b = min_rows_alt(ps, i + 1);
        if a <= b {
            a
        } else {
            b
        }
    }
}

/// Where `d` rows are bound before `p`, each variable of `p` has at least as many rows before it as
/// it needs.
pub open spec fn far_enough(p: Pattern, d: nat, need: spec_fn(Var) -> nat) -> bool
    decreases p, 0int,
{
    match p {
        Pattern::Var(v) => need(v@) <= d,
        Pattern::Concat(ps) => far_enough_concat(ps@, 0, d, need),
        Pattern::Alt(ps) => far_enough_all(ps@, 0, d, need),
        Pattern::Quantified(inner, q, _) => (least(q) == 0 && extra(q) == Some(0nat)) || far_enough(
            *inner,
            d,
            need,
        ),
        Pattern::Permute(ps) => far_enough_all(ps@, 0, d, need),
    }
}

/// The same of the patterns from index `i` on, one after the other.
pub open spec fn far_enough_concat(
    ps: Seq<Pattern>,
    i: int,
    d: nat,
    need: spec_fn(Var) -> nat,
) -> bool
    decreases ps, ps.len() - i,
{
    if i < 0 || i >= ps.len() {
        true
    } else {
        far_enough(ps[i], d, need) && far_enough_concat(ps, i + 1, d + min_rows(ps[i]), need)
    }
}

/// The same of each of the patterns from index `i` on.
pub open spec fn far_enough_all(
    ps: Seq<Pattern>,
    i: int,
    d: nat,
    need: spec_fn(Var) -> nat,
) -> bool
    decreases ps, ps.len() - i,
{
    if i < 0 || i >= ps.len() {
        true
    } else {
        far_enough(ps[i], d, need) && far_enough_all(ps, i + 1, d, need)
    }
}

proof fn lemma_far_enough_all(
    ps: Seq<Pattern>,
    i: int,
    d: nat,
    need: spec_fn(Var) -> nat,
    k: int,
)
    requires
        0 <= i <= k < ps.len(),
        far_enough_all(ps, i, d, need),
    ensures
        far_enough(ps[k], d, need),
    decreases k - i,
{
    if i < k {
        lemma_far_enough_all(ps, i + 1, d, need, k);
    }
}

/// Every way of `t` that is done binds at least `k` rows.
spec fn at_least(t: Trace, k: int) -> bool {
    forall|i: int| 0 <= i < t.len() && #[trigger] t[i] is Done ==> k <= t[i]->Done_0.len()
}

proof fn lemma_at_least_append(a: Trace, b: Trace, k: int)
    requires
        at_least(a, k),
        at_least(b, k),
    ensures
        at_least(a + b, k),
{
    assert forall|i: int| 0 <= i < (a + b).len() && #[trigger] (a + b)[i] is Done implies k <= (a
        + b)[i]->Done_0.len() by {
        if i < a.len() {
            assert((a + b)[i] == a[i]);
        } else {
            assert((a + b)[i] == b[i - a.len()]);
        }
    }
}

proof fn lemma_at_least_bind(t: Trace, f: spec_fn(Seq<Var>) -> Trace, k: int)
    requires
        forall|i: int| 0 <= i < t.len() && #[trigger] t[i] is Done ==> at_least(f(t[i]->Done_0), k),
    ensures
        at_least(bind(t, f), k),
{
    assert forall|i: int|
        0 <= i < bind(t, f).len() && #[trigger] bind(t, f)[i] is Done implies k <= bind(
        t,
        f,
    )[i]->Done_0.len() by {
        let r = lemma_bind_item(t, f, i);
        if let Outcome::Done(l) = t[r.0] {
            assert(t[r.0] is Done);
            assert(f(l)[r.1] is Done);
        }
    }
}

/// A match of `p` binds at least as many rows as `min_rows` says.
proof fn lemma_trace_at_least(p: Pattern, w: Window, labels: Seq<Var>)
    ensures
        at_least(trace(p, w, labels), (labels.len() + min_rows(p)) as int),
    decreases p, 0nat, 0int, 0nat,
{
    match p {
        Pattern::Var(v) => {},
        Pattern::Concat(ps) => {
            lemma_concat_at_least(ps@, 0, w, labels);
        },
        Pattern::Alt(ps) => {
            lemma_alt_at_least(ps@, 0, w, labels);
        },
        Pattern::Quantified(inner, q, reluctant) => {
            lemma_repeat_at_least(*inner, least(q), extra(q), reluctant, w, labels);
        },
        Pattern::Permute(ps) => {
            let all = Seq::new(ps@.len(), |i: int| i);
            lemma_permute_at_least(ps@, all, 0, w, labels);
            lemma_rest_rows_all(ps@, all, 0);
        },
    }
}

proof fn lemma_concat_at_least(ps: Seq<Pattern>, i: int, w: Window, labels: Seq<Var>)
    ensures
        at_least(trace_concat(ps, i, w, labels), (labels.len() + min_rows_sum(ps, i)) as int),
    decreases ps, 0nat, ps.len() - i, 0nat,
{
    if 0 <= i < ps.len() {
        let t = trace(ps[i], w, labels);
        let f = concat_from(ps, i + 1, w);
        let k = labels.len() + min_rows_sum(ps, i);
        lemma_trace_at_least(ps[i], w, labels);
        assert forall|j: int| 0 <= j < t.len() && #[trigger] t[j] is Done implies at_least(
            f(t[j]->Done_0),
            k as int,
        ) by {
            lemma_concat_at_least(ps, i + 1, w, t[j]->Done_0);
        }
        lemma_at_least_bind(t, f, k as int);
    }
}

proof fn lemma_alt_at_least(ps: Seq<Pattern>, i: int, w: Window, labels: Seq<Var>)
    ensures
        at_least(trace_alt(ps, i, w, labels), (labels.len() + min_rows_alt(ps, i)) as int),
    decreases ps, 0nat, ps.len() - i, 0nat,
{
    if 0 <= i < ps.len() {
        lemma_trace_at_least(ps[i], w, labels);
        lemma_alt_at_least(ps, i + 1, w, labels);
        lemma_at_least_append(
            trace(ps[i], w, labels),
            trace_alt(ps, i + 1, w, labels),
            (labels.len() + min_rows_alt(ps, i)) as int,
        );
    }
}

/// The least number of rows that matches of the patterns with the indices `rest` bind together.
spec fn rest_rows(ps: Seq<Pattern>, rest: Seq<int>) -> nat
    decreases rest.len(),
{
    if rest.len() == 0 {
        0
    } else {
        rest_rows(ps, rest.drop_first()) + if 0 <= rest[0] < ps.len() {
            min_rows(ps[rest[0]])
        } else {
            0
        }
    }
}

proof fn lemma_rest_rows_remove(ps: Seq<Pattern>, rest: Seq<int>, i: int)
    requires
        0 <= i < rest.len(),
        0 <= rest[i] < ps.len(),
    ensures
        rest_rows(ps, rest) == rest_rows(ps, rest.remove(i)) + min_rows(ps[rest[i]]),
    decreases rest.len(),
{
    if i == 0 {
        assert(rest.remove(0) =~= rest.drop_first());
    } else {
        let d = rest.drop_first();
        lemma_rest_rows_remove(ps, d, i - 1);
        assert(rest.remove(i).drop_first() =~= d.remove(i - 1));
        assert(rest.remove(i)[0] == rest[0]);
        assert(d[i - 1] == rest[i]);
    }
}

proof fn lemma_rest_rows_all(ps: Seq<Pattern>, all: Seq<int>, i: int)
    requires
        0 <= i <= ps.len(),
        all == Seq::new(ps.len(), |j: int| j),
    ensures
        rest_rows(ps, all.skip(i)) == min_rows_sum(ps, i),
        all.skip(0) == all,
    decreases ps.len() - i,
{
    assert(all.skip(0) =~= all);
    if i < ps.len() {
        lemma_rest_rows_all(ps, all, i + 1);
        assert(all.skip(i).drop_first() =~= all.skip(i + 1));
        assert(all.skip(i)[0] == i);
    }
}

proof fn lemma_permute_at_least(
    ps: Seq<Pattern>,
    rest: Seq<int>,
    i: int,
    w: Window,
    labels: Seq<Var>,
)
    ensures
        at_least(
            trace_permute(ps, rest, i, w, labels),
            (labels.len() + rest_rows(ps, rest)) as int,
        ),
    decreases ps, rest.len(), rest.len() - i, 0nat,
{
    let k = labels.len() + rest_rows(ps, rest);
    if 0 <= i < rest.len() {
        lemma_permute_at_least(ps, rest, i + 1, w, labels);
        let b = trace_permute(ps, rest, i + 1, w, labels);
        if 0 <= rest[i] < ps.len() {
            let t = trace(ps[rest[i]], w, labels);
            let f = permute_from(ps, rest.remove(i), w);
            lemma_trace_at_least(ps[rest[i]], w, labels);
            lemma_rest_rows_remove(ps, rest, i);
            assert forall|j: int| 0 <= j < t.len() && #[trigger] t[j] is Done implies at_least(
                f(t[j]->Done_0),
                k as int,
            ) by {
                lemma_permute_at_least(ps, rest.remove(i), 0, w, t[j]->Done_0);
            }
            lemma_at_least_bind(t, f, k as int);
            lemma_at_least_append(bind(t, f), b, k as int);
        } else {
            lemma_at_least_append(Seq::empty(), b, k as int);
        }
    }
}

proof fn lemma_repeat_at_least(
    p: Pattern,
    min: nat,
    extra: Option<nat>,
    reluctant: bool,
    w: Window,
    labels: Seq<Var>,
)
    ensures
        at_least(
            trace_repeat(p, min, extra, reluctant, w, labels),
            (labels.len() + min * min_rows(p)) as int,
        ),
    decreases p, 2 + min + extra.unwrap_or(0), 0int, 0nat,
{
    let t = trace(p, w, labels);
    let r = min_rows(p);
    let k = labels.len() + min * r;
    lemma_trace_at_least(p, w, labels);
    if min > 0 {
        let f = repeat_from(p, (min - 1) as nat, extra, reluctant, w);
        assert(min * r == (min - 1) * r + r) by (nonlinear_arith);
        assert forall|j: int| 0 <= j < t.len() && #[trigger] t[j] is Done implies at_least(
            f(t[j]->Done_0),
            k as int,
        ) by {
            lemma_repeat_at_least(p, (min - 1) as nat, extra, reluctant, w, t[j]->Done_0);
        }
        lemma_at_least_bind(t, f, k as int);
    } else {
        assert(min * r == 0) by (nonlinear_arith)
            requires
                min == 0,
        ;
        lemma_repeat_extends_labels(p, extra, reluctant, w, labels);
    }
}

/// A repetition binds no fewer rows than were bound before it.
proof fn lemma_repeat_extends_labels(
    p: Pattern,
    extra: Option<nat>,
    reluctant: bool,
    w: Window,
    labels: Seq<Var>,
)
    ensures
        at_least(trace_repeat(p, 0, extra, reluctant, w, labels), labels.len() as int),
{
    lemma_repeat_extends(p, 0, extra, reluctant, w, labels);
    let t = trace_repeat(p, 0, extra, reluctant, w, labels);
    assert forall|i: int| 0 <= i < t.len() && #[trigger] t[i] is Done implies labels.len()
        <= t[i]->Done_0.len() by {
        assert(extends(w, labels, t[i]->Done_0));
    }
}

/// The two windows give the same verdicts on each variable that has as many rows before it as it
/// needs.
pub open spec fn same_far(w1: Window, w2: Window, need: spec_fn(Var) -> nat) -> bool {
    &&& same_rows(w1, w2)
    &&& forall|var: Var, labels: Seq<Var>|
        w1.start + labels.len() < w1.n && need(var) <= labels.len() ==> #[trigger] (w1.verdicts)(
            var,
            w1.start + labels.len(),
            labels,
        ) == (w2.verdicts)(var, w2.start + labels.len(), labels)
}

/// An attempt depends on no verdict on a variable that has fewer rows before it than it needs.
proof fn lemma_trace_far(
    p: Pattern,
    w1: Window,
    w2: Window,
    labels: Seq<Var>,
    d: nat,
    need: spec_fn(Var) -> nat,
)
    requires
        same_far(w1, w2, need),
        far_enough(p, d, need),
        d <= labels.len(),
    ensures
        trace(p, w2, labels) == trace(p, w1, labels),
    decreases p, 0nat, 0int, 0nat,
{
    match p {
        Pattern::Var(v) => {
            if w1.start + labels.len() < w1.n {
                assert((w1.verdicts)(v@, w1.start + labels.len(), labels) == (w2.verdicts)(
                    v@,
                    w2.start + labels.len(),
                    labels,
                ));
            }
        },
        Pattern::Concat(ps) => {
            lemma_concat_far(ps@, 0, w1, w2, labels, d, need);
        },
        Pattern::Alt(ps) => {
            lemma_alt_far(ps@, 0, w1, w2, labels, d, need);
        },
        Pattern::Quantified(inner, q, reluctant) => {
            if !(least(q) == 0 && extra(q) == Some(0nat)) {
                lemma_repeat_far(
                    *inner,
                    least(q),
                    extra(q),
                    reluctant,
                    w1,
                    w2,
                    labels,
                    d,
                    need,
                );
            }
        },
        Pattern::Permute(ps) => {
            let all = Seq::new(ps@.len(), |i: int| i);
            lemma_permute_far(ps@, all, 0, w1, w2, labels, d, need);
        },
    }
}

proof fn lemma_concat_far(
    ps: Seq<Pattern>,
    i: int,
    w1: Window,
    w2: Window,
    labels: Seq<Var>,
    d: nat,
    need: spec_fn(Var) -> nat,
)
    requires
        same_far(w1, w2, need),
        far_enough_concat(ps, i, d, need),
        d <= labels.len(),
    ensures
        trace_concat(ps, i, w2, labels) == trace_concat(ps, i, w1, labels),
    decreases ps, 0nat, ps.len() - i, 0nat,
{
    if 0 <= i < ps.len() {
        let t = trace(ps[i], w1, labels);
        let f1 = concat_from(ps, i + 1, w1);
        let f2 = concat_from(ps, i + 1, w2);
        lemma_trace_far(ps[i], w1, w2, labels, d, need);
        lemma_trace_at_least(ps[i], w1, labels);
        assert forall|j: int| 0 <= j < t.len() && #[trigger] t[j] is Done implies f1(t[j]->Done_0)
            == f2(t[j]->Done_0) by {
            lemma_concat_far(
                ps,
                i + 1,
                w1,
                w2,
                t[j]->Done_0,
                d + min_rows(ps[i]),
                need,
            );
        }
        lemma_bind_same(t, f1, f2);
    }
}

proof fn lemma_alt_far(
    ps: Seq<Pattern>,
    i: int,
    w1: Window,
    w2: Window,
    labels: Seq<Var>,
    d: nat,
    need: spec_fn(Var) -> nat,
)
    requires
        same_far(w1, w2, need),
        far_enough_all(ps, i, d, need),
        d <= labels.len(),
    ensures
        trace_alt(ps, i, w2, labels) == trace_alt(ps, i, w1, labels),
    decreases ps, 0nat, ps.len() - i, 0nat,
{
    if 0 <= i < ps.len() {
        lemma_trace_far(ps[i], w1, w2, labels, d, need);
        lemma_alt_far(ps, i + 1, w1, w2, labels, d, need);
    }
}

/// Every way of `t` that is done binds at least the rows of `labels`.
proof fn lemma_longer(w: Window, p: Pattern, labels: Seq<Var>)
    ensures
        at_least(trace(p, w, labels), labels.len() as int),
{
    let t = trace(p, w, labels);
    lemma_trace_extends(p, w, labels);
    assert forall|i: int| 0 <= i < t.len() && #[trigger] t[i] is Done implies labels.len()
        <= t[i]->Done_0.len() by {
        assert(extends(w, labels, t[i]->Done_0));
    }
}

proof fn lemma_permute_far(
    ps: Seq<Pattern>,
    rest: Seq<int>,
    i: int,
    w1: Window,
    w2: Window,
    labels: Seq<Var>,
    d: nat,
    need: spec_fn(Var) -> nat,
)
    requires
        same_far(w1, w2, need),
        far_enough_all(ps, 0, d, need),
        d <= labels.len(),
    ensures
        trace_permute(ps, rest, i, w2, labels) == trace_permute(ps, rest, i, w1, labels),
    decreases ps, rest.len(), rest.len() - i, 0nat,
{
    if 0 <= i < rest.len() {
        if 0 <= rest[i] < ps.len() {
            let p = ps[rest[i]];
            let t = trace(p, w1, labels);
            let f1 = permute_from(ps, rest.remove(i), w1);
            let f2 = permute_from(ps, rest.remove(i), w2);
            lemma_far_enough_all(ps, 0, d, need, rest[i]);
            lemma_trace_far(p, w1, w2, labels, d, need);
            lemma_longer(w1, p, labels);
            assert forall|j: int| 0 <= j < t.len() && #[trigger] t[j] is Done implies f1(
                t[j]->Done_0,
            ) == f2(t[j]->Done_0) by {
                lemma_permute_far(ps, rest.remove(i), 0, w1, w2, t[j]->Done_0, d, need);
            }
            lemma_bind_same(t, f1, f2);
        }
        lemma_permute_far(ps, rest, i + 1, w1, w2, labels, d, need);
    }
}

proof fn lemma_repeat_far(
    p: Pattern,
    min: nat,
    extra: Option<nat>,
    reluctant: bool,
    w1: Window,
    w2: Window,
    labels: Seq<Var>,
    d: nat,
    need: spec_fn(Var) -> nat,
)
    requires
        same_far(w1, w2, need),
        far_enough(p, d, need),
        d <= labels.len(),
    ensures
        trace_repeat(p, min, extra, reluctant, w2, labels) == trace_repeat(
            p,
            min,
            extra,
            reluctant,
            w1,
            labels,
        ),
    decreases p, 2 + min + extra.unwrap_or(0), 0int, 0nat,
{
    let t = trace(p, w1, labels);
    lemma_trace_far(p, w1, w2, labels, d, need);
    lemma_longer(w1, p, labels);
    if min > 0 {
        let f1 = repeat_from(p, (min - 1) as nat, extra, reluctant, w1);
        let f2 = repeat_from(p, (min - 1) as nat, extra, reluctant, w2);
        assert forall|j: int| 0 <= j < t.len() && #[trigger] t[j] is Done implies f1(t[j]->Done_0)
            == f2(t[j]->Done_0) by {
            lemma_repeat_far(
                p,
                (min - 1) as nat,
                extra,
                reluctant,
                w1,
                w2,
                t[j]->Done_0,
                d,
                need,
            );
        }
        lemma_bind_same(t, f1, f2);
    } else {
        match extra {
            None => lemma_loop_far(p, reluctant, w1, w2, labels, d, need),
            Some(k) => {
                if k > 0 {
                    let f1 = repeat_from(p, 0, Some((k - 1) as nat), reluctant, w1);
                    let f2 = repeat_from(p, 0, Some((k - 1) as nat), reluctant, w2);
                    assert forall|j: int| 0 <= j < t.len() && #[trigger] t[j] is Done implies f1(
                        t[j]->Done_0,
                    ) == f2(t[j]->Done_0) by {
                        lemma_repeat_far(
                            p,
                            0,
                            Some((k - 1) as nat),
                            reluctant,
                            w1,
                            w2,
                            t[j]->Done_0,
                            d,
                            need,
                        );
                    }
                    lemma_bind_same(t, f1, f2);
                }
            },
        }
    }
}

proof fn lemma_loop_far(
    p: Pattern,
    reluctant: bool,
    w1: Window,
    w2: Window,
    labels: Seq<Var>,
    d: nat,
    need: spec_fn(Var) -> nat,
)
    requires
        same_far(w1, w2, need),
        far_enough(p, d, need),
        d <= labels.len(),
    ensures
        trace_loop(p, reluctant, w2, labels) == trace_loop(p, reluctant, w1, labels),
    decreases p, 1nat, w1.n - w1.start - labels.len(), 1nat,
{
    let t = trace(p, w1, labels);
    let f1 = loop_from(p, reluctant, w1, labels.len());
    let f2 = loop_from(p, reluctant, w2, labels.len());
    lemma_trace_far(p, w1, w2, labels, d, need);
    assert forall|j: int| 0 <= j < t.len() && #[trigger] t[j] is Done implies f1(t[j]->Done_0)
        == f2(t[j]->Done_0) by {
        let l = t[j]->Done_0;
        if labels.len() < l.len() && w1.start + l.len() <= w1.n {
            lemma_loop_far(p, reluctant, w1, w2, l, d, need);
        }
    }
    lemma_bind_same(t, f1, f2);
}

/// A match attempt depends on no verdict on a variable that has fewer rows before it than it
/// needs, where every variable of the pattern is far enough from the start.
pub proof fn lemma_ways_far(
    p: Pattern,
    v1: Verdicts,
    v2: Verdicts,
    start: int,
    n: int,
    need: spec_fn(Var) -> nat,
)
    requires
        far_enough(p, 0, need),
        same_far(window(v1, start, n), window(v2, start, n), need),
    ensures
        ways(p, v1, start, n) == ways(p, v2, start, n),
{
    lemma_trace_far(p, window(v1, start, n), window(v2, start, n), Seq::empty(), 0, need);
}

} // verus!
