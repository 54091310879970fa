//! Facts about the ways to match a pattern.

use crate::pattern::{
    bind, concat_from, extra, least, loop_from, permute_from, prefer, repeat_from, trace,
    trace_alt, trace_concat, trace_loop, trace_permute, trace_repeat, Outcome, Pattern, Trace, Var,
    Window,
};
use vstd::prelude::*;

verus! {

/// No way of `t` ran out of rows.
pub open spec fn no_wants(t: Trace) -> bool {
    forall|i: int| 0 <= i < t.len() ==> !(#[trigger] t[i] is Wants)
}

/// `l` binds at least the rows of `labels`, and no row from `w.n` on that `labels` does not bind.
pub open spec fn extends(w: Window, labels: Seq<Var>, l: Seq<Var>) -> bool {
    &&& labels.len() <= l.len()
    &&& l.take(labels.len() as int) == labels
    &&& w.start + l.len() <= w.n || l.len() == labels.len()
}

/// Every way of `t` that is done extends `labels`.
pub open spec fn all_extend(w: Window, labels: Seq<Var>, t: Trace) -> bool {
    forall|i: int|
        0 <= i < t.len() && #[trigger] t[i] is Done ==> extends(w, labels, t[i]->Done_0)
}

/// Continuations that agree on every way of `t` that is done.
pub open spec fn same_on(
    t: Trace,
    f: spec_fn(Seq<Var>) -> Trace,
    g: spec_fn(Seq<Var>) -> Trace,
) -> bool {
    forall|i: int|
        0 <= i < t.len() && #[trigger] t[i] is Done ==> f(t[i]->Done_0) == g(t[i]->Done_0)
}

pub proof fn lemma_bind_append(a: Trace, b: Trace, f: spec_fn(Seq<Var>) -> Trace)
    ensures
        bind(a + b, f) == bind(a, f) + bind(b, f),
    decreases a.len(),
{
    if a.len() == 0 {
        assert(a + b =~= b);
        assert(bind(a, f) + bind(b, f) =~= bind(b, f));
    } else {
        assert((a + b).drop_first() =~= a.drop_first() + b);
        lemma_bind_append(a.drop_first(), b, f);
        assert(bind(a + b, f) =~= bind(a, f) + bind(b, f));
    }
}

pub proof fn lemma_bind_one(l: Seq<Var>, f: spec_fn(Seq<Var>) -> Trace)
    ensures
        bind(seq![Outcome::Done(l)], f) == f(l),
{
    let t = seq![Outcome::Done(l)];
    assert(t.drop_first() =~= Seq::empty());
    assert(bind(t.drop_first(), f) =~= Seq::empty());
    assert(bind(t, f) =~= f(l));
}

pub proof fn lemma_bind_same(
    t: Trace,
    f: spec_fn(Seq<Var>) -> Trace,
    g: spec_fn(Seq<Var>) -> Trace,
)
    requires
        same_on(t, f, g),
    ensures
        bind(t, f) == bind(t, g),
    decreases t.len(),
{
    if t.len() > 0 {
        let d = t.drop_first();
        assert forall|i: int|
            0 <= i < d.len() && #[trigger] d[i] is Done implies f(d[i]->Done_0) == g(
            d[i]->Done_0,
        ) by {
            assert(t[i + 1] == d[i]);
        }
        lemma_bind_same(d, f, g);
        if let Outcome::Done(l) = t[0] {
            assert(t[0] == Outcome::Done(l));
        }
    }
}

pub proof fn lemma_bind_assoc(
    t: Trace,
    f: spec_fn(Seq<Var>) -> Trace,
    g: spec_fn(Seq<Var>) -> Trace,
)
    ensures
        bind(bind(t, f), g) == bind(t, |l: Seq<Var>| bind(f(l), g)),
    decreases t.len(),
{
    let h = |l: Seq<Var>| bind(f(l), g);
    if t.len() == 0 {
        assert(bind(t, f) =~= Seq::empty());
    } else {
        let d = t.drop_first();
        lemma_bind_assoc(d, f, g);
        match t[0] {
            Outcome::Done(l) => {
                lemma_bind_append(f(l), bind(d, f), g);
            },
            o => {
                lemma_bind_append(seq![o], bind(d, f), g);
                assert(seq![o].drop_first() =~= Seq::empty());
                assert(bind(seq![o].drop_first(), g) =~= Seq::empty());
                assert(bind(seq![o], g) =~= seq![o]);
            },
        }
    }
}

/// What every item of `bind(t, f)` comes from.
pub proof fn lemma_bind_item(t: Trace, f: spec_fn(Seq<Var>) -> Trace, i: int) -> (r: (int, int))
    requires
        0 <= i < bind(t, f).len(),
    ensures
        0 <= r.0 < t.len(),
        match t[r.0] {
            Outcome::Done(l) => 0 <= r.1 < f(l).len() && f(l)[r.1] == bind(t, f)[i],
            o => bind(t, f)[i] == o,
        },
    decreases t.len(),
{
    if t.len() == 0 {
        (0, 0)
    } else {
        let head = match t[0] {
            Outcome::Done(l) => f(l),
            o => seq![o],
        };
        if i < head.len() {
            (0, i)
        } else {
            let r = lemma_bind_item(t.drop_first(), f, i - head.len());
            (r.0 + 1, r.1)
        }
    }
}

/// Where the items that `t[i]` gives stand in `bind(t, f)`.
pub proof fn lemma_bind_place(t: Trace, f: spec_fn(Seq<Var>) -> Trace, i: int) -> (r: int)
    requires
        0 <= i < t.len(),
    ensures
        0 <= r,
        match t[i] {
            Outcome::Done(l) => r + f(l).len() <= bind(t, f).len() && bind(t, f).subrange(
                r,
                r + f(l).len(),
            ) == f(l),
            o => r < bind(t, f).len() && bind(t, f)[r] == o,
        },
    decreases t.len(),
{
    let head = match t[0] {
        Outcome::Done(l) => f(l),
        o => seq![o],
    };
    if i == 0 {
        if let Outcome::Done(l) = t[0] {
            assert(bind(t, f).subrange(0, f(l).len() as int) =~= f(l));
        }
        0
    } else {
        let r = lemma_bind_place(t.drop_first(), f, i - 1);
        if let Outcome::Done(l) = t[i] {
            assert(bind(t, f).subrange(r + head.len(), r + head.len() + f(l).len()) =~= bind(
                t.drop_first(),
                f,
            ).subrange(r, r + f(l).len()));
        }
        r + head.len()
    }
}

/// If no way of `bind(t, f)` ran out of rows, none of `t` did, nor of the continuations.
proof fn lemma_bind_no_wants(t: Trace, f: spec_fn(Seq<Var>) -> Trace)
    requires
        no_wants(bind(t, f)),
    ensures
        no_wants(t),
        forall|i: int|
            0 <= i < t.len() && #[trigger] t[i] is Done ==> no_wants(f(t[i]->Done_0)),
{
    assert forall|i: int| 0 <= i < t.len() implies !(#[trigger] t[i] is Wants) by {
        let r = lemma_bind_place(t, f, i);
        if t[i] is Wants {
            assert(bind(t, f)[r] is Wants);
        }
    }
    assert forall|i: int|
        0 <= i < t.len() && #[trigger] t[i] is Done implies no_wants(
        f(t[i]->Done_0),
    ) by {
        let l = t[i]->Done_0;
        let r = lemma_bind_place(t, f, i);
        assert forall|j: int| 0 <= j < f(l).len() implies !(#[trigger] f(l)[j] is Wants) by {
            assert(bind(t, f).subrange(r, r + f(l).len())[j] == bind(t, f)[r + j]);
        }
    }
}

proof fn lemma_extends_trans(w: Window, a: Seq<Var>, b: Seq<Var>, c: Seq<Var>)
    requires
        extends(w, a, b),
        extends(w, b, c),
    ensures
        extends(w, a, c),
{
    assert(c.take(a.len() as int) =~= b.take(a.len() as int));
}

proof fn lemma_bind_extends(w: Window, labels: Seq<Var>, t: Trace, f: spec_fn(Seq<Var>) -> Trace)
    requires
        all_extend(w, labels, t),
        forall|i: int|
            0 <= i < t.len() && #[trigger] t[i] is Done ==> all_extend(
                w,
                t[i]->Done_0,
                f(t[i]->Done_0),
            ),
    ensures
        all_extend(w, labels, bind(t, f)),
{
    assert forall|i: int|
        0 <= i < bind(t, f).len() && #[trigger] bind(t, f)[i] is Done implies extends(
        w,
        labels,
        bind(t, f)[i]->Done_0,
    ) by {
        let m = bind(t, f)[i]->Done_0;
        let r = lemma_bind_item(t, f, i);
        if let Outcome::Done(l) = t[r.0] {
            assert(t[r.0] == Outcome::Done(l));
            assert(f(l)[r.1] == Outcome::Done(m));
            lemma_extends_trans(w, labels, l, m);
        }
    }
}

/// A match in progress only ever grows, and never past the rows it sees.
pub proof fn lemma_trace_extends(p: Pattern, w: Window, labels: Seq<Var>)
    ensures
        all_extend(w, labels, trace(p, w, labels)),
    decreases p, 0nat, 0int, 0nat,
{
    match p {
        Pattern::Var(v) => {
            assert(labels.push(v@).take(labels.len() as int) =~= labels);
        },
        Pattern::Concat(ps) => {
            lemma_concat_extends(ps@, 0, w, labels);
        },
        Pattern::Alt(ps) => {
            lemma_alt_extends(ps@, 0, w, labels);
        },
        Pattern::Quantified(inner, q, reluctant) => {
            lemma_repeat_extends(*inner, least(q), extra(q), reluctant, w, labels);
        },
        Pattern::Permute(ps) => {
            lemma_permute_extends(ps@, Seq::new(ps@.len(), |i: int| i), 0, w, labels);
        },
    }
}

proof fn lemma_concat_extends(ps: Seq<Pattern>, i: int, w: Window, labels: Seq<Var>)
    ensures
        all_extend(w, labels, trace_concat(ps, i, w, labels)),
    decreases ps, 0nat, ps.len() - i, 0nat,
{
    assert(labels.take(labels.len() as int) =~= labels);
    if 0 <= i < ps.len() {
        let t = trace(ps[i], w, labels);
        let f = concat_from(ps, i + 1, w);
        lemma_trace_extends(ps[i], w, labels);
        assert forall|l: Seq<Var>| all_extend(w, l, #[trigger] f(l)) by {
            lemma_concat_extends(ps, i + 1, w, l);
        }
        lemma_bind_extends(w, labels, t, f);
    }
}

proof fn lemma_alt_extends(ps: Seq<Pattern>, i: int, w: Window, labels: Seq<Var>)
    ensures
        all_extend(w, labels, trace_alt(ps, i, w, labels)),
    decreases ps, 0nat, ps.len() - i, 0nat,
{
    if 0 <= i < ps.len() {
        lemma_trace_extends(ps[i], w, labels);
        lemma_alt_extends(ps, i + 1, w, labels);
    }
}

proof fn lemma_permute_extends(
    ps: Seq<Pattern>,
    rest: Seq<int>,
    i: int,
    w: Window,
    labels: Seq<Var>,
)
    ensures
        all_extend(w, labels, trace_permute(ps, rest, i, w, labels)),
    decreases ps, rest.len(), rest.len() - i, 0nat,
{
    assert(labels.take(labels.len() as int) =~= labels);
    if 0 <= i < rest.len() {
        if 0 <= rest[i] < ps.len() {
            let t = trace(ps[rest[i]], w, labels);
            let f = permute_from(ps, rest.remove(i), w);
            lemma_trace_extends(ps[rest[i]], w, labels);
            assert forall|l: Seq<Var>| all_extend(w, l, #[trigger] f(l)) by {
                lemma_permute_extends(ps, rest.remove(i), 0, w, l);
            }
            lemma_bind_extends(w, labels, t, f);
        }
        lemma_permute_extends(ps, rest, i + 1, w, labels);
    }
}

pub proof fn lemma_repeat_extends(
    p: Pattern,
    min: nat,
    extra: Option<nat>,
    reluctant: bool,
    w: Window,
    labels: Seq<Var>,
)
    ensures
        all_extend(w, labels, trace_repeat(p, min, extra, reluctant, w, labels)),
    decreases p, 2 + min + extra.unwrap_or(0), 0int, 0nat,
{
    assert(labels.take(labels.len() as int) =~= labels);
    let t = trace(p, w, labels);
    lemma_trace_extends(p, w, labels);
    if min > 0 {
        let f = repeat_from(p, (min - 1) as nat, extra, reluctant, w);
        assert forall|l: Seq<Var>| all_extend(w, l, #[trigger] f(l)) by {
            lemma_repeat_extends(p, (min - 1) as nat, extra, reluctant, w, l);
        }
        lemma_bind_extends(w, labels, t, f);
    } else {
        match extra {
            None => lemma_loop_extends(p, reluctant, w, labels),
            Some(k) => {
                if k > 0 {
                    let f = repeat_from(p, 0, Some((k - 1) as nat), reluctant, w);
                    assert forall|l: Seq<Var>| all_extend(w, l, #[trigger] f(l)) by {
                        lemma_repeat_extends(p, 0, Some((k - 1) as nat), reluctant, w, l);
                    }
                    lemma_bind_extends(w, labels, t, f);
                }
            },
        }
    }
}

proof fn lemma_loop_extends(p: Pattern, reluctant: bool, w: Window, labels: Seq<Var>)
    ensures
        all_extend(w, labels, trace_loop(p, reluctant, w, labels)),
    decreases p, 1nat, w.n - w.start - labels.len(), 1nat,
{
    assert(labels.take(labels.len() as int) =~= labels);
    let t = trace(p, w, labels);
    let f = loop_from(p, reluctant, w, labels.len());
    lemma_trace_extends(p, w, labels);
    assert forall|l: Seq<Var>| all_extend(w, l, #[trigger] f(l)) by {
        if labels.len() < l.len() && w.start + l.len() <= w.n {
            lemma_loop_extends(p, reluctant, w, l);
        }
    }
    lemma_bind_extends(w, labels, t, f);
}

/// `w2` shows every row that `w1` shows, and more of them or as many, with the same verdicts on
/// the rows of `w1`.
pub open spec fn covers(w1: Window, w2: Window) -> bool {
    &&& w1.n - w1.start <= w2.n - w2.start
    &&& forall|var: Var, labels: Seq<Var>|
        w1.start + labels.len() < w1.n ==> #[trigger] (w1.verdicts)(
            var,
            w1.start + labels.len(),
            labels,
        ) == (w2.verdicts)(var, w2.start + labels.len(), labels)
}

/// The two windows show equally many rows.
pub open spec fn same_rows(w1: Window, w2: Window) -> bool {
    w1.n - w1.start == w2.n - w2.start
}

proof fn lemma_bind_covers(
    t1: Trace,
    t2: Trace,
    f1: spec_fn(Seq<Var>) -> Trace,
    f2: spec_fn(Seq<Var>) -> Trace,
)
    requires
        t1 == t2,
        same_on(t1, f1, f2),
    ensures
        bind(t1, f1) == bind(t2, f2),
{
    lemma_bind_same(t1, f1, f2);
}

/// Rows after those that an attempt has read change nothing of it: an attempt that did not run out
/// of rows takes the same course where more rows follow.
pub proof fn lemma_trace_covers(p: Pattern, w1: Window, w2: Window, labels: Seq<Var>)
    requires
        covers(w1, w2),
        same_rows(w1, w2) || no_wants(trace(p, w1, labels)),
    ensures
        trace(p, w2, labels) == trace(p, w1, labels),
    decreases p, 0nat, 0int, 0nat,
{
    match p {
        Pattern::Var(v) => {
            if w1.start + labels.len() < w1.n {
                assert((w1.verdicts)(v@, w1.start + labels.len(), labels) == (w2.verdicts)(
                    v@,
                    w2.start + labels.len(),
                    labels,
                ));
            } else if !same_rows(w1, w2) {
                assert(trace(p, w1, labels)[0] is Wants);
            }
        },
        Pattern::Concat(ps) => {
            lemma_concat_covers(ps@, 0, w1, w2, labels);
        },
        Pattern::Alt(ps) => {
            lemma_alt_covers(ps@, 0, w1, w2, labels);
        },
        Pattern::Quantified(inner, q, reluctant) => {
            lemma_repeat_covers(*inner, least(q), extra(q), reluctant, w1, w2, labels);
        },
        Pattern::Permute(ps) => {
            lemma_permute_covers(ps@, Seq::new(ps@.len(), |i: int| i), 0, w1, w2, labels);
        },
    }
}

proof fn lemma_concat_covers(ps: Seq<Pattern>, i: int, w1: Window, w2: Window, labels: Seq<Var>)
    requires
        covers(w1, w2),
        same_rows(w1, w2) || no_wants(trace_concat(ps, i, w1, labels)),
    ensures
        trace_concat(ps, i, w2, labels) == trace_concat(ps, i, w1, labels),
    decreases ps, 0nat, ps.len() - i, 0nat,
{
    if 0 <= i < ps.len() {
        let t1 = trace(ps[i], w1, labels);
        let f1 = concat_from(ps, i + 1, w1);
        let f2 = concat_from(ps, i + 1, w2);
        if !same_rows(w1, w2) {
            lemma_bind_no_wants(t1, f1);
        }
        lemma_trace_covers(ps[i], w1, w2, labels);
        assert forall|j: int|
            0 <= j < t1.len() && #[trigger] t1[j] is Done implies f1(t1[j]->Done_0) == f2(
            t1[j]->Done_0,
        ) by {
            let l = t1[j]->Done_0;
            lemma_concat_covers(ps, i + 1, w1, w2, l);
        }
        lemma_bind_covers(t1, trace(ps[i], w2, labels), f1, f2);
    }
}

proof fn lemma_alt_covers(ps: Seq<Pattern>, i: int, w1: Window, w2: Window, labels: Seq<Var>)
    requires
        covers(w1, w2),
        same_rows(w1, w2) || no_wants(trace_alt(ps, i, w1, labels)),
    ensures
        trace_alt(ps, i, w2, labels) == trace_alt(ps, i, w1, labels),
    decreases ps, 0nat, ps.len() - i, 0nat,
{
    if 0 <= i < ps.len() {
        let a = trace(ps[i], w1, labels);
        let b = trace_alt(ps, i + 1, w1, labels);
        if !same_rows(w1, w2) {
            lemma_no_wants_split(a, b);
        }
        lemma_trace_covers(ps[i], w1, w2, labels);
        lemma_alt_covers(ps, i + 1, w1, w2, labels);
    }
}

proof fn lemma_no_wants_split(a: Trace, b: Trace)
    requires
        no_wants(a + b),
    ensures
        no_wants(a),
        no_wants(b),
{
    assert forall|i: int| 0 <= i < a.len() implies !(#[trigger] a[i] is Wants) by {
        assert((a + b)[i] == a[i]);
    }
    assert forall|i: int| 0 <= i < b.len() implies !(#[trigger] b[i] is Wants) by {
        assert((a + b)[a.len() + i] == b[i]);
    }
}

proof fn lemma_permute_covers(
    ps: Seq<Pattern>,
    rest: Seq<int>,
    i: int,
    w1: Window,
    w2: Window,
    labels: Seq<Var>,
)
    requires
        covers(w1, w2),
        same_rows(w1, w2) || no_wants(trace_permute(ps, rest, i, w1, labels)),
    ensures
        trace_permute(ps, rest, i, w2, labels) == trace_permute(ps, rest, i, w1, labels),
    decreases ps, rest.len(), rest.len() - i, 0nat,
{
    if 0 <= i < rest.len() {
        let b = trace_permute(ps, rest, i + 1, w1, labels);
        if 0 <= rest[i] < ps.len() {
            let t1 = trace(ps[rest[i]], w1, labels);
            let f1 = permute_from(ps, rest.remove(i), w1);
            let f2 = permute_from(ps, rest.remove(i), w2);
            if !same_rows(w1, w2) {
                lemma_no_wants_split(bind(t1, f1), b);
                lemma_bind_no_wants(t1, f1);
            }
            lemma_trace_covers(ps[rest[i]], w1, w2, labels);
            assert forall|j: int|
                0 <= j < t1.len() && #[trigger] t1[j] is Done implies f1(t1[j]->Done_0) == f2(
                t1[j]->Done_0,
            ) by {
                let l = t1[j]->Done_0;
                lemma_permute_covers(ps, rest.remove(i), 0, w1, w2, l);
            }
            lemma_bind_covers(t1, trace(ps[rest[i]], w2, labels), f1, f2);
        } else if !same_rows(w1, w2) {
            lemma_no_wants_split(Seq::empty(), b);
        }
        lemma_permute_covers(ps, rest, i + 1, w1, w2, labels);
    }
}

proof fn lemma_repeat_covers(
    p: Pattern,
    min: nat,
    extra: Option<nat>,
    reluctant: bool,
    w1: Window,
    w2: Window,
    labels: Seq<Var>,
)
    requires
        covers(w1, w2),
        same_rows(w1, w2) || no_wants(trace_repeat(p, min, extra, reluctant, w1, labels)),
    ensures
        trace_repeat(p, min, extra, reluctant, w2, labels) == trace_repeat(
            p,
            min,
            extra,
            reluctant,
            w1,
            labels,
        ),
    decreases p, 2 + min + extra.unwrap_or(0), 0int, 0nat,
{
    let t1 = trace(p, w1, labels);
    if min > 0 {
        let f1 = repeat_from(p, (min - 1) as nat, extra, reluctant, w1);
        let f2 = repeat_from(p, (min - 1) as nat, extra, reluctant, w2);
        if !same_rows(w1, w2) {
            lemma_bind_no_wants(t1, f1);
        }
        lemma_trace_covers(p, w1, w2, labels);
        assert forall|j: int|
            0 <= j < t1.len() && #[trigger] t1[j] is Done implies f1(t1[j]->Done_0) == f2(
            t1[j]->Done_0,
        ) by {
            let l = t1[j]->Done_0;
            lemma_repeat_covers(p, (min - 1) as nat, extra, reluctant, w1, w2, l);
        }
        lemma_bind_covers(t1, trace(p, w2, labels), f1, f2);
    } else {
        match extra {
            None => lemma_loop_covers(p, reluctant, w1, w2, labels),
            Some(k) => {
                if k > 0 {
                    let f1 = repeat_from(p, 0, Some((k - 1) as nat), reluctant, w1);
                    let f2 = repeat_from(p, 0, Some((k - 1) as nat), reluctant, w2);
                    if !same_rows(w1, w2) {
                        lemma_prefer_split(reluctant, bind(t1, f1), labels);
                        lemma_bind_no_wants(t1, f1);
                    }
                    lemma_trace_covers(p, w1, w2, labels);
                    assert forall|j: int|
                        0 <= j < t1.len() && #[trigger] t1[j] is Done implies f1(t1[j]->Done_0) == f2(
                        t1[j]->Done_0,
                    ) by {
                        let l = t1[j]->Done_0;
                        lemma_repeat_covers(p, 0, Some((k - 1) as nat), reluctant, w1, w2, l);
                    }
                    lemma_bind_covers(t1, trace(p, w2, labels), f1, f2);
                }
            },
        }
    }
}

proof fn lemma_prefer_split(reluctant: bool, more: Trace, labels: Seq<Var>)
    requires
        no_wants(prefer(reluctant, more, seq![Outcome::Done(labels)])),
    ensures
        no_wants(more),
{
    let none: Trace = seq![Outcome::Done(labels)];
    if reluctant {
        lemma_no_wants_split(none, more);
    } else {
        lemma_no_wants_split(more, none);
    }
}

proof fn lemma_loop_covers(p: Pattern, reluctant: bool, w1: Window, w2: Window, labels: Seq<Var>)
    requires
        covers(w1, w2),
        same_rows(w1, w2) || no_wants(trace_loop(p, reluctant, w1, labels)),
    ensures
        trace_loop(p, reluctant, w2, labels) == trace_loop(p, reluctant, w1, labels),
    decreases p, 1nat, w1.n - w1.start - labels.len(), 1nat,
{
    let t1 = trace(p, w1, labels);
    let f1 = loop_from(p, reluctant, w1, labels.len());
    let f2 = loop_from(p, reluctant, w2, labels.len());
    if !same_rows(w1, w2) {
        lemma_prefer_split(reluctant, bind(t1, f1), labels);
        lemma_bind_no_wants(t1, f1);
    }
    lemma_trace_covers(p, w1, w2, labels);
    lemma_trace_extends(p, w1, labels);
    assert forall|j: int|
        0 <= j < t1.len() && #[trigger] t1[j] is Done implies f1(t1[j]->Done_0) == f2(
        t1[j]->Done_0,
    ) by {
        let l = t1[j]->Done_0;
        assert(extends(w1, labels, l));
        if labels.len() < l.len() && w1.start + l.len() <= w1.n {
            lemma_loop_covers(p, reluctant, w1, w2, l);
        }
    }
    lemma_bind_covers(t1, trace(p, w2, labels), f1, f2);
}

} // verus!
