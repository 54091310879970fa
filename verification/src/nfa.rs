//! The automaton of a row pattern.
//!
//! A pattern is compiled into states whose labelled transitions are pattern variables. The other
//! transitions are ordered: an earlier one is preferred. A walk follows the transitions in that
//! order and backtracks, so that it meets the ways to match the pattern in the order of
//! preference.

use crate::eval::EvalRequest;
use crate::matcher::{verdict_view, CandidateMatcher};
use crate::names::names_clone;
use crate::pattern::{
    bind, concat_from, extra, least, loop_from, permute_from, prefer, repeat_from, texts, trace,
    trace_alt, trace_concat, trace_loop, trace_permute, trace_repeat, Outcome, Pattern, Quantifier,
    Trace, Var, Window,
};
use crate::scan::{
    alive, extendable, first_stop, lemma_first_stop_append, lemma_preferred_bounds, prepend, scan,
    ways, window, Goal, Span,
};
use crate::skip::{lemma_resume_advances, SkipMode};
use crate::trace::{
    extends, lemma_bind_append, lemma_bind_assoc, lemma_bind_one, lemma_bind_same,
    lemma_trace_extends,
};
use std::sync::Arc;
use vstd::prelude::*;

verus! {

/// A state of the automaton. Targets are indices of states.
#[derive(Debug)]
enum State {
    /// The pattern is matched.
    Accept,
    /// Bind a row to the variable and go on.
    Label(String, usize),
    /// Go on with one of the targets, an earlier one preferred.
    Split(Vec<usize>),
    /// Begin a repetition.
    Enter(usize),
    /// End a repetition: go back for the next one if this one has bound a row.
    Check(usize),
}

/// The automaton of a pattern.
pub struct Nfa {
    states: Arc<Vec<State>>,
    entry: usize,
    pattern: Ghost<Pattern>,
}

/// How many of the open repetitions have bound a row, with `bound` rows bound in all.
spec fn advanced(marks: Seq<nat>, bound: nat) -> nat
    decreases marks.len(),
{
    if marks.len() == 0 {
        0
    } else {
        advanced(marks.drop_last(), bound) + if marks.last() < bound {
            1nat
        } else {
            0
        }
    }
}

/// The ways to accept from state `pc`. `marks` are the numbers of rows that were bound when the
/// open repetitions began.
spec fn runs(s: Seq<State>, pc: int, w: Window, labels: Seq<Var>, marks: Seq<nat>) -> Trace
    decreases w.n - w.start - labels.len(), advanced(marks, labels.len()), 2 * pc + 1, 0int,
{
    if pc < 0 || pc >= s.len() {
        Seq::empty()
    } else {
        match s[pc] {
            State::Accept => seq![Outcome::Done(labels)],
            State::Label(v, t) => if w.start + labels.len() >= w.n {
                seq![Outcome::Wants]
            } else {
                match (w.verdicts)(v@, w.start + labels.len(), labels) {
                    Ok(true) => runs(s, t as int, w, labels.push(v@), marks),
                    Ok(false) => Seq::empty(),
                    Err(q) => seq![Outcome::Blocked(q)],
                }
            },
            State::Split(ts) => runs_split(s, pc, ts@, 0, w, labels, marks),
            State::Enter(t) => if t < pc {
                proof {
                    assert(marks.push(labels.len()).drop_last() =~= marks);
                }
                runs(s, t as int, w, labels, marks.push(labels.len()))
            } else {
                Seq::empty()
            },
            State::Check(t) => if marks.len() > 0 && marks.last() < labels.len() {
                runs(s, t as int, w, labels, marks.drop_last())
            } else {
                Seq::empty()
            },
        }
    }
}

/// The ways to accept from the targets from index `i` on of the state `pc`.
spec fn runs_split(
    s: Seq<State>,
    pc: int,
    ts: Seq<usize>,
    i: int,
    w: Window,
    labels: Seq<Var>,
    marks: Seq<nat>,
) -> Trace
    decreases
            w.n - w.start - labels.len(),
            advanced(marks, labels.len()),
            2 * pc,
            ts.len() - i,
    when pc >= 0
{
    if i < 0 || i >= ts.len() {
        Seq::empty()
    } else {
        (if ts[i] < pc {
            runs(s, ts[i] as int, w, labels, marks)
        } else {
            Seq::empty()
        }) + runs_split(s, pc, ts, i + 1, w, labels, marks)
    }
}

/// Go on from state `pc`.
spec fn run_from(s: Seq<State>, pc: int, w: Window, marks: Seq<nat>) -> spec_fn(Seq<Var>) -> Trace {
    |l: Seq<Var>| runs(s, pc, w, l, marks)
}

/// Names a state, where one is said to exist.
spec fn at(pc: int) -> bool {
    true
}

/// The states from `entry` on match `p` and then go on at `next`.
spec fn rep(s: Seq<State>, entry: int, p: Pattern, next: int) -> bool
    decreases p, 0nat, 0int,
{
    match p {
        Pattern::Var(v) => {
            &&& next < entry < s.len()
            &&& s[entry] matches State::Label(x, t) && x@ == v@ && t == next
        },
        Pattern::Concat(ps) => rep_concat(s, entry, ps@, 0, next),
        Pattern::Alt(ps) => {
            &&& next < entry < s.len()
            &&& s[entry] matches State::Split(ts) && ts@.len() == ps@.len() && rep_alt(
                s,
                entry,
                ts@,
                ps@,
                0,
                next,
            )
        },
        Pattern::Quantified(inner, q, reluctant) => rep_repeat(
            s,
            entry,
            *inner,
            least(q),
            extra(q),
            reluctant,
            next,
        ),
        Pattern::Permute(ps) => rep_permute(s, entry, ps@, Seq::new(ps@.len(), |i: int| i), next),
    }
}

spec fn rep_concat(s: Seq<State>, entry: int, ps: Seq<Pattern>, i: int, next: int) -> bool
    decreases ps, 0nat, ps.len() - i,
{
    if i < 0 || i >= ps.len() {
        entry == next
    } else {
        exists|mid: int|
            #[trigger] at(mid) && next <= mid <= entry && rep(s, entry, ps[i], mid) && rep_concat(
                s,
                mid,
                ps,
                i + 1,
                next,
            )
    }
}

spec fn rep_alt(
    s: Seq<State>,
    entry: int,
    ts: Seq<usize>,
    ps: Seq<Pattern>,
    i: int,
    next: int,
) -> bool
    decreases ps, 0nat, ps.len() - i,
{
    if i < 0 || i >= ps.len() {
        true
    } else {
        &&& next <= ts[i] < entry
        &&& rep(s, ts[i] as int, ps[i], next)
        &&& rep_alt(s, entry, ts, ps, i + 1, next)
    }
}

spec fn rep_permute(
    s: Seq<State>,
    entry: int,
    ps: Seq<Pattern>,
    rest: Seq<int>,
    next: int,
) -> bool
    decreases ps, rest.len(), rest.len() + 1,
{
    if rest.len() == 0 {
        entry == next
    } else {
        &&& next < entry < s.len()
        &&& s[entry] matches State::Split(ts) && ts@.len() == rest.len() && rep_orders(
            s,
            entry,
            ts@,
            ps,
            rest,
            0,
            next,
        )
    }
}

spec fn rep_orders(
    s: Seq<State>,
    entry: int,
    ts: Seq<usize>,
    ps: Seq<Pattern>,
    rest: Seq<int>,
    i: int,
    next: int,
) -> bool
    decreases ps, rest.len(), rest.len() - i,
{
    if i < 0 || i >= rest.len() {
        true
    } else {
        &&& next <= ts[i] < entry
        &&& 0 <= rest[i] < ps.len()
        &&& exists|mid: int|
            #[trigger] at(mid) && next <= mid <= ts[i] && rep(s, ts[i] as int, ps[rest[i]], mid)
                && rep_permute(s, mid, ps, rest.remove(i), next)
        &&& rep_orders(s, entry, ts, ps, rest, i + 1, next)
    }
}

/// The target of a two-way choice that takes one more repetition.
spec fn more_target(ts: Seq<usize>, reluctant: bool) -> int {
    if reluctant {
        ts[1] as int
    } else {
        ts[0] as int
    }
}

/// A two-way choice between one more repetition and going on at `next`.
spec fn is_choice(s: Seq<State>, entry: int, reluctant: bool, next: int) -> bool {
    &&& 0 <= next < entry < s.len()
    &&& s[entry] matches State::Split(ts) && ts@.len() == 2 && (if reluctant {
        ts@[0] == next
    } else {
        ts@[1] == next
    }) && next <= more_target(ts@, reluctant) < entry
}

spec fn rep_repeat(
    s: Seq<State>,
    entry: int,
    p: Pattern,
    min: nat,
    extra: Option<nat>,
    reluctant: bool,
    next: int,
) -> bool
    decreases p, 2 + min + extra.unwrap_or(0), 0int,
{
    if min > 0 {
        exists|mid: int|
            #[trigger] at(mid) && next <= mid <= entry && rep(s, entry, p, mid) && rep_repeat(
                s,
                mid,
                p,
                (min - 1) as nat,
                extra,
                reluctant,
                next,
            )
    } else {
        match extra {
            None => rep_loop(s, entry, p, reluctant, next),
            Some(k) => if k == 0 {
                entry == next
            } else {
                &&& is_choice(s, entry, reluctant, next)
                &&& exists|mid: int|
                    #[trigger] at(mid) && next <= mid <= more_target(s[entry]->Split_0@, reluctant) && rep(
                        s,
                        more_target(s[entry]->Split_0@, reluctant),
                        p,
                        mid,
                    ) && rep_repeat(s, mid, p, 0, Some((k - 1) as nat), reluctant, next)
            },
        }
    }
}

spec fn rep_loop(s: Seq<State>, entry: int, p: Pattern, reluctant: bool, next: int) -> bool
    decreases p, 1nat, 0int,
{
    &&& is_choice(s, entry, reluctant, next)
    &&& ({
        let e = more_target(s[entry]->Split_0@, reluctant);
        &&& next < e
        &&& s[e] matches State::Enter(b) && b < e && exists|c: int|
            #[trigger] at(c) && next < c <= b && rep(s, b as int, p, c) && (s[c] matches State::Check(t)
                && t == entry)
    })
}

/// States that agree from `next` on, `next` itself left out, match the same pattern.
spec fn same_after(s1: Seq<State>, s2: Seq<State>, next: int) -> bool {
    &&& 0 <= next
    &&& s1.len() <= s2.len()
    &&& forall|i: int| next < i < s1.len() ==> #[trigger] s1[i] == s2[i]
}

proof fn lemma_rep_frame(s1: Seq<State>, s2: Seq<State>, entry: int, p: Pattern, next: int)
    requires
        rep(s1, entry, p, next),
        same_after(s1, s2, next),
    ensures
        rep(s2, entry, p, next),
    decreases p, 0nat, 0int,
{
    match p {
        Pattern::Var(v) => {},
        Pattern::Concat(ps) => lemma_rep_concat_frame(s1, s2, entry, ps@, 0, next),
        Pattern::Alt(ps) => lemma_rep_alt_frame(
            s1,
            s2,
            entry,
            s1[entry]->Split_0@,
            ps@,
            0,
            next,
        ),
        Pattern::Quantified(inner, q, reluctant) => lemma_rep_repeat_frame(
            s1,
            s2,
            entry,
            *inner,
            least(q),
            extra(q),
            reluctant,
            next,
        ),
        Pattern::Permute(ps) => lemma_rep_permute_frame(
            s1,
            s2,
            entry,
            ps@,
            Seq::new(ps@.len(), |i: int| i),
            next,
        ),
    }
}

proof fn lemma_rep_concat_frame(
    s1: Seq<State>,
    s2: Seq<State>,
    entry: int,
    ps: Seq<Pattern>,
    i: int,
    next: int,
)
    requires
        rep_concat(s1, entry, ps, i, next),
        same_after(s1, s2, next),
    ensures
        rep_concat(s2, entry, ps, i, next),
    decreases ps, 0nat, ps.len() - i,
{
    if 0 <= i < ps.len() {
        let mid = choose|mid: int|
            #[trigger] at(mid) && next <= mid <= entry && rep(s1, entry, ps[i], mid) && rep_concat(
                s1,
                mid,
                ps,
                i + 1,
                next,
            );
        assert(at(mid));
        lemma_rep_frame(s1, s2, entry, ps[i], mid);
        lemma_rep_concat_frame(s1, s2, mid, ps, i + 1, next);
    }
}

proof fn lemma_rep_alt_frame(
    s1: Seq<State>,
    s2: Seq<State>,
    entry: int,
    ts: Seq<usize>,
    ps: Seq<Pattern>,
    i: int,
    next: int,
)
    requires
        rep_alt(s1, entry, ts, ps, i, next),
        same_after(s1, s2, next),
    ensures
        rep_alt(s2, entry, ts, ps, i, next),
    decreases ps, 0nat, ps.len() - i,
{
    if 0 <= i < ps.len() {
        lemma_rep_frame(s1, s2, ts[i] as int, ps[i], next);
        lemma_rep_alt_frame(s1, s2, entry, ts, ps, i + 1, next);
    }
}

proof fn lemma_rep_permute_frame(
    s1: Seq<State>,
    s2: Seq<State>,
    entry: int,
    ps: Seq<Pattern>,
    rest: Seq<int>,
    next: int,
)
    requires
        rep_permute(s1, entry, ps, rest, next),
        same_after(s1, s2, next),
    ensures
        rep_permute(s2, entry, ps, rest, next),
    decreases ps, rest.len(), rest.len() + 1,
{
    if rest.len() > 0 {
        lemma_rep_orders_frame(s1, s2, entry, s1[entry]->Split_0@, ps, rest, 0, next);
    }
}

proof fn lemma_rep_orders_frame(
    s1: Seq<State>,
    s2: Seq<State>,
    entry: int,
    ts: Seq<usize>,
    ps: Seq<Pattern>,
    rest: Seq<int>,
    i: int,
    next: int,
)
    requires
        rep_orders(s1, entry, ts, ps, rest, i, next),
        same_after(s1, s2, next),
    ensures
        rep_orders(s2, entry, ts, ps, rest, i, next),
    decreases ps, rest.len(), rest.len() - i,
{
    if 0 <= i < rest.len() {
        let mid = choose|mid: int|
            #[trigger] at(mid) && next <= mid <= ts[i] && rep(s1, ts[i] as int, ps[rest[i]], mid)
                && rep_permute(s1, mid, ps, rest.remove(i), next);
        assert(at(mid));
        lemma_rep_frame(s1, s2, ts[i] as int, ps[rest[i]], mid);
        lemma_rep_permute_frame(s1, s2, mid, ps, rest.remove(i), next);
        lemma_rep_orders_frame(s1, s2, entry, ts, ps, rest, i + 1, next);
    }
}

proof fn lemma_rep_repeat_frame(
    s1: Seq<State>,
    s2: Seq<State>,
    entry: int,
    p: Pattern,
    min: nat,
    extra: Option<nat>,
    reluctant: bool,
    next: int,
)
    requires
        rep_repeat(s1, entry, p, min, extra, reluctant, next),
        same_after(s1, s2, next),
    ensures
        rep_repeat(s2, entry, p, min, extra, reluctant, next),
    decreases p, 2 + min + extra.unwrap_or(0), 0int,
{
    if min > 0 {
        let mid = choose|mid: int|
            #[trigger] at(mid) && next <= mid <= entry && rep(s1, entry, p, mid) && rep_repeat(
                s1,
                mid,
                p,
                (min - 1) as nat,
                extra,
                reluctant,
                next,
            );
        assert(at(mid));
        lemma_rep_frame(s1, s2, entry, p, mid);
        lemma_rep_repeat_frame(s1, s2, mid, p, (min - 1) as nat, extra, reluctant, next);
    } else {
        match extra {
            None => {
                assert(rep_loop(s1, entry, p, reluctant, next));
                let e = more_target(s1[entry]->Split_0@, reluctant);
                let b = s1[e]->Enter_0 as int;
                let c = choose|c: int|
                    #[trigger] at(c) && next < c <= b && rep(s1, b, p, c) && (s1[c] matches State::Check(t)
                        && t == entry);
                lemma_rep_frame(s1, s2, b, p, c);
                assert(at(c));
                assert(rep_loop(s2, entry, p, reluctant, next));
            },
            Some(k) => {
                if k > 0 {
                    let b = more_target(s1[entry]->Split_0@, reluctant);
                    let mid = choose|mid: int|
                        #[trigger] at(mid) && next <= mid <= b && rep(s1, b, p, mid) && rep_repeat(
                            s1,
                            mid,
                            p,
                            0,
                            Some((k - 1) as nat),
                            reluctant,
                            next,
                        );
                    assert(at(mid));
                    lemma_rep_frame(s1, s2, b, p, mid);
                    lemma_rep_repeat_frame(
                        s1,
                        s2,
                        mid,
                        p,
                        0,
                        Some((k - 1) as nat),
                        reluctant,
                        next,
                    );
                }
            },
        }
    }
}

/// Continuations in two steps.
proof fn lemma_bind_then(
    t: Trace,
    f: spec_fn(Seq<Var>) -> Trace,
    k: spec_fn(Seq<Var>) -> Trace,
    g: spec_fn(Seq<Var>) -> Trace,
)
    requires
        forall|i: int|
            0 <= i < t.len() && #[trigger] t[i] is Done ==> g(t[i]->Done_0) == bind(
                f(t[i]->Done_0),
                k,
            ),
    ensures
        bind(t, g) == bind(bind(t, f), k),
{
    let h = |l: Seq<Var>| bind(f(l), k);
    lemma_bind_assoc(t, f, k);
    lemma_bind_same(t, g, h);
}

/// The automaton of a pattern runs through the ways to match the pattern, in their order.
proof fn lemma_runs(
    s: Seq<State>,
    entry: int,
    p: Pattern,
    next: int,
    w: Window,
    labels: Seq<Var>,
    marks: Seq<nat>,
)
    requires
        rep(s, entry, p, next),
        0 <= next,
    ensures
        runs(s, entry, w, labels, marks) == bind(trace(p, w, labels), run_from(s, next, w, marks)),
    decreases p, 0nat, 0int, 0int,
{
    let k = run_from(s, next, w, marks);
    match p {
        Pattern::Var(v) => {
            let t = trace(p, w, labels);
            if w.start + labels.len() >= w.n {
                assert(t.drop_first() =~= Seq::empty());
                assert(bind(t.drop_first(), k) =~= Seq::empty());
                assert(bind(t, k) =~= t);
            } else {
                match (w.verdicts)(v@, w.start + labels.len(), labels) {
                    Ok(true) => {
                        lemma_bind_one(labels.push(v@), k);
                    },
                    Ok(false) => {
                        assert(bind(t, k) =~= Seq::empty());
                    },
                    Err(q) => {
                        assert(t.drop_first() =~= Seq::empty());
                        assert(bind(t.drop_first(), k) =~= Seq::empty());
                        assert(bind(t, k) =~= t);
                    },
                }
            }
        },
        Pattern::Concat(ps) => lemma_runs_concat(s, entry, ps@, 0, next, w, labels, marks),
        Pattern::Alt(ps) => lemma_runs_alt(
            s,
            entry,
            s[entry]->Split_0@,
            ps@,
            0,
            next,
            w,
            labels,
            marks,
        ),
        Pattern::Quantified(inner, q, reluctant) => lemma_runs_repeat(
            s,
            entry,
            *inner,
            least(q),
            extra(q),
            reluctant,
            next,
            w,
            labels,
            marks,
        ),
        Pattern::Permute(ps) => lemma_runs_permute(
            s,
            entry,
            ps@,
            Seq::new(ps@.len(), |i: int| i),
            next,
            w,
            labels,
            marks,
        ),
    }
}

proof fn lemma_runs_concat(
    s: Seq<State>,
    entry: int,
    ps: Seq<Pattern>,
    i: int,
    next: int,
    w: Window,
    labels: Seq<Var>,
    marks: Seq<nat>,
)
    requires
        rep_concat(s, entry, ps, i, next),
        0 <= next,
    ensures
        runs(s, entry, w, labels, marks) == bind(
            trace_concat(ps, i, w, labels),
            run_from(s, next, w, marks),
        ),
    decreases ps, 0nat, ps.len() - i, 0int,
{
    let k = run_from(s, next, w, marks);
    if 0 <= i < ps.len() {
        let mid = choose|mid: int|
            #[trigger] at(mid) && next <= mid <= entry && rep(s, entry, ps[i], mid) && rep_concat(
                s,
                mid,
                ps,
                i + 1,
                next,
            );
        lemma_runs(s, entry, ps[i], mid, w, labels, marks);
        let t = trace(ps[i], w, labels);
        let f = concat_from(ps, i + 1, w);
        let g = run_from(s, mid, w, marks);
        assert forall|j: int| 0 <= j < t.len() && #[trigger] t[j] is Done implies g(t[j]->Done_0)
            == bind(f(t[j]->Done_0), k) by {
            lemma_runs_concat(s, mid, ps, i + 1, next, w, t[j]->Done_0, marks);
        }
        lemma_bind_then(t, f, k, g);
    } else {
        lemma_bind_one(labels, k);
    }
}

proof fn lemma_runs_alt(
    s: Seq<State>,
    entry: int,
    ts: Seq<usize>,
    ps: Seq<Pattern>,
    i: int,
    next: int,
    w: Window,
    labels: Seq<Var>,
    marks: Seq<nat>,
)
    requires
        rep_alt(s, entry, ts, ps, i, next),
        ts.len() == ps.len(),
        0 <= next < entry,
    ensures
        runs_split(s, entry, ts, i, w, labels, marks) == bind(
            trace_alt(ps, i, w, labels),
            run_from(s, next, w, marks),
        ),
    decreases ps, 0nat, ps.len() - i, 0int,
{
    let k = run_from(s, next, w, marks);
    if 0 <= i < ps.len() {
        lemma_runs(s, ts[i] as int, ps[i], next, w, labels, marks);
        lemma_runs_alt(s, entry, ts, ps, i + 1, next, w, labels, marks);
        lemma_bind_append(trace(ps[i], w, labels), trace_alt(ps, i + 1, w, labels), k);
    }
}

proof fn lemma_runs_permute(
    s: Seq<State>,
    entry: int,
    ps: Seq<Pattern>,
    rest: Seq<int>,
    next: int,
    w: Window,
    labels: Seq<Var>,
    marks: Seq<nat>,
)
    requires
        rep_permute(s, entry, ps, rest, next),
        0 <= next,
    ensures
        runs(s, entry, w, labels, marks) == bind(
            trace_permute(ps, rest, 0, w, labels),
            run_from(s, next, w, marks),
        ),
    decreases ps, rest.len(), rest.len() + 1, 0int,
{
    if rest.len() == 0 {
        lemma_bind_one(labels, run_from(s, next, w, marks));
    } else {
        lemma_runs_orders(s, entry, s[entry]->Split_0@, ps, rest, 0, next, w, labels, marks);
    }
}

proof fn lemma_runs_orders(
    s: Seq<State>,
    entry: int,
    ts: Seq<usize>,
    ps: Seq<Pattern>,
    rest: Seq<int>,
    i: int,
    next: int,
    w: Window,
    labels: Seq<Var>,
    marks: Seq<nat>,
)
    requires
        rep_orders(s, entry, ts, ps, rest, i, next),
        ts.len() == rest.len(),
        rest.len() > 0,
        0 <= next < entry,
    ensures
        runs_split(s, entry, ts, i, w, labels, marks) == bind(
            trace_permute(ps, rest, i, w, labels),
            run_from(s, next, w, marks),
        ),
    decreases ps, rest.len(), rest.len() - i, 0int,
{
    let k = run_from(s, next, w, marks);
    if 0 <= i < rest.len() {
        let mid = choose|mid: int|
            #[trigger] at(mid) && next <= mid <= ts[i] && rep(s, ts[i] as int, ps[rest[i]], mid)
                && rep_permute(s, mid, ps, rest.remove(i), next);
        lemma_runs(s, ts[i] as int, ps[rest[i]], mid, w, labels, marks);
        let t = trace(ps[rest[i]], w, labels);
        let f = permute_from(ps, rest.remove(i), w);
        let g = run_from(s, mid, w, marks);
        assert forall|j: int| 0 <= j < t.len() && #[trigger] t[j] is Done implies g(t[j]->Done_0)
            == bind(f(t[j]->Done_0), k) by {
            lemma_runs_permute(s, mid, ps, rest.remove(i), next, w, t[j]->Done_0, marks);
        }
        lemma_bind_then(t, f, k, g);
        lemma_runs_orders(s, entry, ts, ps, rest, i + 1, next, w, labels, marks);
        lemma_bind_append(bind(t, f), trace_permute(ps, rest, i + 1, w, labels), k);
    }
}

/// The runs from a two-way choice.
proof fn lemma_runs_choice(
    s: Seq<State>,
    entry: int,
    reluctant: bool,
    next: int,
    w: Window,
    labels: Seq<Var>,
    marks: Seq<nat>,
    more: Trace,
)
    requires
        is_choice(s, entry, reluctant, next),
        runs(s, more_target(s[entry]->Split_0@, reluctant), w, labels, marks) == bind(
            more,
            run_from(s, next, w, marks),
        ),
    ensures
        runs(s, entry, w, labels, marks) == bind(
            prefer(reluctant, more, seq![Outcome::Done(labels)]),
            run_from(s, next, w, marks),
        ),
{
    let k = run_from(s, next, w, marks);
    let ts = s[entry]->Split_0@;
    let none = seq![Outcome::Done(labels)];
    lemma_bind_one(labels, k);
    assert(runs_split(s, entry, ts, 2, w, labels, marks) =~= Seq::empty());
    assert(runs_split(s, entry, ts, 1, w, labels, marks) =~= runs(
        s,
        ts[1] as int,
        w,
        labels,
        marks,
    ));
    assert(runs_split(s, entry, ts, 0, w, labels, marks) =~= runs(
        s,
        ts[0] as int,
        w,
        labels,
        marks,
    ) + runs(s, ts[1] as int, w, labels, marks));
    if reluctant {
        lemma_bind_append(none, more, k);
        assert(runs(s, entry, w, labels, marks) =~= bind(none, k) + bind(more, k));
    } else {
        lemma_bind_append(more, none, k);
        assert(runs(s, entry, w, labels, marks) =~= bind(more, k) + bind(none, k));
    }
}

proof fn lemma_runs_repeat(
    s: Seq<State>,
    entry: int,
    p: Pattern,
    min: nat,
    extra: Option<nat>,
    reluctant: bool,
    next: int,
    w: Window,
    labels: Seq<Var>,
    marks: Seq<nat>,
)
    requires
        rep_repeat(s, entry, p, min, extra, reluctant, next),
        0 <= next,
    ensures
        runs(s, entry, w, labels, marks) == bind(
            trace_repeat(p, min, extra, reluctant, w, labels),
            run_from(s, next, w, marks),
        ),
    decreases p, 2 + min + extra.unwrap_or(0), 0int, 0int,
{
    let k = run_from(s, next, w, marks);
    let t = trace(p, w, labels);
    if min > 0 {
        let mid = choose|mid: int|
            #[trigger] at(mid) && next <= mid <= entry && rep(s, entry, p, mid) && rep_repeat(
                s,
                mid,
                p,
                (min - 1) as nat,
                extra,
                reluctant,
                next,
            );
        lemma_runs(s, entry, p, mid, w, labels, marks);
        let f = repeat_from(p, (min - 1) as nat, extra, reluctant, w);
        let g = run_from(s, mid, w, marks);
        assert forall|j: int| 0 <= j < t.len() && #[trigger] t[j] is Done implies g(t[j]->Done_0)
            == bind(f(t[j]->Done_0), k) by {
            lemma_runs_repeat(
                s,
                mid,
                p,
                (min - 1) as nat,
                extra,
                reluctant,
                next,
                w,
                t[j]->Done_0,
                marks,
            );
        }
        lemma_bind_then(t, f, k, g);
    } else {
        match extra {
            None => lemma_runs_loop(s, entry, p, reluctant, next, w, labels, marks),
            Some(n) => {
                if n == 0 {
                    lemma_bind_one(labels, k);
                } else {
                    let b = more_target(s[entry]->Split_0@, reluctant);
                    let mid = choose|mid: int|
                        #[trigger] at(mid) && next <= mid <= b && rep(s, b, p, mid) && rep_repeat(
                            s,
                            mid,
                            p,
                            0,
                            Some((n - 1) as nat),
                            reluctant,
                            next,
                        );
                    lemma_runs(s, b, p, mid, w, labels, marks);
                    let f = repeat_from(p, 0, Some((n - 1) as nat), reluctant, w);
                    let g = run_from(s, mid, w, marks);
                    assert forall|j: int|
                        0 <= j < t.len() && #[trigger] t[j] is Done implies g(t[j]->Done_0)
                        == bind(f(t[j]->Done_0), k) by {
                        lemma_runs_repeat(
                            s,
                            mid,
                            p,
                            0,
                            Some((n - 1) as nat),
                            reluctant,
                            next,
                            w,
                            t[j]->Done_0,
                            marks,
                        );
                    }
                    lemma_bind_then(t, f, k, g);
                    lemma_runs_choice(s, entry, reluctant, next, w, labels, marks, bind(t, f));
                }
            },
        }
    }
}

proof fn lemma_runs_loop(
    s: Seq<State>,
    entry: int,
    p: Pattern,
    reluctant: bool,
    next: int,
    w: Window,
    labels: Seq<Var>,
    marks: Seq<nat>,
)
    requires
        rep_loop(s, entry, p, reluctant, next),
        0 <= next,
    ensures
        runs(s, entry, w, labels, marks) == bind(
            trace_loop(p, reluctant, w, labels),
            run_from(s, next, w, marks),
        ),
    decreases p, 1nat, w.n - w.start - labels.len(), 0int,
{
    let k = run_from(s, next, w, marks);
    let t = trace(p, w, labels);
    let e = more_target(s[entry]->Split_0@, reluctant);
    let b = s[e]->Enter_0 as int;
    let c = choose|c: int|
        #[trigger] at(c) && next < c <= b && rep(s, b, p, c) && (s[c] matches State::Check(x) && x
            == entry);
    let inner_marks = marks.push(labels.len());
    assert(inner_marks.drop_last() =~= marks);
    lemma_runs(s, b, p, c, w, labels, inner_marks);
    let f = loop_from(p, reluctant, w, labels.len());
    let g = run_from(s, c, w, inner_marks);
    lemma_trace_extends(p, w, labels);
    assert forall|j: int| 0 <= j < t.len() && #[trigger] t[j] is Done implies g(t[j]->Done_0)
        == bind(f(t[j]->Done_0), k) by {
        let l = t[j]->Done_0;
        assert(extends(w, labels, l));
        if labels.len() < l.len() {
            lemma_runs_loop(s, entry, p, reluctant, next, w, l, marks);
            assert(g(l) == runs(s, entry, w, l, marks));
        } else {
            assert(g(l) =~= Seq::empty());
            assert(bind(f(l), k) =~= Seq::empty());
        }
    }
    lemma_bind_then(t, f, k, g);
    lemma_runs_choice(s, entry, reluctant, next, w, labels, marks, bind(t, f));
}

/// Going on at the accepting state changes nothing.
proof fn lemma_bind_accept(s: Seq<State>, w: Window, t: Trace)
    requires
        s.len() > 0,
        s[0] is Accept,
    ensures
        bind(t, run_from(s, 0, w, Seq::empty())) == t,
    decreases t.len(),
{
    let k = run_from(s, 0, w, Seq::empty());
    if t.len() > 0 {
        lemma_bind_accept(s, w, t.drop_first());
        assert(bind(t, k) =~= t);
    } else {
        assert(bind(t, k) =~= t);
    }
}

/// Every target is a state, and a target of a choice or of the begin of a repetition is an earlier
/// state.
spec fn linked(s: Seq<State>) -> bool {
    forall|i: int|
        0 <= i < s.len() ==> match #[trigger] s[i] {
            State::Accept => true,
            State::Label(_, t) => t < s.len(),
            State::Split(ts) => forall|j: int| 0 <= j < ts@.len() ==> #[trigger] ts@[j] < i,
            State::Enter(t) => t < i,
            State::Check(t) => t < s.len(),
        }
}

/// `s2` is `s1` and more states after it.
spec fn grown(s1: Seq<State>, s2: Seq<State>) -> bool {
    &&& s1.len() <= s2.len()
    &&& forall|i: int| 0 <= i < s1.len() ==> #[trigger] s1[i] == s2[i]
}

proof fn lemma_rep_alt_intro(
    s: Seq<State>,
    entry: int,
    ts: Seq<usize>,
    ps: Seq<Pattern>,
    i: int,
    next: int,
)
    requires
        0 <= i,
        forall|j: int|
            0 <= j < ps.len() ==> next <= #[trigger] ts[j] < entry && rep(
                s,
                ts[j] as int,
                ps[j],
                next,
            ),
    ensures
        rep_alt(s, entry, ts, ps, i, next),
    decreases ps.len() - i,
{
    if i < ps.len() {
        lemma_rep_alt_intro(s, entry, ts, ps, i + 1, next);
    }
}

/// The state `t` begins the orders that put the pattern with the index `rest[j]` first.
spec fn begins_order(
    s: Seq<State>,
    t: int,
    ps: Seq<Pattern>,
    rest: Seq<int>,
    j: int,
    next: int,
) -> bool {
    &&& next <= t
    &&& 0 <= rest[j] < ps.len()
    &&& exists|mid: int|
        #[trigger] at(mid) && next <= mid <= t && rep(s, t, ps[rest[j]], mid) && rep_permute(
            s,
            mid,
            ps,
            rest.remove(j),
            next,
        )
}

proof fn lemma_begins_order_frame(
    s1: Seq<State>,
    s2: Seq<State>,
    t: int,
    ps: Seq<Pattern>,
    rest: Seq<int>,
    j: int,
    next: int,
)
    requires
        begins_order(s1, t, ps, rest, j, next),
        same_after(s1, s2, next),
    ensures
        begins_order(s2, t, ps, rest, j, next),
{
    let mid = choose|mid: int|
        #[trigger] at(mid) && next <= mid <= t && rep(s1, t, ps[rest[j]], mid) && rep_permute(
            s1,
            mid,
            ps,
            rest.remove(j),
            next,
        );
    lemma_rep_frame(s1, s2, t, ps[rest[j]], mid);
    lemma_rep_permute_frame(s1, s2, mid, ps, rest.remove(j), next);
    assert(at(mid));
}

proof fn lemma_rep_orders_intro(
    s: Seq<State>,
    entry: int,
    ts: Seq<usize>,
    ps: Seq<Pattern>,
    rest: Seq<int>,
    i: int,
    next: int,
)
    requires
        0 <= i,
        forall|j: int|
            0 <= j < rest.len() ==> #[trigger] ts[j] < entry && begins_order(
                s,
                ts[j] as int,
                ps,
                rest,
                j,
                next,
            ),
    ensures
        rep_orders(s, entry, ts, ps, rest, i, next),
    decreases rest.len() - i,
{
    if i < rest.len() {
        lemma_rep_orders_intro(s, entry, ts, ps, rest, i + 1, next);
        let t = ts[i] as int;
        assert(begins_order(s, t, ps, rest, i, next));
        let mid = choose|mid: int|
            #[trigger] at(mid) && next <= mid <= t && rep(s, t, ps[rest[i]], mid) && rep_permute(
                s,
                mid,
                ps,
                rest.remove(i),
                next,
            );
        assert(at(mid));
    }
}

/// The indices that a list holds.
spec fn indices(v: Seq<usize>) -> Seq<int> {
    v.map_values(|i: usize| i as int)
}

/// Add the states that match `p` and then go on at `next`.
fn emit(p: &Pattern, states: &mut Vec<State>, next: usize) -> (entry: usize)
    requires
        next < old(states)@.len(),
        linked(old(states)@),
    ensures
        linked(final(states)@),
        grown(old(states)@, final(states)@),
        next <= entry < final(states)@.len(),
        rep(final(states)@, entry as int, *p, next as int),
    decreases *p, 0nat, 0int,
{
    match p {
        Pattern::Var(v) => {
            let entry: usize = states.len();
            states.push(State::Label(v.clone(), next));
            entry
        },
        Pattern::Concat(ps) => {
            let mut entry: usize = next;
            let mut i: usize = ps.len();
            while i > 0
                invariant
                    i <= ps@.len(),
                    *p == Pattern::Concat(*ps),
                    next < old(states)@.len(),
                    linked(states@),
                    grown(old(states)@, states@),
                    next <= entry < states@.len(),
                    rep_concat(states@, entry as int, ps@, i as int, next as int),
                decreases i,
            {
                let ghost before = states@;
                let mid: usize = entry;
                i = i - 1;
                assert(decreases_to!(*p => p->Concat_0));
                assert(decreases_to!(p->Concat_0@ => ps@[i as int]));
                entry = emit(&ps[i], states, mid);
                proof {
                    lemma_rep_concat_frame(before, states@, mid as int, ps@, i + 1, next as int);
                    assert(at(mid as int));
                }
            }
            entry
        },
        Pattern::Alt(ps) => {
            let mut ts: Vec<usize> = Vec::new();
            let mut i: usize = 0;
            while i < ps.len()
                invariant
                    i <= ps@.len(),
                    i == ts@.len(),
                    *p == Pattern::Alt(*ps),
                    next < old(states)@.len(),
                    linked(states@),
                    grown(old(states)@, states@),
                    forall|j: int|
                        0 <= j < i ==> next <= #[trigger] ts@[j] < states@.len() && rep(
                            states@,
                            ts@[j] as int,
                            ps@[j],
                            next as int,
                        ),
                decreases ps@.len() - i,
            {
                let ghost before = states@;
                assert(decreases_to!(*p => p->Alt_0));
                assert(decreases_to!(p->Alt_0@ => ps@[i as int]));
                let t: usize = emit(&ps[i], states, next);
                proof {
                    assert forall|j: int| 0 <= j < i implies rep(
                        states@,
                        #[trigger] ts@[j] as int,
                        ps@[j],
                        next as int,
                    ) by {
                        lemma_rep_frame(before, states@, ts@[j] as int, ps@[j], next as int);
                    }
                }
                ts.push(t);
                i = i + 1;
            }
            let entry: usize = states.len();
            let ghost before = states@;
            let ghost targets = ts@;
            states.push(State::Split(ts));
            proof {
                assert forall|j: int| 0 <= j < ps@.len() implies next <= #[trigger] targets[j]
                    < entry && rep(states@, targets[j] as int, ps@[j], next as int) by {
                    lemma_rep_frame(before, states@, targets[j] as int, ps@[j], next as int);
                }
                lemma_rep_alt_intro(states@, entry as int, targets, ps@, 0, next as int);
            }
            entry
        },
        Pattern::Quantified(inner, q, reluctant) => {
            let (min, extra): (u32, Option<u32>) = match q {
                Quantifier::Star => (0, None),
                Quantifier::Plus => (1, None),
                Quantifier::Question => (0, Some(1)),
                Quantifier::Range { min, max } => match max {
                    None => (*min, None),
                    Some(m) => (*min, Some(if *m > *min {
                        *m - *min
                    } else {
                        0
                    })),
                },
            };
            emit_repeat(inner, min, extra, *reluctant, states, next)
        },
        Pattern::Permute(ps) => {
            let mut rest: Vec<usize> = Vec::new();
            let mut i: usize = 0;
            while i < ps.len()
                invariant
                    i <= ps@.len(),
                    i == rest@.len(),
                    forall|j: int| 0 <= j < i ==> rest@[j] == j,
                decreases ps@.len() - i,
            {
                rest.push(i);
                i = i + 1;
            }
            assert(indices(rest@) =~= Seq::new(ps@.len(), |i: int| i));
            emit_permute(ps, &rest, states, next)
        },
    }
}

/// Add the states that match the patterns with the indices `rest` in any order.
fn emit_permute(
    ps: &Vec<Pattern>,
    rest: &Vec<usize>,
    states: &mut Vec<State>,
    next: usize,
) -> (entry: usize)
    requires
        next < old(states)@.len(),
        linked(old(states)@),
        forall|j: int| 0 <= j < rest@.len() ==> #[trigger] rest@[j] < ps@.len(),
    ensures
        linked(final(states)@),
        grown(old(states)@, final(states)@),
        next <= entry < final(states)@.len(),
        rep_permute(final(states)@, entry as int, ps@, indices(rest@), next as int),
    decreases *ps, rest@.len(), 0int,
{
    if rest.len() == 0 {
        return next;
    }
    let ghost r = indices(rest@);
    let mut ts: Vec<usize> = Vec::new();
    let mut i: usize = 0;
    while i < rest.len()
        invariant
            i <= rest@.len(),
            i == ts@.len(),
            r == indices(rest@),
            next < old(states)@.len(),
            linked(states@),
            grown(old(states)@, states@),
            forall|j: int| 0 <= j < rest@.len() ==> #[trigger] rest@[j] < ps@.len(),
            forall|j: int|
                0 <= j < i ==> #[trigger] ts@[j] < states@.len() && begins_order(
                    states@,
                    ts@[j] as int,
                    ps@,
                    r,
                    j,
                    next as int,
                ),
        decreases rest@.len() - i,
    {
        let ghost before = states@;
        let mut others: Vec<usize> = Vec::new();
        let mut j: usize = 0;
        while j < rest.len()
            invariant
                i < rest@.len(),
                j <= rest@.len(),
                others@ == (if j <= i {
                    rest@.take(j as int)
                } else {
                    rest@.take(i as int) + rest@.subrange(i + 1, j as int)
                }),
            decreases rest@.len() - j,
        {
            if j != i {
                others.push(rest[j]);
            }
            j = j + 1;
            if j <= i {
                assert(rest@.take(j as int) =~= rest@.take(j - 1).push(rest@[j - 1]));
            } else if j == i + 1 {
                assert(rest@.take(i as int) + rest@.subrange(i + 1, j as int) =~= rest@.take(
                    i as int,
                ));
            } else {
                assert(rest@.subrange(i + 1, j as int) =~= rest@.subrange(i + 1, j - 1).push(
                    rest@[j - 1],
                ));
                assert(rest@.take(i as int) + rest@.subrange(i + 1, j as int) =~= (rest@.take(
                    i as int,
                ) + rest@.subrange(i + 1, j - 1)).push(rest@[j - 1]));
            }
        }
        assert(others@ =~= rest@.remove(i as int));
        assert(indices(others@) =~= r.remove(i as int));
        let mid: usize = emit_permute(ps, &others, states, next);
        let ghost middle = states@;
        let t: usize = emit(&ps[rest[i]], states, mid);
        proof {
            assert forall|j: int| 0 <= j < i implies begins_order(
                states@,
                #[trigger] ts@[j] as int,
                ps@,
                r,
                j,
                next as int,
            ) by {
                lemma_begins_order_frame(
                    before,
                    states@,
                    ts@[j] as int,
                    ps@,
                    r,
                    j,
                    next as int,
                );
            }
            lemma_rep_permute_frame(
                middle,
                states@,
                mid as int,
                ps@,
                r.remove(i as int),
                next as int,
            );
            assert(at(mid as int));
            assert(begins_order(states@, t as int, ps@, r, i as int, next as int));
        }
        ts.push(t);
        i = i + 1;
    }
    let entry: usize = states.len();
    let ghost before = states@;
    let ghost targets = ts@;
    states.push(State::Split(ts));
    proof {
        assert forall|j: int| 0 <= j < r.len() implies #[trigger] targets[j] < entry
            && begins_order(states@, targets[j] as int, ps@, r, j, next as int) by {
            lemma_begins_order_frame(
                before,
                states@,
                targets[j] as int,
                ps@,
                r,
                j,
                next as int,
            );
        }
        lemma_rep_orders_intro(states@, entry as int, targets, ps@, r, 0, next as int);
    }
    entry
}

/// The number of repetitions beyond the least.
spec fn extra_nat(extra: Option<u32>) -> Option<nat> {
    match extra {
        None => None,
        Some(k) => Some(k as nat),
    }
}

/// Add the states that match `p` the given number of times.
fn emit_repeat(
    p: &Pattern,
    min: u32,
    extra: Option<u32>,
    reluctant: bool,
    states: &mut Vec<State>,
    next: usize,
) -> (entry: usize)
    requires
        next < old(states)@.len(),
        linked(old(states)@),
    ensures
        linked(final(states)@),
        grown(old(states)@, final(states)@),
        next <= entry < final(states)@.len(),
        rep_repeat(
            final(states)@,
            entry as int,
            *p,
            min as nat,
            extra_nat(extra),
            reluctant,
            next as int,
        ),
    decreases *p, 1nat, 0int,
{
    let mut entry: usize = next;
    match extra {
        None => {
            entry = emit_loop(p, reluctant, states, next);
        },
        Some(k) => {
            let mut i: u32 = 0;
            while i < k
                invariant
                    i <= k,
                    next < old(states)@.len(),
                    linked(states@),
                    grown(old(states)@, states@),
                    next <= entry < states@.len(),
                    rep_repeat(
                        states@,
                        entry as int,
                        *p,
                        0,
                        Some(i as nat),
                        reluctant,
                        next as int,
                    ),
                decreases k - i,
            {
                let ghost before = states@;
                let mid: usize = entry;
                let b: usize = emit(p, states, mid);
                entry = states.len();
                let ghost middle = states@;
                let ts: Vec<usize> = if reluctant {
                    vec![next, b]
                } else {
                    vec![b, next]
                };
                states.push(State::Split(ts));
                i = i + 1;
                proof {
                    lemma_rep_repeat_frame(
                        before,
                        states@,
                        mid as int,
                        *p,
                        0,
                        Some((i - 1) as nat),
                        reluctant,
                        next as int,
                    );
                    lemma_rep_frame(middle, states@, b as int, *p, mid as int);
                    assert(at(mid as int));
                    assert(is_choice(states@, entry as int, reluctant, next as int));
                    assert(more_target(states@[entry as int]->Split_0@, reluctant) == b);
                }
            }
        },
    }
    let mut i: u32 = 0;
    while i < min
        invariant
            i <= min,
            next < old(states)@.len(),
            linked(states@),
            grown(old(states)@, states@),
            next <= entry < states@.len(),
            rep_repeat(
                states@,
                entry as int,
                *p,
                i as nat,
                extra_nat(extra),
                reluctant,
                next as int,
            ),
        decreases min - i,
    {
        let ghost before = states@;
        let mid: usize = entry;
        entry = emit(p, states, mid);
        i = i + 1;
        proof {
            lemma_rep_repeat_frame(
                before,
                states@,
                mid as int,
                *p,
                (i - 1) as nat,
                extra_nat(extra),
                reluctant,
                next as int,
            );
            assert(at(mid as int));
        }
    }
    entry
}

/// Add the states that match `p` any number of times.
fn emit_loop(p: &Pattern, reluctant: bool, states: &mut Vec<State>, next: usize) -> (entry: usize)
    requires
        next < old(states)@.len(),
        linked(old(states)@),
    ensures
        linked(final(states)@),
        grown(old(states)@, final(states)@),
        next <= entry < final(states)@.len(),
        rep_loop(final(states)@, entry as int, *p, reluctant, next as int),
    decreases *p, 0nat, 1int,
{
    let c: usize = states.len();
    states.push(State::Check(next));
    let ghost opened = states@;
    let b: usize = emit(p, states, c);
    let ghost body = states@;
    let e: usize = states.len();
    states.push(State::Enter(b));
    let entry: usize = states.len();
    let ts: Vec<usize> = if reluctant {
        vec![next, e]
    } else {
        vec![e, next]
    };
    states.push(State::Split(ts));
    states[c] = State::Check(entry);
    proof {
        assert forall|i: int| 0 <= i < old(states)@.len() implies #[trigger] old(states)@[i]
            == states@[i] by {
            assert(opened[i] == body[i]);
        }
        lemma_rep_frame(body, states@, b as int, *p, c as int);
        assert(at(c as int));
        assert(is_choice(states@, entry as int, reluctant, next as int));
        assert(more_target(states@[entry as int]->Split_0@, reluctant) == e);
    }
    entry
}

/// The numbers of bound rows.
spec fn nats(v: Seq<usize>) -> Seq<nat> {
    v.map_values(|m: usize| m as nat)
}

/// What a walk ends with.
enum Found {
    /// The pattern is matched; the variables of the rows.
    Done(Vec<String>),
    /// The rows ran out.
    Wants,
}

/// The model of what a walk ends with.
spec fn found(r: Result<Option<Found>, EvalRequest>) -> Option<Outcome> {
    match r {
        Ok(None) => None,
        Ok(Some(Found::Done(l))) => Some(Outcome::Done(texts(l@))),
        Ok(Some(Found::Wants)) => Some(Outcome::Wants),
        Err(q) => Some(Outcome::Blocked(q@)),
    }
}

/// Walk from state `pc`, with `labels` bound to the rows from `start` on, to the first outcome
/// that the goal asks for.
fn walk<M: CandidateMatcher>(
    states: &Vec<State>,
    pc: usize,
    start: usize,
    n: usize,
    labels: &mut Vec<String>,
    marks: &mut Vec<usize>,
    m: &M,
    goal: Goal,
) -> (r: Result<Option<Found>, EvalRequest>)
    requires
        linked(states@),
        pc < states@.len(),
        start + old(labels)@.len() <= n,
        m.first() <= start,
        n <= m.rows(),
    ensures
        found(r) == first_stop(
            runs(
                states@,
                pc as int,
                window(m.verdicts(), start as int, n as int),
                texts(old(labels)@),
                nats(old(marks)@),
            ),
            goal,
            window(m.verdicts(), start as int, n as int),
        ),
        r matches Ok(None) ==> final(labels)@ == old(labels)@ && final(marks)@ == old(marks)@,
    decreases
            n - start - old(labels)@.len(),
            advanced(nats(old(marks)@), old(labels)@.len()),
            pc,
{
    let ghost w = window(m.verdicts(), start as int, n as int);
    let ghost s = states@;
    let ghost l0 = labels@;
    let ghost m0 = marks@;
    let ghost all = runs(s, pc as int, w, texts(l0), nats(m0));
    match &states[pc] {
        State::Accept => {
            assert(all =~= seq![Outcome::Done(texts(l0))]);
            assert(all.drop_first() =~= Seq::empty());
            assert(first_stop(all.drop_first(), goal, w) is None);
            let stop: bool = match goal {
                Goal::Reach => start + labels.len() == n,
                _ => true,
            };
            if stop {
                Ok(Some(Found::Done(names_clone(labels.as_slice()))))
            } else {
                Ok(None)
            }
        },
        State::Label(v, t) => {
            if start + labels.len() >= n {
                assert(all.drop_first() =~= Seq::empty());
                assert(first_stop(all.drop_first(), goal, w) is None);
                return match goal {
                    Goal::Match => Ok(None),
                    _ => Ok(Some(Found::Wants)),
                };
            }
            match m.matches(v, start + labels.len(), labels.as_slice()) {
                Ok(true) => {
                    labels.push(v.clone());
                    assert(texts(labels@) =~= texts(l0).push(v@));
                    let r = walk(states, *t, start, n, labels, marks, m, goal);
                    if let Ok(None) = &r {
                        let _ = labels.pop();
                        assert(labels@ =~= l0);
                    }
                    r
                },
                Ok(false) => Ok(None),
                Err(q) => {
                    assert(all.drop_first() =~= Seq::empty());
                    Err(q)
                },
            }
        },
        State::Split(ts) => {
            let mut i: usize = 0;
            while i < ts.len()
                invariant
                    i <= ts@.len(),
                    states@ == s,
                    linked(s),
                    pc < s.len(),
                    s[pc as int] == State::Split(*ts),
                    labels@ == l0,
                    marks@ == m0,
                    l0 == old(labels)@,
                    m0 == old(marks)@,
                    start + l0.len() <= n,
                    m.first() <= start,
                    n <= m.rows(),
                    w == window(m.verdicts(), start as int, n as int),
                    all == runs(s, pc as int, w, texts(l0), nats(m0)),
                    first_stop(all, goal, w) == first_stop(
                        runs_split(s, pc as int, ts@, i as int, w, texts(l0), nats(m0)),
                        goal,
                        w,
                    ),
                decreases ts@.len() - i,
            {
                proof {
                    lemma_first_stop_append(
                        runs(s, ts@[i as int] as int, w, texts(l0), nats(m0)),
                        runs_split(s, pc as int, ts@, i + 1, w, texts(l0), nats(m0)),
                        goal,
                        w,
                    );
                }
                match walk(states, ts[i], start, n, labels, marks, m, goal) {
                    Ok(None) => {},
                    r => {
                        return r;
                    },
                }
                i = i + 1;
            }
            Ok(None)
        },
        State::Enter(t) => {
            marks.push(labels.len());
            assert(nats(marks@) =~= nats(m0).push(texts(l0).len()));
            assert(nats(marks@).drop_last() =~= nats(m0));
            let r = walk(states, *t, start, n, labels, marks, m, goal);
            if let Ok(None) = &r {
                let _ = marks.pop();
                assert(marks@ =~= m0);
            }
            r
        },
        State::Check(t) => {
            if marks.len() == 0 {
                return Ok(None);
            }
            let mark: usize = marks[marks.len() - 1];
            assert(nats(m0).last() == mark);
            if mark >= labels.len() {
                return Ok(None);
            }
            let _ = marks.pop();
            assert(nats(marks@) =~= nats(m0).drop_last());
            let r = walk(states, *t, start, n, labels, marks, m, goal);
            if let Ok(None) = &r {
                marks.push(mark);
                assert(marks@ =~= m0);
            }
            r
        },
    }
}

/// A match: rows `start` up to `end`, and the variables that they are bound to.
#[derive(Debug, PartialEq, Eq)]
pub struct LabeledMatch {
    pub start: usize,
    /// One past the last row.
    pub end: usize,
    pub labels: Vec<String>,
}

impl View for LabeledMatch {
    type V = Span;

    open spec fn view(&self) -> Span {
        Span { start: self.start as int, labels: texts(self.labels@) }
    }
}

impl LabeledMatch {
    /// There is a variable for each row.
    pub open spec fn wf(&self) -> bool {
        self.end == self.start + self.labels@.len()
    }
}

/// The matches of a list.
pub open spec fn spans(l: Seq<LabeledMatch>) -> Seq<Span> {
    l.map_values(|m: LabeledMatch| m@)
}

impl Nfa {
    /// The states match the pattern and then accept.
    #[verifier::type_invariant]
    spec fn compiled(self) -> bool {
        &&& linked((*self.states)@)
        &&& (*self.states)@.len() > 0
        &&& (*self.states)@[0] is Accept
        &&& self.entry < (*self.states)@.len()
        &&& rep((*self.states)@, self.entry as int, self.pattern@, 0)
    }

    /// The pattern that the automaton was compiled from.
    pub closed spec fn pattern(&self) -> Pattern {
        self.pattern@
    }

    /// Compile a pattern.
    pub fn compile(pattern: &Pattern) -> (r: Self)
        ensures
            r.pattern() == *pattern,
    {
        let mut states: Vec<State> = Vec::new();
        states.push(State::Accept);
        let ghost before = states@;
        let entry: usize = emit(pattern, &mut states, 0);
        assert(before[0] == states@[0]);
        Nfa { states: Arc::new(states), entry, pattern: Ghost(*pattern) }
    }

    /// The first of the ways to match from row `start` on that the goal asks for.
    fn first<M: CandidateMatcher>(&self, start: usize, n: usize, m: &M, goal: Goal) -> (r: Result<
        Option<Found>,
        EvalRequest,
    >)
        requires
            m.first() <= start <= n,
            n <= m.rows(),
        ensures
            found(r) == first_stop(
                ways(self.pattern(), m.verdicts(), start as int, n as int),
                goal,
                window(m.verdicts(), start as int, n as int),
            ),
    {
        proof {
            use_type_invariant(self);
        }
        let ghost w = window(m.verdicts(), start as int, n as int);
        let mut labels: Vec<String> = Vec::new();
        let mut marks: Vec<usize> = Vec::new();
        proof {
            let s = (*self.states)@;
            let t = ways(self.pattern(), m.verdicts(), start as int, n as int);
            assert(texts(labels@) =~= Seq::empty());
            assert(nats(marks@) =~= Seq::empty());
            lemma_runs(
                s,
                self.entry as int,
                self.pattern@,
                0,
                w,
                Seq::empty(),
                Seq::empty(),
            );
            lemma_bind_accept(s, w, t);
        }
        walk(&*self.states, self.entry, start, n, &mut labels, &mut marks, m, goal)
    }

    /// Whether the match of the rows from `start` up to `end` can still change with more rows:
    /// whether a way that is preferred over it ran out of rows.
    pub fn may_extend<M: CandidateMatcher>(&self, start: usize, end: usize, m: &M) -> (r: Result<
        bool,
        EvalRequest,
    >)
        requires
            m.first() <= start <= end,
            end <= m.rows(),
        ensures
            verdict_view(r) == extendable(
                self.pattern(),
                m.verdicts(),
                start as int,
                end as int,
            ),
    {
        match self.first(start, end, m, Goal::Decide) {
            Ok(Some(Found::Wants)) => Ok(true),
            Ok(_) => Ok(false),
            Err(q) => Err(q),
        }
    }

    /// Whether some way to match from row `start` on reaches the end of the rows before `n`. If
    /// none does, rows that follow do not change what the attempt at `start` finds.
    pub fn reaches_boundary_alive<M: CandidateMatcher>(&self, start: usize, n: usize, m: &M) -> (r:
        Result<bool, EvalRequest>)
        requires
            m.first() <= start <= n,
            n <= m.rows(),
        ensures
            verdict_view(r) == alive(self.pattern(), m.verdicts(), start as int, n as int),
    {
        match self.first(start, n, m, Goal::Reach) {
            Ok(Some(_)) => Ok(true),
            Ok(None) => Ok(false),
            Err(q) => Err(q),
        }
    }

    /// Scan the rows before `n` for matches.
    pub fn find_matches_dynamic<M: CandidateMatcher>(&self, n: usize, m: &M, skip: &SkipMode) -> (r:
        Result<Vec<LabeledMatch>, EvalRequest>)
        requires
            m.first() <= 0,
            n <= m.rows(),
        ensures
            match scan(self.pattern(), m.verdicts(), skip@, n as int, 0) {
                Ok(s) => r is Ok && spans(r->Ok_0@) == s && forall|i: int|
                    0 <= i < r->Ok_0@.len() ==> (#[trigger] r->Ok_0@[i]).wf(),
                Err(q) => r is Err && r->Err_0@ == q,
            },
    {
        let ghost p = self.pattern();
        let ghost v = m.verdicts();
        let mut out: Vec<LabeledMatch> = Vec::new();
        let mut cursor: usize = 0;
        proof {
            assert(spans(out@) =~= Seq::empty());
            if let Ok(s) = scan(p, v, skip@, n as int, 0) {
                assert(spans(out@) + s =~= s);
            }
        }
        while cursor < n
            invariant
                cursor <= n,
                m.first() <= 0,
                n <= m.rows(),
                p == self.pattern(),
                v == m.verdicts(),
                forall|i: int| 0 <= i < out@.len() ==> (#[trigger] out@[i]).wf(),
                scan(p, v, skip@, n as int, 0) == prepend(
                    spans(out@),
                    scan(p, v, skip@, n as int, cursor as int),
                ),
            decreases n - cursor,
        {
            proof {
                lemma_preferred_bounds(p, v, cursor as int, n as int);
            }
            match self.first(cursor, n, m, Goal::Match) {
                Err(q) => {
                    return Err(q);
                },
                Ok(Some(Found::Done(labels))) if labels.len() > 0 => {
                    let end: usize = cursor + labels.len();
                    let (next, _) = skip.next_pos(cursor, end, &labels);
                    proof {
                        lemma_resume_advances(skip@, cursor as int, texts(labels@));
                    }
                    let ghost before = out@;
                    let found = LabeledMatch { start: cursor, end, labels };
                    out.push(found);
                    proof {
                        assert(spans(out@) =~= spans(before).push(found@));
                        if let Ok(s) = scan(p, v, skip@, n as int, next as int) {
                            assert(spans(before) + (seq![found@] + s) =~= spans(out@) + s);
                        }
                    }
                    cursor = next;
                },
                Ok(_) => {
                    cursor = cursor + 1;
                },
            }
        }
        proof {
            assert(spans(out@) + Seq::empty() =~= spans(out@));
        }
        Ok(out)
    }
}

impl Clone for Nfa {
    fn clone(&self) -> (r: Self)
        ensures
            r.pattern() == self.pattern(),
    {
        proof {
            use_type_invariant(self);
        }
        Nfa { states: Arc::clone(&self.states), entry: self.entry, pattern: self.pattern }
    }
}

} // verus!
