//! What patterns match: which rows the ways to match a pattern bind, and which way comes first.

use crate::eval::Request;
use crate::pattern::{
    bind, concat_from, loop_from, permute_from, prefer, repeat_from, trace, trace_alt, trace_concat,
    trace_loop, trace_permute, trace_repeat, Outcome, Pattern, Quantifier, Trace, Var, Verdicts,
    Window,
};
use crate::scan::{first_stop, lemma_first_stop_append, preferred, window, Goal};
use crate::trace::{
    extends, lemma_bind_item, lemma_bind_one, lemma_bind_place, lemma_bind_same,
    lemma_trace_extends, same_on,
};
use vstd::prelude::*;

verus! {

/// One way to match `p` is done with the variables `l`, where `labels` are bound before it.
pub open spec fn leads(p: Pattern, w: Window, labels: Seq<Var>, l: Seq<Var>) -> bool {
    trace(p, w, labels).contains(Outcome::Done(l))
}

/// The patterns are matched one after the other, and `mids` are the variables that are bound before
/// the first of them, between them, and after the last.
pub open spec fn is_chain(ps: Seq<Pattern>, w: Window, mids: Seq<Seq<Var>>) -> bool {
    &&& mids.len() == ps.len() + 1
    &&& forall|i: int| 0 <= i < ps.len() ==> leads(#[trigger] ps[i], w, mids[i], mids[i + 1])
}

/// The patterns can be matched one after the other, from where `labels` are bound to where `l` are.
pub open spec fn reaches(ps: Seq<Pattern>, w: Window, labels: Seq<Var>, l: Seq<Var>) -> bool {
    exists|mids: Seq<Seq<Var>>| #[trigger]
        is_chain(ps, w, mids) && mids[0] == labels && mids[ps.len() as int] == l
}

/// The pattern, `j` times.
pub open spec fn times(p: Pattern, j: nat) -> Seq<Pattern> {
    Seq::new(j, |i: int| p)
}

proof fn lemma_reaches_none(w: Window, labels: Seq<Var>, l: Seq<Var>)
    ensures
        reaches(Seq::empty(), w, labels, l) <==> labels == l,
{
    if labels == l {
        assert(is_chain(Seq::empty(), w, seq![labels]));
    }
}

proof fn lemma_reaches_first(ps: Seq<Pattern>, w: Window, labels: Seq<Var>, l: Seq<Var>) -> (m: Seq<
    Var,
>)
    requires
        ps.len() > 0,
        reaches(ps, w, labels, l),
    ensures
        leads(ps[0], w, labels, m),
        reaches(ps.drop_first(), w, m, l),
{
    let mids = choose|mids: Seq<Seq<Var>>| #[trigger]
        is_chain(ps, w, mids) && mids[0] == labels && mids[ps.len() as int] == l;
    let d = ps.drop_first();
    let rest = mids.drop_first();
    assert(is_chain(d, w, rest)) by {
        assert forall|i: int| 0 <= i < d.len() implies leads(
            #[trigger] d[i],
            w,
            rest[i],
            rest[i + 1],
        ) by {
            assert(d[i] == ps[i + 1]);
        }
    }
    mids[1]
}

proof fn lemma_reaches_then(
    ps: Seq<Pattern>,
    w: Window,
    labels: Seq<Var>,
    m: Seq<Var>,
    l: Seq<Var>,
)
    requires
        ps.len() > 0,
        leads(ps[0], w, labels, m),
        reaches(ps.drop_first(), w, m, l),
    ensures
        reaches(ps, w, labels, l),
{
    let d = ps.drop_first();
    let rest = choose|mids: Seq<Seq<Var>>| #[trigger]
        is_chain(d, w, mids) && mids[0] == m && mids[d.len() as int] == l;
    let mids = seq![labels] + rest;
    assert forall|i: int| 0 <= i < ps.len() implies leads(
        #[trigger] ps[i],
        w,
        mids[i],
        mids[i + 1],
    ) by {
        if i > 0 {
            assert(d[i - 1] == ps[i]);
            assert(mids[i] == rest[i - 1]);
        }
    }
    assert(is_chain(ps, w, mids));
}

proof fn lemma_bind_done(t: Trace, f: spec_fn(Seq<Var>) -> Trace, l: Seq<Var>) -> (m: Seq<Var>)
    requires
        bind(t, f).contains(Outcome::Done(l)),
    ensures
        t.contains(Outcome::Done(m)),
        f(m).contains(Outcome::Done(l)),
{
    let i = choose|i: int| 0 <= i < bind(t, f).len() && bind(t, f)[i] == Outcome::Done(l);
    let (a, b) = lemma_bind_item(t, f, i);
    let m = t[a]->Done_0;
    assert(t[a] == Outcome::Done(m));
    assert(f(m)[b] == Outcome::Done(l));
    m
}

proof fn lemma_done_bind(t: Trace, f: spec_fn(Seq<Var>) -> Trace, m: Seq<Var>, l: Seq<Var>)
    requires
        t.contains(Outcome::Done(m)),
        f(m).contains(Outcome::Done(l)),
    ensures
        bind(t, f).contains(Outcome::Done(l)),
{
    let i = choose|i: int| 0 <= i < t.len() && t[i] == Outcome::Done(m);
    let next = f(m);
    let j = choose|j: int| 0 <= j < next.len() && next[j] == Outcome::Done(l);
    let r = lemma_bind_place(t, f, i);
    let part = bind(t, f).subrange(r, r + next.len());
    assert(part[j] == Outcome::Done(l));
    assert(bind(t, f)[r + j] == Outcome::Done(l));
}

proof fn lemma_append_contains(a: Trace, b: Trace, o: Outcome)
    ensures
        (a + b).contains(o) <==> a.contains(o) || b.contains(o),
{
    if a.contains(o) {
        let i = choose|i: int| 0 <= i < a.len() && a[i] == o;
        assert((a + b)[i] == o);
    }
    if b.contains(o) {
        let i = choose|i: int| 0 <= i < b.len() && b[i] == o;
        assert((a + b)[a.len() + i] == o);
    }
    if (a + b).contains(o) {
        let i = choose|i: int| 0 <= i < (a + b).len() && (a + b)[i] == o;
        if i < a.len() {
            assert(a[i] == o);
        } else {
            assert(b[i - a.len()] == o);
        }
    }
}

/// A variable takes one row, the next one, where the verdict on it is yes.
pub proof fn lemma_variable_matches(s: String, w: Window, labels: Seq<Var>, l: Seq<Var>)
    ensures
        leads(Pattern::Var(s), w, labels, l) <==> w.start + labels.len() < w.n && l == labels.push(
            s@,
        ) && (w.verdicts)(s@, w.start + labels.len(), labels) == Ok::<bool, Request>(
            true,
        ),
        trace(Pattern::Var(s), w, labels).len() <= 1,
        w.start + labels.len() >= w.n ==> trace(Pattern::Var(s), w, labels) == seq![Outcome::Wants],
        w.start + labels.len() < w.n ==> match (w.verdicts)(
            s@,
            w.start + labels.len(),
            labels,
        ) {
            Ok(true) => trace(Pattern::Var(s), w, labels) == seq![Outcome::Done(labels.push(s@))],
            Ok(false) => trace(Pattern::Var(s), w, labels).len() == 0,
            Err(q) => trace(Pattern::Var(s), w, labels) == seq![Outcome::Blocked(q)],
        },
{
    let t = trace(Pattern::Var(s), w, labels);
    if t.len() > 0 {
        assert(t[0] == t[0]);
        if t[0] == Outcome::Done(l) {
            assert(t.contains(Outcome::Done(l)));
        }
    }
}

/// A concatenation matches what its patterns match one after the other.
pub proof fn lemma_concat_matches(ps: Vec<Pattern>, w: Window, labels: Seq<Var>, l: Seq<Var>)
    ensures
        leads(Pattern::Concat(ps), w, labels, l) <==> reaches(ps@, w, labels, l),
{
    lemma_concat_reaches(ps@, 0, w, labels, l);
    assert(ps@.skip(0) =~= ps@);
}

proof fn lemma_concat_reaches(
    ps: Seq<Pattern>,
    i: int,
    w: Window,
    labels: Seq<Var>,
    l: Seq<Var>,
)
    requires
        0 <= i <= ps.len(),
    ensures
        trace_concat(ps, i, w, labels).contains(Outcome::Done(l)) <==> reaches(
            ps.skip(i),
            w,
            labels,
            l,
        ),
    decreases ps.len() - i,
{
    let rest = ps.skip(i);
    if i == ps.len() {
        assert(rest =~= Seq::empty());
        lemma_reaches_none(w, labels, l);
        let t = trace_concat(ps, i, w, labels);
        assert(t =~= seq![Outcome::Done(labels)]);
        assert(t[0] == Outcome::Done(labels));
    } else {
        let f = concat_from(ps, i + 1, w);
        let t = trace(ps[i], w, labels);
        assert(rest.drop_first() =~= ps.skip(i + 1));
        assert(rest[0] == ps[i]);
        if bind(t, f).contains(Outcome::Done(l)) {
            let m = lemma_bind_done(t, f, l);
            lemma_concat_reaches(ps, i + 1, w, m, l);
            lemma_reaches_then(rest, w, labels, m, l);
        }
        if reaches(rest, w, labels, l) {
            let m = lemma_reaches_first(rest, w, labels, l);
            lemma_concat_reaches(ps, i + 1, w, m, l);
            lemma_done_bind(t, f, m, l);
        }
    }
}

/// An alternation matches what one of its patterns matches.
pub proof fn lemma_alternation_matches(ps: Vec<Pattern>, w: Window, labels: Seq<Var>, l: Seq<Var>)
    ensures
        leads(Pattern::Alt(ps), w, labels, l) <==> exists|i: int|
            0 <= i < ps@.len() && leads(#[trigger] ps@[i], w, labels, l),
{
    lemma_alt_leads(ps@, 0, w, labels, l);
}

proof fn lemma_alt_leads(ps: Seq<Pattern>, i: int, w: Window, labels: Seq<Var>, l: Seq<Var>)
    requires
        0 <= i <= ps.len(),
    ensures
        trace_alt(ps, i, w, labels).contains(Outcome::Done(l)) <==> exists|k: int|
            i <= k < ps.len() && leads(#[trigger] ps[k], w, labels, l),
    decreases ps.len() - i,
{
    if i < ps.len() {
        lemma_alt_leads(ps, i + 1, w, labels, l);
        lemma_append_contains(
            trace(ps[i], w, labels),
            trace_alt(ps, i + 1, w, labels),
            Outcome::Done(l),
        );
        if leads(ps[i], w, labels, l) {
            assert(leads(ps[i], w, labels, l));
        }
    }
}

/// How often a quantified pattern may be matched: what `*`, `+`, `?` and `{n,m}` say. Where `m` is
/// less than `n` it is `n` times.
spec fn may_repeat(q: Quantifier, j: nat) -> bool {
    match q {
        Quantifier::Star => true,
        Quantifier::Plus => 1 <= j,
        Quantifier::Question => j <= 1,
        Quantifier::Range { min, max: None } => min <= j,
        Quantifier::Range { min, max: Some(m) } => min <= j <= m || j == min,
    }
}

/// A quantified pattern matches what its pattern matches as often as the quantifier says.
proof fn lemma_quantified_matches(
    p: Box<Pattern>,
    q: Quantifier,
    reluctant: bool,
    w: Window,
    labels: Seq<Var>,
    l: Seq<Var>,
)
    ensures
        leads(Pattern::Quantified(p, q, reluctant), w, labels, l) <==> exists|j: nat|
            #![trigger times(*p, j)]
            may_repeat(q, j) && reaches(times(*p, j), w, labels, l),
{
    let min = crate::pattern::least(q);
    let extra = crate::pattern::extra(q);
    let full = Pattern::Quantified(p, q, reluctant);
    if leads(full, w, labels, l) {
        let j = lemma_repeat_some(*p, min, extra, reluctant, w, labels, l);
        assert(may_repeat(q, j) && reaches(times(*p, j), w, labels, l));
    }
    if exists|j: nat|
        #![trigger times(*p, j)]
        may_repeat(q, j) && reaches(times(*p, j), w, labels, l) {
        let j = choose|j: nat|
            #![trigger times(*p, j)]
            may_repeat(q, j) && reaches(times(*p, j), w, labels, l);
        lemma_some_repeat(*p, min, extra, reluctant, w, labels, l, j);
    }
}

/// `{n,m}` matches what the pattern matches at least `n` times and at most `m` times, one time after
/// the other, and `n` times where `m` is less; `{n,}` has no bound. Which number of times is
/// preferred makes no difference to what is matched.
pub proof fn lemma_range_matches(
    p: Box<Pattern>,
    min: u32,
    max: u32,
    reluctant: bool,
    w: Window,
    labels: Seq<Var>,
    l: Seq<Var>,
)
    ensures
        min <= max ==> (leads(
            Pattern::Quantified(p, Quantifier::Range { min, max: Some(max) }, reluctant),
            w,
            labels,
            l,
        ) <==> exists|j: nat|
            #![trigger times(*p, j)]
            min <= j <= max && reaches(times(*p, j), w, labels, l)),
        max < min ==> (leads(
            Pattern::Quantified(p, Quantifier::Range { min, max: Some(max) }, reluctant),
            w,
            labels,
            l,
        ) <==> reaches(times(*p, min as nat), w, labels, l)),
        leads(
            Pattern::Quantified(p, Quantifier::Range { min, max: None }, reluctant),
            w,
            labels,
            l,
        ) <==> exists|j: nat|
            #![trigger times(*p, j)]
            min <= j && reaches(times(*p, j), w, labels, l),
{
    lemma_quantified_matches(
        p,
        Quantifier::Range { min, max: Some(max) },
        reluctant,
        w,
        labels,
        l,
    );
    lemma_quantified_matches(p, Quantifier::Range { min, max: None }, reluctant, w, labels, l);
    let least = times(*p, min as nat);
    assert(least.len() == min);
}

/// `*` matches what the pattern matches any number of times, `+` what it matches at least once, and
/// `?` what it matches once and what it does not match at all.
pub proof fn lemma_repetition_matches(
    p: Box<Pattern>,
    reluctant: bool,
    w: Window,
    labels: Seq<Var>,
    l: Seq<Var>,
)
    ensures
        leads(Pattern::Quantified(p, Quantifier::Star, reluctant), w, labels, l) <==> exists|j: nat|
            #![trigger times(*p, j)]
            reaches(times(*p, j), w, labels, l),
        leads(Pattern::Quantified(p, Quantifier::Plus, reluctant), w, labels, l) <==> exists|j: nat|
            #![trigger times(*p, j)]
            j >= 1 && reaches(times(*p, j), w, labels, l),
        leads(Pattern::Quantified(p, Quantifier::Question, reluctant), w, labels, l) <==> l == labels
            || leads(*p, w, labels, l),
{
    lemma_quantified_matches(p, Quantifier::Star, reluctant, w, labels, l);
    lemma_quantified_matches(p, Quantifier::Plus, reluctant, w, labels, l);
    lemma_quantified_matches(p, Quantifier::Question, reluctant, w, labels, l);
    lemma_reaches_none(w, labels, l);
    lemma_reaches_none(w, l, l);
    let none = times(*p, 0);
    let once = times(*p, 1);
    assert(none =~= Seq::empty());
    lemma_times_next(*p, 1);
    if reaches(once, w, labels, l) {
        let m = lemma_reaches_first(once, w, labels, l);
        lemma_reaches_none(w, m, l);
    }
    if leads(*p, w, labels, l) {
        lemma_reaches_then(once, w, labels, l, l);
    }
    assert(may_repeat(Quantifier::Question, 0));
    assert(may_repeat(Quantifier::Question, 1));
}

proof fn lemma_times_next(p: Pattern, j: nat)
    requires
        j > 0,
    ensures
        times(p, j).drop_first() == times(p, (j - 1) as nat),
        times(p, j)[0] == p,
{
    assert(times(p, j).drop_first() =~= times(p, (j - 1) as nat));
}

proof fn lemma_prefer_contains(reluctant: bool, more: Trace, none: Trace, o: Outcome)
    ensures
        prefer(reluctant, more, none).contains(o) <==> more.contains(o) || none.contains(o),
{
    lemma_append_contains(more, none, o);
    lemma_append_contains(none, more, o);
}

proof fn lemma_repeat_some(
    p: Pattern,
    min: nat,
    extra: Option<nat>,
    reluctant: bool,
    w: Window,
    labels: Seq<Var>,
    l: Seq<Var>,
) -> (j: nat)
    requires
        trace_repeat(p, min, extra, reluctant, w, labels).contains(Outcome::Done(l)),
    ensures
        min <= j,
        extra matches Some(k) ==> j <= min + k,
        reaches(times(p, j), w, labels, l),
    decreases min + extra.unwrap_or(0),
{
    let t = trace(p, w, labels);
    if min > 0 {
        let f = repeat_from(p, (min - 1) as nat, extra, reluctant, w);
        let m = lemma_bind_done(t, f, l);
        let j = lemma_repeat_some(p, (min - 1) as nat, extra, reluctant, w, m, l);
        lemma_times_next(p, j + 1);
        lemma_reaches_then(times(p, j + 1), w, labels, m, l);
        j + 1
    } else {
        match extra {
            None => lemma_loop_some(p, reluctant, w, labels, l),
            Some(k) => {
                let none = seq![Outcome::Done(labels)];
                lemma_reaches_none(w, labels, l);
                assert(times(p, 0) =~= Seq::empty());
                if k == 0 {
                    0
                } else {
                    let f = repeat_from(p, 0, Some((k - 1) as nat), reluctant, w);
                    lemma_prefer_contains(reluctant, bind(t, f), none, Outcome::Done(l));
                    if bind(t, f).contains(Outcome::Done(l)) {
                        let m = lemma_bind_done(t, f, l);
                        let j = lemma_repeat_some(
                            p,
                            0,
                            Some((k - 1) as nat),
                            reluctant,
                            w,
                            m,
                            l,
                        );
                        lemma_times_next(p, j + 1);
                        lemma_reaches_then(times(p, j + 1), w, labels, m, l);
                        j + 1
                    } else {
                        0
                    }
                }
            },
        }
    }
}

proof fn lemma_loop_some(p: Pattern, reluctant: bool, w: Window, labels: Seq<Var>, l: Seq<Var>) -> (j:
    nat)
    requires
        trace_loop(p, reluctant, w, labels).contains(Outcome::Done(l)),
    ensures
        reaches(times(p, j), w, labels, l),
    decreases w.n - w.start - labels.len(),
{
    let t = trace(p, w, labels);
    let f = loop_from(p, reluctant, w, labels.len());
    let none = seq![Outcome::Done(labels)];
    lemma_prefer_contains(reluctant, bind(t, f), none, Outcome::Done(l));
    lemma_reaches_none(w, labels, l);
    assert(times(p, 0) =~= Seq::empty());
    if bind(t, f).contains(Outcome::Done(l)) {
        let m = lemma_bind_done(t, f, l);
        assert(labels.len() < m.len() && w.start + m.len() <= w.n);
        let j = lemma_loop_some(p, reluctant, w, m, l);
        lemma_times_next(p, j + 1);
        lemma_reaches_then(times(p, j + 1), w, labels, m, l);
        j + 1
    } else {
        0
    }
}

proof fn lemma_some_repeat(
    p: Pattern,
    min: nat,
    extra: Option<nat>,
    reluctant: bool,
    w: Window,
    labels: Seq<Var>,
    l: Seq<Var>,
    j: nat,
)
    requires
        min <= j,
        extra matches Some(k) ==> j <= min + k,
        reaches(times(p, j), w, labels, l),
    ensures
        trace_repeat(p, min, extra, reluctant, w, labels).contains(Outcome::Done(l)),
    decreases j,
{
    let t = trace(p, w, labels);
    if min > 0 {
        let f = repeat_from(p, (min - 1) as nat, extra, reluctant, w);
        lemma_times_next(p, j);
        let m = lemma_reaches_first(times(p, j), w, labels, l);
        lemma_some_repeat(p, (min - 1) as nat, extra, reluctant, w, m, l, (j - 1) as nat);
        lemma_done_bind(t, f, m, l);
    } else {
        match extra {
            None => lemma_some_loop(p, reluctant, w, labels, l, j),
            Some(k) => {
                let none = seq![Outcome::Done(labels)];
                if j == 0 {
                    assert(times(p, 0) =~= Seq::empty());
                    lemma_reaches_none(w, labels, l);
                    assert(none[0] == Outcome::Done(l));
                    if k > 0 {
                        let f = repeat_from(p, 0, Some((k - 1) as nat), reluctant, w);
                        lemma_prefer_contains(reluctant, bind(t, f), none, Outcome::Done(l));
                    }
                } else {
                    let f = repeat_from(p, 0, Some((k - 1) as nat), reluctant, w);
                    lemma_times_next(p, j);
                    let m = lemma_reaches_first(times(p, j), w, labels, l);
                    lemma_some_repeat(
                        p,
                        0,
                        Some((k - 1) as nat),
                        reluctant,
                        w,
                        m,
                        l,
                        (j - 1) as nat,
                    );
                    lemma_done_bind(t, f, m, l);
                    lemma_prefer_contains(reluctant, bind(t, f), none, Outcome::Done(l));
                }
            },
        }
    }
}

proof fn lemma_some_loop(
    p: Pattern,
    reluctant: bool,
    w: Window,
    labels: Seq<Var>,
    l: Seq<Var>,
    j: nat,
)
    requires
        reaches(times(p, j), w, labels, l),
    ensures
        trace_loop(p, reluctant, w, labels).contains(Outcome::Done(l)),
    decreases j,
{
    let t = trace(p, w, labels);
    let f = loop_from(p, reluctant, w, labels.len());
    let none = seq![Outcome::Done(labels)];
    lemma_prefer_contains(reluctant, bind(t, f), none, Outcome::Done(l));
    if j == 0 {
        assert(times(p, 0) =~= Seq::empty());
        lemma_reaches_none(w, labels, l);
        assert(none[0] == Outcome::Done(l));
    } else {
        lemma_times_next(p, j);
        let m = lemma_reaches_first(times(p, j), w, labels, l);
        lemma_done_extends(p, w, labels, m);
        if m.len() == labels.len() {
            assert(m =~= labels);
            lemma_some_loop(p, reluctant, w, labels, l, (j - 1) as nat);
        } else {
            lemma_some_loop(p, reluctant, w, m, l, (j - 1) as nat);
            lemma_done_bind(t, f, m, l);
        }
    }
}

/// What a way binds is what was bound before it, and rows behind it that there are.
proof fn lemma_done_extends(p: Pattern, w: Window, labels: Seq<Var>, l: Seq<Var>)
    requires
        leads(p, w, labels, l),
    ensures
        labels.len() <= l.len(),
        l.take(labels.len() as int) == labels,
        w.start + l.len() <= w.n || l.len() == labels.len(),
        l.len() == labels.len() ==> l == labels,
{
    lemma_trace_extends(p, w, labels);
    let t = trace(p, w, labels);
    let i = choose|i: int| 0 <= i < t.len() && t[i] == Outcome::Done(l);
    assert(t[i] is Done);
    assert(extends(w, labels, l));
    if l.len() == labels.len() {
        assert(l.take(labels.len() as int) =~= l);
    }
}

/// `PERMUTE` matches what its patterns match one after the other in some order of them, each once.
pub proof fn lemma_permute_matches(ps: Vec<Pattern>, w: Window, labels: Seq<Var>, l: Seq<Var>)
    ensures
        leads(Pattern::Permute(ps), w, labels, l) <==> exists|order: Seq<int>|
            #![trigger order.to_multiset()]
            order.to_multiset() == Seq::new(ps@.len(), |i: int| i).to_multiset() && reaches(
                order.map_values(|i: int| ps@[i]),
                w,
                labels,
                l,
            ),
{
    let all = Seq::new(ps@.len(), |i: int| i);
    let pick = |i: int| ps@[i];
    if leads(Pattern::Permute(ps), w, labels, l) {
        let order = lemma_permute_some(ps@, all, 0, w, labels, l);
        assert(order.map_values(pick) =~= order.map_values(|i: int| ps@[i]));
    }
    if exists|order: Seq<int>|
        #![trigger order.to_multiset()]
        order.to_multiset() == all.to_multiset() && reaches(
            order.map_values(|i: int| ps@[i]),
            w,
            labels,
            l,
        ) {
        let order = choose|order: Seq<int>|
            #![trigger order.to_multiset()]
            order.to_multiset() == all.to_multiset() && reaches(
                order.map_values(|i: int| ps@[i]),
                w,
                labels,
                l,
            );
        assert(order.map_values(pick) =~= order.map_values(|i: int| ps@[i]));
        lemma_some_permute(ps@, all, w, labels, l, order);
    }
}

proof fn lemma_permute_some(
    ps: Seq<Pattern>,
    rest: Seq<int>,
    i: int,
    w: Window,
    labels: Seq<Var>,
    l: Seq<Var>,
) -> (order: Seq<int>)
    requires
        0 <= i <= rest.len(),
        forall|k: int| 0 <= k < rest.len() ==> 0 <= #[trigger] rest[k] < ps.len(),
        trace_permute(ps, rest, i, w, labels).contains(Outcome::Done(l)),
    ensures
        order.to_multiset() == rest.to_multiset(),
        reaches(order.map_values(|k: int| ps[k]), w, labels, l),
    decreases rest.len(), rest.len() - i,
{
    let pick = |k: int| ps[k];
    if rest.len() == 0 {
        let t = trace_permute(ps, rest, i, w, labels);
        assert(t =~= seq![Outcome::Done(labels)]);
        lemma_reaches_none(w, labels, l);
        assert(rest.map_values(pick) =~= Seq::empty());
        rest
    } else if i >= rest.len() {
        assert(false);
        rest
    } else {
        let f = permute_from(ps, rest.remove(i), w);
        let t = trace(ps[rest[i]], w, labels);
        lemma_append_contains(
            bind(t, f),
            trace_permute(ps, rest, i + 1, w, labels),
            Outcome::Done(l),
        );
        if bind(t, f).contains(Outcome::Done(l)) {
            let m = lemma_bind_done(t, f, l);
            let left = rest.remove(i);
            assert forall|k: int| 0 <= k < left.len() implies 0 <= #[trigger] left[k]
                < ps.len() by {
                if k < i {
                    assert(left[k] == rest[k]);
                } else {
                    assert(left[k] == rest[k + 1]);
                }
            }
            let tail = lemma_permute_some(ps, left, 0, w, m, l);
            let order = seq![rest[i]] + tail;
            lemma_multiset_first(order);
            assert(order.drop_first() =~= tail);
            rest.to_multiset_ensures();
            assert(rest.to_multiset().count(rest[i]) > 0);
            assert(left.to_multiset() =~= rest.to_multiset().remove(rest[i]));
            assert(order.to_multiset() =~= rest.to_multiset());
            let mapped = order.map_values(pick);
            assert(mapped.drop_first() =~= tail.map_values(pick));
            assert(mapped[0] == ps[rest[i]]);
            lemma_reaches_then(mapped, w, labels, m, l);
            order
        } else {
            lemma_permute_some(ps, rest, i + 1, w, labels, l)
        }
    }
}

/// A sequence holds its first item and what the others hold.
proof fn lemma_multiset_first(s: Seq<int>)
    requires
        s.len() > 0,
    ensures
        s.to_multiset() == s.drop_first().to_multiset().insert(s[0]),
{
    s.to_multiset_ensures();
    assert(s.remove(0) =~= s.drop_first());
    assert(s.to_multiset().count(s[0]) > 0);
    assert(s.drop_first().to_multiset() =~= s.to_multiset().remove(s[0]));
    assert(s.to_multiset() =~= s.drop_first().to_multiset().insert(s[0]));
}

proof fn lemma_some_permute(
    ps: Seq<Pattern>,
    rest: Seq<int>,
    w: Window,
    labels: Seq<Var>,
    l: Seq<Var>,
    order: Seq<int>,
)
    requires
        forall|k: int| 0 <= k < rest.len() ==> 0 <= #[trigger] rest[k] < ps.len(),
        order.to_multiset() == rest.to_multiset(),
        reaches(order.map_values(|k: int| ps[k]), w, labels, l),
    ensures
        trace_permute(ps, rest, 0, w, labels).contains(Outcome::Done(l)),
    decreases rest.len(),
{
    let pick = |k: int| ps[k];
    order.to_multiset_ensures();
    rest.to_multiset_ensures();
    assert(order.len() == rest.len());
    let mapped = order.map_values(pick);
    if rest.len() == 0 {
        assert(mapped =~= Seq::empty());
        lemma_reaches_none(w, labels, l);
        let t = trace_permute(ps, rest, 0, w, labels);
        assert(t[0] == Outcome::Done(l));
    } else {
        assert(order.contains(order[0]));
        assert(rest.to_multiset().count(order[0]) > 0);
        assert(rest.contains(order[0]));
        let i = choose|i: int| 0 <= i < rest.len() && rest[i] == order[0];
        let left = rest.remove(i);
        assert forall|k: int| 0 <= k < left.len() implies 0 <= #[trigger] left[k] < ps.len() by {
            if k < i {
                assert(left[k] == rest[k]);
            } else {
                assert(left[k] == rest[k + 1]);
            }
        }
        let m = lemma_reaches_first(mapped, w, labels, l);
        let tail = order.drop_first();
        assert(mapped.drop_first() =~= tail.map_values(pick));
        lemma_multiset_first(order);
        assert(left.to_multiset() =~= rest.to_multiset().remove(rest[i]));
        assert(tail.to_multiset() =~= left.to_multiset());
        lemma_some_permute(ps, left, w, m, l, tail);
        let f = permute_from(ps, left, w);
        lemma_done_bind(trace(ps[rest[i]], w, labels), f, m, l);
        lemma_permute_has(ps, rest, 0, i, w, labels, l);
    }
}

proof fn lemma_permute_has(
    ps: Seq<Pattern>,
    rest: Seq<int>,
    from: int,
    i: int,
    w: Window,
    labels: Seq<Var>,
    l: Seq<Var>,
)
    requires
        0 <= from <= i < rest.len(),
        0 <= rest[i] < ps.len(),
        bind(trace(ps[rest[i]], w, labels), permute_from(ps, rest.remove(i), w)).contains(
            Outcome::Done(l),
        ),
    ensures
        trace_permute(ps, rest, from, w, labels).contains(Outcome::Done(l)),
    decreases i - from,
{
    let head = if 0 <= rest[from] < ps.len() {
        bind(trace(ps[rest[from]], w, labels), permute_from(ps, rest.remove(from), w))
    } else {
        Seq::empty()
    };
    lemma_append_contains(
        head,
        trace_permute(ps, rest, from + 1, w, labels),
        Outcome::Done(l),
    );
    if from < i {
        lemma_permute_has(ps, rest, from + 1, i, w, labels, l);
    }
}

/// A way that goes on: each way of `t` that is done is continued by the ways of `f`, in its place.
pub proof fn lemma_bind_is_in_place(t: Trace, f: spec_fn(Seq<Var>) -> Trace)
    ensures
        bind(t, f) == t.map_values(
            |o: Outcome|
                match o {
                    Outcome::Done(l) => f(l),
                    other => seq![other],
                },
        ).flatten(),
    decreases t.len(),
{
    let g = |o: Outcome|
        match o {
            Outcome::Done(l) => f(l),
            other => seq![other],
        };
    if t.len() == 0 {
        assert(t.map_values(g) =~= Seq::empty());
        assert(bind(t, f) =~= t.map_values(g).flatten());
    } else {
        lemma_bind_is_in_place(t.drop_first(), f);
        assert(t.map_values(g).drop_first() =~= t.drop_first().map_values(g));
        assert(t.map_values(g).first() == g(t[0]));
        assert(bind(t, f) =~= t.map_values(g).flatten());
    }
}

/// The ways of an alternation are those of its patterns, all ways of an earlier one first.
pub proof fn lemma_alternation_prefers_earlier(ps: Vec<Pattern>, w: Window, labels: Seq<Var>)
    ensures
        trace(Pattern::Alt(ps), w, labels) == ps@.map_values(
            |p: Pattern| trace(p, w, labels),
        ).flatten(),
{
    lemma_alt_in_order(ps@, 0, w, labels);
    assert(ps@.skip(0) =~= ps@);
}

proof fn lemma_alt_in_order(ps: Seq<Pattern>, i: int, w: Window, labels: Seq<Var>)
    requires
        0 <= i <= ps.len(),
    ensures
        trace_alt(ps, i, w, labels) == ps.skip(i).map_values(
            |p: Pattern| trace(p, w, labels),
        ).flatten(),
    decreases ps.len() - i,
{
    let g = |p: Pattern| trace(p, w, labels);
    let all = ps.skip(i).map_values(g);
    if i < ps.len() {
        lemma_alt_in_order(ps, i + 1, w, labels);
        assert(all.drop_first() =~= ps.skip(i + 1).map_values(g));
        assert(all.first() == trace(ps[i], w, labels));
    } else {
        assert(all =~= Seq::empty());
    }
    assert(trace_alt(ps, i, w, labels) =~= all.flatten());
}

/// The ways of a concatenation are those of its first pattern, each continued by the ways of the
/// others; without patterns there is one way, which binds nothing.
pub proof fn lemma_concat_prefers_first(
    ps: Vec<Pattern>,
    rest: Vec<Pattern>,
    w: Window,
    labels: Seq<Var>,
)
    requires
        ps@.len() > 0 ==> rest@ == ps@.drop_first(),
    ensures
        ps@.len() == 0 ==> trace(Pattern::Concat(ps), w, labels) == seq![Outcome::Done(labels)],
        ps@.len() > 0 ==> trace(Pattern::Concat(ps), w, labels) == bind(
            trace(ps@[0], w, labels),
            |l: Seq<Var>| trace(Pattern::Concat(rest), w, l),
        ),
{
    if ps@.len() > 0 {
        let t = trace(ps@[0], w, labels);
        let f = concat_from(ps@, 1, w);
        let g = |l: Seq<Var>| trace(Pattern::Concat(rest), w, l);
        assert forall|i: int| 0 <= i < t.len() && #[trigger] t[i] is Done implies f(t[i]->Done_0)
            == g(t[i]->Done_0) by {
            lemma_concat_moved(ps@, rest@, 1, w, t[i]->Done_0);
        }
        lemma_bind_same(t, f, g);
    }
}

proof fn lemma_concat_moved(
    ps: Seq<Pattern>,
    rest: Seq<Pattern>,
    i: int,
    w: Window,
    labels: Seq<Var>,
)
    requires
        ps.len() > 0,
        rest == ps.drop_first(),
        1 <= i <= ps.len(),
    ensures
        trace_concat(ps, i, w, labels) == trace_concat(rest, i - 1, w, labels),
    decreases ps.len() - i,
{
    if i < ps.len() {
        let t = trace(ps[i], w, labels);
        let f = concat_from(ps, i + 1, w);
        let g = concat_from(rest, i, w);
        assert forall|k: int| 0 <= k < t.len() && #[trigger] t[k] is Done implies f(t[k]->Done_0)
            == g(t[k]->Done_0) by {
            lemma_concat_moved(ps, rest, i + 1, w, t[k]->Done_0);
        }
        lemma_bind_same(t, f, g);
    }
}

/// The ways of `PERMUTE` are those that begin with its first pattern, then those that begin with its
/// second, and so on; each is continued by the ways of `PERMUTE` of the other patterns.
pub proof fn lemma_permute_prefers_listed(
    ps: Vec<Pattern>,
    rests: Seq<Vec<Pattern>>,
    w: Window,
    labels: Seq<Var>,
)
    requires
        ps@.len() > 0,
        rests.len() == ps@.len(),
        forall|i: int| 0 <= i < ps@.len() ==> (#[trigger] rests[i])@ == ps@.remove(i),
    ensures
        trace(Pattern::Permute(ps), w, labels) == Seq::new(
            ps@.len(),
            |i: int|
                bind(
                    trace(ps@[i], w, labels),
                    |l: Seq<Var>| trace(Pattern::Permute(rests[i]), w, l),
                ),
        ).flatten(),
{
    let parts = Seq::new(
        ps@.len(),
        |i: int|
            bind(
                trace(ps@[i], w, labels),
                |l: Seq<Var>| trace(Pattern::Permute(rests[i]), w, l),
            ),
    );
    lemma_permute_parts(ps@, rests, parts, 0, w, labels);
    assert(parts.skip(0) =~= parts);
}

proof fn lemma_permute_parts(
    ps: Seq<Pattern>,
    rests: Seq<Vec<Pattern>>,
    parts: Seq<Trace>,
    i: int,
    w: Window,
    labels: Seq<Var>,
)
    requires
        ps.len() > 0,
        0 <= i <= ps.len(),
        rests.len() == ps.len(),
        forall|k: int| 0 <= k < ps.len() ==> (#[trigger] rests[k])@ == ps.remove(k),
        parts == Seq::new(
            ps.len(),
            |k: int|
                bind(
                    trace(ps[k], w, labels),
                    |l: Seq<Var>| trace(Pattern::Permute(rests[k]), w, l),
                ),
        ),
    ensures
        trace_permute(ps, Seq::new(ps.len(), |k: int| k), i, w, labels) == parts.skip(i).flatten(),
    decreases ps.len() - i,
{
    let all = Seq::new(ps.len(), |k: int| k);
    if i < ps.len() {
        lemma_permute_parts(ps, rests, parts, i + 1, w, labels);
        assert(parts.skip(i).drop_first() =~= parts.skip(i + 1));
        assert(parts.skip(i).first() == parts[i]);
        let t = trace(ps[i], w, labels);
        let left = all.remove(i);
        let f = permute_from(ps, left, w);
        let g = |l: Seq<Var>| trace(Pattern::Permute(rests[i]), w, l);
        let other = rests[i]@;
        let fresh = Seq::new(other.len(), |k: int| k);
        assert forall|k: int| 0 <= k < t.len() && #[trigger] t[k] is Done implies f(t[k]->Done_0)
            == g(t[k]->Done_0) by {
            assert forall|x: int| 0 <= x < left.len() implies 0 <= #[trigger] left[x] < ps.len()
                && 0 <= fresh[x] < other.len() && ps[left[x]] == other[fresh[x]] by {}
            lemma_permute_renamed(ps, left, other, fresh, 0, w, t[k]->Done_0);
        }
        lemma_bind_same(t, f, g);
        assert(all[i] == i);
    } else {
        assert(parts.skip(i) =~= Seq::empty());
    }
    assert(trace_permute(ps, all, i, w, labels) =~= parts.skip(i).flatten());
}

/// Which number a pattern has makes no difference.
proof fn lemma_permute_renamed(
    ps: Seq<Pattern>,
    rest: Seq<int>,
    others: Seq<Pattern>,
    fresh: Seq<int>,
    i: int,
    w: Window,
    labels: Seq<Var>,
)
    requires
        rest.len() == fresh.len(),
        0 <= i <= rest.len(),
        forall|x: int|
            0 <= x < rest.len() ==> 0 <= #[trigger] rest[x] < ps.len() && 0 <= fresh[x]
                < others.len() && ps[rest[x]] == others[fresh[x]],
    ensures
        trace_permute(ps, rest, i, w, labels) == trace_permute(others, fresh, i, w, labels),
    decreases rest.len(), rest.len() - i,
{
    if rest.len() > 0 && i < rest.len() {
        lemma_permute_renamed(ps, rest, others, fresh, i + 1, w, labels);
        let t = trace(ps[rest[i]], w, labels);
        let a = rest.remove(i);
        let b = fresh.remove(i);
        let f = permute_from(ps, a, w);
        let g = permute_from(others, b, w);
        assert forall|x: int| 0 <= x < a.len() implies 0 <= #[trigger] a[x] < ps.len() && 0 <= b[x]
            < others.len() && ps[a[x]] == others[b[x]] by {
            if x < i {
                assert(a[x] == rest[x]);
            } else {
                assert(a[x] == rest[x + 1]);
            }
        }
        assert forall|k: int| 0 <= k < t.len() && #[trigger] t[k] is Done implies f(t[k]->Done_0)
            == g(t[k]->Done_0) by {
            lemma_permute_renamed(ps, a, others, b, 0, w, t[k]->Done_0);
        }
        lemma_bind_same(t, f, g);
    }
}

/// The ways of a quantified pattern, in the order of preference, by those of one with one time less:
///
/// - while there are times that have to be, the ways of the pattern, each continued;
/// - then those of one more time first where it is greedy, and that of no more time first where it
///   is reluctant, up to the bound;
/// - without a bound there are more times as long as each binds a row;
/// - a bound that is less than the times that have to be is that number.
pub proof fn lemma_repetition_prefers(
    p: Box<Pattern>,
    min: u32,
    max: u32,
    reluctant: bool,
    w: Window,
    labels: Seq<Var>,
)
    ensures
        0 < min <= max ==> trace(
            Pattern::Quantified(p, Quantifier::Range { min, max: Some(max) }, reluctant),
            w,
            labels,
        ) == bind(
            trace(*p, w, labels),
            |l: Seq<Var>|
                trace(
                    Pattern::Quantified(
                        p,
                        Quantifier::Range { min: (min - 1) as u32, max: Some((max - 1) as u32) },
                        reluctant,
                    ),
                    w,
                    l,
                ),
        ),
        0 < min ==> trace(
            Pattern::Quantified(p, Quantifier::Range { min, max: None }, reluctant),
            w,
            labels,
        ) == bind(
            trace(*p, w, labels),
            |l: Seq<Var>|
                trace(
                    Pattern::Quantified(
                        p,
                        Quantifier::Range { min: (min - 1) as u32, max: None },
                        reluctant,
                    ),
                    w,
                    l,
                ),
        ),
        trace(
            Pattern::Quantified(p, Quantifier::Range { min: 0, max: Some(0) }, reluctant),
            w,
            labels,
        ) == seq![Outcome::Done(labels)],
        0 < max ==> trace(
            Pattern::Quantified(p, Quantifier::Range { min: 0, max: Some(max) }, reluctant),
            w,
            labels,
        ) == ({
            let more = bind(
                trace(*p, w, labels),
                |l: Seq<Var>|
                    trace(
                        Pattern::Quantified(
                            p,
                            Quantifier::Range { min: 0, max: Some((max - 1) as u32) },
                            reluctant,
                        ),
                        w,
                        l,
                    ),
            );
            if reluctant {
                seq![Outcome::Done(labels)] + more
            } else {
                more + seq![Outcome::Done(labels)]
            }
        }),
        max < min ==> trace(
            Pattern::Quantified(p, Quantifier::Range { min, max: Some(max) }, reluctant),
            w,
            labels,
        ) == trace(
            Pattern::Quantified(p, Quantifier::Range { min, max: Some(min) }, reluctant),
            w,
            labels,
        ),
        trace(Pattern::Quantified(p, Quantifier::Question, reluctant), w, labels) == trace(
            Pattern::Quantified(p, Quantifier::Range { min: 0, max: Some(1) }, reluctant),
            w,
            labels,
        ),
        trace(
            Pattern::Quantified(p, Quantifier::Range { min: 0, max: None }, reluctant),
            w,
            labels,
        ) == trace(Pattern::Quantified(p, Quantifier::Star, reluctant), w, labels),
        trace(Pattern::Quantified(p, Quantifier::Plus, reluctant), w, labels) == bind(
            trace(*p, w, labels),
            |l: Seq<Var>| trace(Pattern::Quantified(p, Quantifier::Star, reluctant), w, l),
        ),
        trace(Pattern::Quantified(p, Quantifier::Star, reluctant), w, labels) == ({
            let more = bind(
                trace(*p, w, labels),
                |l: Seq<Var>|
                    if l.len() > labels.len() {
                        trace(Pattern::Quantified(p, Quantifier::Star, reluctant), w, l)
                    } else {
                        Seq::empty()
                    },
            );
            if reluctant {
                seq![Outcome::Done(labels)] + more
            } else {
                more + seq![Outcome::Done(labels)]
            }
        }),
{
    let t = trace(*p, w, labels);
    if 0 < min <= max {
        let q = Quantifier::Range { min: (min - 1) as u32, max: Some((max - 1) as u32) };
        let f = repeat_from(*p, (min - 1) as nat, Some((max - min) as nat), reluctant, w);
        let g = |l: Seq<Var>| trace(Pattern::Quantified(p, q, reluctant), w, l);
        assert(same_on(t, f, g));
        lemma_bind_same(t, f, g);
    }
    if 0 < min {
        let q = Quantifier::Range { min: (min - 1) as u32, max: None };
        let f = repeat_from(*p, (min - 1) as nat, None, reluctant, w);
        let g = |l: Seq<Var>| trace(Pattern::Quantified(p, q, reluctant), w, l);
        assert(same_on(t, f, g));
        lemma_bind_same(t, f, g);
    }
    if 0 < max {
        let q = Quantifier::Range { min: 0, max: Some((max - 1) as u32) };
        let f = repeat_from(*p, 0, Some((max - 1) as nat), reluctant, w);
        let g = |l: Seq<Var>| trace(Pattern::Quantified(p, q, reluctant), w, l);
        assert(same_on(t, f, g));
        lemma_bind_same(t, f, g);
    }
    {
        let f = repeat_from(*p, 0, None, reluctant, w);
        let g = |l: Seq<Var>| trace(Pattern::Quantified(p, Quantifier::Star, reluctant), w, l);
        assert(same_on(t, f, g));
        lemma_bind_same(t, f, g);
    }
    {
        let f = loop_from(*p, reluctant, w, labels.len());
        let g = |l: Seq<Var>|
            if l.len() > labels.len() {
                trace(Pattern::Quantified(p, Quantifier::Star, reluctant), w, l)
            } else {
                Seq::empty()
            };
        lemma_trace_extends(*p, w, labels);
        assert forall|k: int| 0 <= k < t.len() && #[trigger] t[k] is Done implies f(t[k]->Done_0)
            == g(t[k]->Done_0) by {
            assert(extends(w, labels, t[k]->Done_0));
        }
        lemma_bind_same(t, f, g);
        let star = trace(Pattern::Quantified(p, Quantifier::Star, reluctant), w, labels);
        assert(star == trace_loop(*p, reluctant, w, labels));
        assert(star == prefer(reluctant, bind(t, g), seq![Outcome::Done(labels)]));
    }
}

/// `i` rows bound to the variable.
pub open spec fn run(var: Var, i: nat) -> Seq<Var> {
    Seq::new(i, |j: int| var)
}

/// From row `start` on, `k` rows can be bound to the variable one after the other, and no more: the
/// rows end there, or the verdict on the next one is no.
pub open spec fn is_run(v: Verdicts, var: Var, start: int, n: int, k: nat) -> bool {
    &&& start + k <= n
    &&& forall|i: nat|
        i < k ==> #[trigger] v(var, start + i, run(var, i)) == Ok::<bool, Request>(
            true,
        )
    &&& start + k < n ==> v(var, start + k, run(var, k)) == Ok::<bool, Request>(false)
}

/// How many rows a quantified variable takes from a row on from which `k` rows satisfy it one after
/// the other. Greedy, it takes all of them up to the greatest number; reluctant, it takes the least
/// number; with fewer rows than that there is no match.
pub proof fn lemma_rows_of_quantified_variable(
    s: String,
    v: Verdicts,
    start: int,
    n: int,
    k: nat,
    min: u32,
    max: u32,
)
    requires
        is_run(v, s@, start, n, k),
        min <= max,
    ensures
        ({
            let one = Box::new(Pattern::Var(s));
            let range = Quantifier::Range { min, max: Some(max) };
            let from = Quantifier::Range { min, max: None };
            let most: nat = if k <= max {
                k
            } else {
                max as nat
            };
            &&& k >= min ==> {
                &&& preferred(Pattern::Quantified(one, range, false), v, start, n) == Some(
                    Outcome::Done(run(s@, most)),
                )
                &&& preferred(Pattern::Quantified(one, range, true), v, start, n) == Some(
                    Outcome::Done(run(s@, min as nat)),
                )
                &&& preferred(Pattern::Quantified(one, from, false), v, start, n) == Some(
                    Outcome::Done(run(s@, k)),
                )
                &&& preferred(Pattern::Quantified(one, from, true), v, start, n) == Some(
                    Outcome::Done(run(s@, min as nat)),
                )
            }
            &&& k < min ==> {
                &&& preferred(Pattern::Quantified(one, range, false), v, start, n) is None
                &&& preferred(Pattern::Quantified(one, range, true), v, start, n) is None
                &&& preferred(Pattern::Quantified(one, from, false), v, start, n) is None
                &&& preferred(Pattern::Quantified(one, from, true), v, start, n) is None
            }
            &&& preferred(Pattern::Quantified(one, Quantifier::Star, false), v, start, n) == Some(
                Outcome::Done(run(s@, k)),
            )
            &&& preferred(Pattern::Quantified(one, Quantifier::Star, true), v, start, n) == Some(
                Outcome::Done(run(s@, 0)),
            )
            &&& k >= 1 ==> {
                &&& preferred(Pattern::Quantified(one, Quantifier::Plus, false), v, start, n)
                    == Some(Outcome::Done(run(s@, k)))
                &&& preferred(Pattern::Quantified(one, Quantifier::Plus, true), v, start, n) == Some(
                    Outcome::Done(run(s@, 1)),
                )
                &&& preferred(Pattern::Quantified(one, Quantifier::Question, false), v, start, n)
                    == Some(Outcome::Done(run(s@, 1)))
            }
            &&& k == 0 ==> {
                &&& preferred(Pattern::Quantified(one, Quantifier::Plus, false), v, start, n) is None
                &&& preferred(Pattern::Quantified(one, Quantifier::Plus, true), v, start, n) is None
                &&& preferred(Pattern::Quantified(one, Quantifier::Question, false), v, start, n)
                    == Some(Outcome::Done(run(s@, 0)))
            }
            &&& preferred(Pattern::Quantified(one, Quantifier::Question, true), v, start, n) == Some(
                Outcome::Done(run(s@, 0)),
            )
        }),
{
    assert(run(s@, 0) =~= Seq::empty());
    let extra = Some((max - min) as nat);
    lemma_run_repeat(s, v, start, n, k, 0, min as nat, extra, false);
    lemma_run_repeat(s, v, start, n, k, 0, min as nat, extra, true);
    lemma_run_repeat(s, v, start, n, k, 0, min as nat, None, false);
    lemma_run_repeat(s, v, start, n, k, 0, min as nat, None, true);
    lemma_run_repeat(s, v, start, n, k, 0, 0, None, false);
    lemma_run_repeat(s, v, start, n, k, 0, 0, None, true);
    lemma_run_repeat(s, v, start, n, k, 0, 1, None, false);
    lemma_run_repeat(s, v, start, n, k, 0, 1, None, true);
    lemma_run_repeat(s, v, start, n, k, 0, 0, Some(1), false);
    lemma_run_repeat(s, v, start, n, k, 0, 0, Some(1), true);
}

/// What is left to take after `i` of the rows.
proof fn lemma_run_repeat(
    s: String,
    v: Verdicts,
    start: int,
    n: int,
    k: nat,
    i: nat,
    min: nat,
    extra: Option<nat>,
    reluctant: bool,
)
    requires
        is_run(v, s@, start, n, k),
        i <= k,
    ensures
        ({
            let w = window(v, start, n);
            let r = first_stop(
                trace_repeat(Pattern::Var(s), min, extra, reluctant, w, run(s@, i)),
                Goal::Match,
                w,
            );
            if k < i + min {
                r is None
            } else if reluctant {
                r == Some(Outcome::Done(run(s@, i + min)))
            } else {
                match extra {
                    Some(e) if i + min + e < k => r == Some(Outcome::Done(run(s@, i + min + e))),
                    _ => r == Some(Outcome::Done(run(s@, k))),
                }
            }
        }),
    decreases min + extra.unwrap_or(0) + 1, 0nat,
{
    let w = window(v, start, n);
    let p = Pattern::Var(s);
    let labels = run(s@, i);
    let t = trace(p, w, labels);
    lemma_run_step(s, v, start, n, k, i);
    if min > 0 {
        let f = repeat_from(p, (min - 1) as nat, extra, reluctant, w);
        if i < k {
            lemma_run_repeat(s, v, start, n, k, i + 1, (min - 1) as nat, extra, reluctant);
            lemma_bind_one(run(s@, i + 1), f);
        } else {
            lemma_run_end(t, f, w);
        }
    } else {
        match extra {
            None => lemma_run_loop(s, v, start, n, k, i, reluctant),
            Some(e) => {
                let none = seq![Outcome::Done(labels)];
                lemma_one_done(labels, w);
                if e > 0 {
                    let f = repeat_from(p, 0, Some((e - 1) as nat), reluctant, w);
                    lemma_first_stop_append(bind(t, f), none, Goal::Match, w);
                    lemma_first_stop_append(none, bind(t, f), Goal::Match, w);
                    if i < k {
                        lemma_run_repeat(
                            s,
                            v,
                            start,
                            n,
                            k,
                            i + 1,
                            0,
                            Some((e - 1) as nat),
                            reluctant,
                        );
                        lemma_bind_one(run(s@, i + 1), f);
                    } else {
                        lemma_run_end(t, f, w);
                    }
                }
            },
        }
    }
}

proof fn lemma_run_loop(
    s: String,
    v: Verdicts,
    start: int,
    n: int,
    k: nat,
    i: nat,
    reluctant: bool,
)
    requires
        is_run(v, s@, start, n, k),
        i <= k,
    ensures
        ({
            let w = window(v, start, n);
            first_stop(trace_loop(Pattern::Var(s), reluctant, w, run(s@, i)), Goal::Match, w)
                == Some(
                Outcome::Done(
                    if reluctant {
                        run(s@, i)
                    } else {
                        run(s@, k)
                    },
                ),
            )
        }),
    decreases 0nat, k - i,
{
    let w = window(v, start, n);
    let p = Pattern::Var(s);
    let labels = run(s@, i);
    let t = trace(p, w, labels);
    let f = loop_from(p, reluctant, w, labels.len());
    let none = seq![Outcome::Done(labels)];
    lemma_run_step(s, v, start, n, k, i);
    lemma_one_done(labels, w);
    lemma_first_stop_append(bind(t, f), none, Goal::Match, w);
    lemma_first_stop_append(none, bind(t, f), Goal::Match, w);
    if i < k {
        lemma_bind_one(run(s@, i + 1), f);
        if !reluctant {
            lemma_run_loop(s, v, start, n, k, i + 1, reluctant);
        }
    } else {
        lemma_run_end(t, f, w);
    }
}

/// The next row of a run is taken; at its end there is no row, or none that is taken.
proof fn lemma_run_step(s: String, v: Verdicts, start: int, n: int, k: nat, i: nat)
    requires
        is_run(v, s@, start, n, k),
        i <= k,
    ensures
        ({
            let t = trace(Pattern::Var(s), window(v, start, n), run(s@, i));
            &&& i < k ==> t == seq![Outcome::Done(run(s@, i + 1))]
            &&& i == k ==> t == seq![Outcome::Wants] || t == Seq::<Outcome>::empty()
        }),
{
    assert(run(s@, i).push(s@) =~= run(s@, i + 1));
    if i < k {
        assert(v(s@, start + i, run(s@, i)) == Ok::<bool, Request>(true));
    }
}

proof fn lemma_run_end(t: Trace, f: spec_fn(Seq<Var>) -> Trace, w: Window)
    requires
        t == seq![Outcome::Wants] || t == Seq::<Outcome>::empty(),
    ensures
        first_stop(bind(t, f), Goal::Match, w) is None,
{
    reveal_with_fuel(bind, 2);
    reveal_with_fuel(first_stop, 2);
    if t.len() > 0 {
        assert(t.drop_first() =~= Seq::<Outcome>::empty());
        assert(bind(t, f) =~= seq![Outcome::Wants]);
        assert(bind(t, f).drop_first() =~= Seq::<Outcome>::empty());
    }
}

proof fn lemma_one_done(labels: Seq<Var>, w: Window)
    ensures
        first_stop(seq![Outcome::Done(labels)], Goal::Match, w) == Some(Outcome::Done(labels)),
{
}

} // verus!
