//! Matches that rows to come cannot change.

use crate::eval::Request;
use crate::matcher::shifted;
use crate::pattern::{Outcome, Pattern, Verdicts};
use crate::refine::{lemma_alive_refines, refines};
use crate::scan::{
    agree, alive, first_stop, lemma_dead_is_final, lemma_dead_moved, lemma_first_stop,
    lemma_preferred_bounds, lemma_same_ways, lemma_scan_bounds, moved, preferred, prepend,
    same_ways, scan, stops, ways, window, Goal, Span,
};
use crate::skip::{lemma_resume_advances, resume, SkipView};
use crate::trace::{extends, lemma_trace_extends};
use vstd::prelude::*;

verus! {

/// No way to match from `start` on reaches the last row before `n`.
pub open spec fn dead(p: Pattern, v: Verdicts, start: int, n: int) -> bool {
    alive(p, v, start, n) == Ok::<bool, Request>(false)
}

/// A scan from `cursor` on finds the matches `frozen` first and resumes at `to`, and every attempt
/// that it makes up to there is dead.
pub open spec fn settled(
    p: Pattern,
    v: Verdicts,
    skip: SkipView,
    n: int,
    cursor: int,
    to: int,
    frozen: Seq<Span>,
) -> bool
    decreases if cursor < n { n - cursor } else { 0 },
{
    if frozen.len() == 0 {
        cursor == to
    } else if cursor >= n {
        false
    } else {
        dead(p, v, cursor, n) && match preferred(p, v, cursor, n) {
            Some(Outcome::Done(l)) => if l.len() > 0 {
                proof {
                    lemma_resume_advances(skip, cursor, l);
                }
                frozen[0] == (Span { start: cursor, labels: l }) && settled(
                    p,
                    v,
                    skip,
                    n,
                    resume(skip, cursor, l),
                    to,
                    frozen.drop_first(),
                )
            } else {
                settled(p, v, skip, n, cursor + 1, to, frozen)
            },
            _ => settled(p, v, skip, n, cursor + 1, to, frozen),
        }
    }
}

/// Whether one of the attempts at `from` up to and with `to` is alive.
pub open spec fn alive_through(p: Pattern, v: Verdicts, from: int, to: int, n: int) -> Result<
    bool,
    Request,
>
    decreases if from <= to { to - from + 1 } else { 0 },
{
    if from > to {
        Ok(false)
    } else {
        match alive(p, v, from, n) {
            Err(q) => Err(q),
            Ok(true) => Ok(true),
            Ok(false) => alive_through(p, v, from + 1, to, n),
        }
    }
}

/// How many of the first matches of a scan from `cursor` on rows to come cannot change: those for
/// which each attempt up to their own is dead.
pub open spec fn settles(
    p: Pattern,
    v: Verdicts,
    skip: SkipView,
    n: int,
    cursor: int,
    tail: Seq<Span>,
) -> Result<nat, Request>
    decreases tail.len(),
{
    if tail.len() == 0 || tail[0].end() > n {
        Ok(0)
    } else {
        match alive_through(p, v, cursor, tail[0].start, n) {
            Err(q) => Err(q),
            Ok(true) => Ok(0),
            Ok(false) => match settles(
                p,
                v,
                skip,
                n,
                resume(skip, tail[0].start, tail[0].labels),
                tail.drop_first(),
            ) {
                Err(q) => Err(q),
                Ok(k) => Ok(k + 1),
            },
        }
    }
}

/// Where a scan from `cursor` on resumes after the first `k` matches.
pub open spec fn resume_after(skip: SkipView, cursor: int, tail: Seq<Span>, k: nat) -> int {
    if k == 0 {
        cursor
    } else {
        resume(skip, tail[k - 1].start, tail[k - 1].labels)
    }
}

pub proof fn lemma_settles_bounds(
    p: Pattern,
    v: Verdicts,
    skip: SkipView,
    n: int,
    cursor: int,
    tail: Seq<Span>,
)
    ensures
        settles(p, v, skip, n, cursor, tail) matches Ok(k) ==> k <= tail.len(),
    decreases tail.len(),
{
    if tail.len() > 0 && tail[0].end() <= n {
        lemma_settles_bounds(
            p,
            v,
            skip,
            n,
            resume(skip, tail[0].start, tail[0].labels),
            tail.drop_first(),
        );
    }
}

/// Behind the matches that are counted as settled none is.
pub proof fn lemma_settles_rest(
    p: Pattern,
    v: Verdicts,
    skip: SkipView,
    n: int,
    cursor: int,
    tail: Seq<Span>,
    k: nat,
)
    requires
        settles(p, v, skip, n, cursor, tail) == Ok::<nat, Request>(k),
    ensures
        k <= tail.len(),
        settles(
            p,
            v,
            skip,
            n,
            resume_after(skip, cursor, tail, k),
            tail.skip(k as int),
        ) == Ok::<nat, Request>(0),
    decreases tail.len(),
{
    if k == 0 {
        assert(tail.skip(0) =~= tail);
    } else {
        let d = tail.drop_first();
        lemma_settles_rest(
            p,
            v,
            skip,
            n,
            resume(skip, tail[0].start, tail[0].labels),
            d,
            (k - 1) as nat,
        );
        assert(d.skip(k - 1) =~= tail.skip(k as int));
        if k > 1 {
            assert(d[k - 2] == tail[k - 1]);
        }
    }
}

/// Attempts that are all dead leave none alive.
pub proof fn lemma_none_alive(p: Pattern, v: Verdicts, from: int, to: int, n: int)
    requires
        forall|x: int| from <= x <= to ==> #[trigger] dead(p, v, x, n),
    ensures
        alive_through(p, v, from, to, n) == Ok::<bool, Request>(false),
    decreases if from <= to { to - from + 1 } else { 0 },
{
    if from <= to {
        assert(dead(p, v, from, n));
        lemma_none_alive(p, v, from + 1, to, n);
    }
}

proof fn lemma_alive_through_same_ways(
    p: Pattern,
    v1: Verdicts,
    v2: Verdicts,
    lo: int,
    from: int,
    to: int,
    n: int,
)
    requires
        same_ways(p, v1, v2, lo, n),
        lo <= from,
        to < n,
    ensures
        alive_through(p, v2, from, to, n) == alive_through(p, v1, from, to, n),
    decreases if from <= to { to - from + 1 } else { 0 },
{
    if from <= to {
        assert(ways(p, v1, from, n) == ways(p, v2, from, n));
        lemma_same_ways(p, v1, v2, from, n);
        lemma_alive_through_same_ways(p, v1, v2, lo, from + 1, to, n);
    }
}

/// How many matches are settled depends on nothing but the ways to match.
pub proof fn lemma_settles_same_ways(
    p: Pattern,
    v1: Verdicts,
    v2: Verdicts,
    skip: SkipView,
    lo: int,
    n: int,
    cursor: int,
    tail: Seq<Span>,
)
    requires
        same_ways(p, v1, v2, lo, n),
        lo <= cursor,
        forall|i: int|
            0 <= i < tail.len() ==> lo <= (#[trigger] tail[i]).start < tail[i].end() <= n,
    ensures
        settles(p, v2, skip, n, cursor, tail) == settles(p, v1, skip, n, cursor, tail),
    decreases tail.len(),
{
    if tail.len() > 0 {
        let d = tail.drop_first();
        assert(lo <= tail[0].start < tail[0].end() <= n);
        lemma_alive_through_same_ways(p, v1, v2, lo, cursor, tail[0].start, n);
        lemma_resume_advances(skip, tail[0].start, tail[0].labels);
        assert forall|i: int| 0 <= i < d.len() implies lo <= (#[trigger] d[i]).start < d[i].end()
            <= n by {
            assert(d[i] == tail[i + 1]);
        }
        lemma_settles_same_ways(
            p,
            v1,
            v2,
            skip,
            lo,
            n,
            resume(skip, tail[0].start, tail[0].labels),
            d,
        );
    }
}

proof fn lemma_alive_through_moved(p: Pattern, v: Verdicts, from: int, to: int, n: int, d: int)
    ensures
        alive_through(p, shifted(v, d), from, to, n) == alive_through(
            p,
            v,
            from + d,
            to + d,
            n + d,
        ),
    decreases if from <= to { to - from + 1 } else { 0 },
{
    if from <= to {
        lemma_dead_moved(p, v, from, n, d);
        lemma_alive_through_moved(p, v, from + 1, to, n, d);
        assert(from + 1 + d == from + d + 1);
    }
}

/// Of the rows from row `d` on, as rows of their own, the same matches are settled.
pub proof fn lemma_settles_moved(
    p: Pattern,
    v: Verdicts,
    skip: SkipView,
    n: int,
    cursor: int,
    tail: Seq<Span>,
    d: int,
)
    ensures
        settles(p, shifted(v, d), skip, n, cursor, tail) == settles(
            p,
            v,
            skip,
            n + d,
            cursor + d,
            moved(tail, d),
        ),
    decreases tail.len(),
{
    let there = moved(tail, d);
    if tail.len() > 0 {
        let m = tail[0];
        assert(there[0] == (Span { start: m.start + d, labels: m.labels }));
        assert(there.drop_first() =~= moved(tail.drop_first(), d));
        lemma_alive_through_moved(p, v, cursor, m.start, n, d);
        let next = resume(skip, m.start, m.labels);
        assert(resume(skip, m.start + d, m.labels) == next + d);
        lemma_settles_moved(p, v, skip, n, next, tail.drop_first(), d);
    }
}

/// The attempts that settled matches come from are dead.
pub proof fn lemma_settled_dead(
    p: Pattern,
    v: Verdicts,
    skip: SkipView,
    n: int,
    cursor: int,
    to: int,
    frozen: Seq<Span>,
)
    requires
        settled(p, v, skip, n, cursor, to, frozen),
    ensures
        forall|i: int| 0 <= i < frozen.len() ==> dead(p, v, (#[trigger] frozen[i]).start, n),
    decreases if cursor < n { n - cursor } else { 0 },
{
    if frozen.len() > 0 {
        match preferred(p, v, cursor, n) {
            Some(Outcome::Done(l)) => {
                if l.len() > 0 {
                    let d = frozen.drop_first();
                    lemma_resume_advances(skip, cursor, l);
                    lemma_settled_dead(p, v, skip, n, resume(skip, cursor, l), to, d);
                    assert forall|i: int| 0 <= i < frozen.len() implies dead(
                        p,
                        v,
                        (#[trigger] frozen[i]).start,
                        n,
                    ) by {
                        if i > 0 {
                            assert(frozen[i] == d[i - 1]);
                        }
                    }
                } else {
                    lemma_settled_dead(p, v, skip, n, cursor + 1, to, frozen);
                }
            },
            _ => lemma_settled_dead(p, v, skip, n, cursor + 1, to, frozen),
        }
    }
}

/// Where the scan resumes after settled matches.
pub proof fn lemma_settled_resumes(
    p: Pattern,
    v: Verdicts,
    skip: SkipView,
    n: int,
    cursor: int,
    to: int,
    frozen: Seq<Span>,
)
    requires
        settled(p, v, skip, n, cursor, to, frozen),
    ensures
        frozen.len() == 0 ==> to == cursor,
        frozen.len() > 0 ==> to == resume_after(skip, cursor, frozen, frozen.len()),
    decreases if cursor < n { n - cursor } else { 0 },
{
    if frozen.len() > 0 {
        match preferred(p, v, cursor, n) {
            Some(Outcome::Done(l)) => {
                if l.len() > 0 {
                    let d = frozen.drop_first();
                    lemma_resume_advances(skip, cursor, l);
                    lemma_settled_resumes(p, v, skip, n, resume(skip, cursor, l), to, d);
                    if d.len() > 0 {
                        assert(d[d.len() - 1] == frozen[frozen.len() - 1]);
                    }
                } else {
                    lemma_settled_resumes(p, v, skip, n, cursor + 1, to, frozen);
                }
            },
            _ => lemma_settled_resumes(p, v, skip, n, cursor + 1, to, frozen),
        }
    }
}

/// Settled matches lie within the rows and are ordered, and the scan resumes after their starts.
pub proof fn lemma_settled_bounds(
    p: Pattern,
    v: Verdicts,
    skip: SkipView,
    n: int,
    cursor: int,
    to: int,
    frozen: Seq<Span>,
)
    requires
        settled(p, v, skip, n, cursor, to, frozen),
    ensures
        cursor <= to,
        cursor <= n ==> to <= n,
        forall|i: int|
            0 <= i < frozen.len() ==> cursor <= (#[trigger] frozen[i]).start < frozen[i].end() <= n
                && frozen[i].start < to,
    decreases if cursor < n { n - cursor } else { 0 },
{
    if frozen.len() > 0 {
        lemma_preferred_bounds(p, v, cursor, n);
        match preferred(p, v, cursor, n) {
            Some(Outcome::Done(l)) => {
                if l.len() > 0 {
                    let d = frozen.drop_first();
                    lemma_resume_advances(skip, cursor, l);
                    lemma_settled_bounds(p, v, skip, n, resume(skip, cursor, l), to, d);
                    assert forall|i: int| 0 <= i < frozen.len() implies cursor <= (
                    #[trigger] frozen[i]).start < frozen[i].end() <= n && frozen[i].start < to by {
                        if i > 0 {
                            assert(frozen[i] == d[i - 1]);
                        }
                    }
                } else {
                    lemma_settled_bounds(p, v, skip, n, cursor + 1, to, frozen);
                }
            },
            _ => lemma_settled_bounds(p, v, skip, n, cursor + 1, to, frozen),
        }
    }
}

/// A scan finds the settled matches, and then what a scan from where they end finds.
pub proof fn lemma_settled_scan(
    p: Pattern,
    v: Verdicts,
    skip: SkipView,
    n: int,
    cursor: int,
    to: int,
    frozen: Seq<Span>,
)
    requires
        settled(p, v, skip, n, cursor, to, frozen),
    ensures
        scan(p, v, skip, n, cursor) == prepend(frozen, scan(p, v, skip, n, to)),
    decreases if cursor < n { n - cursor } else { 0 },
{
    let rest = scan(p, v, skip, n, to);
    if frozen.len() == 0 {
        if let Ok(s) = rest {
            assert(frozen + s =~= s);
        }
    } else {
        lemma_dead_no_blocked(p, v, cursor, n);
        match preferred(p, v, cursor, n) {
            Some(Outcome::Done(l)) => {
                if l.len() > 0 {
                    let d = frozen.drop_first();
                    lemma_resume_advances(skip, cursor, l);
                    lemma_settled_scan(p, v, skip, n, resume(skip, cursor, l), to, d);
                    if let Ok(s) = rest {
                        assert(seq![frozen[0]] + (d + s) =~= frozen + s);
                    }
                } else {
                    lemma_settled_scan(p, v, skip, n, cursor + 1, to, frozen);
                }
            },
            _ => lemma_settled_scan(p, v, skip, n, cursor + 1, to, frozen),
        }
    }
}

/// A dead attempt lacks no verdict.
proof fn lemma_dead_no_blocked(p: Pattern, v: Verdicts, start: int, n: int)
    requires
        dead(p, v, start, n),
    ensures
        !(preferred(p, v, start, n) matches Some(Outcome::Blocked(_))),
{
    let t = ways(p, v, start, n);
    let w = window(v, start, n);
    let _ = lemma_first_stop(t, Goal::Reach, w);
    let k = lemma_first_stop(t, Goal::Match, w);
    if let Some(Outcome::Blocked(q)) = preferred(p, v, start, n) {
        assert(stops(Goal::Reach, w, t[k]));
    }
}

/// A dead attempt is dead where more rows follow.
pub proof fn lemma_dead_stays(p: Pattern, v1: Verdicts, v2: Verdicts, start: int, n1: int, n2: int)
    requires
        n1 <= n2,
        start <= n1,
        agree(v1, v2, start, n1),
        dead(p, v1, start, n1),
    ensures
        dead(p, v2, start, n2),
        preferred(p, v2, start, n2) == preferred(p, v1, start, n1),
{
    let w1 = window(v1, start, n1);
    let w2 = window(v2, start, n2);
    let t = ways(p, v1, start, n1);
    lemma_dead_is_final(p, v1, v2, start, n1, n2);
    let _ = lemma_first_stop(t, Goal::Reach, w1);
    let k = lemma_first_stop(t, Goal::Reach, w2);
    lemma_trace_extends(p, w1, Seq::empty());
    if let Some(o) = first_stop(t, Goal::Reach, w2) {
        assert(t[k] == o);
        assert(!stops(Goal::Reach, w1, t[k]));
        assert(t[k] is Done);
        assert(extends(w1, Seq::empty(), t[k]->Done_0));
    }
}

/// Settled matches stay settled where more rows follow.
pub proof fn lemma_settled_stays(
    p: Pattern,
    v1: Verdicts,
    v2: Verdicts,
    skip: SkipView,
    n1: int,
    n2: int,
    cursor: int,
    to: int,
    frozen: Seq<Span>,
)
    requires
        n1 <= n2,
        agree(v1, v2, cursor, n1),
        settled(p, v1, skip, n1, cursor, to, frozen),
    ensures
        settled(p, v2, skip, n2, cursor, to, frozen),
    decreases if cursor < n1 { n1 - cursor } else { 0 },
{
    if frozen.len() > 0 {
        lemma_dead_stays(p, v1, v2, cursor, n1, n2);
        match preferred(p, v1, cursor, n1) {
            Some(Outcome::Done(l)) => {
                if l.len() > 0 {
                    lemma_resume_advances(skip, cursor, l);
                    lemma_settled_stays(
                        p,
                        v1,
                        v2,
                        skip,
                        n1,
                        n2,
                        resume(skip, cursor, l),
                        to,
                        frozen.drop_first(),
                    );
                } else {
                    lemma_settled_stays(p, v1, v2, skip, n1, n2, cursor + 1, to, frozen);
                }
            },
            _ => lemma_settled_stays(p, v1, v2, skip, n1, n2, cursor + 1, to, frozen),
        }
    }
}

/// Which matches are settled depends on nothing but the ways to match of the attempts.
pub proof fn lemma_settled_same_ways(
    p: Pattern,
    v1: Verdicts,
    v2: Verdicts,
    skip: SkipView,
    n: int,
    cursor: int,
    to: int,
    frozen: Seq<Span>,
)
    requires
        same_ways(p, v1, v2, cursor, n),
        settled(p, v1, skip, n, cursor, to, frozen),
    ensures
        settled(p, v2, skip, n, cursor, to, frozen),
    decreases if cursor < n { n - cursor } else { 0 },
{
    if frozen.len() > 0 {
        assert(ways(p, v1, cursor, n) == ways(p, v2, cursor, n));
        lemma_same_ways(p, v1, v2, cursor, n);
        match preferred(p, v1, cursor, n) {
            Some(Outcome::Done(l)) => {
                if l.len() > 0 {
                    lemma_resume_advances(skip, cursor, l);
                    lemma_settled_same_ways(
                        p,
                        v1,
                        v2,
                        skip,
                        n,
                        resume(skip, cursor, l),
                        to,
                        frozen.drop_first(),
                    );
                } else {
                    lemma_settled_same_ways(p, v1, v2, skip, n, cursor + 1, to, frozen);
                }
            },
            _ => lemma_settled_same_ways(p, v1, v2, skip, n, cursor + 1, to, frozen),
        }
    }
}

/// Settled matches, followed by settled matches.
pub proof fn lemma_settled_append(
    p: Pattern,
    v: Verdicts,
    skip: SkipView,
    n: int,
    cursor: int,
    mid: int,
    to: int,
    a: Seq<Span>,
    b: Seq<Span>,
)
    requires
        settled(p, v, skip, n, cursor, mid, a),
        settled(p, v, skip, n, mid, to, b),
    ensures
        settled(p, v, skip, n, cursor, to, a + b),
    decreases if cursor < n { n - cursor } else { 0 },
{
    if a.len() == 0 {
        assert(a + b =~= b);
    } else {
        match preferred(p, v, cursor, n) {
            Some(Outcome::Done(l)) => {
                if l.len() > 0 {
                    lemma_resume_advances(skip, cursor, l);
                    lemma_settled_append(
                        p,
                        v,
                        skip,
                        n,
                        resume(skip, cursor, l),
                        mid,
                        to,
                        a.drop_first(),
                        b,
                    );
                    assert((a + b).drop_first() =~= a.drop_first() + b);
                } else {
                    lemma_settled_append(p, v, skip, n, cursor + 1, mid, to, a, b);
                }
            },
            _ => lemma_settled_append(p, v, skip, n, cursor + 1, mid, to, a, b),
        }
    }
}

/// The matches of a scan that count as settled are settled.
pub proof fn lemma_settles_scan(
    p: Pattern,
    v: Verdicts,
    skip: SkipView,
    n: int,
    cursor: int,
    tail: Seq<Span>,
    k: nat,
)
    requires
        scan(p, v, skip, n, cursor) == Ok::<Seq<Span>, Request>(tail),
        settles(p, v, skip, n, cursor, tail) == Ok::<nat, Request>(k),
    ensures
        k <= tail.len(),
        settled(
            p,
            v,
            skip,
            n,
            cursor,
            resume_after(skip, cursor, tail, k),
            tail.take(k as int),
        ),
    decreases if cursor < n { n - cursor } else { 0 },
{
    lemma_settles_bounds(p, v, skip, n, cursor, tail);
    if k > 0 {
        lemma_scan_bounds(p, v, skip, n, cursor);
        assert(tail.len() > 0);
        let s = scan(p, v, skip, n, cursor)->Ok_0;
        assert(s[0].start >= cursor);
        lemma_dead_no_blocked(p, v, cursor, n);
        match preferred(p, v, cursor, n) {
            Some(Outcome::Done(l)) => {
                if l.len() > 0 {
                    lemma_resume_advances(skip, cursor, l);
                    let next = resume(skip, cursor, l);
                    let rest = scan(p, v, skip, n, next)->Ok_0;
                    assert(tail =~= seq![Span { start: cursor, labels: l }] + rest);
                    assert(tail.drop_first() =~= rest);
                    lemma_settles_scan(p, v, skip, n, next, rest, (k - 1) as nat);
                    assert(tail.take(k as int).drop_first() =~= rest.take(k - 1));
                    if k > 1 {
                        assert(tail[k - 1] == rest[k - 2]);
                    }
                } else {
                    lemma_scan_bounds(p, v, skip, n, cursor + 1);
                    assert(tail[0].start >= cursor + 1);
                    lemma_settles_skips(p, v, skip, n, cursor, tail);
                    lemma_settles_scan(p, v, skip, n, cursor + 1, tail, k);
                }
            },
            _ => {
                lemma_scan_bounds(p, v, skip, n, cursor + 1);
                assert(tail[0].start >= cursor + 1);
                lemma_settles_skips(p, v, skip, n, cursor, tail);
                lemma_settles_scan(p, v, skip, n, cursor + 1, tail, k);
            },
        }
    }
}

/// An attempt that is dead and finds nothing does not change which matches count as settled.
proof fn lemma_settles_skips(
    p: Pattern,
    v: Verdicts,
    skip: SkipView,
    n: int,
    cursor: int,
    tail: Seq<Span>,
)
    requires
        tail.len() > 0,
        cursor < tail[0].start,
        dead(p, v, cursor, n),
    ensures
        settles(p, v, skip, n, cursor + 1, tail) == settles(p, v, skip, n, cursor, tail),
{
    assert(alive_through(p, v, cursor, tail[0].start, n) == alive_through(
        p,
        v,
        cursor + 1,
        tail[0].start,
        n,
    ));
}

/// Settled matches that count as settled with fewer rows are settled with those.
pub proof fn lemma_settles_cut(
    p: Pattern,
    v0: Verdicts,
    v: Verdicts,
    skip: SkipView,
    n0: int,
    n: int,
    cursor: int,
    to: int,
    frozen: Seq<Span>,
    k: nat,
)
    requires
        n <= n0,
        agree(v, v0, cursor, n),
        settled(p, v0, skip, n0, cursor, to, frozen),
        settles(p, v, skip, n, cursor, frozen) == Ok::<nat, Request>(k),
    ensures
        k <= frozen.len(),
        settled(
            p,
            v,
            skip,
            n,
            cursor,
            resume_after(skip, cursor, frozen, k),
            frozen.take(k as int),
        ),
    decreases if cursor < n0 { n0 - cursor } else { 0 },
{
    lemma_settles_bounds(p, v, skip, n, cursor, frozen);
    if k > 0 {
        lemma_settled_bounds(p, v0, skip, n0, cursor, to, frozen);
        assert(frozen[0].start >= cursor);
        lemma_dead_is_final(p, v, v0, cursor, n, n0);
        match preferred(p, v, cursor, n) {
            Some(Outcome::Done(l)) => {
                if l.len() > 0 {
                    lemma_resume_advances(skip, cursor, l);
                    let next = resume(skip, cursor, l);
                    let rest = frozen.drop_first();
                    lemma_settles_cut(
                        p,
                        v0,
                        v,
                        skip,
                        n0,
                        n,
                        next,
                        to,
                        rest,
                        (k - 1) as nat,
                    );
                    assert(frozen.take(k as int).drop_first() =~= rest.take(k - 1));
                    if k > 1 {
                        assert(frozen[k - 1] == rest[k - 2]);
                    }
                } else {
                    lemma_settled_bounds(p, v0, skip, n0, cursor + 1, to, frozen);
                    lemma_settles_skips(p, v, skip, n, cursor, frozen);
                    lemma_settles_cut(p, v0, v, skip, n0, n, cursor + 1, to, frozen, k);
                }
            },
            _ => {
                lemma_settled_bounds(p, v0, skip, n0, cursor + 1, to, frozen);
                lemma_settles_skips(p, v, skip, n, cursor, frozen);
                lemma_settles_cut(p, v0, v, skip, n0, n, cursor + 1, to, frozen, k);
            },
        }
    }
}

/// Settled matches from a row `b` on that no settled match reaches across: the scan past the last
/// row of each match comes by that row.
pub proof fn lemma_settled_from(
    p: Pattern,
    v: Verdicts,
    n: int,
    cursor: int,
    to: int,
    frozen: Seq<Span>,
    b: int,
    j: int,
)
    requires
        settled(p, v, SkipView::PastLastRow, n, cursor, to, frozen),
        cursor <= b <= to,
        0 <= j <= frozen.len(),
        forall|i: int| 0 <= i < j ==> (#[trigger] frozen[i]).end() <= b,
        forall|i: int| j <= i < frozen.len() ==> b <= (#[trigger] frozen[i]).start,
    ensures
        settled(p, v, SkipView::PastLastRow, n, b, to, frozen.skip(j)),
    decreases if cursor < n { n - cursor } else { 0 },
{
    let skip = SkipView::PastLastRow;
    if frozen.len() == 0 {
        assert(frozen.skip(j) =~= frozen);
    } else if cursor == b {
        if j > 0 {
            lemma_settled_bounds(p, v, skip, n, cursor, to, frozen);
            assert(frozen[0].end() <= b);
        }
        assert(frozen.skip(j) =~= frozen);
    } else {
        match preferred(p, v, cursor, n) {
            Some(Outcome::Done(l)) => {
                if l.len() > 0 {
                    let d = frozen.drop_first();
                    lemma_resume_advances(skip, cursor, l);
                    if j == 0 {
                        assert(frozen[0].start == cursor);
                    }
                    assert(frozen[0].end() <= b);
                    assert forall|i: int| 0 <= i < j - 1 implies (#[trigger] d[i]).end() <= b by {
                        assert(d[i] == frozen[i + 1]);
                    }
                    assert forall|i: int| j - 1 <= i < d.len() implies b <= (
                    #[trigger] d[i]).start by {
                        assert(d[i] == frozen[i + 1]);
                    }
                    lemma_settled_from(p, v, n, resume(skip, cursor, l), to, d, b, j - 1);
                    assert(frozen.skip(j) =~= d.skip(j - 1));
                } else {
                    lemma_settled_from(p, v, n, cursor + 1, to, frozen, b, j);
                }
            },
            _ => lemma_settled_from(p, v, n, cursor + 1, to, frozen, b, j),
        }
    }
}

/// Settled matches, as matches of the rows from row `d` on.
pub proof fn lemma_settled_moved(
    p: Pattern,
    v: Verdicts,
    skip: SkipView,
    n: int,
    cursor: int,
    to: int,
    frozen: Seq<Span>,
    d: int,
)
    requires
        settled(p, v, skip, n + d, cursor + d, to + d, moved(frozen, d)),
    ensures
        settled(p, shifted(v, d), skip, n, cursor, to, frozen),
    decreases if cursor < n { n - cursor } else { 0 },
{
    if frozen.len() > 0 {
        let m = moved(frozen, d);
        lemma_dead_moved(p, v, cursor, n, d);
        match preferred(p, shifted(v, d), cursor, n) {
            Some(Outcome::Done(l)) => {
                if l.len() > 0 {
                    lemma_resume_advances(skip, cursor, l);
                    assert(m[0].start == frozen[0].start + d);
                    assert(m[0].labels == frozen[0].labels);
                    assert(m.drop_first() =~= moved(frozen.drop_first(), d));
                    lemma_settled_moved(
                        p,
                        v,
                        skip,
                        n,
                        resume(skip, cursor, l),
                        to,
                        frozen.drop_first(),
                        d,
                    );
                } else {
                    lemma_settled_moved(p, v, skip, n, cursor + 1, to, frozen, d);
                }
            },
            _ => lemma_settled_moved(p, v, skip, n, cursor + 1, to, frozen, d),
        }
    }
}

/// Which matches count as settled does not change once all verdicts are known.
pub proof fn lemma_settles_refines(
    p: Pattern,
    v1: Verdicts,
    v2: Verdicts,
    skip: SkipView,
    n: int,
    cursor: int,
    tail: Seq<Span>,
)
    requires
        refines(v1, v2, n),
        settles(p, v1, skip, n, cursor, tail) is Ok,
    ensures
        settles(p, v2, skip, n, cursor, tail) == settles(p, v1, skip, n, cursor, tail),
    decreases tail.len(),
{
    if tail.len() > 0 && tail[0].end() <= n {
        lemma_alive_through_refines(p, v1, v2, cursor, tail[0].start, n);
        if alive_through(p, v1, cursor, tail[0].start, n) == Ok::<bool, Request>(false) {
            lemma_settles_refines(
                p,
                v1,
                v2,
                skip,
                n,
                resume(skip, tail[0].start, tail[0].labels),
                tail.drop_first(),
            );
        }
    }
}

proof fn lemma_alive_through_refines(
    p: Pattern,
    v1: Verdicts,
    v2: Verdicts,
    from: int,
    to: int,
    n: int,
)
    requires
        refines(v1, v2, n),
        alive_through(p, v1, from, to, n) is Ok,
    ensures
        alive_through(p, v2, from, to, n) == alive_through(p, v1, from, to, n),
    decreases if from <= to { to - from + 1 } else { 0 },
{
    if from <= to {
        lemma_alive_refines(p, v1, v2, from, n);
        if alive(p, v1, from, n) == Ok::<bool, Request>(false) {
            lemma_alive_through_refines(p, v1, v2, from + 1, to, n);
        }
    }
}

/// How many matches are frozen: as many of the first as rows to come cannot change. Rows to come cannot
/// change any attempt from the row at which the scan goes on, behind the match before, up to the first
/// row of one of these; and they can change such an attempt for the next match, unless it does not end
/// within the rows.
pub proof fn lemma_what_is_frozen(
    p: Pattern,
    v: Verdicts,
    skip: SkipView,
    n: int,
    cursor: int,
    tail: Seq<Span>,
    i: int,
    row: int,
)
    requires
        settles(p, v, skip, n, cursor, tail) is Ok,
        0 <= i < tail.len(),
    ensures
        ({
            let k = settles(p, v, skip, n, cursor, tail)->Ok_0;
            let from = if i == 0 {
                cursor
            } else {
                resume(skip, tail[i - 1].start, tail[i - 1].labels)
            };
            &&& k <= tail.len()
            &&& i < k ==> tail[i].start + tail[i].labels.len() <= n
            &&& i < k && from <= row <= tail[i].start ==> alive(p, v, row, n) == Ok::<bool, Request>(
                false,
            )
            &&& i == k && tail[i].start + tail[i].labels.len() <= n ==> exists|x: int|
                from <= x <= tail[i].start && #[trigger] alive(p, v, x, n) == Ok::<bool, Request>(
                    true,
                )
        }),
    decreases tail.len(),
{
    if tail[0].end() <= n {
        lemma_one_alive(p, v, cursor, tail[0].start, n, row);
        if alive_through(p, v, cursor, tail[0].start, n) == Ok::<bool, Request>(false) {
            let next = resume(skip, tail[0].start, tail[0].labels);
            let rest = tail.drop_first();
            if i > 0 {
                lemma_what_is_frozen(p, v, skip, n, next, rest, i - 1, row);
                assert(rest[i - 1] == tail[i]);
                if i > 1 {
                    assert(rest[i - 2] == tail[i - 1]);
                }
            } else if rest.len() > 0 {
                lemma_what_is_frozen(p, v, skip, n, next, rest, 0, row);
            }
        }
    }
}

proof fn lemma_one_alive(p: Pattern, v: Verdicts, from: int, to: int, n: int, row: int)
    ensures
        alive_through(p, v, from, to, n) == Ok::<bool, Request>(false) && from <= row <= to
            ==> alive(p, v, row, n) == Ok::<bool, Request>(false),
        alive_through(p, v, from, to, n) == Ok::<bool, Request>(true) ==> exists|x: int|
            from <= x <= to && #[trigger] alive(p, v, x, n) == Ok::<bool, Request>(true),
    decreases if from <= to { to - from + 1 } else { 0 },
{
    if from <= to {
        if alive(p, v, from, n) == Ok::<bool, Request>(false) {
            lemma_one_alive(p, v, from + 1, to, n, row);
        } else {
            assert(alive(p, v, from, n) == alive(p, v, from, n));
        }
    }
}

} // verus!
