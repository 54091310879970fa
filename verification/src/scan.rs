//! What a scan of the rows for matches finds.

use crate::eval::Request;
use crate::matcher::shifted;
use crate::pattern::{trace, Outcome, Pattern, Trace, Var, Verdicts, Window};
use crate::skip::{lemma_resume_advances, resume, SkipView};
use crate::trace::{covers, extends, lemma_trace_covers, lemma_trace_extends, same_rows};
use vstd::prelude::*;

verus! {

/// What a walk through the ways to match a pattern looks for.
#[derive(Debug, Clone, Copy)]
pub enum Goal {
    /// The first way that is done.
    Match,
    /// The first way that is done or that ran out of rows.
    Decide,
    /// The first way that reaches the last row: it ran out of rows, or is done there.
    Reach,
}

/// Whether a walk ends with the outcome. A missing verdict ends every walk.
pub open spec fn stops(goal: Goal, w: Window, o: Outcome) -> bool {
    match o {
        Outcome::Blocked(_) => true,
        Outcome::Wants => !(goal is Match),
        Outcome::Done(l) => !(goal is Reach) || w.start + l.len() == w.n,
    }
}

/// The outcome that a walk ends with, `None` where there is no such outcome.
pub open spec fn first_stop(t: Trace, goal: Goal, w: Window) -> Option<Outcome>
    decreases t.len(),
{
    if t.len() == 0 {
        None
    } else if stops(goal, w, t[0]) {
        Some(t[0])
    } else {
        first_stop(t.drop_first(), goal, w)
    }
}

/// The rows of a match attempt at `start` that sees the rows before `n`.
pub open spec fn window(v: Verdicts, start: int, n: int) -> Window {
    Window { verdicts: v, start, n }
}

/// The ways to match `p` from row `start` on, in the order of preference.
pub open spec fn ways(p: Pattern, v: Verdicts, start: int, n: int) -> Trace {
    trace(p, window(v, start, n), Seq::empty())
}

/// The outcome of the match attempt at `start`: the first way that is done, or the verdict that is
/// missing to tell.
pub open spec fn preferred(p: Pattern, v: Verdicts, start: int, n: int) -> Option<Outcome> {
    first_stop(ways(p, v, start, n), Goal::Match, window(v, start, n))
}

/// Whether a way that is preferred over the match of the rows from `start` up to `end` could be
/// done with more rows.
pub open spec fn extendable(p: Pattern, v: Verdicts, start: int, end: int) -> Result<
    bool,
    Request,
> {
    match first_stop(ways(p, v, start, end), Goal::Decide, window(v, start, end)) {
        Some(Outcome::Wants) => Ok(true),
        Some(Outcome::Blocked(q)) => Err(q),
        _ => Ok(false),
    }
}

/// Whether some way to match from `start` on reaches the last row before `n`.
pub open spec fn alive(p: Pattern, v: Verdicts, start: int, n: int) -> Result<bool, Request> {
    match first_stop(ways(p, v, start, n), Goal::Reach, window(v, start, n)) {
        Some(Outcome::Blocked(q)) => Err(q),
        Some(_) => Ok(true),
        None => Ok(false),
    }
}

/// A match: its first row, and the variables that its rows are bound to.
pub struct Span {
    pub start: int,
    pub labels: Seq<Var>,
}

impl Span {
    /// One past the last row.
    pub open spec fn end(self) -> int {
        self.start + self.labels.len()
    }
}

/// `head`, followed by what `rest` holds.
pub open spec fn prepend(head: Seq<Span>, rest: Result<Seq<Span>, Request>) -> Result<
    Seq<Span>,
    Request,
> {
    match rest {
        Ok(s) => Ok(head + s),
        Err(q) => Err(q),
    }
}

/// The matches that a scan finds from row `cursor` on. An attempt whose preferred way binds no row
/// is no match. After a match the scan resumes where the skip strategy says.
pub open spec fn scan(p: Pattern, v: Verdicts, skip: SkipView, n: int, cursor: int) -> Result<
    Seq<Span>,
    Request,
>
    decreases if cursor < n { n - cursor } else { 0 },
{
    if cursor >= n {
        Ok(Seq::empty())
    } else {
        match preferred(p, v, cursor, n) {
            Some(Outcome::Blocked(q)) => Err(q),
            Some(Outcome::Done(l)) => if l.len() > 0 {
                proof {
                    lemma_resume_advances(skip, cursor, l);
                }
                prepend(
                    seq![Span { start: cursor, labels: l }],
                    scan(p, v, skip, n, resume(skip, cursor, l)),
                )
            } else {
                scan(p, v, skip, n, cursor + 1)
            },
            _ => scan(p, v, skip, n, cursor + 1),
        }
    }
}

pub proof fn lemma_first_stop_append(a: Trace, b: Trace, goal: Goal, w: Window)
    ensures
        first_stop(a + b, goal, w) == match first_stop(a, goal, w) {
            Some(o) => Some(o),
            None => first_stop(b, goal, w),
        },
    decreases a.len(),
{
    if a.len() == 0 {
        assert(a + b =~= b);
    } else {
        assert((a + b).drop_first() =~= a.drop_first() + b);
        lemma_first_stop_append(a.drop_first(), b, goal, w);
    }
}

/// What a walk ends with is one of the outcomes, and no earlier outcome ends it.
pub proof fn lemma_first_stop(t: Trace, goal: Goal, w: Window) -> (k: int)
    ensures
        match first_stop(t, goal, w) {
            Some(o) => 0 <= k < t.len() && t[k] == o && stops(goal, w, o) && forall|i: int|
                0 <= i < k ==> !stops(goal, w, #[trigger] t[i]),
            None => forall|i: int| 0 <= i < t.len() ==> !stops(goal, w, #[trigger] t[i]),
        },
    decreases t.len(),
{
    if t.len() == 0 {
        0
    } else if stops(goal, w, t[0]) {
        0
    } else {
        let d = t.drop_first();
        let k = lemma_first_stop(d, goal, w);
        assert forall|i: int|
            0 <= i < t.len() && (first_stop(t, goal, w) is Some ==> i < k + 1) implies !stops(
            goal,
            w,
            #[trigger] t[i],
        ) by {
            if i > 0 {
                assert(d[i - 1] == t[i]);
            }
        }
        k + 1
    }
}

/// A match lies within the rows.
pub proof fn lemma_preferred_bounds(p: Pattern, v: Verdicts, start: int, n: int)
    requires
        start <= n,
    ensures
        preferred(p, v, start, n) matches Some(Outcome::Done(l)) ==> start + l.len() <= n,
{
    let w = window(v, start, n);
    let t = ways(p, v, start, n);
    let k = lemma_first_stop(t, Goal::Match, w);
    lemma_trace_extends(p, w, Seq::empty());
    if let Some(Outcome::Done(l)) = preferred(p, v, start, n) {
        assert(t[k] is Done);
        assert(extends(w, Seq::empty(), t[k]->Done_0));
    }
}

/// The matches of a scan bind at least one row each, lie within the rows that it scans, and are
/// ordered by their first row.
pub proof fn lemma_scan_bounds(p: Pattern, v: Verdicts, skip: SkipView, n: int, cursor: int)
    ensures
        scan(p, v, skip, n, cursor) matches Ok(s) ==> {
            &&& forall|i: int|
                0 <= i < s.len() ==> cursor <= (#[trigger] s[i]).start < s[i].end() <= n
            &&& forall|i: int, j: int|
                0 <= i < j < s.len() ==> (#[trigger] s[i]).start < (#[trigger] s[j]).start
            &&& forall|i: int, j: int|
                0 <= i < j < s.len() ==> resume(skip, (#[trigger] s[i]).start, s[i].labels)
                    <= (#[trigger] s[j]).start
        },
    decreases if cursor < n { n - cursor } else { 0 },
{
    if cursor < n {
        lemma_preferred_bounds(p, v, cursor, n);
        match preferred(p, v, cursor, n) {
            Some(Outcome::Done(l)) => {
                if l.len() > 0 {
                    lemma_resume_advances(skip, cursor, l);
                    lemma_scan_bounds(p, v, skip, n, resume(skip, cursor, l));
                    if let Ok(s) = scan(p, v, skip, n, resume(skip, cursor, l)) {
                        let all = seq![Span { start: cursor, labels: l }] + s;
                        assert forall|i: int| 0 <= i < all.len() implies cursor <= (
                        #[trigger] all[i]).start < all[i].end() <= n by {
                            if i > 0 {
                                assert(all[i] == s[i - 1]);
                            }
                        }
                        assert forall|i: int, j: int| 0 <= i < j < all.len() implies resume(
                            skip,
                            (#[trigger] all[i]).start,
                            all[i].labels,
                        ) <= (#[trigger] all[j]).start by {
                            assert(all[j] == s[j - 1]);
                            if i > 0 {
                                assert(all[i] == s[i - 1]);
                            }
                        }
                        assert forall|i: int, j: int| 0 <= i < j < all.len() implies (
                        #[trigger] all[i]).start < (#[trigger] all[j]).start by {
                            assert(all[j] == s[j - 1]);
                            if i > 0 {
                                assert(all[i] == s[i - 1]);
                            }
                        }
                    }
                } else {
                    lemma_scan_bounds(p, v, skip, n, cursor + 1);
                }
            },
            Some(Outcome::Blocked(_)) => {},
            _ => lemma_scan_bounds(p, v, skip, n, cursor + 1),
        }
    }
}

/// `v1` and `v2` give the same verdicts on the rows from `lo` up to `n`, for matches that start
/// there.
pub open spec fn agree(v1: Verdicts, v2: Verdicts, lo: int, n: int) -> bool {
    forall|var: Var, pos: int, labels: Seq<Var>|
        lo <= pos - labels.len() && pos < n ==> #[trigger] v1(var, pos, labels) == v2(
            var,
            pos,
            labels,
        )
}

/// An attempt that no way of reaches the last row takes the same course where more rows follow.
pub proof fn lemma_dead_is_final(
    p: Pattern,
    v1: Verdicts,
    v2: Verdicts,
    start: int,
    n1: int,
    n2: int,
)
    requires
        n1 <= n2,
        agree(v1, v2, start, n1),
        alive(p, v1, start, n1) == Ok::<bool, Request>(false),
    ensures
        ways(p, v2, start, n2) == ways(p, v1, start, n1),
        preferred(p, v2, start, n2) == preferred(p, v1, start, n1),
{
    let w1 = window(v1, start, n1);
    let w2 = window(v2, start, n2);
    let t = ways(p, v1, start, n1);
    let _ = lemma_first_stop(t, Goal::Reach, w1);
    assert(first_stop(t, Goal::Reach, w1) is None);
    assert forall|i: int| 0 <= i < t.len() implies !(#[trigger] t[i] is Wants) by {
        assert(!stops(Goal::Reach, w1, t[i]));
    }
    assert(covers(w1, w2));
    lemma_trace_covers(p, w1, w2, Seq::empty());
    lemma_first_stop_match(t, w1, w2);
}

/// Which way is done first does not depend on the rows.
proof fn lemma_first_stop_match(t: Trace, w1: Window, w2: Window)
    ensures
        first_stop(t, Goal::Match, w1) == first_stop(t, Goal::Match, w2),
    decreases t.len(),
{
    if t.len() > 0 {
        lemma_first_stop_match(t.drop_first(), w1, w2);
    }
}

/// The attempts from row `lo` on have the same ways to match with `v1` as with `v2`.
pub open spec fn same_ways(p: Pattern, v1: Verdicts, v2: Verdicts, lo: int, n: int) -> bool {
    forall|start: int| lo <= start ==> #[trigger] ways(p, v1, start, n) == ways(p, v2, start, n)
}

/// An attempt depends on nothing but its ways to match.
pub proof fn lemma_same_ways(p: Pattern, v1: Verdicts, v2: Verdicts, start: int, n: int)
    requires
        ways(p, v1, start, n) == ways(p, v2, start, n),
    ensures
        preferred(p, v1, start, n) == preferred(p, v2, start, n),
        alive(p, v1, start, n) == alive(p, v2, start, n),
        extendable(p, v1, start, n) == extendable(p, v2, start, n),
{
    let t = ways(p, v1, start, n);
    let w1 = window(v1, start, n);
    let w2 = window(v2, start, n);
    lemma_first_stop_moved(t, Goal::Match, w1, w2);
    lemma_first_stop_moved(t, Goal::Reach, w1, w2);
    lemma_first_stop_moved(t, Goal::Decide, w1, w2);
}

/// A scan depends on nothing but the ways to match of its attempts.
pub proof fn lemma_scan_same_ways(
    p: Pattern,
    v1: Verdicts,
    v2: Verdicts,
    skip: SkipView,
    n: int,
    cursor: int,
)
    requires
        same_ways(p, v1, v2, cursor, n),
    ensures
        scan(p, v1, skip, n, cursor) == scan(p, v2, skip, n, cursor),
    decreases if cursor < n { n - cursor } else { 0 },
{
    if cursor < n {
        assert(ways(p, v1, cursor, n) == ways(p, v2, cursor, n));
        lemma_same_ways(p, v1, v2, cursor, n);
        match preferred(p, v1, cursor, n) {
            Some(Outcome::Done(l)) => {
                if l.len() > 0 {
                    lemma_resume_advances(skip, cursor, l);
                    lemma_scan_same_ways(p, v1, v2, skip, n, resume(skip, cursor, l));
                } else {
                    lemma_scan_same_ways(p, v1, v2, skip, n, cursor + 1);
                }
            },
            Some(Outcome::Blocked(_)) => {},
            _ => lemma_scan_same_ways(p, v1, v2, skip, n, cursor + 1),
        }
    }
}

/// Where the verdicts agree, so do the ways to match.
pub proof fn lemma_agree_same_ways(p: Pattern, v1: Verdicts, v2: Verdicts, lo: int, n: int)
    requires
        agree(v1, v2, lo, n),
    ensures
        same_ways(p, v1, v2, lo, n),
{
    assert forall|start: int| lo <= start implies #[trigger] ways(p, v1, start, n) == ways(
        p,
        v2,
        start,
        n,
    ) by {
        lemma_trace_covers(p, window(v1, start, n), window(v2, start, n), Seq::empty());
    }
}

/// The matches, moved by `d` rows.
pub open spec fn moved(s: Seq<Span>, d: int) -> Seq<Span> {
    s.map_values(|m: Span| Span { start: m.start + d, labels: m.labels })
}

/// The matches of a scan, moved by `d` rows.
pub open spec fn moved_result(r: Result<Seq<Span>, Request>, d: int) -> Result<Seq<Span>, Request> {
    match r {
        Ok(s) => Ok(moved(s, d)),
        Err(q) => Err(q),
    }
}

proof fn lemma_resume_moved(skip: SkipView, start: int, labels: Seq<Var>, d: int)
    ensures
        resume(skip, start + d, labels) == resume(skip, start, labels) + d,
{
}

/// Scanning the rows from row `d` on, as rows of their own, finds the same matches.
pub proof fn lemma_scan_moved(
    p: Pattern,
    v: Verdicts,
    skip: SkipView,
    n: int,
    cursor: int,
    d: int,
)
    ensures
        moved_result(scan(p, shifted(v, d), skip, n, cursor), d) == scan(
            p,
            v,
            skip,
            n + d,
            cursor + d,
        ),
    decreases if cursor < n { n - cursor } else { 0 },
{
    let vs = shifted(v, d);
    if cursor >= n {
        assert(moved(Seq::empty(), d) =~= Seq::empty());
    } else {
        lemma_dead_moved(p, v, cursor, n, d);
        match preferred(p, vs, cursor, n) {
            Some(Outcome::Done(l)) => {
                lemma_resume_moved(skip, cursor, l, d);
                if l.len() > 0 {
                    lemma_resume_advances(skip, cursor, l);
                    lemma_scan_moved(p, v, skip, n, resume(skip, cursor, l), d);
                    if let Ok(s) = scan(p, vs, skip, n, resume(skip, cursor, l)) {
                        assert(moved(seq![Span { start: cursor, labels: l }] + s, d) =~= seq![
                            Span { start: cursor + d, labels: l },
                        ] + moved(s, d));
                    }
                } else {
                    lemma_scan_moved(p, v, skip, n, cursor + 1, d);
                }
            },
            Some(Outcome::Blocked(_)) => {},
            _ => lemma_scan_moved(p, v, skip, n, cursor + 1, d),
        }
    }
}

/// An attempt on the rows from row `d` on, as rows of their own, takes the same course.
pub proof fn lemma_dead_moved(p: Pattern, v: Verdicts, start: int, n: int, d: int)
    ensures
        preferred(p, shifted(v, d), start, n) == preferred(p, v, start + d, n + d),
        alive(p, shifted(v, d), start, n) == alive(p, v, start + d, n + d),
{
    let w1 = window(shifted(v, d), start, n);
    let w2 = window(v, start + d, n + d);
    lemma_shifted_covers(v, start, n, d);
    lemma_trace_covers(p, w1, w2, Seq::empty());
    lemma_first_stop_moved(ways(p, shifted(v, d), start, n), Goal::Match, w1, w2);
    lemma_first_stop_moved(ways(p, shifted(v, d), start, n), Goal::Reach, w1, w2);
}

proof fn lemma_shifted_covers(v: Verdicts, start: int, n: int, d: int)
    ensures
        covers(window(shifted(v, d), start, n), window(v, start + d, n + d)),
        same_rows(window(shifted(v, d), start, n), window(v, start + d, n + d)),
{
    let w1 = window(shifted(v, d), start, n);
    let w2 = window(v, start + d, n + d);
    assert forall|var: Var, labels: Seq<Var>|
        w1.start + labels.len() < w1.n implies #[trigger] (w1.verdicts)(
        var,
        w1.start + labels.len(),
        labels,
    ) == (w2.verdicts)(var, w2.start + labels.len(), labels) by {
        assert(start + labels.len() + d == start + d + labels.len());
    }
}

proof fn lemma_first_stop_moved(t: Trace, goal: Goal, w1: Window, w2: Window)
    requires
        same_rows(w1, w2),
    ensures
        first_stop(t, goal, w1) == first_stop(t, goal, w2),
    decreases t.len(),
{
    if t.len() > 0 {
        lemma_first_stop_moved(t.drop_first(), goal, w1, w2);
    }
}

/// What an attempt gives: the first of its ways, in the order of preference, that does not run out of
/// rows; a match where it is done, and a request where a verdict is missing. There is none where all
/// ways run out of rows.
pub proof fn lemma_attempt_prefers_first(p: Pattern, v: Verdicts, start: int, n: int) -> (k: int)
    ensures
        ({
            let t = trace(p, Window { verdicts: v, start, n }, Seq::empty());
            match preferred(p, v, start, n) {
                Some(o) => {
                    &&& 0 <= k < t.len()
                    &&& t[k] == o
                    &&& !(o is Wants)
                    &&& forall|i: int| 0 <= i < k ==> (#[trigger] t[i]) is Wants
                },
                None => forall|i: int| 0 <= i < t.len() ==> (#[trigger] t[i]) is Wants,
            }
        }),
{
    let w = window(v, start, n);
    let t = ways(p, v, start, n);
    let k = lemma_first_stop(t, Goal::Match, w);
    assert forall|i: int|
        0 <= i < t.len() && !stops(Goal::Match, w, #[trigger] t[i]) implies t[i] is Wants by {}
    k
}

/// Whether rows to come can change what an attempt gives. They can where one of its ways runs out of
/// rows, or is done at the last row; they cannot where all ways are done before it.
pub proof fn lemma_attempt_alive(p: Pattern, v: Verdicts, start: int, n: int) -> (k: int)
    ensures
        ({
            let t = trace(p, Window { verdicts: v, start, n }, Seq::empty());
            match alive(p, v, start, n) {
                Ok(true) => {
                    &&& 0 <= k < t.len()
                    &&& match t[k] {
                        Outcome::Wants => true,
                        Outcome::Done(l) => start + l.len() == n,
                        Outcome::Blocked(_) => false,
                    }
                },
                Ok(false) => forall|i: int|
                    0 <= i < t.len() ==> ((#[trigger] t[i]) matches Outcome::Done(l) && start
                        + l.len() != n),
                Err(q) => {
                    &&& 0 <= k < t.len()
                    &&& t[k] == Outcome::Blocked(q)
                    &&& forall|i: int|
                        0 <= i < k ==> ((#[trigger] t[i]) matches Outcome::Done(l) && start
                            + l.len() != n)
                },
            }
        }),
{
    let w = window(v, start, n);
    let t = ways(p, v, start, n);
    let k = lemma_first_stop(t, Goal::Reach, w);
    assert forall|i: int| 0 <= i < t.len() && !stops(Goal::Reach, w, #[trigger] t[i]) implies (
    t[i] matches Outcome::Done(l) && start + l.len() != n) by {}
    k
}

/// Whether a match can be extended: the way that is preferred over all others runs out of rows at
/// its end.
pub proof fn lemma_attempt_extendable(p: Pattern, v: Verdicts, start: int, end: int)
    ensures
        ({
            let t = trace(p, Window { verdicts: v, start, n: end }, Seq::empty());
            match extendable(p, v, start, end) {
                Ok(b) => b == (t.len() > 0 && t[0] is Wants),
                Err(q) => t.len() > 0 && t[0] == Outcome::Blocked(q),
            }
        }),
{
}

/// The row is skipped after the match: it lies behind the first row of the match and before the row
/// at which the scan resumes.
pub open spec fn is_skipped(skip: SkipView, m: Span, row: int) -> bool {
    m.start < row < resume(skip, m.start, m.labels)
}

/// What a scan from row `cursor` on finds. At each row from there on that is not skipped after a
/// match it makes an attempt: where what the attempt gives binds at least one row it is a match that
/// is found, with these variables, and else there is no match that starts at the row. No match starts
/// at a row that is skipped.
pub proof fn lemma_scan_finds(
    p: Pattern,
    v: Verdicts,
    skip: SkipView,
    n: int,
    cursor: int,
    row: int,
)
    requires
        scan(p, v, skip, n, cursor) is Ok,
        cursor <= row < n,
    ensures
        ({
            let found = scan(p, v, skip, n, cursor)->Ok_0;
            let skipped = exists|i: int|
                0 <= i < found.len() && is_skipped(skip, #[trigger] found[i], row);
            &&& skipped ==> forall|i: int|
                0 <= i < found.len() ==> (#[trigger] found[i]).start != row
            &&& !skipped ==> match preferred(p, v, row, n) {
                Some(Outcome::Done(l)) => if l.len() > 0 {
                    found.contains(Span { start: row, labels: l })
                } else {
                    forall|i: int| 0 <= i < found.len() ==> (#[trigger] found[i]).start != row
                },
                _ => forall|i: int| 0 <= i < found.len() ==> (#[trigger] found[i]).start != row,
            }
        }),
    decreases n - cursor, 1int,
{
    let found = scan(p, v, skip, n, cursor)->Ok_0;
    lemma_scan_bounds(p, v, skip, n, cursor);
    match preferred(p, v, cursor, n) {
        Some(Outcome::Done(l)) => {
            if l.len() > 0 {
                lemma_resume_advances(skip, cursor, l);
                let next = resume(skip, cursor, l);
                let first = Span { start: cursor, labels: l };
                let rest = scan(p, v, skip, n, next)->Ok_0;
                assert(found =~= seq![first] + rest);
                assert(found[0] == first);
                lemma_scan_bounds(p, v, skip, n, next);
                assert forall|i: int| 0 <= i < rest.len() implies #[trigger] rest[i] == found[i
                    + 1] by {}
                if row == cursor {
                    assert forall|i: int| 0 <= i < found.len() implies !is_skipped(
                        skip,
                        #[trigger] found[i],
                        row,
                    ) by {}
                } else if row < next {
                    assert(is_skipped(skip, found[0], row));
                    assert forall|i: int| 0 <= i < found.len() implies (
                    #[trigger] found[i]).start != row by {
                        if i > 0 {
                            assert(found[i] == rest[i - 1]);
                        }
                    }
                } else {
                    lemma_scan_finds(p, v, skip, n, next, row);
                    if exists|i: int|
                        0 <= i < rest.len() && is_skipped(skip, #[trigger] rest[i], row) {
                        let i = choose|i: int|
                            0 <= i < rest.len() && is_skipped(skip, #[trigger] rest[i], row);
                        assert(is_skipped(skip, found[i + 1], row));
                    } else {
                        assert forall|i: int| 0 <= i < found.len() implies !is_skipped(
                            skip,
                            #[trigger] found[i],
                            row,
                        ) by {
                            if i > 0 {
                                assert(found[i] == rest[i - 1]);
                                assert(!is_skipped(skip, rest[i - 1], row));
                            }
                        }
                    }
                    assert forall|i: int|
                        0 <= i < found.len() && (forall|j: int|
                            0 <= j < rest.len() ==> (#[trigger] rest[j]).start != row) implies (
                    #[trigger] found[i]).start != row by {
                        if i > 0 {
                            assert(found[i] == rest[i - 1]);
                        }
                    }
                    if let Some(Outcome::Done(k)) = preferred(p, v, row, n) {
                        let m = Span { start: row, labels: k };
                        if rest.contains(m) {
                            let i = choose|i: int| 0 <= i < rest.len() && rest[i] == m;
                            assert(found[i + 1] == m);
                        }
                    }
                }
            } else {
                lemma_scan_past(p, v, skip, n, cursor, row);
            }
        },
        _ => lemma_scan_past(p, v, skip, n, cursor, row),
    }
}

/// An attempt that gives no match leaves the scan as it is from the next row on.
proof fn lemma_scan_past(p: Pattern, v: Verdicts, skip: SkipView, n: int, cursor: int, row: int)
    requires
        scan(p, v, skip, n, cursor) is Ok,
        cursor <= row < n,
        preferred(p, v, cursor, n) matches Some(Outcome::Done(l)) ==> l.len() == 0,
    ensures
        ({
            let found = scan(p, v, skip, n, cursor)->Ok_0;
            let skipped = exists|i: int|
                0 <= i < found.len() && is_skipped(skip, #[trigger] found[i], row);
            &&& skipped ==> forall|i: int|
                0 <= i < found.len() ==> (#[trigger] found[i]).start != row
            &&& !skipped ==> match preferred(p, v, row, n) {
                Some(Outcome::Done(l)) => if l.len() > 0 {
                    found.contains(Span { start: row, labels: l })
                } else {
                    forall|i: int| 0 <= i < found.len() ==> (#[trigger] found[i]).start != row
                },
                _ => forall|i: int| 0 <= i < found.len() ==> (#[trigger] found[i]).start != row,
            }
        }),
    decreases n - cursor, 0int,
{
    assert(scan(p, v, skip, n, cursor) == scan(p, v, skip, n, cursor + 1));
    lemma_scan_bounds(p, v, skip, n, cursor + 1);
    if row > cursor {
        lemma_scan_finds(p, v, skip, n, cursor + 1, row);
    }
}

/// A scan stops for a missing verdict only where one of its attempts does, and asks for what that
/// attempt asks for; it makes no attempt before the row from which on it scans.
pub proof fn lemma_scan_stops(
    p: Pattern,
    v: Verdicts,
    skip: SkipView,
    n: int,
    cursor: int,
) -> (row: int)
    ensures
        scan(p, v, skip, n, cursor) matches Err(q) ==> cursor <= row < n && preferred(
            p,
            v,
            row,
            n,
        ) == Some(Outcome::Blocked(q)),
    decreases if cursor < n { n - cursor } else { 0 },
{
    if cursor >= n {
        cursor
    } else {
        match preferred(p, v, cursor, n) {
            Some(Outcome::Blocked(_)) => cursor,
            Some(Outcome::Done(l)) => if l.len() > 0 {
                lemma_resume_advances(skip, cursor, l);
                lemma_scan_stops(p, v, skip, n, resume(skip, cursor, l))
            } else {
                lemma_scan_stops(p, v, skip, n, cursor + 1)
            },
            _ => lemma_scan_stops(p, v, skip, n, cursor + 1),
        }
    }
}

} // verus!
