//! Aligning a partition's matcher with its buffered rows.

use crate::buffer::{buffer_view, seqs, BufferedRow};
use crate::eval::{EvalRequest, Request};
use crate::incremental::{
    derived, lemma_cut_settled, lemma_joined_starts, lemma_progress_agree, lemma_settles_within,
    lemma_step_equals_batch, seq_pos, IncrementalMatcher, Progress,
};
use crate::matcher::CandidateMatcher;
use crate::pattern::{Pattern, Verdicts};
use crate::refine::refines;
use crate::scan::{agree, lemma_scan_bounds, scan, Span};
use crate::settled::settles;
use crate::skip::{lemma_resume_advances, SkipView};
use vstd::prelude::*;

verus! {

/// The first place from `i` on where the lists differ or one of them ends.
pub open spec fn diverge_at(a: Seq<i64>, b: Seq<i64>, i: int) -> int
    decreases a.len() - i,
{
    if i < 0 || i >= a.len() || i >= b.len() || a[i] != b[i] {
        i
    } else {
        diverge_at(a, b, i + 1)
    }
}

/// No seq occurs twice.
pub open spec fn distinct(s: Seq<i64>) -> bool {
    forall|i: int, j: int| 0 <= i < j < s.len() ==> #[trigger] s[i] != #[trigger] s[j]
}

/// A matcher after the rows with the given seqs are the rows fed to it. The rows that it was fed
/// and that are not among the first of these are rolled back, and the others are fed.
pub open spec fn refreshed(
    g: Progress,
    p: Pattern,
    v: Verdicts,
    skip: SkipView,
    rows: Seq<i64>,
) -> Result<Progress, Request> {
    let at = diverge_at(g.fed, rows, 0);
    if at == g.fed.len() {
        if at == rows.len() {
            Ok(g)
        } else {
            match derived(p, v, skip, rows.len() as int, g.resume) {
                Ok((tail, k)) => Ok(g.with(skip, rows, tail, k)),
                Err(q) => Err(q),
            }
        }
    } else {
        match settles(p, v, skip, at, 0, g.spans.take(g.frozen as int)) {
            Err(q) => Err(q),
            Ok(kept) => {
                let c = g.cut(skip, at, kept);
                match derived(p, v, skip, rows.len() as int, c.resume) {
                    Ok((tail, k)) => Ok(c.with(skip, rows, tail, k)),
                    Err(q) => Err(q),
                }
            },
        }
    }
}

/// What a refresh leaves that stops for a missing verdict. Where the verdict is on rows that were
/// fed before, the matcher is as it was. Else the rows are fed, and only the matches are there that
/// are frozen with them, or that were there before where no row was rolled back.
pub open spec fn stopped(
    g: Progress,
    p: Pattern,
    v: Verdicts,
    skip: SkipView,
    rows: Seq<i64>,
) -> Progress {
    let at = diverge_at(g.fed, rows, 0);
    if at == g.fed.len() {
        Progress { fed: rows, ..g }
    } else {
        match settles(p, v, skip, at, 0, g.spans.take(g.frozen as int)) {
            Err(_) => g,
            Ok(kept) => Progress { fed: rows, ..g.cut(skip, at, kept) },
        }
    }
}

/// The lists are the same up to the place where they differ.
pub proof fn lemma_diverge_at(a: Seq<i64>, b: Seq<i64>, i: int)
    requires
        0 <= i <= a.len(),
        i <= b.len(),
        a.take(i) == b.take(i),
    ensures
        i <= diverge_at(a, b, i) <= a.len(),
        diverge_at(a, b, i) <= b.len(),
        a.take(diverge_at(a, b, i)) == b.take(diverge_at(a, b, i)),
    decreases a.len() - i,
{
    if i < a.len() && i < b.len() && a[i] == b[i] {
        assert(a.take(i + 1) =~= a.take(i).push(a[i]));
        assert(b.take(i + 1) =~= b.take(i).push(b[i]));
        lemma_diverge_at(a, b, i + 1);
    }
}

/// After a refresh the rows fed are the rows.
pub proof fn lemma_refreshed_rows(
    g: Progress,
    p: Pattern,
    v: Verdicts,
    skip: SkipView,
    rows: Seq<i64>,
)
    ensures
        refreshed(g, p, v, skip, rows) matches Ok(n) ==> n.fed == rows,
{
    let at = diverge_at(g.fed, rows, 0);
    assert(g.fed.take(0) =~= rows.take(0));
    lemma_diverge_at(g.fed, rows, 0);
    if at == g.fed.len() && at == rows.len() {
        assert(g.fed.take(at) =~= g.fed);
        assert(rows.take(at) =~= rows);
    }
}

proof fn lemma_seq_pos_distinct(s: Seq<i64>, at: int, i: int)
    requires
        distinct(s),
        0 <= i <= at < s.len(),
    ensures
        seq_pos(s, s[at], i) == Some(at),
    decreases at - i,
{
    if i < at {
        assert(s[i] != s[at]);
        lemma_seq_pos_distinct(s, at, i + 1);
    }
}

/// The seqs of the rows from `from` up to `to`.
fn seqs_between(rows: &Vec<BufferedRow>, from: usize, to: usize) -> (r: Vec<i64>)
    requires
        from <= to <= rows@.len(),
    ensures
        r@ == seqs(buffer_view(rows@)).subrange(from as int, to as int),
{
    let mut r: Vec<i64> = Vec::new();
    let mut i: usize = from;
    while i < to
        invariant
            from <= i <= to <= rows@.len(),
            r@.len() == i - from,
            forall|j: int| from <= j < i ==> r@[j - from] == (#[trigger] rows@[j]).seq,
        decreases to - i,
    {
        r.push(rows[i].seq);
        i = i + 1;
    }
    assert(r@ =~= seqs(buffer_view(rows@)).subrange(from as int, to as int)) by {
        assert forall|x: int| 0 <= x < r@.len() implies r@[x] == seqs(
            buffer_view(rows@),
        ).subrange(from as int, to as int)[x] by {
            assert(r@[(x + from) - from] == rows@[x + from].seq);
        }
    }
    r
}

/// Align a matcher with the first `safe_len` rows. Rows that follow those it was fed are fed. If
/// one of them comes before a row that it was fed, or if it was fed rows after them, it is rolled
/// back to where they differ first, and its matches over the rows that are left are found again.
pub fn refresh_matcher<M: CandidateMatcher>(
    inc: &mut IncrementalMatcher,
    rows: &Vec<BufferedRow>,
    safe_len: usize,
    matcher: &M,
) -> (r: Result<(), EvalRequest>)
    requires
        old(inc).wf(),
        distinct(old(inc)@.fed),
        safe_len <= rows@.len(),
        matcher.first() <= 0,
        safe_len <= matcher.rows(),
        forall|i: int| 0 <= i < safe_len ==> (#[trigger] rows@[i]).seq < i64::MAX,
    ensures
        final(inc).wf(),
        final(inc).pattern() == old(inc).pattern(),
        final(inc).skip() == old(inc).skip(),
        match refreshed(
            old(inc)@,
            old(inc).pattern(),
            matcher.verdicts(),
            old(inc).skip(),
            seqs(buffer_view(rows@)).take(safe_len as int),
        ) {
            Ok(g) => r is Ok && final(inc)@ == g,
            Err(q) => r is Err && r->Err_0@ == q && final(inc)@ == stopped(
                old(inc)@,
                old(inc).pattern(),
                matcher.verdicts(),
                old(inc).skip(),
                seqs(buffer_view(rows@)).take(safe_len as int),
            ),
        },
{
    let ghost g = inc@;
    let ghost all = seqs(buffer_view(rows@));
    let ghost want = all.take(safe_len as int);
    let mut i: usize = 0;
    let (at, resync): (usize, Option<i64>) = {
        let fed = inc.fed_seqs();
        while i < safe_len && i < fed.len() && rows[i].seq == fed[i]
            invariant
                i <= safe_len <= rows@.len(),
                i <= fed@.len(),
                fed@ == g.fed,
                all == seqs(buffer_view(rows@)),
                want == all.take(safe_len as int),
                diverge_at(g.fed, want, 0) == diverge_at(g.fed, want, i as int),
            decreases safe_len - i,
        {
            assert(want[i as int] == rows@[i as int].seq);
            i = i + 1;
        }
        proof {
            if i < safe_len {
                assert(want[i as int] == rows@[i as int].seq);
            }
        }
        if i < fed.len() {
            (i, Some(fed[i]))
        } else {
            (i, None)
        }
    };
    proof {
        assert(g.fed.take(0) =~= want.take(0));
        lemma_diverge_at(g.fed, want, 0);
        assert(diverge_at(g.fed, want, 0) == at);
    }
    let new_seqs = seqs_between(rows, at, safe_len);
    proof {
        assert(g.fed.take(at as int) + new_seqs@ =~= want) by {
            assert(g.fed.take(at as int) == want.take(at as int));
            assert forall|x: int| 0 <= x < at implies g.fed[x] == want[x] by {
                assert(g.fed.take(at as int)[x] == want.take(at as int)[x]);
            }
        }
        assert forall|x: int| 0 <= x < new_seqs@.len() implies #[trigger] new_seqs@[x]
            < i64::MAX by {
            assert(new_seqs@[x] == rows@[x + at].seq);
        }
    }
    match resync {
        None => {
            assert(g.fed.take(at as int) =~= g.fed);
            inc.advance(new_seqs.as_slice(), matcher)
        },
        Some(resync) => {
            proof {
                lemma_seq_pos_distinct(g.fed, at as int, 0);
            }
            match inc.truncate_from_seq(resync, matcher) {
                Ok(()) => {},
                Err(q) => {
                    return Err(q);
                },
            }
            let ghost c = inc@;
            if new_seqs.len() == 0 {
                assert(c.fed =~= want);
                inc.rescan(matcher)
            } else {
                assert(c.fed =~= g.fed.take(at as int));
                inc.advance(new_seqs.as_slice(), matcher)
            }
        },
    }
}

/// Align a matcher with the first `safe_len` rows, or leave it as it is where a verdict is missing,
/// so that the step can be taken again.
pub fn try_refresh<M: CandidateMatcher>(
    inc: &mut IncrementalMatcher,
    rows: &Vec<BufferedRow>,
    safe_len: usize,
    matcher: &M,
) -> (r: Result<(), EvalRequest>)
    requires
        old(inc).wf(),
        distinct(old(inc)@.fed),
        safe_len <= rows@.len(),
        matcher.first() <= 0,
        safe_len <= matcher.rows(),
        forall|i: int| 0 <= i < safe_len ==> (#[trigger] rows@[i]).seq < i64::MAX,
    ensures
        final(inc).wf(),
        final(inc).pattern() == old(inc).pattern(),
        final(inc).skip() == old(inc).skip(),
        match refreshed(
            old(inc)@,
            old(inc).pattern(),
            matcher.verdicts(),
            old(inc).skip(),
            seqs(buffer_view(rows@)).take(safe_len as int),
        ) {
            Ok(g) => r is Ok && final(inc)@ == g,
            Err(q) => r is Err && r->Err_0@ == q && final(inc)@ == old(inc)@,
        },
{
    let mut next = inc.clone();
    match refresh_matcher(&mut next, rows, safe_len, matcher) {
        Ok(()) => {
            *inc = next;
            Ok(())
        },
        Err(q) => Err(q),
    }
}

/// The law of the matcher cache: where the matcher held what a scan of its rows finds, it holds
/// after the refresh what a scan of the new rows from scratch finds. `v0` are the verdicts on the
/// rows it was fed, `v` those on the new rows, which agree on the rows that did not change, and `m`
/// those of `v` that the step knew.
pub proof fn lemma_refresh_equals_batch(
    g: Progress,
    p: Pattern,
    v0: Verdicts,
    m: Verdicts,
    v: Verdicts,
    skip: SkipView,
    rows: Seq<i64>,
)
    requires
        g.ok(),
        g.settled(p, v0, skip),
        g.current(p, v0, skip),
        agree(v, v0, 0, diverge_at(g.fed, rows, 0)),
        refines(m, v, rows.len() as int),
        refreshed(g, p, m, skip, rows) is Ok,
    ensures
        refreshed(g, p, m, skip, rows)->Ok_0.fed == rows,
        refreshed(g, p, m, skip, rows)->Ok_0.settled(p, v, skip),
        refreshed(g, p, m, skip, rows)->Ok_0.current(p, v, skip),
        g.caught_up(p, v0, skip) ==> refreshed(g, p, m, skip, rows)->Ok_0.caught_up(p, v, skip),
{
    let at = diverge_at(g.fed, rows, 0);
    assert(g.fed.take(0) =~= rows.take(0));
    lemma_diverge_at(g.fed, rows, 0);
    if at == g.fed.len() {
        assert(agree(v0, v, 0, g.fed.len() as int));
        lemma_progress_agree(g, p, v0, v, skip);
        if at == rows.len() {
            assert(g.fed.take(at) =~= g.fed);
            assert(rows.take(at) =~= rows);
        } else {
            lemma_step_equals_batch(g, p, m, v, skip, rows);
        }
    } else {
        let frozen = g.spans.take(g.frozen as int);
        let kept = settles(p, m, skip, at, 0, frozen)->Ok_0;
        let c = g.cut(skip, at, kept);
        lemma_cut_settled(g, p, v0, m, v, skip, at);
        lemma_cut_ok(g, p, m, skip, at);
        lemma_step_equals_batch(c, p, m, v, skip, rows);
    }
}

/// A refresh with the rows `rows`. Of the verdicts `all` on them `known` are known.
pub struct Refresh {
    pub rows: Seq<i64>,
    pub known: Verdicts,
    pub all: Verdicts,
}

impl Refresh {
    /// What is known are verdicts on the rows, and there is a seq after the seq of each row.
    pub open spec fn ok(self) -> bool {
        &&& refines(self.known, self.all, self.rows.len() as int)
        &&& forall|i: int| 0 <= i < self.rows.len() ==> #[trigger] self.rows[i] < i64::MAX
    }
}

/// The verdicts look back: as long as the rows are the same, so are the verdicts on them.
pub open spec fn looks_back(steps: Seq<Refresh>) -> bool {
    forall|i: int, j: int|
        0 <= i < steps.len() && 0 <= j < steps.len() ==> agree(
            (#[trigger] steps[i]).all,
            (#[trigger] steps[j]).all,
            0,
            diverge_at(steps[j].rows, steps[i].rows, 0),
        )
}

/// What a matcher that no row was fed to holds.
pub open spec fn not_fed() -> Progress {
    Progress { fed: Seq::empty(), spans: Seq::empty(), frozen: 0, resume: 0 }
}

/// What a matcher holds after refreshes, where no row was fed to it before them. One that stops for
/// a missing verdict changes nothing.
pub open spec fn after_refreshes(p: Pattern, skip: SkipView, steps: Seq<Refresh>) -> Progress
    decreases steps.len(),
{
    if steps.len() == 0 {
        not_fed()
    } else {
        let g = after_refreshes(p, skip, steps.drop_last());
        match refreshed(g, p, steps.last().known, skip, steps.last().rows) {
            Ok(n) => n,
            Err(_) => g,
        }
    }
}

/// A matcher holds what a scan of its rows finds, its frozen matches are settled, and none of the
/// others can be.
pub open spec fn in_line(g: Progress, p: Pattern, v: Verdicts, skip: SkipView) -> bool {
    &&& g.ok()
    &&& g.settled(p, v, skip)
    &&& g.current(p, v, skip)
    &&& g.caught_up(p, v, skip)
}

/// The matcher is in line with the rows of a step.
spec fn in_line_with(g: Progress, p: Pattern, skip: SkipView, step: Refresh) -> bool {
    g.fed == step.rows && in_line(g, p, step.all, skip)
}

proof fn lemma_not_fed_in_line(p: Pattern, v: Verdicts, skip: SkipView)
    ensures
        in_line(not_fed(), p, v, skip),
{
    let none: Seq<Span> = Seq::empty();
    assert(none.take(0) =~= none);
}

proof fn lemma_refreshes(p: Pattern, skip: SkipView, steps: Seq<Refresh>)
    requires
        looks_back(steps),
        forall|i: int| 0 <= i < steps.len() ==> (#[trigger] steps[i]).ok(),
    ensures
        after_refreshes(p, skip, steps) == not_fed() || exists|j: int|
            0 <= j < steps.len() && in_line_with(
                after_refreshes(p, skip, steps),
                p,
                skip,
                #[trigger] steps[j],
            ),
        steps.len() > 0 && refreshed(
            after_refreshes(p, skip, steps.drop_last()),
            p,
            steps.last().known,
            skip,
            steps.last().rows,
        ) is Ok ==> in_line_with(after_refreshes(p, skip, steps), p, skip, steps.last()),
    decreases steps.len(),
{
    if steps.len() > 0 {
        let prior = steps.drop_last();
        let last = steps.len() - 1;
        let step = steps[last];
        assert forall|i: int| 0 <= i < prior.len() implies (#[trigger] prior[i]).ok() by {
            assert(steps[i].ok());
        }
        assert(looks_back(prior)) by {
            assert forall|i: int, j: int|
                0 <= i < prior.len() && 0 <= j < prior.len() implies agree(
                (#[trigger] prior[i]).all,
                (#[trigger] prior[j]).all,
                0,
                diverge_at(prior[j].rows, prior[i].rows, 0),
            ) by {
                assert(prior[i] == steps[i] && prior[j] == steps[j]);
            }
        }
        lemma_refreshes(p, skip, prior);
        let g = after_refreshes(p, skip, prior);
        assert(step.ok());
        if let Ok(n) = refreshed(g, p, step.known, skip, step.rows) {
            if g == not_fed() {
                lemma_not_fed_in_line(p, step.all, skip);
                lemma_refreshed_ok(g, p, step.known, skip, step.rows);
                lemma_refresh_equals_batch(g, p, step.all, step.known, step.all, skip, step.rows);
            } else {
                let j = choose|j: int|
                    0 <= j < prior.len() && in_line_with(g, p, skip, #[trigger] prior[j]);
                assert(prior[j] == steps[j]);
                assert(agree(
                    steps[last].all,
                    steps[j].all,
                    0,
                    diverge_at(steps[j].rows, steps[last].rows, 0),
                ));
                lemma_refreshed_ok(g, p, step.known, skip, step.rows);
                lemma_refresh_equals_batch(
                    g,
                    p,
                    steps[j].all,
                    step.known,
                    step.all,
                    skip,
                    step.rows,
                );
            }
            assert(in_line_with(n, p, skip, steps[last]));
        } else if g != not_fed() {
            let j = choose|j: int|
                0 <= j < prior.len() && in_line_with(g, p, skip, #[trigger] prior[j]);
            assert(in_line_with(g, p, skip, steps[j]));
        }
    }
}

/// The law of the matcher cache over its whole life: whatever refreshes came before, with rows that
/// follow the rows fed, with rows that come before some of them, or with fewer rows, a matcher that
/// is refreshed holds what a scan of the rows from scratch finds.
pub proof fn lemma_refreshes_equal_batch(p: Pattern, skip: SkipView, steps: Seq<Refresh>)
    requires
        steps.len() > 0,
        looks_back(steps),
        forall|i: int| 0 <= i < steps.len() ==> (#[trigger] steps[i]).ok(),
        refreshed(
            after_refreshes(p, skip, steps.drop_last()),
            p,
            steps.last().known,
            skip,
            steps.last().rows,
        ) is Ok,
    ensures
        ({
            let g = after_refreshes(p, skip, steps);
            let rows = steps.last().rows;
            &&& g.fed == rows
            &&& scan(p, steps.last().all, skip, rows.len() as int, 0) == Ok::<Seq<Span>, Request>(
                g.spans,
            )
            &&& in_line(g, p, steps.last().all, skip)
        }),
{
    lemma_refreshes(p, skip, steps);
}

/// Lists that are the same differ nowhere.
pub proof fn lemma_same_rows_diverge(s: Seq<i64>, i: int)
    requires
        0 <= i <= s.len(),
    ensures
        diverge_at(s, s, i) == s.len(),
    decreases s.len() - i,
{
    if i < s.len() {
        lemma_same_rows_diverge(s, i + 1);
    }
}

/// A refresh with the rows that a matcher was refreshed with last changes nothing, whatever verdicts
/// are known then.
pub proof fn lemma_refresh_again_changes_nothing(
    g: Progress,
    p: Pattern,
    v1: Verdicts,
    v2: Verdicts,
    skip: SkipView,
    rows: Seq<i64>,
)
    ensures
        refreshed(g, p, v1, skip, rows) matches Ok(n) ==> refreshed(n, p, v2, skip, rows) == Ok::<
            Progress,
            Request,
        >(n),
{
    lemma_refreshed_rows(g, p, v1, skip, rows);
    lemma_same_rows_diverge(rows, 0);
}

proof fn lemma_cut_ok(g: Progress, p: Pattern, v: Verdicts, skip: SkipView, at: int)
    requires
        g.ok(),
        0 <= at <= g.fed.len(),
        settles(p, v, skip, at, 0, g.spans.take(g.frozen as int)) is Ok,
    ensures
        g.cut(skip, at, settles(p, v, skip, at, 0, g.spans.take(g.frozen as int))->Ok_0).ok(),
{
    let frozen = g.spans.take(g.frozen as int);
    let k = settles(p, v, skip, at, 0, frozen)->Ok_0;
    lemma_settles_within(p, v, skip, at, 0, frozen);
    let c = g.cut(skip, at, k);
    assert forall|i: int| 0 <= i < c.spans.len() implies 0 <= (#[trigger] c.spans[i]).start
        < c.spans[i].end() <= c.fed.len() by {
        assert(c.spans[i] == g.spans[i]);
        assert(frozen[i] == g.spans[i]);
    }
    if k > 0 {
        let last = g.spans[k - 1];
        assert(frozen[k - 1] == last);
        assert(last.labels.len() > 0);
        lemma_resume_advances(skip, last.start, last.labels);
    }
    assert forall|i: int, j: int| 0 <= i < j < c.spans.len() implies (#[trigger] c.spans[i]).start
        < (#[trigger] c.spans[j]).start by {
        assert(g.spans[i].start < g.spans[j].start);
    }
    assert forall|i: int| 0 <= i < c.frozen implies (#[trigger] c.spans[i]).start < c.resume by {
        assert(c.spans[i] == g.spans[i]);
        if i < k - 1 {
            assert(g.spans[i].start < g.spans[k - 1].start);
        }
    }
}

/// A refresh keeps a matcher's matches within the rows fed.
pub proof fn lemma_refreshed_ok(
    g: Progress,
    p: Pattern,
    v: Verdicts,
    skip: SkipView,
    rows: Seq<i64>,
)
    requires
        g.ok(),
        forall|i: int| 0 <= i < rows.len() ==> #[trigger] rows[i] < i64::MAX,
    ensures
        refreshed(g, p, v, skip, rows) matches Ok(n) ==> n.ok(),
{
    let at = diverge_at(g.fed, rows, 0);
    assert(g.fed.take(0) =~= rows.take(0));
    lemma_diverge_at(g.fed, rows, 0);
    if at == g.fed.len() {
        if at < rows.len() {
            lemma_with_ok(g, p, v, skip, rows);
        }
    } else if let Ok(kept) = settles(p, v, skip, at, 0, g.spans.take(g.frozen as int)) {
        lemma_cut_ok(g, p, v, skip, at);
        lemma_with_ok(g.cut(skip, at, kept), p, v, skip, rows);
    }
}

proof fn lemma_with_ok(g: Progress, p: Pattern, v: Verdicts, skip: SkipView, rows: Seq<i64>)
    requires
        g.ok(),
        g.fed.len() <= rows.len(),
        forall|i: int| 0 <= i < rows.len() ==> #[trigger] rows[i] < i64::MAX,
    ensures
        derived(p, v, skip, rows.len() as int, g.resume) matches Ok((tail, k)) ==> g.with(
            skip,
            rows,
            tail,
            k,
        ).ok(),
{
    let n = rows.len() as int;
    if let Ok((tail, k)) = derived(p, v, skip, n, g.resume) {
        let r = g.with(skip, rows, tail, k);
        let found = scan(p, v, skip, n, g.resume)->Ok_0;
        lemma_scan_bounds(p, v, skip, n, g.resume);
        lemma_settles_within(p, v, skip, n, g.resume, tail);
        assert forall|i: int| 0 <= i < r.spans.len() implies 0 <= (#[trigger] r.spans[i]).start
            < r.spans[i].end() <= n by {
            if i < g.frozen {
                assert(r.spans[i] == g.spans[i]);
            } else {
                assert(r.spans[i] == found[i - g.frozen]);
            }
        }
        if k > 0 {
            let last = found[k - 1];
            assert(0 <= last.start < last.end() <= n);
            lemma_resume_advances(skip, last.start, last.labels);
            assert(g.resume <= last.start);
        }
        assert forall|i: int| 0 <= i < tail.len() implies g.resume <= (
        #[trigger] tail[i]).start by {
            assert(g.resume <= found[i].start);
        }
        assert forall|i: int, j: int| 0 <= i < j < tail.len() implies (#[trigger] tail[i]).start < (
        #[trigger] tail[j]).start by {
            assert(found[i].start < found[j].start);
        }
        lemma_joined_starts(g, tail);
        assert forall|i: int| 0 <= i < r.frozen implies (#[trigger] r.spans[i]).start
            < r.resume by {
            if i < g.frozen {
                assert(r.spans[i] == g.spans[i]);
            } else {
                assert(r.spans[i] == tail[i - g.frozen]);
                if i - g.frozen < k - 1 {
                    assert(tail[i - g.frozen].start < tail[k - 1].start);
                }
            }
        }
    }
}

/// What a refresh leaves that stops for a missing verdict, where `at` is the first place at which the
/// rows differ from those that were fed. Where no row is rolled back the rows are fed, and nothing else
/// changes. Where rows are, either nothing changes, or the rows are fed and the matches are left that
/// the rollback keeps.
pub proof fn lemma_what_a_stop_leaves(
    g: Progress,
    p: Pattern,
    v: Verdicts,
    skip: SkipView,
    rows: Seq<i64>,
    at: int,
)
    requires
        0 <= at <= g.fed.len(),
        at <= rows.len(),
        forall|i: int| 0 <= i < at ==> #[trigger] g.fed[i] == rows[i],
        at < g.fed.len() && at < rows.len() ==> g.fed[at] != rows[at],
        g.frozen <= g.spans.len(),
    ensures
        ({
            let s = stopped(g, p, v, skip, rows);
            &&& at == g.fed.len() ==> {
                &&& s.fed == rows
                &&& s.spans == g.spans
                &&& s.frozen == g.frozen
                &&& s.resume == g.resume
            }
            &&& at < g.fed.len() ==> match settles(
                p,
                v,
                skip,
                at,
                0,
                g.spans.subrange(0, g.frozen as int),
            ) {
                Err(_) => s == g,
                Ok(k) => {
                    &&& s.fed == rows
                    &&& s.frozen == k
                    &&& s.spans == g.cut(skip, at, k).spans
                    &&& s.resume == g.cut(skip, at, k).resume
                },
            }
        }),
{
    lemma_first_divergence(g.fed, rows, 0, at);
    assert(g.spans.take(g.frozen as int) =~= g.spans.subrange(0, g.frozen as int));
}

/// Two lists diverge at the first place at which they differ or one of them ends.
proof fn lemma_first_divergence(a: Seq<i64>, b: Seq<i64>, i: int, at: int)
    requires
        0 <= i <= at <= a.len(),
        at <= b.len(),
        forall|j: int| 0 <= j < at ==> #[trigger] a[j] == b[j],
        at < a.len() && at < b.len() ==> a[at] != b[at],
    ensures
        diverge_at(a, b, i) == at,
    decreases at - i,
{
    if i < at {
        assert(a[i] == b[i]);
        lemma_first_divergence(a, b, i + 1, at);
    }
}

/// What a refresh does, where `at` is the first place at which the rows differ from those that were fed.
/// The rows that were fed are left alone where they are the rows. Else the rows from there on are rolled
/// back, if there are any, with the matches that rows to come could change, and the others are fed: the
/// scan goes on where it was, and of the matches that it finds the first are frozen that rows to come
/// cannot change.
pub proof fn lemma_what_a_refresh_does(
    g: Progress,
    p: Pattern,
    v: Verdicts,
    skip: SkipView,
    rows: Seq<i64>,
    at: int,
)
    requires
        0 <= at <= g.fed.len(),
        at <= rows.len(),
        forall|i: int| 0 <= i < at ==> #[trigger] g.fed[i] == rows[i],
        at < g.fed.len() && at < rows.len() ==> g.fed[at] != rows[at],
        g.frozen <= g.spans.len(),
        refreshed(g, p, v, skip, rows) is Ok,
    ensures
        ({
            let r = refreshed(g, p, v, skip, rows)->Ok_0;
            let kept = settles(p, v, skip, at, 0, g.spans.subrange(0, g.frozen as int));
            let c = if at == g.fed.len() {
                g
            } else {
                g.cut(skip, at, kept->Ok_0)
            };
            &&& g.fed == rows ==> r == g
            &&& at < g.fed.len() ==> kept is Ok
            &&& g.fed != rows ==> {
                let tail = scan(p, v, skip, rows.len() as int, c.resume)->Ok_0;
                let k = settles(p, v, skip, rows.len() as int, c.resume, tail);
                &&& scan(p, v, skip, rows.len() as int, c.resume) is Ok
                &&& k is Ok
                &&& r == c.with(skip, rows, tail, k->Ok_0)
            }
        }),
{
    lemma_first_divergence(g.fed, rows, 0, at);
    assert(g.spans.take(g.frozen as int) =~= g.spans.subrange(0, g.frozen as int));
    if at == g.fed.len() && at == rows.len() {
        assert(g.fed =~= rows);
    }
}

} // verus!
