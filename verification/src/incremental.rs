//! Matching rows as they arrive.
//!
//! A scan of all rows finds the same matches again and again. The incremental matcher keeps the
//! matches that rows to come cannot change, and scans only the rows behind them. What it holds
//! after each step is what a scan of all rows would find.

use crate::eval::{EvalRequest, Request};
use crate::matcher::{shifted, CandidateMatcher, OffsetMatcher};
use crate::names::names_clone;
use crate::nfa::{spans, LabeledMatch, Nfa};
use crate::pattern::{texts, Pattern, Var, Verdicts};
use crate::refine::{lemma_scan_refines, refines};
use crate::scan::{
    agree, lemma_agree_same_ways, lemma_scan_bounds, lemma_scan_moved, lemma_scan_same_ways, moved,
    same_ways, scan, Span,
};
use crate::settled::{
    alive_through, dead, lemma_none_alive, lemma_settled_append, lemma_settled_bounds,
    lemma_settled_from, lemma_settled_moved, lemma_settled_resumes, lemma_settled_same_ways,
    lemma_settled_scan, lemma_settled_stays, lemma_settles_bounds, lemma_settles_cut,
    lemma_settles_moved, lemma_settles_refines, lemma_settles_rest, lemma_settles_same_ways,
    lemma_settles_scan, resume_after, settled, settles,
};
use crate::skip::{lemma_resume_advances, resume, SkipMode, SkipView};
use vstd::prelude::*;

verus! {

/// A match that is anchored by the seqs of its rows, which do not change when earlier rows are
/// evicted.
#[derive(Debug, PartialEq, Eq)]
pub struct SeqMatch {
    /// The seq of the first row.
    pub start_seq: i64,
    /// One past the seq of the last row.
    pub end_seq: i64,
    /// The variables that the rows are bound to.
    pub labels: Vec<String>,
}

/// The model of a [`SeqMatch`].
pub struct SeqSpan {
    pub start_seq: int,
    pub end_seq: int,
    pub labels: Seq<Var>,
}

impl View for SeqMatch {
    type V = SeqSpan;

    open spec fn view(&self) -> SeqSpan {
        SeqSpan {
            start_seq: self.start_seq as int,
            end_seq: self.end_seq as int,
            labels: texts(self.labels@),
        }
    }
}

impl Clone for SeqMatch {
    fn clone(&self) -> (r: Self)
        ensures
            r@ == self@,
    {
        SeqMatch {
            start_seq: self.start_seq,
            end_seq: self.end_seq,
            labels: names_clone(self.labels.as_slice()),
        }
    }
}

/// The matches of a list.
pub open spec fn seq_spans(l: Seq<SeqMatch>) -> Seq<SeqSpan> {
    l.map_values(|m: SeqMatch| m@)
}

/// A match of rows with the given seqs, anchored by them.
pub open spec fn anchored(fed: Seq<i64>, m: Span) -> SeqSpan {
    SeqSpan {
        start_seq: fed[m.start] as int,
        end_seq: fed[m.end() - 1] + 1,
        labels: m.labels,
    }
}

/// Matches of rows with the given seqs, anchored by them.
pub open spec fn anchored_all(fed: Seq<i64>, l: Seq<Span>) -> Seq<SeqSpan> {
    l.map_values(|m: Span| anchored(fed, m))
}

/// The matches are ordered by their first rows.
pub open spec fn ascending_starts(l: Seq<Span>) -> bool {
    forall|i: int, j: int|
        0 <= i < j < l.len() ==> (#[trigger] l[i]).start < (#[trigger] l[j]).start
}

/// What an [`IncrementalMatcher`] holds.
pub struct Progress {
    /// The seqs of the rows fed so far, in their order.
    pub fed: Seq<i64>,
    /// The matches, by row positions.
    pub spans: Seq<Span>,
    /// How many of the first matches are frozen.
    pub frozen: nat,
    /// Where the scan for the others begins.
    pub resume: int,
}

impl Progress {
    /// The matches bind rows that were fed, they are ordered by their first rows, and the scan for
    /// those that are not frozen begins behind the first rows of those that are.
    pub open spec fn ok(self) -> bool {
        &&& self.frozen <= self.spans.len()
        &&& 0 <= self.resume <= self.fed.len()
        &&& ascending_starts(self.spans)
        &&& forall|i: int|
            0 <= i < self.frozen ==> (#[trigger] self.spans[i]).start < self.resume
        &&& forall|i: int|
            0 <= i < self.spans.len() ==> 0 <= (#[trigger] self.spans[i]).start
                < self.spans[i].end() <= self.fed.len()
        &&& forall|i: int| 0 <= i < self.fed.len() ==> #[trigger] self.fed[i] < i64::MAX
    }

    /// With the verdicts `v`, the frozen matches are those that a scan finds first, whatever rows
    /// follow.
    pub open spec fn settled(self, p: Pattern, v: Verdicts, skip: SkipView) -> bool {
        settled(
            p,
            v,
            skip,
            self.fed.len() as int,
            0,
            self.resume,
            self.spans.take(self.frozen as int),
        )
    }

    /// With the verdicts `v`, the matches are those that a scan of all rows finds.
    pub open spec fn current(self, p: Pattern, v: Verdicts, skip: SkipView) -> bool {
        scan(p, v, skip, self.fed.len() as int, 0) == Ok::<Seq<Span>, Request>(self.spans)
    }

    /// With the verdicts `v`, none of the matches that are not frozen can be frozen.
    pub open spec fn caught_up(self, p: Pattern, v: Verdicts, skip: SkipView) -> bool {
        settles(
            p,
            v,
            skip,
            self.fed.len() as int,
            self.resume,
            self.spans.skip(self.frozen as int),
        ) == Ok::<nat, Request>(0)
    }

    /// With rows `fed` in all, the matches `tail` found behind the frozen ones, and `k` of them
    /// newly frozen.
    pub open spec fn with(self, skip: SkipView, fed: Seq<i64>, tail: Seq<Span>, k: nat) -> Progress {
        Progress {
            fed,
            spans: self.spans.take(self.frozen as int) + tail,
            frozen: self.frozen + k,
            resume: resume_after(skip, self.resume, tail, k),
        }
    }

    /// With the first `at` rows, and the first `k` matches.
    pub open spec fn cut(self, skip: SkipView, at: int, k: nat) -> Progress {
        Progress {
            fed: self.fed.take(at),
            spans: self.spans.take(k as int),
            frozen: k,
            resume: resume_after(skip, 0, self.spans, k),
        }
    }

    /// Without the first `b` rows and the first `j` matches.
    pub open spec fn rebased(self, b: int, j: nat) -> Progress {
        Progress {
            fed: self.fed.skip(b),
            spans: moved(self.spans.skip(j as int), -b),
            frozen: (self.frozen - j) as nat,
            resume: self.resume - b,
        }
    }
}

/// The matches that a scan finds from row `from` on, and how many of them rows to come cannot
/// change.
pub open spec fn derived(p: Pattern, v: Verdicts, skip: SkipView, n: int, from: int) -> Result<
    (Seq<Span>, nat),
    Request,
> {
    match scan(p, v, skip, n, from) {
        Err(q) => Err(q),
        Ok(tail) => match settles(p, v, skip, n, from, tail) {
            Err(q) => Err(q),
            Ok(k) => Ok((tail, k)),
        },
    }
}

/// The first place from `i` on that holds `seq`.
pub open spec fn seq_pos(fed: Seq<i64>, seq: i64, i: int) -> Option<int>
    decreases fed.len() - i,
{
    if i < 0 || i >= fed.len() {
        None
    } else if fed[i] == seq {
        Some(i)
    } else {
        seq_pos(fed, seq, i + 1)
    }
}

/// How many of the first matches end at row `b` or before.
pub open spec fn ended(l: Seq<Span>, b: int) -> nat
    decreases l.len(),
{
    if l.len() == 0 || l[0].end() > b {
        0
    } else {
        1 + ended(l.drop_first(), b)
    }
}

/// The rows before the one with seq `boundary` can be dropped: the row is fed, no match reaches
/// across it, the matches before it are frozen and none of the rows before it is scanned again.
/// With another strategy than past the last row a scan need not come by the row.
pub open spec fn can_rebase(g: Progress, skip: SkipView, boundary: i64) -> bool {
    &&& skip is PastLastRow
    &&& seq_pos(g.fed, boundary, 0) is Some
    &&& ({
        let b = seq_pos(g.fed, boundary, 0)->Some_0;
        let j = ended(g.spans, b);
        &&& b <= g.resume
        &&& j <= g.frozen
        &&& forall|i: int| j <= i < g.spans.len() ==> b <= (#[trigger] g.spans[i]).start
    })
}

/// What became of a matcher whose first rows were evicted.
#[derive(Debug, Clone, Copy, PartialEq, Eq, Structural)]
pub enum Finalized {
    /// It goes on with the rows that are left.
    Rebased,
    /// It is unchanged, and has to be built anew from the rows that are left.
    MustRebuild,
}

/// The match, anchored by the seqs of its rows.
fn anchor(fed: &Vec<i64>, m: &LabeledMatch) -> (r: SeqMatch)
    requires
        m.wf(),
        m.start < m.end <= fed@.len(),
        forall|i: int| 0 <= i < fed@.len() ==> #[trigger] fed@[i] < i64::MAX,
    ensures
        r@ == anchored(fed@, m@),
{
    assert(fed@[m.end - 1] < i64::MAX);
    SeqMatch {
        start_seq: fed[m.start],
        end_seq: fed[m.end - 1] + 1,
        labels: names_clone(m.labels.as_slice()),
    }
}

/// `i` and what `r` counts.
spec fn plus(i: nat, r: Result<nat, Request>) -> Result<nat, Request> {
    match r {
        Ok(k) => Ok(i + k),
        Err(q) => Err(q),
    }
}

/// The matches of a list bind rows before `n`.
pub open spec fn within_rows(l: Seq<LabeledMatch>, n: int) -> bool {
    forall|i: int|
        0 <= i < l.len() ==> (#[trigger] l[i]).wf() && l[i].start < l[i].end && l[i].end <= n
}

/// An incremental matcher over rows that arrive in their order.
pub struct IncrementalMatcher {
    nfa: Nfa,
    skip: SkipMode,
    /// The matches over the rows fed so far.
    matched: Vec<SeqMatch>,
    /// The position of the first row of each match.
    starts: Vec<usize>,
    /// How many of the first matches rows to come cannot change.
    frozen_count: usize,
    /// Where the next scan begins.
    next_pos: usize,
    /// The seq of the row at each position.
    seq_index: Vec<i64>,
}

impl View for IncrementalMatcher {
    type V = Progress;

    closed spec fn view(&self) -> Progress {
        Progress {
            fed: self.seq_index@,
            spans: Seq::new(
                self.starts@.len(),
                |i: int|
                    Span { start: self.starts@[i] as int, labels: texts(self.matched@[i].labels@) },
            ),
            frozen: self.frozen_count as nat,
            resume: self.next_pos as int,
        }
    }
}

impl IncrementalMatcher {
    /// The pattern.
    pub closed spec fn pattern(&self) -> Pattern {
        self.nfa.pattern()
    }

    /// The skip strategy.
    pub closed spec fn skip(&self) -> SkipView {
        self.skip@
    }

    /// The matches are anchored by the seqs of their rows.
    pub closed spec fn consistent(&self) -> bool {
        &&& self.starts@.len() == self.matched@.len()
        &&& forall|i: int|
            0 <= i < self.matched@.len() ==> (#[trigger] self.matched@[i])@ == anchored(
                self@.fed,
                self@.spans[i],
            )
    }

    /// The invariant.
    pub open spec fn wf(&self) -> bool {
        self@.ok() && self.consistent()
    }

    /// With the verdicts `v`, the frozen matches are settled.
    pub open spec fn settled(&self, v: Verdicts) -> bool {
        self@.settled(self.pattern(), v, self.skip())
    }

    /// With the verdicts `v`, the matches are those that a scan of all rows finds.
    pub open spec fn current(&self, v: Verdicts) -> bool {
        self@.current(self.pattern(), v, self.skip())
    }

    /// A matcher that no row was fed to.
    pub fn new(nfa: &Nfa, skip: SkipMode) -> (r: Self)
        ensures
            r.wf(),
            r.pattern() == nfa.pattern(),
            r.skip() == skip@,
            r@ == (Progress { fed: Seq::empty(), spans: Seq::empty(), frozen: 0, resume: 0 }),
            forall|v: Verdicts| #[trigger] r.settled(v) && r.current(v),
    {
        let r = IncrementalMatcher {
            nfa: nfa.clone(),
            skip,
            matched: Vec::new(),
            starts: Vec::new(),
            frozen_count: 0,
            next_pos: 0,
            seq_index: Vec::new(),
        };
        proof {
            assert(r@.spans =~= Seq::empty());
            assert(r@.fed =~= Seq::empty());
            assert(r@.spans.take(0) =~= Seq::empty());
        }
        r
    }

    /// The matches over the rows fed so far.
    pub fn provisional(&self) -> (r: &[SeqMatch])
        requires
            self.wf(),
        ensures
            seq_spans(r@) == anchored_all(self@.fed, self@.spans),
    {
        let r = self.matched.as_slice();
        assert(seq_spans(r@) =~= anchored_all(self@.fed, self@.spans)) by {
            assert forall|i: int| 0 <= i < r@.len() implies seq_spans(r@)[i] == anchored_all(
                self@.fed,
                self@.spans,
            )[i] by {
                assert(self.matched@[i]@ == anchored(self@.fed, self@.spans[i]));
            }
        }
        r
    }

    /// The seqs of the rows fed so far.
    pub fn fed_seqs(&self) -> (r: &[i64])
        ensures
            r@ == self@.fed,
    {
        self.seq_index.as_slice()
    }

    /// The match, anchored by the seqs of its rows.
    pub fn to_seq_match(&self, m: &LabeledMatch) -> (r: SeqMatch)
        requires
            self.wf(),
            m.wf(),
            m.start < m.end <= self@.fed.len(),
        ensures
            r@ == anchored(self@.fed, m@),
    {
        anchor(&self.seq_index, m)
    }

    /// Whether one of the attempts at `from` up to and with `to` is alive.
    fn any_alive<M: CandidateMatcher>(&self, from: usize, to: usize, n: usize, matcher: &M) -> (r:
        Result<bool, EvalRequest>)
        requires
            to < n,
            matcher.first() <= from,
            n <= matcher.rows(),
        ensures
            match alive_through(
                self.pattern(),
                matcher.verdicts(),
                from as int,
                to as int,
                n as int,
            ) {
                Ok(b) => r == Ok::<bool, EvalRequest>(b),
                Err(q) => r is Err && r->Err_0@ == q,
            },
    {
        let ghost p = self.pattern();
        let ghost v = matcher.verdicts();
        let mut at: usize = from;
        while at <= to
            invariant
                to < n,
                matcher.first() <= from <= at,
                n <= matcher.rows(),
                p == self.pattern(),
                v == matcher.verdicts(),
                alive_through(p, v, from as int, to as int, n as int) == alive_through(
                    p,
                    v,
                    at as int,
                    to as int,
                    n as int,
                ),
            decreases n - at,
        {
            match self.nfa.reaches_boundary_alive(at, n, matcher) {
                Err(q) => {
                    return Err(q);
                },
                Ok(true) => {
                    return Ok(true);
                },
                Ok(false) => {},
            }
            at = at + 1;
        }
        Ok(false)
    }

    /// How many of the first matches of `tail` rows to come cannot change.
    fn count_settled<M: CandidateMatcher>(
        &self,
        cursor: usize,
        tail: &Vec<LabeledMatch>,
        n: usize,
        matcher: &M,
    ) -> (r: Result<usize, EvalRequest>)
        requires
            matcher.first() <= cursor,
            n <= matcher.rows(),
            forall|i: int|
                0 <= i < tail@.len() ==> (#[trigger] tail@[i]).wf() && matcher.first()
                    <= tail@[i].start && tail@[i].start < tail@[i].end,
        ensures
            match settles(
                self.pattern(),
                matcher.verdicts(),
                self.skip(),
                n as int,
                cursor as int,
                spans(tail@),
            ) {
                Ok(k) => k <= tail@.len() && r == Ok::<usize, EvalRequest>(k as usize),
                Err(q) => r is Err && r->Err_0@ == q,
            },
    {
        let ghost p = self.pattern();
        let ghost v = matcher.verdicts();
        let ghost skip = self.skip();
        let ghost l = spans(tail@);
        let mut i: usize = 0;
        let mut at: usize = cursor;
        proof {
            assert(l.skip(0) =~= l);
            lemma_settles_bounds(p, v, skip, n as int, cursor as int, l);
        }
        while i < tail.len()
            invariant
                i <= tail@.len(),
                matcher.first() <= at,
                n <= matcher.rows(),
                p == self.pattern(),
                v == matcher.verdicts(),
                skip == self.skip(),
                l == spans(tail@),
                forall|j: int|
                    0 <= j < tail@.len() ==> (#[trigger] tail@[j]).wf() && matcher.first()
                        <= tail@[j].start && tail@[j].start < tail@[j].end,
                settles(p, v, skip, n as int, cursor as int, l) matches Ok(k) ==> k <= l.len(),
                settles(p, v, skip, n as int, cursor as int, l) == plus(
                    i as nat,
                    settles(p, v, skip, n as int, at as int, l.skip(i as int)),
                ),
            decreases tail@.len() - i,
        {
            let m = &tail[i];
            let ghost d = l.skip(i as int);
            assert(d[0] == m@);
            assert(d[0].end() == m.end);
            assert(d.drop_first() =~= l.skip(i + 1));
            if m.end > n {
                return Ok(i);
            }
            match self.any_alive(at, m.start, n, matcher) {
                Err(q) => {
                    return Err(q);
                },
                Ok(true) => {
                    return Ok(i);
                },
                Ok(false) => {},
            }
            let (next, _) = self.skip.next_pos(m.start, m.end, m.labels.as_slice());
            proof {
                lemma_resume_advances(skip, m.start as int, m@.labels);
            }
            at = next;
            i = i + 1;
        }
        assert(l.skip(i as int).len() == 0);
        Ok(i)
    }

    /// The matches behind the frozen ones over the first `n` rows, and how many of them rows to
    /// come cannot change.
    fn derive<M: CandidateMatcher>(&self, n: usize, matcher: &M) -> (r: Result<
        (Vec<LabeledMatch>, usize),
        EvalRequest,
    >)
        requires
            matcher.first() <= self@.resume <= n,
            n <= matcher.rows(),
        ensures
            match derived(
                self.pattern(),
                matcher.verdicts(),
                self.skip(),
                n as int,
                self@.resume,
            ) {
                Ok((tail, k)) => r is Ok && spans((r->Ok_0).0@) == tail && (r->Ok_0).1 == k && k
                    <= tail.len() && within_rows((r->Ok_0).0@, n as int) && ascending_starts(tail)
                    && forall|i: int|
                    0 <= i < tail.len() ==> self@.resume <= (#[trigger] tail[i]).start,
                Err(q) => r is Err && r->Err_0@ == q,
            },
    {
        let ghost p = self.pattern();
        let ghost v = matcher.verdicts();
        let ghost skip = self.skip();
        let offset: usize = self.next_pos;
        let suffix = OffsetMatcher { inner: matcher, offset };
        proof {
            lemma_scan_moved(p, v, skip, n - offset, 0, offset as int);
            lemma_scan_bounds(p, v, skip, n as int, offset as int);
            lemma_scan_bounds(p, suffix.verdicts(), skip, n - offset, 0);
        }
        let found = match self.nfa.find_matches_dynamic(n - offset, &suffix, &self.skip) {
            Ok(found) => found,
            Err(q) => {
                return Err(q);
            },
        };
        let ghost l = spans(found@);
        let ghost whole = moved(l, offset as int);
        assert(scan(p, v, skip, n as int, offset as int) == Ok::<Seq<Span>, Request>(whole));
        let mut tail: Vec<LabeledMatch> = Vec::new();
        let mut i: usize = 0;
        while i < found.len()
            invariant
                i <= found@.len(),
                tail@.len() == i,
                offset <= n,
                l == spans(found@),
                whole == moved(l, offset as int),
                forall|j: int| 0 <= j < found@.len() ==> (#[trigger] found@[j]).wf(),
                forall|j: int|
                    0 <= j < l.len() ==> 0 <= (#[trigger] l[j]).start < l[j].end() <= n - offset,
                forall|j: int|
                    0 <= j < i ==> (#[trigger] tail@[j])@ == whole[j] && offset <= tail@[j].start,
                within_rows(tail@, n as int),
            decreases found@.len() - i,
        {
            let m = &found[i];
            assert(l[i as int] == m@);
            assert(l[i as int].end() == m.end);
            let ghost before = tail@;
            let lifted = LabeledMatch {
                start: m.start + offset,
                end: m.end + offset,
                labels: names_clone(m.labels.as_slice()),
            };
            tail.push(lifted);
            assert(tail@ =~= before.push(lifted));
            assert(lifted@ == whole[i as int]);
            i = i + 1;
        }
        assert(spans(tail@) =~= whole);
        assert(ascending_starts(whole) && forall|j: int|
            0 <= j < whole.len() ==> offset <= (#[trigger] whole[j]).start) by {
            let s = scan(p, v, skip, n as int, offset as int)->Ok_0;
            assert forall|x: int, y: int| 0 <= x < y < whole.len() implies (
            #[trigger] whole[x]).start < (#[trigger] whole[y]).start by {
                assert(s[x].start < s[y].start);
            }
            assert forall|j: int| 0 <= j < whole.len() implies offset <= (
            #[trigger] whole[j]).start by {
                assert(offset <= s[j].start);
            }
        }
        match self.count_settled(offset, &tail, n, matcher) {
            Ok(k) => Ok((tail, k)),
            Err(q) => Err(q),
        }
    }

    /// Put `tail` behind the frozen matches and freeze `k` of it.
    fn attach(&mut self, tail: Vec<LabeledMatch>, k: usize)
        requires
            old(self).wf(),
            within_rows(tail@, old(self)@.fed.len() as int),
            ascending_starts(spans(tail@)),
            forall|i: int|
                0 <= i < tail@.len() ==> old(self)@.resume <= (#[trigger] spans(tail@)[i]).start,
            k <= tail@.len(),
        ensures
            final(self).wf(),
            final(self).pattern() == old(self).pattern(),
            final(self).skip() == old(self).skip(),
            final(self)@ == old(self)@.with(
                old(self).skip(),
                old(self)@.fed,
                spans(tail@),
                k as nat,
            ),
    {
        let ghost g = self@;
        let ghost l = spans(tail@);
        if k > 0 {
            let last = &tail[k - 1];
            assert(l[k - 1] == last@);
            let (next, _) = self.skip.next_pos(last.start, last.end, last.labels.as_slice());
            self.next_pos = next;
        }
        let ghost m0 = self.matched@;
        let ghost s0 = self.starts@;
        let f: usize = self.frozen_count;
        self.matched.truncate(f);
        self.starts.truncate(f);
        let mut i: usize = 0;
        while i < tail.len()
            invariant
                i <= tail@.len(),
                g == old(self)@,
                l == spans(tail@),
                self.pattern() == old(self).pattern(),
                self.skip == old(self).skip,
                self.seq_index@ == g.fed,
                self.frozen_count == f,
                f == g.frozen,
                f <= m0.len(),
                g.spans.len() == m0.len(),
                m0.len() == s0.len(),
                self.next_pos == resume_after(old(self).skip(), g.resume, l, k as nat),
                g.ok(),
                within_rows(tail@, g.fed.len() as int),
                self.matched@.len() == f + i,
                self.starts@.len() == f + i,
                forall|j: int|
                    0 <= j < f ==> #[trigger] self.matched@[j] == m0[j] && self.starts@[j]
                        == s0[j],
                forall|j: int|
                    0 <= j < i ==> (#[trigger] self.matched@[f + j])@ == anchored(g.fed, l[j])
                        && self.starts@[f + j] == tail@[j].start,
            decreases tail@.len() - i,
        {
            let m = &tail[i];
            assert(l[i as int] == m@);
            let found = anchor(&self.seq_index, m);
            self.matched.push(found);
            self.starts.push(m.start);
            i = i + 1;
        }
        assert(f + k <= self.matched.len());
        self.frozen_count = f + k;
        proof {
            let want = g.with(old(self).skip(), g.fed, l, k as nat);
            assert forall|j: int| 0 <= j < want.spans.len() implies self@.spans[j]
                == #[trigger] want.spans[j] && self.matched@[j]@ == anchored(
                g.fed,
                want.spans[j],
            ) by {
                if j < f {
                    assert(self.matched@[j] == m0[j]);
                    assert(old(self).matched@[j]@ == anchored(g.fed, g.spans[j]));
                } else {
                    let t = j - f;
                    assert(self.matched@[f + t]@ == anchored(g.fed, l[t]));
                    assert(self.matched@[j]@.labels == l[t].labels);
                }
            }
            assert(self@.spans =~= want.spans);
            assert(self@.ok()) by {
                assert forall|j: int| 0 <= j < self@.spans.len() implies 0 <= (
                #[trigger] self@.spans[j]).start < self@.spans[j].end() <= self@.fed.len() by {
                    if j < f {
                        assert(self@.spans[j] == g.spans[j]);
                    } else {
                        assert(self@.spans[j] == tail@[j - f]@);
                    }
                }
                if k > 0 {
                    lemma_resume_advances(
                        old(self).skip(),
                        l[k - 1].start,
                        l[k - 1].labels,
                    );
                    assert(l[k - 1] == tail@[k - 1]@);
                    assert(g.resume <= l[k - 1].start);
                }
                lemma_joined_starts(g, l);
                assert forall|j: int| 0 <= j < self@.frozen implies (
                #[trigger] self@.spans[j]).start < self@.resume by {
                    if j < f {
                        assert(self@.spans[j] == g.spans[j]);
                    } else {
                        assert(self@.spans[j] == l[j - f]);
                        if j - f < k - 1 {
                            assert(l[j - f].start < l[k - 1].start);
                        }
                    }
                }
            }
        }
    }

    /// Feed rows that follow the rows fed so far, by their seqs, and find the matches over all of
    /// them. Only the rows behind the frozen matches are scanned: the matcher is asked about no row
    /// before the one where that scan begins, and with no row before it bound. Feeding no row
    /// changes nothing. A step that stops for a missing verdict has fed the rows and leaves the
    /// matches as they are.
    pub fn advance<M: CandidateMatcher>(&mut self, new_row_seqs: &[i64], matcher: &M) -> (r: Result<
        (),
        EvalRequest,
    >)
        requires
            old(self).wf(),
            new_row_seqs@.len() > 0 ==> {
                &&& matcher.first() <= old(self)@.resume
                &&& old(self)@.fed.len() + new_row_seqs@.len() <= matcher.rows()
            },
            forall|i: int| 0 <= i < new_row_seqs@.len() ==> #[trigger] new_row_seqs@[i] < i64::MAX,
        ensures
            final(self).wf(),
            final(self).pattern() == old(self).pattern(),
            final(self).skip() == old(self).skip(),
            new_row_seqs@.len() == 0 ==> r is Ok && final(self)@ == old(self)@,
            new_row_seqs@.len() > 0 ==> match derived(
                old(self).pattern(),
                matcher.verdicts(),
                old(self).skip(),
                (old(self)@.fed.len() + new_row_seqs@.len()) as int,
                old(self)@.resume,
            ) {
                Ok((tail, k)) => r is Ok && final(self)@ == old(self)@.with(
                    old(self).skip(),
                    old(self)@.fed + new_row_seqs@,
                    tail,
                    k,
                ),
                Err(q) => r is Err && r->Err_0@ == q && final(self)@ == (Progress {
                    fed: old(self)@.fed + new_row_seqs@,
                    ..old(self)@
                }),
            },
    {
        if new_row_seqs.len() == 0 {
            return Ok(());
        }
        self.feed(new_row_seqs);
        let n: usize = self.seq_index.len();
        let (tail, k) = match self.derive(n, matcher) {
            Ok(t) => t,
            Err(q) => {
                return Err(q);
            },
        };
        self.attach(tail, k);
        Ok(())
    }

    /// Note the seqs of rows that follow.
    fn feed(&mut self, seqs: &[i64])
        requires
            old(self).wf(),
            forall|i: int| 0 <= i < seqs@.len() ==> #[trigger] seqs@[i] < i64::MAX,
        ensures
            final(self).wf(),
            final(self).pattern() == old(self).pattern(),
            final(self).skip() == old(self).skip(),
            final(self)@ == (Progress { fed: old(self)@.fed + seqs@, ..old(self)@ }),
    {
        let ghost g = self@;
        self.seq_index.extend_from_slice(seqs);
        proof {
            assert(self@.fed =~= g.fed + seqs@);
            assert(self@.spans =~= g.spans);
            assert forall|i: int| 0 <= i < self.matched@.len() implies (
            #[trigger] self.matched@[i])@ == anchored(self@.fed, self@.spans[i]) by {
                assert(old(self).matched@[i]@ == anchored(g.fed, g.spans[i]));
                assert(0 <= g.spans[i].start < g.spans[i].end() <= g.fed.len());
            }
        }
    }

    /// Find the matches behind the frozen ones again, over the rows fed so far.
    pub fn rescan<M: CandidateMatcher>(&mut self, matcher: &M) -> (r: Result<(), EvalRequest>)
        requires
            old(self).wf(),
            matcher.first() <= old(self)@.resume,
            old(self)@.fed.len() <= matcher.rows(),
        ensures
            final(self).wf(),
            final(self).pattern() == old(self).pattern(),
            final(self).skip() == old(self).skip(),
            match derived(
                old(self).pattern(),
                matcher.verdicts(),
                old(self).skip(),
                old(self)@.fed.len() as int,
                old(self)@.resume,
            ) {
                Ok((tail, k)) => r is Ok && final(self)@ == old(self)@.with(
                    old(self).skip(),
                    old(self)@.fed,
                    tail,
                    k,
                ),
                Err(q) => r is Err && r->Err_0@ == q && final(self)@ == old(self)@,
            },
    {
        let n: usize = self.seq_index.len();
        let (tail, k) = match self.derive(n, matcher) {
            Ok(t) => t,
            Err(q) => {
                return Err(q);
            },
        };
        self.attach(tail, k);
        Ok(())
    }

    /// The position of the row with the seq.
    fn position_of(&self, seq: i64) -> (r: Option<usize>)
        ensures
            match r {
                Some(at) => seq_pos(self@.fed, seq, 0) == Some(at as int) && at < self@.fed.len(),
                None => seq_pos(self@.fed, seq, 0) is None,
            },
    {
        let ghost fed = self@.fed;
        let mut i: usize = 0;
        while i < self.seq_index.len()
            invariant
                i <= self.seq_index@.len(),
                fed == self.seq_index@,
                seq_pos(fed, seq, 0) == seq_pos(fed, seq, i as int),
            decreases self.seq_index@.len() - i,
        {
            if self.seq_index[i] == seq {
                return Some(i);
            }
            i = i + 1;
        }
        None
    }

    /// The first `count` matches, by row positions.
    fn first_matches(&self, count: usize) -> (r: Vec<LabeledMatch>)
        requires
            self.wf(),
            count <= self@.spans.len(),
        ensures
            spans(r@) == self@.spans.take(count as int),
            within_rows(r@, self@.fed.len() as int),
    {
        let mut r: Vec<LabeledMatch> = Vec::new();
        let mut i: usize = 0;
        while i < count
            invariant
                self.wf(),
                i <= count <= self@.spans.len(),
                r@.len() == i,
                forall|j: int| 0 <= j < i ==> (#[trigger] r@[j])@ == self@.spans[j],
                within_rows(r@, self@.fed.len() as int),
            decreases count - i,
        {
            let m = &self.matched[i];
            assert(self@.spans[i as int].end() <= self@.fed.len());
            assert(self@.fed.len() == self.seq_index.len());
            let ghost before = r@;
            let found = LabeledMatch {
                start: self.starts[i],
                end: self.starts[i] + m.labels.len(),
                labels: names_clone(m.labels.as_slice()),
            };
            r.push(found);
            assert(r@ =~= before.push(found));
            i = i + 1;
        }
        assert(spans(r@) =~= self@.spans.take(count as int));
        r
    }

    /// The matches over the rows fed so far, by row positions.
    pub fn labeled(&self) -> (r: Vec<LabeledMatch>)
        requires
            self.wf(),
        ensures
            spans(r@) == self@.spans,
            within_rows(r@, self@.fed.len() as int),
    {
        let r = self.first_matches(self.matched.len());
        assert(self@.spans.take(self.matched@.len() as int) =~= self@.spans);
        r
    }

    /// Drop the row with seq `resync` and the rows after it, where that row was fed. Of the
    /// matches only those stay that the rows that are left settle. A step that stops for a missing
    /// verdict changes nothing.
    pub fn truncate_from_seq<M: CandidateMatcher>(&mut self, resync: i64, matcher: &M) -> (r: Result<
        (),
        EvalRequest,
    >)
        requires
            old(self).wf(),
            seq_pos(old(self)@.fed, resync, 0) matches Some(at) ==> matcher.first() <= 0 && at
                <= matcher.rows(),
        ensures
            final(self).wf(),
            final(self).pattern() == old(self).pattern(),
            final(self).skip() == old(self).skip(),
            match seq_pos(old(self)@.fed, resync, 0) {
                None => r is Ok && final(self)@ == old(self)@,
                Some(at) => match settles(
                    old(self).pattern(),
                    matcher.verdicts(),
                    old(self).skip(),
                    at,
                    0,
                    old(self)@.spans.take(old(self)@.frozen as int),
                ) {
                    Ok(k) => r is Ok && final(self)@ == old(self)@.cut(old(self).skip(), at, k),
                    Err(q) => r is Err && r->Err_0@ == q && final(self)@ == old(self)@,
                },
            },
    {
        let at: usize = match self.position_of(resync) {
            Some(at) => at,
            None => {
                return Ok(());
            },
        };
        let ghost g = self@;
        let frozen = self.first_matches(self.frozen_count);
        let ghost l = spans(frozen@);
        let k: usize = match self.count_settled(0, &frozen, at, matcher) {
            Ok(k) => k,
            Err(q) => {
                return Err(q);
            },
        };
        let mut next: usize = 0;
        proof {
            lemma_settles_within(
                self.pattern(),
                matcher.verdicts(),
                self.skip(),
                at as int,
                0,
                l,
            );
        }
        if k > 0 {
            let last = &frozen[k - 1];
            assert(l[k - 1] == last@);
            let (resumed, _) = self.skip.next_pos(last.start, last.end, last.labels.as_slice());
            next = resumed;
            assert(l[k - 1] == g.spans[k - 1]);
        }
        proof {
            if k > 0 {
                lemma_resume_advances(self.skip(), l[k - 1].start, l[k - 1].labels);
            }
        }
        self.matched.truncate(k);
        self.starts.truncate(k);
        self.frozen_count = k;
        self.next_pos = next;
        self.seq_index.truncate(at);
        proof {
            let want = g.cut(old(self).skip(), at as int, k as nat);
            assert(self@.fed =~= want.fed);
            assert(self@.spans =~= want.spans);
            assert forall|i: int| 0 <= i < k implies 0 <= (#[trigger] self@.spans[i]).start
                < self@.spans[i].end() <= at by {
                assert(self@.spans[i] == g.spans[i]);
                assert(l[i] == g.spans[i]);
            }
            assert forall|i: int, j: int| 0 <= i < j < self@.spans.len() implies (
            #[trigger] self@.spans[i]).start < (#[trigger] self@.spans[j]).start by {
                assert(g.spans[i].start < g.spans[j].start);
            }
            assert forall|i: int| 0 <= i < k implies (#[trigger] self@.spans[i]).start
                < self@.resume by {
                assert(self@.spans[i] == g.spans[i]);
                if i < k - 1 {
                    assert(g.spans[i].start < g.spans[k - 1].start);
                }
            }
            assert forall|i: int| 0 <= i < self.matched@.len() implies (
            #[trigger] self.matched@[i])@ == anchored(self@.fed, self@.spans[i]) by {
                assert(old(self).matched@[i]@ == anchored(g.fed, g.spans[i]));
                assert(self@.spans[i] == g.spans[i]);
            }
        }
        Ok(())
    }

    /// Drop the rows before the one with seq `boundary`, where that can be done in place.
    pub fn finalize_evicted_prefix(&mut self, boundary: i64) -> (r: Finalized)
        requires
            old(self).wf(),
        ensures
            final(self).wf(),
            final(self).pattern() == old(self).pattern(),
            final(self).skip() == old(self).skip(),
            can_rebase(old(self)@, old(self).skip(), boundary) ==> r is Rebased && final(self)@
                == old(self)@.rebased(
                seq_pos(old(self)@.fed, boundary, 0)->Some_0,
                ended(old(self)@.spans, seq_pos(old(self)@.fed, boundary, 0)->Some_0),
            ),
            !can_rebase(old(self)@, old(self).skip(), boundary) ==> r is MustRebuild
                && final(self)@ == old(self)@,
    {
        match &self.skip {
            SkipMode::PastLastRow => {},
            _ => {
                return Finalized::MustRebuild;
            },
        }
        let b: usize = match self.position_of(boundary) {
            Some(b) => b,
            None => {
                return Finalized::MustRebuild;
            },
        };
        if b > self.next_pos {
            return Finalized::MustRebuild;
        }
        let ghost g = self@;
        let j: usize = self.count_ended(b);
        if j > self.frozen_count {
            return Finalized::MustRebuild;
        }
        let mut starts: Vec<usize> = Vec::new();
        let mut i: usize = j;
        while i < self.starts.len()
            invariant
                self.wf(),
                self@ == g,
                self.pattern() == old(self).pattern(),
                self.skip() == old(self).skip(),
                g == old(self)@,
                seq_pos(g.fed, boundary, 0) == Some(b as int),
                j == ended(g.spans, b as int),
                j <= i <= self.starts@.len(),
                starts@.len() == i - j,
                forall|x: int|
                    j <= x < i ==> b <= (#[trigger] g.spans[x]).start && starts@[x - j]
                        == g.spans[x].start - b,
            decreases self.starts@.len() - i,
        {
            let at: usize = self.starts[i];
            assert(g.spans[i as int].start == at);
            if at < b {
                return Finalized::MustRebuild;
            }
            starts.push(at - b);
            i = i + 1;
        }
        self.matched = self.matched.split_off(j);
        self.starts = starts;
        self.frozen_count = self.frozen_count - j;
        self.next_pos = self.next_pos - b;
        self.seq_index = self.seq_index.split_off(b);
        proof {
            let want = g.rebased(b as int, j as nat);
            assert(self@.fed =~= want.fed);
            assert forall|x: int| 0 <= x < want.spans.len() implies self@.spans[x]
                == #[trigger] want.spans[x] && self.matched@[x]@ == anchored(
                want.fed,
                want.spans[x],
            ) by {
                let old_span = g.spans[j + x];
                assert(starts@[x] == old_span.start - b);
                assert(old(self).matched@[j + x]@ == anchored(g.fed, old_span));
                assert(want.spans[x].start == old_span.start - b);
                assert(want.spans[x].labels == old_span.labels);
                assert(0 <= old_span.start < old_span.end() <= g.fed.len());
            }
            assert(self@.spans =~= want.spans);
            assert forall|x: int| 0 <= x < self@.spans.len() implies 0 <= (
            #[trigger] self@.spans[x]).start < self@.spans[x].end() <= self@.fed.len() by {
                let old_span = g.spans[j + x];
                assert(self@.spans[x] == want.spans[x]);
                assert(0 <= old_span.start < old_span.end() <= g.fed.len());
            }
            assert forall|x: int| 0 <= x < self@.fed.len() implies #[trigger] self@.fed[x]
                < i64::MAX by {
                assert(g.fed[x + b] < i64::MAX);
            }
            lemma_rebased_ok(g, old(self).skip(), boundary);
        }
        Finalized::Rebased
    }

    /// How many of the first matches end at row `b` or before.
    fn count_ended(&self, b: usize) -> (r: usize)
        requires
            self.wf(),
        ensures
            r == ended(self@.spans, b as int),
            r <= self@.spans.len(),
    {
        let ghost l = self@.spans;
        let mut i: usize = 0;
        assert(l.skip(0) =~= l);
        while i < self.matched.len()
            invariant
                self.wf(),
                l == self@.spans,
                i <= l.len(),
                ended(l, b as int) == i + ended(l.skip(i as int), b as int),
            decreases l.len() - i,
        {
            let ghost d = l.skip(i as int);
            assert(d[0] == l[i as int]);
            assert(d.drop_first() =~= l.skip(i + 1));
            assert(l[i as int].end() <= self@.fed.len());
            assert(self@.fed.len() == self.seq_index.len());
            if self.starts[i] + self.matched[i].labels.len() > b {
                return i;
            }
            i = i + 1;
        }
        i
    }
}

impl Clone for IncrementalMatcher {
    fn clone(&self) -> (r: Self)
        ensures
            r.pattern() == self.pattern(),
            r.skip() == self.skip(),
            self.wf() ==> r.wf() && r@ == self@,
    {
        let mut matched: Vec<SeqMatch> = Vec::new();
        let mut i: usize = 0;
        while i < self.matched.len()
            invariant
                i <= self.matched@.len(),
                matched@.len() == i,
                forall|j: int| 0 <= j < i ==> (#[trigger] matched@[j])@ == self.matched@[j]@,
            decreases self.matched@.len() - i,
        {
            matched.push(self.matched[i].clone());
            i = i + 1;
        }
        let r = IncrementalMatcher {
            nfa: self.nfa.clone(),
            skip: self.skip.clone(),
            matched,
            starts: self.starts.clone(),
            frozen_count: self.frozen_count,
            next_pos: self.next_pos,
            seq_index: self.seq_index.clone(),
        };
        proof {
            assert(r.starts@ =~= self.starts@);
            assert(r@.fed =~= self@.fed);
            if self.consistent() {
                assert forall|j: int| 0 <= j < self@.spans.len() implies r@.spans[j]
                    == #[trigger] self@.spans[j] && r.matched@[j]@ == self.matched@[j]@ by {
                    assert(r.matched@[j]@ == self.matched@[j]@);
                    assert(texts(r.matched@[j].labels@) == texts(self.matched@[j].labels@));
                }
                assert(r@.spans =~= self@.spans);
                assert forall|j: int| 0 <= j < r.matched@.len() implies (
                #[trigger] r.matched@[j])@ == anchored(r@.fed, r@.spans[j]) by {
                    assert(r.matched@[j]@ == self.matched@[j]@);
                    assert(self@.spans[j] == r@.spans[j]);
                }
            }
        }
        r
    }
}

/// The frozen matches, followed by matches found behind them, are ordered by their first rows.
pub proof fn lemma_joined_starts(g: Progress, tail: Seq<Span>)
    requires
        g.ok(),
        ascending_starts(tail),
        forall|i: int| 0 <= i < tail.len() ==> g.resume <= (#[trigger] tail[i]).start,
    ensures
        ascending_starts(g.spans.take(g.frozen as int) + tail),
{
    let f = g.frozen as int;
    let l = g.spans.take(f) + tail;
    assert forall|i: int, j: int| 0 <= i < j < l.len() implies (#[trigger] l[i]).start < (
    #[trigger] l[j]).start by {
        if i < f {
            assert(l[i] == g.spans[i]);
            assert(g.spans[i].start < g.resume);
        } else {
            assert(l[i] == tail[i - f]);
        }
        if j < f {
            assert(l[j] == g.spans[j]);
        } else {
            assert(l[j] == tail[j - f]);
        }
    }
}

/// Matches that count as settled end at row `n` or before.
pub proof fn lemma_settles_within(
    p: Pattern,
    v: Verdicts,
    skip: SkipView,
    n: int,
    cursor: int,
    tail: Seq<Span>,
)
    ensures
        settles(p, v, skip, n, cursor, tail) matches Ok(k) ==> k <= tail.len() && forall|i: int|
            0 <= i < k ==> (#[trigger] tail[i]).end() <= n,
    decreases tail.len(),
{
    if tail.len() > 0 && tail[0].end() <= n {
        let d = tail.drop_first();
        let next = resume(skip, tail[0].start, tail[0].labels);
        lemma_settles_within(p, v, skip, n, next, d);
        if let Ok(k) = settles(p, v, skip, n, cursor, tail) {
            assert forall|i: int| 0 <= i < k implies (#[trigger] tail[i]).end() <= n by {
                if i > 0 {
                    assert(tail[i] == d[i - 1]);
                }
            }
        }
    }
}

/// The law of a step: where the frozen matches were settled, the matches after the step are those
/// that a scan of all rows finds, the frozen ones among them are settled, and none of the others can
/// be frozen. `m` are the verdicts that the step knew, `v` all verdicts.
pub proof fn lemma_step_equals_batch(
    g: Progress,
    p: Pattern,
    m: Verdicts,
    v: Verdicts,
    skip: SkipView,
    fed: Seq<i64>,
)
    requires
        g.ok(),
        g.settled(p, v, skip),
        g.fed.len() <= fed.len(),
        refines(m, v, fed.len() as int),
        derived(p, m, skip, fed.len() as int, g.resume) is Ok,
    ensures
        ({
            let (tail, k) = derived(p, m, skip, fed.len() as int, g.resume)->Ok_0;
            let after = g.with(skip, fed, tail, k);
            after.settled(p, v, skip) && after.current(p, v, skip) && after.caught_up(p, v, skip)
        }),
{
    let n = fed.len() as int;
    let (tail, k) = derived(p, m, skip, n, g.resume)->Ok_0;
    let frozen = g.spans.take(g.frozen as int);
    lemma_scan_refines(p, m, v, skip, n, g.resume);
    lemma_settles_refines(p, m, v, skip, n, g.resume, tail);
    lemma_settles_scan(p, v, skip, n, g.resume, tail, k);
    lemma_settled_stays(p, v, v, skip, g.fed.len() as int, n, 0, g.resume, frozen);
    lemma_settled_scan(p, v, skip, n, 0, g.resume, frozen);
    let next = resume_after(skip, g.resume, tail, k);
    lemma_settled_append(p, v, skip, n, 0, g.resume, next, frozen, tail.take(k as int));
    assert((frozen + tail).take((g.frozen + k) as int) =~= frozen + tail.take(k as int));
    lemma_settles_rest(p, v, skip, n, g.resume, tail, k);
    assert((frozen + tail).skip((g.frozen + k) as int) =~= tail.skip(k as int));
}

/// The law of what a step leaves alone. Take the first `c` matches, where no attempt before the row
/// at which a scan resumes after them is alive. They are frozen, and the next step begins at that
/// row or behind it. So the next step asks about no row before it, and whatever it finds, the
/// matches begin with these `c`, which bind the same rows.
pub proof fn lemma_step_leaves_dead_matches(
    g: Progress,
    p: Pattern,
    v: Verdicts,
    skip: SkipView,
    c: nat,
    new: Seq<i64>,
    tail: Seq<Span>,
    k: nat,
)
    requires
        g.ok(),
        g.settled(p, v, skip),
        g.current(p, v, skip),
        g.caught_up(p, v, skip),
        c <= g.spans.len(),
        forall|x: int|
            0 <= x < resume_after(skip, 0, g.spans, c) ==> #[trigger] dead(
                p,
                v,
                x,
                g.fed.len() as int,
            ),
    ensures
        c <= g.frozen,
        resume_after(skip, 0, g.spans, c) <= g.resume,
        anchored_all(g.fed + new, g.with(skip, g.fed + new, tail, k).spans).take(c as int)
            == anchored_all(g.fed, g.spans).take(c as int),
{
    let n = g.fed.len() as int;
    let f = g.frozen as int;
    let frozen = g.spans.take(f);
    lemma_scan_bounds(p, v, skip, n, 0);
    let s = scan(p, v, skip, n, 0)->Ok_0;
    lemma_settled_bounds(p, v, skip, n, 0, g.resume, frozen);
    lemma_settled_resumes(p, v, skip, n, 0, g.resume, frozen);
    if c > f {
        let rest = g.spans.skip(f);
        let first = g.spans[f];
        assert(rest[0] == first);
        assert(s[f].start < s[f].end() <= n);
        assert(first.labels.len() > 0);
        lemma_resume_advances(skip, first.start, first.labels);
        assert(first.start < resume_after(skip, 0, g.spans, c)) by {
            let last = g.spans[c - 1];
            assert(s[c - 1].start < s[c - 1].end());
            lemma_resume_advances(skip, last.start, last.labels);
            if f < c - 1 {
                assert(s[f].start < s[c - 1].start);
            }
        }
        lemma_none_alive(p, v, g.resume, first.start, n);
        assert(false);
    }
    if 0 < c < f {
        assert(resume(skip, s[c - 1].start, s[c - 1].labels) <= s[c as int].start);
        assert(frozen[c as int].start < g.resume);
    }
    let after = g.with(skip, g.fed + new, tail, k);
    assert forall|i: int| 0 <= i < c implies anchored_all(g.fed + new, after.spans).take(
        c as int,
    )[i] == anchored_all(g.fed, g.spans).take(c as int)[i] by {
        assert(after.spans[i] == g.spans[i]);
        assert(0 <= g.spans[i].start < g.spans[i].end() <= n);
    }
    assert(anchored_all(g.fed + new, after.spans).take(c as int) =~= anchored_all(
        g.fed,
        g.spans,
    ).take(c as int));
}

/// What holds of the matches depends on nothing but the ways to match of the rows that were fed.
pub proof fn lemma_progress_same_ways(
    g: Progress,
    p: Pattern,
    v1: Verdicts,
    v2: Verdicts,
    skip: SkipView,
)
    requires
        same_ways(p, v1, v2, 0, g.fed.len() as int),
    ensures
        g.settled(p, v1, skip) ==> g.settled(p, v2, skip),
        g.current(p, v1, skip) ==> g.current(p, v2, skip),
        g.ok() && g.caught_up(p, v1, skip) ==> g.caught_up(p, v2, skip),
{
    let n = g.fed.len() as int;
    if g.ok() {
        let rest = g.spans.skip(g.frozen as int);
        assert forall|i: int| 0 <= i < rest.len() implies 0 <= (#[trigger] rest[i]).start
            < rest[i].end() <= n by {
            assert(rest[i] == g.spans[g.frozen + i]);
        }
        lemma_settles_same_ways(p, v1, v2, skip, 0, n, g.resume, rest);
    }
    if g.settled(p, v1, skip) {
        lemma_settled_same_ways(
            p,
            v1,
            v2,
            skip,
            n,
            0,
            g.resume,
            g.spans.take(g.frozen as int),
        );
    }
    lemma_scan_same_ways(p, v1, v2, skip, n, 0);
}

/// What holds of the matches depends on nothing but the verdicts on the rows that were fed.
pub proof fn lemma_progress_agree(
    g: Progress,
    p: Pattern,
    v1: Verdicts,
    v2: Verdicts,
    skip: SkipView,
)
    requires
        agree(v1, v2, 0, g.fed.len() as int),
    ensures
        g.settled(p, v1, skip) ==> g.settled(p, v2, skip),
        g.current(p, v1, skip) ==> g.current(p, v2, skip),
        g.ok() && g.caught_up(p, v1, skip) ==> g.caught_up(p, v2, skip),
{
    lemma_agree_same_ways(p, v1, v2, 0, g.fed.len() as int);
    lemma_progress_same_ways(g, p, v1, v2, skip);
}

/// The law of a rollback: the matches that stay are settled with the rows that are left. `v0` are
/// the verdicts on the rows before, `v` those on the rows that are left, `m` those of `v` that the
/// step knew.
pub proof fn lemma_cut_settled(
    g: Progress,
    p: Pattern,
    v0: Verdicts,
    m: Verdicts,
    v: Verdicts,
    skip: SkipView,
    at: int,
)
    requires
        g.ok(),
        0 <= at <= g.fed.len(),
        g.settled(p, v0, skip),
        agree(v, v0, 0, at),
        refines(m, v, at),
        settles(p, m, skip, at, 0, g.spans.take(g.frozen as int)) is Ok,
    ensures
        g.cut(skip, at, settles(p, m, skip, at, 0, g.spans.take(g.frozen as int))->Ok_0).settled(
            p,
            v,
            skip,
        ),
{
    let frozen = g.spans.take(g.frozen as int);
    let k = settles(p, m, skip, at, 0, frozen)->Ok_0;
    lemma_settles_refines(p, m, v, skip, at, 0, frozen);
    lemma_settles_cut(p, v0, v, skip, g.fed.len() as int, at, 0, g.resume, frozen, k);
    assert(g.spans.take(k as int).take(k as int) =~= frozen.take(k as int));
    if k > 0 {
        assert(frozen[k - 1] == g.spans[k - 1]);
    }
}

/// The first matches that end at row `b` or before, and the next one, which does not.
pub proof fn lemma_ended(l: Seq<Span>, b: int)
    ensures
        ended(l, b) <= l.len(),
        forall|i: int| 0 <= i < ended(l, b) ==> (#[trigger] l[i]).end() <= b,
        ended(l, b) < l.len() ==> l[ended(l, b) as int].end() > b,
    decreases l.len(),
{
    if l.len() > 0 && l[0].end() <= b {
        let d = l.drop_first();
        lemma_ended(d, b);
        assert forall|i: int| 0 <= i < ended(l, b) implies (#[trigger] l[i]).end() <= b by {
            if i > 0 {
                assert(l[i] == d[i - 1]);
            }
        }
    }
}

/// The law of an eviction: a matcher that drops its first rows in place holds what a scan of the
/// rows that are left finds, its frozen matches stay settled, and where none of the others could be
/// frozen none can be.
pub proof fn lemma_rebased_equals_batch(
    g: Progress,
    p: Pattern,
    v: Verdicts,
    skip: SkipView,
    boundary: i64,
)
    requires
        g.ok(),
        can_rebase(g, skip, boundary),
        g.settled(p, v, skip),
        g.current(p, v, skip),
    ensures
        ({
            let b = seq_pos(g.fed, boundary, 0)->Some_0;
            let r = g.rebased(b, ended(g.spans, b));
            &&& r.settled(p, shifted(v, b), skip)
            &&& r.current(p, shifted(v, b), skip)
            &&& g.caught_up(p, v, skip) ==> r.caught_up(p, shifted(v, b), skip)
        }),
{
    let b = seq_pos(g.fed, boundary, 0)->Some_0;
    let j = ended(g.spans, b);
    let n = g.fed.len() as int;
    let frozen = g.spans.take(g.frozen as int);
    let r = g.rebased(b, j);
    lemma_seq_pos(g.fed, boundary, 0);
    lemma_ended(g.spans, b);
    assert forall|i: int| 0 <= i < j implies (#[trigger] frozen[i]).end() <= b by {
        assert(frozen[i] == g.spans[i]);
    }
    assert forall|i: int| j <= i < frozen.len() implies b <= (#[trigger] frozen[i]).start by {
        assert(frozen[i] == g.spans[i]);
    }
    lemma_settled_from(p, v, n, 0, g.resume, frozen, b, j as int);
    let kept = frozen.skip(j as int);
    let new_frozen = r.spans.take(r.frozen as int);
    assert(moved(new_frozen, b) =~= kept);
    lemma_settled_moved(p, v, skip, n - b, 0, r.resume, new_frozen, b);
    lemma_settled_scan(p, v, skip, n, 0, g.resume, frozen);
    lemma_settled_scan(p, v, skip, n, b, g.resume, kept);
    lemma_scan_moved(p, v, skip, n - b, 0, b);
    let rest = scan(p, v, skip, n, g.resume)->Ok_0;
    assert(g.spans == frozen + rest);
    assert(g.spans.skip(j as int) =~= kept + rest);
    let s = scan(p, shifted(v, b), skip, n - b, 0)->Ok_0;
    assert(moved(s, b) == kept + rest);
    assert(s =~= r.spans) by {
        assert(s.len() == r.spans.len()) by {
            assert(moved(s, b).len() == s.len());
        }
        assert forall|i: int| 0 <= i < s.len() implies s[i] == r.spans[i] by {
            assert(moved(s, b)[i].start == s[i].start + b);
            assert(moved(s, b)[i].labels == s[i].labels);
            assert(moved(s, b)[i] == g.spans.skip(j as int)[i]);
        }
    }
    let behind = r.spans.skip(r.frozen as int);
    assert(moved(behind, b) =~= g.spans.skip(g.frozen as int));
    lemma_settles_moved(p, v, skip, n - b, r.resume, behind, b);
}

/// A matcher that drops its first rows in place keeps its matches within the rows that are left.
pub proof fn lemma_rebased_ok(g: Progress, skip: SkipView, boundary: i64)
    requires
        g.ok(),
        can_rebase(g, skip, boundary),
    ensures
        g.rebased(
            seq_pos(g.fed, boundary, 0)->Some_0,
            ended(g.spans, seq_pos(g.fed, boundary, 0)->Some_0),
        ).ok(),
{
    let b = seq_pos(g.fed, boundary, 0)->Some_0;
    let j = ended(g.spans, b);
    let r = g.rebased(b, j);
    lemma_seq_pos(g.fed, boundary, 0);
    lemma_ended(g.spans, b);
    assert forall|i: int| 0 <= i < r.spans.len() implies 0 <= (#[trigger] r.spans[i]).start
        < r.spans[i].end() <= r.fed.len() by {
        let m = g.spans[j + i];
        assert(r.spans[i].start == m.start - b);
        assert(r.spans[i].labels == m.labels);
        assert(m.start < m.end() <= g.fed.len());
    }
    assert forall|i: int| 0 <= i < r.fed.len() implies #[trigger] r.fed[i] < i64::MAX by {
        assert(g.fed[i + b] < i64::MAX);
    }
    assert forall|x: int, y: int| 0 <= x < y < r.spans.len() implies (#[trigger] r.spans[x]).start
        < (#[trigger] r.spans[y]).start by {
        assert(g.spans[j + x].start < g.spans[j + y].start);
        assert(r.spans[x].start == g.spans[j + x].start - b);
        assert(r.spans[y].start == g.spans[j + y].start - b);
    }
    assert forall|i: int| 0 <= i < r.frozen implies (#[trigger] r.spans[i]).start < r.resume by {
        assert(g.spans[j + i].start < g.resume);
        assert(r.spans[i].start == g.spans[j + i].start - b);
    }
}

/// What the place of a seq is.
pub proof fn lemma_seq_pos(fed: Seq<i64>, seq: i64, i: int)
    requires
        0 <= i,
    ensures
        match seq_pos(fed, seq, i) {
            Some(k) => i <= k < fed.len() && fed[k] == seq && forall|j: int|
                i <= j < k ==> #[trigger] fed[j] != seq,
            None => forall|j: int| i <= j < fed.len() ==> #[trigger] fed[j] != seq,
        },
    decreases fed.len() - i,
{
    if i < fed.len() && fed[i] != seq {
        lemma_seq_pos(fed, seq, i + 1);
    }
}

/// However rows are fed, in one step or in many, the matches are the same.
pub proof fn lemma_feeding_is_confluent(
    g1: Progress,
    g2: Progress,
    p: Pattern,
    v: Verdicts,
    skip: SkipView,
)
    requires
        g1.current(p, v, skip),
        g2.current(p, v, skip),
        g1.fed == g2.fed,
    ensures
        anchored_all(g1.fed, g1.spans) == anchored_all(g2.fed, g2.spans),
{
}

/// When the rows before the one with seq `boundary` can be dropped in place: with the strategy past the
/// last row, where the row was fed, the scan for more matches begins at it or behind it, and each match
/// that ends at it or before it is frozen, and each other match begins at it or behind it.
pub proof fn lemma_when_rebased(g: Progress, skip: SkipView, boundary: i64, b: int)
    requires
        g.ok(),
        0 <= b < g.fed.len(),
        g.fed[b] == boundary,
        forall|i: int| 0 <= i < b ==> #[trigger] g.fed[i] != boundary,
    ensures
        can_rebase(g, skip, boundary) <==> skip is PastLastRow && b <= g.resume && forall|i: int|
            0 <= i < g.spans.len() ==> {
                ||| (#[trigger] g.spans[i]).start + g.spans[i].labels.len() <= b && i < g.frozen
                ||| b <= g.spans[i].start
            },
{
    lemma_seq_pos(g.fed, boundary, 0);
    assert(seq_pos(g.fed, boundary, 0) == Some(b));
    let j = ended(g.spans, b);
    lemma_ended(g.spans, b);
    if can_rebase(g, skip, boundary) {
        assert forall|i: int| 0 <= i < g.spans.len() implies {
            ||| (#[trigger] g.spans[i]).start + g.spans[i].labels.len() <= b && i < g.frozen
            ||| b <= g.spans[i].start
        } by {
            if i < j {
                assert(g.spans[i].end() <= b);
            }
        }
    } else if forall|i: int|
        0 <= i < g.spans.len() ==> {
            ||| (#[trigger] g.spans[i]).start + g.spans[i].labels.len() <= b && i < g.frozen
            ||| b <= g.spans[i].start
        } {
        if j > 0 {
            assert(g.spans[j - 1].end() <= b);
            assert(g.spans[j - 1].start < g.spans[j - 1].end());
        }
        if j < g.spans.len() {
            assert(b <= g.spans[j as int].start);
        }
        assert forall|i: int| j <= i < g.spans.len() implies b <= (#[trigger] g.spans[i]).start by {
            if i > j {
                assert(g.spans[j as int].start < g.spans[i].start);
            }
        }
    }
}

/// What a step and a rollback leave. A step keeps the frozen matches, puts those that it found behind
/// them and freezes the first `k` of these; the scan goes on behind the last match that is frozen then.
/// A rollback keeps the first rows and the first matches, all of them frozen; the scan goes on behind
/// the last of them, and at the first row where there is none.
pub proof fn lemma_what_a_step_leaves(
    g: Progress,
    skip: SkipView,
    fed: Seq<i64>,
    tail: Seq<Span>,
    at: int,
    k: nat,
)
    requires
        g.frozen <= g.spans.len(),
        0 <= at <= g.fed.len(),
    ensures
        ({
            let n = g.with(skip, fed, tail, k);
            &&& n.fed == fed
            &&& n.spans == g.spans.subrange(0, g.frozen as int) + tail
            &&& n.frozen == g.frozen + k
            &&& k == 0 ==> n.resume == g.resume
            &&& 0 < k <= tail.len() ==> n.resume == resume(
                skip,
                tail[k - 1].start,
                tail[k - 1].labels,
            )
        }),
        k <= g.spans.len() ==> {
            let c = g.cut(skip, at, k);
            &&& c.fed == g.fed.subrange(0, at)
            &&& c.spans == g.spans.subrange(0, k as int)
            &&& c.frozen == k
            &&& k == 0 ==> c.resume == 0
            &&& 0 < k ==> c.resume == resume(skip, g.spans[k - 1].start, g.spans[k - 1].labels)
        },
{
    assert(g.with(skip, fed, tail, k).spans =~= g.spans.subrange(0, g.frozen as int) + tail);
    if k <= g.spans.len() {
        assert(g.cut(skip, at, k).fed =~= g.fed.subrange(0, at));
        assert(g.cut(skip, at, k).spans =~= g.spans.subrange(0, k as int));
    }
}

} // verus!
