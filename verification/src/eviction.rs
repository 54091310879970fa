//! Keeping the caches of a partition in line with the rows that are left of it.

use crate::buffer::{buffer_view, seqs, BufferedRow};
use crate::changelog::{emitted_view, entry, lemma_place, place, Emitted, EmittedView};
use crate::datum::row_clone;
use crate::define::{
    define_verdicts, lemma_evicted_rows_same_ways, reads_no_row_before, Answers, Matching,
};
use crate::incremental::{
    can_rebase, ended, lemma_ended, lemma_progress_same_ways, lemma_rebased_equals_batch,
    lemma_rebased_ok, lemma_seq_pos, seq_pos, Finalized, IncrementalMatcher, Progress,
};
use crate::matcher::shifted;
use crate::pattern::Pattern;
use crate::refresh::distinct;
use crate::scan::moved;
use crate::skip::SkipView;
use vstd::prelude::*;

verus! {

/// A matcher after the first `retain_from` rows of its partition are evicted; `None` where it has
/// to be built anew.
pub open spec fn evicted(g: Progress, skip: SkipView, rows: Seq<i64>, retain_from: int) -> Option<
    Progress,
> {
    if retain_from == 0 {
        Some(g)
    } else if retain_from < rows.len() && can_rebase(g, skip, rows[retain_from]) {
        let b = seq_pos(g.fed, rows[retain_from], 0)->Some_0;
        Some(g.rebased(b, ended(g.spans, b)))
    } else {
        None
    }
}

/// Keep a matcher in line with its partition after the first `retain_from` rows are evicted.
/// Returns whether the matcher can go on: if not, it has to be built anew.
pub fn evict_from_matcher(
    inc: &mut IncrementalMatcher,
    rows: &Vec<BufferedRow>,
    retain_from: usize,
) -> (r: bool)
    requires
        old(inc).wf(),
        retain_from <= rows@.len(),
    ensures
        final(inc).wf(),
        final(inc).pattern() == old(inc).pattern(),
        final(inc).skip() == old(inc).skip(),
        match evicted(
            old(inc)@,
            old(inc).skip(),
            seqs(buffer_view(rows@)),
            retain_from as int,
        ) {
            Some(g) => r && final(inc)@ == g,
            None => !r && final(inc)@ == old(inc)@,
        },
{
    if retain_from == 0 {
        true
    } else if retain_from < rows.len() {
        assert(seqs(buffer_view(rows@))[retain_from as int] == rows@[retain_from as int].seq);
        match inc.finalize_evicted_prefix(rows[retain_from].seq) {
            Finalized::Rebased => true,
            Finalized::MustRebuild => false,
        }
    } else {
        false
    }
}

/// The law of an eviction: a matcher that held what a scan of the safe rows finds, and that can go
/// on, holds what a scan of the safe rows that are left finds. No predicate may read rows before the
/// match in progress, for it could read a row that is evicted.
pub proof fn lemma_eviction_equals_batch(
    g: Progress,
    p: Pattern,
    skip: SkipView,
    m: Matching,
    answers: Answers,
    retain_from: int,
)
    requires
        g.ok(),
        0 <= m.safe_len <= m.rows.len(),
        0 < retain_from < m.rows.len(),
        g.fed == seqs(m.rows).take(m.safe_len),
        distinct(seqs(m.rows)),
        reads_no_row_before(p, m.defines),
        g.settled(p, define_verdicts(m, answers), skip),
        g.current(p, define_verdicts(m, answers), skip),
        evicted(g, skip, seqs(m.rows), retain_from) is Some,
    ensures
        ({
            let n = evicted(g, skip, seqs(m.rows), retain_from)->Some_0;
            let left = Matching {
                rows: m.rows.skip(retain_from),
                safe_len: m.safe_len - retain_from,
                defines: m.defines,
                within: m.within,
            };
            &&& n.fed == seqs(left.rows).take(left.safe_len)
            &&& n.settled(p, define_verdicts(left, answers), skip)
            &&& n.current(p, define_verdicts(left, answers), skip)
            &&& g.caught_up(p, define_verdicts(m, answers), skip) ==> n.caught_up(
                p,
                define_verdicts(left, answers),
                skip,
            )
        }),
{
    let s = seqs(m.rows);
    let boundary = s[retain_from];
    let n = evicted(g, skip, s, retain_from)->Some_0;
    let left = Matching {
        rows: m.rows.skip(retain_from),
        safe_len: m.safe_len - retain_from,
        defines: m.defines,
        within: m.within,
    };
    let b = seq_pos(g.fed, boundary, 0)->Some_0;
    lemma_seq_pos(g.fed, boundary, 0);
    assert(s[b] == boundary);
    if b < retain_from {
        assert(s[b] != s[retain_from]);
    } else if b > retain_from {
        assert(s[retain_from] != s[b]);
    }
    assert(b == retain_from);
    lemma_rebased_equals_batch(g, p, define_verdicts(m, answers), skip, boundary);
    lemma_evicted_rows_same_ways(p, m, left, answers, b, left.safe_len);
    assert(n.fed =~= seqs(left.rows).take(left.safe_len));
    lemma_rebased_ok(g, skip, boundary);
    lemma_progress_same_ways(
        n,
        p,
        shifted(define_verdicts(m, answers), b),
        define_verdicts(left, answers),
        skip,
    );
}

/// The first `i` matches without those whose first row is not among `rows`.
pub open spec fn surviving(l: Seq<EmittedView>, rows: Seq<i64>, i: int) -> Seq<EmittedView>
    decreases i,
{
    if i <= 0 {
        Seq::empty()
    } else if exists|j: int| 0 <= j < rows.len() && #[trigger] rows[j] == l[i - 1].0.start_seq {
        surviving(l, rows, i - 1).push(l[i - 1])
    } else {
        surviving(l, rows, i - 1)
    }
}

/// Whether the row with the seq is one of the rows from `from` on.
fn is_left(rows: &Vec<BufferedRow>, from: usize, seq: i64) -> (r: bool)
    requires
        from <= rows@.len(),
    ensures
        r == exists|j: int|
            0 <= j < rows@.len() - from && #[trigger] seqs(buffer_view(rows@)).skip(
                from as int,
            )[j] == seq,
{
    let ghost left = seqs(buffer_view(rows@)).skip(from as int);
    let mut i: usize = from;
    while i < rows.len()
        invariant
            from <= i <= rows@.len(),
            left == seqs(buffer_view(rows@)).skip(from as int),
            forall|j: int| 0 <= j < i - from ==> #[trigger] left[j] != seq,
        decreases rows@.len() - i,
    {
        assert(left[i - from] == rows@[i as int].seq);
        if rows[i].seq == seq {
            return true;
        }
        i = i + 1;
    }
    false
}

/// Drop the matches whose first row is evicted from what was told downstream: they are final, and
/// nothing is told of them any more.
pub fn prune_emitted(prev: &Vec<Emitted>, rows: &Vec<BufferedRow>, retain_from: usize) -> (r: Vec<
    Emitted,
>)
    requires
        retain_from <= rows@.len(),
    ensures
        emitted_view(r@) == surviving(
            emitted_view(prev@),
            seqs(buffer_view(rows@)).skip(retain_from as int),
            prev@.len() as int,
        ),
{
    let ghost pv = emitted_view(prev@);
    let ghost left = seqs(buffer_view(rows@)).skip(retain_from as int);
    let mut r: Vec<Emitted> = Vec::new();
    let mut i: usize = 0;
    assert(emitted_view(r@) =~= Seq::empty());
    while i < prev.len()
        invariant
            i <= prev@.len(),
            retain_from <= rows@.len(),
            pv == emitted_view(prev@),
            left == seqs(buffer_view(rows@)).skip(retain_from as int),
            emitted_view(r@) == surviving(pv, left, i as int),
        decreases prev@.len() - i,
    {
        let e = &prev[i];
        assert(pv[i as int].0 == e.0@);
        if is_left(rows, retain_from, e.0.start_seq) {
            let ghost before = r@;
            let copy: Emitted = (e.0.clone(), row_clone(&e.1));
            r.push(copy);
            assert(emitted_view(r@) =~= emitted_view(before).push(pv[i as int]));
        }
        i = i + 1;
    }
    r
}

/// A match stays in what was told downstream if and only if its first row is left.
pub proof fn lemma_surviving(l: Seq<EmittedView>, rows: Seq<i64>, i: int, x: int)
    requires
        0 <= x < i <= l.len(),
    ensures
        (exists|j: int| 0 <= j < rows.len() && #[trigger] rows[j] == l[x].0.start_seq)
            ==> surviving(l, rows, i).contains(l[x]),
        surviving(l, rows, i).contains(l[x]) ==> exists|j: int|
            0 <= j < rows.len() && #[trigger] rows[j] == l[x].0.start_seq,
    decreases i,
{
    let t = surviving(l, rows, i);
    let s = surviving(l, rows, i - 1);
    if t.contains(l[x]) {
        let k = choose|k: int| 0 <= k < t.len() && t[k] == l[x];
        let _ = lemma_surviving_entry(l, rows, i, k);
    }
    if x < i - 1 {
        lemma_surviving(l, rows, i - 1, x);
        if s.contains(l[x]) {
            let k = choose|k: int| 0 <= k < s.len() && s[k] == l[x];
            assert(surviving(l, rows, i)[k] == l[x]);
        }
    } else if exists|j: int| 0 <= j < rows.len() && #[trigger] rows[j] == l[x].0.start_seq {
        assert(surviving(l, rows, i)[s.len() as int] == l[x]);
    }
}

/// What stays in what was told downstream are matches that were there, and whose first row is left.
pub proof fn lemma_surviving_entry(l: Seq<EmittedView>, rows: Seq<i64>, i: int, k: int) -> (x: int)
    requires
        0 <= i <= l.len(),
        0 <= k < surviving(l, rows, i).len(),
    ensures
        0 <= x < i,
        surviving(l, rows, i)[k] == l[x],
        exists|j: int| 0 <= j < rows.len() && #[trigger] rows[j] == l[x].0.start_seq,
    decreases i,
{
    let s = surviving(l, rows, i - 1);
    if k < s.len() {
        lemma_surviving_entry(l, rows, i - 1, k)
    } else {
        i - 1
    }
}

proof fn lemma_place_push(l: Seq<EmittedView>, e: EmittedView, id: int, i: int)
    requires
        0 <= i <= l.len(),
    ensures
        place(l.push(e), id, i) == match place(l, id, i) {
            Some(k) => Some(k),
            None => if e.0.start_seq == id {
                Some(l.len() as int)
            } else {
                None
            },
        },
    decreases l.len() - i,
{
    if i < l.len() {
        lemma_place_push(l, e, id, i + 1);
    } else {
        assert(place(l.push(e), id, i + 1) is None);
    }
}

/// The seq is one of the seqs.
pub open spec fn is_among(rows: Seq<i64>, id: int) -> bool {
    exists|j: int| 0 <= j < rows.len() && #[trigger] rows[j] == id
}

/// Of the matches that survive, each is the one that had its identity before.
pub proof fn lemma_surviving_same_entry(l: Seq<EmittedView>, rows: Seq<i64>, i: int, id: int)
    requires
        0 <= i <= l.len(),
    ensures
        entry(surviving(l, rows, i), id) == if is_among(rows, id) {
            entry(l.take(i), id)
        } else {
            None
        },
    decreases i,
{
    if i > 0 {
        let s = surviving(l, rows, i - 1);
        lemma_surviving_same_entry(l, rows, i - 1, id);
        assert(l.take(i) =~= l.take(i - 1).push(l[i - 1]));
        lemma_place_push(l.take(i - 1), l[i - 1], id, 0);
        lemma_place_push(s, l[i - 1], id, 0);
        lemma_place(l.take(i - 1), id, 0);
        lemma_place(s, id, 0);
        if is_among(rows, l[i - 1].0.start_seq) {
            assert(surviving(l, rows, i) == s.push(l[i - 1]));
        } else {
            assert(surviving(l, rows, i) == s);
        }
    }
}

/// Which emitted matches are left after an eviction: those whose first row is left, in their order.
pub proof fn lemma_survivors(l: Seq<EmittedView>, rows: Seq<i64>)
    ensures
        surviving(l, rows, l.len() as int) == l.filter(
            |e: EmittedView| is_among(rows, e.0.start_seq),
        ),
{
    lemma_survivors_of_first(l, rows, l.len() as int);
    assert(l.take(l.len() as int) =~= l);
}

proof fn lemma_survivors_of_first(l: Seq<EmittedView>, rows: Seq<i64>, i: int)
    requires
        0 <= i <= l.len(),
    ensures
        surviving(l, rows, i) == l.take(i).filter(
            |e: EmittedView| is_among(rows, e.0.start_seq),
        ),
    decreases i,
{
    reveal(Seq::filter);
    if i > 0 {
        lemma_survivors_of_first(l, rows, i - 1);
        assert(l.take(i).drop_last() =~= l.take(i - 1));
        assert(l.take(i).last() == l[i - 1]);
    }
}

/// What an eviction leaves of a matcher. Nothing changes where no row is evicted. Where the rows can be
/// dropped in place, the matcher holds the rows from the first that is left on, the matches that begin
/// there or behind, counted from it, and of the frozen ones those among them. Else, and where no row is
/// left, it is built anew.
pub proof fn lemma_what_eviction_leaves(
    g: Progress,
    skip: SkipView,
    rows: Seq<i64>,
    retain_from: int,
    b: int,
)
    requires
        g.ok(),
        0 <= retain_from,
        retain_from < rows.len() ==> 0 <= b < g.fed.len() && g.fed[b] == rows[retain_from]
            && forall|i: int| 0 <= i < b ==> #[trigger] g.fed[i] != rows[retain_from],
    ensures
        ({
            let r = evicted(g, skip, rows, retain_from);
            &&& retain_from == 0 ==> r == Some(g)
            &&& retain_from > 0 && retain_from >= rows.len() ==> r is None
            &&& 0 < retain_from < rows.len() ==> (r is Some <==> can_rebase(
                g,
                skip,
                rows[retain_from],
            ))
            &&& 0 < retain_from < rows.len() && r is Some ==> {
                let n = r->Some_0;
                let gone = g.spans.len() - n.spans.len();
                &&& n.fed == g.fed.subrange(b, g.fed.len() as int)
                &&& n.resume == g.resume - b
                &&& 0 <= gone <= g.frozen
                &&& n.frozen == g.frozen - gone
                &&& forall|i: int|
                    0 <= i < gone ==> (#[trigger] g.spans[i]).start + g.spans[i].labels.len() <= b
                &&& forall|i: int|
                    0 <= i < n.spans.len() ==> {
                        &&& (#[trigger] n.spans[i]).start == g.spans[gone + i].start - b
                        &&& n.spans[i].labels == g.spans[gone + i].labels
                        &&& n.spans[i].start >= 0
                    }
            }
        }),
{
    if 0 < retain_from < rows.len() {
        lemma_seq_pos(g.fed, rows[retain_from], 0);
        assert(seq_pos(g.fed, rows[retain_from], 0) == Some(b));
        if can_rebase(g, skip, rows[retain_from]) {
            let n = evicted(g, skip, rows, retain_from)->Some_0;
            lemma_ended(g.spans, b);
            let gone = ended(g.spans, b);
            assert(n.fed =~= g.fed.subrange(b, g.fed.len() as int));
            assert forall|i: int| 0 <= i < gone implies (#[trigger] g.spans[i]).start
                + g.spans[i].labels.len() <= b by {
                assert(g.spans[i].end() <= b);
            }
            assert forall|i: int| 0 <= i < n.spans.len() implies {
                &&& (#[trigger] n.spans[i]).start == g.spans[gone + i].start - b
                &&& n.spans[i].labels == g.spans[gone + i].labels
                &&& n.spans[i].start >= 0
            } by {
                assert(n.spans[i] == moved(g.spans.skip(gone as int), -b)[i]);
                assert(g.spans.skip(gone as int)[i] == g.spans[gone + i]);
            }
        }
    }
}

} // verus!
