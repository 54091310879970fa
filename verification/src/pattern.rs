//! Row patterns and what they match.

use crate::eval::Request;
use vstd::prelude::*;

verus! {

/// How often a pattern repeats.
#[derive(Debug, Clone, Copy)]
pub enum Quantifier {
    /// Any number of times, `*`.
    Star,
    /// At least once, `+`.
    Plus,
    /// At most once, `?`.
    Question,
    /// At least `min` times and, where there is a `max`, at most `max` times.
    Range { min: u32, max: Option<u32> },
}

/// A row pattern over pattern variables.
#[derive(Debug)]
pub enum Pattern {
    /// One row bound to the variable.
    Var(String),
    /// The patterns one after the other.
    Concat(Vec<Pattern>),
    /// One of the patterns, an earlier one preferred.
    Alt(Vec<Pattern>),
    /// The pattern repeated; greedy where the flag is `false` (more repetitions preferred),
    /// reluctant where it is `true` (fewer preferred).
    Quantified(Box<Pattern>, Quantifier, bool),
    /// All of the patterns, in any order.
    Permute(Vec<Pattern>),
}

/// A pattern variable's name.
pub type Var = Seq<char>;

/// The names that a list of strings holds.
pub open spec fn texts(l: Seq<String>) -> Seq<Var> {
    l.map_values(|s: String| s@)
}

/// The first place from `i` on whose name is one of `vars`.
pub open spec fn first_of(labels: Seq<Var>, vars: Seq<Var>, i: int) -> Option<int>
    decreases labels.len() - i,
{
    if i < 0 || i >= labels.len() {
        None
    } else if vars.contains(labels[i]) {
        Some(i)
    } else {
        first_of(labels, vars, i + 1)
    }
}

/// The last place before `i` whose name is one of `vars`.
pub open spec fn last_of(labels: Seq<Var>, vars: Seq<Var>, i: int) -> Option<int>
    decreases i,
{
    if i <= 0 || i > labels.len() {
        None
    } else if vars.contains(labels[i - 1]) {
        Some(i - 1)
    } else {
        last_of(labels, vars, i - 1)
    }
}

/// What is known of binding a row to a variable: yes, no, or the evaluation it takes to tell.
pub type Verdict = Result<bool, Request>;

/// The verdict on binding the row at a position to a variable, given the variables of the rows
/// that the match in progress has bound so far.
pub type Verdicts = spec_fn(Var, int, Seq<Var>) -> Verdict;

/// Where one way to match a pattern ends.
pub enum Outcome {
    /// The pattern is matched; the variables bound so far.
    Done(Seq<Var>),
    /// The rows ran out before a variable that wants one more.
    Wants,
    /// A verdict is not known yet.
    Blocked(Request),
}

/// The ways to match a pattern, the preferred ones first.
pub type Trace = Seq<Outcome>;

/// The rows that a match attempt sees: it starts at row `start` and ends before row `n`.
pub struct Window {
    pub verdicts: Verdicts,
    pub start: int,
    pub n: int,
}

/// Every way of `t` that is done, continued by `f`.
pub open spec fn bind(t: Trace, f: spec_fn(Seq<Var>) -> Trace) -> Trace
    decreases t.len(),
{
    if t.len() == 0 {
        Seq::empty()
    } else {
        (match t[0] {
            Outcome::Done(l) => f(l),
            o => seq![o],
        }) + bind(t.drop_first(), f)
    }
}

/// The ways of taking one more repetition and of taking none, in the order of preference.
pub open spec fn prefer(reluctant: bool, more: Trace, none: Trace) -> Trace {
    if reluctant {
        none + more
    } else {
        more + none
    }
}

/// The ways to bind one row to `var`.
pub open spec fn trace_var(var: Var, w: Window, labels: Seq<Var>) -> Trace {
    if w.start + labels.len() >= w.n {
        seq![Outcome::Wants]
    } else {
        match (w.verdicts)(var, w.start + labels.len(), labels) {
            Ok(true) => seq![Outcome::Done(labels.push(var))],
            Ok(false) => Seq::empty(),
            Err(q) => seq![Outcome::Blocked(q)],
        }
    }
}

/// The least number of repetitions.
pub open spec fn least(q: Quantifier) -> nat {
    match q {
        Quantifier::Star => 0,
        Quantifier::Plus => 1,
        Quantifier::Question => 0,
        Quantifier::Range { min, max } => min as nat,
    }
}

/// The number of repetitions beyond the least, `None` where it is unbounded.
pub open spec fn extra(q: Quantifier) -> Option<nat> {
    match q {
        Quantifier::Star => None,
        Quantifier::Plus => None,
        Quantifier::Question => Some(1),
        Quantifier::Range { min, max } => match max {
            None => None,
            Some(m) => Some(if m > min { (m - min) as nat } else { 0 }),
        },
    }
}

/// The ways to match `p`, given the variables bound so far.
pub open spec fn trace(p: Pattern, w: Window, labels: Seq<Var>) -> Trace
    decreases p, 0nat, 0int, 0nat,
{
    match p {
        Pattern::Var(v) => trace_var(v@, w, labels),
        Pattern::Concat(ps) => trace_concat(ps@, 0, w, labels),
        Pattern::Alt(ps) => trace_alt(ps@, 0, w, labels),
        Pattern::Quantified(inner, q, reluctant) => trace_repeat(
            *inner,
            least(q),
            extra(q),
            reluctant,
            w,
            labels,
        ),
        Pattern::Permute(ps) => trace_permute(
            ps@,
            Seq::new(ps@.len(), |i: int| i),
            0,
            w,
            labels,
        ),
    }
}

/// The ways to match the patterns from index `i` on, one after the other.
pub open spec fn trace_concat(ps: Seq<Pattern>, i: int, w: Window, labels: Seq<Var>) -> Trace
    decreases ps, 0nat, ps.len() - i, 0nat,
{
    if i < 0 || i >= ps.len() {
        seq![Outcome::Done(labels)]
    } else {
        bind(trace(ps[i], w, labels), concat_from(ps, i + 1, w))
    }
}

/// Continue with the patterns from index `i` on.
pub open spec fn concat_from(ps: Seq<Pattern>, i: int, w: Window) -> spec_fn(Seq<Var>) -> Trace
    decreases ps, 0nat, ps.len() - i, 1nat,
{
    |l: Seq<Var>| trace_concat(ps, i, w, l)
}

/// The ways to match one of the patterns from index `i` on.
pub open spec fn trace_alt(ps: Seq<Pattern>, i: int, w: Window, labels: Seq<Var>) -> Trace
    decreases ps, 0nat, ps.len() - i, 0nat,
{
    if i < 0 || i >= ps.len() {
        Seq::empty()
    } else {
        trace(ps[i], w, labels) + trace_alt(ps, i + 1, w, labels)
    }
}

/// The ways to match the patterns with the indices `rest` in any order, the first of them being
/// one from place `i` of `rest` on.
pub open spec fn trace_permute(
    ps: Seq<Pattern>,
    rest: Seq<int>,
    i: int,
    w: Window,
    labels: Seq<Var>,
) -> Trace
    decreases ps, rest.len(), rest.len() - i, 0nat,
{
    if rest.len() == 0 {
        seq![Outcome::Done(labels)]
    } else if i < 0 || i >= rest.len() {
        Seq::empty()
    } else {
        (if 0 <= rest[i] < ps.len() {
            bind(trace(ps[rest[i]], w, labels), permute_from(ps, rest.remove(i), w))
        } else {
            Seq::empty()
        }) + trace_permute(ps, rest, i + 1, w, labels)
    }
}

/// Continue with the patterns with the indices `rest` in any order.
pub open spec fn permute_from(ps: Seq<Pattern>, rest: Seq<int>, w: Window) -> spec_fn(
    Seq<Var>,
) -> Trace
    decreases ps, rest.len(), rest.len() as int, 1nat,
{
    |l: Seq<Var>| trace_permute(ps, rest, 0, w, l)
}

/// The ways to match `p` at least `min` times and at most `extra` times more.
pub open spec fn trace_repeat(
    p: Pattern,
    min: nat,
    extra: Option<nat>,
    reluctant: bool,
    w: Window,
    labels: Seq<Var>,
) -> Trace
    decreases p, 2 + min + extra.unwrap_or(0), 0int, 0nat,
{
    if min > 0 {
        bind(trace(p, w, labels), repeat_from(p, (min - 1) as nat, extra, reluctant, w))
    } else {
        match extra {
            None => trace_loop(p, reluctant, w, labels),
            Some(k) => if k == 0 {
                seq![Outcome::Done(labels)]
            } else {
                prefer(
                    reluctant,
                    bind(
                        trace(p, w, labels),
                        repeat_from(p, 0, Some((k - 1) as nat), reluctant, w),
                    ),
                    seq![Outcome::Done(labels)],
                )
            },
        }
    }
}

/// Continue with the given number of repetitions of `p`.
pub open spec fn repeat_from(
    p: Pattern,
    min: nat,
    extra: Option<nat>,
    reluctant: bool,
    w: Window,
) -> spec_fn(Seq<Var>) -> Trace
    decreases p, 2 + min + extra.unwrap_or(0), 0int, 1nat,
{
    |l: Seq<Var>| trace_repeat(p, min, extra, reluctant, w, l)
}

/// The ways to match `p` any number of times. A repetition that binds no row is no repetition.
pub open spec fn trace_loop(p: Pattern, reluctant: bool, w: Window, labels: Seq<Var>) -> Trace
    decreases p, 1nat, w.n - w.start - labels.len(), 1nat,
{
    prefer(
        reluctant,
        bind(trace(p, w, labels), loop_from(p, reluctant, w, labels.len())),
        seq![Outcome::Done(labels)],
    )
}

/// Continue with more repetitions of `p`, where the last one has bound a row: there were `bound`
/// bound rows before it.
pub open spec fn loop_from(p: Pattern, reluctant: bool, w: Window, bound: nat) -> spec_fn(
    Seq<Var>,
) -> Trace
    decreases p, 1nat, w.n - w.start - bound, 0nat,
{
    |l: Seq<Var>|
        if bound < l.len() && w.start + l.len() <= w.n {
            trace_loop(p, reluctant, w, l)
        } else {
            Seq::empty()
        }
}

} // verus!
