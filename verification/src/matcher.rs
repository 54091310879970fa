//! Deciding whether a row can be bound to a pattern variable.

use crate::eval::EvalRequest;
use crate::names::is_one_of;
use crate::pattern::{texts, Var, Verdict, Verdicts};
use vstd::prelude::*;

verus! {

/// The model of a verdict.
pub open spec fn verdict_view(r: Result<bool, EvalRequest>) -> Verdict {
    match r {
        Ok(b) => Ok(b),
        Err(q) => Err(q@),
    }
}

/// Decides, during matching, whether a row can be bound to a variable.
pub trait CandidateMatcher {
    /// The verdicts.
    spec fn verdicts(&self) -> Verdicts;

    /// The first row that may be asked about.
    spec fn first(&self) -> int;

    /// The number of rows that there are verdicts on: one past the last row that may be asked
    /// about.
    spec fn rows(&self) -> usize;

    /// Whether the row at `pos` can be bound to `var`, where `labels` are the variables of the
    /// rows right before it that the match in progress has bound. Neither the row nor one of those
    /// that are bound comes before the first row that may be asked about.
    fn matches(&self, var: &String, pos: usize, labels: &[String]) -> (r: Result<
        bool,
        EvalRequest,
    >)
        requires
            self.first() + labels@.len() <= pos < self.rows(),
        ensures
            verdict_view(r) == (self.verdicts())(var@, pos as int, texts(labels@)),
    ;
}

/// Verdicts that are known beforehand: the variables that each row satisfies.
pub struct SetMatcher {
    sets: Vec<Vec<String>>,
}

impl SetMatcher {
    /// The variables that the row at `pos` satisfies.
    pub closed spec fn satisfied(&self, pos: int) -> Seq<Var> {
        texts(self.sets@[pos]@)
    }

    /// `sets[i]` are the variables that row `i` satisfies.
    pub fn new(sets: Vec<Vec<String>>) -> (r: Self)
        ensures
            r.first() == 0,
            r.rows() == sets@.len(),
            forall|i: int|
                0 <= i < sets@.len() ==> #[trigger] r.satisfied(i) == texts(sets@[i]@),
    {
        SetMatcher { sets }
    }
}

impl CandidateMatcher for SetMatcher {
    open spec fn verdicts(&self) -> Verdicts {
        |var: Var, pos: int, labels: Seq<Var>| Ok(self.satisfied(pos).contains(var))
    }

    open spec fn first(&self) -> int {
        0
    }

    closed spec fn rows(&self) -> usize {
        self.sets.len()
    }

    fn matches(&self, var: &String, pos: usize, labels: &[String]) -> (r: Result<
        bool,
        EvalRequest,
    >) {
        Ok(is_one_of(var, &self.sets[pos]))
    }
}

/// The verdicts of a matcher on the rows from `offset` on, which become the rows from 0 on.
pub open spec fn shifted(v: Verdicts, offset: int) -> Verdicts {
    |var: Var, pos: int, labels: Seq<Var>| v(var, pos + offset, labels)
}

/// A matcher on the rows from `offset` on of another matcher.
pub struct OffsetMatcher<'a, M> {
    pub inner: &'a M,
    pub offset: usize,
}

impl<'a, M: CandidateMatcher> CandidateMatcher for OffsetMatcher<'a, M> {
    open spec fn verdicts(&self) -> Verdicts {
        shifted(self.inner.verdicts(), self.offset as int)
    }

    open spec fn first(&self) -> int {
        self.inner.first() - self.offset
    }

    open spec fn rows(&self) -> usize {
        if self.offset <= self.inner.rows() {
            (self.inner.rows() - self.offset) as usize
        } else {
            0
        }
    }

    fn matches(&self, var: &String, pos: usize, labels: &[String]) -> (r: Result<
        bool,
        EvalRequest,
    >) {
        self.inner.matches(var, pos + self.offset, labels)
    }
}

} // verus!
