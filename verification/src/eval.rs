//! Answers of expression evaluations.
//!
//! Expressions are evaluated outside this library, and not at once: an evaluation may have to wait.
//! So the matching code reads the answers of evaluations from a table, and where an answer is
//! missing it stops and says which evaluation it needs. The caller has the expression evaluated,
//! records the answer and starts the same step again.

use crate::datum::{
    datum_clone, datum_view, row_clone, row_same, row_view, Datum, DatumView, RowView,
};
use vstd::prelude::*;

verus! {

/// An evaluation whose answer is needed: expression number `expr` over the row `args`.
#[derive(Debug, PartialEq, Eq)]
pub struct EvalRequest {
    pub expr: usize,
    pub args: Vec<Datum>,
}

/// The model of an [`EvalRequest`].
pub struct Request {
    pub expr: usize,
    pub args: RowView,
}

impl View for EvalRequest {
    type V = Request;

    open spec fn view(&self) -> Request {
        Request { expr: self.expr, args: row_view(self.args@) }
    }
}

/// The answers recorded so far.
pub struct Evaluations {
    entries: Vec<(EvalRequest, Datum)>,
}

/// The first answer to `q` from index `i` on.
spec fn answer_from(entries: Seq<(EvalRequest, Datum)>, q: Request, i: int) -> Option<DatumView>
    decreases entries.len() - i,
{
    if i < 0 || i >= entries.len() {
        None
    } else if entries[i].0@ == q {
        Some(datum_view(entries[i].1))
    } else {
        answer_from(entries, q, i + 1)
    }
}

proof fn lemma_answer_push(
    entries: Seq<(EvalRequest, Datum)>,
    e: (EvalRequest, Datum),
    q: Request,
    i: int,
)
    requires
        0 <= i <= entries.len(),
    ensures
        answer_from(entries.push(e), q, i) == match answer_from(entries, q, i) {
            Some(d) => Some(d),
            None => if e.0@ == q {
                Some(datum_view(e.1))
            } else {
                None
            },
        },
    decreases entries.len() - i,
{
    if i < entries.len() {
        lemma_answer_push(entries, e, q, i + 1);
    } else {
        reveal_with_fuel(answer_from, 3);
    }
}

impl Evaluations {
    /// The answer recorded for `q`.
    pub closed spec fn answer(&self, q: Request) -> Option<DatumView> {
        answer_from(self.entries@, q, 0)
    }

    /// A table without answers.
    pub fn new() -> (r: Self)
        ensures
            forall|q: Request| r.answer(q) is None,
    {
        Evaluations { entries: Vec::new() }
    }

    /// Record the answer to a request. An answer that is already there stays.
    pub fn record(&mut self, request: EvalRequest, answer: Datum)
        ensures
            forall|q: Request|
                #[trigger] final(self).answer(q) == match old(self).answer(q) {
                    Some(d) => Some(d),
                    None => if request@ == q {
                        Some(datum_view(answer))
                    } else {
                        None
                    },
                },
    {
        let ghost before = self.entries@;
        let ghost e = (request, answer);
        self.entries.push((request, answer));
        proof {
            assert forall|q: Request| #[trigger]
                self.answer(q) == match old(self).answer(q) {
                    Some(d) => Some(d),
                    None => if request@ == q {
                        Some(datum_view(answer))
                    } else {
                        None
                    },
                } by {
                lemma_answer_push(before, e, q, 0);
            }
        }
    }

    /// The answer to expression `expr` over `args`, or the request for it.
    pub fn get(&self, expr: usize, args: Vec<Datum>) -> (r: Result<Datum, EvalRequest>)
        ensures
            ({
                let q = Request { expr, args: row_view(args@) };
                match self.answer(q) {
                    Some(d) => r matches Ok(v) && datum_view(v) == d,
                    None => r matches Err(e) && e@ == q,
                }
            }),
    {
        let ghost q = Request { expr, args: row_view(args@) };
        let mut i: usize = 0;
        while i < self.entries.len()
            invariant
                i <= self.entries@.len(),
                q == (Request { expr, args: row_view(args@) }),
                self.answer(q) == answer_from(self.entries@, q, i as int),
            decreases self.entries@.len() - i,
        {
            let e = &self.entries[i];
            if e.0.expr == expr && row_same(&e.0.args, &args) {
                return Ok(datum_clone(&e.1));
            }
            i = i + 1;
        }
        Err(EvalRequest { expr, args })
    }
}

impl Clone for EvalRequest {
    fn clone(&self) -> (r: Self)
        ensures
            r@ == self@,
    {
        EvalRequest { expr: self.expr, args: row_clone(&self.args) }
    }
}

} // verus!
