//! Where the scan resumes after a match.

use crate::names::{lemma_first_of, lemma_last_of, position, rposition};
use crate::pattern::{first_of, last_of, texts, Var};
use vstd::prelude::*;

verus! {

/// The `AFTER MATCH SKIP` strategy.
#[derive(Debug)]
pub enum SkipMode {
    /// Resume after the last row of the match.
    PastLastRow,
    /// Resume at the row after the first row of the match.
    ToNextRow,
    /// Resume at the first row of the match that is bound to the variable.
    ToFirst(String),
    /// Resume at the last row of the match that is bound to the variable.
    ToLast(String),
}

/// The model of a [`SkipMode`].
pub enum SkipView {
    PastLastRow,
    ToNextRow,
    ToFirst(Var),
    ToLast(Var),
}

impl View for SkipMode {
    type V = SkipView;

    open spec fn view(&self) -> SkipView {
        match self {
            SkipMode::PastLastRow => SkipView::PastLastRow,
            SkipMode::ToNextRow => SkipView::ToNextRow,
            SkipMode::ToFirst(v) => SkipView::ToFirst(v@),
            SkipMode::ToLast(v) => SkipView::ToLast(v@),
        }
    }
}

/// Why a variable-targeted skip could not be honored.
#[derive(Debug, Clone, Copy, PartialEq, Eq, Structural)]
pub enum SkipDegradation {
    /// The target is bound to no row of the match. The scan resumes past the last row.
    TargetAbsent,
    /// The target is the first row of the match. The scan resumes at the next row.
    TargetAtMatchStart,
}

/// The match-relative row that a skip targets, where it targets a variable that is bound.
pub open spec fn target_row(skip: SkipView, labels: Seq<Var>) -> Option<int> {
    match skip {
        SkipView::ToFirst(v) => first_of(labels, seq![v], 0),
        SkipView::ToLast(v) => last_of(labels, seq![v], labels.len() as int),
        _ => None,
    }
}

/// Why the skip after a match with these variables could not be honored.
pub open spec fn degradation(skip: SkipView, labels: Seq<Var>) -> Option<SkipDegradation> {
    match skip {
        SkipView::PastLastRow => None,
        SkipView::ToNextRow => None,
        _ => match target_row(skip, labels) {
            None => Some(SkipDegradation::TargetAbsent),
            Some(k) => if k == 0 {
                Some(SkipDegradation::TargetAtMatchStart)
            } else {
                None
            },
        },
    }
}

/// Where the scan resumes after a match that starts at `start` and binds its rows to `labels`.
pub open spec fn resume(skip: SkipView, start: int, labels: Seq<Var>) -> int {
    match skip {
        SkipView::PastLastRow => start + labels.len(),
        SkipView::ToNextRow => start + 1,
        _ => match target_row(skip, labels) {
            None => start + labels.len(),
            Some(k) => if k == 0 {
                start + 1
            } else {
                start + k
            },
        },
    }
}

/// After a match of at least one row the scan resumes past the first row of the match, and no
/// later than right after its last row.
pub proof fn lemma_resume_advances(skip: SkipView, start: int, labels: Seq<Var>)
    requires
        labels.len() > 0,
    ensures
        start < resume(skip, start, labels) <= start + labels.len(),
{
    match skip {
        SkipView::ToFirst(v) => lemma_first_of(labels, seq![v], 0),
        SkipView::ToLast(v) => lemma_last_of(labels, seq![v], labels.len() as int),
        _ => {},
    }
}

/// The target variable's name, empty where the skip targets none.
pub open spec fn target_name(skip: SkipView) -> Var {
    match skip {
        SkipView::ToFirst(v) => v,
        SkipView::ToLast(v) => v,
        _ => Seq::empty(),
    }
}

/// The name of the skip clause.
pub open spec fn clause_text(skip: SkipView) -> Seq<char> {
    match skip {
        SkipView::PastLastRow => "AFTER MATCH SKIP PAST LAST ROW"@,
        SkipView::ToNextRow => "AFTER MATCH SKIP TO NEXT ROW"@,
        SkipView::ToFirst(_) => "AFTER MATCH SKIP TO FIRST"@,
        SkipView::ToLast(_) => "AFTER MATCH SKIP TO LAST"@,
    }
}

/// What a degradation's report says after the clause's name.
pub open spec fn reason_text(d: SkipDegradation, skip: SkipView) -> Seq<char> {
    "target variable `"@ + target_name(skip) + match d {
        SkipDegradation::TargetAbsent => "` is bound to no row of the match, so there is no row to resume at; the scan resumed past the match's last row instead (degraded to SKIP PAST LAST ROW)"@,
        SkipDegradation::TargetAtMatchStart => "` resolves to the match's own first row, so resuming there would re-find the same match forever; the scan resumed at the row after the match's first row instead (degraded to SKIP TO NEXT ROW)"@,
    }
}

impl SkipMode {
    /// Where the scan resumes after the match of the rows from `start` up to `end`, bound to
    /// `labels`. A target that has no row to resume at degrades to a weaker strategy, which the
    /// second value says.
    pub fn next_pos(&self, start: usize, end: usize, labels: &[String]) -> (r: (
        usize,
        Option<SkipDegradation>,
    ))
        requires
            start < end,
            end == start + labels@.len(),
        ensures
            r.0 == resume(self@, start as int, texts(labels@)),
            r.1 == degradation(self@, texts(labels@)),
            start < r.0 <= end,
    {
        proof {
            lemma_resume_advances(self@, start as int, texts(labels@));
        }
        let target: Option<usize> = match self {
            SkipMode::PastLastRow => {
                return (end, None);
            },
            SkipMode::ToNextRow => {
                return (start + 1, None);
            },
            SkipMode::ToFirst(v) => {
                let vars = vec![v.clone()];
                assert(texts(vars@) =~= seq![v@]);
                position(labels, &vars)
            },
            SkipMode::ToLast(v) => {
                let vars = vec![v.clone()];
                assert(texts(vars@) =~= seq![v@]);
                rposition(labels, &vars)
            },
        };
        match target {
            None => (end, Some(SkipDegradation::TargetAbsent)),
            Some(k) => if k == 0 {
                (start + 1, Some(SkipDegradation::TargetAtMatchStart))
            } else {
                (start + k, None)
            },
        }
    }

    /// The name of the skip clause.
    pub fn clause_name(&self) -> (r: String)
        ensures
            r@ == clause_text(self@),
    {
        match self {
            SkipMode::PastLastRow => "AFTER MATCH SKIP PAST LAST ROW".to_owned(),
            SkipMode::ToNextRow => "AFTER MATCH SKIP TO NEXT ROW".to_owned(),
            SkipMode::ToFirst(_) => "AFTER MATCH SKIP TO FIRST".to_owned(),
            SkipMode::ToLast(_) => "AFTER MATCH SKIP TO LAST".to_owned(),
        }
    }
}

impl Clone for SkipMode {
    fn clone(&self) -> (r: Self)
        ensures
            r@ == self@,
    {
        match self {
            SkipMode::PastLastRow => SkipMode::PastLastRow,
            SkipMode::ToNextRow => SkipMode::ToNextRow,
            SkipMode::ToFirst(v) => SkipMode::ToFirst(v.clone()),
            SkipMode::ToLast(v) => SkipMode::ToLast(v.clone()),
        }
    }
}

impl SkipDegradation {
    /// What could not be honored, and the strategy applied in its place.
    pub fn describe(&self, skip: &SkipMode) -> (r: String)
        ensures
            r@ == reason_text(*self, skip@),
    {
        let mut r: String = "target variable `".to_owned();
        match skip {
            SkipMode::ToFirst(v) => r.append(v.as_str()),
            SkipMode::ToLast(v) => r.append(v.as_str()),
            _ => {},
        }
        assert(r@ =~= "target variable `"@ + target_name(skip@));
        match self {
            SkipDegradation::TargetAbsent => r.append(
                "` is bound to no row of the match, so there is no row to resume at; the scan resumed past the match's last row instead (degraded to SKIP PAST LAST ROW)",
            ),
            SkipDegradation::TargetAtMatchStart => r.append(
                "` resolves to the match's own first row, so resuming there would re-find the same match forever; the scan resumed at the row after the match's first row instead (degraded to SKIP TO NEXT ROW)",
            ),
        }
        r
    }
}

/// An error that is reported and does not stop the operator.
#[derive(Debug)]
pub enum ExprError {
    /// A parameter of the query cannot be honored.
    InvalidParam { name: String, reason: String },
}

impl ExprError {
    /// The text of the error.
    pub open spec fn text(&self) -> Seq<char> {
        match self {
            ExprError::InvalidParam { name, reason } => "Invalid parameter "@ + name@ + ": "@
                + reason@,
        }
    }

    /// The error as text.
    pub fn message(&self) -> (r: String)
        ensures
            r@ == self.text(),
    {
        match self {
            ExprError::InvalidParam { name, reason } => {
                let mut r: String = "Invalid parameter ".to_owned();
                r.append(name.as_str());
                r.append(": ");
                r.append(reason.as_str());
                r
            },
        }
    }
}

/// Report a degradation of the skip strategy, unless the same one is in `already_reported`. One
/// pass over the partitions shares one list, so that a pass reports each kind at most once.
pub fn report_skip_degradation_once(
    report: &mut Vec<ExprError>,
    skip: &SkipMode,
    degradation: SkipDegradation,
    already_reported: &mut Vec<SkipDegradation>,
)
    ensures
        old(already_reported)@.contains(degradation) ==> {
            &&& final(report)@ == old(report)@
            &&& final(already_reported)@ == old(already_reported)@
        },
        !old(already_reported)@.contains(degradation) ==> {
            &&& final(already_reported)@ == old(already_reported)@.push(degradation)
            &&& final(report)@.len() == old(report)@.len() + 1
            &&& final(report)@.drop_last() == old(report)@
            &&& final(report)@.last() matches ExprError::InvalidParam { name, reason }
                && name@ == clause_text(skip@) && reason@ == reason_text(degradation, skip@)
        },
{
    let mut i: usize = 0;
    while i < already_reported.len()
        invariant
            already_reported@ == old(already_reported)@,
            report@ == old(report)@,
            i <= already_reported@.len(),
            forall|j: int| 0 <= j < i ==> already_reported@[j] != degradation,
        decreases already_reported@.len() - i,
    {
        if already_reported[i] == degradation {
            assert(already_reported@[i as int] == degradation);
            return;
        }
        i = i + 1;
    }
    already_reported.push(degradation);
    report.push(
        ExprError::InvalidParam { name: skip.clause_name(), reason: degradation.describe(skip) },
    );
    assert(report@.drop_last() =~= old(report)@);
}

/// The row of a match, counted from its first, that is the first bound to the variable.
pub open spec fn is_first_bound(labels: Seq<Var>, var: Var, k: int) -> bool {
    &&& 0 <= k < labels.len()
    &&& labels[k] == var
    &&& forall|j: int| 0 <= j < k ==> #[trigger] labels[j] != var
}

/// The row of a match, counted from its first, that is the last bound to the variable.
pub open spec fn is_last_bound(labels: Seq<Var>, var: Var, k: int) -> bool {
    &&& 0 <= k < labels.len()
    &&& labels[k] == var
    &&& forall|j: int| k < j < labels.len() ==> #[trigger] labels[j] != var
}

/// Where each strategy resumes after a match of at least one row: right after its last row, at the
/// row after its first, or at its first or last row that is bound to the target. A target that is
/// the first row of the match gives the row after it, and one that is bound to no row the row after
/// the match; these two and no others are reported.
pub proof fn lemma_where_a_scan_resumes(start: int, labels: Seq<Var>, var: Var, k: int)
    requires
        labels.len() > 0,
    ensures
        resume(SkipView::PastLastRow, start, labels) == start + labels.len(),
        resume(SkipView::ToNextRow, start, labels) == start + 1,
        degradation(SkipView::PastLastRow, labels) is None,
        degradation(SkipView::ToNextRow, labels) is None,
        is_first_bound(labels, var, k) && k > 0 ==> {
            &&& resume(SkipView::ToFirst(var), start, labels) == start + k
            &&& degradation(SkipView::ToFirst(var), labels) is None
        },
        is_last_bound(labels, var, k) && k > 0 ==> {
            &&& resume(SkipView::ToLast(var), start, labels) == start + k
            &&& degradation(SkipView::ToLast(var), labels) is None
        },
        is_first_bound(labels, var, 0) ==> {
            &&& resume(SkipView::ToFirst(var), start, labels) == start + 1
            &&& degradation(SkipView::ToFirst(var), labels) == Some(
                SkipDegradation::TargetAtMatchStart,
            )
        },
        is_last_bound(labels, var, 0) ==> {
            &&& resume(SkipView::ToLast(var), start, labels) == start + 1
            &&& degradation(SkipView::ToLast(var), labels) == Some(
                SkipDegradation::TargetAtMatchStart,
            )
        },
        !labels.contains(var) ==> {
            &&& resume(SkipView::ToFirst(var), start, labels) == start + labels.len()
            &&& resume(SkipView::ToLast(var), start, labels) == start + labels.len()
            &&& degradation(SkipView::ToFirst(var), labels) == Some(SkipDegradation::TargetAbsent)
            &&& degradation(SkipView::ToLast(var), labels) == Some(SkipDegradation::TargetAbsent)
        },
{
    let vars = seq![var];
    lemma_first_of(labels, vars, 0);
    lemma_last_of(labels, vars, labels.len() as int);
    assert forall|x: Var| #[trigger] vars.contains(x) <==> x == var by {
        assert(vars[0] == var);
    }
    if is_first_bound(labels, var, k) {
        assert(vars.contains(labels[k]));
    }
    if is_last_bound(labels, var, k) {
        assert(vars.contains(labels[k]));
    }
    if is_first_bound(labels, var, 0) {
        assert(vars.contains(labels[0]));
    }
    if is_last_bound(labels, var, 0) {
        assert(vars.contains(labels[0]));
    }
}

} // verus!
