//! `MEASURES` of a match.
//!
//! A measure is an expression over a synthetic row. Each column of the synthetic row is read by a
//! slot from the rows of the match and the variables that they are bound to.

use crate::buffer::{buffer_view, BufferView, BufferedRow};
use crate::datum::{
    before, datum_clone, datum_view, lemma_before_is_total_order, row_clone, row_view, Datum,
    DatumView, RowView, Scalar, ScalarView,
};
use crate::define::{known, more_answers, Answers};
use crate::eval::{EvalRequest, Evaluations, Request};
use crate::names::{
    is_one_of, lemma_first_of, lemma_last_of, names_clone, position, rposition,
};
use crate::pattern::{first_of, last_of, texts, Var};
use crate::plan::{MatchRecognizeMeasure, MatchRecognizeMeasureSlot, PlanError};
use vstd::prelude::*;

verus! {

/// What a [`MeasureSlot`] reads.
#[derive(Debug, Clone, Copy, PartialEq, Eq, Structural)]
pub enum MeasureSlotKind {
    /// The column of the first row bound to one of the variables.
    First,
    /// The column of the last row bound to one of the variables.
    Last,
    /// The variable that the last row is bound to.
    Classifier,
    /// The number of rows.
    CountStar,
    /// The number of rows bound to one of the variables whose column is not NULL.
    Count,
    /// The least value of the column over the rows bound to one of the variables.
    Min,
    /// The greatest value of the column over the rows bound to one of the variables.
    Max,
    /// The sum of the column over the rows bound to one of the variables, by the aggregate with
    /// this number.
    Sum(usize),
}

/// One input that a measure reads.
#[derive(Debug)]
pub struct MeasureSlot {
    kind: MeasureSlotKind,
    vars: Vec<String>,
    col_idx: usize,
}

/// The model of a [`MeasureSlot`].
pub struct MeasureSlotView {
    pub kind: MeasureSlotKind,
    pub vars: Seq<Var>,
    pub col_idx: nat,
}

impl View for MeasureSlot {
    type V = MeasureSlotView;

    closed spec fn view(&self) -> MeasureSlotView {
        MeasureSlotView {
            kind: self.kind,
            vars: texts(self.vars@),
            col_idx: self.col_idx as nat,
        }
    }
}

/// A compiled measure.
#[derive(Debug)]
pub struct CompiledMeasure {
    /// The number of the expression.
    expr: usize,
    slots: Vec<MeasureSlot>,
}

/// The model of a [`CompiledMeasure`].
pub struct MeasureView {
    pub expr: usize,
    pub slots: Seq<MeasureSlotView>,
}

/// The model of a list of slots.
pub open spec fn measure_slot_views(l: Seq<MeasureSlot>) -> Seq<MeasureSlotView> {
    l.map_values(|s: MeasureSlot| s@)
}

impl View for CompiledMeasure {
    type V = MeasureView;

    closed spec fn view(&self) -> MeasureView {
        MeasureView { expr: self.expr, slots: measure_slot_views(self.slots@) }
    }
}

/// The model of a list of measures.
pub open spec fn measure_views(l: Seq<CompiledMeasure>) -> Seq<MeasureView> {
    l.map_values(|m: CompiledMeasure| m@)
}

/// The kind of a planned slot, or what is wrong with it.
pub open spec fn measure_slot_kind(s: MatchRecognizeMeasureSlot) -> Result<
    MeasureSlotKind,
    PlanError,
> {
    if s.kind == 0 {
        Ok(MeasureSlotKind::Last)
    } else if s.kind == 1 {
        Ok(MeasureSlotKind::First)
    } else if s.kind == 2 {
        Ok(MeasureSlotKind::Classifier)
    } else if s.kind == 3 {
        Ok(MeasureSlotKind::CountStar)
    } else if s.kind == 4 {
        Ok(MeasureSlotKind::Count)
    } else if s.kind == 5 {
        Ok(MeasureSlotKind::Min)
    } else if s.kind == 6 {
        Ok(MeasureSlotKind::Max)
    } else if s.kind == 7 {
        match s.agg_call {
            Some(agg) => Ok(MeasureSlotKind::Sum(agg)),
            None => Err(PlanError::MissingAggCall),
        }
    } else {
        Err(PlanError::InvalidMeasureSlotKind(s.kind))
    }
}

/// The slot that a planned slot stands for.
pub open spec fn lowered_measure_slot(s: MatchRecognizeMeasureSlot) -> MeasureSlotView {
    MeasureSlotView {
        kind: measure_slot_kind(s)->Ok_0,
        vars: texts(s.vars@),
        col_idx: s.col_idx as nat,
    }
}

/// What is wrong with the first slot from index `i` on with which something is wrong.
pub open spec fn measure_slot_error(slots: Seq<MatchRecognizeMeasureSlot>, i: int) -> Option<
    PlanError,
>
    decreases slots.len() - i,
{
    if i < 0 || i >= slots.len() {
        None
    } else {
        match measure_slot_kind(slots[i]) {
            Err(e) => Some(e),
            Ok(_) => measure_slot_error(slots, i + 1),
        }
    }
}

fn decode_measure_kind(s: &MatchRecognizeMeasureSlot) -> (r: Result<MeasureSlotKind, PlanError>)
    ensures
        r == measure_slot_kind(*s),
{
    match s.kind {
        0 => Ok(MeasureSlotKind::Last),
        1 => Ok(MeasureSlotKind::First),
        2 => Ok(MeasureSlotKind::Classifier),
        3 => Ok(MeasureSlotKind::CountStar),
        4 => Ok(MeasureSlotKind::Count),
        5 => Ok(MeasureSlotKind::Min),
        6 => Ok(MeasureSlotKind::Max),
        7 => match s.agg_call {
            Some(agg) => Ok(MeasureSlotKind::Sum(agg)),
            None => Err(PlanError::MissingAggCall),
        },
        other => Err(PlanError::InvalidMeasureSlotKind(other)),
    }
}

impl CompiledMeasure {
    /// Compile a planned measure. A plan without an expression, with a slot of unknown kind, or
    /// with a slot that sums and has no aggregate, is refused.
    pub fn from_protobuf(pb: &MatchRecognizeMeasure) -> (r: Result<Self, PlanError>)
        ensures
            pb.expr is None ==> r == Err::<Self, PlanError>(PlanError::MissingExpression),
            pb.expr is Some ==> match measure_slot_error(pb.slots@, 0) {
                Some(e) => r == Err::<Self, PlanError>(e),
                None => r is Ok && (r->Ok_0)@ == (MeasureView {
                    expr: pb.expr->Some_0,
                    slots: pb.slots@.map_values(
                        |s: MatchRecognizeMeasureSlot| lowered_measure_slot(s),
                    ),
                }),
            },
    {
        let expr: usize = match pb.expr {
            Some(e) => e,
            None => {
                return Err(PlanError::MissingExpression);
            },
        };
        let ghost want = pb.slots@.map_values(
            |s: MatchRecognizeMeasureSlot| lowered_measure_slot(s),
        );
        let mut slots: Vec<MeasureSlot> = Vec::new();
        let mut i: usize = 0;
        while i < pb.slots.len()
            invariant
                pb.expr == Some(expr),
                i <= pb.slots@.len(),
                slots@.len() == i,
                want == pb.slots@.map_values(
                    |s: MatchRecognizeMeasureSlot| lowered_measure_slot(s),
                ),
                measure_slot_error(pb.slots@, 0) == measure_slot_error(pb.slots@, i as int),
                forall|j: int| 0 <= j < i ==> (#[trigger] slots@[j])@ == want[j],
            decreases pb.slots@.len() - i,
        {
            let s = &pb.slots[i];
            let kind: MeasureSlotKind = match decode_measure_kind(s) {
                Ok(k) => k,
                Err(e) => {
                    return Err(e);
                },
            };
            let slot = MeasureSlot {
                kind,
                vars: names_clone(s.vars.as_slice()),
                col_idx: s.col_idx as usize,
            };
            assert(slot@ == want[i as int]);
            slots.push(slot);
            i = i + 1;
        }
        assert(measure_slot_views(slots@) =~= want);
        Ok(CompiledMeasure { expr, slots })
    }
}

/// Whether a slot of the kind reads a column.
pub open spec fn reads_column(kind: MeasureSlotKind) -> bool {
    !(kind is Classifier || kind is CountStar)
}

/// The slots that read a column read one before `arity`.
pub open spec fn measure_fits(m: MeasureView, arity: int) -> bool {
    forall|s: int|
        0 <= s < m.slots.len() && reads_column((#[trigger] m.slots[s]).kind) ==> m.slots[s].col_idx
            < arity
}

impl CompiledMeasure {
    /// Whether the slots that read a column read one before `arity`.
    pub fn within_columns(&self, arity: usize) -> (r: bool)
        ensures
            r == measure_fits(self@, arity as int),
    {
        let mut i: usize = 0;
        while i < self.slots.len()
            invariant
                i <= self.slots@.len(),
                forall|j: int|
                    0 <= j < i && reads_column((#[trigger] self@.slots[j]).kind)
                        ==> self@.slots[j].col_idx < arity,
            decreases self.slots@.len() - i,
        {
            assert(self@.slots[i as int] == self.slots@[i as int]@);
            let reads: bool = match self.slots[i].kind {
                MeasureSlotKind::Classifier => false,
                MeasureSlotKind::CountStar => false,
                _ => true,
            };
            if reads && self.slots[i].col_idx >= arity {
                return false;
            }
            i = i + 1;
        }
        true
    }
}

/// The rows of a match: from row `start` on, bound to `labels`.
pub struct MatchRows {
    pub rows: Seq<BufferView>,
    pub start: int,
    pub labels: Seq<Var>,
}

/// The value of column `col` at row `j` of the match.
pub open spec fn cell(m: MatchRows, col: nat, j: int) -> DatumView {
    m.rows[m.start + j].row[col as int]
}

/// The values of the column over the rows before `i` of the match that are bound to one of `vars`,
/// in their order.
pub open spec fn cells(m: MatchRows, vars: Seq<Var>, col: nat, i: int) -> RowView
    decreases i,
{
    if i <= 0 {
        Seq::empty()
    } else if vars.contains(m.labels[i - 1]) {
        cells(m, vars, col, i - 1).push(cell(m, col, i - 1))
    } else {
        cells(m, vars, col, i - 1)
    }
}

/// How many of the values are not NULL.
pub open spec fn non_nulls(values: RowView) -> nat
    decreases values.len(),
{
    if values.len() == 0 {
        0
    } else {
        non_nulls(values.drop_last()) + if values.last() is Some {
            1nat
        } else {
            0
        }
    }
}

/// The least of the values that are not NULL.
pub open spec fn lowest(values: RowView) -> DatumView
    decreases values.len(),
{
    if values.len() == 0 {
        None
    } else {
        match (lowest(values.drop_last()), values.last()) {
            (None, d) => d,
            (Some(m), None) => Some(m),
            (Some(m), Some(x)) => if before(x, m) {
                Some(x)
            } else {
                Some(m)
            },
        }
    }
}

/// The greatest of the values that are not NULL.
pub open spec fn highest(values: RowView) -> DatumView
    decreases values.len(),
{
    if values.len() == 0 {
        None
    } else {
        match (highest(values.drop_last()), values.last()) {
            (None, d) => d,
            (Some(m), None) => Some(m),
            (Some(m), Some(x)) => if before(x, m) {
                Some(m)
            } else {
                Some(x)
            },
        }
    }
}

/// The least value is one of the values, and no value is less; there is none where all values are
/// NULL.
pub proof fn lemma_lowest(values: RowView)
    ensures
        match lowest(values) {
            Some(m) => values.contains(Some(m)) && forall|i: int|
                0 <= i < values.len() ==> (#[trigger] values[i] matches Some(x) ==> !before(x, m)),
            None => forall|i: int| 0 <= i < values.len() ==> #[trigger] values[i] is None,
        },
    decreases values.len(),
{
    if values.len() > 0 {
        let d = values.drop_last();
        let last = values.last();
        lemma_lowest(d);
        assert(values =~= d.push(last));
        assert forall|i: int| 0 <= i < d.len() implies values[i] == #[trigger] d[i] by {}
        match (lowest(d), last) {
            (Some(m), Some(x)) => {
                let k = choose|k: int| 0 <= k < d.len() && d[k] == Some(m);
                assert(values[k] == Some(m));
                assert(values[values.len() - 1] == Some(x));
                lemma_before_is_total_order(x, m, x);
                assert forall|i: int| 0 <= i < values.len() implies (#[trigger] values[i] matches
                Some(y) ==> !before(y, lowest(values)->Some_0)) by {
                    if i < d.len() {
                        if let Some(y) = d[i] {
                            lemma_before_is_total_order(y, x, m);
                        }
                    }
                }
            },
            (Some(m), None) => {
                let k = choose|k: int| 0 <= k < d.len() && d[k] == Some(m);
                assert(values[k] == Some(m));
            },
            (None, Some(x)) => {
                assert(values[values.len() - 1] == Some(x));
                lemma_before_is_total_order(x, x, x);
            },
            (None, None) => {},
        }
    }
}

/// The greatest value is one of the values, and no value is greater; there is none where all
/// values are NULL.
pub proof fn lemma_highest(values: RowView)
    ensures
        match highest(values) {
            Some(m) => values.contains(Some(m)) && forall|i: int|
                0 <= i < values.len() ==> (#[trigger] values[i] matches Some(x) ==> !before(m, x)),
            None => forall|i: int| 0 <= i < values.len() ==> #[trigger] values[i] is None,
        },
    decreases values.len(),
{
    if values.len() > 0 {
        let d = values.drop_last();
        let last = values.last();
        lemma_highest(d);
        assert(values =~= d.push(last));
        assert forall|i: int| 0 <= i < d.len() implies values[i] == #[trigger] d[i] by {}
        match (highest(d), last) {
            (Some(m), Some(x)) => {
                let k = choose|k: int| 0 <= k < d.len() && d[k] == Some(m);
                assert(values[k] == Some(m));
                assert(values[values.len() - 1] == Some(x));
                lemma_before_is_total_order(x, m, x);
                assert forall|i: int| 0 <= i < values.len() implies (#[trigger] values[i] matches
                Some(y) ==> !before(highest(values)->Some_0, y)) by {
                    if i < d.len() {
                        if let Some(y) = d[i] {
                            lemma_before_is_total_order(m, x, y);
                            lemma_before_is_total_order(x, y, m);
                        }
                    } else {
                        lemma_before_is_total_order(x, x, x);
                    }
                }
            },
            (Some(m), None) => {
                let k = choose|k: int| 0 <= k < d.len() && d[k] == Some(m);
                assert(values[k] == Some(m));
            },
            (None, Some(x)) => {
                assert(values[values.len() - 1] == Some(x));
                lemma_before_is_total_order(x, x, x);
            },
            (None, None) => {},
        }
    }
}

/// The answer to a request, or the request if the answer is not known.
pub open spec fn answered(answers: Answers, q: Request) -> Result<DatumView, Request> {
    match answers(q) {
        Some(d) => Ok(d),
        None => Err(q),
    }
}

/// The value that a slot reads.
pub open spec fn resolved(m: MatchRows, s: MeasureSlotView, answers: Answers) -> Result<
    DatumView,
    Request,
> {
    let n = m.labels.len() as int;
    let values = cells(m, s.vars, s.col_idx, n);
    match s.kind {
        MeasureSlotKind::Classifier => Ok(
            if n == 0 {
                None
            } else {
                Some(ScalarView::Utf8(m.labels.last()))
            },
        ),
        MeasureSlotKind::First => Ok(
            match first_of(m.labels, s.vars, 0) {
                Some(j) => cell(m, s.col_idx, j),
                None => None,
            },
        ),
        MeasureSlotKind::Last => Ok(
            match last_of(m.labels, s.vars, n) {
                Some(j) => cell(m, s.col_idx, j),
                None => None,
            },
        ),
        MeasureSlotKind::CountStar => Ok(Some(ScalarView::Int64(n as i64))),
        MeasureSlotKind::Count => Ok(Some(ScalarView::Int64(non_nulls(values) as i64))),
        MeasureSlotKind::Min => Ok(lowest(values)),
        MeasureSlotKind::Max => Ok(highest(values)),
        MeasureSlotKind::Sum(agg) => if values.len() == 0 {
            Ok(None)
        } else {
            answered(answers, Request { expr: agg, args: values })
        },
    }
}

/// Every slot that reads a column reads one that the rows have.
pub open spec fn measure_slots_fit(rows: Seq<BufferView>, measures: Seq<MeasureView>) -> bool {
    forall|i: int, d: int, s: int|
        0 <= i < rows.len() && 0 <= d < measures.len() && 0 <= s < measures[d].slots.len()
            && reads_column((#[trigger] measures[d].slots[s]).kind) ==> measures[d].slots[s].col_idx
            < (#[trigger] rows[i]).row.len()
}

proof fn lemma_non_nulls(values: RowView)
    ensures
        non_nulls(values) <= values.len(),
    decreases values.len(),
{
    if values.len() > 0 {
        lemma_non_nulls(values.drop_last());
    }
}

proof fn lemma_cells_len(m: MatchRows, vars: Seq<Var>, col: nat, i: int)
    ensures
        0 <= i ==> cells(m, vars, col, i).len() <= i,
    decreases i,
{
    if i > 0 {
        lemma_cells_len(m, vars, col, i - 1);
    }
}

impl MeasureSlot {
    /// The rows of a match have the slot's column, if it reads one.
    spec fn fits(&self, rows: Seq<BufferedRow>) -> bool {
        reads_column(self.kind) ==> forall|i: int|
            0 <= i < rows.len() ==> self.col_idx < (#[trigger] rows[i]).row@.len()
    }

    /// The values of the column over the rows of the match that are bound to one of the variables.
    fn values(&self, rows: &Vec<BufferedRow>, start: usize, labels: &[String]) -> (r: Vec<Datum>)
        requires
            reads_column(self.kind),
            self.fits(rows@),
            start + labels@.len() <= rows@.len(),
        ensures
            row_view(r@) == cells(
                MatchRows { rows: buffer_view(rows@), start: start as int, labels: texts(labels@) },
                self@.vars,
                self@.col_idx,
                labels@.len() as int,
            ),
    {
        let ghost m = MatchRows {
            rows: buffer_view(rows@),
            start: start as int,
            labels: texts(labels@),
        };
        let mut r: Vec<Datum> = Vec::new();
        let mut j: usize = 0;
        assert(row_view(r@) =~= Seq::empty());
        while j < labels.len()
            invariant
                j <= labels@.len(),
                reads_column(self.kind),
                self.fits(rows@),
                start + labels@.len() <= rows@.len(),
                m == (MatchRows {
                    rows: buffer_view(rows@),
                    start: start as int,
                    labels: texts(labels@),
                }),
                row_view(r@) == cells(m, self@.vars, self@.col_idx, j as int),
            decreases labels@.len() - j,
        {
            if is_one_of(&labels[j], &self.vars) {
                let ghost prior = r@;
                assert(start + j < rows.len());
                let d = datum_clone(&rows[start + j].row[self.col_idx]);
                r.push(d);
                assert(m.rows[start + j] == rows@[start + j]@);
                assert(row_view(r@) =~= row_view(prior).push(cell(m, self@.col_idx, j as int)));
            }
            j = j + 1;
        }
        r
    }

    /// The value that the slot reads from a match.
    fn resolve(
        &self,
        rows: &Vec<BufferedRow>,
        start: usize,
        labels: &[String],
        evals: &Evaluations,
    ) -> (r: Result<Datum, EvalRequest>)
        requires
            self.fits(rows@),
            start + labels@.len() <= rows@.len(),
            labels@.len() <= i64::MAX,
        ensures
            match resolved(
                MatchRows { rows: buffer_view(rows@), start: start as int, labels: texts(labels@) },
                self@,
                known(*evals),
            ) {
                Ok(d) => r is Ok && datum_view(r->Ok_0) == d,
                Err(q) => r is Err && r->Err_0@ == q,
            },
    {
        let ghost m = MatchRows {
            rows: buffer_view(rows@),
            start: start as int,
            labels: texts(labels@),
        };
        match self.kind {
            MeasureSlotKind::Classifier => {
                let n: usize = labels.len();
                if n == 0 {
                    Ok(None)
                } else {
                    Ok(Some(Scalar::Utf8(labels[n - 1].clone())))
                }
            },
            MeasureSlotKind::First => match position(labels, &self.vars) {
                Some(j) => {
                    assert(start + j < rows.len());
                    assert(m.rows[start + j] == rows@[start + j]@);
                    Ok(datum_clone(&rows[start + j].row[self.col_idx]))
                },
                None => Ok(None),
            },
            MeasureSlotKind::Last => match rposition(labels, &self.vars) {
                Some(j) => {
                    assert(start + j < rows.len());
                    assert(m.rows[start + j] == rows@[start + j]@);
                    Ok(datum_clone(&rows[start + j].row[self.col_idx]))
                },
                None => Ok(None),
            },
            MeasureSlotKind::CountStar => Ok(Some(Scalar::Int64(labels.len() as i64))),
            MeasureSlotKind::Count => {
                let values = self.values(rows, start, labels);
                proof {
                    lemma_cells_len(m, self@.vars, self@.col_idx, labels@.len() as int);
                    lemma_non_nulls(row_view(values@));
                }
                Ok(Some(Scalar::Int64(count_non_null(&values) as i64)))
            },
            MeasureSlotKind::Min => Ok(least_of(&self.values(rows, start, labels))),
            MeasureSlotKind::Max => Ok(greatest_of(&self.values(rows, start, labels))),
            MeasureSlotKind::Sum(agg) => {
                let values = self.values(rows, start, labels);
                if values.len() == 0 {
                    Ok(None)
                } else {
                    evals.get(agg, values)
                }
            },
        }
    }
}

/// The values before `i` are those of the first `i`.
proof fn lemma_take_view(values: Seq<Datum>, i: int)
    requires
        0 <= i < values.len(),
    ensures
        row_view(values).take(i + 1).drop_last() == row_view(values).take(i),
        row_view(values).take(i + 1).last() == datum_view(values[i]),
{
    assert(row_view(values).take(i + 1).drop_last() =~= row_view(values).take(i));
}

fn count_non_null(values: &Vec<Datum>) -> (r: usize)
    ensures
        r == non_nulls(row_view(values@)),
{
    let ghost all = row_view(values@);
    let mut n: usize = 0;
    let mut i: usize = 0;
    while i < values.len()
        invariant
            i <= values@.len(),
            all == row_view(values@),
            n <= i,
            n == non_nulls(all.take(i as int)),
        decreases values@.len() - i,
    {
        proof {
            lemma_take_view(values@, i as int);
        }
        if values[i].is_some() {
            n = n + 1;
        }
        i = i + 1;
    }
    assert(all.take(i as int) =~= all);
    n
}

fn least_of(values: &Vec<Datum>) -> (r: Datum)
    ensures
        datum_view(r) == lowest(row_view(values@)),
{
    let ghost all = row_view(values@);
    let mut best: Datum = None;
    let mut i: usize = 0;
    while i < values.len()
        invariant
            i <= values@.len(),
            all == row_view(values@),
            datum_view(best) == lowest(all.take(i as int)),
        decreases values@.len() - i,
    {
        proof {
            lemma_take_view(values@, i as int);
        }
        let replace: bool = match (&best, &values[i]) {
            (None, _) => true,
            (Some(_), None) => false,
            (Some(m), Some(x)) => x.less(m),
        };
        if replace {
            best = datum_clone(&values[i]);
        }
        i = i + 1;
    }
    assert(all.take(i as int) =~= all);
    best
}

fn greatest_of(values: &Vec<Datum>) -> (r: Datum)
    ensures
        datum_view(r) == highest(row_view(values@)),
{
    let ghost all = row_view(values@);
    let mut best: Datum = None;
    let mut i: usize = 0;
    while i < values.len()
        invariant
            i <= values@.len(),
            all == row_view(values@),
            datum_view(best) == highest(all.take(i as int)),
        decreases values@.len() - i,
    {
        proof {
            lemma_take_view(values@, i as int);
        }
        let replace: bool = match (&best, &values[i]) {
            (None, _) => true,
            (Some(_), None) => false,
            (Some(m), Some(x)) => !x.less(m),
        };
        if replace {
            best = datum_clone(&values[i]);
        }
        i = i + 1;
    }
    assert(all.take(i as int) =~= all);
    best
}

/// The values of the slots from index `i` on.
pub open spec fn resolved_all(
    m: MatchRows,
    slots: Seq<MeasureSlotView>,
    answers: Answers,
    i: int,
) -> Result<RowView, Request>
    decreases slots.len() - i,
{
    if i < 0 || i >= slots.len() {
        Ok(Seq::empty())
    } else {
        match resolved(m, slots[i], answers) {
            Err(q) => Err(q),
            Ok(d) => match resolved_all(m, slots, answers, i + 1) {
                Err(q) => Err(q),
                Ok(rest) => Ok(seq![d] + rest),
            },
        }
    }
}

/// The value of a measure.
pub open spec fn measured(m: MatchRows, measure: MeasureView, answers: Answers) -> Result<
    DatumView,
    Request,
> {
    match resolved_all(m, measure.slots, answers, 0) {
        Err(q) => Err(q),
        Ok(args) => answered(answers, Request { expr: measure.expr, args }),
    }
}

/// The values of the measures from index `i` on.
pub open spec fn measured_all(
    m: MatchRows,
    measures: Seq<MeasureView>,
    answers: Answers,
    i: int,
) -> Result<RowView, Request>
    decreases measures.len() - i,
{
    if i < 0 || i >= measures.len() {
        Ok(Seq::empty())
    } else {
        match measured(m, measures[i], answers) {
            Err(q) => Err(q),
            Ok(d) => match measured_all(m, measures, answers, i + 1) {
                Err(q) => Err(q),
                Ok(rest) => Ok(seq![d] + rest),
            },
        }
    }
}

/// The output row of a match: the partition columns, the measures, and the seq of the first row,
/// which identifies the match.
pub open spec fn match_row(
    m: MatchRows,
    measures: Seq<MeasureView>,
    partition_key: RowView,
    answers: Answers,
) -> Result<RowView, Request> {
    match measured_all(m, measures, answers, 0) {
        Err(q) => Err(q),
        Ok(values) => Ok(
            partition_key + values + seq![Some(ScalarView::Int64(m.rows[m.start].seq))],
        ),
    }
}

/// `head`, followed by what `rest` holds.
spec fn after(head: RowView, rest: Result<RowView, Request>) -> Result<RowView, Request> {
    match rest {
        Ok(s) => Ok(head + s),
        Err(q) => Err(q),
    }
}

impl CompiledMeasure {
    /// The rows have the columns that the slots read.
    spec fn fits(&self, rows: Seq<BufferedRow>) -> bool {
        forall|s: int| 0 <= s < self.slots@.len() ==> (#[trigger] self.slots@[s]).fits(rows)
    }

    /// The value of the measure of a match.
    fn evaluate(
        &self,
        rows: &Vec<BufferedRow>,
        start: usize,
        labels: &[String],
        evals: &Evaluations,
    ) -> (r: Result<Datum, EvalRequest>)
        requires
            self.fits(rows@),
            start + labels@.len() <= rows@.len(),
            labels@.len() <= i64::MAX,
        ensures
            match measured(
                MatchRows { rows: buffer_view(rows@), start: start as int, labels: texts(labels@) },
                self@,
                known(*evals),
            ) {
                Ok(d) => r is Ok && datum_view(r->Ok_0) == d,
                Err(q) => r is Err && r->Err_0@ == q,
            },
    {
        let ghost m = MatchRows {
            rows: buffer_view(rows@),
            start: start as int,
            labels: texts(labels@),
        };
        let ghost slots = self@.slots;
        let ghost answers = known(*evals);
        let mut synthetic: Vec<Datum> = Vec::new();
        let mut i: usize = 0;
        proof {
            assert(row_view(synthetic@) =~= Seq::empty());
            if let Ok(s) = resolved_all(m, slots, answers, 0) {
                assert(row_view(synthetic@) + s =~= s);
            }
        }
        while i < self.slots.len()
            invariant
                i <= self.slots@.len(),
                self.fits(rows@),
                start + labels@.len() <= rows@.len(),
                labels@.len() <= i64::MAX,
                m == (MatchRows {
                    rows: buffer_view(rows@),
                    start: start as int,
                    labels: texts(labels@),
                }),
                slots == self@.slots,
                answers == known(*evals),
                resolved_all(m, slots, answers, 0) == after(
                    row_view(synthetic@),
                    resolved_all(m, slots, answers, i as int),
                ),
            decreases self.slots@.len() - i,
        {
            let slot = &self.slots[i];
            assert(slots[i as int] == slot@);
            match slot.resolve(rows, start, labels, evals) {
                Err(q) => {
                    return Err(q);
                },
                Ok(d) => {
                    let ghost prior = synthetic@;
                    let ghost dv = datum_view(d);
                    synthetic.push(d);
                    proof {
                        assert(row_view(synthetic@) =~= row_view(prior).push(dv));
                        if let Ok(s) = resolved_all(m, slots, answers, i + 1) {
                            assert(row_view(prior) + (seq![dv] + s) =~= row_view(synthetic@) + s);
                        }
                    }
                },
            }
            i = i + 1;
        }
        assert(row_view(synthetic@) + Seq::empty() =~= row_view(synthetic@));
        evals.get(self.expr, synthetic)
    }
}

/// The output row of the match of the rows from `start` on that are bound to `labels`.
pub fn build_match_row(
    measures: &Vec<CompiledMeasure>,
    rows: &Vec<BufferedRow>,
    partition_key: &Vec<Datum>,
    start: usize,
    labels: &[String],
    evals: &Evaluations,
) -> (r: Result<Vec<Datum>, EvalRequest>)
    requires
        measure_slots_fit(buffer_view(rows@), measure_views(measures@)),
        labels@.len() > 0,
        start + labels@.len() <= rows@.len(),
        labels@.len() <= i64::MAX,
    ensures
        match match_row(
            MatchRows { rows: buffer_view(rows@), start: start as int, labels: texts(labels@) },
            measure_views(measures@),
            row_view(partition_key@),
            known(*evals),
        ) {
            Ok(row) => r is Ok && row_view(r->Ok_0@) == row,
            Err(q) => r is Err && r->Err_0@ == q,
        },
{
    let ghost m = MatchRows {
        rows: buffer_view(rows@),
        start: start as int,
        labels: texts(labels@),
    };
    let ghost ms = measure_views(measures@);
    let ghost answers = known(*evals);
    let ghost key = row_view(partition_key@);
    let mut out: Vec<Datum> = row_clone(partition_key);
    let mut i: usize = 0;
    proof {
        if let Ok(s) = measured_all(m, ms, answers, 0) {
            assert(row_view(out@) + s =~= key + s);
        }
    }
    while i < measures.len()
        invariant
            i <= measures@.len(),
            measure_slots_fit(m.rows, ms),
            start + labels@.len() <= rows@.len(),
            labels@.len() <= i64::MAX,
            m == (MatchRows {
                rows: buffer_view(rows@),
                start: start as int,
                labels: texts(labels@),
            }),
            ms == measure_views(measures@),
            answers == known(*evals),
            after(key, measured_all(m, ms, answers, 0)) == after(
                row_view(out@),
                measured_all(m, ms, answers, i as int),
            ),
        decreases measures@.len() - i,
    {
        let measure = &measures[i];
        assert(ms[i as int] == measure@);
        assert forall|s: int| 0 <= s < measure.slots@.len() implies (
        #[trigger] measure.slots@[s]).fits(rows@) by {
            assert(ms[i as int].slots[s] == measure.slots@[s]@);
            if reads_column(measure.slots@[s].kind) {
                assert forall|j: int| 0 <= j < rows@.len() implies measure.slots@[s].col_idx < (
                #[trigger] rows@[j]).row@.len() by {
                    assert(m.rows[j] == rows@[j]@);
                }
            }
        }
        match measure.evaluate(rows, start, labels, evals) {
            Err(q) => {
                return Err(q);
            },
            Ok(d) => {
                let ghost prior = out@;
                let ghost dv = datum_view(d);
                out.push(d);
                proof {
                    assert(row_view(out@) =~= row_view(prior).push(dv));
                    if let Ok(s) = measured_all(m, ms, answers, i + 1) {
                        assert(row_view(prior) + (seq![dv] + s) =~= row_view(out@) + s);
                    }
                }
            },
        }
        i = i + 1;
    }
    let ghost prior = out@;
    let id = Some(Scalar::Int64(rows[start].seq));
    out.push(id);
    proof {
        assert(m.rows[start as int] == rows@[start as int]@);
        let values = measured_all(m, ms, answers, 0)->Ok_0;
        assert(row_view(prior) + Seq::empty() =~= row_view(prior));
        assert(row_view(out@) =~= row_view(prior).push(datum_view(id)));
        assert(row_view(out@) =~= key + values + seq![datum_view(id)]);
    }
    Ok(out)
}

/// With more answers an output row that was known stays as it is.
pub proof fn lemma_match_row_refines(
    m: MatchRows,
    measures: Seq<MeasureView>,
    partition_key: RowView,
    a: Answers,
    b: Answers,
)
    requires
        more_answers(a, b),
        match_row(m, measures, partition_key, a) is Ok,
    ensures
        match_row(m, measures, partition_key, b) == match_row(m, measures, partition_key, a),
{
    lemma_measured_all_refines(m, measures, a, b, 0);
}

proof fn lemma_measured_all_refines(
    m: MatchRows,
    measures: Seq<MeasureView>,
    a: Answers,
    b: Answers,
    i: int,
)
    requires
        more_answers(a, b),
        measured_all(m, measures, a, i) is Ok,
    ensures
        measured_all(m, measures, b, i) == measured_all(m, measures, a, i),
    decreases measures.len() - i,
{
    if 0 <= i < measures.len() {
        lemma_resolved_all_refines(m, measures[i].slots, a, b, 0);
        lemma_measured_all_refines(m, measures, a, b, i + 1);
    }
}

proof fn lemma_resolved_all_refines(
    m: MatchRows,
    slots: Seq<MeasureSlotView>,
    a: Answers,
    b: Answers,
    i: int,
)
    requires
        more_answers(a, b),
        resolved_all(m, slots, a, i) is Ok,
    ensures
        resolved_all(m, slots, b, i) == resolved_all(m, slots, a, i),
    decreases slots.len() - i,
{
    if 0 <= i < slots.len() {
        lemma_resolved_all_refines(m, slots, a, b, i + 1);
    }
}

/// An output row depends on nothing but the rows of the match and the variables that they are bound
/// to.
pub proof fn lemma_match_row_same(
    m1: MatchRows,
    m2: MatchRows,
    measures: Seq<MeasureView>,
    partition_key: RowView,
    answers: Answers,
)
    requires
        m1.labels == m2.labels,
        m1.labels.len() > 0,
        same_match(m1, m2),
    ensures
        match_row(m1, measures, partition_key, answers) == match_row(
            m2,
            measures,
            partition_key,
            answers,
        ),
{
    lemma_measured_all_same(m1, m2, measures, answers, 0);
    assert(m1.rows[m1.start + 0] == m2.rows[m2.start + 0]);
}

/// The rows of the two matches are the same.
pub open spec fn same_match(m1: MatchRows, m2: MatchRows) -> bool {
    forall|j: int|
        #![trigger m1.rows[m1.start + j]]
        #![trigger m2.rows[m2.start + j]]
        0 <= j < m1.labels.len() ==> m1.rows[m1.start + j] == m2.rows[m2.start + j]
}

proof fn lemma_measured_all_same(
    m1: MatchRows,
    m2: MatchRows,
    measures: Seq<MeasureView>,
    answers: Answers,
    i: int,
)
    requires
        m1.labels == m2.labels,
        same_match(m1, m2),
    ensures
        measured_all(m1, measures, answers, i) == measured_all(m2, measures, answers, i),
    decreases measures.len() - i,
{
    if 0 <= i < measures.len() {
        lemma_resolved_all_same(m1, m2, measures[i].slots, answers, 0);
        lemma_measured_all_same(m1, m2, measures, answers, i + 1);
    }
}

proof fn lemma_resolved_all_same(
    m1: MatchRows,
    m2: MatchRows,
    slots: Seq<MeasureSlotView>,
    answers: Answers,
    i: int,
)
    requires
        m1.labels == m2.labels,
        same_match(m1, m2),
    ensures
        resolved_all(m1, slots, answers, i) == resolved_all(m2, slots, answers, i),
    decreases slots.len() - i,
{
    if 0 <= i < slots.len() {
        let s = slots[i];
        let n = m1.labels.len() as int;
        lemma_cells_same(m1, m2, s.vars, s.col_idx, n);
        lemma_first_of(m1.labels, s.vars, 0);
        lemma_last_of(m1.labels, s.vars, n);
        lemma_resolved_all_same(m1, m2, slots, answers, i + 1);
    }
}

proof fn lemma_cells_same(m1: MatchRows, m2: MatchRows, vars: Seq<Var>, col: nat, i: int)
    requires
        m1.labels == m2.labels,
        same_match(m1, m2),
        i <= m1.labels.len(),
    ensures
        cells(m1, vars, col, i) == cells(m2, vars, col, i),
    decreases i,
{
    if i > 0 {
        lemma_cells_same(m1, m2, vars, col, i - 1);
        assert(m1.rows[m1.start + (i - 1)] == m2.rows[m2.start + (i - 1)]);
    }
}

/// The row of the match, counted from its first, is bound to one of the variables.
pub open spec fn is_bound(m: MatchRows, vars: Seq<Var>, j: int) -> bool {
    0 <= j < m.labels.len() && vars.contains(m.labels[j])
}

/// What each kind of slot reads from a match, where `rows[start + j]` is its row `j`:
///
/// - the slot's own column of the first or the last row that is bound to one of its variables; NULL
///   where none is;
/// - the variable of the last row, and the number of all rows;
/// - the number of the rows that are bound to one of its variables and have a value in the column,
///   and the least and the greatest of these values; NULL where there is none;
/// - the answer of the aggregate to the values of the column over the rows that are bound to one of
///   its variables, in their order; NULL where no row is.
pub proof fn lemma_measure_slot_reads(
    m: MatchRows,
    s: MeasureSlotView,
    answers: Answers,
    j: int,
    agg: usize,
)
    requires
        m.labels.len() <= i64::MAX,
    ensures
        ({
            let r = resolved(m, s, answers);
            let n = m.labels.len() as int;
            let col = s.col_idx as int;
            let here = m.rows[m.start + j].row[col];
            let all = Seq::new(m.labels.len(), |i: int| i);
            let values = all.filter(|i: int| s.vars.contains(m.labels[i])).map_values(
                |i: int| m.rows[m.start + i].row[col],
            );
            let none_bound = forall|i: int| 0 <= i < n ==> !s.vars.contains(#[trigger] m.labels[i]);
            &&& s.kind is First && is_bound(m, s.vars, j) && (forall|i: int|
                0 <= i < j ==> !s.vars.contains(#[trigger] m.labels[i])) ==> r == Ok::<
                DatumView,
                Request,
            >(here)
            &&& s.kind is Last && is_bound(m, s.vars, j) && (forall|i: int|
                j < i < n ==> !s.vars.contains(#[trigger] m.labels[i])) ==> r == Ok::<
                DatumView,
                Request,
            >(here)
            &&& (s.kind is First || s.kind is Last) && none_bound ==> r == Ok::<DatumView, Request>(
                None,
            )
            &&& s.kind is Classifier && n > 0 ==> r == Ok::<DatumView, Request>(
                Some(ScalarView::Utf8(m.labels[n - 1])),
            )
            &&& s.kind is CountStar ==> r == Ok::<DatumView, Request>(
                Some(ScalarView::Int64(n as i64)),
            )
            &&& s.kind is Count ==> r == Ok::<DatumView, Request>(
                Some(
                    ScalarView::Int64(
                        all.filter(
                            |i: int|
                                s.vars.contains(m.labels[i]) && m.rows[m.start + i].row[col] is Some,
                        ).len() as i64,
                    ),
                ),
            )
            &&& s.kind is Min ==> r is Ok && match r->Ok_0 {
                Some(x) => {
                    &&& exists|i: int| #[trigger]
                        is_bound(m, s.vars, i) && m.rows[m.start + i].row[col] == Some(x)
                    &&& is_bound(m, s.vars, j) ==> (here matches Some(y) ==> !before(y, x))
                },
                None => is_bound(m, s.vars, j) ==> here is None,
            }
            &&& s.kind is Max ==> r is Ok && match r->Ok_0 {
                Some(x) => {
                    &&& exists|i: int| #[trigger]
                        is_bound(m, s.vars, i) && m.rows[m.start + i].row[col] == Some(x)
                    &&& is_bound(m, s.vars, j) ==> (here matches Some(y) ==> !before(x, y))
                },
                None => is_bound(m, s.vars, j) ==> here is None,
            }
            &&& s.kind == MeasureSlotKind::Sum(agg) && none_bound ==> r == Ok::<DatumView, Request>(
                None,
            )
            &&& s.kind == MeasureSlotKind::Sum(agg) && is_bound(m, s.vars, j) ==> r == match answers(
                Request { expr: agg, args: values },
            ) {
                Some(d) => Ok::<DatumView, Request>(d),
                None => Err(Request { expr: agg, args: values }),
            }
        }),
{
    let n = m.labels.len() as int;
    let col = s.col_idx;
    let values = cells(m, s.vars, col, n);
    lemma_first_of(m.labels, s.vars, 0);
    lemma_last_of(m.labels, s.vars, n);
    lemma_cells_of_all(m, s.vars, col, n);
    lemma_lowest(values);
    lemma_highest(values);
    assert(Seq::new(n as nat, |i: int| i) =~= Seq::new(m.labels.len(), |i: int| i));
    if is_bound(m, s.vars, j) {
        let k = lemma_cell_place(m, s.vars, col, n, j);
        assert(values[k] == cell(m, col, j));
    }
    if values.len() > 0 {
        let i = lemma_cell_source(m, s.vars, col, n, 0);
        assert(s.vars.contains(m.labels[i]));
    }
    if s.kind is Min || s.kind is Max {
        let r = resolved(m, s, answers)->Ok_0;
        if r is Some {
            let k = choose|k: int| 0 <= k < values.len() && #[trigger] values[k] == r;
            let i = lemma_cell_source(m, s.vars, col, n, k);
            assert(is_bound(m, s.vars, i) && m.rows[m.start + i].row[col as int] == r);
        }
    }
}

/// The value of a row that is bound to one of the variables is among the values.
proof fn lemma_cell_place(m: MatchRows, vars: Seq<Var>, col: nat, n: int, j: int) -> (k: int)
    requires
        0 <= j < n <= m.labels.len(),
        vars.contains(m.labels[j]),
    ensures
        0 <= k < cells(m, vars, col, n).len(),
        cells(m, vars, col, n)[k] == cell(m, col, j),
    decreases n,
{
    if j == n - 1 {
        cells(m, vars, col, n).len() - 1
    } else {
        lemma_cell_place(m, vars, col, n - 1, j)
    }
}

/// Each of the values is that of a row that is bound to one of the variables.
proof fn lemma_cell_source(m: MatchRows, vars: Seq<Var>, col: nat, n: int, k: int) -> (j: int)
    requires
        n <= m.labels.len(),
        0 <= k < cells(m, vars, col, n).len(),
    ensures
        0 <= j < n,
        vars.contains(m.labels[j]),
        cells(m, vars, col, n)[k] == cell(m, col, j),
    decreases n,
{
    if vars.contains(m.labels[n - 1]) && k == cells(m, vars, col, n).len() - 1 {
        n - 1
    } else {
        lemma_cell_source(m, vars, col, n - 1, k)
    }
}

/// The values of a column in their order, and how many of them are not NULL.
proof fn lemma_cells_of_all(m: MatchRows, vars: Seq<Var>, col: nat, n: int)
    requires
        0 <= n <= m.labels.len(),
    ensures
        cells(m, vars, col, n) == Seq::new(n as nat, |i: int| i).filter(
            |i: int| vars.contains(m.labels[i]),
        ).map_values(|i: int| m.rows[m.start + i].row[col as int]),
        non_nulls(cells(m, vars, col, n)) == Seq::new(n as nat, |i: int| i).filter(
            |i: int| vars.contains(m.labels[i]) && m.rows[m.start + i].row[col as int] is Some,
        ).len(),
    decreases n,
{
    reveal(Seq::filter);
    let all = Seq::new(n as nat, |i: int| i);
    let bound = |i: int| vars.contains(m.labels[i]);
    let valued = |i: int|
        vars.contains(m.labels[i]) && m.rows[m.start + i].row[col as int] is Some;
    let read = |i: int| m.rows[m.start + i].row[col as int];
    if n > 0 {
        lemma_cells_of_all(m, vars, col, n - 1);
        let rest = Seq::new((n - 1) as nat, |i: int| i);
        assert(all.drop_last() =~= rest);
        assert(all.last() == n - 1);
        if bound(n - 1) {
            assert(rest.filter(bound).push(n - 1).map_values(read) =~= rest.filter(
                bound,
            ).map_values(read).push(read(n - 1)));
            let values = cells(m, vars, col, n);
            assert(values.drop_last() =~= cells(m, vars, col, n - 1));
        }
    } else {
        assert(all.filter(bound).map_values(read) =~= cells(m, vars, col, n));
    }
}

/// A slot depends on no column but its own: matches of rows that are bound alike and hold the same
/// in it give the same, whatever the other columns hold.
pub proof fn lemma_slot_reads_its_column(
    m1: MatchRows,
    m2: MatchRows,
    s: MeasureSlotView,
    answers: Answers,
)
    requires
        m1.labels == m2.labels,
        forall|j: int|
            #![trigger m1.rows[m1.start + j]]
            #![trigger m2.rows[m2.start + j]]
            0 <= j < m1.labels.len() ==> m1.rows[m1.start + j].row[s.col_idx as int]
                == m2.rows[m2.start + j].row[s.col_idx as int],
    ensures
        resolved(m1, s, answers) == resolved(m2, s, answers),
{
    let n = m1.labels.len() as int;
    lemma_first_of(m1.labels, s.vars, 0);
    lemma_last_of(m1.labels, s.vars, n);
    lemma_cells_of_column(m1, m2, s.vars, s.col_idx, n);
}

proof fn lemma_cells_of_column(m1: MatchRows, m2: MatchRows, vars: Seq<Var>, col: nat, i: int)
    requires
        m1.labels == m2.labels,
        i <= m1.labels.len(),
        forall|j: int|
            #![trigger m1.rows[m1.start + j]]
            #![trigger m2.rows[m2.start + j]]
            0 <= j < m1.labels.len() ==> m1.rows[m1.start + j].row[col as int]
                == m2.rows[m2.start + j].row[col as int],
    ensures
        cells(m1, vars, col, i) == cells(m2, vars, col, i),
    decreases i,
{
    if i > 0 {
        lemma_cells_of_column(m1, m2, vars, col, i - 1);
        assert(m1.rows[m1.start + (i - 1)].row[col as int] == m2.rows[m2.start + (
        i - 1)].row[col as int]);
    }
}

/// What the output row of a match holds, column by column: the partition columns, then a value for
/// each measure, in their order, and last the seq of the first row. The value of a measure is the
/// answer of its expression over what its slots read, one after the other.
pub proof fn lemma_output_columns(
    m: MatchRows,
    measures: Seq<MeasureView>,
    key: RowView,
    answers: Answers,
    i: int,
)
    requires
        match_row(m, measures, key, answers) is Ok,
    ensures
        ({
            let row = match_row(m, measures, key, answers)->Ok_0;
            &&& row.len() == key.len() + measures.len() + 1
            &&& 0 <= i < key.len() ==> row[i] == key[i]
            &&& 0 <= i < measures.len() ==> {
                &&& forall|j: int|
                    0 <= j < measures[i].slots.len() ==> resolved(
                        m,
                        #[trigger] measures[i].slots[j],
                        answers,
                    ) is Ok
                &&& answers(
                    Request {
                        expr: measures[i].expr,
                        args: Seq::new(
                            measures[i].slots.len(),
                            |j: int| resolved(m, measures[i].slots[j], answers)->Ok_0,
                        ),
                    },
                ) == Some(row[key.len() + i])
            }
            &&& row[row.len() - 1] == Some(ScalarView::Int64(m.rows[m.start].seq))
        }),
{
    lemma_measured_columns(m, measures, answers, 0, i);
    let values = measured_all(m, measures, answers, 0)->Ok_0;
    let row = match_row(m, measures, key, answers)->Ok_0;
    if 0 <= i < measures.len() {
        assert(row[key.len() + i] == values[i]);
        lemma_resolved_columns(m, measures[i].slots, answers, 0);
        let args = resolved_all(m, measures[i].slots, answers, 0)->Ok_0;
        assert(args =~= Seq::new(
            measures[i].slots.len(),
            |j: int| resolved(m, measures[i].slots[j], answers)->Ok_0,
        ));
    }
}

proof fn lemma_measured_columns(
    m: MatchRows,
    measures: Seq<MeasureView>,
    answers: Answers,
    from: int,
    i: int,
)
    requires
        0 <= from <= measures.len(),
        measured_all(m, measures, answers, from) is Ok,
    ensures
        ({
            let values = measured_all(m, measures, answers, from)->Ok_0;
            &&& values.len() == measures.len() - from
            &&& from <= i < measures.len() ==> measured(m, measures[i], answers) == Ok::<
                DatumView,
                Request,
            >(values[i - from])
        }),
    decreases measures.len() - from,
{
    if from < measures.len() {
        lemma_measured_columns(m, measures, answers, from + 1, i);
    }
}

proof fn lemma_resolved_columns(
    m: MatchRows,
    slots: Seq<MeasureSlotView>,
    answers: Answers,
    from: int,
)
    requires
        0 <= from <= slots.len(),
        resolved_all(m, slots, answers, from) is Ok,
    ensures
        ({
            let args = resolved_all(m, slots, answers, from)->Ok_0;
            &&& args.len() == slots.len() - from
            &&& forall|j: int|
                from <= j < slots.len() ==> resolved(m, #[trigger] slots[j], answers) == Ok::<
                    DatumView,
                    Request,
                >(args[j - from])
        }),
    decreases slots.len() - from,
{
    if from < slots.len() {
        lemma_resolved_columns(m, slots, answers, from + 1);
        let rest = resolved_all(m, slots, answers, from + 1)->Ok_0;
        let args = resolved_all(m, slots, answers, from)->Ok_0;
        assert forall|j: int| from <= j < slots.len() implies resolved(
            m,
            #[trigger] slots[j],
            answers,
        ) == Ok::<DatumView, Request>(args[j - from]) by {
            if j > from {
                assert(args[j - from] == rest[j - (from + 1)]);
            }
        }
    }
}

/// What a plan's codes of slot kinds stand for, and what is wrong with slots: the first that has an
/// unknown code, or that sums and has no aggregate.
pub proof fn lemma_planned_measure_slots(slots: Seq<MatchRecognizeMeasureSlot>, i: int)
    requires
        0 <= i <= slots.len(),
    ensures
        forall|j: int|
            0 <= j < slots.len() ==> {
                let s = #[trigger] slots[j];
                let low = lowered_measure_slot(s);
                let k = measure_slot_kind(s);
                &&& low.vars == texts(s.vars@)
                &&& low.col_idx == s.col_idx
                &&& k matches Ok(kind) ==> low.kind == kind
                &&& s.kind == 0 ==> k == Ok::<MeasureSlotKind, PlanError>(MeasureSlotKind::Last)
                &&& s.kind == 1 ==> k == Ok::<MeasureSlotKind, PlanError>(MeasureSlotKind::First)
                &&& s.kind == 2 ==> k == Ok::<MeasureSlotKind, PlanError>(
                    MeasureSlotKind::Classifier,
                )
                &&& s.kind == 3 ==> k == Ok::<MeasureSlotKind, PlanError>(
                    MeasureSlotKind::CountStar,
                )
                &&& s.kind == 4 ==> k == Ok::<MeasureSlotKind, PlanError>(MeasureSlotKind::Count)
                &&& s.kind == 5 ==> k == Ok::<MeasureSlotKind, PlanError>(MeasureSlotKind::Min)
                &&& s.kind == 6 ==> k == Ok::<MeasureSlotKind, PlanError>(MeasureSlotKind::Max)
                &&& s.kind == 7 && s.agg_call is Some ==> k == Ok::<MeasureSlotKind, PlanError>(
                    MeasureSlotKind::Sum(s.agg_call->Some_0),
                )
                &&& s.kind == 7 && s.agg_call is None ==> k == Err::<MeasureSlotKind, PlanError>(
                    PlanError::MissingAggCall,
                )
                &&& s.kind > 7 ==> k == Err::<MeasureSlotKind, PlanError>(
                    PlanError::InvalidMeasureSlotKind(s.kind),
                )
            },
        match measure_slot_error(slots, i) {
            Some(e) => exists|k: int|
                i <= k < slots.len() && measure_slot_kind(#[trigger] slots[k]) == Err::<
                    MeasureSlotKind,
                    PlanError,
                >(e) && forall|j: int|
                    i <= j < k ==> measure_slot_kind(#[trigger] slots[j]) is Ok,
            None => forall|j: int|
                i <= j < slots.len() ==> measure_slot_kind(#[trigger] slots[j]) is Ok,
        },
    decreases slots.len() - i,
{
    if i < slots.len() {
        if measure_slot_kind(slots[i]) is Err {
            assert(measure_slot_kind(slots[i]) == Err::<MeasureSlotKind, PlanError>(
                measure_slot_error(slots, i)->Some_0,
            ));
        } else {
            lemma_planned_measure_slots(slots, i + 1);
            if let Some(e) = measure_slot_error(slots, i) {
                let k = choose|k: int|
                    i + 1 <= k < slots.len() && measure_slot_kind(#[trigger] slots[k]) == Err::<
                        MeasureSlotKind,
                        PlanError,
                    >(e) && forall|j: int|
                        i + 1 <= j < k ==> measure_slot_kind(#[trigger] slots[j]) is Ok;
                assert(measure_slot_kind(slots[k]) is Err);
            }
        }
    }
}

} // verus!
