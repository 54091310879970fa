//! What the models of values hold.

use crate::buffer::{buffer_view, projected, seqs, BufferedRow};
use crate::changelog::{emitted_view, ops_view, Emitted};
use crate::datum::{datum_view, row_view, Datum, RowView, Scalar, ScalarView};
use crate::define::{
    define_fits, define_verdict, define_verdicts, known, Answers, DefineView, Matching,
};
use crate::emission::whole_buffer;
use crate::eval::{EvalRequest, Evaluations, Request};
use crate::frontier::{bound_view, wakeup_in, write_views, TableWrite, WriteView};
use crate::groups::{group_view, PartitionRows};
use crate::incremental::{anchored, anchored_all, seq_spans, SeqMatch};
use crate::ingest::chunk_view;
use crate::matcher::{shifted, verdict_view, CandidateMatcher, OffsetMatcher, SetMatcher};
use crate::measure::{measure_fits, MeasureSlotKind, MeasureView};
use crate::nfa::{spans, LabeledMatch};
use crate::pattern::{texts, Var, Verdicts};
use crate::plan::Op;
use crate::scan::Span;
use crate::skip::{SkipMode, SkipView};
use crate::visit::{rows_view, Visit};
use vstd::prelude::*;

verus! {

/// The model of a value is the value of the same type, with text and bytes as sequences; NULL is none.
pub proof fn lemma_model_of_values(
    b: bool,
    x: i16,
    y: i32,
    z: i64,
    s: String,
    v: Vec<u8>,
    d: Scalar,
)
    ensures
        Scalar::Bool(b)@ == ScalarView::Bool(b),
        Scalar::Int16(x)@ == ScalarView::Int16(x),
        Scalar::Int32(y)@ == ScalarView::Int32(y),
        Scalar::Int64(z)@ == ScalarView::Int64(z),
        Scalar::Utf8(s)@ == ScalarView::Utf8(s@),
        Scalar::Bytea(v)@ == ScalarView::Bytea(v@),
        Scalar::Encoded(v)@ == ScalarView::Encoded(v@),
        datum_view(Some(d)) == Some(d@),
        datum_view(None) is None,
{
}

/// The model of a list holds the models of its items, in their order.
pub proof fn lemma_model_of_lists(
    row: Seq<Datum>,
    names: Seq<String>,
    rows: Seq<BufferedRow>,
    chunk: Seq<(Op, Vec<Datum>)>,
    matches: Seq<LabeledMatch>,
    i: int,
)
    ensures
        row_view(row).len() == row.len(),
        0 <= i < row.len() ==> row_view(row)[i] == datum_view(row[i]),
        texts(names).len() == names.len(),
        0 <= i < names.len() ==> texts(names)[i] == names[i]@,
        buffer_view(rows).len() == rows.len(),
        0 <= i < rows.len() ==> {
            let r = buffer_view(rows)[i];
            &&& r.seq == rows[i].seq
            &&& r.order_key == datum_view(rows[i].order_key)
            &&& r.row == row_view(rows[i].row@)
            &&& seqs(buffer_view(rows))[i] == rows[i].seq
        },
        chunk_view(chunk).len() == chunk.len(),
        0 <= i < chunk.len() ==> chunk_view(chunk)[i] == (chunk[i].0, row_view(chunk[i].1@)),
        spans(matches).len() == matches.len(),
        0 <= i < matches.len() ==> {
            let m = spans(matches)[i];
            &&& m.start == matches[i].start
            &&& m.labels == texts(matches[i].labels@)
            &&& matches[i].wf() ==> m.end() == matches[i].end
        },
{
}

/// The columns of a row that are picked by their indices, each in the place of its index.
pub proof fn lemma_projection(row: RowView, indices: Seq<usize>, i: int)
    ensures
        projected(row, indices).len() == indices.len(),
        0 <= i < indices.len() ==> projected(row, indices)[i] == row[indices[i] as int],
{
}

/// The model of a strategy is the strategy of the same name and target.
pub proof fn lemma_model_of_skips(v: String)
    ensures
        SkipMode::PastLastRow@ == SkipView::PastLastRow,
        SkipMode::ToNextRow@ == SkipView::ToNextRow,
        SkipMode::ToFirst(v)@ == SkipView::ToFirst(v@),
        SkipMode::ToLast(v)@ == SkipView::ToLast(v@),
{
}

/// A match that is anchored has the seq of its first row, one past that of its last row, and the
/// variables of its rows.
pub proof fn lemma_anchors(fed: Seq<i64>, m: Span, a: SeqMatch)
    ensures
        anchored(fed, m).start_seq == fed[m.start],
        anchored(fed, m).end_seq == fed[m.start + m.labels.len() - 1] + 1,
        anchored(fed, m).labels == m.labels,
        a@.start_seq == a.start_seq,
        a@.end_seq == a.end_seq,
        a@.labels == texts(a.labels@),
{
}

/// What is asked and what is known: a request names its expression and its arguments, and the answers
/// that are known are those that are recorded.
pub proof fn lemma_model_of_answers(q: EvalRequest, evals: Evaluations, r: Request)
    ensures
        q@.expr == q.expr,
        q@.args == row_view(q.args@),
        known(evals)(r) == evals.answer(r),
        verdict_view(Err(q)) == Err::<bool, Request>(q@),
        verdict_view(Ok(true)) == Ok::<bool, Request>(true),
        verdict_view(Ok(false)) == Ok::<bool, Request>(false),
{
}

/// The verdicts of matchers. With sets that are known beforehand a row is bound to the variables that
/// it satisfies. A matcher on the rows from an offset on gives at each row the verdict on the row that
/// many positions behind it. With predicates the verdict is that of the predicate of the variable.
pub proof fn lemma_verdicts_of_matchers(
    sets: SetMatcher,
    v: Verdicts,
    m: Matching,
    answers: Answers,
    offset: int,
    var: Var,
    pos: int,
    labels: Seq<Var>,
)
    ensures
        (sets.verdicts())(var, pos, labels) == Ok::<bool, Request>(
            sets.satisfied(pos).contains(var),
        ),
        shifted(v, offset)(var, pos, labels) == v(var, pos + offset, labels),
        define_verdicts(m, answers)(var, pos, labels) == define_verdict(
            m,
            answers,
            var,
            pos,
            labels,
        ),
{
}

/// Where matches are told before they are final, all rows that are buffered are matched.
pub proof fn lemma_all_rows_are_matched(m: Matching)
    ensures
        whole_buffer(m.rows, m.defines, m.within) == (Matching {
            safe_len: m.rows.len() as int,
            ..m
        }),
{
}

/// The model of a list of matches, changes or writes holds the models of its items, in their order.
pub proof fn lemma_model_of_results(
    matches: Seq<SeqMatch>,
    emitted: Seq<Emitted>,
    ops: Seq<(Op, Vec<Datum>)>,
    rows: Seq<Vec<Datum>>,
    writes: Seq<TableWrite>,
    fed: Seq<i64>,
    found: Seq<Span>,
    i: int,
)
    ensures
        seq_spans(matches).len() == matches.len(),
        0 <= i < matches.len() ==> seq_spans(matches)[i] == matches[i]@,
        anchored_all(fed, found).len() == found.len(),
        0 <= i < found.len() ==> anchored_all(fed, found)[i] == anchored(fed, found[i]),
        emitted_view(emitted).len() == emitted.len(),
        0 <= i < emitted.len() ==> emitted_view(emitted)[i] == (
            emitted[i].0@,
            row_view(emitted[i].1@),
        ),
        ops_view(ops).len() == ops.len(),
        0 <= i < ops.len() ==> ops_view(ops)[i] == (ops[i].0, row_view(ops[i].1@)),
        rows_view(rows).len() == rows.len(),
        0 <= i < rows.len() ==> rows_view(rows)[i] == row_view(rows[i]@),
        write_views(writes).len() == writes.len(),
        0 <= i < writes.len() ==> write_views(writes)[i] == writes[i]@,
{
}

/// The model of a write is the write of the same kind to the same table, of the same rows.
pub proof fn lemma_model_of_writes(a: Vec<Datum>, b: Vec<Datum>)
    ensures
        TableWrite::MetaInsert(a)@ == WriteView::MetaInsert(row_view(a@)),
        TableWrite::MetaUpdate(a, b)@ == WriteView::MetaUpdate(row_view(a@), row_view(b@)),
        TableWrite::MetaDelete(a)@ == WriteView::MetaDelete(row_view(a@)),
        TableWrite::IndexInsert(a)@ == WriteView::IndexInsert(row_view(a@)),
        TableWrite::IndexDelete(a)@ == WriteView::IndexDelete(row_view(a@)),
{
}

/// The models of what is decided for a partition, of its rows, and of the wakeup that is kept.
pub proof fn lemma_model_of_partitions(
    v: Visit,
    g: PartitionRows,
    bound: Option<Datum>,
    meta: Option<Vec<Datum>>,
)
    ensures
        v@.finals == spans(v.finals@),
        v@.out_rows == rows_view(v.out_rows@),
        v@.degradations == v.degradations@,
        v@.retain_from == v.retain_from,
        v@.next_wakeup == datum_view(v.next_wakeup),
        g@.key == row_view(g.key@),
        g@.rows == buffer_view(g.rows@),
        group_view(Some(g)) == Some(g@),
        group_view(None) is None,
        bound is None ==> bound_view(bound) is None,
        bound matches Some(d) ==> bound_view(bound) == Some(datum_view(d)),
        meta is None ==> wakeup_in(meta) is None,
        meta matches Some(row) ==> row@.len() > 0 ==> wakeup_in(meta) == datum_view(
            row@[row@.len() - 1],
        ),
{
}

/// A matcher on the rows from an offset on has the verdicts on these rows, and as many rows as follow
/// the offset.
pub proof fn lemma_model_of_offset<'a, M: CandidateMatcher>(
    m: OffsetMatcher<'a, M>,
    var: Var,
    pos: int,
    labels: Seq<Var>,
)
    requires
        m.offset <= m.inner.rows(),
    ensures
        (m.verdicts())(var, pos, labels) == (m.inner.verdicts())(var, pos + m.offset, labels),
        m.first() == m.inner.first() - m.offset,
        m.rows() == m.inner.rows() - m.offset,
{
}

/// Which plans fit an input of so many columns: those whose slots read no column behind the last.
/// Slots that read the variable of a row or count rows read none.
pub proof fn lemma_when_plans_fit(d: DefineView, m: MeasureView, arity: int)
    ensures
        define_fits(d, arity) <==> forall|s: int|
            0 <= s < d.slots.len() ==> (#[trigger] d.slots[s]).col_idx < arity,
        measure_fits(m, arity) <==> forall|s: int|
            0 <= s < m.slots.len() ==> ((#[trigger] m.slots[s]).col_idx < arity || m.slots[s].kind
                == MeasureSlotKind::Classifier || m.slots[s].kind == MeasureSlotKind::CountStar),
{
}

} // verus!
