//! The buffered rows of a partition.

use crate::datum::{
    datum_clone, datum_view, row_clone, row_view, Datum, DatumView, RowView, Scalar, ScalarView,
};
use vstd::prelude::*;

verus! {

/// A buffered input row.
#[derive(Debug, PartialEq, Eq)]
pub struct BufferedRow {
    /// Tells rows with equal order keys apart.
    pub seq: i64,
    /// The value of the leading order column.
    pub order_key: Datum,
    /// The input row.
    pub row: Vec<Datum>,
}

/// The model of a [`BufferedRow`].
pub struct BufferView {
    pub seq: i64,
    pub order_key: DatumView,
    pub row: RowView,
}

impl View for BufferedRow {
    type V = BufferView;

    open spec fn view(&self) -> BufferView {
        BufferView {
            seq: self.seq,
            order_key: datum_view(self.order_key),
            row: row_view(self.row@),
        }
    }
}

/// The model of a partition's rows.
pub open spec fn buffer_view(rows: Seq<BufferedRow>) -> Seq<BufferView> {
    rows.map_values(|r: BufferedRow| r@)
}

/// The seqs of the rows.
pub open spec fn seqs(rows: Seq<BufferView>) -> Seq<i64> {
    rows.map_values(|r: BufferView| r.seq)
}

impl Clone for BufferedRow {
    fn clone(&self) -> (r: Self)
        ensures
            r@ == self@,
    {
        BufferedRow {
            seq: self.seq,
            order_key: datum_clone(&self.order_key),
            row: row_clone(&self.row),
        }
    }
}

/// The stored form of an input row: its seq, and its columns.
pub open spec fn stored(seq: i64, row: RowView) -> RowView {
    seq![Some(ScalarView::Int64(seq))] + row
}

/// The stored form of an input row.
pub fn stored_row(seq: i64, row: &Vec<Datum>) -> (r: Vec<Datum>)
    ensures
        row_view(r@) == stored(seq, row_view(row@)),
{
    let mut r: Vec<Datum> = Vec::new();
    r.push(Some(Scalar::Int64(seq)));
    let ghost head = seq![Some(ScalarView::Int64(seq))];
    let ghost rv = row_view(row@);
    let mut i: usize = 0;
    assert(row_view(r@) =~= head + rv.take(0));
    while i < row.len()
        invariant
            i <= row@.len(),
            rv == row_view(row@),
            row_view(r@) == head + rv.take(i as int),
        decreases row@.len() - i,
    {
        let ghost prior = r@;
        let d = datum_clone(&row[i]);
        r.push(d);
        assert(row_view(r@) =~= row_view(prior).push(datum_view(d)));
        assert(head + rv.take(i + 1) =~= (head + rv.take(i as int)).push(rv[i as int]));
        i = i + 1;
    }
    assert(rv.take(i as int) =~= rv);
    r
}

/// The columns of a row at the given indices.
pub open spec fn projected(row: RowView, indices: Seq<usize>) -> RowView {
    indices.map_values(|i: usize| row[i as int])
}

/// The columns of a row at the given indices.
pub fn project(row: &Vec<Datum>, indices: &Vec<usize>) -> (r: Vec<Datum>)
    requires
        forall|i: int| 0 <= i < indices@.len() ==> #[trigger] indices@[i] < row@.len(),
    ensures
        row_view(r@) == projected(row_view(row@), indices@),
{
    let ghost want = projected(row_view(row@), indices@);
    let mut r: Vec<Datum> = Vec::new();
    let mut i: usize = 0;
    while i < indices.len()
        invariant
            i <= indices@.len(),
            r@.len() == i,
            want == projected(row_view(row@), indices@),
            forall|j: int| 0 <= j < indices@.len() ==> #[trigger] indices@[j] < row@.len(),
            forall|j: int| 0 <= j < i ==> datum_view(#[trigger] r@[j]) == want[j],
        decreases indices@.len() - i,
    {
        assert(indices@[i as int] < row@.len());
        r.push(datum_clone(&row[indices[i]]));
        i = i + 1;
    }
    assert(row_view(r@) =~= want);
    r
}

impl BufferedRow {
    /// Read a stored row with `arity` input columns. `None` where it has no seq or too few columns.
    pub fn from_stored(row: &Vec<Datum>, arity: usize, time_col: usize) -> (r: Option<Self>)
        requires
            time_col < arity,
        ensures
            ({
                let v = row_view(row@);
                if v.len() > arity && (v[0] matches Some(ScalarView::Int64(_))) {
                    r is Some && (r->Some_0)@ == (BufferView {
                        seq: v[0]->Some_0->Int64_0,
                        order_key: v[1 + time_col],
                        row: v.subrange(1, 1 + arity),
                    })
                } else {
                    r is None
                }
            }),
    {
        let ghost v = row_view(row@);
        if row.len() <= arity {
            return None;
        }
        let seq: i64 = match &row[0] {
            Some(Scalar::Int64(s)) => *s,
            _ => {
                return None;
            },
        };
        let mut cols: Vec<Datum> = Vec::new();
        let mut i: usize = 0;
        assert(row_view(cols@) =~= v.subrange(1, 1));
        while i < arity
            invariant
                i <= arity,
                arity < row@.len(),
                v == row_view(row@),
                row_view(cols@) == v.subrange(1, 1 + i),
            decreases arity - i,
        {
            let ghost prior = cols@;
            let d = datum_clone(&row[i + 1]);
            cols.push(d);
            assert(row_view(cols@) =~= row_view(prior).push(datum_view(d)));
            assert(v.subrange(1, 2 + i) =~= v.subrange(1, 1 + i).push(v[1 + i]));
            i = i + 1;
        }
        assert(row_view(cols@)[time_col as int] == datum_view(cols@[time_col as int]));
        let order_key = datum_clone(&cols[time_col]);
        Some(BufferedRow { seq, order_key, row: cols })
    }
}

/// A row that was stored is read back as it was.
pub proof fn lemma_stored_row_is_read_back(seq: i64, row: RowView, time_col: int)
    requires
        0 <= time_col < row.len(),
    ensures
        stored(seq, row).len() == row.len() + 1,
        stored(seq, row)[0] == Some(ScalarView::Int64(seq)),
        stored(seq, row)[1 + time_col] == row[time_col],
        stored(seq, row).subrange(1, 1 + row.len() as int) == row,
{
    assert(stored(seq, row).subrange(1, 1 + row.len() as int) =~= row);
}

} // verus!
