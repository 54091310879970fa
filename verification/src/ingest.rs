//! Taking in a chunk of input rows.

use crate::buffer::{project, projected};
use crate::datum::{
    before, datum_view, lemma_before_is_total_order, row_clone, row_view, Datum, DatumView, RowView,
    Scalar,
};
use crate::frontier::lower;
use crate::partitions::PartitionMap;
use crate::plan::{Op, PlanError};
use crate::visit::rows_view;
use vstd::prelude::*;

verus! {

/// A chunk of input.
pub type Chunk = Vec<(Op, Vec<Datum>)>;

/// The model of a chunk.
pub open spec fn chunk_view(chunk: Seq<(Op, Vec<Datum>)>) -> Seq<(Op, RowView)> {
    chunk.map_values(|c: (Op, Vec<Datum>)| (c.0, row_view(c.1@)))
}

/// The kind of the first record from index `i` on that is no insertion.
pub open spec fn not_insert(chunk: Seq<(Op, RowView)>, i: int) -> Option<Op>
    decreases chunk.len() - i,
{
    if i < 0 || i >= chunk.len() {
        None
    } else if chunk[i].0 is Insert {
        not_insert(chunk, i + 1)
    } else {
        Some(chunk[i].0)
    }
}

/// The first `i` rows without those whose order key is NULL. Such a row has no place in the order
/// and would never become safe.
pub open spec fn timed(chunk: Seq<(Op, RowView)>, time_col: int, i: int) -> Seq<RowView>
    decreases i,
{
    if i <= 0 {
        Seq::empty()
    } else if chunk[i - 1].1[time_col] is Some {
        timed(chunk, time_col, i - 1).push(chunk[i - 1].1)
    } else {
        timed(chunk, time_col, i - 1)
    }
}

/// The earliest order key of the rows of a partition, `None` where it has none.
pub open spec fn earliest(
    rows: Seq<RowView>,
    time_col: int,
    indices: Seq<usize>,
    key: RowView,
) -> DatumView
    decreases rows.len(),
{
    if rows.len() == 0 {
        None
    } else {
        let rest = earliest(rows.drop_last(), time_col, indices, key);
        if projected(rows.last(), indices) == key {
            match rows.last()[time_col] {
                Some(k) => lower(rest, k),
                None => rest,
            }
        } else {
            rest
        }
    }
}

/// What is kept of a chunk.
pub struct Ingested {
    /// The rows to buffer, in their order.
    pub kept: Vec<Vec<Datum>>,
    /// The earliest order key of each partition that got a row.
    pub minima: PartitionMap<Scalar>,
}

/// The earliest order key that is noted for a partition.
pub open spec fn noted(minima: Map<RowView, Scalar>, key: RowView) -> DatumView {
    if minima.dom().contains(key) {
        Some(minima[key]@)
    } else {
        None
    }
}

/// Take in a chunk. The input has to be append-only: a record that is no insertion is refused. Rows
/// without an order key are dropped.
pub fn ingest_chunk(chunk: &Chunk, time_col: usize, partition_key_indices: &Vec<usize>) -> (r: Result<
    Ingested,
    PlanError,
>)
    requires
        forall|i: int| 0 <= i < chunk@.len() ==> time_col < (#[trigger] chunk@[i]).1@.len(),
        forall|i: int, j: int|
            0 <= i < chunk@.len() && 0 <= j < partition_key_indices@.len()
                ==> #[trigger] partition_key_indices@[j] < (#[trigger] chunk@[i]).1@.len(),
    ensures
        match not_insert(chunk_view(chunk@), 0) {
            Some(op) => r == Err::<Ingested, PlanError>(PlanError::NotAppendOnly(op)),
            None => {
                &&& r is Ok
                &&& rows_view((r->Ok_0).kept@) == timed(
                    chunk_view(chunk@),
                    time_col as int,
                    chunk@.len() as int,
                )
                &&& forall|key: RowView|
                    noted((r->Ok_0).minima@, key) == #[trigger] earliest(
                        rows_view((r->Ok_0).kept@),
                        time_col as int,
                        partition_key_indices@,
                        key,
                    )
            },
        },
{
    let ghost cv = chunk_view(chunk@);
    let ghost ix = partition_key_indices@;
    let mut kept: Vec<Vec<Datum>> = Vec::new();
    let mut minima: PartitionMap<Scalar> = PartitionMap::new();
    let mut i: usize = 0;
    assert(rows_view(kept@) =~= Seq::empty());
    while i < chunk.len()
        invariant
            i <= chunk@.len(),
            cv == chunk_view(chunk@),
            ix == partition_key_indices@,
            forall|j: int| 0 <= j < chunk@.len() ==> time_col < (#[trigger] chunk@[j]).1@.len(),
            forall|x: int, j: int|
                0 <= x < chunk@.len() && 0 <= j < ix.len() ==> #[trigger] ix[j] < (
                #[trigger] chunk@[x]).1@.len(),
            not_insert(cv, 0) == not_insert(cv, i as int),
            rows_view(kept@) == timed(cv, time_col as int, i as int),
            forall|key: RowView|
                noted(minima@, key) == #[trigger] earliest(
                    rows_view(kept@),
                    time_col as int,
                    ix,
                    key,
                ),
        decreases chunk@.len() - i,
    {
        let (op, row) = &chunk[i];
        assert(cv[i as int] == (*op, row_view(row@)));
        match op {
            Op::Insert => {},
            _ => {
                return Err(PlanError::NotAppendOnly(*op));
            },
        }
        assert(chunk@[i as int].1@.len() == row@.len());
        assert(row_view(row@)[time_col as int] == datum_view(row@[time_col as int]));
        if let Some(order_key) = &row[time_col] {
            assert forall|j: int| 0 <= j < ix.len() implies #[trigger] ix[j] < row@.len() by {
                assert(ix[j] < chunk@[i as int].1@.len());
            }
            let key = project(row, partition_key_indices);
            let lowest: Scalar = match minima.get(&key) {
                Some(m) => {
                    if order_key.less(m) {
                        order_key.clone()
                    } else {
                        m.clone()
                    }
                },
                None => order_key.clone(),
            };
            let ghost before = kept@;
            let ghost minima_before = minima@;
            let ghost kv = row_view(key@);
            let ghost low = lowest;
            let copy = row_clone(row);
            kept.push(copy);
            minima.insert(key, lowest);
            proof {
                assert(rows_view(kept@) =~= rows_view(before).push(row_view(row@)));
                assert(rows_view(kept@).drop_last() =~= rows_view(before));
                assert forall|x: RowView|
                    noted(minima@, x) == #[trigger] earliest(
                        rows_view(kept@),
                        time_col as int,
                        ix,
                        x,
                    ) by {
                    assert(noted(minima_before, x) == earliest(
                        rows_view(before),
                        time_col as int,
                        ix,
                        x,
                    ));
                }
            }
        }
        i = i + 1;
    }
    Ok(Ingested { kept, minima })
}

/// What a chunk is refused for: the first record that is no insertion. A chunk of insertions is not
/// refused.
pub proof fn lemma_first_retraction(chunk: Seq<(Op, RowView)>, i: int)
    requires
        0 <= i <= chunk.len(),
    ensures
        match not_insert(chunk, i) {
            Some(op) => exists|k: int|
                i <= k < chunk.len() && (#[trigger] chunk[k]).0 == op && op != Op::Insert && forall|
                    j: int,
                |
                    i <= j < k ==> (#[trigger] chunk[j]).0 == Op::Insert,
            None => forall|k: int| i <= k < chunk.len() ==> (#[trigger] chunk[k]).0 == Op::Insert,
        },
    decreases chunk.len() - i,
{
    if i < chunk.len() {
        if chunk[i].0 is Insert {
            lemma_first_retraction(chunk, i + 1);
            if not_insert(chunk, i) is Some {
                let op = not_insert(chunk, i)->Some_0;
                let k = choose|k: int|
                    i + 1 <= k < chunk.len() && (#[trigger] chunk[k]).0 == op && op != Op::Insert
                        && forall|j: int| i + 1 <= j < k ==> (#[trigger] chunk[j]).0 == Op::Insert;
                assert(chunk[k].0 == op);
            }
        } else {
            assert(chunk[i].0 == not_insert(chunk, i)->Some_0);
        }
    }
}

/// Of a chunk every row is kept whose order key is not NULL, whatever its other columns hold, in
/// the order of the chunk, and no other row.
pub proof fn lemma_kept_rows(chunk: Seq<(Op, RowView)>, time_col: int)
    ensures
        timed(chunk, time_col, chunk.len() as int) == chunk.map_values(
            |c: (Op, RowView)| c.1,
        ).filter(|row: RowView| row[time_col] is Some),
{
    lemma_kept_of_first(chunk, time_col, chunk.len() as int);
    assert(chunk.take(chunk.len() as int) =~= chunk);
}

proof fn lemma_kept_of_first(chunk: Seq<(Op, RowView)>, time_col: int, i: int)
    requires
        0 <= i <= chunk.len(),
    ensures
        timed(chunk, time_col, i) == chunk.take(i).map_values(|c: (Op, RowView)| c.1).filter(
            |row: RowView| row[time_col] is Some,
        ),
    decreases i,
{
    reveal(Seq::filter);
    if i > 0 {
        lemma_kept_of_first(chunk, time_col, i - 1);
        let rows = chunk.take(i).map_values(|c: (Op, RowView)| c.1);
        assert(rows.drop_last() =~= chunk.take(i - 1).map_values(|c: (Op, RowView)| c.1));
        assert(rows.last() == chunk[i - 1].1);
    }
}

/// The row belongs to the partition: it has the columns of the key at the given indices.
pub open spec fn belongs(row: RowView, indices: Seq<usize>, key: RowView) -> bool {
    &&& key.len() == indices.len()
    &&& forall|j: int| 0 <= j < key.len() ==> row[indices[j] as int] == #[trigger] key[j]
}

/// What is noted for a partition is the order key of one of its rows, and no row of the partition
/// has an earlier one. Nothing is noted for a partition only where it got no row.
pub proof fn lemma_earliest_of_partition(
    rows: Seq<RowView>,
    time_col: int,
    indices: Seq<usize>,
    key: RowView,
)
    requires
        forall|i: int| 0 <= i < rows.len() ==> (#[trigger] rows[i])[time_col] is Some,
    ensures
        match earliest(rows, time_col, indices, key) {
            Some(k) => {
                &&& exists|i: int|
                    0 <= i < rows.len() && belongs(#[trigger] rows[i], indices, key)
                        && rows[i][time_col] == Some(k)
                &&& forall|i: int|
                    0 <= i < rows.len() && belongs(#[trigger] rows[i], indices, key) ==> !before(
                        rows[i][time_col]->Some_0,
                        k,
                    )
            },
            None => forall|i: int|
                0 <= i < rows.len() ==> !belongs(#[trigger] rows[i], indices, key),
        },
    decreases rows.len(),
{
    if rows.len() > 0 {
        let d = rows.drop_last();
        let last = rows.last();
        assert forall|i: int| 0 <= i < d.len() implies (#[trigger] d[i]) == rows[i] by {}
        assert forall|i: int| 0 <= i < d.len() implies (#[trigger] d[i])[time_col] is Some by {
            assert(rows[i][time_col] is Some);
        }
        lemma_earliest_of_partition(d, time_col, indices, key);
        let rest = earliest(d, time_col, indices, key);
        let all = earliest(rows, time_col, indices, key);
        assert(belongs(last, indices, key) <==> projected(last, indices) == key) by {
            if belongs(last, indices, key) {
                assert(projected(last, indices) =~= key);
            }
        }
        assert(rows[rows.len() - 1][time_col] is Some);
        let x = last[time_col]->Some_0;
        if rest is Some {
            let k = rest->Some_0;
            let w = choose|i: int|
                0 <= i < d.len() && belongs(#[trigger] d[i], indices, key) && d[i][time_col]
                    == Some(k);
            assert(belongs(rows[w], indices, key) && rows[w][time_col] == Some(k));
            lemma_before_is_total_order(x, k, x);
        }
        if all is Some {
            let k = all->Some_0;
            if belongs(last, indices, key) {
                lemma_before_is_total_order(x, x, x);
                assert(belongs(rows[rows.len() - 1], indices, key));
            }
            assert forall|i: int|
                0 <= i < rows.len() && belongs(#[trigger] rows[i], indices, key) implies !before(
                rows[i][time_col]->Some_0,
                k,
            ) by {
                if i < d.len() {
                    assert(belongs(d[i], indices, key));
                    let y = d[i][time_col]->Some_0;
                    if rest is Some {
                        lemma_before_is_total_order(y, x, rest->Some_0);
                    }
                }
            }
        } else {
            assert forall|i: int| 0 <= i < rows.len() implies !belongs(
                #[trigger] rows[i],
                indices,
                key,
            ) by {
                if i < d.len() {
                    assert(!belongs(d[i], indices, key));
                }
            }
        }
    }
}

} // verus!
