//! The wakeup frontier: when each partition needs attention next.
//!
//! Two tables hold it. The meta table has the next wakeup of a partition by its key. The index
//! table has the wakeup first, so that a scan in key order meets the partitions that are due before
//! all others. Both tables change together.

use crate::datum::{
    before, datum_clone, datum_view, lemma_before_is_total_order, row_clone, row_view, Datum,
    DatumView, RowView, Scalar, ScalarView,
};
use vstd::prelude::*;

verus! {

/// A write to one of the frontier tables.
#[derive(Debug, PartialEq, Eq)]
pub enum TableWrite {
    /// Insert the row into the meta table.
    MetaInsert(Vec<Datum>),
    /// Replace the first row by the second in the meta table.
    MetaUpdate(Vec<Datum>, Vec<Datum>),
    /// Delete the row from the meta table.
    MetaDelete(Vec<Datum>),
    /// Insert the row into the index table.
    IndexInsert(Vec<Datum>),
    /// Delete the row from the index table.
    IndexDelete(Vec<Datum>),
}

/// The model of a [`TableWrite`].
pub enum WriteView {
    MetaInsert(RowView),
    MetaUpdate(RowView, RowView),
    MetaDelete(RowView),
    IndexInsert(RowView),
    IndexDelete(RowView),
}

impl View for TableWrite {
    type V = WriteView;

    open spec fn view(&self) -> WriteView {
        match self {
            TableWrite::MetaInsert(r) => WriteView::MetaInsert(row_view(r@)),
            TableWrite::MetaUpdate(o, n) => WriteView::MetaUpdate(row_view(o@), row_view(n@)),
            TableWrite::MetaDelete(r) => WriteView::MetaDelete(row_view(r@)),
            TableWrite::IndexInsert(r) => WriteView::IndexInsert(row_view(r@)),
            TableWrite::IndexDelete(r) => WriteView::IndexDelete(row_view(r@)),
        }
    }
}

/// The model of a list of writes.
pub open spec fn write_views(l: Seq<TableWrite>) -> Seq<WriteView> {
    l.map_values(|w: TableWrite| w@)
}

/// The meta row of a partition.
pub open spec fn meta_row(key: RowView, wakeup: ScalarView) -> RowView {
    key.push(Some(wakeup))
}

/// The index row of a partition.
pub open spec fn index_row(key: RowView, wakeup: ScalarView) -> RowView {
    seq![Some(wakeup)] + key
}

/// The lesser of a running minimum and a key.
pub open spec fn lower(acc: DatumView, k: ScalarView) -> DatumView {
    match acc {
        None => Some(k),
        Some(m) => if before(k, m) {
            Some(k)
        } else {
            Some(m)
        },
    }
}

/// Fold a key into a running minimum.
pub fn fold_min(acc: &mut Datum, k: &Scalar)
    ensures
        datum_view(*final(acc)) == lower(datum_view(*old(acc)), k@),
{
    let replace: bool = match acc {
        Some(m) => k.less(m),
        None => true,
    };
    if replace {
        *acc = Some(k.clone());
    }
}

/// `key` and the wakeup.
fn key_then(key: &Vec<Datum>, wakeup: &Scalar) -> (r: Vec<Datum>)
    ensures
        row_view(r@) == meta_row(row_view(key@), wakeup@),
{
    let mut r = row_clone(key);
    let ghost prior = r@;
    let d: Datum = Some(wakeup.clone());
    r.push(d);
    assert(row_view(r@) =~= row_view(prior).push(datum_view(d)));
    r
}

/// The wakeup and `key`.
fn then_key(wakeup: &Scalar, key: &Vec<Datum>) -> (r: Vec<Datum>)
    ensures
        row_view(r@) == index_row(row_view(key@), wakeup@),
{
    let mut r: Vec<Datum> = Vec::new();
    r.push(Some(wakeup.clone()));
    let mut i: usize = 0;
    let ghost kv = row_view(key@);
    assert(row_view(r@) =~= seq![Some(wakeup@)] + kv.take(0));
    while i < key.len()
        invariant
            i <= key@.len(),
            kv == row_view(key@),
            row_view(r@) == seq![Some(wakeup@)] + kv.take(i as int),
        decreases key@.len() - i,
    {
        let ghost prior = r@;
        let d = datum_clone(&key[i]);
        r.push(d);
        assert(row_view(r@) =~= row_view(prior).push(datum_view(d)));
        assert(kv.take(i + 1) =~= kv.take(i as int).push(kv[i as int]));
        assert(seq![Some(wakeup@)] + kv.take(i + 1) =~= (seq![Some(wakeup@)] + kv.take(
            i as int,
        )).push(kv[i as int]));
        i = i + 1;
    }
    assert(kv.take(i as int) =~= kv);
    r
}

/// The writes that point a partition's wakeup at `new_min` on an insert: none if it has an earlier
/// or equal wakeup.
pub open spec fn insert_writes(wakeup: DatumView, key: RowView, new_min: ScalarView) -> Seq<
    WriteView,
> {
    match wakeup {
        None => seq![
            WriteView::MetaInsert(meta_row(key, new_min)),
            WriteView::IndexInsert(index_row(key, new_min)),
        ],
        Some(ow) => if before(new_min, ow) {
            seq![
                WriteView::MetaUpdate(meta_row(key, ow), meta_row(key, new_min)),
                WriteView::IndexDelete(index_row(key, ow)),
                WriteView::IndexInsert(index_row(key, new_min)),
            ]
        } else {
            Seq::empty()
        },
    }
}

/// The wakeup in a partition's meta row.
pub open spec fn wakeup_in(meta: Option<Vec<Datum>>) -> DatumView {
    match meta {
        None => None,
        Some(row) => row_view(row@).last(),
    }
}

/// Point a partition's wakeup at `new_min`, the earliest order key that a chunk brings, if the
/// partition has no wakeup or a later one. `meta` is its row in the meta table.
pub fn update_frontier_on_insert(
    meta: &Option<Vec<Datum>>,
    partition_key: &Vec<Datum>,
    new_min: &Scalar,
) -> (r: Vec<TableWrite>)
    requires
        *meta matches Some(row) ==> exists|ow: ScalarView|
            row_view(row@) == #[trigger] meta_row(row_view(partition_key@), ow),
    ensures
        write_views(r@) == insert_writes(
            wakeup_in(*meta),
            row_view(partition_key@),
            new_min@,
        ),
{
    let ghost key = row_view(partition_key@);
    let mut r: Vec<TableWrite> = Vec::new();
    match meta {
        None => {
            r.push(TableWrite::MetaInsert(key_then(partition_key, new_min)));
            r.push(TableWrite::IndexInsert(then_key(new_min, partition_key)));
        },
        Some(row) => {
            let ghost ow0 = choose|ow: ScalarView|
                row_view(row@) == #[trigger] meta_row(key, ow);
            assert(row_view(row@).last() == Some(ow0));
            assert(row@.len() == key.len() + 1) by {
                assert(row_view(row@).len() == row@.len());
            }
            match &row[row.len() - 1] {
                Some(ow) => {
                    if new_min.less(ow) {
                        r.push(
                            TableWrite::MetaUpdate(
                                key_then(partition_key, ow),
                                key_then(partition_key, new_min),
                            ),
                        );
                        r.push(TableWrite::IndexDelete(then_key(ow, partition_key)));
                        r.push(TableWrite::IndexInsert(then_key(new_min, partition_key)));
                    }
                },
                None => {},
            }
        },
    }
    assert(write_views(r@) =~= insert_writes(wakeup_in(*meta), key, new_min@));
    r
}

/// The writes that remove a partition's wakeup.
pub open spec fn remove_writes(key: RowView, old_wakeup: ScalarView) -> Seq<WriteView> {
    seq![
        WriteView::IndexDelete(index_row(key, old_wakeup)),
        WriteView::MetaDelete(meta_row(key, old_wakeup)),
    ]
}

/// Remove a partition's wakeup.
pub fn remove_frontier(partition_key: &Vec<Datum>, old_wakeup: &Scalar) -> (r: Vec<TableWrite>)
    ensures
        write_views(r@) == remove_writes(row_view(partition_key@), old_wakeup@),
{
    let mut r: Vec<TableWrite> = Vec::new();
    r.push(TableWrite::IndexDelete(then_key(old_wakeup, partition_key)));
    r.push(TableWrite::MetaDelete(key_then(partition_key, old_wakeup)));
    assert(write_views(r@) =~= remove_writes(row_view(partition_key@), old_wakeup@));
    r
}

/// The writes that move a partition's wakeup.
pub open spec fn move_writes(key: RowView, old_wakeup: ScalarView, new_wakeup: ScalarView) -> Seq<
    WriteView,
> {
    seq![
        WriteView::IndexDelete(index_row(key, old_wakeup)),
        WriteView::IndexInsert(index_row(key, new_wakeup)),
        WriteView::MetaUpdate(meta_row(key, old_wakeup), meta_row(key, new_wakeup)),
    ]
}

/// Move a partition's wakeup.
pub fn move_frontier(partition_key: &Vec<Datum>, old_wakeup: &Scalar, new_wakeup: &Scalar) -> (r:
    Vec<TableWrite>)
    ensures
        write_views(r@) == move_writes(row_view(partition_key@), old_wakeup@, new_wakeup@),
{
    let mut r: Vec<TableWrite> = Vec::new();
    r.push(TableWrite::IndexDelete(then_key(old_wakeup, partition_key)));
    r.push(TableWrite::IndexInsert(then_key(new_wakeup, partition_key)));
    r.push(
        TableWrite::MetaUpdate(
            key_then(partition_key, old_wakeup),
            key_then(partition_key, new_wakeup),
        ),
    );
    assert(write_views(r@) =~= move_writes(row_view(partition_key@), old_wakeup@, new_wakeup@));
    r
}

/// The two tables: the wakeup of each partition, and the rows of the index.
pub struct Frontier {
    pub meta: Map<RowView, ScalarView>,
    pub index: Set<RowView>,
}

/// The tables after a write; `None` where the write does not apply: an insert of a row that is
/// there, or a delete or an update of one that is not.
pub open spec fn written(f: Frontier, w: WriteView) -> Option<Frontier> {
    match w {
        WriteView::MetaInsert(r) => if r.len() > 0 && r.last() is Some
            && !f.meta.dom().contains(r.drop_last()) {
            Some(Frontier { meta: f.meta.insert(r.drop_last(), r.last()->Some_0), index: f.index })
        } else {
            None
        },
        WriteView::MetaUpdate(o, n) => if o.len() > 0 && n.len() > 0 && n.last() is Some
            && o.drop_last() == n.drop_last() && f.meta.dom().contains(o.drop_last()) && Some(
            f.meta[o.drop_last()],
        ) == o.last() {
            Some(Frontier { meta: f.meta.insert(n.drop_last(), n.last()->Some_0), index: f.index })
        } else {
            None
        },
        WriteView::MetaDelete(r) => if r.len() > 0 && f.meta.dom().contains(r.drop_last()) && Some(
            f.meta[r.drop_last()],
        ) == r.last() {
            Some(Frontier { meta: f.meta.remove(r.drop_last()), index: f.index })
        } else {
            None
        },
        WriteView::IndexInsert(r) => if !f.index.contains(r) {
            Some(Frontier { meta: f.meta, index: f.index.insert(r) })
        } else {
            None
        },
        WriteView::IndexDelete(r) => if f.index.contains(r) {
            Some(Frontier { meta: f.meta, index: f.index.remove(r) })
        } else {
            None
        },
    }
}

/// The tables after writes.
pub open spec fn written_all(f: Frontier, ws: Seq<WriteView>) -> Option<Frontier>
    decreases ws.len(),
{
    if ws.len() == 0 {
        Some(f)
    } else {
        match written(f, ws[0]) {
            None => None,
            Some(n) => written_all(n, ws.drop_first()),
        }
    }
}

/// The tables agree: the index has one row for each partition, with the wakeup of the meta table.
pub open spec fn lockstep(f: Frontier) -> bool {
    forall|r: RowView| #[trigger]
        f.index.contains(r) <==> exists|k: RowView|
            #[trigger] f.meta.dom().contains(k) && r == index_row(k, f.meta[k])
}

proof fn lemma_index_row(a: RowView, x: ScalarView, b: RowView, y: ScalarView)
    ensures
        index_row(a, x) == index_row(b, y) ==> a == b && x == y,
{
    if index_row(a, x) == index_row(b, y) {
        assert(index_row(a, x)[0] == index_row(b, y)[0]);
        assert(index_row(a, x).drop_first() =~= a);
        assert(index_row(b, y).drop_first() =~= b);
    }
}

proof fn lemma_meta_row(key: RowView, w: ScalarView)
    ensures
        meta_row(key, w).len() > 0,
        meta_row(key, w).drop_last() == key,
        meta_row(key, w).last() == Some(w),
{
    assert(meta_row(key, w).drop_last() =~= key);
}

/// Tables that agree, with a partition's wakeup set in both, agree.
proof fn lemma_lockstep_set(f: Frontier, g: Frontier, key: RowView, w: ScalarView)
    requires
        lockstep(f),
        g.meta == f.meta.insert(key, w),
        f.meta.dom().contains(key) ==> g.index == f.index.remove(
            index_row(key, f.meta[key]),
        ).insert(index_row(key, w)),
        !f.meta.dom().contains(key) ==> g.index == f.index.insert(index_row(key, w)),
    ensures
        lockstep(g),
{
    assert forall|r: RowView| #[trigger]
        g.index.contains(r) <==> exists|k: RowView|
            #[trigger] g.meta.dom().contains(k) && r == index_row(k, g.meta[k]) by {
        if g.index.contains(r) {
            if r == index_row(key, w) {
                assert(g.meta.dom().contains(key));
            } else {
                assert(f.index.contains(r));
                let k = choose|k: RowView|
                    #[trigger] f.meta.dom().contains(k) && r == index_row(k, f.meta[k]);
                assert(k != key);
                assert(g.meta.dom().contains(k));
            }
        }
        if exists|k: RowView|
            #[trigger] g.meta.dom().contains(k) && r == index_row(k, g.meta[k]) {
            let k = choose|k: RowView|
                #[trigger] g.meta.dom().contains(k) && r == index_row(k, g.meta[k]);
            if k != key {
                assert(f.meta.dom().contains(k));
                assert(f.index.contains(r));
                if f.meta.dom().contains(key) {
                    lemma_index_row(k, f.meta[k], key, f.meta[key]);
                }
            }
        }
    }
}

proof fn lemma_not_indexed(f: Frontier, key: RowView, w: ScalarView)
    requires
        lockstep(f),
        !f.meta.dom().contains(key) || f.meta[key] != w,
    ensures
        !f.index.contains(index_row(key, w)),
{
    if f.index.contains(index_row(key, w)) {
        let k = choose|k: RowView|
            #[trigger] f.meta.dom().contains(k) && index_row(key, w) == index_row(k, f.meta[k]);
        lemma_index_row(key, w, k, f.meta[k]);
    }
}

proof fn lemma_indexed(f: Frontier, key: RowView)
    requires
        lockstep(f),
        f.meta.dom().contains(key),
    ensures
        f.index.contains(index_row(key, f.meta[key])),
{
}

/// The law of an insert: tables that agree still agree, and the partition's wakeup is the earlier
/// of its wakeup and the new key.
pub proof fn lemma_insert_keeps_lockstep(f: Frontier, key: RowView, new_min: ScalarView)
    requires
        lockstep(f),
    ensures
        ({
            let wakeup = if f.meta.dom().contains(key) {
                Some(f.meta[key])
            } else {
                None
            };
            written_all(f, insert_writes(wakeup, key, new_min)) matches Some(g) && lockstep(g)
                && g.meta == f.meta.insert(key, lower(wakeup, new_min)->Some_0)
        }),
{
    reveal_with_fuel(written_all, 4);
    lemma_meta_row(key, new_min);
    if f.meta.dom().contains(key) {
        let ow = f.meta[key];
        lemma_meta_row(key, ow);
        lemma_indexed(f, key);
        let ws = insert_writes(Some(ow), key, new_min);
        if before(new_min, ow) {
            lemma_before_is_total_order(new_min, ow, ow);
            lemma_not_indexed(f, key, new_min);
            let w0 = index_row(key, ow);
            let w1 = index_row(key, new_min);
            lemma_index_row(key, ow, key, new_min);
            let g = Frontier {
                meta: f.meta.insert(key, new_min),
                index: f.index.remove(w0).insert(w1),
            };
            assert(ws.drop_first() =~= seq![
                WriteView::IndexDelete(w0),
                WriteView::IndexInsert(w1),
            ]);
            assert(ws.drop_first().drop_first() =~= seq![WriteView::IndexInsert(w1)]);
            assert(ws.drop_first().drop_first().drop_first() =~= Seq::empty());
            lemma_lockstep_set(f, g, key, new_min);
            assert(written_all(f, ws) == Some(g));
        } else {
            assert(f.meta.insert(key, ow) =~= f.meta);
        }
    } else {
        lemma_not_indexed(f, key, new_min);
        let ws = insert_writes(None, key, new_min);
        let w1 = index_row(key, new_min);
        let g = Frontier { meta: f.meta.insert(key, new_min), index: f.index.insert(w1) };
        assert(ws.drop_first() =~= seq![WriteView::IndexInsert(w1)]);
        assert(ws.drop_first().drop_first() =~= Seq::empty());
        lemma_lockstep_set(f, g, key, new_min);
        assert(written_all(f, ws) == Some(g));
    }
}

/// The law of a move: tables that agree still agree, and the partition's wakeup is the new one.
pub proof fn lemma_move_keeps_lockstep(f: Frontier, key: RowView, new_wakeup: ScalarView)
    requires
        lockstep(f),
        f.meta.dom().contains(key),
    ensures
        written_all(f, move_writes(key, f.meta[key], new_wakeup)) matches Some(g) && lockstep(g)
            && g.meta == f.meta.insert(key, new_wakeup),
{
    reveal_with_fuel(written_all, 4);
    let ow = f.meta[key];
    lemma_meta_row(key, ow);
    lemma_meta_row(key, new_wakeup);
    lemma_indexed(f, key);
    if new_wakeup != ow {
        lemma_not_indexed(f, key, new_wakeup);
    }
    let ws = move_writes(key, ow, new_wakeup);
    let w0 = index_row(key, ow);
    let w1 = index_row(key, new_wakeup);
    let g = Frontier {
        meta: f.meta.insert(key, new_wakeup),
        index: f.index.remove(w0).insert(w1),
    };
    let last = WriteView::MetaUpdate(meta_row(key, ow), meta_row(key, new_wakeup));
    assert(ws.drop_first() =~= seq![WriteView::IndexInsert(w1), last]);
    assert(ws.drop_first().drop_first() =~= seq![last]);
    assert(ws.drop_first().drop_first().drop_first() =~= Seq::empty());
    lemma_lockstep_set(f, g, key, new_wakeup);
    assert(written_all(f, ws) == Some(g));
}

/// The law of a removal: tables that agree still agree, and the partition has no wakeup.
pub proof fn lemma_remove_keeps_lockstep(f: Frontier, key: RowView)
    requires
        lockstep(f),
        f.meta.dom().contains(key),
    ensures
        written_all(f, remove_writes(key, f.meta[key])) matches Some(g) && lockstep(g) && g.meta
            == f.meta.remove(key),
{
    reveal_with_fuel(written_all, 3);
    let ow = f.meta[key];
    lemma_meta_row(key, ow);
    lemma_indexed(f, key);
    let ws = remove_writes(key, ow);
    let w0 = index_row(key, ow);
    let g = Frontier { meta: f.meta.remove(key), index: f.index.remove(w0) };
    assert(ws.drop_first() =~= seq![WriteView::MetaDelete(meta_row(key, ow))]);
    assert(ws.drop_first().drop_first() =~= Seq::empty());
    assert(written_all(f, ws) == Some(g));
    assert forall|r: RowView| #[trigger]
        g.index.contains(r) <==> exists|k: RowView|
            #[trigger] g.meta.dom().contains(k) && r == index_row(k, g.meta[k]) by {
        if g.index.contains(r) {
            assert(f.index.contains(r));
            let k = choose|k: RowView|
                #[trigger] f.meta.dom().contains(k) && r == index_row(k, f.meta[k]);
            assert(k != key);
            assert(g.meta.dom().contains(k));
        }
        if exists|k: RowView|
            #[trigger] g.meta.dom().contains(k) && r == index_row(k, g.meta[k]) {
            let k = choose|k: RowView|
                #[trigger] g.meta.dom().contains(k) && r == index_row(k, g.meta[k]);
            assert(f.meta.dom().contains(k));
            assert(f.index.contains(r));
            lemma_index_row(k, f.meta[k], key, ow);
        }
    }
}

/// Whether no partition is due at watermark `w`, as far as the known lower bound of the wakeups
/// tells: `None` where no bound is known, `Some(None)` where there is no wakeup.
pub open spec fn idle(min_wakeup: Option<DatumView>, w: ScalarView) -> bool {
    match min_wakeup {
        None => false,
        Some(None) => true,
        Some(Some(k)) => before(w, k),
    }
}

/// The model of a lower bound.
pub open spec fn bound_view(b: Option<Datum>) -> Option<DatumView> {
    match b {
        Some(d) => Some(datum_view(d)),
        None => None,
    }
}

/// Whether no partition is due at watermark `w`, as far as the lower bound tells.
pub fn is_idle(min_wakeup: &Option<Datum>, w: &Scalar) -> (r: bool)
    ensures
        r == idle(bound_view(*min_wakeup), w@),
{
    match min_wakeup {
        None => false,
        Some(None) => true,
        Some(Some(k)) => w.less(k),
    }
}

/// `b` is a lower bound of the wakeups.
pub open spec fn bounds(b: Option<DatumView>, f: Frontier) -> bool {
    match b {
        None => true,
        Some(None) => f.meta =~= Map::empty(),
        Some(Some(m)) => forall|k: RowView| #[trigger]
            f.meta.dom().contains(k) ==> !before(f.meta[k], m),
    }
}

/// A watermark that is skipped as idle has no partition due.
pub proof fn lemma_idle_skips_nothing(b: Option<DatumView>, f: Frontier, w: ScalarView, k: RowView)
    requires
        bounds(b, f),
        idle(b, w),
        f.meta.dom().contains(k),
    ensures
        before(w, f.meta[k]),
{
    if let Some(Some(m)) = b {
        lemma_before_is_total_order(w, m, f.meta[k]);
        lemma_before_is_total_order(f.meta[k], w, m);
        lemma_before_is_total_order(f.meta[k], m, w);
    }
}

/// An insert keeps a lower bound, with the new key folded into it, a lower bound.
pub proof fn lemma_insert_keeps_bound(
    m: DatumView,
    f: Frontier,
    key: RowView,
    new_min: ScalarView,
)
    requires
        bounds(Some(m), f),
    ensures
        ({
            let wakeup = if f.meta.dom().contains(key) {
                Some(f.meta[key])
            } else {
                None
            };
            bounds(
                Some(lower(m, new_min)),
                Frontier {
                    meta: f.meta.insert(key, lower(wakeup, new_min)->Some_0),
                    index: f.index,
                },
            )
        }),
{
    let wakeup = if f.meta.dom().contains(key) {
        Some(f.meta[key])
    } else {
        None
    };
    let nw = lower(wakeup, new_min)->Some_0;
    let meta = f.meta.insert(key, nw);
    let b = lower(m, new_min)->Some_0;
    assert forall|k: RowView| #[trigger] meta.dom().contains(k) implies !before(meta[k], b) by {
        lemma_before_is_total_order(new_min, new_min, new_min);
        if let Some(x) = m {
            lemma_before_is_total_order(new_min, x, x);
            lemma_before_is_total_order(meta[k], new_min, x);
            lemma_before_is_total_order(new_min, meta[k], x);
            if k != key {
                assert(f.meta.dom().contains(k));
            }
        }
    }
}

/// Look at the next row of the index, whose rows come by ascending wakeup. A partition that is due
/// at watermark `w` is returned. At the first partition that is not due the scan ends, and its
/// wakeup is folded into `next_min`.
pub fn take_candidate(row: &Vec<Datum>, w: &Scalar, next_min: &mut Datum) -> (r: Option<
    (Scalar, Vec<Datum>),
>)
    requires
        row@.len() > 0,
    ensures
        match row_view(row@)[0] {
            Some(k) => if before(w@, k) {
                r is None && datum_view(*final(next_min)) == lower(datum_view(*old(next_min)), k)
            } else {
                r is Some && (r->Some_0).0@ == k && row_view((r->Some_0).1@) == row_view(
                    row@,
                ).drop_first() && datum_view(*final(next_min)) == datum_view(*old(next_min))
            },
            None => r is None && datum_view(*final(next_min)) == datum_view(*old(next_min)),
        },
{
    match &row[0] {
        None => None,
        Some(k) => {
            if w.less(k) {
                fold_min(next_min, k);
                None
            } else {
                let mut key: Vec<Datum> = Vec::new();
                let mut i: usize = 1;
                let ghost rv = row_view(row@);
                assert(row_view(key@) =~= rv.subrange(1, 1));
                while i < row.len()
                    invariant
                        1 <= i <= row@.len(),
                        rv == row_view(row@),
                        row_view(key@) == rv.subrange(1, i as int),
                    decreases row@.len() - i,
                {
                    let ghost prior = key@;
                    let d = datum_clone(&row[i]);
                    key.push(d);
                    assert(row_view(key@) =~= row_view(prior).push(datum_view(d)));
                    assert(rv.subrange(1, i + 1) =~= rv.subrange(1, i as int).push(rv[i as int]));
                    i = i + 1;
                }
                assert(rv.subrange(1, i as int) =~= rv.drop_first());
                Some((k.clone(), key))
            }
        },
    }
}

/// The index rows come by ascending wakeup.
pub open spec fn by_wakeup(rows: Seq<RowView>) -> bool {
    forall|i: int, j: int|
        0 <= i < j < rows.len() ==> (match ((#[trigger] rows[i])[0], (#[trigger] rows[j])[0]) {
            (Some(a), Some(b)) => !before(b, a),
            _ => false,
        })
}

/// The scan of the index misses no partition that is due: behind the first one that is not due
/// there is none.
pub proof fn lemma_scan_misses_nothing(rows: Seq<RowView>, w: ScalarView, i: int, j: int)
    requires
        by_wakeup(rows),
        0 <= i < j < rows.len(),
        rows[i][0] matches Some(k) && before(w, k),
    ensures
        rows[j][0] matches Some(k) && before(w, k),
{
    let a = rows[i][0]->Some_0;
    match (rows[i][0], rows[j][0]) {
        (Some(x), Some(y)) => {
            assert(!before(y, x));
            lemma_before_is_total_order(w, x, y);
            lemma_before_is_total_order(y, w, x);
            lemma_before_is_total_order(y, x, w);
        },
        _ => {},
    }
}

/// The lesser of a running minimum and a key is one of the two, and neither comes before it.
pub proof fn lemma_lower(acc: DatumView, k: ScalarView)
    ensures
        lower(acc, k) matches Some(m) && (m == k || acc == Some(m)) && !before(k, m) && (
        acc matches Some(a) ==> !before(a, m)),
{
    lemma_before_is_total_order(k, k, k);
    if let Some(a) = acc {
        lemma_before_is_total_order(k, a, a);
        lemma_before_is_total_order(a, k, a);
    }
}

/// What the tables hold of a partition is read back from their rows: the wakeup from the first column
/// of its index row and the key from the others, and the wakeup from the last column of its meta row
/// and the key from the others.
pub proof fn lemma_frontier_rows_are_read_back(key: RowView, wakeup: ScalarView)
    ensures
        index_row(key, wakeup)[0] == Some(wakeup),
        index_row(key, wakeup).drop_first() == key,
        meta_row(key, wakeup).last() == Some(wakeup),
        meta_row(key, wakeup).drop_last() == key,
{
    assert(index_row(key, wakeup).drop_first() =~= key);
    assert(meta_row(key, wakeup).drop_last() =~= key);
}

/// Which writes an insertion takes: both rows of a partition that has no wakeup; the old rows out and
/// the new ones in where the new wakeup is earlier; none where it is not.
pub proof fn lemma_writes_of_insertion(wakeup: DatumView, key: RowView, new_min: ScalarView)
    ensures
        ({
            let ws = insert_writes(wakeup, key, new_min);
            let row = key.push(Some(new_min));
            let entry = seq![Some(new_min)] + key;
            &&& wakeup is None ==> ws.len() == 2 && ws[0] == WriteView::MetaInsert(row) && ws[1]
                == WriteView::IndexInsert(entry)
            &&& wakeup matches Some(ow) ==> if before(new_min, ow) {
                &&& ws.len() == 3
                &&& ws[0] == WriteView::MetaUpdate(key.push(Some(ow)), row)
                &&& ws[1] == WriteView::IndexDelete(seq![Some(ow)] + key)
                &&& ws[2] == WriteView::IndexInsert(entry)
            } else {
                ws.len() == 0
            }
        }),
{
}

/// Whether partitions can be due: none is where no partition has a wakeup or the watermark comes
/// before the bound, and one may be where the bound is not known or the watermark has reached it.
pub proof fn lemma_when_idle(b: DatumView, w: ScalarView)
    ensures
        !idle(None, w),
        idle(Some(b), w) <==> (b matches Some(k) ==> before(w, k)),
{
}

} // verus!
