//! Grouping the rows of a scan by partition.

use crate::buffer::{buffer_view, BufferView, BufferedRow};
use crate::datum::{row_same, row_view, Datum, RowView};
use vstd::prelude::*;

verus! {

/// The rows of one partition.
pub struct PartitionRows {
    pub key: Vec<Datum>,
    pub rows: Vec<BufferedRow>,
}

/// The model of a [`PartitionRows`].
pub struct GroupView {
    pub key: RowView,
    pub rows: Seq<BufferView>,
}

impl View for PartitionRows {
    type V = GroupView;

    open spec fn view(&self) -> GroupView {
        GroupView { key: row_view(self.key@), rows: buffer_view(self.rows@) }
    }
}

/// Groups the rows of a scan in which the rows of a partition come one after the other.
pub struct Grouper {
    current: Option<PartitionRows>,
}

/// The group that is open, with a row added: the group that is finished by it, and the open one.
pub open spec fn grouped(open_group: Option<GroupView>, key: RowView, row: BufferView) -> (
    Option<GroupView>,
    GroupView,
) {
    match open_group {
        Some(g) => if g.key == key {
            (None, GroupView { key, rows: g.rows.push(row) })
        } else {
            (Some(g), GroupView { key, rows: seq![row] })
        },
        None => (None, GroupView { key, rows: seq![row] }),
    }
}

/// The model of a group that may be there.
pub open spec fn group_view(g: Option<PartitionRows>) -> Option<GroupView> {
    match g {
        Some(g) => Some(g@),
        None => None,
    }
}

impl Grouper {
    /// The group that is open.
    pub closed spec fn open_group(&self) -> Option<GroupView> {
        group_view(self.current)
    }

    /// No group is open.
    pub fn new() -> (r: Self)
        ensures
            r.open_group() is None,
    {
        Grouper { current: None }
    }

    /// Add the next row of the scan. Returns the group that is finished by it, if it begins
    /// another.
    pub fn push(&mut self, key: Vec<Datum>, row: BufferedRow) -> (r: Option<PartitionRows>)
        ensures
            group_view(r) == grouped(old(self).open_group(), row_view(key@), row@).0,
            final(self).open_group() == Some(
                grouped(old(self).open_group(), row_view(key@), row@).1,
            ),
    {
        match self.current.take() {
            Some(mut g) => {
                if row_same(&g.key, &key) {
                    let ghost before = g.rows@;
                    g.rows.push(row);
                    assert(buffer_view(g.rows@) =~= buffer_view(before).push(row@));
                    self.current = Some(g);
                    None
                } else {
                    let mut rows: Vec<BufferedRow> = Vec::new();
                    rows.push(row);
                    assert(buffer_view(rows@) =~= seq![row@]);
                    self.current = Some(PartitionRows { key, rows });
                    Some(g)
                }
            },
            None => {
                let mut rows: Vec<BufferedRow> = Vec::new();
                rows.push(row);
                assert(buffer_view(rows@) =~= seq![row@]);
                self.current = Some(PartitionRows { key, rows });
                None
            },
        }
    }

    /// The scan has ended: the group that is open is finished.
    pub fn finish(&mut self) -> (r: Option<PartitionRows>)
        ensures
            group_view(r) == old(self).open_group(),
            final(self).open_group() is None,
    {
        self.current.take()
    }
}

/// The groups that a scan finishes up to row `i`, and the group that is open then.
pub open spec fn scanned(rows: Seq<(RowView, BufferView)>, i: int) -> (
    Seq<GroupView>,
    Option<GroupView>,
)
    decreases i,
{
    if i <= 0 {
        (Seq::empty(), None)
    } else {
        let (done, open_group) = scanned(rows, i - 1);
        let (finished, next) = grouped(open_group, rows[i - 1].0, rows[i - 1].1);
        match finished {
            Some(g) => (done.push(g), Some(next)),
            None => (done, Some(next)),
        }
    }
}

/// The rows of a group.
pub open spec fn flat(g: GroupView) -> Seq<(RowView, BufferView)> {
    g.rows.map_values(|r: BufferView| (g.key, r))
}

/// The rows of groups, one after the other.
pub open spec fn flat_all(l: Seq<GroupView>) -> Seq<(RowView, BufferView)>
    decreases l.len(),
{
    if l.len() == 0 {
        Seq::empty()
    } else {
        flat_all(l.drop_last()) + flat(l.last())
    }
}

/// The rows of a partition come one after the other.
pub open spec fn contiguous(rows: Seq<(RowView, BufferView)>) -> bool {
    forall|i: int, j: int, k: int|
        0 <= i <= j <= k < rows.len() && (#[trigger] rows[i]).0 == (#[trigger] rows[k]).0 ==> (
        #[trigger] rows[j]).0 == rows[i].0
}

/// No two groups have the same key.
pub open spec fn distinct_keys(l: Seq<GroupView>) -> bool {
    forall|i: int, j: int| 0 <= i < j < l.len() ==> (#[trigger] l[i]).key != (#[trigger] l[j]).key
}

/// The groups that are finished, and the one that is open.
pub open spec fn all_groups(s: (Seq<GroupView>, Option<GroupView>)) -> Seq<GroupView> {
    match s.1 {
        Some(g) => s.0.push(g),
        None => s.0,
    }
}

proof fn lemma_finished_is_over(rows: Seq<(RowView, BufferView)>, i: int)
    requires
        contiguous(rows),
        0 <= i <= rows.len(),
    ensures
        distinct_keys(scanned(rows, i).0),
        i > 0 ==> (scanned(rows, i).1 matches Some(g) && g.key == rows[i - 1].0),
        i == 0 ==> scanned(rows, i).1 is None,
        forall|a: int, j: int|
            0 <= a < scanned(rows, i).0.len() && i - 1 <= j < rows.len() && 0 <= j ==> (
            #[trigger] scanned(rows, i).0[a]).key != (#[trigger] rows[j]).0,
    decreases i,
{
    if i > 0 {
        lemma_finished_is_over(rows, i - 1);
        let (done, open_group) = scanned(rows, i - 1);
        let now = scanned(rows, i).0;
        if let Some(g) = open_group {
            assert(g.key == rows[i - 2].0);
            assert forall|a: int, j: int|
                0 <= a < now.len() && i - 1 <= j < rows.len() && 0 <= j implies (
            #[trigger] now[a]).key != (#[trigger] rows[j]).0 by {
                if a < done.len() {
                    assert(now[a] == done[a]);
                } else {
                    assert(now[a] == g);
                    assert(rows[i - 1].0 != g.key);
                    if rows[j].0 == g.key {
                        assert(rows[i - 2].0 == rows[j].0);
                        assert(rows[i - 1].0 == rows[i - 2].0);
                    }
                }
            }
            assert forall|a: int, c: int| 0 <= a < c < now.len() implies (#[trigger] now[a]).key
                != (#[trigger] now[c]).key by {
                if c < done.len() {
                    assert(done[a].key != done[c].key);
                } else {
                    assert(done[a].key != rows[i - 2].0);
                }
            }
        }
    }
}

/// A pass over rows in which those of a partition come one after the other gives each partition
/// once: no two groups have the same key, the open one included.
pub proof fn lemma_each_partition_once(rows: Seq<(RowView, BufferView)>, i: int)
    requires
        contiguous(rows),
        0 <= i <= rows.len(),
    ensures
        distinct_keys(all_groups(scanned(rows, i))),
{
    lemma_finished_is_over(rows, i);
    let (done, open_group) = scanned(rows, i);
    let l = all_groups((done, open_group));
    if i > 0 {
        assert forall|a: int, c: int| 0 <= a < c < l.len() implies (#[trigger] l[a]).key != (
        #[trigger] l[c]).key by {
            assert(l[a] == done[a]);
            if c < done.len() {
                assert(done[a].key != done[c].key);
            } else {
                assert(done[a].key != rows[i - 1].0);
            }
        }
    }
}

/// Grouping loses no row and changes no order: the rows of the groups, one after the other, are the
/// rows of the scan.
pub proof fn lemma_grouping_keeps_rows(rows: Seq<(RowView, BufferView)>, i: int)
    requires
        0 <= i <= rows.len(),
    ensures
        rows.take(i) == flat_all(scanned(rows, i).0) + (match scanned(rows, i).1 {
            Some(g) => flat(g),
            None => Seq::empty(),
        }),
        i > 0 ==> scanned(rows, i).1 is Some,
    decreases i,
{
    if i == 0 {
        assert(rows.take(0) =~= Seq::empty());
    } else {
        lemma_grouping_keeps_rows(rows, i - 1);
        let (done, open_group) = scanned(rows, i - 1);
        let (key, row) = rows[i - 1];
        let (finished, next) = grouped(open_group, key, row);
        assert(rows.take(i) =~= rows.take(i - 1).push(rows[i - 1]));
        match open_group {
            Some(g) => {
                if g.key == key {
                    assert(flat(next) =~= flat(g).push((key, row)));
                    assert(flat_all(done) + flat(next) =~= (flat_all(done) + flat(g)).push(
                        (key, row),
                    ));
                } else {
                    assert(flat(next) =~= seq![(key, row)]);
                    assert(done.push(g).drop_last() =~= done);
                    assert(flat_all(done.push(g)) == flat_all(done) + flat(g));
                    assert(flat_all(done.push(g)) + flat(next) =~= (flat_all(done) + flat(
                        g,
                    )).push((key, row)));
                }
            },
            None => {
                assert(flat(next) =~= seq![(key, row)]);
                assert(flat_all(done) + flat(next) =~= (flat_all(done) + Seq::empty()).push(
                    (key, row),
                ));
            },
        }
    }
}

} // verus!
