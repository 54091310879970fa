//! The changelog of a partition's matches.
//!
//! What was told downstream last is the base. A new set of matches is told as the changes from the
//! base: what is gone is deleted, what is new is inserted, and what changed is deleted and inserted
//! again. The matches are identified by the seq of their first row.

use crate::datum::{row_clone, row_same, row_view, Datum, RowView, ScalarView};
use crate::incremental::{SeqMatch, SeqSpan};
use crate::names::names_same;
use crate::plan::Op;
use vstd::prelude::*;

verus! {

/// A match that was emitted, and its output row.
pub type Emitted = (SeqMatch, Vec<Datum>);

/// The model of an [`Emitted`].
pub type EmittedView = (SeqSpan, RowView);

/// The model of a list of emitted matches.
pub open spec fn emitted_view(l: Seq<Emitted>) -> Seq<EmittedView> {
    l.map_values(|e: Emitted| (e.0@, row_view(e.1@)))
}

/// The model of a list of changes.
pub open spec fn ops_view(l: Seq<(Op, Vec<Datum>)>) -> Seq<(Op, RowView)> {
    l.map_values(|c: (Op, Vec<Datum>)| (c.0, row_view(c.1@)))
}

/// The place from `i` on of the match with the identity `id`.
pub open spec fn place(l: Seq<EmittedView>, id: int, i: int) -> Option<int>
    decreases l.len() - i,
{
    if i < 0 || i >= l.len() {
        None
    } else if l[i].0.start_seq == id {
        Some(i)
    } else {
        place(l, id, i + 1)
    }
}

/// The match with the identity `id`.
pub open spec fn entry(l: Seq<EmittedView>, id: int) -> Option<EmittedView> {
    match place(l, id, 0) {
        Some(i) => Some(l[i]),
        None => None,
    }
}

/// The changes of one match.
pub open spec fn change(old_entry: Option<EmittedView>, new_entry: Option<EmittedView>) -> Seq<
    (Op, RowView),
> {
    match (old_entry, new_entry) {
        (None, None) => Seq::empty(),
        (None, Some(n)) => seq![(Op::Insert, n.1)],
        (Some(o), None) => seq![(Op::Delete, o.1)],
        (Some(o), Some(n)) => if o == n {
            Seq::empty()
        } else {
            seq![(Op::Delete, o.1), (Op::Insert, n.1)]
        },
    }
}

/// The changes of the matches with the identities `ids` from index `i` on.
pub open spec fn changes(
    ids: Seq<i64>,
    prev: Seq<EmittedView>,
    new: Seq<EmittedView>,
    i: int,
) -> Seq<(Op, RowView)>
    decreases ids.len() - i,
{
    if i < 0 || i >= ids.len() {
        Seq::empty()
    } else {
        change(entry(prev, ids[i] as int), entry(new, ids[i] as int)) + changes(
            ids,
            prev,
            new,
            i + 1,
        )
    }
}

/// The identities ascend.
pub open spec fn ascending(ids: Seq<i64>) -> bool {
    forall|i: int, j: int| 0 <= i < j < ids.len() ==> #[trigger] ids[i] < #[trigger] ids[j]
}

/// `ids` are the identities of the matches of the two lists, ascending.
pub open spec fn identities(ids: Seq<i64>, prev: Seq<EmittedView>, new: Seq<EmittedView>) -> bool {
    &&& ascending(ids)
    &&& forall|k: i64| #[trigger]
        ids.contains(k) <==> (entry(prev, k as int) is Some || entry(new, k as int) is Some)
}

/// There is one list of ascending identities.
pub proof fn lemma_identities_unique(
    a: Seq<i64>,
    b: Seq<i64>,
    prev: Seq<EmittedView>,
    new: Seq<EmittedView>,
)
    requires
        identities(a, prev, new),
        identities(b, prev, new),
    ensures
        a == b,
{
    assert forall|k: i64| a.contains(k) <==> b.contains(k) by {
        assert(a.contains(k) <==> (entry(prev, k as int) is Some || entry(new, k as int) is Some));
    }
    lemma_ascending_unique(a, b);
}

proof fn lemma_ascending_unique(a: Seq<i64>, b: Seq<i64>)
    requires
        ascending(a),
        ascending(b),
        forall|k: i64| a.contains(k) <==> b.contains(k),
    ensures
        a == b,
    decreases a.len(),
{
    if a.len() == 0 {
        if b.len() > 0 {
            assert(b.contains(b[0]));
            assert(a.contains(b[0]));
        }
        assert(a =~= b);
    } else {
        assert(a.contains(a.last()));
        assert(b.contains(a.last()));
        assert(b.contains(b.last()));
        assert(a.contains(b.last()));
        let i = choose|i: int| 0 <= i < b.len() && b[i] == a.last();
        let j = choose|j: int| 0 <= j < a.len() && a[j] == b.last();
        assert(a.last() == b.last()) by {
            if i < b.len() - 1 {
                assert(b[i] < b[b.len() - 1]);
                if j < a.len() - 1 {
                    assert(a[j] < a[a.len() - 1]);
                }
            }
        }
        let da = a.drop_last();
        let db = b.drop_last();
        assert forall|k: i64| da.contains(k) <==> db.contains(k) by {
            lemma_drop_last_contains(a, k);
            lemma_drop_last_contains(b, k);
        }
        lemma_ascending_unique(da, db);
        assert(a =~= da.push(a.last()));
        assert(b =~= db.push(b.last()));
    }
}

proof fn lemma_drop_last_contains(a: Seq<i64>, k: i64)
    requires
        ascending(a),
        a.len() > 0,
    ensures
        a.drop_last().contains(k) <==> (a.contains(k) && k != a.last()),
{
    if a.drop_last().contains(k) {
        let i = choose|i: int| 0 <= i < a.len() - 1 && a.drop_last()[i] == k;
        assert(a[i] == k);
        assert(a[i] < a[a.len() - 1]);
    }
    if a.contains(k) && k != a.last() {
        let i = choose|i: int| 0 <= i < a.len() && a[i] == k;
        assert(a.drop_last()[i] == k);
    }
}

/// Whether two matches have the same rows and variables.
fn match_same(a: &SeqMatch, b: &SeqMatch) -> (r: bool)
    ensures
        r == (a@ == b@),
{
    let r: bool = a.start_seq == b.start_seq && a.end_seq == b.end_seq && names_same(
        &a.labels,
        &b.labels,
    );
    proof {
        if a@ == b@ {
            assert(a@.start_seq == b@.start_seq && a@.end_seq == b@.end_seq);
            assert(a@.labels == b@.labels);
        }
    }
    r
}

/// The place of the match with the identity `id`.
fn find_place(l: &Vec<Emitted>, id: i64) -> (r: Option<usize>)
    ensures
        match r {
            Some(i) => i < l@.len() && place(emitted_view(l@), id as int, 0) == Some(i as int),
            None => place(emitted_view(l@), id as int, 0) is None,
        },
{
    let ghost v = emitted_view(l@);
    let mut i: usize = 0;
    while i < l.len()
        invariant
            i <= l@.len(),
            v == emitted_view(l@),
            place(v, id as int, 0) == place(v, id as int, i as int),
        decreases l@.len() - i,
    {
        assert(v[i as int].0 == l@[i as int].0@);
        if l[i].0.start_seq == id {
            return Some(i);
        }
        i = i + 1;
    }
    None
}

/// Put an identity into a list of ascending identities, unless it is there.
fn insert_id(ids: &mut Vec<i64>, id: i64)
    requires
        ascending(old(ids)@),
    ensures
        ascending(final(ids)@),
        forall|k: i64| #[trigger] final(ids)@.contains(k) <==> (old(ids)@.contains(k) || k == id),
{
    let ghost before = ids@;
    let mut at: usize = 0;
    while at < ids.len() && ids[at] < id
        invariant
            at <= ids@.len(),
            ids@ == before,
            forall|j: int| 0 <= j < at ==> #[trigger] before[j] < id,
        decreases ids@.len() - at,
    {
        at = at + 1;
    }
    if at < ids.len() && ids[at] == id {
        assert(before.contains(id)) by {
            assert(before[at as int] == id);
        }
        return;
    }
    ids.insert(at, id);
    proof {
        assert(ids@ =~= before.insert(at as int, id));
        assert forall|j: int| at <= j < before.len() implies id < #[trigger] before[j] by {
            if j > at {
                assert(before[at as int] < before[j]);
            }
        }
        assert forall|i: int, j: int| 0 <= i < j < ids@.len() implies #[trigger] ids@[i]
            < #[trigger] ids@[j] by {
            let x = if i < at { i } else { i - 1 };
            let y = if j < at { j } else { j - 1 };
            if i != at && j != at {
                assert(before[x] < before[y]);
            }
        }
        assert forall|k: i64| #[trigger] ids@.contains(k) <==> (before.contains(k) || k == id) by {
            if ids@.contains(k) {
                let i = choose|i: int| 0 <= i < ids@.len() && ids@[i] == k;
                if i < at {
                    assert(before[i] == k);
                } else if i > at {
                    assert(before[i - 1] == k);
                }
            }
            if before.contains(k) {
                let i = choose|i: int| 0 <= i < before.len() && before[i] == k;
                if i < at {
                    assert(ids@[i] == k);
                } else {
                    assert(ids@[i + 1] == k);
                }
            }
            if k == id {
                assert(ids@[at as int] == k);
            }
        }
    }
}

/// What a place is.
pub proof fn lemma_place(l: Seq<EmittedView>, id: int, i: int)
    requires
        0 <= i <= l.len(),
    ensures
        match place(l, id, i) {
            Some(k) => i <= k < l.len() && l[k].0.start_seq == id && forall|j: int|
                i <= j < k ==> (#[trigger] l[j]).0.start_seq != id,
            None => forall|j: int| i <= j < l.len() ==> (#[trigger] l[j]).0.start_seq != id,
        },
    decreases l.len() - i,
{
    if i < l.len() && l[i].0.start_seq != id {
        lemma_place(l, id, i + 1);
    }
}

/// Put the identities of a list of matches into a list of ascending identities.
fn insert_ids(ids: &mut Vec<i64>, l: &Vec<Emitted>)
    requires
        ascending(old(ids)@),
    ensures
        ascending(final(ids)@),
        forall|k: i64| #[trigger]
            final(ids)@.contains(k) <==> (old(ids)@.contains(k) || entry(
                emitted_view(l@),
                k as int,
            ) is Some),
{
    let ghost v = emitted_view(l@);
    let mut i: usize = 0;
    while i < l.len()
        invariant
            i <= l@.len(),
            v == emitted_view(l@),
            ascending(ids@),
            forall|k: i64| #[trigger]
                ids@.contains(k) <==> (old(ids)@.contains(k) || exists|j: int|
                    0 <= j < i && (#[trigger] l@[j]).0.start_seq == k),
        decreases l@.len() - i,
    {
        insert_id(ids, l[i].0.start_seq);
        i = i + 1;
        assert forall|k: i64| #[trigger]
            ids@.contains(k) <==> (old(ids)@.contains(k) || exists|j: int|
                0 <= j < i && (#[trigger] l@[j]).0.start_seq == k) by {
            assert(l@[i - 1].0.start_seq == l[i - 1].0.start_seq);
        }
    }
    assert forall|k: i64| #[trigger]
        ids@.contains(k) <==> (old(ids)@.contains(k) || entry(v, k as int) is Some) by {
        lemma_place(v, k as int, 0);
        if let Some(p) = place(v, k as int, 0) {
            assert(l@[p].0.start_seq == k);
        } else {
            assert forall|j: int| 0 <= j < l@.len() implies (#[trigger] l@[j]).0.start_seq != k by {
                assert(v[j].0.start_seq == l@[j].0.start_seq);
            }
        }
    }
}

/// The changes from the matches `prev` to the matches `new`, by ascending identity, a deletion
/// before the insertion that replaces it.
pub fn diff_provisional(prev: &Vec<Emitted>, new: &Vec<Emitted>) -> (r: Vec<(Op, Vec<Datum>)>)
    ensures
        exists|ids: Seq<i64>|
            #[trigger] identities(ids, emitted_view(prev@), emitted_view(new@)) && ops_view(r@)
                == changes(ids, emitted_view(prev@), emitted_view(new@), 0),
{
    let ghost pv = emitted_view(prev@);
    let ghost nv = emitted_view(new@);
    let mut ids: Vec<i64> = Vec::new();
    insert_ids(&mut ids, prev);
    insert_ids(&mut ids, new);
    assert(identities(ids@, pv, nv));
    let mut ops: Vec<(Op, Vec<Datum>)> = Vec::new();
    let mut i: usize = 0;
    proof {
        assert(ops_view(ops@) =~= Seq::empty());
        assert(ops_view(ops@) + changes(ids@, pv, nv, 0) =~= changes(ids@, pv, nv, 0));
    }
    while i < ids.len()
        invariant
            i <= ids@.len(),
            pv == emitted_view(prev@),
            nv == emitted_view(new@),
            changes(ids@, pv, nv, 0) == ops_view(ops@) + changes(ids@, pv, nv, i as int),
        decreases ids@.len() - i,
    {
        let o = find_place(prev, ids[i]);
        let n = find_place(new, ids[i]);
        let keep: bool = match (o, n) {
            (Some(a), Some(b)) => match_same(&prev[a].0, &new[b].0) && row_same(
                &prev[a].1,
                &new[b].1,
            ),
            _ => false,
        };
        let ghost start = ops@;
        let ghost step = change(entry(pv, ids@[i as int] as int), entry(nv, ids@[i as int] as int));
        if !keep {
            if let Some(a) = o {
                assert(pv[a as int] == (prev@[a as int].0@, row_view(prev@[a as int].1@)));
                ops.push((Op::Delete, row_clone(&prev[a].1)));
                assert(ops_view(ops@) =~= ops_view(start).push((Op::Delete, pv[a as int].1)));
            }
            if let Some(b) = n {
                assert(nv[b as int] == (new@[b as int].0@, row_view(new@[b as int].1@)));
                let ghost middle = ops@;
                ops.push((Op::Insert, row_clone(&new[b].1)));
                assert(ops_view(ops@) =~= ops_view(middle).push((Op::Insert, nv[b as int].1)));
            }
        }
        proof {
            if let Some(a) = o {
                assert(pv[a as int] == (prev@[a as int].0@, row_view(prev@[a as int].1@)));
            }
            if let Some(b) = n {
                assert(nv[b as int] == (new@[b as int].0@, row_view(new@[b as int].1@)));
            }
            assert(ops_view(ops@) =~= ops_view(start) + step);
            assert(ops_view(start) + (step + changes(ids@, pv, nv, i + 1)) =~= ops_view(ops@)
                + changes(ids@, pv, nv, i + 1));
        }
        i = i + 1;
    }
    assert(ops_view(ops@) + Seq::empty() =~= ops_view(ops@));
    ops
}

/// The place of the emitted match that `m` is: its identity, rows and variables are the same.
pub open spec fn reusable(prev: Seq<EmittedView>, m: SeqSpan) -> Option<int> {
    match place(prev, m.start_seq, 0) {
        Some(i) => if prev[i].0 == m {
            Some(i)
        } else {
            None
        },
        None => None,
    }
}

/// For each match, the place of the emitted match whose output row it has, `None` where the row
/// has to be built.
pub fn plan_provisional_rows(prev: &Vec<Emitted>, provisional: &[SeqMatch]) -> (r: Vec<
    Option<usize>,
>)
    ensures
        r@.len() == provisional@.len(),
        forall|i: int|
            0 <= i < r@.len() ==> match #[trigger] r@[i] {
                Some(k) => reusable(emitted_view(prev@), provisional@[i]@) == Some(k as int) && k
                    < prev@.len(),
                None => reusable(emitted_view(prev@), provisional@[i]@) is None,
            },
{
    let ghost pv = emitted_view(prev@);
    let mut r: Vec<Option<usize>> = Vec::new();
    let mut i: usize = 0;
    while i < provisional.len()
        invariant
            i <= provisional@.len(),
            r@.len() == i,
            pv == emitted_view(prev@),
            forall|j: int|
                0 <= j < i ==> match #[trigger] r@[j] {
                    Some(k) => reusable(pv, provisional@[j]@) == Some(k as int) && k < prev@.len(),
                    None => reusable(pv, provisional@[j]@) is None,
                },
        decreases provisional@.len() - i,
    {
        let m = &provisional[i];
        let reuse: Option<usize> = match find_place(prev, m.start_seq) {
            Some(k) => {
                assert(pv[k as int].0 == prev@[k as int].0@);
                if match_same(&prev[k].0, m) {
                    Some(k)
                } else {
                    None
                }
            },
            None => None,
        };
        r.push(reuse);
        i = i + 1;
    }
    r
}

/// The identity that an output row carries in its last column.
pub open spec fn row_id(row: RowView) -> Option<int> {
    if row.len() == 0 {
        None
    } else {
        match row.last() {
            Some(ScalarView::Int64(id)) => Some(id as int),
            _ => None,
        }
    }
}

/// A table downstream, keyed by identity, after a change; `None` where the change does not apply:
/// a deletion of a row that is not there, or an insertion of one that is.
pub open spec fn applied(table: Map<int, RowView>, c: (Op, RowView)) -> Option<Map<int, RowView>> {
    match row_id(c.1) {
        None => None,
        Some(id) => match c.0 {
            Op::Insert => if table.dom().contains(id) {
                None
            } else {
                Some(table.insert(id, c.1))
            },
            Op::Delete => if table.dom().contains(id) && table[id] == c.1 {
                Some(table.remove(id))
            } else {
                None
            },
            _ => None,
        },
    }
}

/// A table downstream after changes.
pub open spec fn applied_all(table: Map<int, RowView>, ops: Seq<(Op, RowView)>) -> Option<
    Map<int, RowView>,
>
    decreases ops.len(),
{
    if ops.len() == 0 {
        Some(table)
    } else {
        match applied(table, ops[0]) {
            None => None,
            Some(t) => applied_all(t, ops.drop_first()),
        }
    }
}

/// The rows of matches, keyed by identity.
pub open spec fn table_of(l: Seq<EmittedView>) -> Map<int, RowView> {
    Map::new(|id: int| entry(l, id) is Some, |id: int| entry(l, id)->Some_0.1)
}

/// Each output row carries the identity of its match.
pub open spec fn rows_identified(l: Seq<EmittedView>) -> bool {
    forall|i: int| 0 <= i < l.len() ==> row_id((#[trigger] l[i]).1) == Some(l[i].0.start_seq)
}

/// The table in which the first `i` identities are as in `new` and the others as in `prev`.
spec fn mixed(ids: Seq<i64>, prev: Seq<EmittedView>, new: Seq<EmittedView>, i: int) -> Map<
    int,
    RowView,
> {
    Map::new(
        |id: int| mixed_entry(ids, prev, new, i, id) is Some,
        |id: int| mixed_entry(ids, prev, new, i, id)->Some_0.1,
    )
}

spec fn mixed_entry(
    ids: Seq<i64>,
    prev: Seq<EmittedView>,
    new: Seq<EmittedView>,
    i: int,
    id: int,
) -> Option<EmittedView> {
    if exists|j: int| 0 <= j < i && #[trigger] ids[j] == id {
        entry(new, id)
    } else {
        entry(prev, id)
    }
}

pub proof fn lemma_applied_append(
    table: Map<int, RowView>,
    a: Seq<(Op, RowView)>,
    b: Seq<(Op, RowView)>,
)
    ensures
        applied_all(table, a + b) == match applied_all(table, a) {
            None => None,
            Some(t) => applied_all(t, b),
        },
    decreases a.len(),
{
    if a.len() == 0 {
        assert(a + b =~= b);
    } else {
        assert((a + b).drop_first() =~= a.drop_first() + b);
        if let Some(t) = applied(table, a[0]) {
            lemma_applied_append(t, a.drop_first(), b);
        }
    }
}

proof fn lemma_entry_id(l: Seq<EmittedView>, id: int)
    requires
        rows_identified(l),
    ensures
        entry(l, id) matches Some(e) ==> row_id(e.1) == Some(id),
{
    lemma_place(l, id, 0);
}

proof fn lemma_changes_apply(
    ids: Seq<i64>,
    prev: Seq<EmittedView>,
    new: Seq<EmittedView>,
    i: int,
)
    requires
        ascending(ids),
        rows_identified(prev),
        rows_identified(new),
        0 <= i <= ids.len(),
    ensures
        applied_all(mixed(ids, prev, new, i), changes(ids, prev, new, i)) == Some(
            mixed(ids, prev, new, ids.len() as int),
        ),
    decreases ids.len() - i,
{
    if i < ids.len() {
        let id = ids[i] as int;
        let t = mixed(ids, prev, new, i);
        let t2 = mixed(ids, prev, new, i + 1);
        let step = change(entry(prev, id), entry(new, id));
        lemma_entry_id(prev, id);
        lemma_entry_id(new, id);
        assert forall|x: int| mixed_entry(ids, prev, new, i + 1, x) == if x == id {
            entry(new, id)
        } else {
            mixed_entry(ids, prev, new, i, x)
        } by {
            if exists|j: int| 0 <= j < i && #[trigger] ids[j] == x {
                let j = choose|j: int| 0 <= j < i && #[trigger] ids[j] == x;
                assert(0 <= j < i + 1 && ids[j] == x);
            }
            assert(ids[i] == id);
        }
        assert(mixed_entry(ids, prev, new, i, id) == entry(prev, id)) by {
            if exists|j: int| 0 <= j < i && #[trigger] ids[j] == id {
                let j = choose|j: int| 0 <= j < i && #[trigger] ids[j] == id;
                assert(ids[j] < ids[i]);
            }
        }
        assert(applied_all(t, step) == Some(t2)) by {
            reveal_with_fuel(applied_all, 3);
            match (entry(prev, id), entry(new, id)) {
                (None, None) => {
                    assert(t =~= t2);
                },
                (None, Some(n)) => {
                    assert(step.drop_first() =~= Seq::empty());
                    assert(t.insert(id, n.1) =~= t2);
                },
                (Some(o), None) => {
                    assert(step.drop_first() =~= Seq::empty());
                    assert(t.remove(id) =~= t2);
                },
                (Some(o), Some(n)) => {
                    if o == n {
                        assert(t =~= t2);
                    } else {
                        assert(step.drop_first() =~= seq![(Op::Insert, n.1)]);
                        assert(step.drop_first().drop_first() =~= Seq::empty());
                        assert(t.remove(id).insert(id, n.1) =~= t2);
                    }
                },
            }
        }
        lemma_changes_apply(ids, prev, new, i + 1);
        lemma_applied_append(t, step, changes(ids, prev, new, i + 1));
    }
}

/// The law of the changelog: a table that holds the matches `prev` holds the matches `new` after
/// the changes, each deletion deletes a row that is there, and each insertion inserts one that is
/// not.
pub proof fn lemma_diff_reaches_new(
    ids: Seq<i64>,
    prev: Seq<EmittedView>,
    new: Seq<EmittedView>,
)
    requires
        identities(ids, prev, new),
        rows_identified(prev),
        rows_identified(new),
        forall|i: int| 0 <= i < prev.len() ==> i64::MIN <= (#[trigger] prev[i]).0.start_seq
            <= i64::MAX,
        forall|i: int| 0 <= i < new.len() ==> i64::MIN <= (#[trigger] new[i]).0.start_seq
            <= i64::MAX,
    ensures
        applied_all(table_of(prev), changes(ids, prev, new, 0)) == Some(table_of(new)),
{
    lemma_changes_apply(ids, prev, new, 0);
    assert(mixed(ids, prev, new, 0) =~= table_of(prev)) by {
        assert forall|x: int| mixed_entry(ids, prev, new, 0, x) == entry(prev, x) by {}
    }
    let last = mixed(ids, prev, new, ids.len() as int);
    assert forall|x: int| mixed_entry(ids, prev, new, ids.len() as int, x) == entry(new, x) by {
        if !(exists|j: int| 0 <= j < ids.len() && #[trigger] ids[j] == x) {
            lemma_place(prev, x, 0);
            lemma_place(new, x, 0);
            if entry(prev, x) is Some || entry(new, x) is Some {
                let k = x as i64;
                assert(ids.contains(k));
                let j = choose|j: int| 0 <= j < ids.len() && ids[j] == k;
                assert(ids[j] == x);
            }
        }
    }
    assert(last =~= table_of(new));
}

/// The row is that of one of the matches.
pub open spec fn is_row_of(l: Seq<EmittedView>, row: RowView) -> bool {
    exists|j: int| 0 <= j < l.len() && (#[trigger] l[j]).1 == row
}

/// The rows that the changes carry are rows of the matches.
pub proof fn lemma_changes_carry_rows(
    ids: Seq<i64>,
    prev: Seq<EmittedView>,
    new: Seq<EmittedView>,
    i: int,
)
    ensures
        forall|x: int|
            0 <= x < changes(ids, prev, new, i).len() ==> is_row_of(
                prev,
                (#[trigger] changes(ids, prev, new, i)[x]).1,
            ) || is_row_of(new, changes(ids, prev, new, i)[x].1),
    decreases ids.len() - i,
{
    if 0 <= i < ids.len() {
        let id = ids[i] as int;
        let step = change(entry(prev, id), entry(new, id));
        let rest = changes(ids, prev, new, i + 1);
        let all = changes(ids, prev, new, i);
        lemma_changes_carry_rows(ids, prev, new, i + 1);
        lemma_place(prev, id, 0);
        lemma_place(new, id, 0);
        assert forall|x: int| 0 <= x < all.len() implies is_row_of(prev, (#[trigger] all[x]).1)
            || is_row_of(new, all[x].1) by {
            if x < step.len() {
                assert(all[x] == step[x]);
                if let Some(o) = place(prev, id, 0) {
                    assert(is_row_of(prev, prev[o].1));
                }
                if let Some(n) = place(new, id, 0) {
                    assert(is_row_of(new, new[n].1));
                }
            } else {
                assert(all[x] == rest[x - step.len()]);
            }
        }
    }
}

/// Matches that did not change are not told again.
pub proof fn lemma_no_change_no_ops(ids: Seq<i64>, l: Seq<EmittedView>, i: int)
    ensures
        changes(ids, l, l, i) == Seq::<(Op, RowView)>::empty(),
    decreases ids.len() - i,
{
    if 0 <= i < ids.len() {
        lemma_no_change_no_ops(ids, l, i + 1);
        assert(changes(ids, l, l, i) =~= Seq::empty());
    }
}

/// What the changes of a diff are. A match that is there before and after with the same rows,
/// variables and output row gives none. Each other match gives a deletion of the output row that it
/// had, if it was there, and an insertion of the one that it has, if it still is; nothing else is
/// told. The changes come by ascending identity, and of those of one match the deletion comes first.
pub proof fn lemma_what_a_diff_tells(
    ids: Seq<i64>,
    prev: Seq<EmittedView>,
    new: Seq<EmittedView>,
    k: i64,
    x: int,
    y: int,
)
    requires
        identities(ids, prev, new),
        rows_identified(prev),
        rows_identified(new),
    ensures
        ({
            let ops = changes(ids, prev, new, 0);
            let old_entry = entry(prev, k as int);
            let new_entry = entry(new, k as int);
            &&& old_entry != new_entry && old_entry is Some ==> ops.contains(
                (Op::Delete, old_entry->Some_0.1),
            )
            &&& old_entry != new_entry && new_entry is Some ==> ops.contains(
                (Op::Insert, new_entry->Some_0.1),
            )
            &&& 0 <= x < ops.len() ==> tells(prev, new, ops[x])
            &&& 0 <= x < y < ops.len() ==> {
                ||| row_id(ops[x].1)->Some_0 < row_id(ops[y].1)->Some_0
                ||| row_id(ops[x].1) == row_id(ops[y].1) && ops[x].0 is Delete && ops[y].0 is Insert
            }
        }),
{
    lemma_changes_from(ids, prev, new, 0);
    let ops = changes(ids, prev, new, 0);
    if entry(prev, k as int) != entry(new, k as int) {
        assert(ids.contains(k));
        let j = choose|j: int| 0 <= j < ids.len() && ids[j] == k;
        lemma_change_is_told(ids, prev, new, 0, j);
    }
}

/// The change is a deletion of an output row that a match had, or an insertion of one that a match
/// has, where the match is not the same before and after.
pub open spec fn tells(prev: Seq<EmittedView>, new: Seq<EmittedView>, c: (Op, RowView)) -> bool {
    &&& row_id(c.1) matches Some(id) && entry(prev, id) != entry(new, id) && match c.0 {
        Op::Delete => entry(prev, id) matches Some(e) && e.1 == c.1,
        Op::Insert => entry(new, id) matches Some(e) && e.1 == c.1,
        _ => false,
    }
}

proof fn lemma_entry_identified(l: Seq<EmittedView>, id: int)
    requires
        rows_identified(l),
    ensures
        entry(l, id) matches Some(e) ==> row_id(e.1) == Some(id),
{
    lemma_place(l, id, 0);
}

proof fn lemma_changes_from(ids: Seq<i64>, prev: Seq<EmittedView>, new: Seq<EmittedView>, i: int)
    requires
        ascending(ids),
        rows_identified(prev),
        rows_identified(new),
        0 <= i <= ids.len(),
    ensures
        ({
            let ops = changes(ids, prev, new, i);
            &&& forall|x: int| 0 <= x < ops.len() ==> tells(prev, new, #[trigger] ops[x])
            &&& forall|x: int|
                0 <= x < ops.len() ==> i < ids.len() && ids[i] <= row_id(
                    (#[trigger] ops[x]).1,
                )->Some_0
            &&& forall|x: int, y: int|
                0 <= x < y < ops.len() ==> {
                    ||| row_id((#[trigger] ops[x]).1)->Some_0 < row_id(
                        (#[trigger] ops[y]).1,
                    )->Some_0
                    ||| row_id(ops[x].1) == row_id(ops[y].1) && ops[x].0 is Delete
                        && ops[y].0 is Insert
                }
        }),
    decreases ids.len() - i,
{
    if i < ids.len() {
        lemma_changes_from(ids, prev, new, i + 1);
        let id = ids[i] as int;
        lemma_entry_identified(prev, id);
        lemma_entry_identified(new, id);
        let head = change(entry(prev, id), entry(new, id));
        let rest = changes(ids, prev, new, i + 1);
        let ops = changes(ids, prev, new, i);
        assert(ops =~= head + rest);
        assert forall|x: int| 0 <= x < ops.len() implies tells(prev, new, #[trigger] ops[x])
            && ids[i] <= row_id(ops[x].1)->Some_0 && (x < head.len() ==> row_id(ops[x].1) == Some(
            id,
        )) && (x >= head.len() ==> ids[i] < row_id(ops[x].1)->Some_0) by {
            if x >= head.len() {
                assert(ops[x] == rest[x - head.len()]);
                assert(ids[i] < ids[i + 1]);
            } else {
                assert(ops[x] == head[x]);
            }
        }
        assert forall|x: int, y: int| 0 <= x < y < ops.len() implies {
            ||| row_id((#[trigger] ops[x]).1)->Some_0 < row_id((#[trigger] ops[y]).1)->Some_0
            ||| row_id(ops[x].1) == row_id(ops[y].1) && ops[x].0 is Delete && ops[y].0 is Insert
        } by {
            if x >= head.len() {
                assert(ops[x] == rest[x - head.len()]);
                assert(ops[y] == rest[y - head.len()]);
            } else if y < head.len() {
                assert(ops[x] == head[x]);
                assert(ops[y] == head[y]);
            }
        }
    }
}

proof fn lemma_change_is_told(
    ids: Seq<i64>,
    prev: Seq<EmittedView>,
    new: Seq<EmittedView>,
    i: int,
    j: int,
)
    requires
        0 <= i <= j < ids.len(),
        entry(prev, ids[j] as int) != entry(new, ids[j] as int),
    ensures
        entry(prev, ids[j] as int) matches Some(e) ==> changes(ids, prev, new, i).contains(
            (Op::Delete, e.1),
        ),
        entry(new, ids[j] as int) matches Some(e) ==> changes(ids, prev, new, i).contains(
            (Op::Insert, e.1),
        ),
    decreases j - i,
{
    let head = change(entry(prev, ids[i] as int), entry(new, ids[i] as int));
    let rest = changes(ids, prev, new, i + 1);
    let ops = changes(ids, prev, new, i);
    assert(ops =~= head + rest);
    if i < j {
        lemma_change_is_told(ids, prev, new, i + 1, j);
        if let Some(e) = entry(prev, ids[j] as int) {
            let x = choose|x: int| 0 <= x < rest.len() && rest[x] == (Op::Delete, e.1);
            assert(ops[head.len() + x] == (Op::Delete, e.1));
        }
        if let Some(e) = entry(new, ids[j] as int) {
            let x = choose|x: int| 0 <= x < rest.len() && rest[x] == (Op::Insert, e.1);
            assert(ops[head.len() + x] == (Op::Insert, e.1));
        }
    } else {
        if let Some(e) = entry(prev, ids[j] as int) {
            assert(ops[0] == (Op::Delete, e.1));
        }
        if let Some(e) = entry(new, ids[j] as int) {
            assert(ops[head.len() - 1] == (Op::Insert, e.1));
        }
    }
}

/// Which output rows are reused: that of the first match with the same first row, where it is the same
/// match, with the same last row and the same variables. A match that is new or has changed reuses
/// none.
pub proof fn lemma_what_is_reused(prev: Seq<EmittedView>, m: SeqSpan, i: int)
    requires
        0 <= i < prev.len(),
        prev[i].0.start_seq == m.start_seq,
        forall|j: int| 0 <= j < i ==> (#[trigger] prev[j]).0.start_seq != m.start_seq,
    ensures
        reusable(prev, m) == if prev[i].0 == m {
            Some(i)
        } else {
            None
        },
{
    lemma_place(prev, m.start_seq, 0);
}

/// A match that was not emitted reuses no output row.
pub proof fn lemma_nothing_is_reused(prev: Seq<EmittedView>, m: SeqSpan)
    requires
        forall|j: int| 0 <= j < prev.len() ==> (#[trigger] prev[j]).0.start_seq != m.start_seq,
    ensures
        reusable(prev, m) is None,
{
    lemma_place(prev, m.start_seq, 0);
}

} // verus!
