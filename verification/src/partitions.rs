//! Tables that are keyed by partition.

use crate::datum::{row_same, row_view, Datum, RowView};
use vstd::prelude::*;

verus! {

/// A table with one value per partition key.
pub struct PartitionMap<T> {
    entries: Vec<(Vec<Datum>, T)>,
}

/// The value of the first entry from index `i` on that has the key.
spec fn lookup<T>(s: Seq<(Vec<Datum>, T)>, key: RowView, i: int) -> Option<T>
    decreases s.len() - i,
{
    if i < 0 || i >= s.len() {
        None
    } else if row_view(s[i].0@) == key {
        Some(s[i].1)
    } else {
        lookup(s, key, i + 1)
    }
}

proof fn lemma_lookup_push<T>(
    s: Seq<(Vec<Datum>, T)>,
    e: (Vec<Datum>, T),
    key: RowView,
    i: int,
)
    requires
        0 <= i <= s.len(),
    ensures
        lookup(s.push(e), key, i) == match lookup(s, key, i) {
            Some(v) => Some(v),
            None => if row_view(e.0@) == key {
                Some(e.1)
            } else {
                None
            },
        },
    decreases s.len() - i,
{
    if i < s.len() {
        lemma_lookup_push(s, e, key, i + 1);
    } else {
        reveal_with_fuel(lookup, 2);
    }
}

proof fn lemma_lookup_remove<T>(s: Seq<(Vec<Datum>, T)>, j: int, key: RowView, i: int)
    requires
        0 <= j < s.len(),
        row_view(s[j].0@) != key,
        0 <= i,
    ensures
        i <= j ==> lookup(s.remove(j), key, i) == lookup(s, key, i),
        i >= j ==> lookup(s.remove(j), key, i) == lookup(s, key, i + 1),
    decreases s.len() - i,
{
    if i < s.len() {
        lemma_lookup_remove(s, j, key, i + 1);
    }
}

impl<T> View for PartitionMap<T> {
    type V = Map<RowView, T>;

    closed spec fn view(&self) -> Map<RowView, T> {
        Map::new(
            |key: RowView| lookup(self.entries@, key, 0) is Some,
            |key: RowView| lookup(self.entries@, key, 0)->Some_0,
        )
    }
}

impl<T> PartitionMap<T> {
    /// An empty table.
    pub fn new() -> (r: Self)
        ensures
            r@ == Map::<RowView, T>::empty(),
    {
        let r = PartitionMap { entries: Vec::new() };
        assert(r@ =~= Map::empty());
        r
    }

    /// The index of the first entry that has the key.
    fn find(&self, key: &Vec<Datum>) -> (r: Option<usize>)
        ensures
            match r {
                Some(i) => i < self.entries@.len() && row_view(self.entries@[i as int].0@)
                    == row_view(key@) && lookup(self.entries@, row_view(key@), 0) == Some(
                    self.entries@[i as int].1,
                ),
                None => lookup(self.entries@, row_view(key@), 0) is None,
            },
    {
        let ghost s = self.entries@;
        let mut i: usize = 0;
        while i < self.entries.len()
            invariant
                i <= s.len(),
                s == self.entries@,
                lookup(s, row_view(key@), 0) == lookup(s, row_view(key@), i as int),
            decreases s.len() - i,
        {
            if row_same(&self.entries[i].0, key) {
                return Some(i);
            }
            i = i + 1;
        }
        None
    }

    /// The value of a partition.
    pub fn get(&self, key: &Vec<Datum>) -> (r: Option<&T>)
        ensures
            match r {
                Some(v) => self@.dom().contains(row_view(key@)) && *v == self@[row_view(key@)],
                None => !self@.dom().contains(row_view(key@)),
            },
    {
        match self.find(key) {
            Some(i) => Some(&self.entries[i].1),
            None => None,
        }
    }

    /// Whether there is a value of the partition.
    pub fn contains(&self, key: &Vec<Datum>) -> (r: bool)
        ensures
            r == self@.dom().contains(row_view(key@)),
    {
        self.find(key).is_some()
    }

    /// Take the value of a partition out of the table.
    pub fn remove(&mut self, key: &Vec<Datum>) -> (r: Option<T>)
        ensures
            final(self)@ == old(self)@.remove(row_view(key@)),
            match r {
                Some(v) => old(self)@.dom().contains(row_view(key@)) && v == old(
                    self,
                )@[row_view(key@)],
                None => !old(self)@.dom().contains(row_view(key@)),
            },
    {
        let ghost k = row_view(key@);
        let mut taken: Option<T> = None;
        loop
            invariant
                k == row_view(key@),
                forall|x: RowView|
                    x != k ==> lookup(self.entries@, x, 0) == #[trigger] lookup(
                        old(self).entries@,
                        x,
                        0,
                    ),
                taken is None ==> lookup(self.entries@, k, 0) == lookup(old(self).entries@, k, 0),
                taken is Some ==> lookup(old(self).entries@, k, 0) == taken,
            ensures
                lookup(self.entries@, k, 0) is None,
            decreases self.entries@.len(),
        {
            match self.find(key) {
                None => {
                    break;
                },
                Some(i) => {
                    let ghost before = self.entries@;
                    let (_, v) = self.entries.remove(i);
                    proof {
                        assert(self.entries@ =~= before.remove(i as int));
                        assert forall|x: RowView| x != k implies lookup(self.entries@, x, 0)
                            == #[trigger] lookup(old(self).entries@, x, 0) by {
                            lemma_lookup_remove(before, i as int, x, 0);
                        }
                    }
                    if taken.is_none() {
                        taken = Some(v);
                    }
                },
            }
        }
        proof {
            assert forall|x: RowView| #[trigger] self@.dom().contains(x) == old(self)@.remove(
                k,
            ).dom().contains(x) by {
                if x != k {
                    assert(lookup(self.entries@, x, 0) == lookup(old(self).entries@, x, 0));
                }
            }
            assert(self@ =~= old(self)@.remove(k)) by {
                assert forall|x: RowView| #[trigger] self@.dom().contains(x) implies self@[x]
                    == old(self)@.remove(k)[x] by {
                    assert(lookup(self.entries@, x, 0) == lookup(old(self).entries@, x, 0));
                }
            }
        }
        taken
    }

    /// Set the value of a partition.
    pub fn insert(&mut self, key: Vec<Datum>, value: T)
        ensures
            final(self)@ == old(self)@.insert(row_view(key@), value),
    {
        let ghost k = row_view(key@);
        let ghost start = self@;
        let _ = self.remove(&key);
        let ghost before = self.entries@;
        let ghost without = self@;
        assert(lookup(before, k, 0) is None) by {
            assert(!without.dom().contains(k));
        }
        let ghost e = (key, value);
        self.entries.push((key, value));
        proof {
            assert(self.entries@ =~= before.push(e));
            assert forall|x: RowView| #[trigger] lookup(self.entries@, x, 0) == if x == k {
                Some(value)
            } else {
                lookup(before, x, 0)
            } by {
                lemma_lookup_push(before, e, x, 0);
            }
            assert(self@ =~= without.insert(k, value)) by {
                assert forall|x: RowView| #[trigger] self@.dom().contains(x) == without.insert(
                    k,
                    value,
                ).dom().contains(x) by {
                    assert(lookup(self.entries@, x, 0) == if x == k {
                        Some(value)
                    } else {
                        lookup(before, x, 0)
                    });
                }
                assert forall|x: RowView| #[trigger] self@.dom().contains(x) implies self@[x]
                    == without.insert(k, value)[x] by {
                    assert(lookup(self.entries@, x, 0) == if x == k {
                        Some(value)
                    } else {
                        lookup(before, x, 0)
                    });
                }
            }
            assert(without.insert(k, value) =~= start.insert(k, value));
        }
    }

    /// Empty the table.
    pub fn clear(&mut self)
        ensures
            final(self)@ == Map::<RowView, T>::empty(),
    {
        self.entries.clear();
        assert(self@ =~= Map::empty());
    }

    /// Take the key and the value of some partition out of the table.
    pub fn pop(&mut self) -> (r: Option<(Vec<Datum>, T)>)
        ensures
            match r {
                Some((key, v)) => old(self)@.dom().contains(row_view(key@)) && v == old(
                    self,
                )@[row_view(key@)] && final(self)@ == old(self)@.remove(row_view(key@)),
                None => old(self)@ == Map::<RowView, T>::empty() && final(self)@ == old(self)@,
            },
    {
        if self.entries.len() == 0 {
            assert(self@ =~= Map::empty());
            return None;
        }
        let ghost before = self.entries@;
        let ghost start = self@;
        let ghost k = row_view(before[0].0@);
        assert(lookup(before, k, 0) == Some(before[0].1));
        let (key, v) = self.entries.remove(0);
        let ghost middle = self@;
        let _ = self.remove(&key);
        proof {
            assert forall|x: RowView| x != k implies #[trigger] lookup(before.remove(0), x, 0)
                == lookup(before, x, 0) by {
                lemma_lookup_remove(before, 0, x, 0);
            }
            assert(middle.remove(k) =~= start.remove(k)) by {
                assert forall|x: RowView| #[trigger] middle.remove(k).dom().contains(x)
                    == start.remove(k).dom().contains(x) by {
                    if x != k {
                        assert(lookup(before.remove(0), x, 0) == lookup(before, x, 0));
                    }
                }
                assert forall|x: RowView| #[trigger]
                    middle.remove(k).dom().contains(x) implies middle.remove(k)[x] == start.remove(
                    k,
                )[x] by {
                    assert(lookup(before.remove(0), x, 0) == lookup(before, x, 0));
                }
            }
        }
        Some((key, v))
    }
}

} // verus!
