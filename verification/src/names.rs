//! Lists of pattern variable names.

use crate::pattern::{first_of, last_of, texts, Var};
use vstd::prelude::*;

verus! {

/// Whether `name` is one of `vars`.
pub fn is_one_of(name: &String, vars: &Vec<String>) -> (r: bool)
    ensures
        r == texts(vars@).contains(name@),
{
    let mut i: usize = 0;
    while i < vars.len()
        invariant
            i <= vars@.len(),
            forall|j: int| 0 <= j < i ==> texts(vars@)[j] != name@,
        decreases vars@.len() - i,
    {
        if vars[i] == *name {
            assert(texts(vars@)[i as int] == name@);
            return true;
        }
        i = i + 1;
    }
    false
}

/// The first place whose name is one of `vars`.
pub fn position(labels: &[String], vars: &Vec<String>) -> (r: Option<usize>)
    ensures
        match r {
            Some(k) => k < labels@.len() && first_of(texts(labels@), texts(vars@), 0) == Some(
                k as int,
            ),
            None => first_of(texts(labels@), texts(vars@), 0) is None,
        },
{
    let ghost l = texts(labels@);
    let ghost v = texts(vars@);
    let mut i: usize = 0;
    while i < labels.len()
        invariant
            l == texts(labels@),
            v == texts(vars@),
            i <= labels@.len(),
            first_of(l, v, 0) == first_of(l, v, i as int),
        decreases labels@.len() - i,
    {
        if is_one_of(&labels[i], vars) {
            return Some(i);
        }
        i = i + 1;
    }
    None
}

/// The last place whose name is one of `vars`.
pub fn rposition(labels: &[String], vars: &Vec<String>) -> (r: Option<usize>)
    ensures
        match r {
            Some(k) => k < labels@.len() && last_of(
                texts(labels@),
                texts(vars@),
                labels@.len() as int,
            ) == Some(k as int),
            None => last_of(texts(labels@), texts(vars@), labels@.len() as int) is None,
        },
{
    let ghost l = texts(labels@);
    let ghost v = texts(vars@);
    let mut i: usize = labels.len();
    while i > 0
        invariant
            l == texts(labels@),
            v == texts(vars@),
            i <= labels@.len(),
            last_of(l, v, labels@.len() as int) == last_of(l, v, i as int),
        decreases i,
    {
        if is_one_of(&labels[i - 1], vars) {
            return Some(i - 1);
        }
        i = i - 1;
    }
    None
}

/// A copy of a list of names.
pub fn names_clone(names: &[String]) -> (r: Vec<String>)
    ensures
        r@ == names@,
{
    let mut r: Vec<String> = Vec::new();
    let mut i: usize = 0;
    while i < names.len()
        invariant
            i <= names@.len(),
            r@ == names@.take(i as int),
        decreases names@.len() - i,
    {
        r.push(names[i].clone());
        i = i + 1;
        assert(names@.take(i as int) =~= names@.take(i - 1).push(names@[i - 1]));
    }
    assert(names@.take(i as int) =~= names@);
    r
}

/// Whether two lists hold the same names in the same order.
pub fn names_same(a: &Vec<String>, b: &Vec<String>) -> (r: bool)
    ensures
        r == (texts(a@) == texts(b@)),
{
    if a.len() != b.len() {
        assert(texts(a@).len() != texts(b@).len());
        return false;
    }
    let mut i: usize = 0;
    while i < a.len()
        invariant
            i <= a@.len(),
            a@.len() == b@.len(),
            forall|j: int| 0 <= j < i ==> texts(a@)[j] == texts(b@)[j],
        decreases a@.len() - i,
    {
        if a[i] != b[i] {
            assert(texts(a@)[i as int] != texts(b@)[i as int]);
            return false;
        }
        i = i + 1;
    }
    assert(texts(a@) =~= texts(b@));
    true
}

/// What the first place is: its name is one of `vars`, and no earlier name is; there is none where
/// no name is one of `vars`.
pub proof fn lemma_first_of(labels: Seq<Var>, vars: Seq<Var>, i: int)
    requires
        0 <= i <= labels.len(),
    ensures
        match first_of(labels, vars, i) {
            Some(k) => i <= k < labels.len() && vars.contains(labels[k]) && forall|j: int|
                i <= j < k ==> !vars.contains(#[trigger] labels[j]),
            None => forall|j: int| i <= j < labels.len() ==> !vars.contains(#[trigger] labels[j]),
        },
    decreases labels.len() - i,
{
    if i < labels.len() && !vars.contains(labels[i]) {
        lemma_first_of(labels, vars, i + 1);
    }
}

/// What the last place is: its name is one of `vars`, and no later name is; there is none where no
/// name is one of `vars`.
pub proof fn lemma_last_of(labels: Seq<Var>, vars: Seq<Var>, i: int)
    requires
        0 <= i <= labels.len(),
    ensures
        match last_of(labels, vars, i) {
            Some(k) => 0 <= k < i && vars.contains(labels[k]) && forall|j: int|
                k < j < i ==> !vars.contains(#[trigger] labels[j]),
            None => forall|j: int| 0 <= j < i ==> !vars.contains(#[trigger] labels[j]),
        },
    decreases i,
{
    if i > 0 && !vars.contains(labels[i - 1]) {
        lemma_last_of(labels, vars, i - 1);
    }
}

} // verus!
