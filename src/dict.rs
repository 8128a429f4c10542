use vstd::prelude::*;
use crate::order::{bytes_less, dict_insert, find_key, first_not_less, key_slot, lemma_find_key};
use crate::value::{entries_view, lemma_entries_view, Value};

verus! {

pub proof fn lemma_entries_update(s: Seq<(Vec<u8>, Value)>, i: int, e: (Vec<u8>, Value))
    requires
        0 <= i < s.len(),
    ensures
        entries_view(s.update(i, e)) == entries_view(s).update(i, (e.0@, e.1@)),
{
    lemma_entries_view(s);
    lemma_entries_view(s.update(i, e));
    assert(entries_view(s.update(i, e)) =~= entries_view(s).update(i, (e.0@, e.1@)));
}

pub proof fn lemma_entries_insert(s: Seq<(Vec<u8>, Value)>, i: int, e: (Vec<u8>, Value))
    requires
        0 <= i <= s.len(),
    ensures
        entries_view(s.insert(i, e)) == entries_view(s).insert(i, (e.0@, e.1@)),
{
    lemma_entries_view(s);
    lemma_entries_view(s.insert(i, e));
    assert(entries_view(s.insert(i, e)) =~= entries_view(s).insert(i, (e.0@, e.1@)));
}

pub proof fn lemma_entries_remove(s: Seq<(Vec<u8>, Value)>, i: int)
    requires
        0 <= i < s.len(),
    ensures
        entries_view(s.remove(i)) == entries_view(s).remove(i),
{
    lemma_entries_view(s);
    lemma_entries_view(s.remove(i));
    assert(entries_view(s.remove(i)) =~= entries_view(s).remove(i));
}

/// Inserts `k` with `v`, or overwrites the value of `k`, keeping key order.
pub fn entries_insert(es: &mut Vec<(Vec<u8>, Value)>, k: Vec<u8>, v: Value)
    ensures
        entries_view(final(es)@) == dict_insert(entries_view(old(es)@), k@, v@),
{
    let ghost ev = entries_view(es@);
    proof {
        lemma_entries_view(es@);
    }
    let mut i: usize = 0;
    while i < es.len() && bytes_less(es[i].0.as_slice(), k.as_slice())
        invariant
            ev == entries_view(es@),
            ev.len() == es@.len(),
            forall|j: int| 0 <= j < es@.len() ==> #[trigger] ev[j] == (es@[j].0@, es@[j].1@),
            i <= es@.len(),
            key_slot(ev, k@) == first_not_less(ev, k@, i as int),
        decreases es@.len() - i,
    {
        i += 1;
    }
    if i < es.len() && vec_bytes_eq(&es[i].0, &k) {
        proof {
            lemma_entries_update(es@, i as int, (k, v));
        }
        es.set(i, (k, v));
    } else {
        proof {
            lemma_entries_insert(es@, i as int, (k, v));
        }
        es.insert(i, (k, v));
    }
}

/// Position of key `k` among the entries, if present.
pub fn entries_find(es: &Vec<(Vec<u8>, Value)>, k: &[u8]) -> (r: Option<usize>)
    ensures
        r is Some <==> find_key(entries_view(es@), k@, 0) < es@.len(),
        r is Some ==> r->0 == find_key(entries_view(es@), k@, 0),
{
    let ghost ev = entries_view(es@);
    proof {
        lemma_entries_view(es@);
        lemma_find_key(ev, k@, 0);
    }
    let mut i: usize = 0;
    while i < es.len()
        invariant
            ev == entries_view(es@),
            ev.len() == es@.len(),
            forall|j: int| 0 <= j < es@.len() ==> #[trigger] ev[j] == (es@[j].0@, es@[j].1@),
            i <= es@.len(),
            find_key(ev, k@, 0) == find_key(ev, k@, i as int),
        decreases es@.len() - i,
    {
        if slice_bytes_eq(es[i].0.as_slice(), k) {
            return Some(i);
        }
        i += 1;
    }
    None
}

fn vec_bytes_eq(a: &Vec<u8>, b: &Vec<u8>) -> (r: bool)
    ensures
        r == (a@ == b@),
{
    slice_bytes_eq(a.as_slice(), b.as_slice())
}

/// Byte-wise equality of two slices.
pub fn slice_bytes_eq(a: &[u8], b: &[u8]) -> (r: bool)
    ensures
        r == (a@ == b@),
{
    if a.len() != b.len() {
        return false;
    }
    let mut i: usize = 0;
    while i < a.len()
        invariant
            a@.len() == b@.len(),
            i <= a@.len(),
            forall|j: int| 0 <= j < i ==> a@[j] == b@[j],
        decreases a@.len() - i,
    {
        if a[i] != b[i] {
            return false;
        }
        i += 1;
    }
    assert(a@ =~= b@);
    true
}

} // verus!
