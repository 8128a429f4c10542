use vstd::prelude::*;
use crate::value::{bytes_lt, Val, keys_sorted};

verus! {

pub proof fn lemma_lt_irreflexive(a: Seq<u8>)
    ensures
        !bytes_lt(a, a),
    decreases a.len(),
{
    if a.len() > 0 {
        lemma_lt_irreflexive(a.drop_first());
    }
}

pub proof fn lemma_lt_transitive(a: Seq<u8>, b: Seq<u8>, c: Seq<u8>)
    requires
        bytes_lt(a, b),
        bytes_lt(b, c),
    ensures
        bytes_lt(a, c),
    decreases a.len(),
{
    if a.len() > 0 && b.len() > 0 && c.len() > 0 && a[0] == b[0] && b[0] == c[0] {
        lemma_lt_transitive(a.drop_first(), b.drop_first(), c.drop_first());
    }
}

pub proof fn lemma_lt_total(a: Seq<u8>, b: Seq<u8>)
    requires
        a != b,
    ensures
        bytes_lt(a, b) || bytes_lt(b, a),
    decreases a.len(),
{
    if a.len() > 0 && b.len() > 0 && a[0] == b[0] {
        if a.drop_first() == b.drop_first() {
            assert(a =~= seq![a[0]] + a.drop_first());
            assert(b =~= seq![b[0]] + b.drop_first());
        }
        lemma_lt_total(a.drop_first(), b.drop_first());
    } else if a.len() == 0 && b.len() == 0 {
        assert(a =~= b);
    }
}

/// Compares two byte strings in lexicographic order.
pub fn bytes_less(a: &[u8], b: &[u8]) -> (r: bool)
    ensures
        r == bytes_lt(a@, b@),
{
    let mut i: usize = 0;
    assert(a@.skip(0) =~= a@);
    assert(b@.skip(0) =~= b@);
    while i < a.len() && i < b.len()
        invariant
            i <= a@.len(),
            i <= b@.len(),
            bytes_lt(a@, b@) == bytes_lt(a@.skip(i as int), b@.skip(i as int)),
        decreases a@.len() - i,
    {
        if a[i] != b[i] {
            return a[i] < b[i];
        }
        assert(a@.skip(i as int).drop_first() =~= a@.skip(i + 1));
        assert(b@.skip(i as int).drop_first() =~= b@.skip(i + 1));
        i += 1;
    }
    i < b.len()
}

/// Index of the first entry, from `i` on, whose key is not below `k`.
pub open spec fn first_not_less(es: Seq<(Seq<u8>, Val)>, k: Seq<u8>, i: int) -> int
    decreases es.len() - i,
{
    if i >= es.len() || i < 0 || !bytes_lt(es[i].0, k) {
        i
    } else {
        first_not_less(es, k, i + 1)
    }
}

/// Where `k` belongs among the entries.
pub open spec fn key_slot(es: Seq<(Seq<u8>, Val)>, k: Seq<u8>) -> int {
    first_not_less(es, k, 0)
}

/// The entries after inserting or overwriting key `k` with `v`.
pub open spec fn dict_insert(es: Seq<(Seq<u8>, Val)>, k: Seq<u8>, v: Val) -> Seq<(Seq<u8>, Val)> {
    let i = key_slot(es, k);
    if i < es.len() && es[i].0 == k {
        es.update(i, (k, v))
    } else {
        es.insert(i, (k, v))
    }
}

/// Index of the first entry, from `i` on, whose key is `k`.
pub open spec fn find_key(es: Seq<(Seq<u8>, Val)>, k: Seq<u8>, i: int) -> int
    decreases es.len() - i,
{
    if i >= es.len() || i < 0 || es[i].0 == k {
        i
    } else {
        find_key(es, k, i + 1)
    }
}

/// The value stored under key `k`, if any.
pub open spec fn dict_get(es: Seq<(Seq<u8>, Val)>, k: Seq<u8>) -> Option<Val> {
    let i = find_key(es, k, 0);
    if i < es.len() {
        Some(es[i].1)
    } else {
        None
    }
}

/// The entries without key `k`.
pub open spec fn dict_remove(es: Seq<(Seq<u8>, Val)>, k: Seq<u8>) -> Seq<(Seq<u8>, Val)> {
    let i = find_key(es, k, 0);
    if i < es.len() {
        es.remove(i)
    } else {
        es
    }
}

pub proof fn lemma_first_not_less(es: Seq<(Seq<u8>, Val)>, k: Seq<u8>, i: int)
    requires
        0 <= i <= es.len(),
    ensures
        i <= first_not_less(es, k, i) <= es.len(),
        forall|j: int| i <= j < first_not_less(es, k, i) ==> bytes_lt(#[trigger] es[j].0, k),
        first_not_less(es, k, i) < es.len() ==> !bytes_lt(es[first_not_less(es, k, i)].0, k),
    decreases es.len() - i,
{
    if i < es.len() && bytes_lt(es[i].0, k) {
        lemma_first_not_less(es, k, i + 1);
    }
}

pub proof fn lemma_find_key(es: Seq<(Seq<u8>, Val)>, k: Seq<u8>, i: int)
    requires
        0 <= i <= es.len(),
    ensures
        i <= find_key(es, k, i) <= es.len(),
        forall|j: int| i <= j < find_key(es, k, i) ==> #[trigger] es[j].0 != k,
        find_key(es, k, i) < es.len() ==> es[find_key(es, k, i)].0 == k,
    decreases es.len() - i,
{
    if i < es.len() && es[i].0 != k {
        lemma_find_key(es, k, i + 1);
    }
}

/// Inserting into sorted entries keeps them sorted.
pub proof fn lemma_dict_insert_sorted(es: Seq<(Seq<u8>, Val)>, k: Seq<u8>, v: Val)
    requires
        keys_sorted(es),
    ensures
        keys_sorted(dict_insert(es, k, v)),
{
    let i = key_slot(es, k);
    let r = dict_insert(es, k, v);
    lemma_first_not_less(es, k, 0);
    if i < es.len() && es[i].0 == k {
        assert forall|a: int, b: int| 0 <= a < b < r.len() implies bytes_lt(
            #[trigger] r[a].0,
            #[trigger] r[b].0,
        ) by {
            assert(bytes_lt(es[a].0, es[b].0));
        }
    } else {
        if i < es.len() {
            lemma_lt_total(es[i].0, k);
        }
        assert forall|a: int, b: int| 0 <= a < b < r.len() implies bytes_lt(
            #[trigger] r[a].0,
            #[trigger] r[b].0,
        ) by {
            if b < i {
                assert(bytes_lt(es[a].0, es[b].0));
            } else if b == i {
                assert(bytes_lt(es[a].0, k));
            } else if a == i {
                if b - 1 > i {
                    assert(bytes_lt(es[i].0, es[b - 1].0));
                    lemma_lt_transitive(k, es[i].0, es[b - 1].0);
                }
            } else if a < i {
                if b - 1 == i {
                    lemma_lt_transitive(es[a].0, k, es[i].0);
                } else {
                    assert(bytes_lt(es[a].0, es[b - 1].0));
                }
            } else {
                assert(bytes_lt(es[a - 1].0, es[b - 1].0));
            }
        }
    }
}

/// After an insert, the key maps to the inserted value.
pub proof fn lemma_dict_insert_get(es: Seq<(Seq<u8>, Val)>, k: Seq<u8>, v: Val)
    ensures
        dict_get(dict_insert(es, k, v), k) == Some(v),
{
    let i = key_slot(es, k);
    let r = dict_insert(es, k, v);
    lemma_first_not_less(es, k, 0);
    lemma_lt_irreflexive(k);
    lemma_find_key(r, k, 0);
    assert forall|j: int| 0 <= j < i implies r[j].0 != k by {
        assert(bytes_lt(es[j].0, k));
        assert(r[j] == es[j]);
    }
    assert(r[i].0 == k);
    if find_key(r, k, 0) < i {
        assert(r[find_key(r, k, 0)].0 != k);
    }
}

} // verus!
