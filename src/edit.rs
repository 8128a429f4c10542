use vstd::prelude::*;
use crate::dict::{entries_find, entries_insert, lemma_entries_remove};
use crate::order::{dict_get, dict_insert, dict_remove, lemma_find_key};
use crate::value::{entries_view, items_view, lemma_entries_view, lemma_items_view, Val, Value};

verus! {

/// One step into a container: a dict key or a list index.
#[derive(Debug)]
pub enum Accessor {
    Key(Vec<u8>),
    Index(usize),
}

/// Model of an accessor.
pub enum Acc {
    Key(Seq<u8>),
    Index(nat),
}

impl View for Accessor {
    type V = Acc;

    open spec fn view(&self) -> Acc {
        match self {
            Accessor::Key(k) => Acc::Key(k@),
            Accessor::Index(i) => Acc::Index(*i as nat),
        }
    }
}

/// Errors of the mutation primitives. The value is left unchanged.
#[derive(PartialEq, Eq, Structural, Clone, Copy, Debug)]
pub enum UpdateError {
    /// The value is not the kind of container that the operation needs.
    WrongKind,
    /// The index is out of bounds for the list.
    OutOfBounds(usize),
}

/// What inserting `v` at `a` in `n` yields, or why it fails.
pub open spec fn insert_spec(n: Val, a: Acc, v: Val) -> Result<Val, UpdateError> {
    match (n, a) {
        (Val::Dict(es), Acc::Key(k)) => Ok(Val::Dict(dict_insert(es, k, v))),
        (Val::List(items), Acc::Index(i)) => if i <= items.len() {
            Ok(Val::List(items.insert(i as int, v)))
        } else {
            Err(UpdateError::OutOfBounds(i as usize))
        },
        _ => Err(UpdateError::WrongKind),
    }
}

/// What removing `a` from `n` yields, or why it fails. A missing key is no
/// error; a list item is removed only at an index strictly between 0 and
/// the length.
pub open spec fn remove_spec(n: Val, a: Acc) -> Result<Val, UpdateError> {
    match (n, a) {
        (Val::Dict(es), Acc::Key(k)) => Ok(Val::Dict(dict_remove(es, k))),
        (Val::List(items), Acc::Index(i)) => if 0 < i < items.len() {
            Ok(Val::List(items.remove(i as int)))
        } else {
            Err(UpdateError::OutOfBounds(i as usize))
        },
        _ => Err(UpdateError::WrongKind),
    }
}

/// The child of `n` at `a`, if there is one.
pub open spec fn child_spec(n: Val, a: Acc) -> Option<Val> {
    match (n, a) {
        (Val::Dict(es), Acc::Key(k)) => dict_get(es, k),
        (Val::List(items), Acc::Index(i)) => if i < items.len() {
            Some(items[i as int])
        } else {
            None
        },
        _ => None,
    }
}

/// A value emptied in place: containers and strings lose their contents,
/// an integer becomes 0.
pub open spec fn cleared(n: Val) -> Val {
    match n {
        Val::Int(_) => Val::Int(0),
        Val::Str(_) => Val::Str(Seq::empty()),
        Val::Dict(_) => Val::Dict(Seq::empty()),
        Val::List(_) => Val::List(Seq::empty()),
    }
}

pub proof fn lemma_items_insert(s: Seq<Value>, i: int, v: Value)
    requires
        0 <= i <= s.len(),
    ensures
        items_view(s.insert(i, v)) == items_view(s).insert(i, v@),
{
    lemma_items_view(s);
    lemma_items_view(s.insert(i, v));
    assert(items_view(s.insert(i, v)) =~= items_view(s).insert(i, v@));
}

pub proof fn lemma_items_remove(s: Seq<Value>, i: int)
    requires
        0 <= i < s.len(),
    ensures
        items_view(s.remove(i)) == items_view(s).remove(i),
{
    lemma_items_view(s);
    lemma_items_view(s.remove(i));
    assert(items_view(s.remove(i)) =~= items_view(s).remove(i));
}

impl Value {
    /// Inserts `v` at `a`: under a key of a dict (overwriting), or at an index
    /// of a list, shifting later items right.
    pub fn insert(&mut self, a: Accessor, v: Value) -> (r: Result<(), UpdateError>)
        ensures
            match insert_spec(old(self)@, a@, v@) {
                Ok(n) => r is Ok && final(self)@ == n,
                Err(e) => r == Err::<(), UpdateError>(e) && final(self)@ == old(self)@,
            },
    {
        proof {
            if let Value::List(items) = *old(self) {
                lemma_items_view(items@);
            }
            if let Value::Dict(es) = *old(self) {
                lemma_entries_view(es@);
            }
        }
        match self {
            Value::Dict(es) => match a {
                Accessor::Key(k) => {
                    entries_insert(es, k, v);
                    return Ok(());
                },
                Accessor::Index(_) => {
                    return Err(UpdateError::WrongKind);
                },
            },
            Value::List(items) => match a {
                Accessor::Index(i) => {
                    if i <= items.len() {
                        proof {
                            lemma_items_insert(items@, i as int, v);
                        }
                        items.insert(i, v);
                        return Ok(());
                    } else {
                        return Err(UpdateError::OutOfBounds(i));
                    }
                },
                Accessor::Key(_) => {
                    return Err(UpdateError::WrongKind);
                },
            },
            _ => {
                    return Err(UpdateError::WrongKind);
                },
        }
    }

    /// Appends `v` to a list.
    pub fn push(&mut self, v: Value) -> (r: Result<(), UpdateError>)
        ensures
            match old(self)@ {
                Val::List(items) => r is Ok && final(self)@ == Val::List(items.push(v@)),
                _ => r == Err::<(), UpdateError>(UpdateError::WrongKind) && final(self)@ == old(self)@,
            },
    {
        match self {
            Value::List(items) => {
                proof {
                    assert(items@.push(v).subrange(0, items@.len() as int) =~= items@);
                }
                items.push(v);
                return Ok(());
            },
            _ => {
                    return Err(UpdateError::WrongKind);
                },
        }
    }

    /// Removes the entry of a dict at a key (nothing happens when the key is
    /// absent), or the item of a list at an index.
    pub fn remove(&mut self, a: Accessor) -> (r: Result<(), UpdateError>)
        ensures
            match remove_spec(old(self)@, a@) {
                Ok(n) => r is Ok && final(self)@ == n,
                Err(e) => r == Err::<(), UpdateError>(e) && final(self)@ == old(self)@,
            },
    {
        proof {
            if let Value::List(items) = *old(self) {
                lemma_items_view(items@);
            }
            if let Value::Dict(es) = *old(self) {
                lemma_entries_view(es@);
            }
        }
        match self {
            Value::Dict(es) => match a {
                Accessor::Key(k) => {
                    match entries_find(es, k.as_slice()) {
                        Some(i) => {
                            proof {
                                lemma_entries_remove(es@, i as int);
                            }
                            es.remove(i);
                        },
                        None => {},
                    }
                    return Ok(());
                },
                Accessor::Index(_) => {
                    return Err(UpdateError::WrongKind);
                },
            },
            Value::List(items) => match a {
                Accessor::Index(i) => {
                    if 0 < i && i < items.len() {
                        proof {
                            lemma_items_remove(items@, i as int);
                        }
                        items.remove(i);
                        return Ok(());
                    } else {
                        return Err(UpdateError::OutOfBounds(i));
                    }
                },
                Accessor::Key(_) => {
                    return Err(UpdateError::WrongKind);
                },
            },
            _ => {
                    return Err(UpdateError::WrongKind);
                },
        }
    }

    /// Empties this value in place.
    pub fn clear(&mut self)
        ensures
            final(self)@ == cleared(old(self)@),
    {
        match self {
            Value::Int(n) => {
                *n = 0;
            },
            Value::Str(b) => {
                b.clear();
                assert(b@ =~= Seq::<u8>::empty());
            },
            Value::Dict(es) => {
                es.clear();
                assert(entries_view(es@) =~= Seq::empty());
            },
            Value::List(items) => {
                items.clear();
                assert(items_view(items@) =~= Seq::empty());
            },
        }
    }

    /// The child at `a`, if this value is a container that has one.
    pub fn get(&self, a: &Accessor) -> (r: Option<&Value>)
        ensures
            match child_spec(self@, a@) {
                Some(w) => r is Some && r->0@ == w,
                None => r is None,
            },
    {
        match (self, a) {
            (Value::Dict(es), Accessor::Key(k)) => {
                proof {
                    lemma_entries_view(es@);
                    lemma_find_key(entries_view(es@), k@, 0);
                }
                match entries_find(es, k.as_slice()) {
                    Some(i) => Some(&es[i].1),
                    None => None,
                }
            },
            (Value::List(items), Accessor::Index(i)) => {
                proof {
                    lemma_items_view(items@);
                }
                if *i < items.len() {
                    Some(&items[*i])
                } else {
                    None
                }
            },
            _ => None,
        }
    }
}

} // verus!
