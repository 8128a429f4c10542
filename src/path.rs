use vstd::prelude::*;
use vstd::string::{StrSliceExecFns, StringExecFns, StringSliceAdditionalSpecFns};
use vstd::utf8::encode_utf8;
use crate::dict::entries_find;
use crate::edit::{cleared, insert_spec, remove_spec, Acc, Accessor, UpdateError};
use crate::order::{find_key, lemma_find_key};
use crate::selector::{
    context, context_of, index_step, is_container, key_step, lemma_scan_index_bound,
    lemma_scan_key_bound,
    SelErr, SelectError,
};
use crate::value::{entries_view, items_view, lemma_entries_view, lemma_items_view, Val, Value};
use crate::selector::select_spec;
use crate::hash::hash_of;

verus! {

/// A change to make at the node that a selector addresses.
#[derive(Debug)]
pub enum Edit {
    /// Replace the node.
    Replace(Value),
    /// Empty the node in place.
    Clear,
    /// Insert into the node, a container.
    Insert(Accessor, Value),
    /// Append to the node, a list.
    Push(Value),
    /// Remove from the node, a container.
    Remove(Accessor),
}

pub enum EditModel {
    Replace(Val),
    Clear,
    Insert(Acc, Val),
    Push(Val),
    Remove(Acc),
}

impl View for Edit {
    type V = EditModel;

    open spec fn view(&self) -> EditModel {
        match self {
            Edit::Replace(v) => EditModel::Replace(v@),
            Edit::Clear => EditModel::Clear,
            Edit::Insert(a, v) => EditModel::Insert(a@, v@),
            Edit::Push(v) => EditModel::Push(v@),
            Edit::Remove(a) => EditModel::Remove(a@),
        }
    }
}

/// Why an edit failed. The value is left unchanged.
#[derive(Debug)]
pub enum EditError {
    Select(SelectError),
    Update(UpdateError),
}

pub enum EditErr {
    Select(SelErr),
    Update(UpdateError),
}

impl EditError {
    pub open spec fn model(&self) -> EditErr {
        match self {
            EditError::Select(e) => EditErr::Select(e.model()),
            EditError::Update(u) => EditErr::Update(*u),
        }
    }
}

/// The node after the edit, or why it does not apply.
pub open spec fn apply_spec(w: Val, e: EditModel) -> Result<Val, UpdateError> {
    match e {
        EditModel::Replace(x) => Ok(x),
        EditModel::Clear => Ok(cleared(w)),
        EditModel::Insert(a, x) => insert_spec(w, a, x),
        EditModel::Push(x) => match w {
            Val::List(items) => Ok(Val::List(items.push(x))),
            _ => Err(UpdateError::WrongKind),
        },
        EditModel::Remove(a) => remove_spec(w, a),
    }
}

/// The whole value after editing the node that the selector addresses from
/// position `p` on; the selector is read exactly as `walk` reads it.
pub open spec fn edit_walk(v: Val, s: Seq<char>, p: int, e: EditModel) -> Result<Val, EditErr>
    decreases s.len() - p,
{
    if p < 0 || p >= s.len() {
        match apply_spec(v, e) {
            Ok(w) => Ok(w),
            Err(u) => Err(EditErr::Update(u)),
        }
    } else {
        match v {
            Val::Dict(es) => {
                if s[p] == '[' {
                    Err(EditErr::Select(SelErr::Indexable(context(s, p + 1))))
                } else {
                    match key_step(s, p) {
                        Err(x) => Err(EditErr::Select(x)),
                        Ok((k, q)) => {
                            let i = find_key(es, encode_utf8(k), 0);
                            if i >= es.len() {
                                Err(EditErr::Select(SelErr::Key(context(s, q), k)))
                            } else {
                                let w = es[i].1;
                                let r = if q <= p || q >= s.len() {
                                    match apply_spec(w, e) {
                                        Ok(w2) => Ok(w2),
                                        Err(u) => Err(EditErr::Update(u)),
                                    }
                                } else if is_container(w) {
                                    edit_walk(w, s, q, e)
                                } else {
                                    Err(EditErr::Select(SelErr::Primitive(context(s, q))))
                                };
                                match r {
                                    Ok(w2) => Ok(Val::Dict(es.update(i, (es[i].0, w2)))),
                                    Err(x) => Err(x),
                                }
                            }
                        },
                    }
                }
            },
            Val::List(items) => {
                if s[p] == '.' {
                    Err(EditErr::Select(SelErr::Subscriptable(context(s, p + 1))))
                } else {
                    match index_step(s, p) {
                        Err(x) => Err(EditErr::Select(x)),
                        Ok((n, q)) => if n >= items.len() {
                            Err(EditErr::Select(SelErr::Index(context(s, q), n)))
                        } else {
                            let w = items[n as int];
                            let r = if q <= p || q >= s.len() {
                                match apply_spec(w, e) {
                                    Ok(w2) => Ok(w2),
                                    Err(u) => Err(EditErr::Update(u)),
                                }
                            } else if is_container(w) {
                                edit_walk(w, s, q, e)
                            } else {
                                Err(EditErr::Select(SelErr::Primitive(context(s, q))))
                            };
                            match r {
                                Ok(w2) => Ok(Val::List(items.update(n as int, w2))),
                                Err(x) => Err(x),
                            }
                        },
                    }
                }
            },
            _ => Err(EditErr::Select(SelErr::Primitive(context(s, p)))),
        }
    }
}

/// The value after editing the node that a selector addresses.
pub open spec fn edit_spec(v: Val, s: Seq<char>, e: EditModel) -> Result<Val, EditErr> {
    if s.len() == 0 {
        edit_walk(v, s, 0, e)
    } else if !is_container(v) {
        Err(EditErr::Select(SelErr::Primitive("<root>"@)))
    } else {
        edit_walk(v, s, 0, e)
    }
}

impl Value {
    /// Applies an edit to this node.
    pub fn apply(&mut self, e: Edit) -> (r: Result<(), UpdateError>)
        ensures
            match apply_spec(old(self)@, e@) {
                Ok(w) => r is Ok && final(self)@ == w,
                Err(u) => r == Err::<(), UpdateError>(u) && final(self)@ == old(self)@,
            },
    {
        match e {
            Edit::Replace(x) => {
                *self = x;
                Ok(())
            },
            Edit::Clear => {
                self.clear();
                Ok(())
            },
            Edit::Insert(a, x) => self.insert(a, x),
            Edit::Push(x) => self.push(x),
            Edit::Remove(a) => self.remove(a),
        }
    }

    fn edit_from(&mut self, s: &str, len: usize, p: usize, e: Edit) -> (r: Result<(), EditError>)
        requires
            len == s@.len(),
            p < len,
        ensures
            match edit_walk(old(self)@, s@, p as int, e@) {
                Ok(w) => r is Ok && final(self)@ == w,
                Err(x) => r is Err && r->Err_0.model() == x && final(self)@ == old(self)@,
            },
        decreases len - p,
    {
        match self {
            Value::Dict(es) => {
                if s.get_char(p) == '[' {
                    return Err(EditError::Select(SelectError::Indexable(context_of(s, p + 1))));
                }
                let (key, q) = match Value::parse_key_selector(s, len, p) {
                    Ok(kq) => kq,
                    Err(x) => {
                        return Err(EditError::Select(x));
                    },
                };
                proof {
                    lemma_scan_key_bound(s@, p + 1, Seq::empty(), false);
                }
                let kb = key.as_str().as_bytes();
                proof {
                    lemma_entries_view(es@);
                    lemma_find_key(entries_view(es@), kb@, 0);
                }
                let i = match entries_find(es, kb) {
                    None => {
                        return Err(EditError::Select(SelectError::Key(context_of(s, q), key)));
                    },
                    Some(i) => i,
                };
                let ghost ev = entries_view(es@);
                let ghost w0 = es@[i as int].1;
                let r = if q >= len {
                    match es[i].1.apply(e) {
                        Ok(()) => Ok(()),
                        Err(u) => Err(EditError::Update(u)),
                    }
                } else if es[i].1.is_container() {
                    es[i].1.edit_from(s, len, q, e)
                } else {
                    return Err(EditError::Select(SelectError::Primitive(context_of(s, q))));
                };
                proof {
                    lemma_entries_view(es@);
                    assert(entries_view(es@) =~= ev.update(i as int, (ev[i as int].0, es@[i as int].1@)));
                    if r is Err {
                        assert(entries_view(es@) =~= ev);
                    }
                }
                r
            },
            Value::List(items) => {
                if s.get_char(p) == '.' {
                    return Err(EditError::Select(SelectError::Subscriptable(context_of(s, p + 1))));
                }
                let (n, q) = match Value::parse_index_selector(s, len, p) {
                    Ok(nq) => nq,
                    Err(x) => {
                        return Err(EditError::Select(x));
                    },
                };
                proof {
                    lemma_scan_index_bound(s@, p + 1);
                    lemma_items_view(items@);
                }
                if n >= items.len() {
                    return Err(EditError::Select(SelectError::Index(context_of(s, q), n)));
                }
                let ghost iv = items_view(items@);
                let r = if q >= len {
                    match items[n].apply(e) {
                        Ok(()) => Ok(()),
                        Err(u) => Err(EditError::Update(u)),
                    }
                } else if items[n].is_container() {
                    items[n].edit_from(s, len, q, e)
                } else {
                    return Err(EditError::Select(SelectError::Primitive(context_of(s, q))));
                };
                proof {
                    lemma_items_view(items@);
                    assert(items_view(items@) =~= iv.update(n as int, items@[n as int]@));
                    if r is Err {
                        assert(items_view(items@) =~= iv);
                    }
                }
                r
            },
            _ => {
                return Err(EditError::Select(SelectError::Primitive(context_of(s, p))));
            },
        }
    }

    /// Applies an edit to the node that `selector` addresses, reading the
    /// selector as `select` does. On any error the value is unchanged.
    pub fn edit(&mut self, selector: &str, e: Edit) -> (r: Result<(), EditError>)
        ensures
            match edit_spec(old(self)@, selector@, e@) {
                Ok(w) => r is Ok && final(self)@ == w,
                Err(x) => r is Err && r->Err_0.model() == x && final(self)@ == old(self)@,
            },
    {
        let len = selector.unicode_len();
        if len == 0 {
            return match self.apply(e) {
                Ok(()) => Ok(()),
                Err(u) => Err(EditError::Update(u)),
            };
        }
        if !self.is_container() {
            proof {
                reveal_strlit("<root>");
            }
            return Err(EditError::Select(SelectError::Primitive(String::from_str("<root>"))));
        }
        self.edit_from(selector, len, 0, e)
    }
}

/// The accessor at position `p` and where the next one starts.
pub open spec fn accessor_step(s: Seq<char>, p: int) -> Result<(Acc, int), SelErr> {
    if s[p] == '[' {
        match index_step(s, p) {
            Ok((n, q)) => Ok((Acc::Index(n), q)),
            Err(x) => Err(x),
        }
    } else {
        match key_step(s, p) {
            Ok((k, q)) => Ok((Acc::Key(encode_utf8(k)), q)),
            Err(x) => Err(x),
        }
    }
}

/// Where the last accessor of the selector starts, from position `p` on,
/// and that accessor.
pub open spec fn last_accessor(s: Seq<char>, p: int) -> Result<(int, Acc), SelErr>
    decreases s.len() - p,
{
    if p < 0 || p >= s.len() {
        Err(SelErr::End)
    } else {
        match accessor_step(s, p) {
            Err(x) => Err(x),
            Ok((a, q)) => if q <= p || q >= s.len() {
                Ok((p, a))
            } else {
                last_accessor(s, q)
            },
        }
    }
}

/// Removing the node that a selector addresses: the node must exist; its
/// parent, addressed by the selector without its last accessor, loses it.
pub open spec fn remove_path_spec(v: Val, s: Seq<char>) -> Result<Val, EditErr> {
    match select_spec(v, s) {
        Err(x) => Err(EditErr::Select(x)),
        Ok(_) => match last_accessor(s, 0) {
            Err(x) => Err(EditErr::Select(x)),
            Ok((t, a)) => edit_spec(v, s.subrange(0, t), EditModel::Remove(a)),
        },
    }
}

/// The node that a selector addresses, when it does.
pub open spec fn selected(v: Val, s: Seq<char>) -> Option<Val> {
    match select_spec(v, s) {
        Ok(w) => Some(w),
        Err(_) => None,
    }
}

impl Value {
    /// Removes the node that `selector` addresses from its parent. On any
    /// error the value is unchanged.
    pub fn remove_path(&mut self, selector: &str) -> (r: Result<(), EditError>)
        ensures
            match remove_path_spec(old(self)@, selector@) {
                Ok(w) => r is Ok && final(self)@ == w,
                Err(x) => r is Err && r->Err_0.model() == x && final(self)@ == old(self)@,
            },
    {
        match self.select(selector) {
            Err(x) => {
                return Err(EditError::Select(x));
            },
            Ok(_) => {},
        }
        let len = selector.unicode_len();
        if len == 0 {
            return Err(EditError::Select(SelectError::End));
        }
        let mut p: usize = 0;
        loop
            invariant
                len == selector@.len(),
                p < len,
                last_accessor(selector@, 0) == last_accessor(selector@, p as int),
                select_spec(old(self)@, selector@) is Ok,
                self@ == old(self)@,
            decreases len - p,
        {
            let (a, q) = if selector.get_char(p) == '[' {
                match Value::parse_index_selector(selector, len, p) {
                    Ok((n, q)) => (Accessor::Index(n), q),
                    Err(x) => {
                        return Err(EditError::Select(x));
                    },
                }
            } else {
                match Value::parse_key_selector(selector, len, p) {
                    Ok((k, q)) => {
                        let kb = vstd::slice::slice_to_vec(k.as_str().as_bytes());
                        (Accessor::Key(kb), q)
                    },
                    Err(x) => {
                        return Err(EditError::Select(x));
                    },
                }
            };
            if q <= p || q >= len {
                let parent = selector.substring_char(0, p);
                return self.edit(parent, Edit::Remove(a));
            }
            p = q;
        }
    }

    /// Replaces the node that `selector` addresses with `v`. Yields whether
    /// the structural hash of that node changed.
    pub fn set(&mut self, selector: &str, v: Value) -> (r: Result<bool, EditError>)
        ensures
            match edit_spec(old(self)@, selector@, EditModel::Replace(v@)) {
                Ok(w) => r is Ok && final(self)@ == w && r->Ok_0 == (selected(old(self)@, selector@)
                    is Some && hash_of(selected(old(self)@, selector@)->0) != hash_of(v@)),
                Err(x) => r is Err && r->Err_0.model() == x && final(self)@ == old(self)@,
            },
    {
        let old_hash = match self.select(selector) {
            Ok(w) => Some(w.structural_hash()),
            Err(_) => None,
        };
        let new_hash = v.structural_hash();
        match self.edit(selector, Edit::Replace(v)) {
            Ok(()) => Ok(
                match old_hash {
                    Some(h) => h != new_hash,
                    None => false,
                },
            ),
            Err(x) => Err(x),
        }
    }
}

} // verus!
