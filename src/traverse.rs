use vstd::prelude::*;
use crate::value::{entries_view, items_view, lemma_entries_view, lemma_items_view, Val, Value};

verus! {

/// What a visitor asks the traversal to do next.
#[derive(PartialEq, Eq, Structural, Clone, Copy, Debug)]
pub enum TraverseAction {
    /// Go on with the next sibling.
    Continue,
    /// Descend into the value just visited, when it is a container.
    Enter,
    /// Leave the current container, skipping its remaining children.
    Exit,
    /// End the traversal.
    Stop,
}

/// Receives the steps of a depth-first traversal.
pub trait Visitor {
    /// Called for each child of a container: with its key when the
    /// container is a dict, or its index when it is a list, the container,
    /// and the child. Called once more when the traversal leaves a container
    /// after its last child, with no key, index or value.
    fn visit(
        &mut self,
        key: Option<&[u8]>,
        index: Option<usize>,
        parent: &Value,
        value: Option<&Value>,
    ) -> TraverseAction;
}

/// Nodes in a value, counting each container twice (entry and exit).
pub open spec fn size(v: Val) -> nat
    decreases v, 0nat,
{
    match v {
        Val::Dict(es) => 2 + entries_size_from(es, 0),
        Val::List(items) => 2 + items_size_from(items, 0),
        _ => 1,
    }
}

pub open spec fn items_size_from(items: Seq<Val>, i: int) -> nat
    decreases items, (items.len() - i) as nat,
{
    if i < 0 || i >= items.len() {
        0
    } else {
        size(items[i]) + items_size_from(items, i + 1)
    }
}

pub open spec fn entries_size_from(es: Seq<(Seq<u8>, Val)>, i: int) -> nat
    decreases es, (es.len() - i) as nat,
{
    if i < 0 || i >= es.len() {
        0
    } else {
        size(es[i].1) + entries_size_from(es, i + 1)
    }
}

/// Work left in a container whose children before `i` are done.
pub open spec fn frame_rest(c: Val, i: int) -> nat {
    match c {
        Val::Dict(es) => entries_size_from(es, i) + 1,
        Val::List(items) => items_size_from(items, i) + 1,
        _ => 1,
    }
}

pub open spec fn stack_rest(s: Seq<(Val, int)>) -> nat
    decreases s.len(),
{
    if s.len() == 0 {
        0
    } else {
        stack_rest(s.drop_last()) + frame_rest(s.last().0, s.last().1)
    }
}

pub open spec fn stack_view(s: Seq<(&Value, usize)>) -> Seq<(Val, int)> {
    s.map_values(|f: (&Value, usize)| (f.0@, f.1 as int))
}

pub open spec fn child_count(c: Val) -> int {
    match c {
        Val::Dict(es) => es.len() as int,
        Val::List(items) => items.len() as int,
        _ => 0,
    }
}

proof fn lemma_size_pos(v: Val)
    ensures
        size(v) >= 1,
{
}

/// The child of container `c` at position `i`.
pub open spec fn child_at(c: Val, i: int) -> Val {
    match c {
        Val::Dict(es) => es[i].1,
        Val::List(items) => items[i],
        _ => c,
    }
}

/// Model of one visit: the key (in a dict) or index (in a list), the
/// container, and the child; no key, index or child when the container is
/// being left.
pub struct VisitModel {
    pub key: Option<Seq<u8>>,
    pub index: Option<nat>,
    pub parent: Val,
    pub value: Option<Val>,
}

/// Every frame of a walk is a container, with its next position in bounds.
pub open spec fn walk_ok(s: Seq<(Val, int)>) -> bool {
    forall|j: int|
        0 <= j < s.len() ==> {
            let f = #[trigger] s[j];
            &&& (f.0 is Dict || f.0 is List)
            &&& 0 <= f.1 <= child_count(f.0)
        }
}

/// The walk of a value before its first visit.
pub open spec fn walk_start(v: Val) -> Seq<(Val, int)> {
    if v is Dict || v is List {
        seq![(v, 0)]
    } else {
        Seq::empty()
    }
}

/// The next visit of a walk, or none when the walk is over.
pub open spec fn walk_event(s: Seq<(Val, int)>) -> Option<VisitModel> {
    if s.len() == 0 {
        None
    } else {
        let c = s.last().0;
        let i = s.last().1;
        if 0 <= i < child_count(c) {
            Some(
                VisitModel {
                    key: if c is Dict {
                        Some(c->Dict_0[i].0)
                    } else {
                        None
                    },
                    index: if c is List {
                        Some(i as nat)
                    } else {
                        None
                    },
                    parent: c,
                    value: Some(child_at(c, i)),
                },
            )
        } else {
            Some(VisitModel { key: None, index: None, parent: c, value: None })
        }
    }
}

/// The walk after the visitor answered the current visit with `a`: `Stop`
/// ends it; on a child, `Exit` leaves the container, `Enter` on a container
/// child descends into it, anything else goes on to the next sibling; after
/// the exit visit of a container the walk resumes in its parent.
pub open spec fn walk_after(s: Seq<(Val, int)>, a: TraverseAction) -> Seq<(Val, int)> {
    if s.len() == 0 {
        s
    } else if a == TraverseAction::Stop {
        Seq::empty()
    } else {
        let c = s.last().0;
        let i = s.last().1;
        let rest = s.drop_last();
        if 0 <= i < child_count(c) {
            if a == TraverseAction::Exit {
                rest
            } else {
                let next = rest.push((c, i + 1));
                let w = child_at(c, i);
                if a == TraverseAction::Enter && (w is Dict || w is List) {
                    next.push((w, 0))
                } else {
                    next
                }
            }
        } else {
            rest
        }
    }
}

/// One visit of a walk.
pub struct Visit<'a> {
    pub key: Option<&'a [u8]>,
    pub index: Option<usize>,
    pub parent: &'a Value,
    pub value: Option<&'a Value>,
}

impl<'a> Visit<'a> {
    pub open spec fn model(&self) -> VisitModel {
        VisitModel {
            key: match self.key {
                Some(k) => Some(k@),
                None => None,
            },
            index: match self.index {
                Some(i) => Some(i as nat),
                None => None,
            },
            parent: self.parent@,
            value: match self.value {
                Some(v) => Some(v@),
                None => None,
            },
        }
    }
}

pub open spec fn visit_view(r: Option<Visit>) -> Option<VisitModel> {
    match r {
        Some(x) => Some(x.model()),
        None => None,
    }
}

/// A depth-first walk over a value, held as an explicit stack of
/// containers with the position of the next child in each.
pub struct Walk<'a> {
    stack: Vec<(&'a Value, usize)>,
}

impl<'a> View for Walk<'a> {
    type V = Seq<(Val, int)>;

    closed spec fn view(&self) -> Seq<(Val, int)> {
        stack_view(self.stack@)
    }
}

impl<'a> Walk<'a> {
    /// The walk of `v`; empty when `v` is not a container.
    pub fn start(v: &'a Value) -> (r: Walk<'a>)
        ensures
            r@ == walk_start(v@),
            walk_ok(r@),
    {
        let mut stack: Vec<(&'a Value, usize)> = Vec::new();
        if v.is_container() {
            stack.push((v, 0));
        }
        let r = Walk { stack };
        assert(r@ =~= walk_start(v@));
        r
    }

    /// The next visit, or none when the walk is over.
    pub fn next_visit(&self) -> (r: Option<Visit<'a>>)
        requires
            walk_ok(self@),
        ensures
            visit_view(r) == walk_event(self@),
    {
        let n = self.stack.len();
        if n == 0 {
            return None;
        }
        let (c, i) = self.stack[n - 1];
        assert(self@.last() == (c@, i as int));
        match c {
            Value::Dict(es) => {
                proof {
                    lemma_entries_view(es@);
                }
                if i < es.len() {
                    Some(Visit { key: Some(es[i].0.as_slice()), index: None, parent: c, value: Some(&es[i].1) })
                } else {
                    Some(Visit { key: None, index: None, parent: c, value: None })
                }
            },
            Value::List(items) => {
                proof {
                    lemma_items_view(items@);
                }
                if i < items.len() {
                    Some(Visit { key: None, index: Some(i), parent: c, value: Some(&items[i]) })
                } else {
                    Some(Visit { key: None, index: None, parent: c, value: None })
                }
            },
            _ => {
                assert(walk_ok(self@) ==> (self@[n - 1].0 is Dict || self@[n - 1].0 is List));
                None
            },
        }
    }

    /// Moves on after the visitor answered the current visit with `a`.
    pub fn advance(&mut self, a: TraverseAction)
        requires
            walk_ok(old(self)@),
        ensures
            walk_ok(final(self)@),
            final(self)@ == walk_after(old(self)@, a),
            old(self)@.len() > 0 ==> stack_rest(final(self)@) < stack_rest(old(self)@),
    {
        let n = self.stack.len();
        if n == 0 {
            return;
        }
        let ghost before = self@;
        if a == TraverseAction::Stop {
            self.stack.clear();
            assert(self@ =~= Seq::<(Val, int)>::empty());
            assert(stack_rest(before) == stack_rest(before.drop_last()) + frame_rest(before.last().0, before.last().1));
            return;
        }
        let (c, i) = self.stack[n - 1];
        assert(before.last() == (c@, i as int));
        assert(before[n - 1] == before.last());
        assert(stack_rest(before) == stack_rest(before.drop_last()) + frame_rest(c@, i as int));
        let child: Option<&'a Value> = match c {
            Value::Dict(es) => {
                proof {
                    lemma_entries_view(es@);
                }
                if i < es.len() {
                    Some(&es[i].1)
                } else {
                    None
                }
            },
            Value::List(items) => {
                proof {
                    lemma_items_view(items@);
                }
                if i < items.len() {
                    Some(&items[i])
                } else {
                    None
                }
            },
            _ => None,
        };
        let _ = self.stack.pop();
        assert(self@ =~= before.drop_last());
        match child {
            None => {},
            Some(w) => {
                assert(w@ == child_at(c@, i as int));
                proof {
                    lemma_size_pos(w@);
                    match c@ {
                        Val::Dict(es) => {
                            assert(entries_size_from(es, i as int) == size(es[i as int].1)
                                + entries_size_from(es, i + 1));
                        },
                        Val::List(items) => {
                            assert(items_size_from(items, i as int) == size(items[i as int])
                                + items_size_from(items, i + 1));
                        },
                        _ => {},
                    }
                }
                if a != TraverseAction::Exit {
                    self.stack.push((c, i + 1));
                    let ghost mid = self@;
                    assert(mid =~= before.drop_last().push((c@, i + 1)));
                    assert(mid.drop_last() =~= before.drop_last());
                    assert(stack_rest(mid) == stack_rest(before.drop_last()) + frame_rest(c@, i + 1));
                    if a == TraverseAction::Enter && w.is_container() {
                        self.stack.push((w, 0));
                        let ghost after = self@;
                        assert(after =~= mid.push((w@, 0)));
                        assert(after.drop_last() =~= mid);
                        assert(stack_rest(after) == stack_rest(mid) + frame_rest(w@, 0));
                    }
                }
            },
        }
    }
}

impl Value {
    /// Walks this value depth first without recursion: for each visit of a
    /// `Walk` of this value, calls `visitor` with that visit and advances
    /// the walk with its answer, until the walk is over or the answer is
    /// `Stop`.
    pub fn traverse<V: Visitor>(&self, visitor: &mut V) {
        let mut w = Walk::start(self);
        loop
            invariant
                walk_ok(w@),
            decreases stack_rest(w@),
        {
            match w.next_visit() {
                None => {
                    return;
                },
                Some(ev) => {
                    let a = visitor.visit(ev.key, ev.index, ev.parent, ev.value);
                    if a == TraverseAction::Stop {
                        return;
                    }
                    w.advance(a);
                },
            }
        }
    }
}

} // verus!
