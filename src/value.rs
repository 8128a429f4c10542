use vstd::prelude::*;
use vstd::string::StringSliceAdditionalSpecFns;
use vstd::utf8::valid_utf8;
use crate::text::utf8_text;

verus! {

/// Mathematical model of a Bencode value.
pub enum Val {
    Int(int),
    Str(Seq<u8>),
    Dict(Seq<(Seq<u8>, Val)>),
    List(Seq<Val>),
}

/// Strict lexicographic order on byte strings.
pub open spec fn bytes_lt(a: Seq<u8>, b: Seq<u8>) -> bool
    decreases a.len(),
{
    if a.len() == 0 {
        b.len() > 0
    } else if b.len() == 0 {
        false
    } else if a[0] != b[0] {
        a[0] < b[0]
    } else {
        bytes_lt(a.drop_first(), b.drop_first())
    }
}

/// The keys of a dictionary model are strictly ascending.
pub open spec fn keys_sorted(es: Seq<(Seq<u8>, Val)>) -> bool {
    forall|i: int, j: int| 0 <= i < j < es.len() ==> bytes_lt(#[trigger] es[i].0, #[trigger] es[j].0)
}

impl Val {
    /// Well-formed: every dictionary in the tree has strictly ascending keys.
    pub open spec fn wf(self) -> bool
        decreases self,
    {
        match self {
            Val::Int(n) => i64::MIN <= n <= i64::MAX,
            Val::Str(b) => b.len() <= u64::MAX,
            Val::Dict(es) => keys_sorted(es) && forall|i: int|
                0 <= i < es.len() ==> (#[trigger] es[i]).1.wf() && es[i].0.len() <= u64::MAX,
            Val::List(items) => forall|i: int| 0 <= i < items.len() ==> (#[trigger] items[i]).wf(),
        }
    }
}

/// An owned Bencode value.
#[derive(Debug)]
pub enum Value {
    Int(i64),
    Str(Vec<u8>),
    Dict(Vec<(Vec<u8>, Value)>),
    List(Vec<Value>),
}

pub open spec fn items_view(s: Seq<Value>) -> Seq<Val>
    decreases s,
{
    if s.len() == 0 {
        Seq::empty()
    } else {
        items_view(s.subrange(0, s.len() - 1)).push(s[s.len() - 1].view())
    }
}

pub open spec fn entries_view(s: Seq<(Vec<u8>, Value)>) -> Seq<(Seq<u8>, Val)>
    decreases s,
{
    if s.len() == 0 {
        Seq::empty()
    } else {
        entries_view(s.subrange(0, s.len() - 1)).push(
            (s[s.len() - 1].0@, s[s.len() - 1].1.view()),
        )
    }
}

impl View for Value {
    type V = Val;

    open spec fn view(&self) -> Val
        decreases self,
    {
        match self {
            Value::Int(n) => Val::Int(*n as int),
            Value::Str(b) => Val::Str(b@),
            Value::Dict(es) => Val::Dict(entries_view(es@)),
            Value::List(items) => Val::List(items_view(items@)),
        }
    }
}


pub proof fn lemma_items_view(s: Seq<Value>)
    ensures
        items_view(s).len() == s.len(),
        forall|i: int| 0 <= i < s.len() ==> #[trigger] items_view(s)[i] == s[i]@,
    decreases s.len(),
{
    if s.len() > 0 {
        let t = s.subrange(0, s.len() - 1);
        lemma_items_view(t);
        assert(items_view(s) == items_view(t).push(s[s.len() - 1].view()));
    }
}

pub proof fn lemma_entries_view(s: Seq<(Vec<u8>, Value)>)
    ensures
        entries_view(s).len() == s.len(),
        forall|i: int|
            0 <= i < s.len() ==> #[trigger] entries_view(s)[i] == (s[i].0@, s[i].1@),
    decreases s.len(),
{
    if s.len() > 0 {
        let t = s.subrange(0, s.len() - 1);
        lemma_entries_view(t);
        assert(entries_view(s) == entries_view(t).push((s[s.len() - 1].0@, s[s.len() - 1].1.view())));
    }
}

fn copy_bytes(b: &Vec<u8>) -> (r: Vec<u8>)
    ensures
        r@ == b@,
{
    let mut r: Vec<u8> = Vec::new();
    let mut i: usize = 0;
    while i < b.len()
        invariant
            i <= b@.len(),
            r@ == b@.subrange(0, i as int),
        decreases b@.len() - i,
    {
        r.push(b[i]);
        i += 1;
        assert(r@ =~= b@.subrange(0, i as int));
    }
    assert(r@ =~= b@);
    r
}

fn bytes_eq(a: &Vec<u8>, b: &Vec<u8>) -> (r: bool)
    ensures
        r == (a@ == b@),
{
    if a.len() != b.len() {
        return false;
    }
    let mut i: usize = 0;
    while i < a.len()
        invariant
            a@.len() == b@.len(),
            i <= a@.len(),
            forall|j: int| 0 <= j < i ==> a@[j] == b@[j],
        decreases a@.len() - i,
    {
        if a[i] != b[i] {
            return false;
        }
        i += 1;
    }
    assert(a@ =~= b@);
    true
}

impl Value {
    /// A deep copy of this value.
    pub fn deep_copy(&self) -> (r: Value)
        ensures
            r@ == self@,
        decreases self,
    {
        match self {
            Value::Int(n) => Value::Int(*n),
            Value::Str(b) => Value::Str(copy_bytes(b)),
            Value::List(items) => {
                let mut out: Vec<Value> = Vec::new();
                let mut i: usize = 0;
                while i < items.len()
                    invariant
                        *self == Value::List(*items),
                        i <= items@.len(),
                        out@.len() == i,
                        forall|j: int| 0 <= j < i ==> (#[trigger] out@[j])@ == items@[j]@,
                    decreases items@.len() - i,
                {
                    proof {
                        vstd::std_specs::vec::axiom_vec_index_decreases(*items, i as int);
                        assert(decreases_to!(*self => (*self)->List_0));
                    }
                    let c = items[i].deep_copy();
                    out.push(c);
                    i += 1;
                }
                proof {
                    lemma_items_view(out@);
                    lemma_items_view(items@);
                    assert(items_view(out@) =~= items_view(items@));
                }
                Value::List(out)
            },
            Value::Dict(es) => {
                let mut out: Vec<(Vec<u8>, Value)> = Vec::new();
                let mut i: usize = 0;
                while i < es.len()
                    invariant
                        *self == Value::Dict(*es),
                        i <= es@.len(),
                        out@.len() == i,
                        forall|j: int|
                            0 <= j < i ==> (#[trigger] out@[j]).0@ == es@[j].0@ && out@[j].1@
                                == es@[j].1@,
                    decreases es@.len() - i,
                {
                    proof {
                        vstd::std_specs::vec::axiom_vec_index_decreases(*es, i as int);
                        assert(decreases_to!(*self => (*self)->Dict_0));
                        assert(decreases_to!(es[i as int] => es[i as int].1));
                    }
                    let k = copy_bytes(&es[i].0);
                    let c = es[i].1.deep_copy();
                    out.push((k, c));
                    i += 1;
                }
                proof {
                    lemma_entries_view(out@);
                    lemma_entries_view(es@);
                    assert(entries_view(out@) =~= entries_view(es@));
                }
                Value::Dict(out)
            },
        }
    }
}

impl Value {
    /// Structural equality: the same kind and the same contents.
    pub fn equals(&self, o: &Value) -> (r: bool)
        ensures
            r == (self@ == o@),
        decreases self,
    {
        match (self, o) {
            (Value::Int(a), Value::Int(b)) => *a == *b,
            (Value::Str(a), Value::Str(b)) => bytes_eq(a, b),
            (Value::List(a), Value::List(b)) => {
                proof {
                    lemma_items_view(a@);
                    lemma_items_view(b@);
                }
                if a.len() != b.len() {
                    return false;
                }
                let mut i: usize = 0;
                while i < a.len()
                    invariant
                        *self == Value::List(*a),
                        *o == Value::List(*b),
                        a@.len() == b@.len(),
                        i <= a@.len(),
                        forall|j: int| 0 <= j < i ==> a@[j]@ == b@[j]@,
                    decreases a@.len() - i,
                {
                    proof {
                        vstd::std_specs::vec::axiom_vec_index_decreases(*a, i as int);
                        assert(decreases_to!(*self => (*self)->List_0));
                    }
                    if !a[i].equals(&b[i]) {
                        proof {
                            lemma_items_view(a@);
                            lemma_items_view(b@);
                            assert(items_view(a@)[i as int] != items_view(b@)[i as int]);
                        }
                        return false;
                    }
                    i += 1;
                }
                proof {
                    lemma_items_view(a@);
                    lemma_items_view(b@);
                    assert(items_view(a@) =~= items_view(b@));
                }
                true
            },
            (Value::Dict(a), Value::Dict(b)) => {
                proof {
                    lemma_entries_view(a@);
                    lemma_entries_view(b@);
                }
                if a.len() != b.len() {
                    return false;
                }
                let mut i: usize = 0;
                while i < a.len()
                    invariant
                        *self == Value::Dict(*a),
                        *o == Value::Dict(*b),
                        a@.len() == b@.len(),
                        i <= a@.len(),
                        forall|j: int| 0 <= j < i ==> a@[j].0@ == b@[j].0@ && a@[j].1@ == b@[j].1@,
                    decreases a@.len() - i,
                {
                    proof {
                        vstd::std_specs::vec::axiom_vec_index_decreases(*a, i as int);
                        assert(decreases_to!(*self => (*self)->Dict_0));
                        assert(decreases_to!(a[i as int] => a[i as int].1));
                    }
                    if !bytes_eq(&a[i].0, &b[i].0) || !a[i].1.equals(&b[i].1) {
                        proof {
                            lemma_entries_view(a@);
                            lemma_entries_view(b@);
                            assert(entries_view(a@)[i as int] != entries_view(b@)[i as int]);
                        }
                        return false;
                    }
                    i += 1;
                }
                proof {
                    lemma_entries_view(a@);
                    lemma_entries_view(b@);
                    assert(entries_view(a@) =~= entries_view(b@));
                }
                true
            },
            _ => false,
        }
    }
}

/// The kind name of a value model: `int`, `str` (text), `bytes` (not
/// UTF-8), `dict` or `list`.
pub open spec fn kind_name(v: Val) -> Seq<char> {
    match v {
        Val::Int(_) => "int"@,
        Val::Str(b) => if valid_utf8(b) {
            "str"@
        } else {
            "bytes"@
        },
        Val::Dict(_) => "dict"@,
        Val::List(_) => "list"@,
    }
}

impl Value {
    /// Ownership of children is never shared, so this is the value itself.
    pub fn unref(self) -> (r: Value)
        ensures
            r@ == self@,
    {
        self
    }

    /// Values never refer to shared containers.
    pub fn is_ref(&self) -> (r: bool)
        ensures
            !r,
    {
        false
    }

    pub fn is_int(&self) -> (r: bool)
        ensures
            r == self@ is Int,
    {
        match self {
            Value::Int(_) => true,
            _ => false,
        }
    }

    /// A byte string that is valid UTF-8 text.
    pub fn is_str(&self) -> (r: bool)
        ensures
            r == (self@ is Str && valid_utf8(self@->Str_0)),
    {
        match self {
            Value::Str(b) => utf8_text(b.as_slice()).is_some(),
            _ => false,
        }
    }

    /// A byte string that is not valid UTF-8.
    pub fn is_bytes(&self) -> (r: bool)
        ensures
            r == (self@ is Str && !valid_utf8(self@->Str_0)),
    {
        match self {
            Value::Str(b) => utf8_text(b.as_slice()).is_none(),
            _ => false,
        }
    }

    pub fn is_dict(&self) -> (r: bool)
        ensures
            r == self@ is Dict,
    {
        match self {
            Value::Dict(_) => true,
            _ => false,
        }
    }

    pub fn is_list(&self) -> (r: bool)
        ensures
            r == self@ is List,
    {
        match self {
            Value::List(_) => true,
            _ => false,
        }
    }

    /// A dict or a list.
    pub fn is_container(&self) -> (r: bool)
        ensures
            r == (self@ is Dict || self@ is List),
    {
        match self {
            Value::Dict(_) | Value::List(_) => true,
            _ => false,
        }
    }

    pub fn to_i64(&self) -> (r: Option<i64>)
        ensures
            match self@ {
                Val::Int(n) => r == Some(n as i64) && r->0 as int == n,
                _ => r is None,
            },
    {
        match self {
            Value::Int(n) => Some(*n),
            _ => None,
        }
    }

    /// The text of a byte string that is valid UTF-8.
    pub fn to_str(&self) -> (r: Option<&str>)
        ensures
            match self@ {
                Val::Str(b) => if valid_utf8(b) {
                    r is Some && r->0.spec_bytes() == b
                } else {
                    r is None
                },
                _ => r is None,
            },
    {
        match self {
            Value::Str(b) => utf8_text(b.as_slice()),
            _ => None,
        }
    }

    /// The bytes of a byte string.
    pub fn to_bytes(&self) -> (r: Option<&[u8]>)
        ensures
            match self@ {
                Val::Str(b) => r is Some && r->0@ == b,
                _ => r is None,
            },
    {
        match self {
            Value::Str(b) => Some(b.as_slice()),
            _ => None,
        }
    }

    /// The entries of a dict, in ascending key order when well-formed.
    pub fn to_map(&self) -> (r: Option<&Vec<(Vec<u8>, Value)>>)
        ensures
            match self@ {
                Val::Dict(es) => r is Some && entries_view(r->0@) == es,
                _ => r is None,
            },
    {
        match self {
            Value::Dict(es) => Some(es),
            _ => None,
        }
    }

    /// The items of a list.
    pub fn to_vec(&self) -> (r: Option<&Vec<Value>>)
        ensures
            match self@ {
                Val::List(items) => r is Some && items_view(r->0@) == items,
                _ => r is None,
            },
    {
        match self {
            Value::List(items) => Some(items),
            _ => None,
        }
    }

    /// The kind name of a value, for diagnostics.
    pub fn value_type(value: &Self) -> (r: &'static str)
        ensures
            r@ == kind_name(value@),
    {
        proof {
            reveal_strlit("int");
            reveal_strlit("str");
            reveal_strlit("bytes");
            reveal_strlit("dict");
            reveal_strlit("list");
        }
        match value {
            Value::Int(_) => "int",
            Value::Str(b) => if utf8_text(b.as_slice()).is_some() {
                "str"
            } else {
                "bytes"
            },
            Value::Dict(_) => "dict",
            Value::List(_) => "list",
        }
    }

    /// An empty dict.
    pub fn new_dict() -> (r: Value)
        ensures
            r@ == Val::Dict(Seq::empty()),
    {
        let es: Vec<(Vec<u8>, Value)> = Vec::new();
        assert(entries_view(es@) =~= Seq::empty());
        Value::Dict(es)
    }

    /// An empty list.
    pub fn new_list() -> (r: Value)
        ensures
            r@ == Val::List(Seq::empty()),
    {
        let items: Vec<Value> = Vec::new();
        assert(items_view(items@) =~= Seq::empty());
        Value::List(items)
    }
}

impl PartialEq for Value {
    fn eq(&self, o: &Value) -> (r: bool) {
        self.equals(o)
    }
}

impl vstd::std_specs::cmp::PartialEqSpecImpl for Value {
    open spec fn obeys_eq_spec() -> bool {
        true
    }

    open spec fn eq_spec(&self, o: &Value) -> bool {
        self@ == o@
    }
}

impl Eq for Value {}

impl Clone for Value {
    fn clone(&self) -> (r: Value)
        ensures
            r@ == self@,
    {
        self.deep_copy()
    }
}

} // verus!

