use vstd::prelude::*;
use crate::value::{entries_view, items_view, lemma_entries_view, lemma_items_view, Val, Value};

verus! {

/// Decimal digits of a natural number, most significant first, without
/// leading zeros.
pub open spec fn digits_of(n: nat) -> Seq<u8>
    decreases n,
{
    if n < 10 {
        seq![(48 + n) as u8]
    } else {
        digits_of(n / 10).push((48 + n % 10) as u8)
    }
}

/// Decimal text of an integer, with a leading `-` when negative.
pub open spec fn decimal(n: int) -> Seq<u8> {
    if n < 0 {
        seq![45u8] + digits_of((-n) as nat)
    } else {
        digits_of(n as nat)
    }
}

/// Bencode form of a byte string: its length, `:`, its bytes.
pub open spec fn enc_str(b: Seq<u8>) -> Seq<u8> {
    digits_of(b.len()) + seq![58u8] + b
}

/// Bencode serialisation of a value model.
pub open spec fn enc(v: Val) -> Seq<u8>
    decreases v,
{
    match v {
        Val::Int(n) => seq![105u8] + decimal(n) + seq![101u8],
        Val::Str(b) => enc_str(b),
        Val::List(items) => seq![108u8] + enc_items(items) + seq![101u8],
        Val::Dict(es) => seq![100u8] + enc_entries(es) + seq![101u8],
    }
}

/// Concatenated serialisations of list items, in order.
pub open spec fn enc_items(items: Seq<Val>) -> Seq<u8>
    decreases items,
{
    if items.len() == 0 {
        Seq::empty()
    } else {
        enc_items(items.subrange(0, items.len() - 1)) + enc(items[items.len() - 1])
    }
}

/// Concatenated serialisations of dictionary entries, in order.
pub open spec fn enc_entries(es: Seq<(Seq<u8>, Val)>) -> Seq<u8>
    decreases es,
{
    if es.len() == 0 {
        Seq::empty()
    } else {
        enc_entries(es.subrange(0, es.len() - 1)) + enc_str(es[es.len() - 1].0) + enc(
            es[es.len() - 1].1,
        )
    }
}

/// Appends the decimal digits of `n`.
pub fn push_digits(n: u64, out: &mut Vec<u8>)
    ensures
        final(out)@ == old(out)@ + digits_of(n as nat),
    decreases n,
{
    if n >= 10 {
        push_digits(n / 10, out);
    }
    let d: u8 = (n % 10) as u8;
    out.push(48 + d);
    proof {
        if n >= 10 {
            assert(digits_of(n as nat) == digits_of((n / 10) as nat).push((48 + n % 10) as u8));
        }
    }
    assert(final(out)@ =~= old(out)@ + digits_of(n as nat));
}

/// Appends the decimal text of `n`.
pub fn push_decimal(n: i64, out: &mut Vec<u8>)
    ensures
        final(out)@ == old(out)@ + decimal(n as int),
{
    if n < 0 {
        out.push(45);
        let m: u64 = ((-(n + 1)) as u64) + 1;
        push_digits(m, out);
        assert(final(out)@ =~= old(out)@ + decimal(n as int));
    } else {
        push_digits(n as u64, out);
    }
}

fn push_bytes(b: &[u8], out: &mut Vec<u8>)
    ensures
        final(out)@ == old(out)@ + b@,
{
    let mut i: usize = 0;
    while i < b.len()
        invariant
            i <= b@.len(),
            out@ == old(out)@ + b@.subrange(0, i as int),
        decreases b@.len() - i,
    {
        out.push(b[i]);
        i += 1;
        assert(out@ =~= old(out)@ + b@.subrange(0, i as int));
    }
    assert(b@.subrange(0, b@.len() as int) =~= b@);
}

/// Appends a byte string in Bencode form: its length, `:`, its bytes.
pub fn push_string(b: &[u8], out: &mut Vec<u8>)
    ensures
        final(out)@ == old(out)@ + enc_str(b@),
{
    push_digits(b.len() as u64, out);
    out.push(58);
    push_bytes(b, out);
    assert(final(out)@ =~= old(out)@ + enc_str(b@));
}

impl Value {
    /// Appends the Bencode serialisation of this value to `out`. Dictionary
    /// entries are written in the order they are held, which for a
    /// well-formed value is ascending key order.
    pub fn encode(&self, out: &mut Vec<u8>)
        ensures
            final(out)@ == old(out)@ + enc(self@),
        decreases self,
    {
        match self {
            Value::Int(n) => {
                out.push(105);
                push_decimal(*n, out);
                out.push(101);
                assert(final(out)@ =~= old(out)@ + enc(self@));
            },
            Value::Str(b) => {
                push_string(b.as_slice(), out);
            },
            Value::List(items) => {
                out.push(108);
                let ghost start = out@;
                let mut i: usize = 0;
                while i < items.len()
                    invariant
                        *self == Value::List(*items),
                        i <= items@.len(),
                        out@ == start + enc_items(items_view(items@.subrange(0, i as int))),
                    decreases items@.len() - i,
                {
                    proof {
                        vstd::std_specs::vec::axiom_vec_index_decreases(*items, i as int);
                        assert(decreases_to!(*self => (*self)->List_0));
                    }
                    items[i].encode(out);
                    proof {
                        let s = items@.subrange(0, i + 1);
                        assert(s.subrange(0, s.len() - 1) =~= items@.subrange(0, i as int));
                        lemma_items_view(s);
                        assert(items_view(s).subrange(0, i as int) =~= items_view(
                            items@.subrange(0, i as int),
                        )) by {
                            lemma_items_view(items@.subrange(0, i as int));
                        }
                        assert(items_view(s)[i as int] == items@[i as int]@);
                    }
                    i += 1;
                }
                out.push(101);
                assert(items@.subrange(0, items@.len() as int) =~= items@);
                assert(final(out)@ =~= old(out)@ + enc(self@));
            },
            Value::Dict(es) => {
                out.push(100);
                let ghost start = out@;
                let mut i: usize = 0;
                while i < es.len()
                    invariant
                        *self == Value::Dict(*es),
                        i <= es@.len(),
                        out@ == start + enc_entries(entries_view(es@.subrange(0, i as int))),
                    decreases es@.len() - i,
                {
                    proof {
                        vstd::std_specs::vec::axiom_vec_index_decreases(*es, i as int);
                        assert(decreases_to!(*self => (*self)->Dict_0));
                        assert(decreases_to!(es[i as int] => es[i as int].1));
                    }
                    push_string(es[i].0.as_slice(), out);
                    es[i].1.encode(out);
                    proof {
                        let s = es@.subrange(0, i + 1);
                        assert(s.subrange(0, s.len() - 1) =~= es@.subrange(0, i as int));
                        lemma_entries_view(s);
                        assert(entries_view(s).subrange(0, i as int) =~= entries_view(
                            es@.subrange(0, i as int),
                        )) by {
                            lemma_entries_view(es@.subrange(0, i as int));
                        }
                        assert(entries_view(s)[i as int] == (es@[i as int].0@, es@[i as int].1@));
                    }
                    i += 1;
                }
                out.push(101);
                assert(es@.subrange(0, es@.len() as int) =~= es@);
                assert(final(out)@ =~= old(out)@ + enc(self@));
            },
        }
    }

    /// The Bencode serialisation of this value.
    pub fn to_bencode(&self) -> (r: Vec<u8>)
        ensures
            r@ == enc(self@),
    {
        let mut out: Vec<u8> = Vec::new();
        self.encode(&mut out);
        assert(out@ =~= enc(self@));
        out
    }
}

} // verus!
