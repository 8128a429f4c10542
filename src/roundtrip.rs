use vstd::prelude::*;
use crate::decode::{
    accumulate, decode, run, deliver, deliver_str, init_state, is_digit, run_from, settle, step, DecodeErr,
    Fault, Mode, PFrame, PState,
};
use crate::encode::{decimal, digits_of, enc, enc_entries, enc_items, enc_str};
use crate::order::{dict_insert, key_slot, lemma_first_not_less};
use crate::value::{bytes_lt, Val};

verus! {

/// No literal is in progress: the state is fixed by its mode, stack and root.
pub open spec fn quiet(st: PState) -> bool {
    st == settle(st.mode, st.frames, st.root)
}

pub open spec fn cap(n: nat) -> nat {
    if n < 33 {
        n
    } else {
        33
    }
}

pub open spec fn pow10(k: nat) -> nat
    decreases k,
{
    if k == 0 {
        1
    } else {
        10 * pow10((k - 1) as nat)
    }
}

proof fn lemma_concat(st: PState, a: Seq<u8>, b: Seq<u8>)
    requires
        run_from(st, a) is Ok,
        run_from(run_from(st, a)->Ok_0, b) is Ok,
    ensures
        run_from(st, a + b) == run_from(run_from(st, a)->Ok_0, b),
    decreases b.len(),
{
    if b.len() == 0 {
        assert(a + b =~= a);
    } else {
        let s = run_from(st, a)->Ok_0;
        assert(run_from(s, b.drop_last()) is Ok);
        lemma_concat(st, a, b.drop_last());
        assert((a + b).drop_last() =~= a + b.drop_last());
    }
}

proof fn lemma_one(st: PState, c: u8)
    ensures
        run_from(st, seq![c]) == match step(st, c) {
            Ok(t) => Ok::<PState, (nat, Fault)>(t),
            Err(f) => Err((0nat, f)),
        },
{
    assert(seq![c].drop_last() =~= Seq::<u8>::empty());
    assert(run_from(st, Seq::<u8>::empty()) == Ok::<PState, (nat, Fault)>(st));
}

/// Two states that step alike on the first byte read the rest alike.
proof fn lemma_same_first(s1: PState, s2: PState, b: Seq<u8>)
    requires
        b.len() > 0,
        step(s1, b[0]) == step(s2, b[0]),
    ensures
        run_from(s1, b) == run_from(s2, b),
    decreases b.len(),
{
    if b.len() > 1 {
        lemma_same_first(s1, s2, b.drop_last());
    } else {
        assert(b.drop_last() =~= Seq::<u8>::empty());
        assert(run_from(s1, Seq::<u8>::empty()) == Ok::<PState, (nat, Fault)>(s1));
        assert(run_from(s2, Seq::<u8>::empty()) == Ok::<PState, (nat, Fault)>(s2));
        assert(b.last() == b[0]);
    }
}

proof fn lemma_digits_len(n: nat, k: nat)
    requires
        k >= 1,
        n < pow10(k),
    ensures
        1 <= digits_of(n).len() <= k,
    decreases n,
{
    if n >= 10 {
        assert(n / 10 < pow10((k - 1) as nat)) by (nonlinear_arith)
            requires
                n < 10 * pow10((k - 1) as nat),
                n >= 10,
                k >= 1,
        ;
        if k == 1 {
            assert(pow10(0) == 1);
        }
        lemma_digits_len(n / 10, (k - 1) as nat);
    }
}

proof fn lemma_digits_short(n: nat)
    requires
        n <= u64::MAX,
    ensures
        1 <= digits_of(n).len() <= 20,
{
    reveal_with_fuel(pow10, 21);
    assert(pow10(20) == 100_000_000_000_000_000_000nat);
    lemma_digits_len(n, 20);
}

/// Reading the digits of `n` into an empty number literal accumulates `n`.
proof fn lemma_accumulate(st: PState, n: nat)
    requires
        st.mode == Mode::IntBody || st.mode == Mode::Len,
        st.mag == 0,
        !st.over,
        n <= u64::MAX,
    ensures
        run_from(st, digits_of(n)) == Ok::<PState, (nat, Fault)>(
            PState { count: cap(st.count + digits_of(n).len()), mag: n, ..st },
        ),
    decreases n,
{
    let d = digits_of(n);
    if n < 10 {
        lemma_one(st, d[0]);
        assert(d =~= seq![d[0]]);
        assert(is_digit(d[0]));
        assert(accumulate(st, d[0]) == PState { count: cap(st.count + 1), mag: n, ..st });
    } else {
        let q = n / 10;
        let c = ((48 + n % 10) as u8);
        lemma_accumulate(st, q);
        assert(d.drop_last() =~= digits_of(q));
        assert(d.last() == c);
        let s1 = PState { count: cap(st.count + digits_of(q).len()), mag: q, ..st };
        assert(q * 10 + n % 10 == n);
        assert(accumulate(s1, c) == PState { count: cap(st.count + d.len()), mag: n, ..st });
    }
}

/// Reading the bytes of a string body.
proof fn lemma_body(st: PState, b: Seq<u8>)
    requires
        st.mode == Mode::Body,
        1 <= b.len() <= st.remaining,
    ensures
        run_from(st, b) == Ok::<PState, (nat, Fault)>(
            if b.len() == st.remaining {
                deliver_str(st, st.buf + b)
            } else {
                PState { remaining: (st.remaining - b.len()) as nat, buf: st.buf + b, ..st }
            },
        ),
    decreases b.len(),
{
    if b.len() == 1 {
        lemma_one(st, b[0]);
        assert(b =~= seq![b[0]]);
        assert(st.buf.push(b[0]) =~= st.buf + b);
    } else {
        lemma_body(st, b.drop_last());
        assert(b.drop_last().push(b.last()) =~= b);
        assert((st.buf + b.drop_last()).push(b.last()) =~= st.buf + b);
    }
}

/// Reading a whole string, as a value or as a dict key.
proof fn lemma_string(st: PState, b: Seq<u8>, is_key: bool)
    requires
        quiet(st),
        st.mode == (if is_key { Mode::Key } else { Mode::Value }),
        b.len() <= u64::MAX,
    ensures
        run_from(st, enc_str(b)) == Ok::<PState, (nat, Fault)>(
            deliver_str(PState { is_key, ..st }, b),
        ),
{
    let n = b.len();
    let d = digits_of(n);
    lemma_digits_short(n);
    let fresh = PState { mode: Mode::Len, is_key, count: 0, neg: false, mag: 0, over: false, ..st };
    assert(is_digit(d[0])) by {
        if n >= 10 {
            assert(d[0] == digits_of(n / 10)[0]) by {
                lemma_digits_short(n / 10);
            }
            lemma_digit_chars(n / 10);
        }
    }
    lemma_same_first(st, fresh, d);
    lemma_accumulate(fresh, n);
    let s1 = PState { count: cap(d.len()), mag: n, ..fresh };
    lemma_one(s1, 58u8);
    lemma_concat(st, d, seq![58u8]);
    if n == 0 {
        assert(b =~= Seq::<u8>::empty());
        assert(enc_str(b) =~= d + seq![58u8]);
        assert(deliver_str(s1, Seq::empty()) == deliver_str(PState { is_key, ..st }, b));
    } else {
        let s2 = PState { mode: Mode::Body, remaining: n, buf: Seq::empty(), ..s1 };
        lemma_body(s2, b);
        lemma_concat(st, d + seq![58u8], b);
        assert(enc_str(b) =~= d + seq![58u8] + b);
        assert(s2.buf + b =~= b);
        assert(deliver_str(s2, b) == deliver_str(PState { is_key, ..st }, b));
    }
}

pub proof fn lemma_digit_chars(n: nat)
    ensures
        forall|i: int| 0 <= i < digits_of(n).len() ==> is_digit(#[trigger] digits_of(n)[i]),
    decreases n,
{
    if n >= 10 {
        lemma_digit_chars(n / 10);
        let d = digits_of(n);
        assert(d == digits_of(n / 10).push((48 + n % 10) as u8));
        assert forall|i: int| 0 <= i < d.len() implies is_digit(#[trigger] d[i]) by {
            if i < d.len() - 1 {
                assert(d[i] == digits_of(n / 10)[i]);
            }
        }
    }
}

/// Reading an integer.
proof fn lemma_int(st: PState, n: int)
    requires
        quiet(st),
        st.mode == Mode::Value,
        i64::MIN <= n <= i64::MAX,
    ensures
        run_from(st, enc(Val::Int(n))) == Ok::<PState, (nat, Fault)>(deliver(st, Val::Int(n))),
{
    let s0 = PState { mode: Mode::IntBody, count: 0, neg: false, mag: 0, over: false, ..st };
    lemma_one(st, 105u8);
    if n < 0 {
        let m = (-n) as nat;
        let d = digits_of(m);
        lemma_digits_short(m);
        let s1 = PState { count: 1, neg: true, ..s0 };
        lemma_one(s0, 45u8);
        lemma_concat(st, seq![105u8], seq![45u8]);
        lemma_accumulate(s1, m);
        lemma_concat(st, seq![105u8] + seq![45u8], d);
        let s2 = PState { count: cap((1 + d.len()) as nat), mag: m, ..s1 };
        lemma_one(s2, 101u8);
        lemma_concat(st, seq![105u8] + seq![45u8] + d, seq![101u8]);
        assert(enc(Val::Int(n)) =~= seq![105u8] + seq![45u8] + d + seq![101u8]);
    } else {
        let m = n as nat;
        let d = digits_of(m);
        lemma_digits_short(m);
        lemma_accumulate(s0, m);
        lemma_concat(st, seq![105u8], d);
        let s2 = PState { count: cap(d.len()), mag: m, ..s0 };
        lemma_one(s2, 101u8);
        lemma_concat(st, seq![105u8] + d, seq![101u8]);
        assert(enc(Val::Int(n)) =~= seq![105u8] + d + seq![101u8]);
    }
}

/// Integers fit in `i64` and byte strings, keys included, have lengths
/// that fit in `u64`; dict keys may come in any order and repeat.
pub open spec fn bounded(v: Val) -> bool
    decreases v,
{
    match v {
        Val::Int(n) => i64::MIN <= n <= i64::MAX,
        Val::Str(b) => b.len() <= u64::MAX,
        Val::Dict(es) => forall|i: int|
            0 <= i < es.len() ==> bounded((#[trigger] es[i]).1) && es[i].0.len() <= u64::MAX,
        Val::List(items) => forall|i: int| 0 <= i < items.len() ==> bounded(#[trigger] items[i]),
    }
}

/// What decoding makes of a value: the entries of each dict inserted in
/// order, so that keys end up ascending and a repeated key keeps its last
/// value.
pub open spec fn normalize(v: Val) -> Val
    decreases v, 0nat,
{
    match v {
        Val::Dict(es) => Val::Dict(insert_all(es, es.len() as int)),
        Val::List(items) => Val::List(normalize_items(items, items.len() as int)),
        _ => v,
    }
}

/// The first `k` entries, normalised, inserted one by one into an empty dict.
pub open spec fn insert_all(es: Seq<(Seq<u8>, Val)>, k: int) -> Seq<(Seq<u8>, Val)>
    decreases es, k,
{
    if k <= 0 || k > es.len() {
        Seq::empty()
    } else {
        dict_insert(insert_all(es, k - 1), es[k - 1].0, normalize(es[k - 1].1))
    }
}

/// The first `k` items, normalised.
pub open spec fn normalize_items(items: Seq<Val>, k: int) -> Seq<Val>
    decreases items, k,
{
    if k <= 0 || k > items.len() {
        Seq::empty()
    } else {
        normalize_items(items, k - 1).push(normalize(items[k - 1]))
    }
}

/// Reading the serialisation of a value where a value is expected hands
/// on that value, normalised.
pub proof fn lemma_value(st: PState, v: Val)
    requires
        quiet(st),
        st.mode == Mode::Value,
        bounded(v),
    ensures
        run_from(st, enc(v)) == Ok::<PState, (nat, Fault)>(deliver(st, normalize(v))),
    decreases v, 2nat,
{
    match v {
        Val::Int(n) => {
            lemma_int(st, n);
        },
        Val::Str(b) => {
            lemma_string(st, b, false);
        },
        Val::List(items) => {
            lemma_one(st, 108u8);
            lemma_items(st, items, items.len() as int);
            assert(items.subrange(0, items.len() as int) =~= items);
            lemma_concat(st, seq![108u8], enc_items(items));
            let s1 = settle(
                Mode::Value,
                st.frames.push(PFrame::List(normalize_items(items, items.len() as int))),
                st.root,
            );
            lemma_one(s1, 101u8);
            assert(s1.frames.drop_last() =~= st.frames);
            lemma_concat(st, seq![108u8] + enc_items(items), seq![101u8]);
        },
        Val::Dict(es) => {
            lemma_one(st, 100u8);
            lemma_entries(st, es, es.len() as int);
            assert(es.subrange(0, es.len() as int) =~= es);
            lemma_concat(st, seq![100u8], enc_entries(es));
            let s1 = settle(
                Mode::Key,
                st.frames.push(PFrame::Dict(insert_all(es, es.len() as int), None)),
                st.root,
            );
            lemma_one(s1, 101u8);
            assert(s1.frames.drop_last() =~= st.frames);
            lemma_concat(st, seq![100u8] + enc_entries(es), seq![101u8]);
        },
    }
}

proof fn lemma_items(st: PState, items: Seq<Val>, k: int)
    requires
        quiet(st),
        st.mode == Mode::Value,
        0 <= k <= items.len(),
        forall|i: int| 0 <= i < items.len() ==> bounded(#[trigger] items[i]),
    ensures
        run_from(
            settle(Mode::Value, st.frames.push(PFrame::List(Seq::empty())), st.root),
            enc_items(items.subrange(0, k)),
        ) == Ok::<PState, (nat, Fault)>(
            settle(Mode::Value, st.frames.push(PFrame::List(normalize_items(items, k))), st.root),
        ),
    decreases items, k,
{
    let s0 = settle(Mode::Value, st.frames.push(PFrame::List(Seq::empty())), st.root);
    if k == 0 {
        assert(items.subrange(0, 0) =~= Seq::<Val>::empty());
    } else {
        lemma_items(st, items, k - 1);
        let p = items.subrange(0, k - 1);
        let a = settle(Mode::Value, st.frames.push(PFrame::List(normalize_items(items, k - 1))), st.root);
        assert(bounded(items[k - 1]));
        lemma_value(a, items[k - 1]);
        let pk = items.subrange(0, k);
        assert(pk.subrange(0, k - 1) =~= p);
        assert(pk[k - 1] == items[k - 1]);
        assert(a.frames.drop_last() =~= st.frames);
        lemma_concat(s0, enc_items(p), enc(items[k - 1]));
    }
}

/// Keys all below `k` put `k` last.
proof fn lemma_insert_last(es: Seq<(Seq<u8>, Val)>, k: Seq<u8>, v: Val)
    requires
        forall|j: int| 0 <= j < es.len() ==> bytes_lt(#[trigger] es[j].0, k),
    ensures
        dict_insert(es, k, v) == es.push((k, v)),
{
    lemma_first_not_less(es, k, 0);
    assert(key_slot(es, k) == es.len());
    assert(es.insert(es.len() as int, (k, v)) =~= es.push((k, v)));
}

proof fn lemma_entries(st: PState, es: Seq<(Seq<u8>, Val)>, k: int)
    requires
        quiet(st),
        st.mode == Mode::Value,
        0 <= k <= es.len(),
        forall|i: int|
            0 <= i < es.len() ==> bounded((#[trigger] es[i]).1) && es[i].0.len() <= u64::MAX,
    ensures
        run_from(
            settle(Mode::Key, st.frames.push(PFrame::Dict(Seq::empty(), None)), st.root),
            enc_entries(es.subrange(0, k)),
        ) == Ok::<PState, (nat, Fault)>(
            settle(Mode::Key, st.frames.push(PFrame::Dict(insert_all(es, k), None)), st.root),
        ),
    decreases es, k,
{
    let s0 = settle(Mode::Key, st.frames.push(PFrame::Dict(Seq::empty(), None)), st.root);
    if k == 0 {
        assert(es.subrange(0, 0) =~= Seq::<(Seq<u8>, Val)>::empty());
    } else {
        lemma_entries(st, es, k - 1);
        let p = es.subrange(0, k - 1);
        let key = es[k - 1].0;
        let val = es[k - 1].1;
        let q = insert_all(es, k - 1);
        let a = settle(Mode::Key, st.frames.push(PFrame::Dict(q, None)), st.root);
        assert(bounded(es[k - 1].1) && key.len() <= u64::MAX);
        lemma_string(a, key, true);
        let b = settle(Mode::Value, st.frames.push(PFrame::Dict(q, Some(key))), st.root);
        assert(a.frames.drop_last() =~= st.frames);
        assert(deliver_str(PState { is_key: true, ..a }, key) == b);
        lemma_value(b, val);
        assert(b.frames.drop_last() =~= st.frames);
        let pk = es.subrange(0, k);
        assert(pk.subrange(0, k - 1) =~= p);
        assert(pk[k - 1] == es[k - 1]);
        lemma_concat(s0, enc_entries(p), enc_str(key));
        lemma_concat(s0, enc_entries(p) + enc_str(key), enc(val));
    }
}

/// A well-formed value is bounded and normalises to itself.
pub proof fn lemma_normalize_wf(v: Val)
    requires
        v.wf(),
    ensures
        bounded(v),
        normalize(v) == v,
    decreases v, 0nat,
{
    match v {
        Val::Dict(es) => {
            lemma_insert_all_wf(es, es.len() as int);
            assert(es.subrange(0, es.len() as int) =~= es);
            assert forall|i: int| 0 <= i < es.len() implies bounded((#[trigger] es[i]).1)
                && es[i].0.len() <= u64::MAX by {
                lemma_normalize_wf(es[i].1);
            }
        },
        Val::List(items) => {
            lemma_normalize_items_wf(items, items.len() as int);
            assert(items.subrange(0, items.len() as int) =~= items);
            assert forall|i: int| 0 <= i < items.len() implies bounded(#[trigger] items[i]) by {
                lemma_normalize_wf(items[i]);
            }
        },
        _ => {},
    }
}

proof fn lemma_insert_all_wf(es: Seq<(Seq<u8>, Val)>, k: int)
    requires
        Val::Dict(es).wf(),
        0 <= k <= es.len(),
    ensures
        insert_all(es, k) == es.subrange(0, k),
    decreases es, k,
{
    if k == 0 {
        assert(es.subrange(0, 0) =~= Seq::<(Seq<u8>, Val)>::empty());
    } else {
        lemma_insert_all_wf(es, k - 1);
        assert(es[k - 1].1.wf());
        lemma_normalize_wf(es[k - 1].1);
        let p = es.subrange(0, k - 1);
        assert forall|j: int| 0 <= j < p.len() implies bytes_lt(#[trigger] p[j].0, es[k - 1].0) by {
            assert(p[j] == es[j]);
        }
        lemma_insert_last(p, es[k - 1].0, es[k - 1].1);
        assert(p.push(es[k - 1]) =~= es.subrange(0, k));
    }
}

proof fn lemma_normalize_items_wf(items: Seq<Val>, k: int)
    requires
        Val::List(items).wf(),
        0 <= k <= items.len(),
    ensures
        normalize_items(items, k) == items.subrange(0, k),
    decreases items, k,
{
    if k == 0 {
        assert(items.subrange(0, 0) =~= Seq::<Val>::empty());
    } else {
        lemma_normalize_items_wf(items, k - 1);
        let v = Val::List(items);
        assert(v.wf());
        assert(v->List_0 == items);
        assert(forall|i: int| 0 <= i < items.len() ==> (#[trigger] items[i]).wf());
        assert(items[k - 1].wf());
        lemma_normalize_wf(items[k - 1]);
        assert(items.subrange(0, k - 1).push(items[k - 1]) =~= items.subrange(0, k));
    }
}

/// Decoding the serialisation of any value whose integers and lengths fit
/// gives that value with each dict's entries inserted in order: keys
/// ascending, a repeated key holding its last value.
pub proof fn law_decode_normalizes(v: Val)
    requires
        bounded(v),
    ensures
        decode(enc(v)) == Ok::<Val, DecodeErr>(normalize(v)),
{
    lemma_value(init_state(), v);
    assert(init_state() == settle(Mode::Value, Seq::empty(), None));
    lemma_enc_nonempty(v);
}

/// Decoding the serialisation of a well-formed value gives the value back.
pub proof fn law_round_trip(v: Val)
    requires
        v.wf(),
    ensures
        decode(enc(v)) == Ok::<Val, DecodeErr>(v),
{
    lemma_normalize_wf(v);
    law_decode_normalizes(v);
}

proof fn lemma_enc_nonempty(v: Val)
    ensures
        enc(v).len() > 0,
{
    match v {
        Val::Str(b) => {
            lemma_digit_chars(b.len());
            lemma_digits_short_any(b.len());
        },
        _ => {},
    }
}

proof fn lemma_digits_short_any(n: nat)
    ensures
        digits_of(n).len() >= 1,
    decreases n,
{
    if n >= 10 {
        lemma_digits_short_any(n / 10);
    }
}

/// Waiting for a value or a key, or done, the decoder holds no literal.
pub open spec fn quiet_when_waiting(st: PState) -> bool {
    (st.mode == Mode::Value || st.mode == Mode::Key || st.mode == Mode::Done) ==> quiet(st)
}

proof fn lemma_step_quiet(st: PState, c: u8)
    requires
        quiet_when_waiting(st),
        step(st, c) is Ok,
    ensures
        quiet_when_waiting(step(st, c)->Ok_0),
{
}

proof fn lemma_run_quiet(bytes: Seq<u8>)
    requires
        run(bytes) is Ok,
    ensures
        quiet_when_waiting(run(bytes)->Ok_0),
    decreases bytes.len(),
{
    if bytes.len() == 0 {
        assert(init_state() == settle(Mode::Value, Seq::empty(), None));
    } else {
        assert(run(bytes.drop_last()) is Ok);
        lemma_run_quiet(bytes.drop_last());
        lemma_step_quiet(run(bytes.drop_last())->Ok_0, bytes.last());
    }
}

/// Wherever the decoder waits for a value or a key, a string whose declared
/// length `n` is more than the bytes that follow ends the input inside a
/// value: decoding fails with `Eof`.
pub proof fn law_short_string_is_eof(prefix: Seq<u8>, n: nat, b: Seq<u8>)
    requires
        run(prefix) is Ok,
        run(prefix)->Ok_0.mode == Mode::Value || run(prefix)->Ok_0.mode == Mode::Key,
        1 <= n <= u64::MAX,
        b.len() < n,
    ensures
        decode(prefix + digits_of(n) + seq![58u8] + b) == Err::<Val, DecodeErr>(DecodeErr::Eof),
{
    let st = run(prefix)->Ok_0;
    lemma_run_quiet(prefix);
    let is_key = st.mode == Mode::Key;
    let d = digits_of(n);
    lemma_digits_short(n);
    lemma_digit_chars(n);
    assert(is_digit(d[0]));
    let fresh = PState { mode: Mode::Len, is_key, count: 0, neg: false, mag: 0, over: false, ..st };
    lemma_same_first(st, fresh, d);
    lemma_accumulate(fresh, n);
    let s1 = PState { count: cap(d.len()), mag: n, ..fresh };
    lemma_one(s1, 58u8);
    lemma_concat(st, d, seq![58u8]);
    let s2 = PState { mode: Mode::Body, remaining: n, buf: Seq::empty(), ..s1 };
    let rest = d + seq![58u8] + b;
    if b.len() == 0 {
        assert(rest =~= d + seq![58u8]);
    } else {
        lemma_body(s2, b);
        lemma_concat(st, d + seq![58u8], b);
    }
    assert(run_from(st, rest) is Ok && run_from(st, rest)->Ok_0.mode == Mode::Body);
    lemma_concat(init_state(), prefix, rest);
    assert(prefix + digits_of(n) + seq![58u8] + b =~= prefix + rest);
}

} // verus!
