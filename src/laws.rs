use vstd::prelude::*;
use crate::decode::{
    close, decode, deliver, deliver_str, init_state, run, run_from, step, DecodeErr, Mode, PFrame,
    PState,
};
use crate::order::{key_slot, lemma_first_not_less};
use crate::edit::{child_spec, cleared, insert_spec, Acc};
use crate::encode::{enc, enc_entries};
use crate::order::{lemma_dict_insert_get, lemma_dict_insert_sorted, dict_insert};
use crate::roundtrip::law_round_trip;
use crate::selector::{
    digits_value, is_container, is_digit_char, scan_index, scan_key, select_spec, walk,
};
use crate::path::{apply_spec, edit_spec, edit_walk, EditModel};
use crate::order::find_key;
use crate::value::{bytes_lt, keys_sorted, Val};

verus! {

/// The serialisation of a well-formed dict is `d`, its entries in
/// ascending byte order of keys, then `e`.
pub proof fn law_dict_keys_ascend(es: Seq<(Seq<u8>, Val)>)
    requires
        Val::Dict(es).wf(),
    ensures
        enc(Val::Dict(es)) == seq![100u8] + enc_entries(es) + seq![101u8],
        forall|i: int, j: int| 0 <= i < j < es.len() ==> bytes_lt(#[trigger] es[i].0, #[trigger] es[j].0),
{
}

/// Inserting into a dict keeps its keys in ascending order, whatever the
/// order of insertion.
pub proof fn law_insert_keeps_key_order(es: Seq<(Seq<u8>, Val)>, k: Seq<u8>, v: Val)
    requires
        keys_sorted(es),
    ensures
        keys_sorted(dict_insert(es, k, v)),
{
    lemma_dict_insert_sorted(es, k, v);
}

/// The empty selector selects the value itself, unchanged.
pub proof fn law_select_empty(v: Val)
    ensures
        select_spec(v, Seq::empty()) == Ok::<Val, crate::selector::SelErr>(v),
{
}

/// After a successful insert at an accessor of a container, that accessor
/// selects the inserted value.
pub proof fn law_insert_then_get(n: Val, a: Acc, v: Val)
    requires
        insert_spec(n, a, v) is Ok,
    ensures
        child_spec(insert_spec(n, a, v)->Ok_0, a) == Some(v),
{
    match (n, a) {
        (Val::Dict(es), Acc::Key(k)) => {
            lemma_dict_insert_get(es, k, v);
        },
        (Val::List(items), Acc::Index(i)) => {
            assert(items.insert(i as int, v)[i as int] == v);
        },
        _ => {},
    }
}

/// Clearing a container leaves an empty container of the same kind, and its
/// serialisation decodes to that empty container.
pub proof fn law_clear_round_trip(n: Val)
    requires
        n is Dict || n is List,
    ensures
        n is Dict ==> cleared(n) == Val::Dict(Seq::empty()),
        n is List ==> cleared(n) == Val::List(Seq::empty()),
        decode(enc(cleared(n))) == Ok::<Val, DecodeErr>(cleared(n)),
{
    assert(cleared(n).wf());
    law_round_trip(cleared(n));
}

/// An open container on the decoder's stack holds only well-formed parts.
pub open spec fn frame_ok(f: PFrame) -> bool {
    match f {
        PFrame::List(items) => forall|i: int| 0 <= i < items.len() ==> (#[trigger] items[i]).wf(),
        PFrame::Dict(es, k) => Val::Dict(es).wf() && (k is Some ==> k->0.len() <= u64::MAX),
    }
}

/// The decoder's state holds only well-formed parts.
pub open spec fn state_ok(st: PState) -> bool {
    &&& forall|i: int| 0 <= i < st.frames.len() ==> frame_ok(#[trigger] st.frames[i])
    &&& st.root is Some ==> st.root->0.wf()
    &&& st.mag <= u64::MAX
    &&& st.mode == Mode::Body ==> st.buf.len() + st.remaining <= u64::MAX && st.remaining >= 1
}

proof fn lemma_insert_wf(es: Seq<(Seq<u8>, Val)>, k: Seq<u8>, v: Val)
    requires
        Val::Dict(es).wf(),
        v.wf(),
        k.len() <= u64::MAX,
    ensures
        Val::Dict(dict_insert(es, k, v)).wf(),
{
    lemma_dict_insert_sorted(es, k, v);
    let r = dict_insert(es, k, v);
    let i = key_slot(es, k);
    lemma_first_not_less(es, k, 0);
    assert forall|j: int| 0 <= j < r.len() implies (#[trigger] r[j]).1.wf() && r[j].0.len()
        <= u64::MAX by {
        if i < es.len() && es[i].0 == k {
            if j != i {
                assert(r[j] == es[j]);
            }
        } else {
            if j < i {
                assert(r[j] == es[j]);
            } else if j > i {
                assert(r[j] == es[j - 1]);
            }
        }
    }
}

proof fn lemma_deliver_ok(st: PState, v: Val)
    requires
        state_ok(st),
        v.wf(),
    ensures
        state_ok(deliver(st, v)),
{
    if st.frames.len() > 0 {
        let rest = st.frames.drop_last();
        let r = deliver(st, v);
        assert(frame_ok(st.frames[st.frames.len() - 1]));
        match st.frames.last() {
            PFrame::List(items) => {
                assert(frame_ok(PFrame::List(items.push(v))));
            },
            PFrame::Dict(es, Some(k)) => {
                lemma_insert_wf(es, k, v);
                assert(frame_ok(PFrame::Dict(dict_insert(es, k, v), None)));
            },
            PFrame::Dict(es, None) => {},
        }
        assert forall|i: int| 0 <= i < r.frames.len() implies frame_ok(#[trigger] r.frames[i]) by {
            if i < rest.len() {
                assert(r.frames[i] == st.frames[i]);
            }
        }
    }
}

proof fn lemma_deliver_str_ok(st: PState, s: Seq<u8>)
    requires
        state_ok(st),
        s.len() <= u64::MAX,
    ensures
        state_ok(deliver_str(st, s)),
{
    if st.is_key && st.frames.len() > 0 && st.frames.last() is Dict {
        let r = deliver_str(st, s);
        assert(frame_ok(st.frames[st.frames.len() - 1]));
        assert forall|i: int| 0 <= i < r.frames.len() implies frame_ok(#[trigger] r.frames[i]) by {
            if i < st.frames.len() - 1 {
                assert(r.frames[i] == st.frames[i]);
            }
        }
    } else {
        lemma_deliver_ok(st, Val::Str(s));
    }
}

proof fn lemma_close_ok(st: PState)
    requires
        state_ok(st),
        st.frames.len() > 0,
    ensures
        state_ok(close(st)),
{
    let rest = PState { frames: st.frames.drop_last(), ..st };
    assert(frame_ok(st.frames[st.frames.len() - 1]));
    assert forall|i: int| 0 <= i < rest.frames.len() implies frame_ok(#[trigger] rest.frames[i]) by {
        assert(rest.frames[i] == st.frames[i]);
    }
    match st.frames.last() {
        PFrame::List(items) => lemma_deliver_ok(rest, Val::List(items)),
        PFrame::Dict(es, _) => lemma_deliver_ok(rest, Val::Dict(es)),
    }
}

proof fn lemma_step_ok(st: PState, c: u8)
    requires
        state_ok(st),
        step(st, c) is Ok,
    ensures
        state_ok(step(st, c)->Ok_0),
{
    let r = step(st, c)->Ok_0;
    match st.mode {
        Mode::Value => {
            if c == 100 || c == 108 {
                assert forall|i: int| 0 <= i < r.frames.len() implies frame_ok(#[trigger] r.frames[i]) by {
                    if i < st.frames.len() {
                        assert(r.frames[i] == st.frames[i]);
                    } else {
                        assert(Val::Dict(Seq::empty()).wf());
                    }
                }
            } else if c == 105 {
            } else if 48 <= c <= 57 {
            } else {
                lemma_close_ok(st);
            }
        },
        Mode::Key => {
            if c == 101 && st.frames.len() > 0 {
                lemma_close_ok(st);
            }
        },
        Mode::IntBody => {
            if !(48 <= c <= 57) && c != 45 {
                lemma_deliver_ok(st, Val::Int(crate::decode::int_value(st)));
            }
        },
        Mode::Len => {
            if !(48 <= c <= 57) && st.mag == 0 {
                lemma_deliver_str_ok(st, Seq::empty());
            }
        },
        Mode::Body => {
            if st.remaining <= 1 {
                lemma_deliver_str_ok(PState { buf: Seq::empty(), ..st }, st.buf.push(c));
            }
        },
        Mode::Done => {},
    }
}

proof fn lemma_run_ok(st: PState, bytes: Seq<u8>)
    requires
        state_ok(st),
        run_from(st, bytes) is Ok,
    ensures
        state_ok(run_from(st, bytes)->Ok_0),
    decreases bytes.len(),
{
    if bytes.len() > 0 {
        lemma_run_ok(st, bytes.drop_last());
        lemma_step_ok(run_from(st, bytes.drop_last())->Ok_0, bytes.last());
    }
}

/// Every value that the decoder yields is well-formed: in particular the
/// keys of each of its dicts ascend strictly, whatever their order in the
/// input.
pub proof fn law_decoded_well_formed(bytes: Seq<u8>)
    requires
        decode(bytes) is Ok,
    ensures
        decode(bytes)->Ok_0.wf(),
{
    lemma_run_ok(init_state(), bytes);
}

proof fn lemma_find_key_update(es: Seq<(Seq<u8>, Val)>, k: Seq<u8>, j: int, i: int, w: Val)
    requires
        0 <= i < es.len(),
        0 <= j <= es.len(),
    ensures
        find_key(es.update(i, (es[i].0, w)), k, j) == find_key(es, k, j),
    decreases es.len() - j,
{
    if j < es.len() {
        lemma_find_key_update(es, k, j + 1, i, w);
    }
}

proof fn lemma_edit_keeps_kind(v: Val, s: Seq<char>, p: int, e: EditModel)
    requires
        0 <= p < s.len(),
        is_container(v),
        edit_walk(v, s, p, e) is Ok,
    ensures
        is_container(edit_walk(v, s, p, e)->Ok_0),
{
}

proof fn lemma_replace_walk(v: Val, s: Seq<char>, p: int, x: Val)
    requires
        0 <= p < s.len(),
        is_container(v),
        edit_walk(v, s, p, EditModel::Replace(x)) is Ok,
    ensures
        walk(edit_walk(v, s, p, EditModel::Replace(x))->Ok_0, s, p) == Ok::<Val, crate::selector::SelErr>(x),
    decreases s.len() - p,
{
    let e = EditModel::Replace(x);
    match v {
        Val::Dict(es) => {
            let (k, q) = crate::selector::key_step(s, p)->Ok_0;
            let kb = vstd::utf8::encode_utf8(k);
            let i = find_key(es, kb, 0);
            crate::order::lemma_find_key(es, kb, 0);
            let w = es[i].1;
            if !(q <= p || q >= s.len()) {
                lemma_edit_keeps_kind(w, s, q, e);
                lemma_replace_walk(w, s, q, x);
            }
            let w2 = if q <= p || q >= s.len() {
                x
            } else {
                edit_walk(w, s, q, e)->Ok_0
            };
            lemma_find_key_update(es, kb, 0, i, w2);
        },
        Val::List(items) => {
            let (n, q) = crate::selector::index_step(s, p)->Ok_0;
            let w = items[n as int];
            if !(q <= p || q >= s.len()) {
                lemma_edit_keeps_kind(w, s, q, e);
                lemma_replace_walk(w, s, q, x);
            }
        },
        _ => {},
    }
}

/// After replacing the node that a selector addresses, the same selector
/// selects the new value.
pub proof fn law_replace_then_select(v: Val, s: Seq<char>, x: Val)
    requires
        edit_spec(v, s, EditModel::Replace(x)) is Ok,
    ensures
        select_spec(edit_spec(v, s, EditModel::Replace(x))->Ok_0, s) == Ok::<Val, crate::selector::SelErr>(x),
{
    if s.len() > 0 {
        lemma_edit_keeps_kind(v, s, 0, EditModel::Replace(x));
        lemma_replace_walk(v, s, 0, x);
    }
}

proof fn lemma_edit_walk_select(v: Val, s: Seq<char>, p: int, e: EditModel)
    requires
        0 <= p < s.len(),
        is_container(v),
        walk(v, s, p) is Ok,
        apply_spec(walk(v, s, p)->Ok_0, e) is Ok,
    ensures
        edit_walk(v, s, p, e) is Ok,
        walk(edit_walk(v, s, p, e)->Ok_0, s, p) == Ok::<Val, crate::selector::SelErr>(
            apply_spec(walk(v, s, p)->Ok_0, e)->Ok_0,
        ),
    decreases s.len() - p,
{
    match v {
        Val::Dict(es) => {
            let (k, q) = crate::selector::key_step(s, p)->Ok_0;
            let kb = vstd::utf8::encode_utf8(k);
            let i = find_key(es, kb, 0);
            crate::order::lemma_find_key(es, kb, 0);
            let w = es[i].1;
            if !(q <= p || q >= s.len()) {
                lemma_edit_walk_select(w, s, q, e);
                lemma_edit_keeps_kind(w, s, q, e);
            }
            let w2 = edit_walk(v, s, p, e)->Ok_0->Dict_0[i].1;
            lemma_find_key_update(es, kb, 0, i, w2);
        },
        Val::List(items) => {
            let (n, q) = crate::selector::index_step(s, p)->Ok_0;
            let w = items[n as int];
            if !(q <= p || q >= s.len()) {
                lemma_edit_walk_select(w, s, q, e);
                lemma_edit_keeps_kind(w, s, q, e);
            }
        },
        _ => {},
    }
}

/// When a selector addresses a node and an edit applies to that node, the
/// edit through the selector succeeds, and the same selector then selects
/// the edited node.
pub proof fn law_edit_then_select(v: Val, s: Seq<char>, e: EditModel)
    requires
        select_spec(v, s) is Ok,
        apply_spec(select_spec(v, s)->Ok_0, e) is Ok,
    ensures
        edit_spec(v, s, e) is Ok,
        select_spec(edit_spec(v, s, e)->Ok_0, s) == Ok::<Val, crate::selector::SelErr>(
            apply_spec(select_spec(v, s)->Ok_0, e)->Ok_0,
        ),
{
    if s.len() > 0 {
        lemma_edit_walk_select(v, s, 0, e);
        lemma_edit_keeps_kind(v, s, 0, e);
    }
}

/// Clearing a container through a selector leaves, at that selector, an
/// empty container of the same kind.
pub proof fn law_clear_through_selector(v: Val, s: Seq<char>)
    requires
        select_spec(v, s) is Ok,
        is_container(select_spec(v, s)->Ok_0),
    ensures
        edit_spec(v, s, EditModel::Clear) is Ok,
        select_spec(v, s)->Ok_0 is Dict ==> select_spec(edit_spec(v, s, EditModel::Clear)->Ok_0, s)
            == Ok::<Val, crate::selector::SelErr>(Val::Dict(Seq::empty())),
        select_spec(v, s)->Ok_0 is List ==> select_spec(edit_spec(v, s, EditModel::Clear)->Ok_0, s)
            == Ok::<Val, crate::selector::SelErr>(Val::List(Seq::empty())),
{
    law_edit_then_select(v, s, EditModel::Clear);
}

/// No character of `k` is special in a key selector.
pub open spec fn plain_key(k: Seq<char>) -> bool {
    forall|i: int| 0 <= i < k.len() ==> #[trigger] k[i] != '.' && k[i] != '[' && k[i] != '\\'
}

proof fn lemma_scan_plain(s: Seq<char>, j: int, acc: Seq<char>)
    requires
        0 <= j <= s.len(),
        forall|i: int| j <= i < s.len() ==> #[trigger] s[i] != '.' && s[i] != '[' && s[i] != '\\',
    ensures
        scan_key(s, j, acc, false) == Ok::<(Seq<char>, int), crate::selector::SelectorSyntax>(
            (acc + s.subrange(j, s.len() as int), s.len() as int),
        ),
    decreases s.len() - j,
{
    if j < s.len() {
        lemma_scan_plain(s, j + 1, acc.push(s[j]));
        assert(acc.push(s[j]) + s.subrange(j + 1, s.len() as int) =~= acc + s.subrange(j, s.len() as int));
    } else {
        assert(acc + s.subrange(j, s.len() as int) =~= acc);
    }
}

proof fn lemma_scan_index_plain(s: Seq<char>, j: int, q: int)
    requires
        0 <= j <= q < s.len(),
        s[q] == ']',
        forall|i: int| j <= i < q ==> #[trigger] s[i] != ']' && s[i] != '-',
    ensures
        scan_index(s, j) == Ok::<int, Option<crate::selector::SelectorSyntax>>(q),
    decreases q - j,
{
    if j < q {
        lemma_scan_index_plain(s, j + 1, q);
    }
}

/// After inserting `v` under a plain key `k` into a dict, the selector `.k`
/// selects `v`.
pub proof fn law_insert_then_select_key(es: Seq<(Seq<u8>, Val)>, k: Seq<char>, v: Val)
    requires
        plain_key(k),
    ensures
        select_spec(Val::Dict(dict_insert(es, vstd::utf8::encode_utf8(k), v)), seq!['.'] + k)
            == Ok::<Val, crate::selector::SelErr>(v),
{
    let s = seq!['.'] + k;
    lemma_scan_plain(s, 1, Seq::empty());
    assert(Seq::<char>::empty() + s.subrange(1, s.len() as int) =~= k);
    lemma_dict_insert_get(es, vstd::utf8::encode_utf8(k), v);
}

/// After inserting `v` at index `i` of a list, the selector `[d]`, where
/// `d` is decimal text of `i`, selects `v`.
pub proof fn law_insert_then_select_index(items: Seq<Val>, i: nat, d: Seq<char>, v: Val)
    requires
        i <= items.len(),
        d.len() > 0,
        forall|j: int| 0 <= j < d.len() ==> is_digit_char(#[trigger] d[j]),
        digits_value(d) == i,
        i <= usize::MAX,
    ensures
        select_spec(Val::List(items.insert(i as int, v)), seq!['['] + d + seq![']'])
            == Ok::<Val, crate::selector::SelErr>(v),
{
    let s = seq!['['] + d + seq![']'];
    let q: int = d.len() as int + 1;
    assert forall|j: int| 1 <= j < q implies #[trigger] s[j] != ']' && s[j] != '-' by {
        assert(s[j] == d[j - 1]);
        assert(is_digit_char(d[j - 1]));
    }
    lemma_scan_index_plain(s, 1, q);
    assert(s.subrange(1, q) =~= d);
}

} // verus!
