use vstd::prelude::*;
use vstd::string::{StrSliceExecFns, StringExecFns, StringSliceAdditionalSpecFns};
use vstd::utf8::{decode_utf8, encode_utf8, valid_utf8};
use crate::encode::{decimal, digits_of, push_decimal, push_digits};
use crate::text::{debug_text, quoted, utf8_text};
use crate::roundtrip::lemma_digit_chars;
use crate::decode::is_digit;
use crate::value::{entries_view, items_view, lemma_entries_view, lemma_items_view, Val, Value};

verus! {

/// Nesting depth from which child containers are shown as placeholders.
pub const DEPTH_LIMIT: usize = 5;

/// Number of rendering steps after which output is cut off.
pub const STEP_LIMIT: usize = 2000;

pub open spec fn spaces(n: nat) -> Seq<char> {
    Seq::new(n, |i: int| ' ')
}

/// ASCII bytes as characters.
pub open spec fn ascii(b: Seq<u8>) -> Seq<char> {
    Seq::new(b.len(), |i: int| b[i] as char)
}

pub open spec fn hex_digit(d: u8) -> char {
    if d < 10 {
        (48 + d) as char
    } else {
        (55 + d) as char
    }
}

/// A byte as shown inside `b"…"`: itself when printable ASCII, else `\xHH`.
pub open spec fn byte_repr(b: u8) -> Seq<char> {
    if 32 <= b < 127 {
        seq![b as char]
    } else {
        seq!['\\', 'x', hex_digit(b / 16), hex_digit(b % 16)]
    }
}

pub open spec fn bytes_repr(b: Seq<u8>) -> Seq<char>
    decreases b.len(),
{
    if b.len() == 0 {
        Seq::empty()
    } else {
        bytes_repr(b.drop_last()) + byte_repr(b.last())
    }
}

/// A byte string shown as an escaped literal of at most `limit` bytes,
/// followed by the full length when cut.
pub open spec fn repr_text(b: Seq<u8>, limit: nat) -> Seq<char> {
    let shown = if b.len() > limit {
        b.subrange(0, limit as int)
    } else {
        b
    };
    "b\""@ + bytes_repr(shown) + "\""@ + if b.len() > limit {
        "... ("@ + ascii(digits_of(b.len())) + " bytes)"@
    } else {
        Seq::empty()
    }
}

/// A byte string as text when it is UTF-8, else as an escaped literal.
pub open spec fn str_text(b: Seq<u8>, limit: nat) -> Seq<char> {
    if valid_utf8(b) {
        debug_text(decode_utf8(b))
    } else {
        repr_text(b, limit)
    }
}

/// An integer or a string shown inline.
pub open spec fn prim_text(v: Val, limit: nat) -> Seq<char> {
    match v {
        Val::Int(n) => ascii(decimal(n)),
        Val::Str(b) => str_text(b, limit),
        _ => Seq::empty(),
    }
}

/// The separator after list item `j` of `n`.
pub open spec fn item_sep(j: int, n: int) -> Seq<char> {
    if j < n - 1 {
        ", "@
    } else {
        Seq::empty()
    }
}

/// The rendering steps of an open container: the opening line, its
/// children, and the closing bracket. `ind` is the indent level of the line
/// on which it opens; `pre` comes before the opening bracket and `suf` after
/// the closing one.
pub open spec fn open_chunks(c: Val, d: nat, ind: nat, sz: nat, pre: Seq<char>, suf: Seq<char>) -> Seq<
    Seq<char>,
>
    decreases c, 0nat,
{
    match c {
        Val::Dict(es) => seq![pre + "{\n"@] + entry_chunks(es, d, ind + 1, sz) + seq![
            spaces(ind * sz) + "}"@ + suf,
        ],
        Val::List(items) => seq![pre + "["@] + item_chunks(items, items.len() as int, d, ind, sz)
            + seq!["]"@ + suf],
        _ => seq![pre + prim_text(c, 8) + suf],
    }
}

/// The rendering steps of a child of a container at depth `d`.
pub open spec fn child_chunks(v: Val, d: nat, ind: nat, sz: nat, pre: Seq<char>, suf: Seq<char>) -> Seq<
    Seq<char>,
>
    decreases v, 1nat,
{
    match v {
        Val::Dict(es) => if es.len() == 0 {
            seq![pre + "{}"@ + suf]
        } else if d >= DEPTH_LIMIT {
            seq![pre + "{...}"@ + suf]
        } else {
            open_chunks(v, d + 1, ind, sz, pre, suf)
        },
        Val::List(items) => if items.len() == 0 {
            seq![pre + "[]"@ + suf]
        } else if d >= DEPTH_LIMIT {
            seq![pre + "[...]"@ + suf]
        } else {
            open_chunks(v, d + 1, ind, sz, pre, suf)
        },
        _ => seq![pre + prim_text(v, 8) + suf],
    }
}

/// Dict entries, one per line at indent level `ind`.
pub open spec fn entry_chunks(es: Seq<(Seq<u8>, Val)>, d: nat, ind: nat, sz: nat) -> Seq<Seq<char>>
    decreases es, 0nat,
{
    if es.len() == 0 {
        Seq::empty()
    } else {
        let e = es[es.len() - 1];
        entry_chunks(es.subrange(0, es.len() - 1), d, ind, sz) + child_chunks(
            e.1,
            d,
            ind,
            sz,
            spaces(ind * sz) + str_text(e.0, 32) + ": "@,
            ",\n"@,
        )
    }
}

/// The first items of a list of `n`, inline and comma separated.
pub open spec fn item_chunks(items: Seq<Val>, n: int, d: nat, ind: nat, sz: nat) -> Seq<Seq<char>>
    decreases items, 0nat,
{
    if items.len() == 0 {
        Seq::empty()
    } else {
        item_chunks(items.subrange(0, items.len() - 1), n, d, ind, sz) + child_chunks(
            items[items.len() - 1],
            d,
            ind,
            sz,
            Seq::empty(),
            item_sep(items.len() - 1, n),
        )
    }
}

/// All rendering steps of a value shown at the root.
pub open spec fn root_chunks(v: Val, sz: nat) -> Seq<Seq<char>> {
    match v {
        Val::Dict(_) | Val::List(_) => open_chunks(v, 0, 0, sz, Seq::empty(), Seq::empty()),
        _ => seq![prim_text(v, 32)],
    }
}

pub open spec fn flatten(chunks: Seq<Seq<char>>) -> Seq<char>
    decreases chunks.len(),
{
    if chunks.len() == 0 {
        Seq::empty()
    } else {
        flatten(chunks.drop_last()) + chunks.last()
    }
}

pub open spec fn min_nat(a: nat, b: nat) -> nat {
    if a < b {
        a
    } else {
        b
    }
}

/// The text shown for a value: its first `STEP_LIMIT` rendering steps, and
/// a marker when that limit is reached.
pub open spec fn render(v: Val, sz: nat) -> Seq<char> {
    let all = root_chunks(v, sz);
    flatten(all.subrange(0, min_nat(all.len(), STEP_LIMIT as nat) as int)) + if all.len()
        >= STEP_LIMIT {
        "\n<truncating as output would be too big...>"@
    } else {
        Seq::empty()
    }
}

/// Appends a printable ASCII byte as a character.
fn push_ascii(out: &mut String, b: u8)
    requires
        32 <= b < 127,
    ensures
        final(out)@ == old(out)@.push(b as char),
{
    proof {
        reveal_strlit(" !\"#$%&'()*+,-./0123456789:;<=>?@ABCDEFGHIJKLMNOPQRSTUVWXYZ[\\]^_`abcdefghijklmnopqrstuvwxyz{|}~");
    }
    let k: usize = (b - 32) as usize;
    let table = " !\"#$%&'()*+,-./0123456789:;<=>?@ABCDEFGHIJKLMNOPQRSTUVWXYZ[\\]^_`abcdefghijklmnopqrstuvwxyz{|}~";
    let c = table.substring_char(k, k + 1);
    assert(c@ =~= seq![b as char]);
    out.append(c);
}

/// Appends printable ASCII bytes as characters.
fn push_ascii_bytes(out: &mut String, b: &[u8])
    requires
        forall|i: int| 0 <= i < b@.len() ==> 32 <= #[trigger] b@[i] < 127,
    ensures
        final(out)@ == old(out)@ + ascii(b@),
{
    let mut i: usize = 0;
    while i < b.len()
        invariant
            i <= b@.len(),
            forall|j: int| 0 <= j < b@.len() ==> 32 <= #[trigger] b@[j] < 127,
            out@ == old(out)@ + ascii(b@.subrange(0, i as int)),
        decreases b@.len() - i,
    {
        push_ascii(out, b[i]);
        i += 1;
        assert(out@ =~= old(out)@ + ascii(b@.subrange(0, i as int)));
    }
    assert(b@.subrange(0, b@.len() as int) =~= b@);
}

/// Appends the decimal text of `n`.
fn push_int_text(out: &mut String, n: i64)
    ensures
        final(out)@ == old(out)@ + ascii(decimal(n as int)),
{
    let mut v: Vec<u8> = Vec::new();
    push_decimal(n, &mut v);
    proof {
        assert(v@ =~= decimal(n as int));
        if n < 0 {
            lemma_digit_chars((-n) as nat);
            assert forall|i: int| 0 <= i < v@.len() implies 32 <= #[trigger] v@[i] < 127 by {
                if i > 0 {
                    assert(v@[i] == digits_of((-n) as nat)[i - 1]);
                    assert(is_digit(digits_of((-n) as nat)[i - 1]));
                }
            }
        } else {
            lemma_digit_chars(n as nat);
            assert forall|i: int| 0 <= i < v@.len() implies 32 <= #[trigger] v@[i] < 127 by {
                assert(is_digit(digits_of(n as nat)[i]));
            }
        }
    }
    push_ascii_bytes(out, v.as_slice());
}

fn push_hex_digit(out: &mut String, d: u8)
    requires
        d < 16,
    ensures
        final(out)@ == old(out)@.push(hex_digit(d)),
{
    if d < 10 {
        push_ascii(out, 48 + d);
    } else {
        push_ascii(out, 55 + d);
    }
}

/// Appends how one byte is shown inside `b"…"`.
fn push_byte_repr(out: &mut String, b: u8)
    ensures
        final(out)@ == old(out)@ + byte_repr(b),
{
    if 32 <= b && b < 127 {
        push_ascii(out, b);
        assert(final(out)@ =~= old(out)@ + byte_repr(b));
    } else {
        out.append("\\x");
        push_hex_digit(out, b / 16);
        push_hex_digit(out, b % 16);
        proof {
            reveal_strlit("\\x");
            assert(final(out)@ =~= old(out)@ + byte_repr(b));
        }
    }
}

/// Shows bytes as an escaped literal, `b"…"`: printable ASCII as itself,
/// other bytes as `\xHH`. Only the first `truncate_at` bytes are shown; when
/// some are left out, the full length follows.
pub fn repr_bytes(bytes: &[u8], truncate_at: usize) -> (r: String)
    ensures
        r@ == repr_text(bytes@, truncate_at as nat),
{
    let mut out = String::from_str("b\"");
    let n: usize = if bytes.len() > truncate_at {
        truncate_at
    } else {
        bytes.len()
    };
    let ghost shown = if bytes@.len() > truncate_at {
        bytes@.subrange(0, truncate_at as int)
    } else {
        bytes@
    };
    let ghost start = out@;
    let mut i: usize = 0;
    while i < n
        invariant
            n <= bytes@.len(),
            n == shown.len(),
            shown == bytes@.subrange(0, n as int),
            i <= n,
            out@ == start + bytes_repr(shown.subrange(0, i as int)),
        decreases n - i,
    {
        push_byte_repr(&mut out, bytes[i]);
        proof {
            let next = shown.subrange(0, i + 1);
            assert(next.drop_last() =~= shown.subrange(0, i as int));
            assert(next.last() == bytes@[i as int]);
        }
        i += 1;
    }
    assert(shown.subrange(0, n as int) =~= shown);
    out.append("\"");
    if bytes.len() > truncate_at {
        out.append("... (");
        let mut d: Vec<u8> = Vec::new();
        push_digits(bytes.len() as u64, &mut d);
        proof {
            assert(d@ =~= digits_of(bytes@.len()));
            lemma_digit_chars(bytes@.len());
            assert forall|i: int| 0 <= i < d@.len() implies 32 <= #[trigger] d@[i] < 127 by {
                assert(is_digit(digits_of(bytes@.len())[i]));
            }
        }
        push_ascii_bytes(&mut out, d.as_slice());
        out.append(" bytes)");
    }
    assert(out@ =~= repr_text(bytes@, truncate_at as nat));
    out
}

/// Shows a byte string as quoted text when it is UTF-8, else as an escaped
/// literal of at most `limit` bytes.
fn show_str(b: &[u8], limit: usize) -> (r: String)
    ensures
        r@ == str_text(b@, limit as nat),
{
    match utf8_text(b) {
        Some(s) => {
            proof {
                vstd::utf8::encode_utf8_decode_utf8(s@);
            }
            quoted(s)
        },
        None => repr_bytes(b, limit),
    }
}

fn push_spaces(out: &mut String, ind: usize, sz: usize)
    ensures
        final(out)@ == old(out)@ + spaces(ind as nat * sz as nat),
{
    let mut j: usize = 0;
    while j < ind
        invariant
            j <= ind,
            out@ == old(out)@ + spaces(j as nat * sz as nat),
        decreases ind - j,
    {
        let ghost before = out@;
        let mut t: usize = 0;
        while t < sz
            invariant
                t <= sz,
                out@ == before + spaces(t as nat),
            decreases sz - t,
        {
            out.append(" ");
            proof {
                reveal_strlit(" ");
                assert(out@ =~= before + spaces((t + 1) as nat));
            }
            t += 1;
        }
        assert((j + 1) as nat * sz as nat == j as nat * sz as nat + sz as nat) by (nonlinear_arith);
        assert(out@ =~= old(out)@ + spaces((j + 1) as nat * sz as nat));
        j += 1;
    }
}

proof fn lemma_entry_prefix(es: Seq<(Seq<u8>, Val)>, i: int, k: int, d: nat, ind: nat, sz: nat)
    requires
        0 <= i <= k <= es.len(),
    ensures
        entry_chunks(es.subrange(0, k), d, ind, sz).subrange(
            0,
            entry_chunks(es.subrange(0, i), d, ind, sz).len() as int,
        ) == entry_chunks(es.subrange(0, i), d, ind, sz),
        entry_chunks(es.subrange(0, i), d, ind, sz).len() <= entry_chunks(es.subrange(0, k), d, ind, sz).len(),
    decreases k - i,
{
    let a = entry_chunks(es.subrange(0, i), d, ind, sz);
    if k == i {
        assert(entry_chunks(es.subrange(0, k), d, ind, sz).subrange(0, a.len() as int) =~= a);
    } else {
        lemma_entry_prefix(es, i, k - 1, d, ind, sz);
        assert(es.subrange(0, k).subrange(0, k - 1) =~= es.subrange(0, k - 1));
        let e = es[k - 1];
        assert(entry_chunks(es.subrange(0, k), d, ind, sz) == entry_chunks(es.subrange(0, k - 1), d, ind, sz)
            + child_chunks(e.1, d, ind, sz, spaces(ind * sz) + str_text(e.0, 32) + ": "@, ",\n"@));
        let b = entry_chunks(es.subrange(0, k - 1), d, ind, sz);
        assert(entry_chunks(es.subrange(0, k), d, ind, sz).subrange(0, b.len() as int) =~= b);
        assert(entry_chunks(es.subrange(0, k), d, ind, sz).subrange(0, a.len() as int) =~= a);
    }
}

proof fn lemma_item_prefix(items: Seq<Val>, i: int, k: int, n: int, d: nat, ind: nat, sz: nat)
    requires
        0 <= i <= k <= items.len(),
    ensures
        item_chunks(items.subrange(0, k), n, d, ind, sz).subrange(
            0,
            item_chunks(items.subrange(0, i), n, d, ind, sz).len() as int,
        ) == item_chunks(items.subrange(0, i), n, d, ind, sz),
        item_chunks(items.subrange(0, i), n, d, ind, sz).len() <= item_chunks(items.subrange(0, k), n, d, ind, sz).len(),
    decreases k - i,
{
    let a = item_chunks(items.subrange(0, i), n, d, ind, sz);
    if k == i {
        assert(item_chunks(items.subrange(0, k), n, d, ind, sz).subrange(0, a.len() as int) =~= a);
    } else {
        lemma_item_prefix(items, i, k - 1, n, d, ind, sz);
        assert(items.subrange(0, k).subrange(0, k - 1) =~= items.subrange(0, k - 1));
        assert(item_chunks(items.subrange(0, k), n, d, ind, sz) == item_chunks(items.subrange(0, k - 1), n, d, ind, sz)
            + child_chunks(items[k - 1], d, ind, sz, Seq::empty(), item_sep(k - 1, n)));
        let b = item_chunks(items.subrange(0, k - 1), n, d, ind, sz);
        assert(item_chunks(items.subrange(0, k), n, d, ind, sz).subrange(0, b.len() as int) =~= b);
        assert(item_chunks(items.subrange(0, k), n, d, ind, sz).subrange(0, a.len() as int) =~= a);
    }
}

/// Collects rendering steps, keeping the text of the first `STEP_LIMIT`.
struct Renderer {
    out: String,
    count: usize,
    sz: usize,
    all: Ghost<Seq<Seq<char>>>,
}

impl Renderer {
    spec fn inv(&self) -> bool {
        &&& self.count as nat == min_nat(self.all@.len(), STEP_LIMIT as nat)
        &&& self.out@ == flatten(self.all@.subrange(0, self.count as int))
    }

    fn emit(&mut self, chunk: String)
        requires
            old(self).inv(),
        ensures
            final(self).inv(),
            final(self).sz == old(self).sz,
            final(self).all@ == old(self).all@.push(chunk@),
    {
        let ghost all0 = self.all@;
        self.all = Ghost(all0.push(chunk@));
        if self.count < STEP_LIMIT {
            self.out.append(chunk.as_str());
            proof {
                let s = self.all@.subrange(0, self.count + 1);
                assert(s.drop_last() =~= all0.subrange(0, self.count as int));
            }
            self.count = self.count + 1;
        } else {
            assert(self.all@.subrange(0, self.count as int) =~= all0.subrange(0, self.count as int));
        }
    }

    /// Once the text is cut off, the remaining steps are only recorded.
    fn skip_rest(&mut self, full: Ghost<Seq<Seq<char>>>)
        requires
            old(self).inv(),
            old(self).count >= STEP_LIMIT,
            old(self).all@.len() <= full@.len(),
            full@.subrange(0, old(self).all@.len() as int) == old(self).all@,
        ensures
            final(self).inv(),
            final(self).sz == old(self).sz,
            final(self).all@ == full@,
    {
        let ghost all0 = self.all@;
        self.all = full;
        assert(self.all@.subrange(0, self.count as int) =~= all0.subrange(0, self.count as int));
    }

    fn child(&mut self, v: &Value, d: usize, ind: usize, pre: String, suf: &str)
        requires
            old(self).inv(),
            d <= DEPTH_LIMIT,
            ind <= d + 1,
        ensures
            final(self).inv(),
            final(self).sz == old(self).sz,
            final(self).all@ == old(self).all@ + child_chunks(
                v@,
                d as nat,
                ind as nat,
                old(self).sz as nat,
                pre@,
                suf@,
            ),
        decreases *v, 1nat,
    {
        let ghost all0 = self.all@;
        let mut c = pre;
        match v {
            Value::Dict(es) => {
                proof {
                    lemma_entries_view(es@);
                }
                if es.len() == 0 {
                    c.append("{}");
                    c.append(suf);
                    self.emit(c);
                } else if d >= DEPTH_LIMIT {
                    c.append("{...}");
                    c.append(suf);
                    self.emit(c);
                } else {
                    self.open(v, d + 1, ind, c, suf);
                    return;
                }
            },
            Value::List(items) => {
                proof {
                    lemma_items_view(items@);
                }
                if items.len() == 0 {
                    c.append("[]");
                    c.append(suf);
                    self.emit(c);
                } else if d >= DEPTH_LIMIT {
                    c.append("[...]");
                    c.append(suf);
                    self.emit(c);
                } else {
                    self.open(v, d + 1, ind, c, suf);
                    return;
                }
            },
            Value::Int(n) => {
                push_int_text(&mut c, *n);
                c.append(suf);
                self.emit(c);
            },
            Value::Str(b) => {
                let t = show_str(b.as_slice(), 8);
                c.append(t.as_str());
                c.append(suf);
                self.emit(c);
            },
        }
        assert(self.all@ =~= all0 + child_chunks(v@, d as nat, ind as nat, self.sz as nat, pre@, suf@));
    }

    fn open(&mut self, v: &Value, d: usize, ind: usize, pre: String, suf: &str)
        requires
            old(self).inv(),
            d <= DEPTH_LIMIT,
            ind <= d,
            v@ is Dict || v@ is List,
        ensures
            final(self).inv(),
            final(self).sz == old(self).sz,
            final(self).all@ == old(self).all@ + open_chunks(
                v@,
                d as nat,
                ind as nat,
                old(self).sz as nat,
                pre@,
                suf@,
            ),
        decreases *v, 0nat,
    {
        let ghost all0 = self.all@;
        let ghost sz = self.sz as nat;
        let ghost pre_v = pre@;
        let ghost full = all0 + open_chunks(v@, d as nat, ind as nat, sz, pre@, suf@);
        if self.count >= STEP_LIMIT {
            assert(full.subrange(0, all0.len() as int) =~= all0);
            self.skip_rest(Ghost(full));
            return;
        }
        match v {
            Value::Dict(es) => {
                let mut head = pre;
                head.append("{\n");
                let ghost h = head@;
                self.emit(head);
                let ghost ev = entries_view(es@);
                let mut i: usize = 0;
                assert(ev.subrange(0, 0) =~= Seq::<(Seq<u8>, Val)>::empty());
                assert(self.all@ =~= all0 + seq![h] + entry_chunks(ev.subrange(0, 0), d as nat, (ind + 1) as nat, sz));
                while i < es.len()
                    invariant
                        *v == Value::Dict(*es),
                        all0 == old(self).all@,
                        sz == old(self).sz as nat,
                        self.sz == old(self).sz,
                        pre_v == pre@,
                        full == all0 + open_chunks(v@, d as nat, ind as nat, sz, pre_v, suf@),
                        h == pre_v + "{\n"@,
                        ev == entries_view(es@),
                        self.inv(),
                        self.sz as nat == sz,
                        d <= DEPTH_LIMIT,
                        ind <= d,
                        i <= es@.len(),
                        self.all@ == all0 + seq![h] + entry_chunks(
                            ev.subrange(0, i as int),
                            d as nat,
                            (ind + 1) as nat,
                            sz,
                        ),
                    decreases es@.len() - i,
                {
                    proof {
                        lemma_entries_view(es@);
                        vstd::std_specs::vec::axiom_vec_index_decreases(*es, i as int);
                        assert(decreases_to!(*v => (*v)->Dict_0));
                        assert(decreases_to!(es[i as int] => es[i as int].1));
                    }
                    if self.count >= STEP_LIMIT {
                        proof {
                            lemma_entries_view(es@);
                            lemma_entry_prefix(ev, i as int, ev.len() as int, d as nat, (ind + 1) as nat, sz);
                            assert(ev.subrange(0, ev.len() as int) =~= ev);
                            let cur = self.all@;
                            assert(full =~= all0 + seq![h] + entry_chunks(ev, d as nat, (ind + 1) as nat, sz)
                                + seq![spaces(ind as nat * sz) + "}"@ + suf@]);
                            assert(full.subrange(0, cur.len() as int) =~= cur);
                        }
                        self.skip_rest(Ghost(full));
                        return;
                    }
                    let mut p = String::new();
                    push_spaces(&mut p, ind + 1, self.sz);
                    let k = show_str(es[i].0.as_slice(), 32);
                    p.append(k.as_str());
                    p.append(": ");
                    self.child(&es[i].1, d, ind + 1, p, ",\n");
                    proof {
                        let next = ev.subrange(0, i + 1);
                        assert(next.subrange(0, i as int) =~= ev.subrange(0, i as int));
                        assert(next[i as int] == (es@[i as int].0@, es@[i as int].1@));
                        assert(spaces((ind + 1) as nat * sz) + str_text(es@[i as int].0@, 32) + ": "@
                            =~= (spaces((ind + 1) as nat * sz) + str_text(es@[i as int].0@, 32)) + ": "@);
                    }
                    i += 1;
                    assert(self.all@ =~= all0 + seq![h] + entry_chunks(ev.subrange(0, i as int), d as nat, (ind + 1) as nat, sz));
                }
                proof {
                    lemma_entries_view(es@);
                    assert(ev.subrange(0, es@.len() as int) =~= ev);
                }
                let mut tail = String::new();
                push_spaces(&mut tail, ind, self.sz);
                tail.append("}");
                tail.append(suf);
                self.emit(tail);
                assert(self.all@ =~= all0 + open_chunks(v@, d as nat, ind as nat, sz, pre@, suf@));
            },
            Value::List(items) => {
                let mut head = pre;
                head.append("[");
                let ghost h = head@;
                self.emit(head);
                let ghost iv = items_view(items@);
                let n = items.len();
                let mut i: usize = 0;
                assert(iv.subrange(0, 0) =~= Seq::<Val>::empty());
                assert(self.all@ =~= all0 + seq![h] + item_chunks(iv.subrange(0, 0), n as int, d as nat, ind as nat, sz));
                while i < n
                    invariant
                        *v == Value::List(*items),
                        all0 == old(self).all@,
                        sz == old(self).sz as nat,
                        self.sz == old(self).sz,
                        pre_v == pre@,
                        full == all0 + open_chunks(v@, d as nat, ind as nat, sz, pre_v, suf@),
                        h == pre_v + "["@,
                        iv == items_view(items@),
                        n == items@.len(),
                        self.inv(),
                        self.sz as nat == sz,
                        d <= DEPTH_LIMIT,
                        ind <= d,
                        i <= n,
                        self.all@ == all0 + seq![h] + item_chunks(
                            iv.subrange(0, i as int),
                            n as int,
                            d as nat,
                            ind as nat,
                            sz,
                        ),
                    decreases n - i,
                {
                    proof {
                        lemma_items_view(items@);
                        vstd::std_specs::vec::axiom_vec_index_decreases(*items, i as int);
                        assert(decreases_to!(*v => (*v)->List_0));
                    }
                    if self.count >= STEP_LIMIT {
                        proof {
                            lemma_items_view(items@);
                            lemma_item_prefix(iv, i as int, iv.len() as int, n as int, d as nat, ind as nat, sz);
                            assert(iv.subrange(0, iv.len() as int) =~= iv);
                            let cur = self.all@;
                            assert(full =~= all0 + seq![h] + item_chunks(iv, n as int, d as nat, ind as nat, sz)
                                + seq!["]"@ + suf@]);
                            assert(full.subrange(0, cur.len() as int) =~= cur);
                        }
                        self.skip_rest(Ghost(full));
                        return;
                    }
                    let sep = if i + 1 < n {
                        ", "
                    } else {
                        ""
                    };
                    proof {
                        reveal_strlit("");
                        assert(sep@ == item_sep(i as int, n as int));
                    }
                    let e = String::new();
                    assert(e@ =~= Seq::<char>::empty());
                    self.child(&items[i], d, ind, e, sep);
                    proof {
                        let next = iv.subrange(0, i + 1);
                        assert(next.subrange(0, i as int) =~= iv.subrange(0, i as int));
                        assert(next[i as int] == items@[i as int]@);
                    }
                    i += 1;
                    assert(self.all@ =~= all0 + seq![h] + item_chunks(iv.subrange(0, i as int), n as int, d as nat, ind as nat, sz));
                }
                proof {
                    lemma_items_view(items@);
                    assert(iv.subrange(0, n as int) =~= iv);
                }
                let mut tail = String::from_str("]");
                tail.append(suf);
                self.emit(tail);
                assert(self.all@ =~= all0 + open_chunks(v@, d as nat, ind as nat, sz, pre@, suf@));
            },
            _ => {},
        }
    }
}

/// Indented rendering of a value: dicts one entry per line with keys in
/// order, lists inline, strings quoted when they are text and escaped when
/// not; containers nested past `DEPTH_LIMIT` show as placeholders, and the
/// output stops after `STEP_LIMIT` steps with a visible marker.
pub struct ValueDisplay<'a> {
    pub root: &'a Value,
    pub indent_size: usize,
}

impl<'a> ValueDisplay<'a> {
    pub fn new(root: &'a Value, indent_size: usize) -> (r: Self)
        ensures
            r.root == root,
            r.indent_size == indent_size,
    {
        ValueDisplay { root, indent_size }
    }

    /// The rendered text.
    pub fn fmt(&self) -> (r: String)
        ensures
            r@ == render(self.root@, self.indent_size as nat),
    {
        let mut r = Renderer { out: String::new(), count: 0, sz: self.indent_size, all: Ghost(Seq::empty()) };
        assert(r.all@.subrange(0, 0) =~= Seq::<Seq<char>>::empty());
        match self.root {
            Value::Dict(_) | Value::List(_) => {
                proof {
                    reveal_strlit("");
                }
                let e = String::new();
                assert(e@ =~= Seq::<char>::empty());
                assert(""@ =~= Seq::<char>::empty());
                r.open(self.root, 0, 0, e, "");
            },
            Value::Int(n) => {
                let mut c = String::new();
                push_int_text(&mut c, *n);
                r.emit(c);
            },
            Value::Str(b) => {
                let c = show_str(b.as_slice(), 32);
                r.emit(c);
            },
        }
        assert(r.all@ =~= root_chunks(self.root@, self.indent_size as nat));
        if r.count >= STEP_LIMIT {
            r.out.append("\n<truncating as output would be too big...>");
        }
        r.out
    }
}

impl Value {
    /// The rendering of this value with two-space indentation.
    pub fn to_display_string(&self) -> (r: String)
        ensures
            r@ == render(self@, 2),
    {
        ValueDisplay::new(self, 2).fmt()
    }
}

} // verus!
