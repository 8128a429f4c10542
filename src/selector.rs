use vstd::prelude::*;
use vstd::string::{StrSliceExecFns, StringExecFns, StringSliceAdditionalSpecFns};
use vstd::utf8::encode_utf8;
use crate::dict::entries_find;
use crate::order::{dict_get, lemma_find_key};
use crate::value::{entries_view, items_view, lemma_entries_view, lemma_items_view, Val, Value};

verus! {

/// Why a selector is malformed.
#[derive(PartialEq, Eq, Structural, Clone, Copy, Debug)]
pub enum SelectorSyntax {
    ExpectedDot,
    ExpectedBracket,
    CannotEscape,
    TrailingEscape,
    NotANumber,
    UnexpectedMinus,
}

/// Selector errors. The first `String` of each is the selector up to the
/// failing accessor, or `<root>`.
#[derive(Debug)]
pub enum SelectError {
    /// The dict has no such key.
    Key(String, String),
    /// The index is out of bounds for the list.
    Index(String, usize),
    /// A key accessor was applied to a list.
    Subscriptable(String),
    /// An index accessor was applied to a dict.
    Indexable(String),
    /// An accessor was applied to an integer or a string.
    Primitive(String),
    /// The selector is malformed at this one-based position.
    Syntax(String, usize, SelectorSyntax),
    /// The selector ended inside an index accessor.
    End,
}

/// Model of a selector error.
pub enum SelErr {
    Key(Seq<char>, Seq<char>),
    Index(Seq<char>, nat),
    Subscriptable(Seq<char>),
    Indexable(Seq<char>),
    Primitive(Seq<char>),
    Syntax(Seq<char>, nat, SelectorSyntax),
    End,
}

impl SelectError {
    pub open spec fn model(&self) -> SelErr {
        match self {
            SelectError::Key(c, k) => SelErr::Key(c@, k@),
            SelectError::Index(c, i) => SelErr::Index(c@, *i as nat),
            SelectError::Subscriptable(c) => SelErr::Subscriptable(c@),
            SelectError::Indexable(c) => SelErr::Indexable(c@),
            SelectError::Primitive(c) => SelErr::Primitive(c@),
            SelectError::Syntax(c, p, r) => SelErr::Syntax(c@, *p as nat, *r),
            SelectError::End => SelErr::End,
        }
    }
}

/// The selector's first `n` characters, or `<root>` when that is empty.
pub open spec fn context(s: Seq<char>, n: int) -> Seq<char> {
    if n <= 0 {
        "<root>"@
    } else if n >= s.len() {
        s
    } else {
        s.subrange(0, n)
    }
}

/// Reads a key from position `j`: `acc` holds the key so far and `escaped`
/// says whether the previous character was an unused backslash. Yields the
/// key and the position of its terminating `.`, `[` or end.
pub open spec fn scan_key(s: Seq<char>, j: int, acc: Seq<char>, escaped: bool) -> Result<
    (Seq<char>, int),
    SelectorSyntax,
>
    decreases s.len() - j,
{
    if j >= s.len() || j < 0 {
        if escaped {
            Err(SelectorSyntax::TrailingEscape)
        } else {
            Ok((acc, s.len() as int))
        }
    } else {
        let c = s[j];
        if c == '.' || c == '[' {
            if escaped {
                scan_key(s, j + 1, acc.push(c), false)
            } else {
                Ok((acc, j))
            }
        } else if c == '\\' {
            if escaped {
                scan_key(s, j + 1, acc.push(c), false)
            } else {
                scan_key(s, j + 1, acc, true)
            }
        } else if escaped {
            Err(SelectorSyntax::CannotEscape)
        } else {
            scan_key(s, j + 1, acc.push(c), false)
        }
    }
}

/// Position of the `]` that closes an index accessor, scanning from `j`.
pub open spec fn scan_index(s: Seq<char>, j: int) -> Result<int, Option<SelectorSyntax>>
    decreases s.len() - j,
{
    if j >= s.len() || j < 0 {
        Err(None)
    } else if s[j] == ']' {
        Ok(j)
    } else if s[j] == '-' {
        Err(Some(SelectorSyntax::UnexpectedMinus))
    } else {
        scan_index(s, j + 1)
    }
}

pub open spec fn is_digit_char(c: char) -> bool {
    '0' <= c <= '9'
}

/// The number that a run of decimal digits denotes.
pub open spec fn digits_value(d: Seq<char>) -> nat
    decreases d.len(),
{
    if d.len() == 0 {
        0
    } else {
        digits_value(d.drop_last()) * 10 + (d.last() as nat - '0' as nat) as nat
    }
}

/// The index written between positions `a` and `b`, if it is a number that
/// fits in `usize`.
pub open spec fn index_value(s: Seq<char>, a: int, b: int) -> Option<nat> {
    let d = s.subrange(a, b);
    if d.len() > 0 && (forall|i: int| 0 <= i < d.len() ==> is_digit_char(#[trigger] d[i]))
        && digits_value(d) <= usize::MAX {
        Some(digits_value(d))
    } else {
        None
    }
}

/// Parses the key accessor at `p`.
pub open spec fn key_step(s: Seq<char>, p: int) -> Result<(Seq<char>, int), SelErr> {
    if s[p] != '.' {
        Err(SelErr::Syntax(context(s, p + 1), (p + 1) as nat, SelectorSyntax::ExpectedDot))
    } else {
        match scan_key(s, p + 1, Seq::empty(), false) {
            Err(e) => Err(SelErr::Syntax(context(s, p + 1), (p + 1) as nat, e)),
            Ok(r) => Ok(r),
        }
    }
}

/// Parses the index accessor at `p`.
pub open spec fn index_step(s: Seq<char>, p: int) -> Result<(nat, int), SelErr> {
    if s[p] != '[' {
        Err(SelErr::Syntax(context(s, p + 1), (p + 1) as nat, SelectorSyntax::ExpectedBracket))
    } else {
        match scan_index(s, p + 1) {
            Err(None) => Err(SelErr::End),
            Err(Some(e)) => Err(SelErr::Syntax(context(s, p + 1), (p + 1) as nat, e)),
            Ok(q) => match index_value(s, p + 1, q) {
                None => Err(
                    SelErr::Syntax(context(s, p + 1), (p + 1) as nat, SelectorSyntax::NotANumber),
                ),
                Some(n) => Ok((n, q + 1)),
            },
        }
    }
}

pub open spec fn is_container(v: Val) -> bool {
    v is Dict || v is List
}

/// After the accessor that ended at `q` selected `w`: the result, or the
/// walk on into `w`.
pub open spec fn walk(v: Val, s: Seq<char>, p: int) -> Result<Val, SelErr>
    decreases s.len() - p,
{
    if p < 0 || p >= s.len() {
        Ok(v)
    } else {
        match v {
            Val::Dict(es) => {
                if s[p] == '[' {
                    Err(SelErr::Indexable(context(s, p + 1)))
                } else {
                    match key_step(s, p) {
                        Err(e) => Err(e),
                        Ok((k, q)) => match dict_get(es, encode_utf8(k)) {
                            None => Err(SelErr::Key(context(s, q), k)),
                            Some(w) => if q <= p || q >= s.len() {
                                Ok(w)
                            } else if is_container(w) {
                                walk(w, s, q)
                            } else {
                                Err(SelErr::Primitive(context(s, q)))
                            },
                        },
                    }
                }
            },
            Val::List(items) => {
                if s[p] == '.' {
                    Err(SelErr::Subscriptable(context(s, p + 1)))
                } else {
                    match index_step(s, p) {
                        Err(e) => Err(e),
                        Ok((n, q)) => if n >= items.len() {
                            Err(SelErr::Index(context(s, q), n))
                        } else {
                            let w = items[n as int];
                            if q <= p || q >= s.len() {
                                Ok(w)
                            } else if is_container(w) {
                                walk(w, s, q)
                            } else {
                                Err(SelErr::Primitive(context(s, q)))
                            }
                        },
                    }
                }
            },
            _ => Err(SelErr::Primitive(context(s, p))),
        }
    }
}

/// What a selector addresses in a value. The empty selector addresses the
/// value itself.
pub open spec fn select_spec(v: Val, s: Seq<char>) -> Result<Val, SelErr> {
    if s.len() == 0 {
        Ok(v)
    } else if !is_container(v) {
        Err(SelErr::Primitive("<root>"@))
    } else {
        walk(v, s, 0)
    }
}

pub proof fn lemma_scan_key_bound(s: Seq<char>, j: int, acc: Seq<char>, escaped: bool)
    requires
        0 <= j <= s.len(),
    ensures
        scan_key(s, j, acc, escaped) is Ok ==> j <= scan_key(s, j, acc, escaped)->Ok_0.1 <= s.len(),
    decreases s.len() - j,
{
    if j < s.len() {
        lemma_scan_key_bound(s, j + 1, acc.push(s[j]), false);
        lemma_scan_key_bound(s, j + 1, acc, true);
    }
}

pub proof fn lemma_scan_index_bound(s: Seq<char>, j: int)
    requires
        0 <= j <= s.len(),
    ensures
        scan_index(s, j) is Ok ==> j <= scan_index(s, j)->Ok_0 < s.len(),
    decreases s.len() - j,
{
    if j < s.len() {
        lemma_scan_index_bound(s, j + 1);
    }
}

/// The selector's first `n` characters, or `<root>`.
pub(crate) fn context_of(s: &str, n: usize) -> (r: String)
    requires
        n <= s@.len(),
    ensures
        r@ == context(s@, n as int),
{
    if n == 0 {
        proof {
            reveal_strlit("<root>");
        }
        String::from_str("<root>")
    } else {
        let r = s.substring_char(0, n).to_owned();
        if n == s.unicode_len() {
            assert(s@.subrange(0, n as int) =~= s@);
        }
        r
    }
}

impl Value {
    /// Parses the key accessor that starts at character `p` of `s`, whose
    /// length in characters is `len`. Yields the key and where the rest of
    /// the selector starts.
    pub fn parse_key_selector(s: &str, len: usize, p: usize) -> (r: Result<(String, usize), SelectError>)
        requires
            len == s@.len(),
            p < len,
        ensures
            match key_step(s@, p as int) {
                Ok((k, q)) => r is Ok && r->Ok_0.0@ == k && r->Ok_0.1 == q,
                Err(e) => r is Err && r->Err_0.model() == e,
            },
    {
        if s.get_char(p) != '.' {
            return Err(SelectError::Syntax(context_of(s, p + 1), p + 1, SelectorSyntax::ExpectedDot));
        }
        let mut acc = String::new();
        let mut escaped = false;
        let mut j: usize = p + 1;
        proof {
            assert(acc@ =~= Seq::<char>::empty());
        }
        while j < len
            invariant
                len == s@.len(),
                p < j <= len,
                s@[p as int] == '.',
                scan_key(s@, p + 1, Seq::empty(), false) == scan_key(s@, j as int, acc@, escaped),
            ensures
                p < j <= len,
                scan_key(s@, p + 1, Seq::empty(), false) == scan_key(s@, j as int, acc@, escaped),
                j < len ==> !escaped && (s@[j as int] == '.' || s@[j as int] == '['),
            decreases len - j,
        {
            let c = s.get_char(j);
            let ghost a0 = acc@;
            let ghost e0 = escaped;
            assert(s@.subrange(j as int, j + 1) =~= seq![c]);
            if c == '.' || c == '[' {
                if escaped {
                    acc.append(s.substring_char(j, j + 1));
                    escaped = false;
                } else {
                    break;
                }
            } else if c == '\\' {
                if escaped {
                    acc.append(s.substring_char(j, j + 1));
                    escaped = false;
                } else {
                    escaped = true;
                }
            } else if escaped {
                return Err(
                    SelectError::Syntax(context_of(s, p + 1), p + 1, SelectorSyntax::CannotEscape),
                );
            } else {
                acc.append(s.substring_char(j, j + 1));
            }
            proof {
                if e0 || (c != '.' && c != '[' && c != '\\') {
                    assert(acc@ =~= a0.push(c));
                }
            }
            j += 1;
        }
        if escaped && j >= len {
            return Err(
                SelectError::Syntax(context_of(s, p + 1), p + 1, SelectorSyntax::TrailingEscape),
            );
        }
        Ok((acc, j))
    }

    /// Parses the index accessor that starts at character `p` of `s`, whose
    /// length in characters is `len`. Yields the index and where the rest of
    /// the selector starts.
    pub fn parse_index_selector(s: &str, len: usize, p: usize) -> (r: Result<(usize, usize), SelectError>)
        requires
            len == s@.len(),
            p < len,
        ensures
            match index_step(s@, p as int) {
                Ok((n, q)) => r is Ok && r->Ok_0.0 == n && r->Ok_0.1 == q,
                Err(e) => r is Err && r->Err_0.model() == e,
            },
    {
        if s.get_char(p) != '[' {
            return Err(
                SelectError::Syntax(context_of(s, p + 1), p + 1, SelectorSyntax::ExpectedBracket),
            );
        }
        let mut j: usize = p + 1;
        while j < len
            invariant
                len == s@.len(),
                p < j <= len,
                s@[p as int] == '[',
                scan_index(s@, p + 1) == scan_index(s@, j as int),
            ensures
                p < j <= len,
                scan_index(s@, p + 1) == scan_index(s@, j as int),
                j < len ==> s@[j as int] == ']',
            decreases len - j,
        {
            let c = s.get_char(j);
            if c == ']' {
                break;
            } else if c == '-' {
                return Err(
                    SelectError::Syntax(context_of(s, p + 1), p + 1, SelectorSyntax::UnexpectedMinus),
                );
            }
            j += 1;
        }
        if j >= len {
            return Err(SelectError::End);
        }
        let ghost d = s@.subrange(p + 1, j as int);
        let mut k: usize = p + 1;
        let mut value: usize = 0;
        let mut digits = true;
        let mut over = false;
        while k < j
            invariant
                len == s@.len(),
                p < k <= j < len,
                s@[p as int] == '[',
                scan_index(s@, p + 1) == Ok::<int, Option<SelectorSyntax>>(j as int),
                d == s@.subrange(p + 1, j as int),
                digits == (forall|i: int| 0 <= i < k - (p + 1) ==> is_digit_char(#[trigger] d[i])),
                digits ==> (over == (digits_value(d.subrange(0, k - (p + 1))) > usize::MAX)),
                digits && !over ==> value == digits_value(d.subrange(0, k - (p + 1))),
            decreases j - k,
        {
            let c = s.get_char(k);
            let ghost pre = d.subrange(0, k - (p + 1));
            let ghost next = d.subrange(0, k + 1 - (p + 1));
            assert(next.drop_last() =~= pre);
            assert(next.last() == c);
            if '0' <= c && c <= '9' {
                let x: usize = (c as u32 - '0' as u32) as usize;
                if digits && !over {
                    if value > (usize::MAX - x) / 10 {
                        over = true;
                        assert(value * 10 + x > usize::MAX) by (nonlinear_arith)
                            requires
                                value > (usize::MAX - x) / 10,
                                x <= 9;
                    } else {
                        assert(value * 10 + x <= usize::MAX) by (nonlinear_arith)
                            requires
                                value <= (usize::MAX - x) / 10,
                                x <= 9;
                        value = value * 10 + x;
                    }
                } else if digits && over {
                    assert(digits_value(pre) * 10 + x > usize::MAX) by (nonlinear_arith)
                        requires
                            digits_value(pre) > usize::MAX;
                }
            } else {
                digits = false;
            }
            k += 1;
        }
        assert(d.subrange(0, d.len() as int) =~= d);
        if !digits || over || k == p + 1 {
            return Err(
                SelectError::Syntax(context_of(s, p + 1), p + 1, SelectorSyntax::NotANumber),
            );
        }
        Ok((value, j + 1))
    }

    /// Selects the value that `selector` addresses inside this one.
    ///
    /// `.key` selects in a dict (a backslash lets a key hold `.`, `[` or a
    /// backslash) and `[n]` selects in a list. The empty selector selects
    /// this value. Errors name the selector up to the failing accessor.
    pub fn select(&self, selector: &str) -> (r: Result<&Value, SelectError>)
        ensures
            match select_spec(self@, selector@) {
                Ok(v) => r is Ok && r->Ok_0@ == v,
                Err(e) => r is Err && r->Err_0.model() == e,
            },
    {
        let len = selector.unicode_len();
        if len == 0 {
            return Ok(self);
        }
        match self {
            Value::Int(_) | Value::Str(_) => {
                proof {
                    reveal_strlit("<root>");
                }
                return Err(SelectError::Primitive(String::from_str("<root>")));
            },
            _ => {},
        }
        let ghost s = selector@;
        let mut cur: &Value = self;
        let mut p: usize = 0;
        loop
            invariant
                len == s.len(),
                s == selector@,
                p < len,
                is_container(cur@),
                select_spec(self@, s) == walk(cur@, s, p as int),
            decreases len - p,
        {
            match cur {
                Value::Dict(es) => {
                    if selector.get_char(p) == '[' {
                        return Err(SelectError::Indexable(context_of(selector, p + 1)));
                    }
                    let (key, q) = match Value::parse_key_selector(selector, len, p) {
                        Ok(kq) => kq,
                        Err(e) => {
                            return Err(e);
                        },
                    };
                    proof {
                        lemma_scan_key_bound(s, p + 1, Seq::empty(), false);
                    }
                    let kb = key.as_str().as_bytes();
                    proof {
                        lemma_entries_view(es@);
                        lemma_find_key(entries_view(es@), kb@, 0);
                    }
                    match entries_find(es, kb) {
                        None => {
                            return Err(SelectError::Key(context_of(selector, q), key));
                        },
                        Some(i) => {
                            let w = &es[i].1;
                            if q >= len {
                                return Ok(w);
                            }
                            match w {
                                Value::Int(_) | Value::Str(_) => {
                                    return Err(SelectError::Primitive(context_of(selector, q)));
                                },
                                _ => {},
                            }
                            cur = w;
                            p = q;
                        },
                    }
                },
                Value::List(items) => {
                    if selector.get_char(p) == '.' {
                        return Err(SelectError::Subscriptable(context_of(selector, p + 1)));
                    }
                    let (n, q) = match Value::parse_index_selector(selector, len, p) {
                        Ok(nq) => nq,
                        Err(e) => {
                            return Err(e);
                        },
                    };
                    proof {
                        lemma_scan_index_bound(s, p + 1);
                        lemma_items_view(items@);
                    }
                    if n >= items.len() {
                        return Err(SelectError::Index(context_of(selector, q), n));
                    }
                    let w = &items[n];
                    if q >= len {
                        return Ok(w);
                    }
                    match w {
                        Value::Int(_) | Value::Str(_) => {
                            return Err(SelectError::Primitive(context_of(selector, q)));
                        },
                        _ => {},
                    }
                    cur = w;
                    p = q;
                },
                _ => {
                    return Err(SelectError::End);
                },
            }
        }
    }
}

} // verus!
