use vstd::prelude::*;
use crate::dict::entries_insert;
use vstd::string::StringSliceAdditionalSpecFns;
use crate::order::dict_insert;
use crate::value::{entries_view, items_view, Val, Value};

verus! {

/// Longest accepted integer or length literal, in characters.
pub const MAX_INT_BUF: usize = 32;

/// Size of the windows in which `load_bytes` feeds its input.
pub const CHUNK_SIZE: usize = 2048;

/// Where the decoder stands between two bytes.
#[derive(PartialEq, Eq, Structural, Clone, Copy, Debug)]
pub enum Mode {
    /// A value is expected: at the root, as a list item, or as a dict value.
    Value,
    /// Inside a dict: a key string or the closing `e` is expected.
    Key,
    /// Inside an integer, after `i`.
    IntBody,
    /// Inside the decimal length prefix of a string.
    Len,
    /// Inside the bytes of a string.
    Body,
    /// The root value is complete.
    Done,
}

/// Why a byte was rejected.
#[derive(PartialEq, Eq, Structural, Clone, Copy, Debug)]
pub enum SyntaxReason {
    UnexpectedToken,
    NonStringKey,
    UnexpectedMinus,
    EmptyInteger,
    ExpectedEnd,
    InvalidInteger,
    ExpectedColon,
    TrailingData,
}

/// A rejected byte, without its position.
#[derive(PartialEq, Eq, Structural, Clone, Copy, Debug)]
pub enum Fault {
    Syntax(SyntaxReason),
    BigInt,
}

/// Decoding errors.
#[derive(PartialEq, Eq, Structural, Clone, Copy, Debug)]
pub enum Error {
    /// The input holds no byte.
    Empty,
    /// The byte at this zero-based offset was not expected.
    Syntax(usize, SyntaxReason),
    /// The input ended inside a value.
    Eof,
    /// An integer or length literal has more than 32 characters.
    BigInt,
}

/// An open container on the parse stack.
pub enum PFrame {
    List(Seq<Val>),
    /// Entries so far, and the key waiting for its value.
    Dict(Seq<(Seq<u8>, Val)>, Option<Seq<u8>>),
}

/// Model of the decoder's state.
pub struct PState {
    pub mode: Mode,
    pub frames: Seq<PFrame>,
    pub root: Option<Val>,
    /// Characters of the current number literal, counted up to 33.
    pub count: nat,
    pub neg: bool,
    pub mag: nat,
    /// The magnitude went past `u64::MAX`; `mag` then holds its last fitting value.
    pub over: bool,
    /// The string being read is a dict key.
    pub is_key: bool,
    pub remaining: nat,
    pub buf: Seq<u8>,
}

pub open spec fn init_state() -> PState {
    PState {
        mode: Mode::Value,
        frames: Seq::empty(),
        root: None,
        count: 0,
        neg: false,
        mag: 0,
        over: false,
        is_key: false,
        remaining: 0,
        buf: Seq::empty(),
    }
}

pub open spec fn is_digit(c: u8) -> bool {
    48 <= c <= 57
}

/// One more digit of a number literal.
pub open spec fn accumulate(st: PState, c: u8) -> PState {
    let m = st.mag * 10 + (c - 48);
    let count = if st.count < 33 { st.count + 1 } else { 33 };
    if st.over || m > u64::MAX {
        PState { count, over: true, ..st }
    } else {
        PState { count, mag: m as nat, ..st }
    }
}

/// The first digit of a string's length prefix.
pub open spec fn start_len(st: PState, is_key: bool, c: u8) -> PState {
    accumulate(
        PState { mode: Mode::Len, is_key, count: 0, neg: false, mag: 0, over: false, ..st },
        c,
    )
}

/// A state with the given mode, stack and root, and no literal in progress.
pub open spec fn settle(mode: Mode, frames: Seq<PFrame>, root: Option<Val>) -> PState {
    PState {
        mode,
        frames,
        root,
        count: 0,
        neg: false,
        mag: 0,
        over: false,
        is_key: false,
        remaining: 0,
        buf: Seq::empty(),
    }
}

/// Hands a finished value to the innermost open container, or makes it the root.
pub open spec fn deliver(st: PState, v: Val) -> PState {
    if st.frames.len() == 0 {
        settle(Mode::Done, st.frames, Some(v))
    } else {
        let rest = st.frames.drop_last();
        match st.frames.last() {
            PFrame::List(items) => settle(
                Mode::Value,
                rest.push(PFrame::List(items.push(v))),
                st.root,
            ),
            PFrame::Dict(es, Some(k)) => settle(
                Mode::Key,
                rest.push(PFrame::Dict(dict_insert(es, k, v), None)),
                st.root,
            ),
            PFrame::Dict(es, None) => settle(Mode::Key, st.frames, st.root),
        }
    }
}

/// Hands a finished string to its place: the pending key of the innermost
/// dict, or a value.
pub open spec fn deliver_str(st: PState, s: Seq<u8>) -> PState {
    if st.is_key && st.frames.len() > 0 && st.frames.last() is Dict {
        settle(
            Mode::Value,
            st.frames.drop_last().push(PFrame::Dict(st.frames.last()->Dict_0, Some(s))),
            st.root,
        )
    } else {
        deliver(st, Val::Str(s))
    }
}

/// Closes the innermost container and hands it on.
pub open spec fn close(st: PState) -> PState {
    let rest = PState { frames: st.frames.drop_last(), ..st };
    match st.frames.last() {
        PFrame::List(items) => deliver(rest, Val::List(items)),
        PFrame::Dict(es, _) => deliver(rest, Val::Dict(es)),
    }
}

/// The integer that a finished integer literal denotes.
pub open spec fn int_value(st: PState) -> int {
    if st.neg {
        -(st.mag as int)
    } else {
        st.mag as int
    }
}

pub open spec fn int_fits(st: PState) -> bool {
    &&& !st.over
    &&& !(st.neg && st.count == 1)
    &&& if st.neg {
        st.mag <= 0x8000_0000_0000_0000
    } else {
        st.mag <= 0x7fff_ffff_ffff_ffff
    }
}

/// The state after one more byte, or why the byte is rejected.
pub open spec fn step(st: PState, c: u8) -> Result<PState, Fault> {
    match st.mode {
        Mode::Done => Err(Fault::Syntax(SyntaxReason::TrailingData)),
        Mode::Value => {
            if c == 100 {
                Ok(
                    PState {
                        mode: Mode::Key,
                        frames: st.frames.push(PFrame::Dict(Seq::empty(), None)),
                        ..st
                    },
                )
            } else if c == 108 {
                Ok(PState { mode: Mode::Value, frames: st.frames.push(PFrame::List(Seq::empty())), ..st })
            } else if c == 105 {
                Ok(PState { mode: Mode::IntBody, count: 0, neg: false, mag: 0, over: false, ..st })
            } else if is_digit(c) {
                Ok(start_len(st, false, c))
            } else if c == 101 && st.frames.len() > 0 && st.frames.last() is List {
                Ok(close(st))
            } else {
                Err(Fault::Syntax(SyntaxReason::UnexpectedToken))
            }
        },
        Mode::Key => {
            if c == 101 && st.frames.len() > 0 {
                Ok(close(st))
            } else if is_digit(c) {
                Ok(start_len(st, true, c))
            } else {
                Err(Fault::Syntax(SyntaxReason::NonStringKey))
            }
        },
        Mode::IntBody => {
            if is_digit(c) {
                Ok(accumulate(st, c))
            } else if c == 45 {
                if st.count == 0 {
                    Ok(PState { count: 1, neg: true, ..st })
                } else {
                    Err(Fault::Syntax(SyntaxReason::UnexpectedMinus))
                }
            } else if st.count == 0 {
                Err(Fault::Syntax(SyntaxReason::EmptyInteger))
            } else if st.count > 32 {
                Err(Fault::BigInt)
            } else if c != 101 {
                Err(Fault::Syntax(SyntaxReason::ExpectedEnd))
            } else if !int_fits(st) {
                Err(Fault::Syntax(SyntaxReason::InvalidInteger))
            } else {
                Ok(deliver(st, Val::Int(int_value(st))))
            }
        },
        Mode::Len => {
            if is_digit(c) {
                Ok(accumulate(st, c))
            } else if st.count > 32 {
                Err(Fault::BigInt)
            } else if c != 58 {
                Err(Fault::Syntax(SyntaxReason::ExpectedColon))
            } else if st.over {
                Err(Fault::Syntax(SyntaxReason::InvalidInteger))
            } else if st.mag == 0 {
                Ok(deliver_str(st, Seq::empty()))
            } else {
                Ok(PState { mode: Mode::Body, remaining: st.mag, buf: Seq::empty(), ..st })
            }
        },
        Mode::Body => {
            if st.remaining <= 1 {
                Ok(deliver_str(PState { buf: Seq::empty(), ..st }, st.buf.push(c)))
            } else {
                Ok(PState { remaining: (st.remaining - 1) as nat, buf: st.buf.push(c), ..st })
            }
        },
    }
}

/// The decoder's state after reading `bytes` from state `st`, or the
/// offset in `bytes` and the cause of the first rejected byte.
pub open spec fn run_from(st: PState, bytes: Seq<u8>) -> Result<PState, (nat, Fault)>
    decreases bytes.len(),
{
    if bytes.len() == 0 {
        Ok(st)
    } else {
        match run_from(st, bytes.drop_last()) {
            Err(e) => Err(e),
            Ok(s) => match step(s, bytes.last()) {
                Ok(t) => Ok(t),
                Err(f) => Err(((bytes.len() - 1) as nat, f)),
            },
        }
    }
}

/// The decoder's state after reading `bytes` from the start.
pub open spec fn run(bytes: Seq<u8>) -> Result<PState, (nat, Fault)> {
    run_from(init_state(), bytes)
}

/// Model of a decoding error.
pub enum DecodeErr {
    Empty,
    Syntax(nat, SyntaxReason),
    Eof,
    BigInt,
}

/// What decoding a whole input yields.
pub open spec fn decode(bytes: Seq<u8>) -> Result<Val, DecodeErr> {
    if bytes.len() == 0 {
        Err(DecodeErr::Empty)
    } else {
        match run(bytes) {
            Err((p, Fault::Syntax(r))) => Err(DecodeErr::Syntax(p, r)),
            Err((_, Fault::BigInt)) => Err(DecodeErr::BigInt),
            Ok(st) => if st.mode == Mode::Done && st.root is Some {
                Ok(st.root->0)
            } else {
                Err(DecodeErr::Eof)
            },
        }
    }
}

impl Error {
    pub open spec fn model(self) -> DecodeErr {
        match self {
            Error::Empty => DecodeErr::Empty,
            Error::Syntax(p, r) => DecodeErr::Syntax(p as nat, r),
            Error::Eof => DecodeErr::Eof,
            Error::BigInt => DecodeErr::BigInt,
        }
    }
}

/// The error reported for a byte rejected at offset `p`.
pub open spec fn error_at(p: nat, f: Fault) -> Error {
    match f {
        Fault::Syntax(r) => Error::Syntax(p as usize, r),
        Fault::BigInt => Error::BigInt,
    }
}

fn error_at_exec(p: usize, f: Fault) -> (r: Error)
    ensures
        r == error_at(p as nat, f),
{
    match f {
        Fault::Syntax(r) => Error::Syntax(p, r),
        Fault::BigInt => Error::BigInt,
    }
}

/// Once a byte is rejected, what follows does not matter.
pub proof fn lemma_run_err_extends(a: Seq<u8>, b: Seq<u8>)
    requires
        run(a) is Err,
    ensures
        run(a + b) == run(a),
    decreases b.len(),
{
    if b.len() == 0 {
        assert(a + b =~= a);
    } else {
        lemma_run_err_extends(a, b.drop_last());
        assert((a + b).drop_last() =~= a + b.drop_last());
    }
}

pub proof fn lemma_run_err_pos(bytes: Seq<u8>)
    ensures
        run(bytes) is Err ==> run(bytes)->Err_0.0 < bytes.len(),
    decreases bytes.len(),
{
    if bytes.len() > 0 {
        lemma_run_err_pos(bytes.drop_last());
    }
}

/// Decodes a whole in-memory input, handing it to a `Decoder` in chunks of
/// `CHUNK_SIZE` bytes.
pub fn load_bytes(input: &[u8]) -> (r: Result<Value, Error>)
    ensures
        decode_matches(r, decode(input@)),
{
    let mut d = Decoder::new();
    let mut i: usize = 0;
    while i < input.len()
        invariant
            i <= input@.len(),
            d.inv(),
            d.seen() == input@.subrange(0, i as int),
        decreases input@.len() - i,
    {
        let j: usize = if input.len() - i > CHUNK_SIZE {
            i + CHUNK_SIZE
        } else {
            input.len()
        };
        let chunk = vstd::slice::slice_subrange(input, i, j);
        assert(input@.subrange(0, i as int) + chunk@ =~= input@.subrange(0, j as int));
        match d.feed(chunk) {
            Ok(d2) => {
                d = d2;
            },
            Err(e) => {
                proof {
                    let a = input@.subrange(0, j as int);
                    lemma_run_err_extends(a, input@.subrange(j as int, input@.len() as int));
                    assert(a + input@.subrange(j as int, input@.len() as int) =~= input@);
                    lemma_run_err_pos(input@);
                }
                return Err(e);
            },
        }
        i = j;
    }
    assert(input@.subrange(0, input@.len() as int) =~= input@);
    d.finish()
}

/// Decodes the bytes of a string.
pub fn load_str(s: &str) -> (r: Result<Value, Error>)
    ensures
        decode_matches(r, decode(s.spec_bytes())),
{
    load_bytes(s.as_bytes())
}

/// Does the outcome of a decode call agree with the model?
pub open spec fn decode_matches(r: Result<Value, Error>, m: Result<Val, DecodeErr>) -> bool {
    match (r, m) {
        (Ok(v), Ok(w)) => v@ == w,
        (Err(e), Err(f)) => e.model() == f,
        _ => false,
    }
}

/// An open container held by the decoder until its closing `e`.
pub enum Frame {
    List(Vec<Value>),
    Dict(Vec<(Vec<u8>, Value)>, Option<Vec<u8>>),
}

impl View for Frame {
    type V = PFrame;

    open spec fn view(&self) -> PFrame {
        match self {
            Frame::List(items) => PFrame::List(items_view(items@)),
            Frame::Dict(es, None) => PFrame::Dict(entries_view(es@), None),
            Frame::Dict(es, Some(k)) => PFrame::Dict(entries_view(es@), Some(k@)),
        }
    }
}

pub open spec fn frames_view(s: Seq<Frame>) -> Seq<PFrame> {
    s.map_values(|f: Frame| f@)
}

/// A streaming Bencode decoder. Input is handed to it in chunks of any size;
/// it keeps its progress, including open containers and partial literals,
/// between chunks, and never recurses.
pub struct Decoder {
    mode: Mode,
    frames: Vec<Frame>,
    root: Option<Value>,
    count: usize,
    neg: bool,
    mag: u64,
    over: bool,
    is_key: bool,
    remaining: u64,
    buf: Vec<u8>,
    pos: usize,
    seen: Ghost<Seq<u8>>,
}

impl View for Decoder {
    type V = PState;

    closed spec fn view(&self) -> PState {
        PState {
            mode: self.mode,
            frames: frames_view(self.frames@),
            root: match self.root {
                Some(v) => Some(v@),
                None => None,
            },
            count: self.count as nat,
            neg: self.neg,
            mag: self.mag as nat,
            over: self.over,
            is_key: self.is_key,
            remaining: self.remaining as nat,
            buf: self.buf@,
        }
    }
}

proof fn lemma_push_items(s: Seq<Value>, v: Value)
    ensures
        items_view(s.push(v)) == items_view(s).push(v@),
{
    assert(s.push(v).subrange(0, s.len() as int) =~= s);
}

impl Decoder {
    /// The bytes read so far.
    pub closed spec fn seen(&self) -> Seq<u8> {
        self.seen@
    }

    /// The state reached by reading `seen()` is the one this decoder holds.
    pub closed spec fn inv(&self) -> bool {
        &&& self.pos == self.seen@.len()
        &&& run(self.seen@) == Ok::<PState, (nat, Fault)>(self@)
    }

    /// A decoder that has read nothing.
    pub fn new() -> (r: Decoder)
        ensures
            r.inv(),
            r.seen() == Seq::<u8>::empty(),
    {
        let r = Decoder {
            mode: Mode::Value,
            frames: Vec::new(),
            root: None,
            count: 0,
            neg: false,
            mag: 0,
            over: false,
            is_key: false,
            remaining: 0,
            buf: Vec::new(),
            pos: 0,
            seen: Ghost(Seq::empty()),
        };
        assert(frames_view(r.frames@) =~= Seq::<PFrame>::empty());
        assert(r.buf@ =~= Seq::<u8>::empty());
        r
    }

    fn accumulate(&mut self, c: u8)
        requires
            is_digit(c),
        ensures
            final(self)@ == accumulate(old(self)@, c),
            final(self).seen == old(self).seen,
            final(self).pos == old(self).pos,
    {
        let d: u64 = (c - 48) as u64;
        let m0 = self.mag;
        if self.count < 33 {
            self.count = self.count + 1;
        } else {
            self.count = 33;
        }
        if self.over || self.mag > (u64::MAX - d) / 10 {
            self.over = true;
            proof {
                if !old(self).over {
                    assert(m0 * 10 + d > u64::MAX) by (nonlinear_arith)
                        requires
                            m0 > (u64::MAX - d) / 10,
                            d <= 9;
                }
            }
        } else {
            assert(self.mag * 10 + d <= u64::MAX) by (nonlinear_arith)
                requires
                    self.mag <= (u64::MAX - d) / 10,
                    d <= 9;
            self.mag = self.mag * 10 + d;
        }
    }

    fn reset_literal(&mut self)
        ensures
            final(self)@ == settle(old(self)@.mode, old(self)@.frames, old(self)@.root),
            final(self).seen == old(self).seen,
            final(self).pos == old(self).pos,
    {
        self.count = 0;
        self.neg = false;
        self.mag = 0;
        self.over = false;
        self.is_key = false;
        self.remaining = 0;
        self.buf = Vec::new();
        assert(self.buf@ =~= Seq::<u8>::empty());
    }

    fn deliver(&mut self, v: Value)
        ensures
            final(self)@ == deliver(old(self)@, v@),
            final(self).seen == old(self).seen,
            final(self).pos == old(self).pos,
    {
        self.reset_literal();
        let ghost fv = frames_view(self.frames@);
        match self.frames.pop() {
            None => {
                self.root = Some(v);
                self.mode = Mode::Done;
            },
            Some(f) => {
                assert(frames_view(self.frames@) =~= fv.drop_last());
                match f {
                    Frame::List(mut items) => {
                        proof {
                            lemma_push_items(items@, v);
                        }
                        items.push(v);
                        self.frames.push(Frame::List(items));
                        self.mode = Mode::Value;
                    },
                    Frame::Dict(mut es, Some(k)) => {
                        entries_insert(&mut es, k, v);
                        self.frames.push(Frame::Dict(es, None));
                        self.mode = Mode::Key;
                    },
                    Frame::Dict(es, None) => {
                        self.frames.push(Frame::Dict(es, None));
                        self.mode = Mode::Key;
                    },
                }
                assert(frames_view(self.frames@) =~= deliver(old(self)@, v@).frames);
            },
        }
    }

    fn deliver_str(&mut self, s: Vec<u8>)
        ensures
            final(self)@ == deliver_str(old(self)@, s@),
            final(self).seen == old(self).seen,
            final(self).pos == old(self).pos,
    {
        if self.is_key && self.frames.len() > 0 {
            let ghost fv = frames_view(self.frames@);
            match self.frames.pop() {
                Some(Frame::Dict(es, _)) => {
                    assert(frames_view(self.frames@) =~= fv.drop_last());
                    self.reset_literal();
                    self.frames.push(Frame::Dict(es, Some(s)));
                    self.mode = Mode::Value;
                    assert(frames_view(self.frames@) =~= deliver_str(old(self)@, s@).frames);
                    return;
                },
                Some(f) => {
                    self.frames.push(f);
                    assert(self.frames@ =~= old(self).frames@);
                },
                None => {},
            }
        }
        self.deliver(Value::Str(s));
    }

    fn close(&mut self)
        requires
            old(self).frames@.len() > 0,
        ensures
            final(self)@ == close(old(self)@),
            final(self).seen == old(self).seen,
            final(self).pos == old(self).pos,
    {
        let ghost fv = frames_view(self.frames@);
        match self.frames.pop() {
            Some(Frame::List(items)) => {
                assert(frames_view(self.frames@) =~= fv.drop_last());
                self.deliver(Value::List(items));
            },
            Some(Frame::Dict(es, _)) => {
                assert(frames_view(self.frames@) =~= fv.drop_last());
                self.deliver(Value::Dict(es));
            },
            None => {},
        }
    }

    fn top_is_list(&self) -> (r: bool)
        ensures
            r == (self@.frames.len() > 0 && self@.frames.last() is List),
    {
        let n = self.frames.len();
        if n == 0 {
            false
        } else {
            match &self.frames[n - 1] {
                Frame::List(_) => true,
                Frame::Dict(..) => false,
            }
        }
    }

    fn int_fits(&self) -> (r: bool)
        ensures
            r == int_fits(self@),
    {
        !self.over && !(self.neg && self.count == 1) && if self.neg {
            self.mag <= 0x8000_0000_0000_0000
        } else {
            self.mag <= 0x7fff_ffff_ffff_ffff
        }
    }

    fn int_value(&self) -> (r: i64)
        requires
            int_fits(self@),
        ensures
            r as int == int_value(self@),
    {
        if self.neg {
            if self.mag == 0x8000_0000_0000_0000 {
                i64::MIN
            } else {
                -(self.mag as i64)
            }
        } else {
            self.mag as i64
        }
    }

    /// Reads the next chunk of input. On a rejected byte the decoder is
    /// consumed and the error gives that byte's offset in the whole input.
    pub fn feed(self, chunk: &[u8]) -> (r: Result<Decoder, Error>)
        requires
            self.inv(),
            self.seen().len() + chunk@.len() <= usize::MAX,
        ensures
            match run(self.seen() + chunk@) {
                Ok(_) => r is Ok && r->Ok_0.inv() && r->Ok_0.seen() == self.seen() + chunk@,
                Err((p, f)) => r == Err::<Decoder, Error>(error_at(p, f)),
            },
    {
        let mut d = self;
        let ghost s0 = d.seen@;
        let mut i: usize = 0;
        while i < chunk.len()
            invariant
                i <= chunk@.len(),
                s0 == self.seen(),
                s0.len() + chunk@.len() <= usize::MAX,
                d.seen@ == s0 + chunk@.subrange(0, i as int),
                d.inv(),
            decreases chunk@.len() - i,
        {
            let c = chunk[i];
            let ghost before = d.seen@;
            let ghost st0 = d@;
            let res = d.step(c);
            proof {
                let after = before.push(c);
                assert(after.drop_last() =~= before);
                assert(after =~= s0 + chunk@.subrange(0, i + 1));
            }
            match res {
                Err(f) => {
                    let p = d.pos;
                    proof {
                        let after = before.push(c);
                        assert(after.drop_last() =~= before);
                        assert(run(after) == Err::<PState, (nat, Fault)>((before.len(), f)));
                        lemma_run_err_extends(after, chunk@.subrange(i + 1, chunk@.len() as int));
                        assert(after + chunk@.subrange(i + 1, chunk@.len() as int) =~= s0 + chunk@);
                    }
                    return Err(error_at_exec(p, f));
                },
                Ok(()) => {
                    d.seen = Ghost(before.push(c));
                    d.pos = d.pos + 1;
                },
            }
            i += 1;
        }
        assert(chunk@.subrange(0, chunk@.len() as int) =~= chunk@);
        Ok(d)
    }

    /// Ends the input and yields the root value.
    pub fn finish(self) -> (r: Result<Value, Error>)
        requires
            self.inv(),
        ensures
            decode_matches(r, decode(self.seen())),
    {
        if self.pos == 0 {
            return Err(Error::Empty);
        }
        match self.mode {
            Mode::Done => match self.root {
                Some(v) => Ok(v),
                None => Err(Error::Eof),
            },
            _ => Err(Error::Eof),
        }
    }

    /// Reads one byte.
    fn step(&mut self, c: u8) -> (r: Result<(), Fault>)
        ensures
            final(self).seen == old(self).seen,
            final(self).pos == old(self).pos,
            match step(old(self)@, c) {
                Ok(s) => r is Ok && final(self)@ == s,
                Err(f) => r == Err::<(), Fault>(f),
            },
    {
        match self.mode {
            Mode::Done => Err(Fault::Syntax(SyntaxReason::TrailingData)),
            Mode::Value => {
                if c == 100 {
                    self.frames.push(Frame::Dict(Vec::new(), None));
                    self.mode = Mode::Key;
                    assert(frames_view(self.frames@) =~= step(old(self)@, c)->Ok_0.frames) by {
                        assert(entries_view(Seq::<(Vec<u8>, Value)>::empty()) =~= Seq::empty());
                    }
                    Ok(())
                } else if c == 108 {
                    self.frames.push(Frame::List(Vec::new()));
                    self.mode = Mode::Value;
                    assert(frames_view(self.frames@) =~= step(old(self)@, c)->Ok_0.frames) by {
                        assert(items_view(Seq::<Value>::empty()) =~= Seq::empty());
                    }
                    Ok(())
                } else if c == 105 {
                    self.mode = Mode::IntBody;
                    self.count = 0;
                    self.neg = false;
                    self.mag = 0;
                    self.over = false;
                    Ok(())
                } else if 48 <= c && c <= 57 {
                    self.mode = Mode::Len;
                    self.is_key = false;
                    self.count = 0;
                    self.neg = false;
                    self.mag = 0;
                    self.over = false;
                    self.accumulate(c);
                    Ok(())
                } else if c == 101 && self.top_is_list() {
                    self.close();
                    Ok(())
                } else {
                    Err(Fault::Syntax(SyntaxReason::UnexpectedToken))
                }
            },
            Mode::Key => {
                if c == 101 && self.frames.len() > 0 {
                    self.close();
                    Ok(())
                } else if 48 <= c && c <= 57 {
                    self.mode = Mode::Len;
                    self.is_key = true;
                    self.count = 0;
                    self.neg = false;
                    self.mag = 0;
                    self.over = false;
                    self.accumulate(c);
                    Ok(())
                } else {
                    Err(Fault::Syntax(SyntaxReason::NonStringKey))
                }
            },
            Mode::IntBody => {
                if 48 <= c && c <= 57 {
                    self.accumulate(c);
                    Ok(())
                } else if c == 45 {
                    if self.count == 0 {
                        self.count = 1;
                        self.neg = true;
                        Ok(())
                    } else {
                        Err(Fault::Syntax(SyntaxReason::UnexpectedMinus))
                    }
                } else if self.count == 0 {
                    Err(Fault::Syntax(SyntaxReason::EmptyInteger))
                } else if self.count > MAX_INT_BUF {
                    Err(Fault::BigInt)
                } else if c != 101 {
                    Err(Fault::Syntax(SyntaxReason::ExpectedEnd))
                } else if !self.int_fits() {
                    Err(Fault::Syntax(SyntaxReason::InvalidInteger))
                } else {
                    let n = self.int_value();
                    self.deliver(Value::Int(n));
                    Ok(())
                }
            },
            Mode::Len => {
                if 48 <= c && c <= 57 {
                    self.accumulate(c);
                    Ok(())
                } else if self.count > MAX_INT_BUF {
                    Err(Fault::BigInt)
                } else if c != 58 {
                    Err(Fault::Syntax(SyntaxReason::ExpectedColon))
                } else if self.over {
                    Err(Fault::Syntax(SyntaxReason::InvalidInteger))
                } else if self.mag == 0 {
                    let e: Vec<u8> = Vec::new();
                    assert(e@ =~= Seq::<u8>::empty());
                    self.deliver_str(e);
                    Ok(())
                } else {
                    self.mode = Mode::Body;
                    self.remaining = self.mag;
                    self.buf = Vec::new();
                    assert(self.buf@ =~= Seq::<u8>::empty());
                    Ok(())
                }
            },
            Mode::Body => {
                if self.remaining <= 1 {
                    let mut s: Vec<u8> = Vec::new();
                    std::mem::swap(&mut s, &mut self.buf);
                    assert(self.buf@ =~= Seq::<u8>::empty());
                    s.push(c);
                    self.deliver_str(s);
                    Ok(())
                } else {
                    self.remaining = self.remaining - 1;
                    self.buf.push(c);
                    Ok(())
                }
            },
        }
    }
}

} // verus!
