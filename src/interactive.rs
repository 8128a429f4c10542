use vstd::prelude::*;
use vstd::string::{StrSliceExecFns, StringExecFns, StringSliceAdditionalSpecFns};
use crate::edit::Accessor;
use crate::selector::{digits_value, is_digit_char};

verus! {

/// Errors of the editor session.
#[derive(Debug)]
pub enum Error {
    /// Reading or writing a file failed; the text describes why.
    Io(String),
    /// The file is not valid Bencode; the text describes why.
    InvalidFile(String),
}

/// Errors of one editor command.
#[derive(Debug)]
pub enum CmdError {
    UnknownCommand(String),
    Command(String),
    /// An argument holds a backslash before this character, at this
    /// zero-based character position.
    ArgUnknownEscape(usize, char),
    ArgTrailingEscape,
    /// A quote is not closed.
    ArgEOL,
    ArgCount(usize),
    ArgCountMin(usize),
    ArgCountMax(usize),
}

/// Model of an argument-splitting error.
pub enum ArgErr {
    UnknownEscape(nat, char),
    TrailingEscape,
    Eol,
}

/// State of argument splitting after some characters: finished arguments,
/// the current one, whether a backslash or a quote is open, and where the
/// pending run of plain characters starts.
pub struct ArgState {
    pub done: Seq<Seq<char>>,
    pub cur: Seq<char>,
    pub escaped: bool,
    pub quoted: bool,
    pub left: int,
}

/// Reads character `i` of `s`.
pub open spec fn arg_step(st: ArgState, s: Seq<char>, i: int) -> Result<ArgState, ArgErr> {
    let c = s[i];
    if c == ' ' && !st.quoted {
        Ok(
            ArgState {
                done: st.done.push(st.cur + s.subrange(st.left, i)),
                cur: Seq::empty(),
                left: i + 1,
                ..st
            },
        )
    } else if c == '"' {
        if st.escaped {
            Ok(ArgState { escaped: false, ..st })
        } else {
            Ok(
                ArgState {
                    cur: st.cur + s.subrange(st.left, i),
                    quoted: !st.quoted,
                    left: i + 1,
                    ..st
                },
            )
        }
    } else if c == '\\' {
        if st.escaped {
            Ok(ArgState { escaped: false, ..st })
        } else {
            Ok(ArgState { cur: st.cur + s.subrange(st.left, i), escaped: true, left: i + 1, ..st })
        }
    } else if st.escaped {
        if c == 'n' {
            Ok(ArgState { cur: st.cur.push('\n'), left: i + 1, escaped: false, ..st })
        } else {
            Err(ArgErr::UnknownEscape(i as nat, c))
        }
    } else {
        Ok(st)
    }
}

/// The state after the first `n` characters.
pub open spec fn arg_run(s: Seq<char>, n: int) -> Result<ArgState, ArgErr>
    decreases n,
{
    if n <= 0 {
        Ok(ArgState { done: Seq::empty(), cur: Seq::empty(), escaped: false, quoted: false, left: 0 })
    } else {
        match arg_run(s, n - 1) {
            Err(e) => Err(e),
            Ok(st) => arg_step(st, s, n - 1),
        }
    }
}

/// The arguments of a command line: split at spaces outside double quotes;
/// a backslash keeps a following quote or backslash, and `\n` is a newline.
pub open spec fn split_args(s: Seq<char>) -> Result<Seq<Seq<char>>, ArgErr> {
    if s.len() == 0 {
        Ok(Seq::empty())
    } else {
        match arg_run(s, s.len() as int) {
            Err(e) => Err(e),
            Ok(st) => if st.quoted {
                Err(ArgErr::Eol)
            } else if st.escaped {
                Err(ArgErr::TrailingEscape)
            } else {
                Ok(st.done.push(st.cur + s.subrange(st.left, s.len() as int)))
            },
        }
    }
}

impl CmdError {
    pub open spec fn arg_model(&self) -> Option<ArgErr> {
        match self {
            CmdError::ArgUnknownEscape(i, c) => Some(ArgErr::UnknownEscape(*i as nat, *c)),
            CmdError::ArgTrailingEscape => Some(ArgErr::TrailingEscape),
            CmdError::ArgEOL => Some(ArgErr::Eol),
            _ => None,
        }
    }
}

pub open spec fn strings_view(v: Seq<String>) -> Seq<Seq<char>> {
    v.map_values(|x: String| x@)
}

pub proof fn lemma_arg_err_stays(s: Seq<char>, n: int, m: int)
    requires
        0 <= n <= m,
        arg_run(s, n) is Err,
    ensures
        arg_run(s, m) == arg_run(s, n),
    decreases m - n,
{
    if m > n {
        lemma_arg_err_stays(s, n, m - 1);
    }
}

/// Splits a command's argument text into arguments.
pub fn parse_args(buf: &str) -> (r: Result<Vec<String>, CmdError>)
    ensures
        match split_args(buf@) {
            Ok(a) => r is Ok && strings_view(r->Ok_0@) == a,
            Err(e) => r is Err && r->Err_0.arg_model() == Some(e),
        },
{
    let len = buf.unicode_len();
    let mut done: Vec<String> = Vec::new();
    if len == 0 {
        assert(strings_view(done@) =~= Seq::<Seq<char>>::empty());
        return Ok(done);
    }
    let mut cur = String::new();
    let mut escaped = false;
    let mut quoted = false;
    let mut left: usize = 0;
    let mut i: usize = 0;
    assert(strings_view(done@) =~= Seq::<Seq<char>>::empty());
    assert(cur@ =~= Seq::<char>::empty());
    while i < len
        invariant
            len == buf@.len(),
            i <= len,
            left <= i,
            arg_run(buf@, i as int) == Ok::<ArgState, ArgErr>(
                ArgState { done: strings_view(done@), cur: cur@, escaped, quoted, left: left as int },
            ),
        decreases len - i,
    {
        let c = buf.get_char(i);
        let ghost st = ArgState { done: strings_view(done@), cur: cur@, escaped, quoted, left: left as int };
        if c == ' ' && !quoted {
            cur.append(buf.substring_char(left, i));
            let ghost dv = done@;
            done.push(cur);
            cur = String::new();
            assert(strings_view(done@) =~= strings_view(dv).push(done@.last()@));
            left = i + 1;
        } else if c == '"' {
            if escaped {
                escaped = false;
            } else {
                cur.append(buf.substring_char(left, i));
                quoted = !quoted;
                left = i + 1;
            }
        } else if c == '\\' {
            if escaped {
                escaped = false;
            } else {
                cur.append(buf.substring_char(left, i));
                escaped = true;
                left = i + 1;
            }
        } else if escaped {
            if c == 'n' {
                cur.append("\n");
                proof {
                    reveal_strlit("\n");
                }
            } else {
                proof {
                    lemma_arg_err_stays(buf@, i + 1, len as int);
                }
                return Err(CmdError::ArgUnknownEscape(i, c));
            }
            left = i + 1;
            escaped = false;
        }
        proof {
            let next = arg_step(st, buf@, i as int)->Ok_0;
            assert(cur@ =~= next.cur);
            assert(strings_view(done@) =~= next.done);
        }
        i += 1;
    }
    if quoted {
        return Err(CmdError::ArgEOL);
    }
    if escaped {
        return Err(CmdError::ArgTrailingEscape);
    }
    cur.append(buf.substring_char(left, len));
    let ghost dv = done@;
    done.push(cur);
    assert(strings_view(done@) =~= strings_view(dv).push(done@.last()@));
    Ok(done)
}

/// The accessor that a command argument names: a list index when it is a
/// decimal number that fits in `usize`, else a dict key.
pub open spec fn accessor_of(s: Seq<char>, bytes: Seq<u8>) -> crate::edit::Acc {
    if s.len() > 0 && (forall|i: int| 0 <= i < s.len() ==> is_digit_char(#[trigger] s[i]))
        && digits_value(s) <= usize::MAX {
        crate::edit::Acc::Index(digits_value(s))
    } else {
        crate::edit::Acc::Key(bytes)
    }
}

/// The accessor that a command argument names: a list index when the
/// argument is a decimal number that fits in `usize`, else a dict key.
pub fn accessor_arg(arg: &str) -> (r: Accessor)
    ensures
        r@ == accessor_of(arg@, arg.spec_bytes()),
{
    let len = arg.unicode_len();
    let mut k: usize = 0;
    let mut value: usize = 0;
    let mut digits = true;
    let mut over = false;
    let ghost d = arg@;
    while k < len
        invariant
            len == d.len(),
            d == arg@,
            k <= len,
            digits == (forall|i: int| 0 <= i < k ==> is_digit_char(#[trigger] d[i])),
            digits ==> (over == (digits_value(d.subrange(0, k as int)) > usize::MAX)),
            digits && !over ==> value == digits_value(d.subrange(0, k as int)),
        decreases len - k,
    {
        let c = arg.get_char(k);
        let ghost pre = d.subrange(0, k as int);
        let ghost next = d.subrange(0, k + 1);
        assert(next.drop_last() =~= pre);
        if '0' <= c && c <= '9' {
            let x: usize = (c as u32 - '0' as u32) as usize;
            if digits && !over {
                if value > (usize::MAX - x) / 10 {
                    over = true;
                    assert(value * 10 + x > usize::MAX) by (nonlinear_arith)
                        requires
                            value > (usize::MAX - x) / 10,
                            x <= 9;
                } else {
                    assert(value * 10 + x <= usize::MAX) by (nonlinear_arith)
                        requires
                            value <= (usize::MAX - x) / 10,
                            x <= 9;
                    value = value * 10 + x;
                }
            } else if digits && over {
                assert(digits_value(pre) * 10 + x > usize::MAX) by (nonlinear_arith)
                    requires
                        digits_value(pre) > usize::MAX;
            }
        } else {
            digits = false;
        }
        k += 1;
    }
    assert(d.subrange(0, len as int) =~= d);
    if digits && !over && len > 0 {
        Accessor::Index(value)
    } else {
        Accessor::Key(vstd::slice::slice_to_vec(arg.as_bytes()))
    }
}

/// An editor command with its arguments.
#[derive(Debug)]
pub enum Command {
    /// Print the node at a selector.
    Show(String),
    /// Replace the node at a selector with a literal.
    Replace(String, String),
    /// Load the file again.
    Reload,
    /// Write the file back.
    Save,
    /// Write to another path.
    SaveAs(String),
    /// Empty the node at a selector.
    Clear(String),
    /// Remove the node at a selector.
    Remove(String),
    /// Insert a literal into the container at a selector, under a key or index.
    Insert(String, String, String),
    /// Append a literal to the list at a selector.
    Append(String, String),
    /// End the session.
    Quit,
}

pub enum CommandModel {
    Show(Seq<char>),
    Replace(Seq<char>, Seq<char>),
    Reload,
    Save,
    SaveAs(Seq<char>),
    Clear(Seq<char>),
    Remove(Seq<char>),
    Insert(Seq<char>, Seq<char>, Seq<char>),
    Append(Seq<char>, Seq<char>),
    Quit,
}

impl View for Command {
    type V = CommandModel;

    open spec fn view(&self) -> CommandModel {
        match self {
            Command::Show(a) => CommandModel::Show(a@),
            Command::Replace(a, b) => CommandModel::Replace(a@, b@),
            Command::Reload => CommandModel::Reload,
            Command::Save => CommandModel::Save,
            Command::SaveAs(a) => CommandModel::SaveAs(a@),
            Command::Clear(a) => CommandModel::Clear(a@),
            Command::Remove(a) => CommandModel::Remove(a@),
            Command::Insert(a, b, c) => CommandModel::Insert(a@, b@, c@),
            Command::Append(a, b) => CommandModel::Append(a@, b@),
            Command::Quit => CommandModel::Quit,
        }
    }
}

/// Model of a command error.
pub enum CmdErr {
    Arg(ArgErr),
    Count(nat),
    CountMax(nat),
    Unknown(Seq<char>),
}

impl CmdError {
    pub open spec fn model(&self) -> Option<CmdErr> {
        match self {
            CmdError::ArgUnknownEscape(i, c) => Some(CmdErr::Arg(ArgErr::UnknownEscape(*i as nat, *c))),
            CmdError::ArgTrailingEscape => Some(CmdErr::Arg(ArgErr::TrailingEscape)),
            CmdError::ArgEOL => Some(CmdErr::Arg(ArgErr::Eol)),
            CmdError::ArgCount(n) => Some(CmdErr::Count(*n as nat)),
            CmdError::ArgCountMax(n) => Some(CmdErr::CountMax(*n as nat)),
            CmdError::UnknownCommand(c) => Some(CmdErr::Unknown(c@)),
            _ => None,
        }
    }
}

/// The first argument, or the empty selector.
pub open spec fn first_or_empty(args: Seq<Seq<char>>) -> Seq<char> {
    if args.len() > 0 {
        args[0]
    } else {
        Seq::empty()
    }
}

/// The command that a name and its arguments denote, or why they do not.
pub open spec fn command_of(name: Seq<char>, args: Seq<Seq<char>>) -> Result<CommandModel, CmdErr> {
    let n = args.len();
    if name == "show"@ {
        if n > 1 { Err(CmdErr::CountMax(1)) } else { Ok(CommandModel::Show(first_or_empty(args))) }
    } else if name == "set"@ {
        if n != 2 { Err(CmdErr::Count(2)) } else { Ok(CommandModel::Replace(args[0], args[1])) }
    } else if name == "reload"@ {
        if n != 0 { Err(CmdErr::Count(0)) } else { Ok(CommandModel::Reload) }
    } else if name == "save"@ {
        Ok(CommandModel::Save)
    } else if name == "save-as"@ {
        if n != 1 { Err(CmdErr::Count(1)) } else { Ok(CommandModel::SaveAs(args[0])) }
    } else if name == "clear"@ {
        if n > 1 { Err(CmdErr::CountMax(1)) } else { Ok(CommandModel::Clear(first_or_empty(args))) }
    } else if name == "remove"@ {
        if n != 1 { Err(CmdErr::Count(1)) } else { Ok(CommandModel::Remove(args[0])) }
    } else if name == "insert"@ {
        if n != 3 { Err(CmdErr::Count(3)) } else { Ok(CommandModel::Insert(args[0], args[1], args[2])) }
    } else if name == "append"@ {
        if n != 2 { Err(CmdErr::Count(2)) } else { Ok(CommandModel::Append(args[0], args[1])) }
    } else if name == "quit"@ || name == "exit"@ || name == "q"@ {
        Ok(CommandModel::Quit)
    } else {
        Err(CmdErr::Unknown(name))
    }
}

/// The command that a command line denotes: its name, and its argument
/// text split as `parse_args` does.
pub open spec fn command_spec(name: Seq<char>, argbuf: Seq<char>) -> Result<CommandModel, CmdErr> {
    match split_args(argbuf) {
        Err(e) => Err(CmdErr::Arg(e)),
        Ok(args) => command_of(name, args),
    }
}

/// Character-wise equality of two strings.
fn same_text(a: &str, b: &str) -> (r: bool)
    ensures
        r == (a@ == b@),
{
    let n = a.unicode_len();
    if n != b.unicode_len() {
        return false;
    }
    let mut i: usize = 0;
    while i < n
        invariant
            n == a@.len(),
            n == b@.len(),
            i <= n,
            forall|j: int| 0 <= j < i ==> a@[j] == b@[j],
        decreases n - i,
    {
        if a.get_char(i) != b.get_char(i) {
            return false;
        }
        i += 1;
    }
    assert(a@ =~= b@);
    true
}

fn take_first(args: &mut Vec<String>) -> (r: String)
    ensures
        r@ == first_or_empty(strings_view(old(args)@)),
{
    if args.len() > 0 {
        args.remove(0)
    } else {
        String::new()
    }
}

/// Reads a command: `name` is the command word, already lower-cased, and
/// `argbuf` the rest of the line.
pub fn parse_command(name: &str, argbuf: &str) -> (r: Result<Command, CmdError>)
    ensures
        match command_spec(name@, argbuf@) {
            Ok(c) => r is Ok && r->Ok_0@ == c,
            Err(e) => r is Err && r->Err_0.model() == Some(e),
        },
{
    let mut args = match parse_args(argbuf) {
        Ok(a) => a,
        Err(e) => {
            return Err(e);
        },
    };
    let ghost av = strings_view(args@);
    let n = args.len();
    proof {
        assert(av.len() == n);
        assert(forall|j: int| 0 <= j < n ==> av[j] == (#[trigger] args@[j])@);
    }
    if same_text(name, "show") {
        if n > 1 {
            return Err(CmdError::ArgCountMax(1));
        }
        Ok(Command::Show(take_first(&mut args)))
    } else if same_text(name, "set") {
        if n != 2 {
            return Err(CmdError::ArgCount(2));
        }
        let b = args.remove(1);
        let a = args.remove(0);
        Ok(Command::Replace(a, b))
    } else if same_text(name, "reload") {
        if n != 0 {
            return Err(CmdError::ArgCount(0));
        }
        Ok(Command::Reload)
    } else if same_text(name, "save") {
        Ok(Command::Save)
    } else if same_text(name, "save-as") {
        if n != 1 {
            return Err(CmdError::ArgCount(1));
        }
        Ok(Command::SaveAs(args.remove(0)))
    } else if same_text(name, "clear") {
        if n > 1 {
            return Err(CmdError::ArgCountMax(1));
        }
        Ok(Command::Clear(take_first(&mut args)))
    } else if same_text(name, "remove") {
        if n != 1 {
            return Err(CmdError::ArgCount(1));
        }
        Ok(Command::Remove(args.remove(0)))
    } else if same_text(name, "insert") {
        if n != 3 {
            return Err(CmdError::ArgCount(3));
        }
        let c = args.remove(2);
        let b = args.remove(1);
        let a = args.remove(0);
        Ok(Command::Insert(a, b, c))
    } else if same_text(name, "append") {
        if n != 2 {
            return Err(CmdError::ArgCount(2));
        }
        let b = args.remove(1);
        let a = args.remove(0);
        Ok(Command::Append(a, b))
    } else if same_text(name, "quit") || same_text(name, "exit") || same_text(name, "q") {
        Ok(Command::Quit)
    } else {
        Err(CmdError::UnknownCommand(name.to_owned()))
    }
}

/// Position of the first space in `s`, or its length.
pub open spec fn first_space(s: Seq<char>, i: int) -> int
    decreases s.len() - i,
{
    if i < 0 || i >= s.len() || s[i] == ' ' {
        i
    } else {
        first_space(s, i + 1)
    }
}

/// Splits a command line at its first space into the command word and the
/// argument text after that space.
pub fn split_command(line: &str) -> (r: (String, String))
    ensures
        ({
            let i = first_space(line@, 0);
            &&& r.0@ == line@.subrange(0, i)
            &&& r.1@ == if i < line@.len() {
                line@.subrange(i + 1, line@.len() as int)
            } else {
                Seq::empty()
            }
        }),
{
    let n = line.unicode_len();
    let mut i: usize = 0;
    while i < n && line.get_char(i) != ' '
        invariant
            n == line@.len(),
            i <= n,
            first_space(line@, 0) == first_space(line@, i as int),
        decreases n - i,
    {
        i += 1;
    }
    let name = line.substring_char(0, i).to_owned();
    if i < n {
        (name, line.substring_char(i + 1, n).to_owned())
    } else {
        let rest = String::new();
        assert(rest@ =~= Seq::<char>::empty());
        (name, rest)
    }
}

/// What the session does before carrying out a command.
#[derive(PartialEq, Eq, Structural, Clone, Copy, Debug)]
pub enum Prelude {
    /// Carry it out.
    Run,
    /// Ask the user first; carry it out only on yes.
    Confirm,
    /// Do nothing: there is nothing to save.
    NothingToSave,
}

/// Before a command: reloading over unsaved changes and writing over an
/// existing file are confirmed first; saving without changes does nothing.
pub open spec fn prelude_of(c: CommandModel, changed: bool, target_exists: bool) -> Prelude {
    match c {
        CommandModel::Reload => if changed {
            Prelude::Confirm
        } else {
            Prelude::Run
        },
        CommandModel::Save => if changed {
            Prelude::Run
        } else {
            Prelude::NothingToSave
        },
        CommandModel::SaveAs(_) => if target_exists {
            Prelude::Confirm
        } else {
            Prelude::Run
        },
        _ => Prelude::Run,
    }
}

/// Whether the data holds unsaved changes after a command was carried out;
/// `replaced_differs` tells, for a replacement, whether the new value's
/// structural hash differs from the old one's.
pub open spec fn changed_after(c: CommandModel, changed: bool, replaced_differs: bool) -> bool {
    match c {
        CommandModel::Replace(_, _) => changed || replaced_differs,
        CommandModel::Clear(_) | CommandModel::Remove(_) | CommandModel::Insert(_, _, _)
        | CommandModel::Append(_, _) => true,
        CommandModel::Reload | CommandModel::Save | CommandModel::SaveAs(_) => false,
        CommandModel::Show(_) | CommandModel::Quit => changed,
    }
}

/// What to do before carrying out `c`. `target_exists` tells whether the
/// path of a `save-as` names an existing file.
pub fn prelude(c: &Command, changed: bool, target_exists: bool) -> (r: Prelude)
    ensures
        r == prelude_of(c@, changed, target_exists),
{
    match c {
        Command::Reload => if changed {
            Prelude::Confirm
        } else {
            Prelude::Run
        },
        Command::Save => if changed {
            Prelude::Run
        } else {
            Prelude::NothingToSave
        },
        Command::SaveAs(_) => if target_exists {
            Prelude::Confirm
        } else {
            Prelude::Run
        },
        _ => Prelude::Run,
    }
}

/// Whether unsaved changes remain after `c` was carried out.
pub fn after_command(c: &Command, changed: bool, replaced_differs: bool) -> (r: bool)
    ensures
        r == changed_after(c@, changed, replaced_differs),
{
    match c {
        Command::Replace(_, _) => changed || replaced_differs,
        Command::Clear(_) | Command::Remove(_) | Command::Insert(_, _, _) | Command::Append(_, _) => true,
        Command::Reload | Command::Save | Command::SaveAs(_) => false,
        Command::Show(_) | Command::Quit => changed,
    }
}

/// At the end of input, the user is asked whether to save exactly when
/// there are unsaved changes.
pub fn ask_save_on_exit(changed: bool) -> (r: bool)
    ensures
        r == changed,
{
    changed
}

} // verus!
