use bencedit::batch::batch;
use bencedit::decode::load_str;
use bencedit::display::{repr_bytes, ValueDisplay};
use bencedit::edit::{Accessor, UpdateError};
use bencedit::interactive::{
    accessor_arg, after_command, ask_save_on_exit, parse_args, parse_command, prelude, split_command,
    CmdError, Command, Prelude,
};
use bencedit::path::{Edit, EditError};
use bencedit::selector::SelectError;
use bencedit::traverse::{TraverseAction, Visitor, Walk};
use bencedit::value::Value;

fn dict(entries: Vec<(&str, Value)>) -> Value {
    let mut d = Value::new_dict();
    for (k, v) in entries {
        d.insert(Accessor::Key(k.as_bytes().to_vec()), v).unwrap();
    }
    d
}

#[test]
fn display_primitives() {
    assert_eq!(ValueDisplay::new(&Value::Int(-5), 2).fmt(), "-5");
    assert_eq!(ValueDisplay::new(&Value::Str("foo".into()), 2).fmt(), "\"foo\"");
    assert_eq!(ValueDisplay::new(&Value::Str(vec![0xff, 0x41]), 2).fmt(), "b\"\\xFFA\"");
}

#[test]
fn display_dict_and_list() {
    let d = dict(vec![("foo", Value::Str("x".into())), ("bar", Value::Int(1))]);
    assert_eq!(ValueDisplay::new(&d, 2).fmt(), "{\n  \"bar\": 1,\n  \"foo\": \"x\",\n}");
    let l = Value::List(vec![Value::Int(1), Value::Int(2), Value::List(vec![Value::Int(3)])]);
    assert_eq!(ValueDisplay::new(&l, 2).fmt(), "[1, 2, [3]]");
    let n = dict(vec![("a", dict(vec![("b", Value::Int(1))]))]);
    assert_eq!(n.to_display_string(), "{\n  \"a\": {\n    \"b\": 1,\n  },\n}");
    let e = dict(vec![("a", Value::new_dict()), ("b", Value::new_list())]);
    assert_eq!(ValueDisplay::new(&e, 4).fmt(), "{\n    \"a\": {},\n    \"b\": [],\n}");
}

#[test]
fn display_depth_limit() {
    let mut v = Value::List(vec![Value::Int(0)]);
    for _ in 0..7 {
        v = Value::List(vec![v]);
    }
    assert_eq!(v.to_display_string(), "[[[[[[[...]]]]]]]");
}

#[test]
fn display_step_limit() {
    let items: Vec<Value> = (0..3000).map(|i| Value::Int(i)).collect();
    let out = Value::List(items).to_display_string();
    assert!(out.ends_with("\n<truncating as output would be too big...>"));
    assert!(out.starts_with("[0, 1, 2, "));
    assert!(out.contains("1998, "));
    assert!(!out.contains("1999"));
}

#[test]
fn repr_bytes_truncates() {
    assert_eq!(repr_bytes(&[0xff, 0x41], 32), "b\"\\xFFA\"");
    assert_eq!(repr_bytes(&[0xff, 0x41], 1), "b\"\\xFF\"... (2 bytes)");
    assert_eq!(repr_bytes(&[0x00, 0x7f, 0x20], 8), "b\"\\x00\\x7F \"");
}

#[test]
fn set_reports_change() {
    let mut d = dict(vec![("a", Value::List(vec![Value::Int(1), Value::Int(2)]))]);
    assert!(matches!(d.set(".a[1]", Value::Int(5)), Ok(true)));
    assert_eq!(d.select(".a[1]").unwrap(), &Value::Int(5));
    assert!(matches!(d.set(".a[1]", Value::Int(5)), Ok(false)));
    assert!(matches!(d.set(".b", Value::Int(5)), Err(EditError::Select(SelectError::Key(_, _)))));
    assert_eq!(d.to_bencode(), b"d1:ali1ei5eee".to_vec());
}

#[test]
fn edits_at_paths() {
    let mut d = load_str("d1:ali1ei2ee1:bi7ee").unwrap();
    d.edit(".a", Edit::Push(Value::Int(3))).unwrap();
    assert_eq!(d.to_bencode(), b"d1:ali1ei2ei3ee1:bi7ee".to_vec());
    d.edit(".a", Edit::Insert(Accessor::Index(0), Value::Int(0))).unwrap();
    assert_eq!(d.to_bencode(), b"d1:ali0ei1ei2ei3ee1:bi7ee".to_vec());
    d.edit("", Edit::Insert(Accessor::Key(b"c".to_vec()), Value::Int(9))).unwrap();
    assert_eq!(d.to_bencode(), b"d1:ali0ei1ei2ei3ee1:bi7e1:ci9ee".to_vec());
    d.edit(".b", Edit::Clear).unwrap();
    assert_eq!(d.select(".b").unwrap(), &Value::Int(0));
    assert!(matches!(
        d.edit(".b", Edit::Push(Value::Int(1))),
        Err(EditError::Update(UpdateError::WrongKind))
    ));
    d.edit(".c", Edit::Replace(Value::Str("z".into()))).unwrap();
    assert_eq!(d.select(".c").unwrap(), &Value::Str("z".into()));
}

#[test]
fn remove_by_path() {
    let mut d = load_str("d1:ali1ei2ei3ee1:bi7ee").unwrap();
    d.remove_path(".a[1]").unwrap();
    assert_eq!(d.to_bencode(), b"d1:ali1ei3ee1:bi7ee".to_vec());
    assert!(matches!(d.remove_path(".a[0]"), Err(EditError::Update(UpdateError::OutOfBounds(0)))));
    d.remove_path(".b").unwrap();
    assert_eq!(d.to_bencode(), b"d1:ali1ei3eee".to_vec());
    assert!(matches!(d.remove_path(".zz"), Err(EditError::Select(SelectError::Key(_, _)))));
    assert!(matches!(d.remove_path(""), Err(EditError::Select(SelectError::End))));
}

#[test]
fn split_arguments() {
    let args = parse_args("a \"b c\" d\\n").unwrap();
    assert_eq!(args, vec!["a".to_string(), "b c".to_string(), "d\n".to_string()]);
    assert_eq!(parse_args("").unwrap(), Vec::<String>::new());
    assert!(matches!(parse_args("\"abc"), Err(CmdError::ArgEOL)));
    assert!(matches!(parse_args("ab\\"), Err(CmdError::ArgTrailingEscape)));
    assert!(matches!(parse_args("a\\x"), Err(CmdError::ArgUnknownEscape(2, 'x'))));
}

#[test]
fn accessor_arguments() {
    assert!(matches!(accessor_arg("12"), Accessor::Index(12)));
    match accessor_arg("ab") {
        Accessor::Key(k) => assert_eq!(k, b"ab".to_vec()),
        other => panic!("Got {:?}", other),
    }
    assert!(matches!(accessor_arg("99999999999999999999999"), Accessor::Key(_)));
}

#[test]
fn batch_leaves_files() {
    assert!(batch(&vec!["a.torrent".to_string()]).is_ok());
}

#[test]
fn value_accessors() {
    let d = load_str("d1:ai1e1:b3:xyz1:cle1:ddee").unwrap();
    assert!(d.is_dict());
    assert_eq!(d.to_map().unwrap().len(), 4);
    assert_eq!(d.select(".a").unwrap().to_i64(), Some(1));
    assert_eq!(d.select(".b").unwrap().to_bytes(), Some(&b"xyz"[..]));
    assert!(d.select(".c").unwrap().is_list());
    assert_eq!(d.select(".c").unwrap().to_vec().unwrap().len(), 0);
    assert!(!d.is_ref());
    assert_eq!(d.clone().unref(), d);
    assert_eq!(Value::value_type(&d), "dict");
}

struct Collector {
    events: Vec<String>,
    enter: bool,
}

impl Visitor for Collector {
    fn visit(
        &mut self,
        key: Option<&[u8]>,
        index: Option<usize>,
        _parent: &Value,
        value: Option<&Value>,
    ) -> TraverseAction {
        match value {
            None => {
                self.events.push("exit".to_string());
                TraverseAction::Continue
            },
            Some(v) => {
                let label = match (key, index) {
                    (Some(k), _) => String::from_utf8(k.to_vec()).unwrap(),
                    (_, Some(i)) => i.to_string(),
                    _ => "?".to_string(),
                };
                self.events.push(label);
                if v.is_container() && self.enter {
                    TraverseAction::Enter
                } else {
                    TraverseAction::Continue
                }
            },
        }
    }
}

#[test]
fn traverse_visits_in_order() {
    let v = load_str("d1:ali1ei2ee1:bi3ee").unwrap();
    let mut c = Collector { events: Vec::new(), enter: true };
    v.traverse(&mut c);
    assert_eq!(c.events, vec!["a", "0", "1", "exit", "b", "exit"]);
    let mut c = Collector { events: Vec::new(), enter: false };
    v.traverse(&mut c);
    assert_eq!(c.events, vec!["a", "b", "exit"]);
}

#[test]
fn decoder_sorts_unordered_keys() {
    let v = load_str("d3:zzzi1e3:aaai2ee").unwrap();
    assert_eq!(v.to_bencode(), b"d3:aaai2e3:zzzi1ee".to_vec());
    let d = load_str("d1:ai1e1:ai2ee").unwrap();
    assert_eq!(d.to_bencode(), b"d1:ai2ee".to_vec());
}

#[test]
fn command_words() {
    assert!(matches!(parse_command("show", ""), Ok(Command::Show(s)) if s.is_empty()));
    assert!(matches!(parse_command("show", ".a .b"), Err(CmdError::ArgCountMax(1))));
    match parse_command("set", ".a \"[1, 2]\"") {
        Ok(Command::Replace(sel, lit)) => {
            assert_eq!(sel, ".a");
            assert_eq!(lit, "[1, 2]");
        },
        other => panic!("Got {:?}", other),
    }
    assert!(matches!(parse_command("set", ".a"), Err(CmdError::ArgCount(2))));
    assert!(matches!(parse_command("reload", "x"), Err(CmdError::ArgCount(0))));
    assert!(matches!(parse_command("save", "ignored"), Ok(Command::Save)));
    assert!(matches!(parse_command("insert", ".a 0 1"), Ok(Command::Insert(_, _, _))));
    assert!(matches!(parse_command("append", ".a 1"), Ok(Command::Append(_, _))));
    assert!(matches!(parse_command("q", ""), Ok(Command::Quit)));
    assert!(matches!(parse_command("exit", ""), Ok(Command::Quit)));
    assert!(matches!(parse_command("frob", ""), Err(CmdError::UnknownCommand(n)) if n == "frob"));
    assert!(matches!(parse_command("frob", "\"x"), Err(CmdError::ArgEOL)));
}

#[test]
fn split_command_lines() {
    let (name, rest) = split_command("set .a \"x y\"");
    assert_eq!(name, "set");
    assert_eq!(rest, ".a \"x y\"");
    let (name, rest) = split_command("quit");
    assert_eq!(name, "quit");
    assert_eq!(rest, "");
}

#[test]
fn walk_cursor_steps() {
    let v = load_str("d1:ali1ee1:bi2ee").unwrap();
    let mut w = Walk::start(&v);
    let first = w.next_visit().unwrap();
    assert_eq!(first.key, Some(&b"a"[..]));
    assert_eq!(first.index, None);
    assert!(first.value.unwrap().is_list());
    w.advance(TraverseAction::Enter);
    let inner = w.next_visit().unwrap();
    assert_eq!(inner.index, Some(0));
    assert_eq!(inner.value, Some(&Value::Int(1)));
    w.advance(TraverseAction::Continue);
    let exit = w.next_visit().unwrap();
    assert!(exit.value.is_none());
    assert!(exit.parent.is_list());
    w.advance(TraverseAction::Continue);
    let second = w.next_visit().unwrap();
    assert_eq!(second.key, Some(&b"b"[..]));
    w.advance(TraverseAction::Stop);
    assert!(w.next_visit().is_none());
    let prim = Value::Int(3);
    assert!(Walk::start(&prim).next_visit().is_none());
}

#[test]
fn session_decisions() {
    assert_eq!(prelude(&Command::Reload, true, false), Prelude::Confirm);
    assert_eq!(prelude(&Command::Reload, false, false), Prelude::Run);
    assert_eq!(prelude(&Command::Save, false, false), Prelude::NothingToSave);
    assert_eq!(prelude(&Command::Save, true, false), Prelude::Run);
    assert_eq!(prelude(&Command::SaveAs("x".to_string()), false, true), Prelude::Confirm);
    assert_eq!(prelude(&Command::Clear(String::new()), false, false), Prelude::Run);
    let set = Command::Replace(".a".to_string(), "1".to_string());
    assert!(!after_command(&set, false, false));
    assert!(after_command(&set, false, true));
    assert!(after_command(&Command::Clear(String::new()), false, false));
    assert!(!after_command(&Command::Save, true, false));
    assert!(after_command(&Command::Show(String::new()), true, false));
    assert!(ask_save_on_exit(true));
    assert!(!ask_save_on_exit(false));
}

#[test]
fn short_strings_at_depth_are_eof() {
    assert_eq!(load_str("5:abc"), Err(bencedit::decode::Error::Eof));
    assert_eq!(load_str("l10:abc"), Err(bencedit::decode::Error::Eof));
    assert_eq!(load_str("d3:foo5:ab"), Err(bencedit::decode::Error::Eof));
    assert_eq!(load_str("d5:ab"), Err(bencedit::decode::Error::Eof));
}

#[test]
fn insert_then_select_by_text() {
    let mut d = dict(vec![("a", Value::Int(1))]);
    d.insert(Accessor::Key(b"key".to_vec()), Value::Int(9)).unwrap();
    assert_eq!(d.select(".key").unwrap(), &Value::Int(9));
    let mut l = Value::List(vec![Value::Int(0), Value::Int(1)]);
    l.insert(Accessor::Index(2), Value::Int(7)).unwrap();
    assert_eq!(l.select(&format!("[{}]", 2)).unwrap(), &Value::Int(7));
}

#[test]
fn clear_through_selector() {
    let mut d = load_str("d1:ad1:bi1eee").unwrap();
    d.edit(".a", Edit::Clear).unwrap();
    assert_eq!(d.select(".a").unwrap(), &Value::new_dict());
    let mut l = load_str("d1:ali1ei2eee").unwrap();
    l.edit(".a", Edit::Clear).unwrap();
    assert_eq!(l.select(".a").unwrap(), &Value::new_list());
}
