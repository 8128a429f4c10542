use bencedit::decode::{load_bytes, load_str, Error, SyntaxReason};
use bencedit::edit::{Accessor, UpdateError};
use bencedit::selector::{SelectError, SelectorSyntax};
use bencedit::value::Value;

const DICT_VAL_INT: &str = "d3:fooi0e3:bari1e3:bazi2ee";
const LIST_VAL_STR: &str = "l3:foo3:bar3:baze";
const LIST_VAL_INT: &str = "li0ei1ei2ee";
const LIST_NESTED: &str = "lli0ei1ei2eeli3ei4ei5eeli6ei7ei8eee";
const DICT_MIXED: &str = "d3:fooi0e3:bari1e3:bazi2e3:buzd3:boz3:bez\
5:abcde5:fghij5:fghijl6:klmnop6:qrstuvd4:wxyzi0eeee3:zyxli0ei1ei2eee";

fn dict(entries: Vec<(&str, Value)>) -> Value {
    let mut d = Value::new_dict();
    for (k, v) in entries {
        d.insert(Accessor::Key(k.as_bytes().to_vec()), v).unwrap();
    }
    d
}

fn check_value(source: &str, value: Value) {
    match load_str(source) {
        Ok(v) => assert_eq!(v, value),
        Err(e) => panic!("Got {:?}", e),
    }
}

fn mixed() -> (Value, Value, Value, Value) {
    let fghij_map = dict(vec![("wxyz", Value::Int(0))]);
    let fghij_list = Value::List(vec![
        Value::Str("klmnop".into()),
        Value::Str("qrstuv".into()),
        fghij_map.clone(),
    ]);
    let zyx_list = Value::List(vec![Value::Int(0), Value::Int(1), Value::Int(2)]);
    let buz_map = dict(vec![
        ("abcde", Value::Str("fghij".into())),
        ("boz", Value::Str("bez".into())),
        ("fghij", fghij_list.clone()),
    ]);
    let root = dict(vec![
        ("foo", Value::Int(0)),
        ("bar", Value::Int(1)),
        ("baz", Value::Int(2)),
        ("buz", buz_map.clone()),
        ("zyx", zyx_list),
    ]);
    (root, buz_map, fghij_list, fghij_map)
}

#[test]
fn load_primitive_int() {
    check_value("i123456e", Value::Int(123456));
}

#[test]
fn load_primitive_str() {
    check_value("6:foobar", Value::Str("foobar".into()));
}

#[test]
fn load_dict_val_int() {
    let map = dict(vec![("foo", Value::Int(0)), ("bar", Value::Int(1)), ("baz", Value::Int(2))]);
    check_value(DICT_VAL_INT, map);
}

#[test]
fn load_list_val_str() {
    let list = Value::List(vec![
        Value::Str("foo".into()),
        Value::Str("bar".into()),
        Value::Str("baz".into()),
    ]);
    check_value(LIST_VAL_STR, list);
}

#[test]
fn load_list_val_int() {
    let list = Value::List(vec![Value::Int(0), Value::Int(1), Value::Int(2)]);
    check_value(LIST_VAL_INT, list);
}

#[test]
fn load_list_nested() {
    let list_1 = Value::List(vec![Value::Int(0), Value::Int(1), Value::Int(2)]);
    let list_2 = Value::List(vec![Value::Int(3), Value::Int(4), Value::Int(5)]);
    let list_3 = Value::List(vec![Value::Int(6), Value::Int(7), Value::Int(8)]);
    let list = Value::List(vec![list_1, list_2, list_3]);
    check_value(LIST_NESTED, list);
}

#[test]
fn load_dict_mixed() {
    let (root, _, _, _) = mixed();
    check_value(DICT_MIXED, root);
}

#[test]
fn select_dict_simple() {
    let dict = dict(vec![("foo", Value::Int(0)), ("bar", Value::Int(1)), ("baz", Value::Int(2))]);
    assert_eq!(dict.select(".foo").unwrap(), &Value::Int(0));
    assert_eq!(dict.select(".bar").unwrap(), &Value::Int(1));
    assert_eq!(dict.select(".baz").unwrap(), &Value::Int(2));
}

#[test]
fn select_list_nested() {
    let list_1 = Value::List(vec![Value::Int(0), Value::Int(1), Value::Int(2)]);
    let list_2 = Value::List(vec![Value::Int(3), Value::Int(4), Value::Int(5)]);
    let list_3 = Value::List(vec![Value::Int(6), Value::Int(7), Value::Int(8)]);
    let list = Value::List(vec![list_1.clone(), list_2.clone(), list_3.clone()]);

    assert_eq!(list.select("[0]").unwrap(), &list_1);
    assert_eq!(list.select("[1]").unwrap(), &list_2);
    assert_eq!(list.select("[2]").unwrap(), &list_3);
    assert_eq!(list.select("[0][0]").unwrap(), &Value::Int(0));
    assert_eq!(list.select("[0][1]").unwrap(), &Value::Int(1));
    assert_eq!(list.select("[0][2]").unwrap(), &Value::Int(2));
    assert_eq!(list.select("[1][0]").unwrap(), &Value::Int(3));
    assert_eq!(list.select("[1][1]").unwrap(), &Value::Int(4));
    assert_eq!(list.select("[1][2]").unwrap(), &Value::Int(5));
    assert_eq!(list.select("[2][0]").unwrap(), &Value::Int(6));
    assert_eq!(list.select("[2][1]").unwrap(), &Value::Int(7));
    assert_eq!(list.select("[2][2]").unwrap(), &Value::Int(8));
}

#[test]
fn select_dict_mixed() {
    let (dict, buz_map, fghij_list, fghij_map) = mixed();

    assert_eq!(dict.select(".foo").unwrap(), &Value::Int(0));
    assert_eq!(dict.select(".bar").unwrap(), &Value::Int(1));
    assert_eq!(dict.select(".baz").unwrap(), &Value::Int(2));
    assert_eq!(dict.select(".buz").unwrap(), &buz_map);
    assert_eq!(dict.select(".buz.abcde").unwrap(), &Value::Str("fghij".into()));
    assert_eq!(dict.select(".buz.boz").unwrap(), &Value::Str("bez".into()));
    assert_eq!(dict.select(".buz.fghij").unwrap(), &fghij_list);
    assert_eq!(dict.select(".buz.fghij[0]").unwrap(), &Value::Str("klmnop".into()));
    assert_eq!(dict.select(".buz.fghij[1]").unwrap(), &Value::Str("qrstuv".into()));
    assert_eq!(dict.select(".buz.fghij[2]").unwrap(), &fghij_map);
    assert_eq!(dict.select(".buz.fghij[2].wxyz").unwrap(), &Value::Int(0));
}

#[test]
fn round_trip_mixed_fixture() {
    let v = load_str(DICT_MIXED).unwrap();
    let bytes = v.to_bencode();
    assert_eq!(load_bytes(&bytes).unwrap(), v);
}

#[test]
fn encode_sorts_dict_keys() {
    let d = dict(vec![("zyx", Value::Int(3)), ("abc", Value::Int(1)), ("foo", Value::Int(2))]);
    assert_eq!(d.to_bencode(), b"d3:abci1e3:fooi2e3:zyxi3ee".to_vec());
}

#[test]
fn equal_values_hash_equal() {
    let a = load_str(DICT_MIXED).unwrap();
    let (b, _, _, _) = mixed();
    assert_eq!(a.structural_hash(), b.structural_hash());
    let c = load_str(DICT_VAL_INT).unwrap();
    assert_ne!(a.structural_hash(), c.structural_hash());
}

#[test]
fn select_empty_is_identity() {
    let (d, _, _, _) = mixed();
    assert_eq!(d.select("").unwrap(), &d);
    let i = Value::Int(7);
    assert_eq!(i.select("").unwrap(), &Value::Int(7));
}

#[test]
fn insert_then_get() {
    let mut d = dict(vec![("a", Value::Int(1))]);
    d.insert(Accessor::Key(b"b".to_vec()), Value::Int(2)).unwrap();
    assert_eq!(d.get(&Accessor::Key(b"b".to_vec())).unwrap(), &Value::Int(2));
    let mut l = Value::List(vec![Value::Int(0), Value::Int(2)]);
    l.insert(Accessor::Index(1), Value::Int(1)).unwrap();
    assert_eq!(l.get(&Accessor::Index(1)).unwrap(), &Value::Int(1));
    assert_eq!(l, Value::List(vec![Value::Int(0), Value::Int(1), Value::Int(2)]));
}

#[test]
fn clear_round_trips_empty() {
    let mut d = load_str(DICT_MIXED).unwrap();
    d.clear();
    assert_eq!(d.to_bencode(), b"de".to_vec());
    assert_eq!(load_bytes(&d.to_bencode()).unwrap(), Value::new_dict());
    let mut l = load_str(LIST_NESTED).unwrap();
    l.clear();
    assert_eq!(l.to_bencode(), b"le".to_vec());
    assert_eq!(load_bytes(&l.to_bencode()).unwrap(), Value::new_list());
    let mut s = Value::Str("abc".into());
    s.clear();
    assert_eq!(s, Value::Str(Vec::new()));
    let mut i = Value::Int(5);
    i.clear();
    assert_eq!(i, Value::Int(0));
}

#[test]
fn empty_input_is_empty_error() {
    assert_eq!(load_bytes(b""), Err(Error::Empty));
}

#[test]
fn only_zero_int() {
    assert_eq!(load_str("i0e").unwrap(), Value::Int(0));
}

#[test]
fn zero_length_string() {
    assert_eq!(load_str("0:").unwrap(), Value::Str(Vec::new()));
}

#[test]
fn empty_containers() {
    assert_eq!(load_str("de").unwrap(), Value::new_dict());
    assert_eq!(load_str("le").unwrap(), Value::new_list());
}

#[test]
fn long_integer_is_oversize() {
    let digits = "1".repeat(33);
    assert_eq!(load_str(&format!("i{}e", digits)), Err(Error::BigInt));
    let digits = "1".repeat(32);
    assert!(matches!(load_str(&format!("i{}e", digits)), Err(Error::Syntax(_, SyntaxReason::InvalidInteger))));
}

#[test]
fn non_string_key_is_syntax_error() {
    assert_eq!(load_str("di0ei0ee"), Err(Error::Syntax(1, SyntaxReason::NonStringKey)));
}

#[test]
fn unterminated_container_is_eof() {
    assert_eq!(load_str("d3:fooi0e"), Err(Error::Eof));
}

#[test]
fn short_string_is_eof() {
    assert_eq!(load_str("10:abc"), Err(Error::Eof));
}

#[test]
fn negative_index_selector() {
    let l = load_str(LIST_VAL_INT).unwrap();
    match l.select("[-1]") {
        Err(SelectError::Syntax(ctx, pos, SelectorSyntax::UnexpectedMinus)) => {
            assert_eq!(ctx, "[");
            assert_eq!(pos, 1);
        },
        other => panic!("Got {:?}", other),
    }
}

#[test]
fn key_selector_on_list() {
    let l = load_str(LIST_VAL_INT).unwrap();
    match l.select(".foo") {
        Err(SelectError::Subscriptable(ctx)) => assert_eq!(ctx, "."),
        other => panic!("Got {:?}", other),
    }
}

#[test]
fn int_round_trip_bytes() {
    let v = load_str("i123456e").unwrap();
    assert_eq!(v, Value::Int(123456));
    assert_eq!(v.to_bencode(), b"i123456e".to_vec());
    assert_eq!(Value::Int(-42).to_bencode(), b"i-42e".to_vec());
    assert_eq!(load_str("i-42e").unwrap(), Value::Int(-42));
    assert_eq!(Value::Int(i64::MIN).to_bencode(), b"i-9223372036854775808e".to_vec());
    assert_eq!(load_str("i-9223372036854775808e").unwrap(), Value::Int(i64::MIN));
}

#[test]
fn string_round_trip_bytes() {
    let v = load_str("6:foobar").unwrap();
    assert_eq!(v, Value::Str("foobar".into()));
    assert_eq!(v.to_bencode(), b"6:foobar".to_vec());
}

#[test]
fn dict_round_trip_bytes() {
    let src = "d3:bari1e3:bazi2e3:fooi0ee";
    let v = load_str(src).unwrap();
    let built = dict(vec![("foo", Value::Int(0)), ("baz", Value::Int(2)), ("bar", Value::Int(1))]);
    assert_eq!(v, built);
    assert_eq!(v.to_bencode(), src.as_bytes().to_vec());
    assert_eq!(built.to_bencode(), src.as_bytes().to_vec());
}

#[test]
fn nested_list_select() {
    let src = "lli0ei1ei2eeli3ei4ei5eeli6ei7ei8eee";
    let v = load_str(src).unwrap();
    assert_eq!(v.to_bencode(), src.as_bytes().to_vec());
    assert_eq!(v.select("[1][2]").unwrap(), &Value::Int(5));
}

#[test]
fn insert_key_then_encode() {
    let mut v = load_str("d3:bari1e3:fooi0ee").unwrap();
    v.insert(Accessor::Key(b"baz".to_vec()), Value::Int(2)).unwrap();
    assert_eq!(v.to_bencode(), b"d3:bari1e3:bazi2e3:fooi0ee".to_vec());
}

#[test]
fn nested_fixture_select() {
    let v = load_str(DICT_MIXED).unwrap();
    assert_eq!(v.select(".buz.fghij[2].wxyz").unwrap(), &Value::Int(0));
}

#[test]
fn chunk_boundaries() {
    let big = "x".repeat(5000);
    let src = format!("l{}:{}i7ee", big.len(), big);
    let v = load_str(&src).unwrap();
    assert_eq!(v.select("[1]").unwrap(), &Value::Int(7));
    assert_eq!(v.to_bencode(), src.as_bytes().to_vec());
}

#[test]
fn update_errors() {
    let mut l = Value::List(vec![Value::Int(0)]);
    assert_eq!(l.insert(Accessor::Index(3), Value::Int(1)), Err(UpdateError::OutOfBounds(3)));
    assert_eq!(l.insert(Accessor::Key(b"a".to_vec()), Value::Int(1)), Err(UpdateError::WrongKind));
    let mut i = Value::Int(1);
    assert_eq!(i.push(Value::Int(1)), Err(UpdateError::WrongKind));
    let mut d = Value::new_dict();
    assert_eq!(d.remove(Accessor::Key(b"a".to_vec())), Ok(()));
}

#[test]
fn decode_error_variants() {
    assert_eq!(load_str("i12"), Err(Error::Eof));
    assert_eq!(load_str("e"), Err(Error::Syntax(0, SyntaxReason::UnexpectedToken)));
    assert_eq!(load_str("i1-e"), Err(Error::Syntax(2, SyntaxReason::UnexpectedMinus)));
    assert_eq!(load_str("ie"), Err(Error::Syntax(1, SyntaxReason::EmptyInteger)));
    assert_eq!(load_str("i1x"), Err(Error::Syntax(2, SyntaxReason::ExpectedEnd)));
    assert_eq!(load_str("3x"), Err(Error::Syntax(1, SyntaxReason::ExpectedColon)));
    assert_eq!(load_str("i1ei2e"), Err(Error::Syntax(3, SyntaxReason::TrailingData)));
    assert_eq!(load_str("i-e"), Err(Error::Syntax(2, SyntaxReason::InvalidInteger)));
}

#[test]
fn selector_error_variants() {
    let (d, _, _, _) = mixed();
    match d.select(".nope") {
        Err(SelectError::Key(ctx, key)) => {
            assert_eq!(ctx, ".nope");
            assert_eq!(key, "nope");
        },
        other => panic!("Got {:?}", other),
    }
    match d.select(".zyx[9]") {
        Err(SelectError::Index(ctx, 9)) => assert_eq!(ctx, ".zyx[9]"),
        other => panic!("Got {:?}", other),
    }
    assert!(matches!(d.select("[0]"), Err(SelectError::Indexable(_))));
    assert!(matches!(d.select(".foo.x"), Err(SelectError::Primitive(_))));
    assert!(matches!(Value::Int(1).select(".x"), Err(SelectError::Primitive(_))));
    assert!(matches!(d.select(".zyx[1"), Err(SelectError::End)));
    assert!(matches!(d.select(".a\\b"), Err(SelectError::Syntax(_, 1, SelectorSyntax::CannotEscape))));
    assert!(matches!(d.select(".a\\"), Err(SelectError::Syntax(_, 1, SelectorSyntax::TrailingEscape))));
    assert!(matches!(d.select(".zyx[a]"), Err(SelectError::Syntax(_, 5, SelectorSyntax::NotANumber))));
}

#[test]
fn escaped_key_selector() {
    let d = dict(vec![("a.b", Value::Int(1)), ("c[d", Value::Int(2)), ("e\\f", Value::Int(3))]);
    assert_eq!(d.select(".a\\.b").unwrap(), &Value::Int(1));
    assert_eq!(d.select(".c\\[d").unwrap(), &Value::Int(2));
    assert_eq!(d.select(".e\\\\f").unwrap(), &Value::Int(3));
}

#[test]
fn utf8_kinds() {
    let t = Value::Str("héllo".into());
    assert!(t.is_str());
    assert!(!t.is_bytes());
    assert_eq!(t.to_str(), Some("héllo"));
    assert_eq!(Value::value_type(&t), "str");
    let b = Value::Str(vec![0xff, 0x00]);
    assert!(b.is_bytes());
    assert_eq!(b.to_str(), None);
    assert_eq!(Value::value_type(&b), "bytes");
    assert_eq!(Value::value_type(&Value::Int(1)), "int");
}
