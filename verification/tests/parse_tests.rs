use fennec::parse::ParseError;
use fennec::token::Token;
use fennec::value::FennecType;

fn get<'a>(v: &'a FennecType, key: &str) -> &'a FennecType {
    v.get_key(key).expect("key should be present")
}

#[test]
fn test_spec_file() {
    let doc = "\
# A configuration exercising the whole grammar.
name = \"fennec\"
-verbose
version:Int = 3
ratio = -2.5
mask = 0xff
perms = 0o755
bits = 0b1011
empty = nil
sound = void
active = True
off = 0b
\"quoted key\" = 1
nested {
    inner = 1
    list [
        1
        2.5
        \"three\"
    ]
}
banner = \"\"\"
    hello
    \"\"\"
trimmed = -\"\"\"
    left
      margin
    \"\"\"
";
    let res = fennec::parse(doc);
    let v = res.expect("the document should parse");
    assert!(v.as_object().is_some());
    assert_eq!(get(&v, "name").as_string().unwrap(), "fennec");
    assert_eq!(get(&v, "verbose").as_bool(), Some(true));
    assert_eq!(get(&v, "version").as_int(), Some(3));
    assert_eq!(get(&v, "ratio").as_float().unwrap(), "-2.5");
    assert_eq!(get(&v, "mask").as_int(), Some(255));
    assert_eq!(get(&v, "perms").as_int(), Some(493));
    assert_eq!(get(&v, "bits").as_int(), Some(11));
    assert_eq!(get(&v, "empty").as_null(), Some(()));
    assert_eq!(get(&v, "sound").as_null(), Some(()));
    assert_eq!(get(&v, "active").as_bool(), Some(true));
    assert_eq!(get(&v, "off").as_bool(), Some(false));
    assert_eq!(get(&v, "quoted key").as_int(), Some(1));
    let nested = get(&v, "nested");
    assert_eq!(get(nested, "inner").as_int(), Some(1));
    let list = get(nested, "list");
    assert_eq!(list.as_array().unwrap().len(), 3);
    assert_eq!(list.get_index(0).unwrap().as_int(), Some(1));
    assert_eq!(list.get_index(1).unwrap().as_float().unwrap(), "2.5");
    assert_eq!(list.get_index(2).unwrap().as_string().unwrap(), "three");
    assert!(list.get_index(3).is_none());
    assert_eq!(get(&v, "banner").as_string().unwrap(), "hello");
    assert_eq!(get(&v, "trimmed").as_string().unwrap(), "left\nmargin");
}

#[test]
fn parse_string() {
    let v = fennec::parse("owo = 15 uwu = \"nya\" nya [false null]").unwrap();
    assert!(v.as_object().is_some());
    assert_eq!(get(&v, "owo").as_int(), Some(15));
    assert_eq!(get(&v, "uwu").as_string().unwrap(), "nya");
    let nya = get(&v, "nya");
    assert_eq!(nya.as_array().unwrap().len(), 2);
    assert_eq!(nya.get_index(0).unwrap().as_bool(), Some(false));
    assert_eq!(nya.get_index(1).unwrap().as_null(), Some(()));
}

#[test]
fn identifier_literal_boundary() {
    let v = fennec::parse("nullable = 1").expect("nullable is a key, not a null literal");
    assert_eq!(get(&v, "nullable").as_int(), Some(1));

    let v = fennec::parse("falseValue = 1").expect("falseValue is a key, not a bool literal");
    assert_eq!(get(&v, "falseValue").as_int(), Some(1));
}

#[test]
fn root_disambiguation() {
    let v = fennec::parse("\"just a string\"").unwrap();
    assert_eq!(v.as_string().unwrap(), "just a string");

    let v = fennec::parse("key = \"v\"").unwrap();
    assert!(v.as_object().is_some());
    assert_eq!(get(&v, "key").as_string().unwrap(), "v");
}

#[test]
fn flags() {
    let v = fennec::parse("-verbose").unwrap();
    assert_eq!(get(&v, "verbose").as_bool(), Some(true));
}

#[test]
fn numeric_literal_forms() {
    assert!(fennec::parse("a = 0x1F").is_err());
    assert_eq!(get(&fennec::parse("a = 0x1f").unwrap(), "a").as_int(), Some(31));
    assert_eq!(get(&fennec::parse("a = 1x1f").unwrap(), "a").as_int(), Some(-31));
    assert_eq!(get(&fennec::parse("a = -7").unwrap(), "a").as_int(), Some(-7));
    assert_eq!(get(&fennec::parse("a = 1b").unwrap(), "a").as_bool(), Some(true));
    assert_eq!(get(&fennec::parse("a = 1b01").unwrap(), "a").as_int(), Some(-1));
    assert!(fennec::parse("a = 99999999999999999999").is_err());
    let v = fennec::parse("a = -9223372036854775808").unwrap();
    assert_eq!(v.get_key("a").unwrap().as_int(), Some(i64::MIN));
    assert!(fennec::parse("a = 9223372036854775808").is_err());
    assert!(fennec::parse("a = 1x8000000000000000").is_err());
}

#[test]
fn nested_structures() {
    let v = fennec::parse("a { b = 1 c [1 2 3] }").unwrap();
    let a = get(&v, "a");
    assert_eq!(get(a, "b").as_int(), Some(1));
    let c = get(a, "c");
    assert_eq!(c.as_array().unwrap().len(), 3);
    assert_eq!(c.get_index(0).unwrap().as_int(), Some(1));
    assert_eq!(c.get_index(1).unwrap().as_int(), Some(2));
    assert_eq!(c.get_index(2).unwrap().as_int(), Some(3));
}

#[test]
fn duplicate_keys_last_wins() {
    let v = fennec::parse("a = 1 a = 2").unwrap();
    assert_eq!(get(&v, "a").as_int(), Some(2));
    assert_eq!(v.as_object().unwrap().len(), 1);
}

#[test]
fn malformed_input_fails_closed() {
    let res = fennec::parse("a = ");
    match res {
        Err(ParseError::UnexpectedToken(Token::Eof)) => {}
        other => panic!("expected an unexpected-eof error, got {other:?}"),
    }
    assert!(fennec::parse("").is_err());
    assert!(fennec::parse("a").is_err());
    assert!(fennec::parse("^").is_err());
    assert!(fennec::parse("a { b = 1").is_err());
    assert!(fennec::parse("a = }").is_err());
}

#[test]
fn comments_and_types_invisible() {
    let v = fennec::parse("a = 1 # comment\nb:Int = 2").unwrap();
    assert_eq!(get(&v, "a").as_int(), Some(1));
    assert_eq!(get(&v, "b").as_int(), Some(2));
    assert_eq!(v.as_object().unwrap().len(), 2);
}

#[test]
fn string_escapes_decode() {
    let v = fennec::parse("a = \"x\\ny\\tz\"").unwrap();
    assert_eq!(get(&v, "a").as_string().unwrap(), "x\ny\tz");
}

#[test]
fn accessors_reject_other_kinds() {
    let v = fennec::parse("a = 1").unwrap();
    let a = get(&v, "a");
    assert!(a.as_bool().is_none());
    assert!(a.as_string().is_none());
    assert!(a.as_float().is_none());
    assert!(a.as_null().is_none());
    assert!(a.as_array().is_none());
    assert!(a.as_object().is_none());
    assert!(a.get_index(0).is_none());
    assert!(v.get_key("b").is_none());
    assert!(a.get_key("a").is_none());
}
