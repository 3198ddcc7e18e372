use fennec::value::FennecType;

fn obj(entries: Vec<(&str, FennecType)>) -> FennecType {
    FennecType::Object(entries.into_iter().map(|(k, v)| (k.to_owned(), v)).collect())
}

#[test]
fn serialize_primitives_exactly() {
    assert_eq!(FennecType::Int(42).to_string(), "42");
    assert_eq!(FennecType::Int(-7).to_string(), "-7");
    assert_eq!(FennecType::Int(0).to_string(), "0");
    assert_eq!(FennecType::Int(i64::MIN).to_string(), "-9223372036854775808");
    assert_eq!(FennecType::Bool(true).to_string(), "true");
    assert_eq!(FennecType::Bool(false).to_string(), "false");
    assert_eq!(FennecType::Null.to_string(), "null");
    assert_eq!(FennecType::Float("2.5".to_owned()).to_string(), "2.5");
    assert_eq!(FennecType::Text("a\nb".to_owned()).to_string(), "\"a\\nb\"");
}

#[test]
fn serialize_object_exactly() {
    let v = obj(vec![
        ("a", FennecType::Int(1)),
        ("b", obj(vec![("c", FennecType::Bool(true))])),
        ("d", FennecType::Array(vec![FennecType::Int(1), FennecType::Int(2)])),
        ("two words", FennecType::Null),
    ]);
    let expected = "\
a = 1
b {
    c = true
}
d [
    1
    2
]
\"two words\" = null
";
    assert_eq!(v.to_string(), expected);
}

#[test]
fn serialize_is_deterministic() {
    let v = obj(vec![
        ("a", FennecType::Int(1)),
        ("b", FennecType::Array(vec![FennecType::Null])),
    ]);
    assert_eq!(v.to_string(), v.to_string());
    let w = fennec::parse("x = 1 y [2.5 \"s\"]").unwrap();
    assert_eq!(w.to_string(), w.to_string());
}

#[test]
fn roundtrip_parsed_documents() {
    let docs = [
        "a = 1 b = -2 c = 2.5 d = true e = null f = \"hi\\nthere\"",
        "-flag plain = 1 nested { x [1 2 3] y { z = 0x1f } }",
        "\"just a string\"",
        "[1 2.5 \"s\" null [true]]",
        "{ a = 1 b { c = 2 } }",
        "42",
        "outer { \"quoted key\" = 1 }",
        "low = -9223372036854775808 high = 9223372036854775807",
    ];
    for doc in docs {
        let v1 = fennec::parse(doc).expect("document should parse");
        let text = v1.to_string();
        let v2 = fennec::parse(&text)
            .unwrap_or_else(|e| panic!("re-parse of {text:?} failed: {e:?}"));
        assert_eq!(format!("{v1:?}"), format!("{v2:?}"));
        assert_eq!(text, v2.to_string());
    }
}

#[test]
fn replace_escapes_rewrites_controls() {
    assert_eq!(FennecType::replace_escapes("a\tb\rc"), "a\\tb\\rc");
    assert_eq!(FennecType::replace_escapes("plain"), "plain");
    assert_eq!(
        FennecType::replace_escapes("\u{8}\u{c}\n"),
        "\\b\\f\\n"
    );
}
