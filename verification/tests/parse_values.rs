use rust_json_parse::parse;
use rust_json_parse::JsonDocument;
use rust_json_parse::JsonValue;

fn num(lit: &str) -> JsonValue {
    JsonValue::Number(lit.as_bytes().to_vec())
}

fn strv(text: &str) -> JsonValue {
    JsonValue::String(text.as_bytes().to_vec())
}

#[test]
fn string() {
    // "string, \"string\", string—🎸🦕㻘\x03\x0C"
    let val = parse(
        "\"string, \\\"string\\\", string—🎸\\uD83E\\uDD95\\u3ED8\\u0003\\f\"".as_bytes(),
    )
    .unwrap();
    assert_eq!(
        val,
        strv("string, \"string\", string—🎸🦕㻘\x03\x0C")
    );
}

#[test]
fn json_array() {
    let mut string = "[5   ,\n\n".repeat(100);
    string.push_str("[\"algo\", 3.1415926535, 5.2e+50, \"\",null,true,false,[],[],[],[[[[[[[[[[[[[[]]]]]]]]]]]]]]]");
    string.push_str(&"]".repeat(100));
    let ret = parse(string.as_bytes()).unwrap();
    match ret {
        JsonValue::Array(items) => assert_eq!(items.len(), 2),
        _ => panic!("expected array"),
    }
}

#[test]
fn json_atoms() {
    let string = "[null, true,false,null,  true, false]";
    let ret = parse(string.as_bytes()).unwrap();
    assert_eq!(
        ret,
        JsonValue::Array(vec![
            JsonValue::Null,
            JsonValue::Boolean(true),
            JsonValue::Boolean(false),
            JsonValue::Null,
            JsonValue::Boolean(true),
            JsonValue::Boolean(false),
        ])
    );
}

#[test]
fn json_object() {
    let string = "{\n\t\t\"name\":\"Steve\"\n\t}";
    let ret = parse(string.as_bytes()).unwrap();
    match ret {
        JsonValue::Object(entries) => match entries.iter().find(|e| e.0 == b"name") {
            Some((_, JsonValue::String(s))) => {
                assert_eq!(s.as_slice(), b"Steve");
            }
            _ => panic!("Expect name field to be string"),
        },
        _ => panic!("Expected object"),
    }
}

#[test]
fn atoms_alone() {
    assert_eq!(parse(b"null").unwrap(), JsonValue::Null);
    assert_eq!(parse(b"true").unwrap(), JsonValue::Boolean(true));
    assert_eq!(parse(b"false").unwrap(), JsonValue::Boolean(false));
}

#[test]
fn empty_containers() {
    assert_eq!(parse(b"[]").unwrap(), JsonValue::Array(Vec::new()));
    assert_eq!(parse(b"{}").unwrap(), JsonValue::Object(Vec::new()));
}

#[test]
fn whitespace_insensitivity() {
    let a = parse(b"[1,2]").unwrap();
    let b = parse(b"[ 1 , 2 ]").unwrap();
    let c = parse(b"[\n1,\t2\n]").unwrap();
    assert_eq!(a, b);
    assert_eq!(b, c);
    assert_eq!(a, JsonValue::Array(vec![num("1"), num("2")]));
}

#[test]
fn leading_whitespace_before_value() {
    assert_eq!(parse(b" \t\r\n true").unwrap(), JsonValue::Boolean(true));
}

#[test]
fn parse_twice_yields_equal_trees() {
    let input = b"{\"a\": [1, 2.5, \"x\"], \"b\": {\"c\": null}}";
    let mut doc1 = JsonDocument::init();
    let mut doc2 = JsonDocument::init();
    let r1 = doc1.parse_slice(input).unwrap();
    let r2 = doc2.parse_slice(input).unwrap();
    assert_eq!(r1, r2);
}

#[test]
fn duplicate_keys_last_write_wins() {
    let ret = parse(b"{\"a\":1,\"a\":2}").unwrap();
    assert_eq!(
        ret,
        JsonValue::Object(vec![(b"a".to_vec(), num("2"))])
    );
}

#[test]
fn deep_nesting_five_hundred_levels() {
    let mut text = String::new();
    for _ in 0..500 {
        text.push('[');
    }
    for _ in 0..500 {
        text.push(']');
    }
    let mut v = parse(text.as_bytes()).unwrap();
    let mut depth = 0usize;
    loop {
        match v {
            JsonValue::Array(items) => {
                depth += 1;
                if items.is_empty() {
                    break;
                }
                assert_eq!(items.len(), 1);
                v = items.into_iter().next().unwrap();
            }
            _ => panic!("expected array"),
        }
    }
    assert_eq!(depth, 500);
}

#[test]
fn numeric_fidelity() {
    match parse(b"3.1415926535").unwrap() {
        JsonValue::Number(lit) => {
            let text = std::str::from_utf8(&lit).unwrap();
            let d: f64 = text.parse().unwrap();
            assert_eq!(d, 3.1415926535f64);
        }
        _ => panic!("expected number"),
    }
    match parse(b"5.2e+50").unwrap() {
        JsonValue::Number(lit) => {
            let text = std::str::from_utf8(&lit).unwrap();
            let d: f64 = text.parse().unwrap();
            assert!(d.is_finite());
        }
        _ => panic!("expected number"),
    }
}

#[test]
fn document_lifecycle() {
    let mut doc = JsonDocument::init();
    assert_eq!(doc.root, JsonValue::Null);
    {
        let root = doc.parse_slice(b"[true]").unwrap();
        assert_eq!(*root, JsonValue::Array(vec![JsonValue::Boolean(true)]));
    }
    assert_eq!(doc.root, JsonValue::Array(vec![JsonValue::Boolean(true)]));
}

#[test]
fn reparsing_a_document_replaces_the_root() {
    let mut doc = JsonDocument::init();
    doc.parse_slice(b"[1]").unwrap();
    doc.parse_slice(b"true").unwrap();
    assert_eq!(doc.root, JsonValue::Boolean(true));
}

#[test]
fn failed_parse_leaves_the_root_unchanged() {
    let mut doc = JsonDocument::init();
    doc.parse_slice(b"[1]").unwrap();
    assert!(doc.parse_slice(b"[").is_err());
    assert_eq!(doc.root, JsonValue::Array(vec![num("1")]));
}

#[test]
fn trailing_bytes_after_value_are_ignored() {
    assert_eq!(parse(b"1 2").unwrap(), num("1"));
}

#[test]
fn nested_object_and_array() {
    let ret = parse(b"{\"xs\": [ {\"k\": -1.5e-3} , \"\" ]}").unwrap();
    assert_eq!(
        ret,
        JsonValue::Object(vec![(
            b"xs".to_vec(),
            JsonValue::Array(vec![
                JsonValue::Object(vec![(b"k".to_vec(), num("-1.5e-3"))]),
                strv(""),
            ]),
        )])
    );
}
