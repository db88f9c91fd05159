use reconciler::append_index;
use reconciler::append_key;
use reconciler::escape_key;
use reconciler::unescape_segment;
use reconciler::Value;

fn t(s: &str) -> Value {
    Value::Text(String::from(s))
}

fn n(x: f64) -> Value {
    Value::Number(x.to_bits())
}

fn arr(v: Vec<Value>) -> Value {
    Value::Array(v)
}

fn obj(entries: Vec<(&str, Value)>) -> Value {
    Value::Object(entries.into_iter().map(|(k, x)| (String::from(k), x)).collect())
}

#[test]
fn test_escape_tilde_then_slash() {
    assert_eq!(escape_key("~abc~"), "~0abc~0");
    assert_eq!(escape_key("/abc/abc/123~~~1"), "~1abc~1abc~1123~0~0~01");
    assert_eq!(escape_key("plain"), "plain");
    assert_eq!(escape_key(""), "");
}

#[test]
fn test_unescape_round_trip() {
    for key in ["~abc~", "/abc/abc/123~~~1", "a/b~c", "~1", "~0", "", "nothing"] {
        assert_eq!(unescape_segment(escape_key(key).as_str()), key);
    }
}

#[test]
fn test_append_key_and_index() {
    assert_eq!(append_key("", "a"), "/a");
    assert_eq!(append_key("/a", "b/c"), "/a/b~1c");
    assert_eq!(append_index("/a", 0), "/a/0");
    assert_eq!(append_index("", 132), "/132");
}

#[test]
fn test_pointer_resolution() {
    let doc = obj(vec![
        ("a", arr(vec![n(1.0), obj(vec![("k~/x", t("deep"))])])),
        ("", t("empty-key")),
    ]);

    assert!(doc.pointer("").is_some());
    assert_eq!(doc.pointer("/a/0"), Some(&n(1.0)));
    assert_eq!(doc.pointer("/a/1/k~0~1x"), Some(&t("deep")));
    assert_eq!(doc.pointer("/"), Some(&t("empty-key")));
    assert_eq!(doc.pointer("/missing"), None);
    assert_eq!(doc.pointer("/a/2"), None);
    // A position with a leading zero or a sign is not canonical.
    assert_eq!(doc.pointer("/a/00"), None);
    assert_eq!(doc.pointer("/a/+1"), None);
    // A path without its leading separator resolves to nothing.
    assert_eq!(doc.pointer("a"), None);
    // A scalar has nothing below it.
    assert_eq!(doc.pointer("/a/0/x"), None);
}

#[test]
fn test_deep_equality_by_contents() {
    let left = obj(vec![("a", arr(vec![n(1.0), t("x")]))]);
    let right = obj(vec![("a", arr(vec![n(1.0), t("x")]))]);
    let other = obj(vec![("a", arr(vec![n(2.0), t("x")]))]);
    assert_eq!(left, right);
    assert_ne!(left, other);
    assert_eq!(left.clone(), left);
}
