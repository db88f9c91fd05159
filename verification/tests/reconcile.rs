use reconciler::OpType;
use reconciler::Operation;
use reconciler::Reconciler;
use reconciler::Value;
use reconciler::test_str;

fn t(s: &str) -> Value {
    Value::Text(String::from(s))
}

fn n(x: f64) -> Value {
    Value::Number(x.to_bits())
}

fn arr(v: Vec<Value>) -> Value {
    Value::Array(v)
}

fn obj(entries: Vec<(&str, Value)>) -> Value {
    Value::Object(entries.into_iter().map(|(k, x)| (String::from(k), x)).collect())
}

fn upd(from: Value, to: Value) -> Operation {
    Operation { op: OpType::Update, to: Some(to), from: Some(from) }
}

fn del(from: Value) -> Operation {
    Operation { op: OpType::Delete, to: None, from: Some(from) }
}

fn cre(to: Value) -> Operation {
    Operation { op: OpType::Create, to: Some(to), from: None }
}

#[test]
fn it_works() {
    assert_eq!(2 + 2, 4);
}

#[test]
fn it_works2() {
    assert_eq!(test_str(), "test");
}

#[test]
fn test_modify() {
    let from = obj(vec![
        ("a", t("a")),
        (
            "arr",
            arr(vec![
                obj(vec![("arr3", obj(vec![("arrObj1", t("arrObj1"))]))]),
                n(1.0),
                n(2.0),
                t("same"),
                Value::Bool(true),
                n(0.4),
            ]),
        ),
    ]);
    let to = obj(vec![
        ("a", t("a-what?")),
        (
            "arr",
            arr(vec![
                obj(vec![("arr3", obj(vec![("arrObj1", t("arrObj2"))]))]),
                n(1.0),
                n(2.0),
                t("same"),
                Value::Bool(true),
                n(0.3),
            ]),
        ),
    ]);
    let mut reconciler = Reconciler::new(&from, &to);
    let tree = reconciler.reconcile();

    assert_eq!(tree.len(), 3);
    assert_eq!(tree.get("/a"), Some(&upd(t("a"), t("a-what?"))));
    assert_eq!(
        tree.get("/arr/0/arr3/arrObj1"),
        Some(&upd(t("arrObj1"), t("arrObj2")))
    );
    assert_eq!(tree.get("/arr/5"), Some(&upd(n(0.4), n(0.3))));
}

#[test]
fn test_delete() {
    let from = obj(vec![
        ("a", t("a")),
        (
            "arr",
            arr(vec![
                obj(vec![
                    ("arr1", t("arr1")),
                    ("arr2", t("arr2")),
                    ("arr3", obj(vec![("arrObj1", t("arrObj1"))])),
                ]),
                obj(vec![("abc123", t("abc123"))]),
                t("arr4"),
                n(0.1),
                n(0.2),
                n(0.3),
            ]),
        ),
        ("b", t("b")),
        ("c", arr(vec![t("1"), t("2"), n(3.0)])),
        ("d", n(132.0)),
        ("e", t("e")),
        ("f", Value::Null),
        ("g", Value::Null),
        (
            "obj",
            obj(vec![
                ("a1", t("a1")),
                ("a2", t("a2")),
                ("a3", arr(vec![n(1.0), n(2.0), n(3.0), n(4.0), n(0.5)])),
            ]),
        ),
    ]);
    let to = obj(vec![("a", t("a-what?"))]);
    let mut reconciler = Reconciler::new(&from, &to);
    let tree = reconciler.reconcile();

    assert_eq!(tree.len(), 24);
    assert_eq!(tree.get("/arr/0/arr1"), Some(&del(t("arr1"))));
    assert_eq!(tree.get("/f"), Some(&del(Value::Null)));
    assert_eq!(tree.get("/arr/2"), Some(&del(t("arr4"))));
    assert_eq!(tree.get("/arr/4"), Some(&del(n(0.2))));
    assert_eq!(tree.get("/e"), Some(&del(t("e"))));
    assert_eq!(tree.get("/g"), Some(&del(Value::Null)));
    assert_eq!(tree.get("/arr/3"), Some(&del(n(0.1))));
    assert_eq!(tree.get("/obj/a3/3"), Some(&del(n(4.0))));
    assert_eq!(tree.get("/obj/a3/2"), Some(&del(n(3.0))));
    assert_eq!(tree.get("/obj/a3/4"), Some(&del(n(0.5))));
    assert_eq!(tree.get("/obj/a3/0"), Some(&del(n(1.0))));
    assert_eq!(tree.get("/c/2"), Some(&del(n(3.0))));
    assert_eq!(tree.get("/b"), Some(&del(t("b"))));
    assert_eq!(tree.get("/d"), Some(&del(n(132.0))));
    assert_eq!(tree.get("/obj/a2"), Some(&del(t("a2"))));
    assert_eq!(tree.get("/arr/0/arr3/arrObj1"), Some(&del(t("arrObj1"))));
    assert_eq!(tree.get("/arr/5"), Some(&del(n(0.3))));
    assert_eq!(tree.get("/c/1"), Some(&del(t("2"))));
    assert_eq!(tree.get("/obj/a3/1"), Some(&del(n(2.0))));
    assert_eq!(tree.get("/obj/a1"), Some(&del(t("a1"))));
    assert_eq!(tree.get("/c/0"), Some(&del(t("1"))));
    assert_eq!(tree.get("/arr/0/arr2"), Some(&del(t("arr2"))));
    assert_eq!(tree.get("/arr/1/abc123"), Some(&del(t("abc123"))));
    assert_eq!(tree.get("/a"), Some(&upd(t("a"), t("a-what?"))));
}

#[test]
fn test_create() {
    let from = obj(vec![("a", t("a"))]);
    let to = obj(vec![
        ("a", t("a-what?")),
        ("abc", obj(vec![("abc", obj(vec![("abc", t("123")), ("123", n(123.0))]))])),
        ("b", t("b")),
        ("abc123", t("abc123")),
        ("array", arr(vec![n(1.0), n(2.0), n(3.0)])),
        ("/abc/abc/123~~~1", t("/abc/abc/123~~~1")),
        ("~abc~", t("~abc~")),
    ]);
    let mut reconciler = Reconciler::new(&from, &to);
    let tree = reconciler.reconcile();

    assert_eq!(tree.len(), 7);
    assert_eq!(
        tree.get("/abc"),
        Some(&cre(obj(vec![(
            "abc",
            obj(vec![("abc", t("123")), ("123", n(123.0))])
        )])))
    );
    assert_eq!(tree.get("/b"), Some(&cre(t("b"))));
    assert_eq!(tree.get("/abc123"), Some(&cre(t("abc123"))));
    assert_eq!(tree.get("/a"), Some(&upd(t("a"), t("a-what?"))));
    assert_eq!(
        tree.get("/array"),
        Some(&cre(arr(vec![n(1.0), n(2.0), n(3.0)])))
    );
    assert_eq!(
        tree.get("/~1abc~1abc~1123~0~0~01"),
        Some(&cre(t("/abc/abc/123~~~1")))
    );
    assert_eq!(tree.get("/~0abc~0"), Some(&cre(t("~abc~"))));
}

#[test]
fn test_example_scenario() {
    let from = obj(vec![("a", t("a")), ("arr", arr(vec![obj(vec![("x", t("x"))])]))]);
    let to = obj(vec![
        ("a", t("a2")),
        ("arr", arr(vec![obj(vec![("x", t("y"))])])),
        ("b", t("new")),
    ]);
    let mut reconciler = Reconciler::new(&from, &to);
    let tree = reconciler.reconcile();

    assert_eq!(tree.len(), 3);
    assert_eq!(tree.get("/a"), Some(&upd(t("a"), t("a2"))));
    assert_eq!(tree.get("/arr/0/x"), Some(&upd(t("x"), t("y"))));
    assert_eq!(tree.get("/b"), Some(&cre(t("new"))));
}

#[test]
fn test_no_op_diff_is_empty() {
    let v = obj(vec![
        ("a", t("a")),
        ("arr", arr(vec![n(1.0), Value::Null, obj(vec![("k", t("v"))])])),
    ]);
    let copy = v.clone();
    let mut reconciler = Reconciler::new(&v, &copy);
    let tree = reconciler.reconcile();
    assert_eq!(tree.len(), 0);
}

#[test]
fn test_numeric_equivalence() {
    // The integer one and the fractional one denote the same double.
    let from = obj(vec![("n", Value::Number((1u64 as f64).to_bits()))]);
    let to = obj(vec![("n", n(1.0))]);
    let mut reconciler = Reconciler::new(&from, &to);
    let tree = reconciler.reconcile();
    assert_eq!(tree.len(), 0);

    // A number against a text of the same spelling is an update.
    let from2 = obj(vec![("n", n(1.0))]);
    let to2 = obj(vec![("n", t("1"))]);
    let mut reconciler2 = Reconciler::new(&from2, &to2);
    let tree2 = reconciler2.reconcile();
    assert_eq!(tree2.len(), 1);
    assert_eq!(tree2.get("/n"), Some(&upd(n(1.0), t("1"))));
}

#[test]
fn test_both_zero_encodings_equal() {
    let from = obj(vec![("z", n(0.0))]);
    let to = obj(vec![("z", n(-0.0))]);
    let mut reconciler = Reconciler::new(&from, &to);
    let tree = reconciler.reconcile();
    assert_eq!(tree.len(), 0);
}

#[test]
fn test_appended_array_elements_not_reported() {
    // Positions beyond the from-array's length are a documented blind
    // spot of the index-aligned walk.
    let from = obj(vec![("arr", arr(vec![n(1.0)]))]);
    let to = obj(vec![("arr", arr(vec![n(1.0), n(2.0)]))]);
    let mut reconciler = Reconciler::new(&from, &to);
    let tree = reconciler.reconcile();
    assert_eq!(tree.len(), 0);
}

#[test]
fn test_type_change_on_scalar_is_update() {
    let from = obj(vec![("x", Value::Bool(true))]);
    let to = obj(vec![("x", n(1.0))]);
    let mut reconciler = Reconciler::new(&from, &to);
    let tree = reconciler.reconcile();
    assert_eq!(tree.len(), 1);
    assert_eq!(tree.get("/x"), Some(&upd(Value::Bool(true), n(1.0))));
}

#[test]
fn test_null_only_equals_null() {
    let from = obj(vec![("x", Value::Null)]);
    let to = obj(vec![("x", t(""))]);
    let mut reconciler = Reconciler::new(&from, &to);
    let tree = reconciler.reconcile();
    assert_eq!(tree.len(), 1);
    assert_eq!(tree.get("/x"), Some(&upd(Value::Null, t(""))));
}

#[test]
fn test_empty_key_degenerate_path() {
    let from = obj(vec![("", t("old"))]);
    let to = obj(vec![("", t("new"))]);
    let mut reconciler = Reconciler::new(&from, &to);
    let tree = reconciler.reconcile();
    assert_eq!(tree.len(), 1);
    assert_eq!(tree.get("/"), Some(&upd(t("old"), t("new"))));
}

#[test]
fn test_root_scalar_update() {
    let from = t("a");
    let to = t("b");
    let mut reconciler = Reconciler::new(&from, &to);
    let tree = reconciler.reconcile();
    assert_eq!(tree.len(), 1);
    assert_eq!(tree.get(""), Some(&upd(t("a"), t("b"))));
}
