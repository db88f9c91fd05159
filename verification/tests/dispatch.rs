use std::cell::RefCell;
use std::rc::Rc;

use reconciler::PatternTrie;
use reconciler::Value;
use reconciler::Worker;
use reconciler::WorkerError;
use reconciler::WorkerReconciler;

fn t(s: &str) -> Value {
    Value::Text(String::from(s))
}

fn obj(entries: Vec<(&str, Value)>) -> Value {
    Value::Object(entries.into_iter().map(|(k, x)| (String::from(k), x)).collect())
}

struct Recorder {
    tag: &'static str,
    fail: bool,
    log: Rc<RefCell<Vec<String>>>,
}

impl Worker for Recorder {
    fn create(&self, _new_data: &Value, path: &str) -> Result<Value, WorkerError> {
        self.log.borrow_mut().push(format!("{} create {}", self.tag, path));
        if self.fail {
            Err(WorkerError { message: String::from("declined") })
        } else {
            Ok(Value::Null)
        }
    }

    fn update(&self, _old_data: &Value, _new_data: &Value, path: &str) -> Result<Value, WorkerError> {
        self.log.borrow_mut().push(format!("{} update {}", self.tag, path));
        if self.fail {
            Err(WorkerError { message: String::from("declined") })
        } else {
            Ok(Value::Null)
        }
    }

    fn delete(&self, _old_data: &Value, path: &str) -> Result<Value, WorkerError> {
        self.log.borrow_mut().push(format!("{} delete {}", self.tag, path));
        if self.fail {
            Err(WorkerError { message: String::from("declined") })
        } else {
            Ok(Value::Null)
        }
    }

    fn error_create(&self) {
        self.log.borrow_mut().push(format!("{} error_create", self.tag));
    }

    fn error_update(&self) {
        self.log.borrow_mut().push(format!("{} error_update", self.tag));
    }

    fn error_delete(&self) {
        self.log.borrow_mut().push(format!("{} error_delete", self.tag));
    }
}

#[test]
fn test_trie_exact_beats_wildcard() {
    let mut trie: PatternTrie<u64> = PatternTrie::new();
    trie.insert("/a/*/c", 1);
    trie.insert("/a/b/c", 2);
    assert_eq!(trie.resolve("/a/b/c"), Some(&2));
    assert_eq!(trie.resolve("/a/x/c"), Some(&1));
    assert_eq!(trie.resolve("/a/b"), None);
    assert_eq!(trie.resolve("/a/b/c/d"), None);
}

#[test]
fn test_trie_replaces_same_pattern() {
    let mut trie: PatternTrie<u64> = PatternTrie::new();
    trie.insert("/a", 1);
    trie.insert("/a", 2);
    assert_eq!(trie.resolve("/a"), Some(&2));
}

#[test]
fn test_trie_root_and_depth() {
    let mut trie: PatternTrie<u64> = PatternTrie::new();
    trie.insert("", 7);
    trie.insert("/x/*", 8);
    assert_eq!(trie.resolve(""), Some(&7));
    assert_eq!(trie.resolve("/x/anything"), Some(&8));
    assert_eq!(trie.resolve("/x"), None);
}

#[test]
fn test_worker_dispatch() {
    let log: Rc<RefCell<Vec<String>>> = Rc::new(RefCell::new(Vec::new()));
    let from = obj(vec![("a", t("a")), ("b", obj(vec![("c", t("one"))]))]);
    let to = obj(vec![("a", t("a2")), ("b", obj(vec![])), ("d", t("new"))]);

    let mut reconciler = WorkerReconciler::new(&from, &to);
    reconciler.add_observer("/a", Recorder { tag: "exact", fail: false, log: Rc::clone(&log) });
    reconciler.add_observer("/*/c", Recorder { tag: "wild", fail: false, log: Rc::clone(&log) });
    let tree = reconciler.reconcile();
    assert_eq!(tree.len(), 3);

    let mut seen = log.borrow().clone();
    seen.sort();
    // The update at /a went to the exact worker, the delete at /b/c to
    // the wildcard one; the create at /d resolved to nothing.
    assert_eq!(seen, vec![
        String::from("exact update /a"),
        String::from("wild delete /b/c"),
    ]);
}

#[test]
fn test_worker_failure_hits_hook_and_continues() {
    let log: Rc<RefCell<Vec<String>>> = Rc::new(RefCell::new(Vec::new()));
    let from = obj(vec![("a", t("a")), ("b", t("b"))]);
    let to = obj(vec![("a", t("a2"))]);

    // Boxed trait objects still work as the worker type, through the
    // forwarding implementation.
    let mut reconciler: WorkerReconciler<Box<dyn Worker>> = WorkerReconciler::new(&from, &to);
    reconciler.add_observer(
        "/a",
        Box::new(Recorder { tag: "w1", fail: true, log: Rc::clone(&log) }),
    );
    reconciler.add_observer(
        "/b",
        Box::new(Recorder { tag: "w2", fail: true, log: Rc::clone(&log) }),
    );
    let tree = reconciler.reconcile();
    assert_eq!(tree.len(), 2);

    let mut seen = log.borrow().clone();
    seen.sort();
    // Both workers failed, both error hooks ran, neither failure stopped
    // the dispatch pass.
    assert_eq!(seen, vec![
        String::from("w1 error_update"),
        String::from("w1 update /a"),
        String::from("w2 delete /b"),
        String::from("w2 error_delete"),
    ]);
}
