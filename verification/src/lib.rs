//! Structural reconciliation of tree-shaped documents.
//!
//! The crate compares two JSON-like tree values and reports every difference
//! as a path-addressed change operation (create, update or delete).  A
//! dispatcher keyed by wildcard path patterns can hand each change to a
//! registered worker.

use vstd::prelude::*;

mod changes;
mod coverage;
mod dispatch;
mod operation;
mod paths;
mod recurse;
mod value;
mod worker;

pub use changes::Changes;
pub use coverage::at_or_below_seg;
pub use coverage::lemma_create_coverage;
pub use coverage::lemma_delete_coverage;
pub use coverage::lemma_diff_dom_below;
pub use coverage::object_nodes;
pub use coverage::scalar_leaves;
pub use dispatch::lemma_resolve_complete;
pub use dispatch::lemma_resolve_exact;
pub use dispatch::lemma_resolve_sound;
pub use dispatch::pat_matches;
pub use dispatch::seg_matches;
pub use dispatch::star;
pub use dispatch::PatternTrie;
pub use operation::OpType;
pub use operation::Operation;
pub use operation::OperationModel;
pub use paths::append_index;
pub use paths::append_key;
pub use paths::appended_index;
pub use paths::appended_key;
pub use paths::dec_digits;
pub use paths::escape_key;
pub use paths::escaped_key;
pub use paths::lemma_escape_round_trip;
pub use paths::path_below;
pub use paths::path_segs;
pub use paths::seg_below;
pub use paths::unescape_segment;
pub use paths::unescaped_seg;
pub use recurse::creates_at;
pub use recurse::creates_from;
pub use recurse::diff_elems;
pub use recurse::diff_entries;
pub use recurse::diff_model;
pub use recurse::lemma_diff_at_resolved;
pub use recurse::lemma_diff_wf;
pub use recurse::lemma_reconcile_self_empty;
pub use recurse::lemma_update_numeric;
pub use recurse::recurse;
pub use value::deep_eq;
pub use value::key_lookup;
pub use value::lemma_pointer_child_index;
pub use value::lemma_pointer_child_key;
pub use value::lemma_wf_pointer;
pub use value::models_of_elems;
pub use value::models_of_entries;
pub use value::num_eq;
pub use value::pointer_model;
pub use value::scalar_eq;
pub use value::scalar_equal;
pub use value::token_step;
pub use value::Value;
pub use value::ValueModel;
pub use worker::Worker;
pub use worker::WorkerError;

verus! {

/// Compares a `from` and a `to` document and reports every difference.
pub struct Reconciler<'a> {
    from: &'a Value,
    to: &'a Value,
}

impl<'a> Reconciler<'a> {
    /// The document the reconciler diffs from.
    pub closed spec fn from_doc(self) -> ValueModel {
        self.from@
    }

    /// The document the reconciler diffs towards.
    pub closed spec fn to_doc(self) -> ValueModel {
        self.to@
    }

    /// A reconciler over the two documents.
    pub fn new(from: &'a Value, to: &'a Value) -> (r: Reconciler<'a>)
        ensures
            r.from_doc() == from@,
            r.to_doc() == to@,
    {
        Reconciler { from, to }
    }

    /// One diff pass over the whole `from` tree, starting at the root path.
    pub fn reconcile(&mut self) -> (r: Changes)
        ensures
            r.wf(),
            r@ == diff_model(old(self).from_doc(), old(self).to_doc(), Seq::empty()),
            *final(self) == *old(self),
    {
        let mut changes = Changes::new();
        proof {
            reveal_strlit("");
        }
        recurse(self.from, self.to, "", &mut changes);
        proof {
            assert(""@ =~= Seq::<char>::empty());
            assert(Map::<Seq<char>, operation::OperationModel>::empty().union_prefer_right(
                diff_model(self.from@, self.to@, ""@),
            ) =~= diff_model(self.from@, self.to@, Seq::empty()));
        }
        changes
    }
}

/// A reconciler that, beyond reporting the differences, hands each one to
/// the worker whose registered pattern best matches its path.
pub struct WorkerReconciler<'a, W: Worker> {
    from: &'a Value,
    to: &'a Value,
    observers: PatternTrie<W>,
    operations: Changes,
}

impl<'a, W: Worker> WorkerReconciler<'a, W> {
    /// The document the reconciler diffs from.
    pub closed spec fn from_doc(self) -> ValueModel {
        self.from@
    }

    /// The document the reconciler diffs towards.
    pub closed spec fn to_doc(self) -> ValueModel {
        self.to@
    }

    /// The worker registered under a pattern, given by its segments.
    pub closed spec fn observer_at(self, q: Seq<Seq<char>>) -> Option<W> {
        self.observers.entry(q)
    }

    /// The dispatcher and the scratch changeset are well formed.
    pub closed spec fn wf(self) -> bool {
        self.observers.wf() && self.operations.wf()
    }

    /// A reconciler over the two documents, with nothing registered yet.
    pub fn new(from: &'a Value, to: &'a Value) -> (r: WorkerReconciler<'a, W>)
        ensures
            r.wf(),
            r.from_doc() == from@,
            r.to_doc() == to@,
            forall|q: Seq<Seq<char>>| r.observer_at(q) is None,
    {
        WorkerReconciler {
            from,
            to,
            observers: PatternTrie::new(),
            operations: Changes::new(),
        }
    }

    /// Registers a worker under a pattern path; a later registration for
    /// the same pattern replaces the earlier one.
    pub fn add_observer(&mut self, path: &str, observer: W)
        requires
            old(self).wf(),
            path@.len() == 0 || path@[0] == '/',
        ensures
            final(self).wf(),
            final(self).observer_at(paths::path_segs(path@)) == Some(observer),
            forall|q: Seq<Seq<char>>|
                q != paths::path_segs(path@) ==> final(self).observer_at(q) == old(
                    self,
                ).observer_at(q),
            final(self).from_doc() == old(self).from_doc(),
            final(self).to_doc() == old(self).to_doc(),
    {
        self.observers.insert(path, observer);
    }

    /// One diff pass over the whole `from` tree; each reported change is
    /// then handed to the worker its path resolves to, if any.
    pub fn reconcile(&mut self) -> (r: Changes)
        requires
            old(self).wf(),
        ensures
            final(self).wf(),
            r.wf(),
            r@ == diff_model(old(self).from_doc(), old(self).to_doc(), Seq::empty()),
            final(self).from_doc() == old(self).from_doc(),
            final(self).to_doc() == old(self).to_doc(),
            forall|q: Seq<Seq<char>>|
                final(self).observer_at(q) == old(self).observer_at(q),
    {
        let mut changes = Changes::new();
        proof {
            reveal_strlit("");
        }
        recurse(self.from, self.to, "", &mut changes);
        proof {
            assert(""@ =~= Seq::<char>::empty());
            assert(Map::<Seq<char>, operation::OperationModel>::empty().union_prefer_right(
                diff_model(self.from@, self.to@, ""@),
            ) =~= diff_model(self.from@, self.to@, Seq::empty()));
            recurse::lemma_diff_wf(self.from@, self.to@, ""@);
        }
        self.call_observers_on_changes(&changes);
        changes
    }

    /// Hands each recorded change to the worker its path resolves to; a
    /// change whose path no pattern matches is skipped, and a worker's
    /// failure only has the matching error hook called.
    fn call_observers_on_changes(&mut self, changes: &Changes)
        requires
            old(self).wf(),
            changes.wf(),
            forall|k: Seq<char>|
                changes@.dom().contains(k) ==> (#[trigger] changes@[k]).wf(),
        ensures
            final(self).wf(),
            final(self).from_doc() == old(self).from_doc(),
            final(self).to_doc() == old(self).to_doc(),
            forall|q: Seq<Seq<char>>|
                final(self).observer_at(q) == old(self).observer_at(q),
    {
        let n = changes.len();
        let mut i: usize = 0;
        while i < n
            invariant
                n == changes.num_entries(),
                0 <= i <= n,
                changes.wf(),
                forall|k: Seq<char>|
                    changes@.dom().contains(k) ==> (#[trigger] changes@[k]).wf(),
                self.wf(),
                *self == *old(self),
            decreases n - i,
        {
            let entry = changes.entry_at(i);
            let path = entry.0.as_str();
            let n_path = path.unicode_len();
            let path_ok = n_path == 0 || path.get_char(0) == '/';
            if path_ok {
                match self.observers.resolve(path) {
                    Some(w) => {
                        proof {
                            assert(entry.1@.wf());
                        }
                        match entry.1.op {
                            OpType::Create => {
                                let new_data = entry.1.to.as_ref().unwrap();
                                let outcome = w.create(new_data, path);
                                match outcome {
                                    Ok(_) => {},
                                    Err(_) => {
                                        w.error_create();
                                    },
                                }
                            },
                            OpType::Update => {
                                let old_data = entry.1.from.as_ref().unwrap();
                                let new_data = entry.1.to.as_ref().unwrap();
                                let outcome = w.update(old_data, new_data, path);
                                match outcome {
                                    Ok(_) => {},
                                    Err(_) => {
                                        w.error_update();
                                    },
                                }
                            },
                            OpType::Delete => {
                                let old_data = entry.1.from.as_ref().unwrap();
                                let outcome = w.delete(old_data, path);
                                match outcome {
                                    Ok(_) => {},
                                    Err(_) => {
                                        w.error_delete();
                                    },
                                }
                            },
                        }
                    },
                    None => {},
                }
            }
            i = i + 1;
        }
    }
}

/// Returns the fixed marker string `test`.
pub fn test_str() -> (r: &'static str)
    ensures
        r@ == "test"@,
{
    "test"
}

} // verus!
