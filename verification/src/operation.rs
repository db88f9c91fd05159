//! Change operations, the entries of a changeset.

use vstd::prelude::*;

use crate::value::Value;
use crate::value::ValueModel;

verus! {

/// The kind of a change.
#[derive(Clone, Copy, Debug, PartialEq, Eq, Structural)]
pub enum OpType {
    Create,
    Update,
    Delete,
}

/// One change: its kind, the value found in the `from` tree, and the value
/// found in the `to` tree, each absent where the kind leaves no such side.
#[derive(Debug)]
pub struct Operation {
    pub op: OpType,
    pub to: Option<Value>,
    pub from: Option<Value>,
}

/// Model of an operation, over value models.
#[verifier::ext_equal]
pub struct OperationModel {
    pub op: OpType,
    pub to: Option<ValueModel>,
    pub from: Option<ValueModel>,
}

impl View for Operation {
    type V = OperationModel;

    open spec fn view(&self) -> OperationModel {
        OperationModel {
            op: self.op,
            to: match self.to {
                Some(v) => Some(v@),
                None => None,
            },
            from: match self.from {
                Some(v) => Some(v@),
                None => None,
            },
        }
    }
}

impl OperationModel {
    /// The invariant of an operation: a create has only a `to` side, a
    /// delete only a `from` side, an update both; never neither.
    pub open spec fn wf(self) -> bool {
        match self.op {
            OpType::Create => self.from is None && self.to is Some,
            OpType::Update => self.from is Some && self.to is Some,
            OpType::Delete => self.from is Some && self.to is None,
        }
    }
}

impl PartialEq for Operation {
    fn eq(&self, other: &Operation) -> (r: bool) {
        let ops_agree = self.op == other.op;
        let to_agree = match (&self.to, &other.to) {
            (Some(a), Some(b)) => crate::value::deep_eq(a, b),
            (None, None) => true,
            _ => false,
        };
        let from_agree = match (&self.from, &other.from) {
            (Some(a), Some(b)) => crate::value::deep_eq(a, b),
            (None, None) => true,
            _ => false,
        };
        ops_agree && to_agree && from_agree
    }
}

impl vstd::std_specs::cmp::PartialEqSpecImpl for Operation {
    open spec fn obeys_eq_spec() -> bool {
        true
    }

    open spec fn eq_spec(&self, other: &Operation) -> bool {
        self@ == other@
    }
}

} // verus!
