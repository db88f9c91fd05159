//! The tree differ: one depth-first pass over the `from` tree, comparing
//! each node against what the whole `to` document holds at the same path.

use vstd::prelude::*;
use vstd::string::StringExecFns;

use crate::changes::Changes;
use crate::operation::OpType;
use crate::operation::Operation;
use crate::operation::OperationModel;
use crate::paths::append_index;
use crate::paths::append_key;
use crate::paths::appended_index;
use crate::paths::appended_key;
use crate::value::key_lookup;
use crate::value::lemma_key_lookup_at;
use crate::value::lemma_key_lookup_some;
use crate::value::lemma_models_of_elems;
use crate::value::lemma_models_of_entries;
use crate::value::lemma_pointer_child_index;
use crate::value::lemma_pointer_child_key;
use crate::value::token_step;
use crate::value::models_of_elems;
use crate::value::models_of_entries;
use crate::value::num_eq;
use crate::value::object_has_key;
use crate::value::pointer_model;
use crate::value::scalar_eq;
use crate::value::scalar_equal;
use crate::value::Value;
use crate::value::ValueModel;

verus! {

/// The operations the differ reports for `elem`, the subtree found at path
/// `p` of the `from` tree, compared against the whole `to` document `doc`.
///
/// A scalar is compared against whatever `doc` holds at `p`: nothing there
/// is a delete, an unequal value an update, an equal one no operation.  An
/// array visits its positions; an object visits its entries and then
/// reports one create for every key that `doc`'s object at `p` has and the
/// `from` object lacks.
pub open spec fn diff_model(elem: ValueModel, doc: ValueModel, p: Seq<char>) -> Map<
    Seq<char>,
    OperationModel,
>
    decreases elem, 0int,
{
    match elem {
        ValueModel::Array(elems) => diff_elems(elems, doc, p),
        ValueModel::Object(entries) => diff_entries(entries, doc, p).union_prefer_right(
            creates_at(entries, doc, p),
        ),
        _ => match pointer_model(doc, p) {
            None => Map::empty().insert(
                p,
                OperationModel { op: OpType::Delete, to: None, from: Some(elem) },
            ),
            Some(c) => if scalar_eq(elem, c) {
                Map::empty()
            } else {
                Map::empty().insert(
                    p,
                    OperationModel { op: OpType::Update, to: Some(c), from: Some(elem) },
                )
            },
        },
    }
}

/// The diffs of the first `elems.len()` positions of a `from` array below
/// path `p`, later positions winning where paths could collide.
pub open spec fn diff_elems(elems: Seq<ValueModel>, doc: ValueModel, p: Seq<char>) -> Map<
    Seq<char>,
    OperationModel,
>
    decreases elems, 1int,
{
    if elems.len() == 0 {
        Map::empty()
    } else {
        diff_elems(elems.subrange(0, elems.len() - 1), doc, p).union_prefer_right(
            diff_model(elems[elems.len() - 1], doc, appended_index(p, elems.len() - 1)),
        )
    }
}

/// The diffs of the entries of a `from` object below path `p`.
pub open spec fn diff_entries(
    entries: Seq<(Seq<char>, ValueModel)>,
    doc: ValueModel,
    p: Seq<char>,
) -> Map<Seq<char>, OperationModel>
    decreases entries, 1int,
{
    if entries.len() == 0 {
        Map::empty()
    } else {
        diff_entries(entries.subrange(0, entries.len() - 1), doc, p).union_prefer_right(
            diff_model(
                entries[entries.len() - 1].1,
                doc,
                appended_key(p, entries[entries.len() - 1].0),
            ),
        )
    }
}

/// The creates reported at an object node: if `doc` holds an object at
/// `p`, one create per key of it that `fentries` lacks; else nothing.
pub open spec fn creates_at(
    fentries: Seq<(Seq<char>, ValueModel)>,
    doc: ValueModel,
    p: Seq<char>,
) -> Map<Seq<char>, OperationModel> {
    match pointer_model(doc, p) {
        Some(c) => match c {
            ValueModel::Object(tentries) => creates_from(tentries, fentries, p),
            _ => Map::empty(),
        },
        _ => Map::empty(),
    }
}

/// One create at the escaped child path for each listed key absent from
/// `fentries`, carrying the whole subtree as its value.
pub open spec fn creates_from(
    tentries: Seq<(Seq<char>, ValueModel)>,
    fentries: Seq<(Seq<char>, ValueModel)>,
    p: Seq<char>,
) -> Map<Seq<char>, OperationModel>
    decreases tentries.len(),
{
    if tentries.len() == 0 {
        Map::empty()
    } else {
        let last = tentries[tentries.len() - 1];
        creates_from(tentries.subrange(0, tentries.len() - 1), fentries, p).union_prefer_right(
            if key_lookup(fentries, last.0) is Some {
                Map::empty()
            } else {
                Map::empty().insert(
                    appended_key(p, last.0),
                    OperationModel { op: OpType::Create, to: Some(last.1), from: None },
                )
            },
        )
    }
}

/// Joining maps one after another joins them in one go.
proof fn lemma_union_assoc<K, V>(a: Map<K, V>, b: Map<K, V>, c: Map<K, V>)
    ensures
        a.union_prefer_right(b).union_prefer_right(c) == a.union_prefer_right(
            b.union_prefer_right(c),
        ),
{
    assert(a.union_prefer_right(b).union_prefer_right(c) =~= a.union_prefer_right(
        b.union_prefer_right(c),
    ));
}

/// Joining nothing changes nothing.
proof fn lemma_union_empty<K, V>(a: Map<K, V>)
    ensures
        a.union_prefer_right(Map::empty()) == a,
{
    assert(a.union_prefer_right(Map::<K, V>::empty()) =~= a);
}

/// Writing one entry is joining a one-entry map.
proof fn lemma_insert_as_union<K, V>(a: Map<K, V>, k: K, v: V)
    ensures
        a.insert(k, v) == a.union_prefer_right(Map::empty().insert(k, v)),
{
    assert(a.insert(k, v) =~= a.union_prefer_right(Map::<K, V>::empty().insert(k, v)));
}

/// Diffing a document against itself reports nothing: the changeset of
/// `reconcile(v, v)` is empty for every well-formed value.
pub proof fn lemma_reconcile_self_empty(v: ValueModel)
    requires
        v.wf(),
    ensures
        diff_model(v, v, Seq::empty()) == Map::<Seq<char>, OperationModel>::empty(),
{
    assert(pointer_model(v, Seq::empty()) == Some(v));
    lemma_diff_at_resolved(v, v, Seq::empty());
}

/// A subtree standing unchanged at its own path produces no operations.
pub proof fn lemma_diff_at_resolved(elem: ValueModel, doc: ValueModel, p: Seq<char>)
    requires
        elem.wf(),
        pointer_model(doc, p) == Some(elem),
    ensures
        diff_model(elem, doc, p) == Map::<Seq<char>, OperationModel>::empty(),
    decreases elem, 0int,
{
    match elem {
        ValueModel::Array(elems) => {
            assert forall|i: int|
                0 <= i < elems.len() implies pointer_model(doc, appended_index(p, i)) == Some(
                #[trigger] elems[i],
            ) by {
                lemma_pointer_child_index(doc, p, i);
            }
            lemma_diff_elems_resolved(elems, doc, p);
        },
        ValueModel::Object(entries) => {
            assert forall|i: int|
                0 <= i < entries.len() implies pointer_model(
                doc,
                appended_key(p, (#[trigger] entries[i]).0),
            ) == Some(entries[i].1) by {
                lemma_pointer_child_key(doc, p, entries[i].0);
                assert(forall|m: int| 0 <= m < i ==> entries[m].0 != entries[i].0);
                lemma_key_lookup_at(entries, entries[i].0, i);
            }
            lemma_diff_entries_resolved(entries, doc, p);
            assert forall|i: int|
                0 <= i < entries.len() implies key_lookup(
                entries,
                (#[trigger] entries[i]).0,
            ) is Some by {
                lemma_key_lookup_some(entries, entries[i].0, i);
            }
            lemma_creates_none_when_present(entries, entries, p);
            assert(creates_at(entries, doc, p) == Map::<Seq<char>, OperationModel>::empty());
            lemma_union_empty(diff_entries(entries, doc, p));
        },
        _ => {
            assert(scalar_eq(elem, elem));
        },
    }
}

/// As [`lemma_diff_at_resolved`], for array positions all found in place.
proof fn lemma_diff_elems_resolved(elems: Seq<ValueModel>, doc: ValueModel, p: Seq<char>)
    requires
        forall|i: int| 0 <= i < elems.len() ==> (#[trigger] elems[i]).wf(),
        forall|i: int|
            0 <= i < elems.len() ==> pointer_model(doc, appended_index(p, i)) == Some(
                #[trigger] elems[i],
            ),
    ensures
        diff_elems(elems, doc, p) == Map::<Seq<char>, OperationModel>::empty(),
    decreases elems, 1int,
{
    if elems.len() > 0 {
        let pre = elems.subrange(0, elems.len() - 1);
        assert(forall|i: int| 0 <= i < pre.len() ==> pre[i] == #[trigger] elems[i]);
        lemma_diff_elems_resolved(pre, doc, p);
        lemma_diff_at_resolved(elems[elems.len() - 1], doc, appended_index(p, elems.len() - 1));
        lemma_union_empty(diff_elems(pre, doc, p));
    }
}

/// As [`lemma_diff_at_resolved`], for object entries all found in place.
proof fn lemma_diff_entries_resolved(
    entries: Seq<(Seq<char>, ValueModel)>,
    doc: ValueModel,
    p: Seq<char>,
)
    requires
        forall|i: int| 0 <= i < entries.len() ==> (#[trigger] entries[i]).1.wf(),
        forall|i: int|
            0 <= i < entries.len() ==> pointer_model(
                doc,
                appended_key(p, (#[trigger] entries[i]).0),
            ) == Some(entries[i].1),
    ensures
        diff_entries(entries, doc, p) == Map::<Seq<char>, OperationModel>::empty(),
    decreases entries, 1int,
{
    if entries.len() > 0 {
        let pre = entries.subrange(0, entries.len() - 1);
        assert(forall|i: int| 0 <= i < pre.len() ==> pre[i] == #[trigger] entries[i]);
        lemma_diff_entries_resolved(pre, doc, p);
        lemma_diff_at_resolved(
            entries[entries.len() - 1].1,
            doc,
            appended_key(p, entries[entries.len() - 1].0),
        );
        lemma_union_empty(diff_entries(pre, doc, p));
    }
}

/// No creates are reported where every key is already present.
proof fn lemma_creates_none_when_present(
    tentries: Seq<(Seq<char>, ValueModel)>,
    fentries: Seq<(Seq<char>, ValueModel)>,
    p: Seq<char>,
)
    requires
        forall|i: int|
            0 <= i < tentries.len() ==> key_lookup(fentries, (#[trigger] tentries[i]).0) is Some,
    ensures
        creates_from(tentries, fentries, p) == Map::<Seq<char>, OperationModel>::empty(),
    decreases tentries.len(),
{
    if tentries.len() > 0 {
        let pre = tentries.subrange(0, tentries.len() - 1);
        assert(forall|i: int| 0 <= i < pre.len() ==> pre[i] == #[trigger] tentries[i]);
        lemma_creates_none_when_present(pre, fentries, p);
        lemma_union_empty(creates_from(pre, fentries, p));
    }
}

/// Numeric comparison of the differ: a number whose path resolves in `to`
/// causes no operation exactly when the value found there is a number
/// denoting the same double; anything else found there, a text among it,
/// is an update at that very path.
pub proof fn lemma_update_numeric(a: u64, doc: ValueModel, p: Seq<char>, c: ValueModel)
    requires
        pointer_model(doc, p) == Some(c),
    ensures
        scalar_eq(ValueModel::Number(a), c) <==> (c matches ValueModel::Number(b) && num_eq(
            a,
            b,
        )),
        scalar_eq(ValueModel::Number(a), c) ==> diff_model(ValueModel::Number(a), doc, p)
            == Map::<Seq<char>, OperationModel>::empty(),
        !scalar_eq(ValueModel::Number(a), c) ==> diff_model(ValueModel::Number(a), doc, p)
            == Map::<Seq<char>, OperationModel>::empty().insert(
            p,
            OperationModel { op: OpType::Update, to: Some(c), from: Some(ValueModel::Number(a)) },
        ),
{
}

/// Every operation the differ reports is well formed: a create carries
/// only a `to` side, a delete only a `from` side, an update both.
pub proof fn lemma_diff_wf(elem: ValueModel, doc: ValueModel, p: Seq<char>)
    ensures
        forall|k: Seq<char>|
            diff_model(elem, doc, p).dom().contains(k) ==> (#[trigger] diff_model(
                elem,
                doc,
                p,
            )[k]).wf(),
    decreases elem, 0int,
{
    let whole = diff_model(elem, doc, p);
    match elem {
        ValueModel::Array(elems) => {
            lemma_diff_elems_wf(elems, doc, p);
            assert forall|k: Seq<char>|
                whole.dom().contains(k) implies (#[trigger] whole[k]).wf() by {
                assert(whole == diff_elems(elems, doc, p));
                assert(diff_elems(elems, doc, p)[k].wf());
            }
        },
        ValueModel::Object(entries) => {
            lemma_diff_entries_wf(entries, doc, p);
            let left = diff_entries(entries, doc, p);
            let right = creates_at(entries, doc, p);
            match pointer_model(doc, p) {
                Some(c) => match c {
                    ValueModel::Object(tentries) => {
                        lemma_creates_wf(tentries, entries, p);
                    },
                    _ => {},
                },
                _ => {},
            }
            assert forall|k: Seq<char>|
                whole.dom().contains(k) implies (#[trigger] whole[k]).wf() by {
                if right.dom().contains(k) {
                    assert(whole[k] == right[k]);
                } else {
                    assert(whole[k] == left[k]);
                }
            }
        },
        _ => {
            assert forall|k: Seq<char>|
                whole.dom().contains(k) implies (#[trigger] whole[k]).wf() by {
                assert(k == p);
            }
        },
    }
}

/// As [`lemma_diff_wf`], for the positions of an array.
proof fn lemma_diff_elems_wf(elems: Seq<ValueModel>, doc: ValueModel, p: Seq<char>)
    ensures
        forall|k: Seq<char>|
            diff_elems(elems, doc, p).dom().contains(k) ==> (#[trigger] diff_elems(
                elems,
                doc,
                p,
            )[k]).wf(),
    decreases elems, 1int,
{
    if elems.len() > 0 {
        lemma_diff_elems_wf(elems.subrange(0, elems.len() - 1), doc, p);
        lemma_diff_wf(elems[elems.len() - 1], doc, appended_index(p, elems.len() - 1));
        let whole = diff_elems(elems, doc, p);
        let left = diff_elems(elems.subrange(0, elems.len() - 1), doc, p);
        let right = diff_model(elems[elems.len() - 1], doc, appended_index(p, elems.len() - 1));
        assert forall|k: Seq<char>|
            whole.dom().contains(k) implies (#[trigger] whole[k]).wf() by {
            if right.dom().contains(k) {
                assert(whole[k] == right[k]);
            } else {
                assert(whole[k] == left[k]);
            }
        }
    }
}

/// As [`lemma_diff_wf`], for the entries of an object.
proof fn lemma_diff_entries_wf(
    entries: Seq<(Seq<char>, ValueModel)>,
    doc: ValueModel,
    p: Seq<char>,
)
    ensures
        forall|k: Seq<char>|
            diff_entries(entries, doc, p).dom().contains(k) ==> (#[trigger] diff_entries(
                entries,
                doc,
                p,
            )[k]).wf(),
    decreases entries, 1int,
{
    if entries.len() > 0 {
        lemma_diff_entries_wf(entries.subrange(0, entries.len() - 1), doc, p);
        lemma_diff_wf(
            entries[entries.len() - 1].1,
            doc,
            appended_key(p, entries[entries.len() - 1].0),
        );
        let whole = diff_entries(entries, doc, p);
        let left = diff_entries(entries.subrange(0, entries.len() - 1), doc, p);
        let right = diff_model(
            entries[entries.len() - 1].1,
            doc,
            appended_key(p, entries[entries.len() - 1].0),
        );
        assert forall|k: Seq<char>|
            whole.dom().contains(k) implies (#[trigger] whole[k]).wf() by {
            if right.dom().contains(k) {
                assert(whole[k] == right[k]);
            } else {
                assert(whole[k] == left[k]);
            }
        }
    }
}

/// As [`lemma_diff_wf`], for the creates of an object node.
proof fn lemma_creates_wf(
    tentries: Seq<(Seq<char>, ValueModel)>,
    fentries: Seq<(Seq<char>, ValueModel)>,
    p: Seq<char>,
)
    ensures
        forall|k: Seq<char>|
            creates_from(tentries, fentries, p).dom().contains(k) ==> (#[trigger] creates_from(
                tentries,
                fentries,
                p,
            )[k]).wf(),
    decreases tentries.len(),
{
    if tentries.len() > 0 {
        lemma_creates_wf(tentries.subrange(0, tentries.len() - 1), fentries, p);
        let last = tentries[tentries.len() - 1];
        let whole = creates_from(tentries, fentries, p);
        let left = creates_from(tentries.subrange(0, tentries.len() - 1), fentries, p);
        let right = if key_lookup(fentries, last.0) is Some {
            Map::<Seq<char>, OperationModel>::empty()
        } else {
            Map::<Seq<char>, OperationModel>::empty().insert(
                appended_key(p, last.0),
                OperationModel { op: OpType::Create, to: Some(last.1), from: None },
            )
        };
        assert forall|k: Seq<char>|
            whole.dom().contains(k) implies (#[trigger] whole[k]).wf() by {
            if right.dom().contains(k) {
                assert(whole[k] == right[k]);
            } else {
                assert(whole[k] == left[k]);
            }
        }
    }
}

/// Walks `elem`, the subtree standing at path `p` of the `from` tree, and
/// records in `changes` every difference against the `to` document `comp`.
pub fn recurse(elem: &Value, comp: &Value, p: &str, changes: &mut Changes)
    requires
        old(changes).wf(),
    ensures
        final(changes).wf(),
        final(changes)@ == old(changes)@.union_prefer_right(diff_model(elem@, comp@, p@)),
    decreases elem,
{
    match elem {
        Value::Array(elems) => {
            proof {
                lemma_models_of_elems(elems@);
            }
            let ghost melems = models_of_elems(elems@);
            let ghost base = changes@;
            let mut idx: usize = 0;
            proof {
                assert(melems.subrange(0, 0) =~= Seq::<ValueModel>::empty());
                lemma_union_empty(base);
            }
            while idx < elems.len()
                invariant
                    0 <= idx <= elems@.len(),
                    melems == models_of_elems(elems@),
                    melems.len() == elems@.len(),
                    forall|m: int| 0 <= m < elems@.len() ==> melems[m] == #[trigger] elems@[m]@,
                    *elem == Value::Array(*elems),
                    elem@ == ValueModel::Array(melems),
                    base == old(changes)@,
                    changes.wf(),
                    changes@ == base.union_prefer_right(
                        diff_elems(melems.subrange(0, idx as int), comp@, p@),
                    ),
                decreases elems@.len() - idx,
            {
                let child_path = append_index(p, idx);
                proof {
                    assert(decreases_to!(*elem => elem->Array_0));
                    assert(elem->Array_0 == *elems);
                    assert(decreases_to!(*elems => elems@));
                    assert(decreases_to!(elems@ => elems@[idx as int]));
                }
                let ghost before = changes@;
                recurse(&elems[idx], comp, child_path.as_str(), changes);
                proof {
                    let pre = melems.subrange(0, idx as int);
                    let nxt = melems.subrange(0, idx + 1);
                    assert(nxt.subrange(0, nxt.len() - 1) =~= pre);
                    assert(nxt[nxt.len() - 1] == melems[idx as int]);
                    assert(melems[idx as int] == elems@[idx as int]@);
                    assert(child_path@ == appended_index(p@, idx as int));
                    assert(diff_elems(nxt, comp@, p@) == diff_elems(pre, comp@, p@)
                        .union_prefer_right(
                        diff_model(melems[idx as int], comp@, appended_index(p@, idx as int)),
                    ));
                    lemma_union_assoc(
                        base,
                        diff_elems(pre, comp@, p@),
                        diff_model(melems[idx as int], comp@, appended_index(p@, idx as int)),
                    );
                    assert(changes@ == base.union_prefer_right(diff_elems(nxt, comp@, p@)));
                }
                idx = idx + 1;
            }
            proof {
                assert(melems.subrange(0, melems.len() as int) =~= melems);
                assert(diff_model(elem@, comp@, p@) == diff_elems(melems, comp@, p@));
            }
        },
        Value::Object(entries) => {
            proof {
                lemma_models_of_entries(entries@);
            }
            let ghost mentries = models_of_entries(entries@);
            let ghost base = changes@;
            let mut idx: usize = 0;
            proof {
                assert(mentries.subrange(0, 0) =~= Seq::<(Seq<char>, ValueModel)>::empty());
                lemma_union_empty(base);
            }
            while idx < entries.len()
                invariant
                    0 <= idx <= entries@.len(),
                    mentries == models_of_entries(entries@),
                    mentries.len() == entries@.len(),
                    forall|m: int|
                        0 <= m < entries@.len() ==> mentries[m] == (#[trigger] entries@[m].0@,
                        entries@[m].1@),
                    *elem == Value::Object(*entries),
                    elem@ == ValueModel::Object(mentries),
                    base == old(changes)@,
                    changes.wf(),
                    changes@ == base.union_prefer_right(
                        diff_entries(mentries.subrange(0, idx as int), comp@, p@),
                    ),
                decreases entries@.len() - idx,
            {
                let child_path = append_key(p, entries[idx].0.as_str());
                proof {
                    assert(decreases_to!(*elem => elem->Object_0));
                    assert(elem->Object_0 == *entries);
                    assert(decreases_to!(*entries => entries@));
                    assert(decreases_to!(entries@ => entries@[idx as int]));
                    assert(decreases_to!(entries@[idx as int] => entries@[idx as int].1));
                }
                recurse(&entries[idx].1, comp, child_path.as_str(), changes);
                proof {
                    let pre = mentries.subrange(0, idx as int);
                    let nxt = mentries.subrange(0, idx + 1);
                    assert(nxt.subrange(0, nxt.len() - 1) =~= pre);
                    assert(nxt[nxt.len() - 1] == mentries[idx as int]);
                    assert(mentries[idx as int] == (entries@[idx as int].0@,
                    entries@[idx as int].1@));
                    assert(child_path@ == appended_key(p@, entries@[idx as int].0@));
                    assert(diff_entries(nxt, comp@, p@) == diff_entries(pre, comp@, p@)
                        .union_prefer_right(
                        diff_model(
                            mentries[idx as int].1,
                            comp@,
                            appended_key(p@, mentries[idx as int].0),
                        ),
                    ));
                    lemma_union_assoc(
                        base,
                        diff_entries(pre, comp@, p@),
                        diff_model(
                            mentries[idx as int].1,
                            comp@,
                            appended_key(p@, mentries[idx as int].0),
                        ),
                    );
                    assert(changes@ == base.union_prefer_right(diff_entries(nxt, comp@, p@)));
                }
                idx = idx + 1;
            }
            proof {
                assert(mentries.subrange(0, mentries.len() as int) =~= mentries);
            }
            let ghost mid = changes@;
            let comp_at = comp.pointer(p);
            match comp_at {
                Some(cv) => {
                    match cv {
                        Value::Object(tentries) => {
                            proof {
                                lemma_models_of_entries(tentries@);
                            }
                            let ghost mt = models_of_entries(tentries@);
                            let mut j: usize = 0;
                            proof {
                                assert(mt.subrange(0, 0) =~= Seq::<
                                    (Seq<char>, ValueModel),
                                >::empty());
                                lemma_union_empty(mid);
                            }
                            while j < tentries.len()
                                invariant
                                    0 <= j <= tentries@.len(),
                                    mt == models_of_entries(tentries@),
                                    mt.len() == tentries@.len(),
                                    forall|m: int|
                                        0 <= m < tentries@.len() ==> mt[m] == (
                                        #[trigger] tentries@[m].0@,
                                        tentries@[m].1@,
                                        ),
                                    mentries == models_of_entries(entries@),
                                    *elem == Value::Object(*entries),
                                    elem@ == ValueModel::Object(mentries),
                                    pointer_model(comp@, p@) == Some(ValueModel::Object(mt)),
                                    mid == old(changes)@.union_prefer_right(
                                        diff_entries(mentries, comp@, p@),
                                    ),
                                    changes.wf(),
                                    changes@ == mid.union_prefer_right(
                                        creates_from(mt.subrange(0, j as int), mentries, p@),
                                    ),
                                decreases tentries@.len() - j,
                            {
                                let ghost pre = mt.subrange(0, j as int);
                                let ghost nxt = mt.subrange(0, j + 1);
                                proof {
                                    assert(nxt.subrange(0, nxt.len() - 1) =~= pre);
                                    assert(nxt[nxt.len() - 1] == mt[j as int]);
                                    assert(mt[j as int] == (tentries@[j as int].0@,
                                    tentries@[j as int].1@));
                                }
                                let present = object_has_key(entries, &tentries[j].0);
                                if !present {
                                    let cpath = append_key(p, tentries[j].0.as_str());
                                    let newv = tentries[j].1.clone();
                                    let op = Operation {
                                        op: OpType::Create,
                                        to: Some(newv),
                                        from: None,
                                    };
                                    proof {
                                        assert(op@ == (OperationModel {
                                            op: OpType::Create,
                                            to: Some(mt[j as int].1),
                                            from: None,
                                        }));
                                    }
                                    changes.insert(cpath, op);
                                    proof {
                                        assert(creates_from(nxt, mentries, p@) == creates_from(
                                            pre,
                                            mentries,
                                            p@,
                                        ).union_prefer_right(
                                            Map::empty().insert(
                                                appended_key(p@, mt[j as int].0),
                                                OperationModel {
                                                    op: OpType::Create,
                                                    to: Some(mt[j as int].1),
                                                    from: None,
                                                },
                                            ),
                                        ));
                                        lemma_insert_as_union(
                                            mid.union_prefer_right(
                                                creates_from(pre, mentries, p@),
                                            ),
                                            appended_key(p@, mt[j as int].0),
                                            OperationModel {
                                                op: OpType::Create,
                                                to: Some(mt[j as int].1),
                                                from: None,
                                            },
                                        );
                                        lemma_union_assoc(
                                            mid,
                                            creates_from(pre, mentries, p@),
                                            Map::empty().insert(
                                                appended_key(p@, mt[j as int].0),
                                                OperationModel {
                                                    op: OpType::Create,
                                                    to: Some(mt[j as int].1),
                                                    from: None,
                                                },
                                            ),
                                        );
                                        assert(changes@ == mid.union_prefer_right(
                                            creates_from(nxt, mentries, p@),
                                        ));
                                    }
                                } else {
                                    proof {
                                        assert(key_lookup(mentries, mt[j as int].0) is Some);
                                        assert(creates_from(nxt, mentries, p@) == creates_from(
                                            pre,
                                            mentries,
                                            p@,
                                        ).union_prefer_right(Map::empty()));
                                        lemma_union_empty(creates_from(pre, mentries, p@));
                                        assert(changes@ == mid.union_prefer_right(
                                            creates_from(nxt, mentries, p@),
                                        ));
                                    }
                                }
                                j = j + 1;
                            }
                            proof {
                                assert(mt.subrange(0, mt.len() as int) =~= mt);
                                assert(creates_at(mentries, comp@, p@) == creates_from(
                                    mt,
                                    mentries,
                                    p@,
                                ));
                                lemma_union_assoc(
                                    old(changes)@,
                                    diff_entries(mentries, comp@, p@),
                                    creates_at(mentries, comp@, p@),
                                );
                            }
                        },
                        _ => {
                            proof {
                                assert(creates_at(mentries, comp@, p@) =~= Map::<
                                    Seq<char>,
                                    OperationModel,
                                >::empty());
                                lemma_union_empty(diff_entries(mentries, comp@, p@));
                                lemma_union_empty(mid);
                                assert(diff_model(elem@, comp@, p@) == diff_entries(
                                    mentries,
                                    comp@,
                                    p@,
                                ).union_prefer_right(creates_at(mentries, comp@, p@)));
                            }
                        },
                    }
                },
                None => {
                    proof {
                        assert(creates_at(mentries, comp@, p@) =~= Map::<
                            Seq<char>,
                            OperationModel,
                        >::empty());
                        lemma_union_empty(diff_entries(mentries, comp@, p@));
                        lemma_union_empty(mid);
                        assert(diff_model(elem@, comp@, p@) == diff_entries(
                            mentries,
                            comp@,
                            p@,
                        ).union_prefer_right(creates_at(mentries, comp@, p@)));
                    }
                },
            }
        },
        _ => {
            let comp_at = comp.pointer(p);
            match comp_at {
                None => {
                    let op = Operation { op: OpType::Delete, to: None, from: Some(elem.clone()) };
                    proof {
                        assert(op@ == (OperationModel {
                            op: OpType::Delete,
                            to: None,
                            from: Some(elem@),
                        }));
                        lemma_insert_as_union(
                            changes@,
                            p@,
                            OperationModel { op: OpType::Delete, to: None, from: Some(elem@) },
                        );
                    }
                    changes.insert(String::from_str(p), op);
                },
                Some(c) => {
                    if scalar_equal(elem, c) {
                        proof {
                            lemma_union_empty(changes@);
                        }
                    } else {
                        let op = Operation {
                            op: OpType::Update,
                            to: Some(c.clone()),
                            from: Some(elem.clone()),
                        };
                        proof {
                            assert(op@ == (OperationModel {
                                op: OpType::Update,
                                to: Some(c@),
                                from: Some(elem@),
                            }));
                            lemma_insert_as_union(
                                changes@,
                                p@,
                                OperationModel {
                                    op: OpType::Update,
                                    to: Some(c@),
                                    from: Some(elem@),
                                },
                            );
                        }
                        changes.insert(String::from_str(p), op);
                    }
                },
            }
        },
    }
}

} // verus!
