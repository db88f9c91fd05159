//! Coverage laws of the differ: what one pass is guaranteed to report.

use vstd::prelude::*;

use crate::operation::OpType;
use crate::operation::OperationModel;
use crate::paths::appended_index;
use crate::paths::appended_key;
use crate::paths::dec_digits;
use crate::paths::escaped_key;
use crate::paths::lemma_below_parts;
use crate::paths::lemma_below_trans;
use crate::paths::lemma_dec_digits;
use crate::paths::lemma_escape_round_trip;
use crate::paths::lemma_escaped_key_no_slash;
use crate::paths::lemma_seg_tail_unique;
use crate::paths::path_below;
use crate::paths::seg_below;
use crate::recurse::creates_at;
use crate::recurse::creates_from;
use crate::recurse::diff_elems;
use crate::recurse::diff_entries;
use crate::recurse::diff_model;
use crate::value::key_lookup;
use crate::value::lemma_key_lookup_member;
use crate::value::lemma_key_lookup_some;
use crate::value::lemma_wf_pointer;
use crate::value::pointer_model;
use crate::value::ValueModel;

verus! {

/// Whether `q` is the path of the child named by segment `seg` below `p`,
/// or lies below that child.
pub open spec fn at_or_below_seg(q: Seq<char>, p: Seq<char>, seg: Seq<char>) -> bool {
    path_below(q, p) && seg_below(q, p) == seg
}

/// The scalar leaves of a value rooted at path `p`, each keyed by the
/// path at which the differ visits it.
pub open spec fn scalar_leaves(v: ValueModel, p: Seq<char>) -> Map<Seq<char>, ValueModel>
    decreases v, 0int,
{
    match v {
        ValueModel::Array(elems) => scalar_leaves_elems(elems, p),
        ValueModel::Object(entries) => scalar_leaves_entries(entries, p),
        _ => Map::empty().insert(p, v),
    }
}

/// The scalar leaves of an array's positions.
pub open spec fn scalar_leaves_elems(elems: Seq<ValueModel>, p: Seq<char>) -> Map<
    Seq<char>,
    ValueModel,
>
    decreases elems, 1int,
{
    if elems.len() == 0 {
        Map::empty()
    } else {
        scalar_leaves_elems(elems.subrange(0, elems.len() - 1), p).union_prefer_right(
            scalar_leaves(elems[elems.len() - 1], appended_index(p, elems.len() - 1)),
        )
    }
}

/// The scalar leaves of an object's entries.
pub open spec fn scalar_leaves_entries(entries: Seq<(Seq<char>, ValueModel)>, p: Seq<char>) -> Map<
    Seq<char>,
    ValueModel,
>
    decreases entries, 1int,
{
    if entries.len() == 0 {
        Map::empty()
    } else {
        scalar_leaves_entries(entries.subrange(0, entries.len() - 1), p).union_prefer_right(
            scalar_leaves(
                entries[entries.len() - 1].1,
                appended_key(p, entries[entries.len() - 1].0),
            ),
        )
    }
}

/// The numerals of two positions coincide only for the same position.
proof fn lemma_dec_digits_injective(i: int, j: int)
    requires
        0 <= i,
        0 <= j,
        dec_digits(i as nat) == dec_digits(j as nat),
    ensures
        i == j,
{
    lemma_dec_digits(i as nat);
    lemma_dec_digits(j as nat);
}

/// Two keys escape to the same segment only if they are the same key.
proof fn lemma_escaped_key_injective(a: Seq<char>, b: Seq<char>)
    requires
        escaped_key(a) == escaped_key(b),
    ensures
        a == b,
{
    lemma_escape_round_trip(a);
    lemma_escape_round_trip(b);
}

/// A child path or anything below it is tagged with the child's segment.
proof fn lemma_tag_child(q: Seq<char>, p: Seq<char>, s: Seq<char>)
    requires
        forall|i: int| 0 <= i < s.len() ==> s[i] != '/',
        q == p + seq!['/'] + s || path_below(q, p + seq!['/'] + s),
    ensures
        at_or_below_seg(q, p, s),
{
    let pc = p + seq!['/'] + s;
    if q == pc {
        assert(q =~= p + seq!['/'] + s + Seq::<char>::empty());
        lemma_below_parts(p, s, Seq::empty());
    } else {
        lemma_below_parts(p, s, Seq::empty());
        assert(pc =~= p + seq!['/'] + s + Seq::<char>::empty());
        assert(path_below(pc, p) && seg_below(pc, p) == s);
        lemma_below_trans(q, pc, p);
    }
}

/// Every path the differ writes for a node lies at or below the node.
pub proof fn lemma_diff_dom_below(elem: ValueModel, doc: ValueModel, p: Seq<char>)
    ensures
        forall|q: Seq<char>|
            #[trigger] diff_model(elem, doc, p).dom().contains(q) ==> q == p || path_below(q, p),
    decreases elem, 0int,
{
    match elem {
        ValueModel::Array(elems) => {
            lemma_diff_elems_dom(elems, doc, p);
            assert forall|q: Seq<char>|
                #[trigger] diff_model(elem, doc, p).dom().contains(q) implies q == p
                || path_below(q, p) by {
                assert(diff_elems(elems, doc, p).dom().contains(q));
                let i = choose|i: int|
                    0 <= i < elems.len() && #[trigger] at_or_below_seg(
                        q,
                        p,
                        dec_digits(i as nat),
                    );
            }
        },
        ValueModel::Object(entries) => {
            lemma_diff_entries_dom(entries, doc, p);
            lemma_creates_dom_shape(entries, doc, p);
            assert forall|q: Seq<char>|
                #[trigger] diff_model(elem, doc, p).dom().contains(q) implies q == p
                || path_below(q, p) by {
                if creates_at(entries, doc, p).dom().contains(q) {
                } else {
                    assert(diff_entries(entries, doc, p).dom().contains(q));
                    let i = choose|i: int|
                        0 <= i < entries.len() && #[trigger] at_or_below_seg(
                            q,
                            p,
                            escaped_key(entries[i].0),
                        );
                }
            }
        },
        _ => {},
    }
}

/// Each path the differ writes for an array is tagged with the position
/// it came from.
pub proof fn lemma_diff_elems_dom(elems: Seq<ValueModel>, doc: ValueModel, p: Seq<char>)
    ensures
        forall|q: Seq<char>|
            #[trigger] diff_elems(elems, doc, p).dom().contains(q) ==> exists|i: int|
                0 <= i < elems.len() && #[trigger] at_or_below_seg(q, p, dec_digits(i as nat)),
    decreases elems, 1int,
{
    if elems.len() > 0 {
        let pre = elems.subrange(0, elems.len() - 1);
        lemma_diff_elems_dom(pre, doc, p);
        let last = elems.len() - 1;
        let pc = appended_index(p, last);
        lemma_diff_dom_below(elems[last], doc, pc);
        lemma_dec_digits(last as nat);
        assert forall|q: Seq<char>|
            #[trigger] diff_elems(elems, doc, p).dom().contains(q) implies exists|i: int|
            0 <= i < elems.len() && #[trigger] at_or_below_seg(
                q,
                p,
                dec_digits(i as nat),
            ) by {
            if diff_model(elems[last], doc, pc).dom().contains(q) {
                assert(q == pc || path_below(q, pc));
                lemma_tag_child(q, p, dec_digits(last as nat));
                assert(at_or_below_seg(q, p, dec_digits(last as nat)));
            } else {
                assert(diff_elems(pre, doc, p).dom().contains(q));
                let i = choose|i: int|
                    0 <= i < pre.len() && #[trigger] at_or_below_seg(
                        q,
                        p,
                        dec_digits(i as nat),
                    );
                assert(at_or_below_seg(q, p, dec_digits(i as nat)));
            }
        }
    }
}

/// Each path the differ writes for an object's entries is tagged with the
/// escaped key it came from.
pub proof fn lemma_diff_entries_dom(
    entries: Seq<(Seq<char>, ValueModel)>,
    doc: ValueModel,
    p: Seq<char>,
)
    ensures
        forall|q: Seq<char>|
            #[trigger] diff_entries(entries, doc, p).dom().contains(q) ==> exists|i: int|
                0 <= i < entries.len() && #[trigger] at_or_below_seg(
                    q,
                    p,
                    escaped_key(entries[i].0),
                ),
    decreases entries, 1int,
{
    if entries.len() > 0 {
        let pre = entries.subrange(0, entries.len() - 1);
        lemma_diff_entries_dom(pre, doc, p);
        let last = entries.len() - 1;
        let pc = appended_key(p, entries[last].0);
        lemma_diff_dom_below(entries[last].1, doc, pc);
        lemma_escaped_key_no_slash(entries[last].0);
        assert forall|q: Seq<char>|
            #[trigger] diff_entries(entries, doc, p).dom().contains(q) implies exists|i: int|
            0 <= i < entries.len() && #[trigger] at_or_below_seg(
                q,
                p,
                escaped_key(entries[i].0),
            ) by {
            if diff_model(entries[last].1, doc, pc).dom().contains(q) {
                assert(q == pc || path_below(q, pc));
                lemma_tag_child(q, p, escaped_key(entries[last].0));
                assert(at_or_below_seg(q, p, escaped_key(entries[last].0)));
            } else {
                assert(diff_entries(pre, doc, p).dom().contains(q));
                let i = choose|i: int|
                    0 <= i < pre.len() && #[trigger] at_or_below_seg(
                        q,
                        p,
                        escaped_key(pre[i].0),
                    );
                assert(pre[i] == entries[i]);
                assert(at_or_below_seg(q, p, escaped_key(entries[i].0)));
            }
        }
    }
}

/// Every create the differ writes sits at the escaped path of a key that
/// the `from` object lacks.
pub proof fn lemma_creates_dom(
    tentries: Seq<(Seq<char>, ValueModel)>,
    fentries: Seq<(Seq<char>, ValueModel)>,
    p: Seq<char>,
)
    ensures
        forall|q: Seq<char>|
            #[trigger] creates_from(tentries, fentries, p).dom().contains(q) ==> exists|i: int|
                0 <= i < tentries.len() && q == appended_key(p, (#[trigger] tentries[i]).0)
                    && key_lookup(fentries, tentries[i].0) is None,
    decreases tentries.len(),
{
    if tentries.len() > 0 {
        let pre = tentries.subrange(0, tentries.len() - 1);
        lemma_creates_dom(pre, fentries, p);
        let last = tentries.len() - 1;
        assert forall|q: Seq<char>|
            #[trigger] creates_from(tentries, fentries, p).dom().contains(q) implies exists|
            i: int,
        |
            0 <= i < tentries.len() && q == appended_key(p, (#[trigger] tentries[i]).0)
                && key_lookup(fentries, tentries[i].0) is None by {
            let right = if key_lookup(fentries, tentries[last].0) is Some {
                Map::<Seq<char>, OperationModel>::empty()
            } else {
                Map::<Seq<char>, OperationModel>::empty().insert(
                    appended_key(p, tentries[last].0),
                    OperationModel {
                        op: OpType::Create,
                        to: Some(tentries[last].1),
                        from: None,
                    },
                )
            };
            if right.dom().contains(q) {
                assert(q == appended_key(p, tentries[last].0));
            } else {
                assert(creates_from(pre, fentries, p).dom().contains(q));
                let i = choose|i: int|
                    0 <= i < pre.len() && q == appended_key(p, (#[trigger] pre[i]).0)
                        && key_lookup(fentries, pre[i].0) is None;
                assert(pre[i] == tentries[i]);
            }
        }
    }
}

/// The creates of a node all lie below it.
proof fn lemma_creates_dom_shape(
    entries: Seq<(Seq<char>, ValueModel)>,
    doc: ValueModel,
    p: Seq<char>,
)
    ensures
        forall|q: Seq<char>|
            #[trigger] creates_at(entries, doc, p).dom().contains(q) ==> path_below(q, p),
{
    match pointer_model(doc, p) {
        Some(c) => match c {
            ValueModel::Object(tentries) => {
                lemma_creates_dom(tentries, entries, p);
                assert forall|q: Seq<char>|
                    #[trigger] creates_at(entries, doc, p).dom().contains(q) implies path_below(
                    q,
                    p,
                ) by {
                    let i = choose|i: int|
                        0 <= i < tentries.len() && q == appended_key(
                            p,
                            (#[trigger] tentries[i]).0,
                        ) && key_lookup(entries, tentries[i].0) is None;
                    lemma_escaped_key_no_slash(tentries[i].0);
                    lemma_tag_child(q, p, escaped_key(tentries[i].0));
                }
            },
            _ => {},
        },
        _ => {},
    }
}

/// Every scalar leaf lies at or below the value's own path.
pub proof fn lemma_leaves_dom_below(v: ValueModel, p: Seq<char>)
    ensures
        forall|q: Seq<char>|
            #[trigger] scalar_leaves(v, p).dom().contains(q) ==> q == p || path_below(q, p),
    decreases v, 0int,
{
    match v {
        ValueModel::Array(elems) => {
            lemma_leaves_elems_dom(elems, p);
            assert forall|q: Seq<char>|
                #[trigger] scalar_leaves(v, p).dom().contains(q) implies q == p || path_below(
                q,
                p,
            ) by {
                assert(scalar_leaves_elems(elems, p).dom().contains(q));
                let i = choose|i: int|
                    0 <= i < elems.len() && #[trigger] at_or_below_seg(
                        q,
                        p,
                        dec_digits(i as nat),
                    );
            }
        },
        ValueModel::Object(entries) => {
            lemma_leaves_entries_dom(entries, p);
            assert forall|q: Seq<char>|
                #[trigger] scalar_leaves(v, p).dom().contains(q) implies q == p || path_below(
                q,
                p,
            ) by {
                assert(scalar_leaves_entries(entries, p).dom().contains(q));
                let i = choose|i: int|
                    0 <= i < entries.len() && #[trigger] at_or_below_seg(
                        q,
                        p,
                        escaped_key(entries[i].0),
                    );
            }
        },
        _ => {},
    }
}

/// Each scalar leaf of an array is tagged with the position it sits under.
pub proof fn lemma_leaves_elems_dom(elems: Seq<ValueModel>, p: Seq<char>)
    ensures
        forall|q: Seq<char>|
            #[trigger] scalar_leaves_elems(elems, p).dom().contains(q) ==> exists|i: int|
                0 <= i < elems.len() && #[trigger] at_or_below_seg(q, p, dec_digits(i as nat)),
    decreases elems, 1int,
{
    if elems.len() > 0 {
        let pre = elems.subrange(0, elems.len() - 1);
        lemma_leaves_elems_dom(pre, p);
        let last = elems.len() - 1;
        let pc = appended_index(p, last);
        lemma_leaves_dom_below(elems[last], pc);
        lemma_dec_digits(last as nat);
        assert forall|q: Seq<char>|
            #[trigger] scalar_leaves_elems(elems, p).dom().contains(q) implies exists|i: int|
            0 <= i < elems.len() && #[trigger] at_or_below_seg(
                q,
                p,
                dec_digits(i as nat),
            ) by {
            if scalar_leaves(elems[last], pc).dom().contains(q) {
                lemma_tag_child(q, p, dec_digits(last as nat));
                assert(at_or_below_seg(q, p, dec_digits(last as nat)));
            } else {
                assert(scalar_leaves_elems(pre, p).dom().contains(q));
                let i = choose|i: int|
                    0 <= i < pre.len() && #[trigger] at_or_below_seg(
                        q,
                        p,
                        dec_digits(i as nat),
                    );
                assert(at_or_below_seg(q, p, dec_digits(i as nat)));
            }
        }
    }
}

/// Each scalar leaf of an object is tagged with the escaped key it sits
/// under.
pub proof fn lemma_leaves_entries_dom(entries: Seq<(Seq<char>, ValueModel)>, p: Seq<char>)
    ensures
        forall|q: Seq<char>|
            #[trigger] scalar_leaves_entries(entries, p).dom().contains(q) ==> exists|i: int|
                0 <= i < entries.len() && #[trigger] at_or_below_seg(
                    q,
                    p,
                    escaped_key(entries[i].0),
                ),
    decreases entries, 1int,
{
    if entries.len() > 0 {
        let pre = entries.subrange(0, entries.len() - 1);
        lemma_leaves_entries_dom(pre, p);
        let last = entries.len() - 1;
        let pc = appended_key(p, entries[last].0);
        lemma_leaves_dom_below(entries[last].1, pc);
        lemma_escaped_key_no_slash(entries[last].0);
        assert forall|q: Seq<char>|
            #[trigger] scalar_leaves_entries(entries, p).dom().contains(q) implies exists|i: int|
            0 <= i < entries.len() && #[trigger] at_or_below_seg(
                q,
                p,
                escaped_key(entries[i].0),
            ) by {
            if scalar_leaves(entries[last].1, pc).dom().contains(q) {
                lemma_tag_child(q, p, escaped_key(entries[last].0));
                assert(at_or_below_seg(q, p, escaped_key(entries[last].0)));
            } else {
                assert(scalar_leaves_entries(pre, p).dom().contains(q));
                let i = choose|i: int|
                    0 <= i < pre.len() && #[trigger] at_or_below_seg(
                        q,
                        p,
                        escaped_key(pre[i].0),
                    );
                assert(pre[i] == entries[i]);
                assert(at_or_below_seg(q, p, escaped_key(entries[i].0)));
            }
        }
    }
}

/// Delete coverage: a scalar leaf of `from` whose path resolves to
/// nothing in `to` gets exactly one delete, carrying the original value.
pub proof fn lemma_delete_coverage(from: ValueModel, to: ValueModel, q: Seq<char>)
    requires
        from.wf(),
        scalar_leaves(from, Seq::empty()).dom().contains(q),
        pointer_model(to, q) is None,
    ensures
        diff_model(from, to, Seq::empty()).dom().contains(q),
        diff_model(from, to, Seq::empty())[q] == (OperationModel {
            op: OpType::Delete,
            to: None,
            from: Some(scalar_leaves(from, Seq::empty())[q]),
        }),
{
    lemma_delete_at(from, to, Seq::empty(), q);
}

/// As [`lemma_delete_coverage`], below any node of the walk.
proof fn lemma_delete_at(elem: ValueModel, doc: ValueModel, p: Seq<char>, q: Seq<char>)
    requires
        elem.wf(),
        scalar_leaves(elem, p).dom().contains(q),
        pointer_model(doc, q) is None,
    ensures
        diff_model(elem, doc, p).dom().contains(q),
        diff_model(elem, doc, p)[q] == (OperationModel {
            op: OpType::Delete,
            to: None,
            from: Some(scalar_leaves(elem, p)[q]),
        }),
    decreases elem, 0int,
{
    match elem {
        ValueModel::Array(elems) => {
            lemma_delete_elems(elems, doc, p, q);
        },
        ValueModel::Object(entries) => {
            lemma_delete_entries(entries, doc, p, q);
            // The node's creates cannot claim a leaf's path: a create path
            // is the path of a key absent from the object, a leaf path
            // lies under a key present in it.
            lemma_leaves_entries_dom(entries, p);
            let i = choose|i: int|
                0 <= i < entries.len() && #[trigger] at_or_below_seg(
                    q,
                    p,
                    escaped_key(entries[i].0),
                );
            if creates_at(entries, doc, p).dom().contains(q) {
                lemma_creates_at_dom_key(entries, doc, p, q);
                let k2 = choose|k2: Seq<char>|
                    q == appended_key(p, k2) && (#[trigger] key_lookup(entries, k2)) is None;
                lemma_escaped_key_no_slash(k2);
                assert(q =~= p + seq!['/'] + escaped_key(k2) + Seq::<char>::empty());
                lemma_below_parts(p, escaped_key(k2), Seq::empty());
                assert(seg_below(q, p) == escaped_key(k2));
                lemma_escaped_key_injective(k2, entries[i].0);
                lemma_key_lookup_some(entries, entries[i].0, i);
                assert(false);
            }
        },
        _ => {
            assert(scalar_leaves(elem, p) == Map::<Seq<char>, ValueModel>::empty().insert(
                p,
                elem,
            ));
            assert(q == p);
        },
    }
}

/// The creates of a node sit at the escaped paths of keys the node lacks.
proof fn lemma_creates_at_dom_key(
    entries: Seq<(Seq<char>, ValueModel)>,
    doc: ValueModel,
    p: Seq<char>,
    q: Seq<char>,
)
    requires
        creates_at(entries, doc, p).dom().contains(q),
    ensures
        exists|k2: Seq<char>|
            q == appended_key(p, k2) && (#[trigger] key_lookup(entries, k2)) is None,
{
    match pointer_model(doc, p) {
        Some(c) => match c {
            ValueModel::Object(tentries) => {
                lemma_creates_dom(tentries, entries, p);
                let i = choose|i: int|
                    0 <= i < tentries.len() && q == appended_key(p, (#[trigger] tentries[i]).0)
                        && key_lookup(entries, tentries[i].0) is None;
                let k2 = tentries[i].0;
                assert(q == appended_key(p, k2) && key_lookup(entries, k2) is None);
            },
            _ => {},
        },
        _ => {},
    }
}

/// As [`lemma_delete_at`], across the positions of an array.
proof fn lemma_delete_elems(elems: Seq<ValueModel>, doc: ValueModel, p: Seq<char>, q: Seq<char>)
    requires
        forall|i: int| 0 <= i < elems.len() ==> (#[trigger] elems[i]).wf(),
        scalar_leaves_elems(elems, p).dom().contains(q),
        pointer_model(doc, q) is None,
    ensures
        diff_elems(elems, doc, p).dom().contains(q),
        diff_elems(elems, doc, p)[q] == (OperationModel {
            op: OpType::Delete,
            to: None,
            from: Some(scalar_leaves_elems(elems, p)[q]),
        }),
    decreases elems, 1int,
{
    let last = elems.len() - 1;
    let pre = elems.subrange(0, last);
    let pc = appended_index(p, last);
    let lc = scalar_leaves(elems[last], pc);
    let dc = diff_model(elems[last], doc, pc);
    assert(forall|i: int| 0 <= i < pre.len() ==> pre[i] == #[trigger] elems[i]);
    lemma_dec_digits(last as nat);
    if lc.dom().contains(q) {
        lemma_delete_at(elems[last], doc, pc, q);
        assert(diff_elems(elems, doc, p)[q] == dc[q]);
        assert(scalar_leaves_elems(elems, p)[q] == lc[q]);
    } else {
        assert(scalar_leaves_elems(pre, p).dom().contains(q));
        lemma_delete_elems(pre, doc, p, q);
        // The last position's diff cannot claim this path: the leaf lies
        // under an earlier position's numeral.
        lemma_leaves_elems_dom(pre, p);
        let i = choose|i: int|
            0 <= i < pre.len() && #[trigger] at_or_below_seg(q, p, dec_digits(i as nat));
        if dc.dom().contains(q) {
            lemma_diff_dom_below(elems[last], doc, pc);
            lemma_tag_child(q, p, dec_digits(last as nat));
            lemma_dec_digits_injective(i, last);
            assert(false);
        }
        assert(diff_elems(elems, doc, p)[q] == diff_elems(pre, doc, p)[q]);
        assert(scalar_leaves_elems(elems, p)[q] == scalar_leaves_elems(pre, p)[q]);
    }
}

/// As [`lemma_delete_at`], across the entries of an object.
proof fn lemma_delete_entries(
    entries: Seq<(Seq<char>, ValueModel)>,
    doc: ValueModel,
    p: Seq<char>,
    q: Seq<char>,
)
    requires
        forall|i: int| 0 <= i < entries.len() ==> (#[trigger] entries[i]).1.wf(),
        forall|i: int, j: int| 0 <= i < j < entries.len() ==> entries[i].0 != entries[j].0,
        scalar_leaves_entries(entries, p).dom().contains(q),
        pointer_model(doc, q) is None,
    ensures
        diff_entries(entries, doc, p).dom().contains(q),
        diff_entries(entries, doc, p)[q] == (OperationModel {
            op: OpType::Delete,
            to: None,
            from: Some(scalar_leaves_entries(entries, p)[q]),
        }),
    decreases entries, 1int,
{
    let last = entries.len() - 1;
    let pre = entries.subrange(0, last);
    let pc = appended_key(p, entries[last].0);
    let lc = scalar_leaves(entries[last].1, pc);
    let dc = diff_model(entries[last].1, doc, pc);
    assert(forall|i: int| 0 <= i < pre.len() ==> pre[i] == #[trigger] entries[i]);
    lemma_escaped_key_no_slash(entries[last].0);
    if lc.dom().contains(q) {
        lemma_delete_at(entries[last].1, doc, pc, q);
        assert(diff_entries(entries, doc, p)[q] == dc[q]);
        assert(scalar_leaves_entries(entries, p)[q] == lc[q]);
    } else {
        assert(scalar_leaves_entries(pre, p).dom().contains(q));
        lemma_delete_entries(pre, doc, p, q);
        lemma_leaves_entries_dom(pre, p);
        let i = choose|i: int|
            0 <= i < pre.len() && #[trigger] at_or_below_seg(q, p, escaped_key(pre[i].0));
        if dc.dom().contains(q) {
            lemma_diff_dom_below(entries[last].1, doc, pc);
            lemma_tag_child(q, p, escaped_key(entries[last].0));
            lemma_escaped_key_injective(pre[i].0, entries[last].0);
            assert(entries[i].0 == entries[last].0);
            assert(false);
        }
        assert(diff_entries(entries, doc, p)[q] == diff_entries(pre, doc, p)[q]);
        assert(scalar_leaves_entries(entries, p)[q] == scalar_leaves_entries(pre, p)[q]);
    }
}

/// The object positions of a value rooted at `p`: each canonical path the
/// walk visits that holds an object, mapped to that object's entries.
pub open spec fn object_nodes(v: ValueModel, p: Seq<char>) -> Map<
    Seq<char>,
    Seq<(Seq<char>, ValueModel)>,
>
    decreases v, 0int,
{
    match v {
        ValueModel::Array(elems) => object_nodes_elems(elems, p),
        ValueModel::Object(entries) => object_nodes_entries(entries, p).union_prefer_right(
            Map::empty().insert(p, entries),
        ),
        _ => Map::empty(),
    }
}

/// The object positions under an array's positions.
pub open spec fn object_nodes_elems(elems: Seq<ValueModel>, p: Seq<char>) -> Map<
    Seq<char>,
    Seq<(Seq<char>, ValueModel)>,
>
    decreases elems, 1int,
{
    if elems.len() == 0 {
        Map::empty()
    } else {
        object_nodes_elems(elems.subrange(0, elems.len() - 1), p).union_prefer_right(
            object_nodes(elems[elems.len() - 1], appended_index(p, elems.len() - 1)),
        )
    }
}

/// The object positions under an object's entries.
pub open spec fn object_nodes_entries(entries: Seq<(Seq<char>, ValueModel)>, p: Seq<char>) -> Map<
    Seq<char>,
    Seq<(Seq<char>, ValueModel)>,
>
    decreases entries, 1int,
{
    if entries.len() == 0 {
        Map::empty()
    } else {
        object_nodes_entries(entries.subrange(0, entries.len() - 1), p).union_prefer_right(
            object_nodes(
                entries[entries.len() - 1].1,
                appended_key(p, entries[entries.len() - 1].0),
            ),
        )
    }
}

/// Every object position lies at or below the value's own path.
pub proof fn lemma_nodes_dom_below(v: ValueModel, p: Seq<char>)
    ensures
        forall|q: Seq<char>|
            #[trigger] object_nodes(v, p).dom().contains(q) ==> q == p || path_below(q, p),
    decreases v, 0int,
{
    match v {
        ValueModel::Array(elems) => {
            lemma_nodes_elems_dom(elems, p);
            assert forall|q: Seq<char>|
                #[trigger] object_nodes(v, p).dom().contains(q) implies q == p || path_below(
                q,
                p,
            ) by {
                assert(object_nodes_elems(elems, p).dom().contains(q));
                let i = choose|i: int|
                    0 <= i < elems.len() && #[trigger] at_or_below_seg(
                        q,
                        p,
                        dec_digits(i as nat),
                    );
            }
        },
        ValueModel::Object(entries) => {
            lemma_nodes_entries_dom(entries, p);
            assert forall|q: Seq<char>|
                #[trigger] object_nodes(v, p).dom().contains(q) implies q == p || path_below(
                q,
                p,
            ) by {
                if q != p {
                    assert(object_nodes_entries(entries, p).dom().contains(q));
                    let i = choose|i: int|
                        0 <= i < entries.len() && #[trigger] at_or_below_seg(
                            q,
                            p,
                            escaped_key(entries[i].0),
                        );
                }
            }
        },
        _ => {},
    }
}

/// Each object position under an array is tagged with its position's
/// numeral.
pub proof fn lemma_nodes_elems_dom(elems: Seq<ValueModel>, p: Seq<char>)
    ensures
        forall|q: Seq<char>|
            #[trigger] object_nodes_elems(elems, p).dom().contains(q) ==> exists|i: int|
                0 <= i < elems.len() && #[trigger] at_or_below_seg(q, p, dec_digits(i as nat)),
    decreases elems, 1int,
{
    if elems.len() > 0 {
        let pre = elems.subrange(0, elems.len() - 1);
        lemma_nodes_elems_dom(pre, p);
        let last = elems.len() - 1;
        let pc = appended_index(p, last);
        lemma_nodes_dom_below(elems[last], pc);
        lemma_dec_digits(last as nat);
        assert forall|q: Seq<char>|
            #[trigger] object_nodes_elems(elems, p).dom().contains(q) implies exists|i: int|
            0 <= i < elems.len() && #[trigger] at_or_below_seg(
                q,
                p,
                dec_digits(i as nat),
            ) by {
            if object_nodes(elems[last], pc).dom().contains(q) {
                lemma_tag_child(q, p, dec_digits(last as nat));
                assert(at_or_below_seg(q, p, dec_digits(last as nat)));
            } else {
                assert(object_nodes_elems(pre, p).dom().contains(q));
                let i = choose|i: int|
                    0 <= i < pre.len() && #[trigger] at_or_below_seg(
                        q,
                        p,
                        dec_digits(i as nat),
                    );
                assert(at_or_below_seg(q, p, dec_digits(i as nat)));
            }
        }
    }
}

/// Each object position under an object's entries is tagged with its
/// entry's escaped key.
pub proof fn lemma_nodes_entries_dom(entries: Seq<(Seq<char>, ValueModel)>, p: Seq<char>)
    ensures
        forall|q: Seq<char>|
            #[trigger] object_nodes_entries(entries, p).dom().contains(q) ==> exists|i: int|
                0 <= i < entries.len() && #[trigger] at_or_below_seg(
                    q,
                    p,
                    escaped_key(entries[i].0),
                ),
    decreases entries, 1int,
{
    if entries.len() > 0 {
        let pre = entries.subrange(0, entries.len() - 1);
        lemma_nodes_entries_dom(pre, p);
        let last = entries.len() - 1;
        let pc = appended_key(p, entries[last].0);
        lemma_nodes_dom_below(entries[last].1, pc);
        lemma_escaped_key_no_slash(entries[last].0);
        assert forall|q: Seq<char>|
            #[trigger] object_nodes_entries(entries, p).dom().contains(q) implies exists|i: int|
            0 <= i < entries.len() && #[trigger] at_or_below_seg(
                q,
                p,
                escaped_key(entries[i].0),
            ) by {
            if object_nodes(entries[last].1, pc).dom().contains(q) {
                lemma_tag_child(q, p, escaped_key(entries[last].0));
                assert(at_or_below_seg(q, p, escaped_key(entries[last].0)));
            } else {
                assert(object_nodes_entries(pre, p).dom().contains(q));
                let i = choose|i: int|
                    0 <= i < pre.len() && #[trigger] at_or_below_seg(
                        q,
                        p,
                        escaped_key(pre[i].0),
                    );
                assert(pre[i] == entries[i]);
                assert(at_or_below_seg(q, p, escaped_key(entries[i].0)));
            }
        }
    }
}

/// A key not carried by the last entry looks up the same without it.
proof fn lemma_key_lookup_drop_last(s: Seq<(Seq<char>, ValueModel)>, k: Seq<char>)
    requires
        s.len() > 0,
        s[s.len() - 1].0 != k,
    ensures
        key_lookup(s, k) == key_lookup(s.subrange(0, s.len() - 1), k),
    decreases s.len(),
{
    let pre = s.subrange(0, s.len() - 1);
    if s.len() == 1 {
        assert(pre =~= Seq::<(Seq<char>, ValueModel)>::empty());
    } else if s[0].0 != k {
        let rest = s.drop_first();
        assert(forall|i: int| 0 <= i < rest.len() ==> rest[i] == #[trigger] s[i + 1]);
        assert(rest[rest.len() - 1] == s[s.len() - 1]);
        lemma_key_lookup_drop_last(rest, k);
        assert(pre.drop_first() =~= rest.subrange(0, rest.len() - 1));
        assert(pre[0] == s[0]);
        assert(key_lookup(s, k) == key_lookup(rest, k));
        assert(key_lookup(pre, k) == key_lookup(pre.drop_first(), k));
    } else {
        assert(pre[0] == s[0]);
    }
}

/// Two keys appended below the same path give the same member path only
/// if they are the same key.
proof fn lemma_appended_key_injective(p: Seq<char>, a: Seq<char>, b: Seq<char>)
    requires
        appended_key(p, a) == appended_key(p, b),
    ensures
        a == b,
{
    let qa = appended_key(p, a);
    assert(qa.len() == p.len() + 1 + escaped_key(a).len());
    assert(appended_key(p, b).len() == p.len() + 1 + escaped_key(b).len());
    assert(escaped_key(a).len() == escaped_key(b).len());
    assert forall|i: int|
        0 <= i < escaped_key(a).len() implies escaped_key(a)[i] == escaped_key(b)[i] by {
        assert(qa[p.len() + 1 + i] == escaped_key(a)[i]);
        assert(appended_key(p, b)[p.len() + 1 + i] == escaped_key(b)[i]);
    }
    assert(escaped_key(a) =~= escaped_key(b));
    lemma_escaped_key_injective(a, b);
}

/// The create reported for an absent key carries the key's whole subtree
/// in the `to` object.
proof fn lemma_creates_has(
    tentries: Seq<(Seq<char>, ValueModel)>,
    fentries: Seq<(Seq<char>, ValueModel)>,
    p: Seq<char>,
    k: Seq<char>,
    w: ValueModel,
)
    requires
        forall|a: int, b: int| 0 <= a < b < tentries.len() ==> tentries[a].0 != tentries[b].0,
        key_lookup(tentries, k) == Some(w),
        key_lookup(fentries, k) is None,
    ensures
        creates_from(tentries, fentries, p).dom().contains(appended_key(p, k)),
        creates_from(tentries, fentries, p)[appended_key(p, k)] == (OperationModel {
            op: OpType::Create,
            to: Some(w),
            from: None,
        }),
    decreases tentries.len(),
{
    lemma_key_lookup_member(tentries, k);
    let c = appended_key(p, k);
    let last = tentries.len() - 1;
    let pre = tentries.subrange(0, last);
    assert(forall|i: int| 0 <= i < pre.len() ==> pre[i] == #[trigger] tentries[i]);
    if tentries[last].0 == k {
        let i = choose|i: int|
            0 <= i < tentries.len() && #[trigger] tentries[i] == (k, w);
        assert(i == last);
        assert(tentries[last].1 == w);
        assert(creates_from(tentries, fentries, p)[c] == (OperationModel {
            op: OpType::Create,
            to: Some(w),
            from: None,
        }));
    } else {
        lemma_key_lookup_drop_last(tentries, k);
        assert forall|a: int, b: int|
            0 <= a < b < pre.len() implies pre[a].0 != pre[b].0 by {
            assert(pre[a] == tentries[a] && pre[b] == tentries[b]);
        }
        lemma_creates_has(pre, fentries, p, k, w);
        if appended_key(p, tentries[last].0) == c {
            lemma_appended_key_injective(p, tentries[last].0, k);
            assert(false);
        }
        assert(creates_from(tentries, fentries, p)[c] == creates_from(pre, fentries, p)[c]);
    }
}

/// Create coverage: a key of `to`'s object at a visited path `q`, absent
/// from `from`'s object there, gets exactly one create at its escaped
/// member path, carrying the whole subtree, and the changeset holds
/// nothing below that path.
pub proof fn lemma_create_coverage(
    from: ValueModel,
    to: ValueModel,
    q: Seq<char>,
    k: Seq<char>,
    w: ValueModel,
)
    requires
        from.wf(),
        to.wf(),
        object_nodes(from, Seq::empty()).dom().contains(q),
        key_lookup(object_nodes(from, Seq::empty())[q], k) is None,
        match pointer_model(to, q) {
            Some(c) => match c {
                ValueModel::Object(tentries) => key_lookup(tentries, k) == Some(w),
                _ => false,
            },
            None => false,
        },
    ensures
        diff_model(from, to, Seq::empty()).dom().contains(appended_key(q, k)),
        diff_model(from, to, Seq::empty())[appended_key(q, k)] == (OperationModel {
            op: OpType::Create,
            to: Some(w),
            from: None,
        }),
        forall|d: Seq<char>|
            #[trigger] diff_model(from, to, Seq::empty()).dom().contains(d) ==> !path_below(
                d,
                appended_key(q, k),
            ),
{
    lemma_wf_pointer(to, q);
    lemma_create_at(from, to, Seq::empty(), q, k, w);
}

/// As [`lemma_create_coverage`], below any node of the walk.
proof fn lemma_create_at(
    elem: ValueModel,
    doc: ValueModel,
    p: Seq<char>,
    q: Seq<char>,
    k: Seq<char>,
    w: ValueModel,
)
    requires
        elem.wf(),
        object_nodes(elem, p).dom().contains(q),
        key_lookup(object_nodes(elem, p)[q], k) is None,
        match pointer_model(doc, q) {
            Some(c) => match c {
                ValueModel::Object(tentries) => key_lookup(tentries, k) == Some(w) && (forall|
                    a: int,
                    b: int,
                |
                    0 <= a < b < tentries.len() ==> tentries[a].0 != tentries[b].0),
                _ => false,
            },
            None => false,
        },
    ensures
        diff_model(elem, doc, p).dom().contains(appended_key(q, k)),
        diff_model(elem, doc, p)[appended_key(q, k)] == (OperationModel {
            op: OpType::Create,
            to: Some(w),
            from: None,
        }),
        forall|d: Seq<char>|
            #[trigger] diff_model(elem, doc, p).dom().contains(d) ==> !path_below(
                d,
                appended_key(q, k),
            ),
    decreases elem, 0int,
{
    let c = appended_key(q, k);
    lemma_escaped_key_no_slash(k);
    match elem {
        ValueModel::Array(elems) => {
            lemma_create_elems(elems, doc, p, q, k, w);
        },
        ValueModel::Object(entries) => {
            if q == p {
                assert(object_nodes(elem, p)[q] == entries);
                let tentries = match pointer_model(doc, q) {
                    Some(cc) => match cc {
                        ValueModel::Object(t) => t,
                        _ => Seq::empty(),
                    },
                    None => Seq::empty(),
                };
                lemma_creates_has(tentries, entries, p, k, w);
                assert(creates_at(entries, doc, p) == creates_from(tentries, entries, p));
                assert(diff_model(elem, doc, p)[c] == creates_from(tentries, entries, p)[c]);
                lemma_diff_entries_dom(entries, doc, p);
                lemma_below_parts(p, escaped_key(k), Seq::empty());
                assert(c =~= p + seq!['/'] + escaped_key(k) + Seq::<char>::empty());
                assert(path_below(c, p) && seg_below(c, p) == escaped_key(k));
                assert forall|d: Seq<char>|
                    #[trigger] diff_model(elem, doc, p).dom().contains(d) implies !path_below(
                    d,
                    c,
                ) by {
                    if path_below(d, c) {
                        lemma_below_trans(d, c, p);
                        assert(seg_below(d, p) == escaped_key(k));
                        if creates_at(entries, doc, p).dom().contains(d) {
                            lemma_creates_at_dom_key(entries, doc, p, d);
                            let k2 = choose|k2: Seq<char>|
                                d == appended_key(p, k2) && (#[trigger] key_lookup(
                                    entries,
                                    k2,
                                )) is None;
                            lemma_escaped_key_no_slash(k2);
                            let t2 = d.subrange(c.len() as int, d.len() as int);
                            assert(t2.len() > 0 && t2[0] == '/') by {
                                assert(d[c.len() as int] == '/');
                                assert(t2[0] == d[c.len() as int]);
                            }
                            assert(d.subrange(p.len() as int + 1, d.len() as int)
                                =~= escaped_key(k2));
                            assert(d =~= c + t2);
                            assert(d.subrange(p.len() as int + 1, d.len() as int)
                                =~= escaped_key(k) + t2);
                            lemma_seg_tail_unique(
                                escaped_key(k2),
                                Seq::empty(),
                                escaped_key(k),
                                t2,
                            );
                            assert(false);
                        } else {
                            assert(diff_entries(entries, doc, p).dom().contains(d));
                            let i = choose|i: int|
                                0 <= i < entries.len() && #[trigger] at_or_below_seg(
                                    d,
                                    p,
                                    escaped_key(entries[i].0),
                                );
                            lemma_escaped_key_injective(entries[i].0, k);
                            lemma_key_lookup_some(entries, entries[i].0, i);
                            assert(false);
                        }
                    }
                }
            } else {
                assert(object_nodes_entries(entries, p).dom().contains(q));
                assert(object_nodes(elem, p)[q] == object_nodes_entries(entries, p)[q]);
                lemma_create_entries(entries, doc, p, q, k, w);
                // The node's own creates cannot claim the member path nor
                // anything below it: they sit one segment below `p`, at
                // paths of absent keys, while `c` lies under a present one.
                lemma_nodes_entries_dom(entries, p);
                let i = choose|i: int|
                    0 <= i < entries.len() && #[trigger] at_or_below_seg(
                        q,
                        p,
                        escaped_key(entries[i].0),
                    );
                let pc = p + seq!['/'] + escaped_key(entries[i].0);
                lemma_below_parts(q, escaped_key(k), Seq::empty());
                assert(c =~= q + seq!['/'] + escaped_key(k) + Seq::<char>::empty());
                assert(path_below(c, q));
                lemma_below_trans(c, q, p);
                assert(path_below(c, p) && seg_below(c, p) == escaped_key(entries[i].0));
                assert forall|d: Seq<char>|
                    #[trigger] creates_at(entries, doc, p).dom().contains(d) implies d != c
                        && !path_below(d, c) by {
                    lemma_creates_at_dom_key(entries, doc, p, d);
                    let k2 = choose|k2: Seq<char>|
                        d == appended_key(p, k2) && (#[trigger] key_lookup(
                            entries,
                            k2,
                        )) is None;
                    lemma_escaped_key_no_slash(k2);
                    assert(d =~= p + seq!['/'] + escaped_key(k2) + Seq::<char>::empty());
                    lemma_below_parts(p, escaped_key(k2), Seq::empty());
                    assert(seg_below(d, p) == escaped_key(k2));
                    if d == c {
                        lemma_escaped_key_injective(k2, entries[i].0);
                        lemma_key_lookup_some(entries, entries[i].0, i);
                        assert(false);
                    }
                    if path_below(d, c) {
                        lemma_below_trans(d, c, p);
                        lemma_escaped_key_injective(k2, entries[i].0);
                        lemma_key_lookup_some(entries, entries[i].0, i);
                        assert(false);
                    }
                }
                assert(diff_model(elem, doc, p)[c] == diff_entries(entries, doc, p)[c]);
            }
        },
        _ => {
            assert(false);
        },
    }
}

/// As [`lemma_create_at`], across the positions of an array.
proof fn lemma_create_elems(
    elems: Seq<ValueModel>,
    doc: ValueModel,
    p: Seq<char>,
    q: Seq<char>,
    k: Seq<char>,
    w: ValueModel,
)
    requires
        forall|i: int| 0 <= i < elems.len() ==> (#[trigger] elems[i]).wf(),
        object_nodes_elems(elems, p).dom().contains(q),
        key_lookup(object_nodes_elems(elems, p)[q], k) is None,
        match pointer_model(doc, q) {
            Some(c) => match c {
                ValueModel::Object(tentries) => key_lookup(tentries, k) == Some(w) && (forall|
                    a: int,
                    b: int,
                |
                    0 <= a < b < tentries.len() ==> tentries[a].0 != tentries[b].0),
                _ => false,
            },
            None => false,
        },
    ensures
        diff_elems(elems, doc, p).dom().contains(appended_key(q, k)),
        diff_elems(elems, doc, p)[appended_key(q, k)] == (OperationModel {
            op: OpType::Create,
            to: Some(w),
            from: None,
        }),
        forall|d: Seq<char>|
            #[trigger] diff_elems(elems, doc, p).dom().contains(d) ==> !path_below(
                d,
                appended_key(q, k),
            ),
    decreases elems, 1int,
{
    let c = appended_key(q, k);
    lemma_escaped_key_no_slash(k);
    let last = elems.len() - 1;
    let pre = elems.subrange(0, last);
    assert(forall|i: int| 0 <= i < pre.len() ==> pre[i] == #[trigger] elems[i]);
    let pc = appended_index(p, last);
    lemma_dec_digits(last as nat);
    let nc = object_nodes(elems[last], pc);
    let dc = diff_model(elems[last], doc, pc);
    lemma_below_parts(q, escaped_key(k), Seq::empty());
    assert(c =~= q + seq!['/'] + escaped_key(k) + Seq::<char>::empty());
    assert(path_below(c, q));
    if nc.dom().contains(q) {
        lemma_nodes_dom_below(elems[last], pc);
        lemma_tag_child(q, p, dec_digits(last as nat));
        if q == pc {
            assert(path_below(c, pc));
        } else {
            lemma_below_trans(c, q, pc);
        }
        lemma_tag_child(c, p, dec_digits(last as nat));
        lemma_create_at(elems[last], doc, pc, q, k, w);
        assert(diff_elems(elems, doc, p)[c] == dc[c]);
        assert forall|d: Seq<char>|
            #[trigger] diff_elems(elems, doc, p).dom().contains(d) implies !path_below(
            d,
            c,
        ) by {
            if path_below(d, c) {
                lemma_below_trans(d, c, p);
                if dc.dom().contains(d) {
                } else {
                    assert(diff_elems(pre, doc, p).dom().contains(d));
                    lemma_diff_elems_dom(pre, doc, p);
                    let i = choose|i: int|
                        0 <= i < pre.len() && #[trigger] at_or_below_seg(
                            d,
                            p,
                            dec_digits(i as nat),
                        );
                    lemma_dec_digits_injective(i, last);
                    assert(false);
                }
            }
        }
    } else {
        assert(object_nodes_elems(pre, p).dom().contains(q));
        lemma_nodes_elems_dom(pre, p);
        let iq = choose|i: int|
            0 <= i < pre.len() && #[trigger] at_or_below_seg(q, p, dec_digits(i as nat));
        lemma_create_elems(pre, doc, p, q, k, w);
        // The member path is tagged with the earlier position's numeral.
        assert(path_below(c, p) && seg_below(c, p) == dec_digits(iq as nat)) by {
            lemma_below_trans(c, q, p);
        }
        lemma_diff_dom_below(elems[last], doc, pc);
        if dc.dom().contains(c) {
            lemma_tag_child(c, p, dec_digits(last as nat));
            lemma_dec_digits_injective(iq, last);
            assert(false);
        }
        assert(diff_elems(elems, doc, p)[c] == diff_elems(pre, doc, p)[c]);
        assert forall|d: Seq<char>|
            #[trigger] diff_elems(elems, doc, p).dom().contains(d) implies !path_below(
            d,
            c,
        ) by {
            if path_below(d, c) {
                if dc.dom().contains(d) {
                    lemma_tag_child(d, p, dec_digits(last as nat));
                    lemma_below_trans(d, c, p);
                    lemma_dec_digits_injective(iq, last);
                    assert(false);
                } else {
                    assert(diff_elems(pre, doc, p).dom().contains(d));
                }
            }
        }
    }
}

/// As [`lemma_create_at`], across the entries of an object.
proof fn lemma_create_entries(
    entries: Seq<(Seq<char>, ValueModel)>,
    doc: ValueModel,
    p: Seq<char>,
    q: Seq<char>,
    k: Seq<char>,
    w: ValueModel,
)
    requires
        forall|i: int| 0 <= i < entries.len() ==> (#[trigger] entries[i]).1.wf(),
        forall|i: int, j: int| 0 <= i < j < entries.len() ==> entries[i].0 != entries[j].0,
        object_nodes_entries(entries, p).dom().contains(q),
        key_lookup(object_nodes_entries(entries, p)[q], k) is None,
        match pointer_model(doc, q) {
            Some(c) => match c {
                ValueModel::Object(tentries) => key_lookup(tentries, k) == Some(w) && (forall|
                    a: int,
                    b: int,
                |
                    0 <= a < b < tentries.len() ==> tentries[a].0 != tentries[b].0),
                _ => false,
            },
            None => false,
        },
    ensures
        diff_entries(entries, doc, p).dom().contains(appended_key(q, k)),
        diff_entries(entries, doc, p)[appended_key(q, k)] == (OperationModel {
            op: OpType::Create,
            to: Some(w),
            from: None,
        }),
        forall|d: Seq<char>|
            #[trigger] diff_entries(entries, doc, p).dom().contains(d) ==> !path_below(
                d,
                appended_key(q, k),
            ),
    decreases entries, 1int,
{
    let c = appended_key(q, k);
    lemma_escaped_key_no_slash(k);
    let last = entries.len() - 1;
    let pre = entries.subrange(0, last);
    assert(forall|i: int| 0 <= i < pre.len() ==> pre[i] == #[trigger] entries[i]);
    let pc = appended_key(p, entries[last].0);
    lemma_escaped_key_no_slash(entries[last].0);
    let nc = object_nodes(entries[last].1, pc);
    let dc = diff_model(entries[last].1, doc, pc);
    lemma_below_parts(q, escaped_key(k), Seq::empty());
    assert(c =~= q + seq!['/'] + escaped_key(k) + Seq::<char>::empty());
    assert(path_below(c, q));
    if nc.dom().contains(q) {
        lemma_nodes_dom_below(entries[last].1, pc);
        lemma_tag_child(q, p, escaped_key(entries[last].0));
        if q == pc {
            assert(path_below(c, pc));
        } else {
            lemma_below_trans(c, q, pc);
        }
        lemma_tag_child(c, p, escaped_key(entries[last].0));
        lemma_create_at(entries[last].1, doc, pc, q, k, w);
        assert(diff_entries(entries, doc, p)[c] == dc[c]);
        assert forall|d: Seq<char>|
            #[trigger] diff_entries(entries, doc, p).dom().contains(d) implies !path_below(
            d,
            c,
        ) by {
            if path_below(d, c) {
                lemma_below_trans(d, c, p);
                if dc.dom().contains(d) {
                } else {
                    assert(diff_entries(pre, doc, p).dom().contains(d));
                    lemma_diff_entries_dom(pre, doc, p);
                    let i = choose|i: int|
                        0 <= i < pre.len() && #[trigger] at_or_below_seg(
                            d,
                            p,
                            escaped_key(pre[i].0),
                        );
                    lemma_escaped_key_injective(pre[i].0, entries[last].0);
                    assert(false);
                }
            }
        }
    } else {
        assert(object_nodes_entries(pre, p).dom().contains(q));
        lemma_nodes_entries_dom(pre, p);
        let iq = choose|i: int|
            0 <= i < pre.len() && #[trigger] at_or_below_seg(q, p, escaped_key(pre[i].0));
        lemma_create_entries(pre, doc, p, q, k, w);
        assert(path_below(c, p) && seg_below(c, p) == escaped_key(pre[iq].0)) by {
            lemma_below_trans(c, q, p);
        }
        lemma_diff_dom_below(entries[last].1, doc, pc);
        if dc.dom().contains(c) {
            lemma_tag_child(c, p, escaped_key(entries[last].0));
            lemma_escaped_key_injective(pre[iq].0, entries[last].0);
            assert(false);
        }
        assert(diff_entries(entries, doc, p)[c] == diff_entries(pre, doc, p)[c]);
        assert forall|d: Seq<char>|
            #[trigger] diff_entries(entries, doc, p).dom().contains(d) implies !path_below(
            d,
            c,
        ) by {
            if path_below(d, c) {
                if dc.dom().contains(d) {
                    lemma_tag_child(d, p, escaped_key(entries[last].0));
                    lemma_below_trans(d, c, p);
                    lemma_escaped_key_injective(pre[iq].0, entries[last].0);
                    assert(false);
                } else {
                    assert(diff_entries(pre, doc, p).dom().contains(d));
                }
            }
        }
    }
}

} // verus!
