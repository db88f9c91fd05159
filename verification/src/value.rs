//! The tree value type that the differ walks, and its mathematical model.

use vstd::prelude::*;
use vstd::string::StrSliceExecFns;

use crate::paths::appended_index;
use crate::paths::appended_key;
use crate::paths::dec_digits;
use crate::paths::dec_value;
use crate::paths::escaped_key;
use crate::paths::is_canonical_index;
use crate::paths::is_digit;
use crate::paths::digit_val;
use crate::paths::first_slash;
use crate::paths::lemma_dec_digits;
use crate::paths::lemma_dec_value_monotone;
use crate::paths::lemma_dec_value_nonneg;
use crate::paths::lemma_escape_round_trip;
use crate::paths::lemma_escaped_key_no_slash;
use crate::paths::lemma_first_slash;
use crate::paths::lemma_first_slash_at;
use crate::paths::lemma_split_append;
use crate::paths::lemma_split_whole;
use crate::paths::lemma_unescape_plain;
use crate::paths::split_on_slash;
use crate::paths::unescape_segment;
use crate::paths::unescaped_seg;

verus! {

/// Mathematical model of a tree value.
///
/// Object entries are kept as a sequence of key/value pairs in insertion
/// order; well-formed values carry each key at most once.
#[verifier::ext_equal]
pub enum ValueModel {
    Null,
    Bool(bool),
    Number(u64),
    Text(Seq<char>),
    Array(Seq<ValueModel>),
    Object(Seq<(Seq<char>, ValueModel)>),
}

/// A JSON-like tree value.
///
/// `Number` holds the bit pattern of the IEEE 754 double that the number
/// denotes, so that numeric equality can be decided with integer logic
/// alone: two patterns denote the same number exactly when they are equal
/// or both encode a zero.
#[derive(Debug)]
pub enum Value {
    Null,
    Bool(bool),
    Number(u64),
    Text(String),
    Array(Vec<Value>),
    Object(Vec<(String, Value)>),
}

/// Models of the elements of an array, in order.
pub open spec fn models_of_elems(s: Seq<Value>) -> Seq<ValueModel>
    decreases s,
{
    if s.len() == 0 {
        Seq::empty()
    } else {
        models_of_elems(s.subrange(0, s.len() - 1)).push(s[s.len() - 1]@)
    }
}

/// Models of the entries of an object, in order.
pub open spec fn models_of_entries(s: Seq<(String, Value)>) -> Seq<(Seq<char>, ValueModel)>
    decreases s,
{
    if s.len() == 0 {
        Seq::empty()
    } else {
        models_of_entries(s.subrange(0, s.len() - 1)).push(
            (s[s.len() - 1].0@, s[s.len() - 1].1@),
        )
    }
}

impl View for Value {
    type V = ValueModel;

    open spec fn view(&self) -> ValueModel
        decreases self,
    {
        match self {
            Value::Null => ValueModel::Null,
            Value::Bool(b) => ValueModel::Bool(*b),
            Value::Number(n) => ValueModel::Number(*n),
            Value::Text(s) => ValueModel::Text(s@),
            Value::Array(elems) => ValueModel::Array(models_of_elems(elems@)),
            Value::Object(entries) => ValueModel::Object(models_of_entries(entries@)),
        }
    }
}

/// The element models are the models of the elements, position by position.
pub proof fn lemma_models_of_elems(s: Seq<Value>)
    ensures
        models_of_elems(s).len() == s.len(),
        forall|i: int| 0 <= i < s.len() ==> models_of_elems(s)[i] == #[trigger] s[i]@,
    decreases s.len(),
{
    if s.len() > 0 {
        let pre = s.subrange(0, s.len() - 1);
        lemma_models_of_elems(pre);
        let m = models_of_elems(s);
        assert(m == models_of_elems(pre).push(s[s.len() - 1]@));
        assert forall|i: int| 0 <= i < s.len() implies m[i] == #[trigger] s[i]@ by {
            if i < s.len() - 1 {
                assert(pre[i] == s[i]);
                assert(m[i] == models_of_elems(pre)[i]);
            } else {
                assert(m[i] == s[s.len() - 1]@);
            }
        }
    }
}

/// The two bit patterns that encode a zero, the only doubles with more
/// than one encoding.
pub open spec fn zero_bits(a: u64) -> bool {
    a == 0 || a == 0x8000_0000_0000_0000
}

/// Whether two number encodings denote the same double value.
pub open spec fn num_eq(a: u64, b: u64) -> bool {
    a == b || (zero_bits(a) && zero_bits(b))
}

/// The comparison rule of the differ for a scalar taken from the `from`
/// tree: null matches only null, booleans and texts match by equality,
/// numbers by the value they denote; any mismatch of kind is unequal.
pub open spec fn scalar_eq(a: ValueModel, b: ValueModel) -> bool {
    match (a, b) {
        (ValueModel::Null, ValueModel::Null) => true,
        (ValueModel::Bool(x), ValueModel::Bool(y)) => x == y,
        (ValueModel::Number(x), ValueModel::Number(y)) => num_eq(x, y),
        (ValueModel::Text(x), ValueModel::Text(y)) => x == y,
        _ => false,
    }
}

/// The value of the first entry carrying the key, if any.
pub open spec fn key_lookup(entries: Seq<(Seq<char>, ValueModel)>, k: Seq<char>) -> Option<
    ValueModel,
>
    decreases entries.len(),
{
    if entries.len() == 0 {
        None
    } else if entries[0].0 == k {
        Some(entries[0].1)
    } else {
        key_lookup(entries.drop_first(), k)
    }
}

/// The entry models are the models of the entries, position by position.
pub proof fn lemma_models_of_entries(s: Seq<(String, Value)>)
    ensures
        models_of_entries(s).len() == s.len(),
        forall|i: int|
            0 <= i < s.len() ==> models_of_entries(s)[i] == (#[trigger] s[i].0@, s[i].1@),
    decreases s.len(),
{
    if s.len() > 0 {
        let pre = s.subrange(0, s.len() - 1);
        lemma_models_of_entries(pre);
        let m = models_of_entries(s);
        assert(m == models_of_entries(pre).push((s[s.len() - 1].0@, s[s.len() - 1].1@)));
        assert forall|i: int|
            0 <= i < s.len() implies m[i] == (#[trigger] s[i].0@, s[i].1@) by {
            if i < s.len() - 1 {
                assert(pre[i] == s[i]);
                assert(m[i] == models_of_entries(pre)[i]);
            } else {
                assert(m[i] == (s[s.len() - 1].0@, s[s.len() - 1].1@));
            }
        }
    }
}

/// Whether two number encodings denote the same double value.
pub fn nums_equal(a: u64, b: u64) -> (r: bool)
    ensures
        r == num_eq(a, b),
{
    a == b || ((a == 0 || a == 0x8000_0000_0000_0000) && (b == 0 || b == 0x8000_0000_0000_0000))
}

/// The differ's comparison of a scalar `a` against whatever stands at the
/// same path in the other tree.
pub fn scalar_equal(a: &Value, b: &Value) -> (r: bool)
    ensures
        r == scalar_eq(a@, b@),
{
    match (a, b) {
        (Value::Null, Value::Null) => true,
        (Value::Bool(x), Value::Bool(y)) => *x == *y,
        (Value::Number(x), Value::Number(y)) => nums_equal(*x, *y),
        (Value::Text(x), Value::Text(y)) => *x == *y,
        _ => false,
    }
}

/// Structural equality of two values; object entries must agree in order.
pub fn deep_eq(a: &Value, b: &Value) -> (r: bool)
    ensures
        r == (a@ == b@),
    decreases a,
{
    match (a, b) {
        (Value::Null, Value::Null) => true,
        (Value::Bool(x), Value::Bool(y)) => *x == *y,
        (Value::Number(x), Value::Number(y)) => *x == *y,
        (Value::Text(x), Value::Text(y)) => *x == *y,
        (Value::Array(xs), Value::Array(ys)) => {
            proof {
                lemma_models_of_elems(xs@);
                lemma_models_of_elems(ys@);
            }
            if xs.len() != ys.len() {
                return false;
            }
            let mut i: usize = 0;
            while i < xs.len()
                invariant
                    xs@.len() == ys@.len(),
                    0 <= i <= xs@.len(),
                    forall|k: int| 0 <= k < i ==> #[trigger] xs@[k]@ == ys@[k]@,
                    *a == Value::Array(*xs),
                    *b == Value::Array(*ys),
                    a@ == ValueModel::Array(models_of_elems(xs@)),
                    b@ == ValueModel::Array(models_of_elems(ys@)),
                    models_of_elems(xs@).len() == xs@.len(),
                    models_of_elems(ys@).len() == ys@.len(),
                    forall|k: int|
                        0 <= k < xs@.len() ==> models_of_elems(xs@)[k] == #[trigger] xs@[k]@,
                    forall|k: int|
                        0 <= k < ys@.len() ==> models_of_elems(ys@)[k] == #[trigger] ys@[k]@,
                decreases xs@.len() - i,
            {
                proof {
                    assert(decreases_to!(*a => a->Array_0));
                    assert(a->Array_0 == *xs);
                    assert(decreases_to!(*xs => xs@));
                    assert(decreases_to!(xs@ => xs@[i as int]));
                }
                if !deep_eq(&xs[i], &ys[i]) {
                    proof {
                        assert(xs@[i as int]@ != ys@[i as int]@);
                        assert(models_of_elems(xs@)[i as int] != models_of_elems(ys@)[i as int]);
                    }
                    return false;
                }
                i = i + 1;
            }
            proof {
                assert forall|k: int|
                    0 <= k < xs@.len() implies models_of_elems(xs@)[k] == models_of_elems(
                    ys@,
                )[k] by {
                    assert(xs@[k]@ == ys@[k]@);
                }
                assert(models_of_elems(xs@) =~= models_of_elems(ys@));
            }
            true
        },
        (Value::Object(xs), Value::Object(ys)) => {
            proof {
                lemma_models_of_entries(xs@);
                lemma_models_of_entries(ys@);
            }
            if xs.len() != ys.len() {
                return false;
            }
            let mut i: usize = 0;
            while i < xs.len()
                invariant
                    xs@.len() == ys@.len(),
                    0 <= i <= xs@.len(),
                    forall|k: int|
                        0 <= k < i ==> #[trigger] xs@[k].0@ == ys@[k].0@ && xs@[k].1@
                            == ys@[k].1@,
                    a@ == ValueModel::Object(models_of_entries(xs@)),
                    b@ == ValueModel::Object(models_of_entries(ys@)),
                    models_of_entries(xs@).len() == xs@.len(),
                    models_of_entries(ys@).len() == ys@.len(),
                    forall|k: int|
                        0 <= k < xs@.len() ==> models_of_entries(xs@)[k] == (
                        #[trigger] xs@[k].0@,
                        xs@[k].1@,
                        ),
                    forall|k: int|
                        0 <= k < ys@.len() ==> models_of_entries(ys@)[k] == (
                        #[trigger] ys@[k].0@,
                        ys@[k].1@,
                        ),
                    *a == Value::Object(*xs),
                    *b == Value::Object(*ys),
                decreases xs@.len() - i,
            {
                let keys_agree = xs[i].0 == ys[i].0;
                if !keys_agree {
                    proof {
                        assert(models_of_entries(xs@)[i as int] != models_of_entries(
                            ys@,
                        )[i as int]);
                    }
                    return false;
                }
                proof {
                    assert(decreases_to!(*a => a->Object_0));
                    assert(a->Object_0 == *xs);
                    assert(decreases_to!(*xs => xs@));
                    assert(decreases_to!(xs@ => xs@[i as int]));
                    assert(decreases_to!(xs@[i as int] => xs@[i as int].1));
                }
                if !deep_eq(&xs[i].1, &ys[i].1) {
                    proof {
                        assert(xs@[i as int].1@ != ys@[i as int].1@);
                        assert(models_of_entries(xs@)[i as int] != models_of_entries(
                            ys@,
                        )[i as int]);
                    }
                    return false;
                }
                i = i + 1;
            }
            proof {
                assert forall|k: int|
                    0 <= k < xs@.len() implies models_of_entries(xs@)[k] == models_of_entries(
                    ys@,
                )[k] by {
                    assert(xs@[k].0@ == ys@[k].0@ && xs@[k].1@ == ys@[k].1@);
                }
                assert(models_of_entries(xs@) =~= models_of_entries(ys@));
            }
            true
        },
        _ => {
            proof {
                assert(a@ != b@);
            }
            false
        },
    }
}

impl PartialEq for Value {
    fn eq(&self, other: &Value) -> (r: bool) {
        deep_eq(self, other)
    }
}

impl vstd::std_specs::cmp::PartialEqSpecImpl for Value {
    open spec fn obeys_eq_spec() -> bool {
        true
    }

    open spec fn eq_spec(&self, other: &Value) -> bool {
        self@ == other@
    }
}

impl Clone for Value {
    /// A deep copy with the same model.
    fn clone(&self) -> (r: Self)
        ensures
            r@ == self@,
        decreases self,
    {
        match self {
            Value::Null => Value::Null,
            Value::Bool(b) => Value::Bool(*b),
            Value::Number(n) => Value::Number(*n),
            Value::Text(s) => Value::Text(s.clone()),
            Value::Array(elems) => {
                let mut out: Vec<Value> = Vec::new();
                let mut i: usize = 0;
                while i < elems.len()
                    invariant
                        0 <= i <= elems@.len(),
                        out@.len() == i,
                        forall|k: int| 0 <= k < i ==> #[trigger] out@[k]@ == elems@[k]@,
                        *self == Value::Array(*elems),
                    decreases elems@.len() - i,
                {
                    proof {
                        assert(decreases_to!(*self => self->Array_0));
                        assert(self->Array_0 == *elems);
                        assert(decreases_to!(*elems => elems@));
                        assert(decreases_to!(elems@ => elems@[i as int]));
                    }
                    let c = elems[i].clone();
                    proof {
                        assert(c@ == elems@[i as int]@);
                    }
                    out.push(c);
                    i = i + 1;
                }
                proof {
                    lemma_models_of_elems(out@);
                    lemma_models_of_elems(elems@);
                    assert forall|k: int|
                        0 <= k < elems@.len() implies models_of_elems(out@)[k] == models_of_elems(
                        elems@,
                    )[k] by {
                        assert(out@[k]@ == elems@[k]@);
                    }
                    assert(models_of_elems(out@) =~= models_of_elems(elems@));
                }
                Value::Array(out)
            },
            Value::Object(entries) => {
                let mut out: Vec<(String, Value)> = Vec::new();
                let mut i: usize = 0;
                while i < entries.len()
                    invariant
                        0 <= i <= entries@.len(),
                        out@.len() == i,
                        forall|k: int| 0 <= k < i ==> #[trigger] out@[k].0@ == entries@[k].0@,
                        forall|k: int| 0 <= k < i ==> #[trigger] out@[k].1@ == entries@[k].1@,
                        *self == Value::Object(*entries),
                    decreases entries@.len() - i,
                {
                    proof {
                        assert(decreases_to!(*self => self->Object_0));
                        assert(self->Object_0 == *entries);
                        assert(decreases_to!(*entries => entries@));
                        assert(decreases_to!(entries@ => entries@[i as int]));
                        assert(decreases_to!(entries@[i as int] => entries@[i as int].1));
                    }
                    let k = entries[i].0.clone();
                    let v = entries[i].1.clone();
                    proof {
                        assert(k@ == entries@[i as int].0@);
                        assert(v@ == entries@[i as int].1@);
                    }
                    let ghost out0 = out@;
                    out.push((k, v));
                    proof {
                        assert(out@ =~= out0.push((k, v)));
                        assert forall|kk: int|
                            0 <= kk < i + 1 implies #[trigger] out@[kk].0@
                                == entries@[kk].0@ by {
                            if kk < i {
                                assert(out@[kk] == out0[kk]);
                            } else {
                                assert(out@[kk] == (k, v));
                            }
                        }
                        assert forall|kk: int|
                            0 <= kk < i + 1 implies #[trigger] out@[kk].1@
                                == entries@[kk].1@ by {
                            if kk < i {
                                assert(out@[kk] == out0[kk]);
                                assert(out0[kk].1@ == entries@[kk].1@);
                            } else {
                                assert(out@[kk] == (k, v));
                            }
                        }
                    }
                    i = i + 1;
                }
                proof {
                    lemma_models_of_entries(out@);
                    lemma_models_of_entries(entries@);
                    assert forall|k: int|
                        0 <= k < entries@.len() implies models_of_entries(out@)[k]
                            == models_of_entries(entries@)[k] by {
                        assert(out@[k].0@ == entries@[k].0@ && out@[k].1@ == entries@[k].1@);
                    }
                    assert(models_of_entries(out@) =~= models_of_entries(entries@));
                }
                Value::Object(out)
            },
        }
    }
}

/// What one unescaped token selects in a value: a member by key in an
/// object, an element by canonical decimal position in an array, nothing
/// in a scalar.
pub open spec fn token_step(v: ValueModel, tok: Seq<char>) -> Option<ValueModel> {
    match v {
        ValueModel::Object(entries) => key_lookup(entries, tok),
        ValueModel::Array(elems) => {
            if is_canonical_index(tok) && dec_value(tok) < elems.len() {
                Some(elems[dec_value(tok)])
            } else {
                None
            }
        },
        _ => None,
    }
}

/// What one raw segment selects: its unescaped token applied to the value.
pub open spec fn step_model(v: ValueModel, seg: Seq<char>) -> Option<ValueModel> {
    token_step(v, unescaped_seg(seg))
}

/// Resolution of a list of raw segments, segment by segment; a miss at any
/// depth resolves to nothing.
pub open spec fn lookup_segs(v: ValueModel, segs: Seq<Seq<char>>) -> Option<ValueModel>
    decreases segs.len(),
{
    if segs.len() == 0 {
        Some(v)
    } else {
        match step_model(v, segs[0]) {
            Some(c) => lookup_segs(c, segs.drop_first()),
            None => None,
        }
    }
}

/// Resolution of a whole path: the empty path is the value itself, any
/// other path must lead with `/` and is resolved segment by segment.
pub open spec fn pointer_model(v: ValueModel, p: Seq<char>) -> Option<ValueModel> {
    if p.len() == 0 {
        Some(v)
    } else if p[0] != '/' {
        None
    } else {
        lookup_segs(v, split_on_slash(p.drop_first()))
    }
}

/// A key that first occurs at position `idx` looks up to the value there.
pub proof fn lemma_key_lookup_at(s: Seq<(Seq<char>, ValueModel)>, k: Seq<char>, idx: int)
    requires
        0 <= idx < s.len(),
        s[idx].0 == k,
        forall|m: int| 0 <= m < idx ==> s[m].0 != k,
    ensures
        key_lookup(s, k) == Some(s[idx].1),
    decreases s.len(),
{
    if idx > 0 {
        let rest = s.drop_first();
        assert(forall|m: int| 0 <= m < rest.len() ==> rest[m] == #[trigger] s[m + 1]);
        lemma_key_lookup_at(rest, k, idx - 1);
    }
}

/// A key no entry carries looks up to nothing.
pub proof fn lemma_key_lookup_none(s: Seq<(Seq<char>, ValueModel)>, k: Seq<char>)
    requires
        forall|m: int| 0 <= m < s.len() ==> s[m].0 != k,
    ensures
        key_lookup(s, k) is None,
    decreases s.len(),
{
    if s.len() > 0 {
        let rest = s.drop_first();
        assert(forall|m: int| 0 <= m < rest.len() ==> rest[m] == #[trigger] s[m + 1]);
        lemma_key_lookup_none(rest, k);
    }
}

/// Whether an object's entry list carries the key.
pub fn object_has_key(entries: &Vec<(String, Value)>, k: &String) -> (r: bool)
    ensures
        r == (key_lookup(models_of_entries(entries@), k@) is Some),
{
    proof {
        lemma_models_of_entries(entries@);
    }
    let ghost ms = models_of_entries(entries@);
    let mut idx: usize = 0;
    while idx < entries.len()
        invariant
            0 <= idx <= entries@.len(),
            ms == models_of_entries(entries@),
            ms.len() == entries@.len(),
            forall|m: int|
                0 <= m < entries@.len() ==> ms[m] == (#[trigger] entries@[m].0@,
                entries@[m].1@),
            forall|m: int| 0 <= m < idx ==> #[trigger] entries@[m].0@ != k@,
        decreases entries@.len() - idx,
    {
        if entries[idx].0 == *k {
            proof {
                assert(ms[idx as int].0 == k@);
                assert forall|m: int| 0 <= m < idx implies ms[m].0 != k@ by {
                    assert(entries@[m].0@ != k@);
                }
                lemma_key_lookup_at(ms, k@, idx as int);
            }
            return true;
        }
        idx = idx + 1;
    }
    proof {
        assert forall|m: int| 0 <= m < ms.len() implies ms[m].0 != k@ by {
            assert(entries@[m].0@ != k@);
        }
        lemma_key_lookup_none(ms, k@);
    }
    false
}

/// Selects by an already unescaped token.
fn exec_token_step<'a>(v: &'a Value, tok: &String) -> (r: Option<&'a Value>)
    ensures
        match r {
            Some(c) => token_step(v@, tok@) == Some(c@),
            None => token_step(v@, tok@) is None,
        },
{
    match v {
        Value::Object(entries) => {
            proof {
                lemma_models_of_entries(entries@);
            }
            let ghost ms = models_of_entries(entries@);
            let mut idx: usize = 0;
            while idx < entries.len()
                invariant
                    0 <= idx <= entries@.len(),
                    ms == models_of_entries(entries@),
                    ms.len() == entries@.len(),
                    forall|m: int|
                        0 <= m < entries@.len() ==> ms[m] == (#[trigger] entries@[m].0@,
                        entries@[m].1@),
                    forall|m: int| 0 <= m < idx ==> #[trigger] entries@[m].0@ != tok@,
                    v@ == ValueModel::Object(ms),
                decreases entries@.len() - idx,
            {
                if entries[idx].0 == *tok {
                    proof {
                        assert(ms[idx as int].0 == tok@);
                        assert forall|m: int| 0 <= m < idx implies ms[m].0 != tok@ by {
                            assert(entries@[m].0@ != tok@);
                        }
                        lemma_key_lookup_at(ms, tok@, idx as int);
                    }
                    return Some(&entries[idx].1);
                }
                idx = idx + 1;
            }
            proof {
                assert forall|m: int| 0 <= m < ms.len() implies ms[m].0 != tok@ by {
                    assert(entries@[m].0@ != tok@);
                }
                lemma_key_lookup_none(ms, tok@);
            }
            None
        },
        Value::Array(elems) => {
            proof {
                lemma_models_of_elems(elems@);
            }
            let ghost ms = models_of_elems(elems@);
            let n = tok.as_str().unicode_len();
            if n == 0 {
                return None;
            }
            if n > 1 && tok.as_str().get_char(0) == '0' {
                proof {
                    assert(!is_canonical_index(tok@));
                }
                return None;
            }
            let len128: u128 = elems.len() as u128;
            let mut acc: u128 = 0;
            let mut t: usize = 0;
            proof {
                assert(tok@.subrange(0, 0) =~= Seq::<char>::empty());
            }
            while t < n
                invariant
                    0 <= t <= n,
                    n == tok@.len(),
                    ms == models_of_elems(elems@),
                    ms.len() == elems@.len(),
                    forall|m: int| 0 <= m < elems@.len() ==> ms[m] == #[trigger] elems@[m]@,
                    v@ == ValueModel::Array(ms),
                    len128 == elems@.len(),
                    len128 <= 0xffff_ffff_ffff_ffff,
                    forall|m: int| 0 <= m < t ==> is_digit(#[trigger] tok@[m]),
                    acc == dec_value(tok@.subrange(0, t as int)),
                    n >= 1,
                    t == 0 ==> acc == 0,
                    t > 0 ==> acc < len128,
                decreases n - t,
            {
                let c = tok.as_str().get_char(t);
                let is_dig = c == '0' || c == '1' || c == '2' || c == '3' || c == '4' || c == '5'
                    || c == '6' || c == '7' || c == '8' || c == '9';
                if !is_dig {
                    proof {
                        assert(!is_digit(tok@[t as int]));
                        assert(!is_canonical_index(tok@));
                    }
                    return None;
                }
                let d: u128 = if c == '0' {
                    0
                } else if c == '1' {
                    1
                } else if c == '2' {
                    2
                } else if c == '3' {
                    3
                } else if c == '4' {
                    4
                } else if c == '5' {
                    5
                } else if c == '6' {
                    6
                } else if c == '7' {
                    7
                } else if c == '8' {
                    8
                } else {
                    9
                };
                proof {
                    assert(d == digit_val(tok@[t as int]));
                    assert(tok@.subrange(0, t + 1).subrange(0, t as int) =~= tok@.subrange(
                        0,
                        t as int,
                    ));
                    assert(dec_value(tok@.subrange(0, t + 1)) == acc * 10 + d);
                    assert(acc * 10 + d < 0x7fff_ffff_ffff_ffff_ffff) by (nonlinear_arith)
                        requires
                            acc <= 0xffff_ffff_ffff_ffff,
                            d <= 9,
                    ;
                }
                acc = acc * 10 + d;
                t = t + 1;
                if acc >= len128 {
                    proof {
                        assert forall|m: int| 0 <= m < tok@.len() implies is_digit(
                            #[trigger] tok@[m],
                        ) || !is_canonical_index(tok@) by {}
                        if is_canonical_index(tok@) {
                            lemma_dec_value_monotone(tok@, t as int);
                            assert(dec_value(tok@) >= acc);
                            assert(!(dec_value(tok@) < ms.len()));
                        }
                    }
                    return None;
                }
            }
            proof {
                assert(tok@.subrange(0, n as int) =~= tok@);
                assert(is_canonical_index(tok@));
                assert(dec_value(tok@) == acc < ms.len());
                assert(token_step(v@, tok@) == Some(ms[acc as int]));
            }
            let pos: usize = acc as usize;
            Some(&elems[pos])
        },
        _ => None,
    }
}

/// Resolution of the raw segments of `p`, the remainder of a path after
/// its leading separator.
fn lookup_in<'a>(v: &'a Value, p: &str) -> (r: Option<&'a Value>)
    ensures
        match r {
            Some(c) => lookup_segs(v@, split_on_slash(p@)) == Some(c@),
            None => lookup_segs(v@, split_on_slash(p@)) is None,
        },
    decreases p@.len(),
{
    let n = p.unicode_len();
    let mut j: usize = 0;
    while j < n && p.get_char(j) != '/'
        invariant
            0 <= j <= n,
            n == p@.len(),
            forall|k: int| 0 <= k < j ==> p@[k] != '/',
        decreases n - j,
    {
        j = j + 1;
    }
    proof {
        if j < n {
            lemma_first_slash_at(p@, j as int);
        } else {
            lemma_first_slash(p@);
            if first_slash(p@) < n {
                assert(p@[first_slash(p@)] == '/');
                assert(false);
            }
        }
        assert(first_slash(p@) == j);
    }
    let seg_raw = p.substring_char(0, j);
    proof {
        assert(seg_raw@ =~= p@.subrange(0, j as int));
    }
    let tok = unescape_segment(seg_raw);
    let child_opt = exec_token_step(v, &tok);
    if j == n {
        proof {
            assert(split_on_slash(p@) =~= seq![p@]);
            assert(p@.subrange(0, j as int) =~= p@);
            assert(split_on_slash(p@)[0] == p@);
            assert(split_on_slash(p@).drop_first() =~= Seq::<Seq<char>>::empty());
        }
        match child_opt {
            Some(c) => {
                proof {
                    assert(step_model(v@, split_on_slash(p@)[0]) == Some(c@));
                    assert(lookup_segs(c@, Seq::<Seq<char>>::empty()) == Some(c@));
                    assert(lookup_segs(v@, split_on_slash(p@)) == Some(c@));
                }
                Some(c)
            },
            None => {
                proof {
                    assert(step_model(v@, split_on_slash(p@)[0]) is None);
                    assert(lookup_segs(v@, split_on_slash(p@)) is None);
                }
                None
            },
        }
    } else {
        proof {
            assert(split_on_slash(p@) =~= seq![p@.subrange(0, j as int)] + split_on_slash(
                p@.subrange(j + 1, n as int),
            ));
            assert(split_on_slash(p@)[0] == p@.subrange(0, j as int));
            assert(split_on_slash(p@).drop_first() =~= split_on_slash(
                p@.subrange(j + 1, n as int),
            ));
        }
        match child_opt {
            Some(child) => {
                proof {
                    assert(step_model(v@, split_on_slash(p@)[0]) == Some(child@));
                }
                let rest = p.substring_char(j + 1, n);
                proof {
                    assert(rest@ =~= p@.subrange(j + 1, n as int));
                }
                let r = lookup_in(child, rest);
                proof {
                    assert(split_on_slash(rest@) == split_on_slash(p@).drop_first());
                    assert(lookup_segs(v@, split_on_slash(p@)) == lookup_segs(
                        child@,
                        split_on_slash(rest@),
                    ));
                }
                r
            },
            None => {
                proof {
                    assert(step_model(v@, split_on_slash(p@)[0]) is None);
                    assert(lookup_segs(v@, split_on_slash(p@)) is None);
                }
                None
            },
        }
    }
}

impl ValueModel {
    /// Every object anywhere in the value carries each key once.
    pub open spec fn wf(self) -> bool
        decreases self,
    {
        match self {
            ValueModel::Array(elems) => forall|i: int|
                0 <= i < elems.len() ==> (#[trigger] elems[i]).wf(),
            ValueModel::Object(entries) => {
                &&& forall|i: int, j: int|
                    0 <= i < j < entries.len() ==> entries[i].0 != entries[j].0
                &&& forall|i: int| 0 <= i < entries.len() ==> (#[trigger] entries[i].1).wf()
            },
            _ => true,
        }
    }
}

/// What a key looks up to is the value of an entry carrying that key.
pub proof fn lemma_key_lookup_member(s: Seq<(Seq<char>, ValueModel)>, k: Seq<char>)
    ensures
        match key_lookup(s, k) {
            Some(w) => exists|i: int| 0 <= i < s.len() && #[trigger] s[i] == (k, w),
            None => true,
        },
    decreases s.len(),
{
    if s.len() > 0 && s[0].0 != k {
        let rest = s.drop_first();
        assert(forall|i: int| 0 <= i < rest.len() ==> rest[i] == #[trigger] s[i + 1]);
        lemma_key_lookup_member(rest, k);
        match key_lookup(s, k) {
            Some(w) => {
                let i = choose|i: int| 0 <= i < rest.len() && #[trigger] rest[i] == (k, w);
                assert(s[i + 1] == (k, w));
            },
            None => {},
        }
    }
}

/// What one token selects inside a well-formed value is well formed.
proof fn lemma_wf_token_step(v: ValueModel, tok: Seq<char>)
    requires
        v.wf(),
    ensures
        match token_step(v, tok) {
            Some(u) => u.wf(),
            None => true,
        },
{
    match v {
        ValueModel::Object(entries) => {
            lemma_key_lookup_member(entries, tok);
            match key_lookup(entries, tok) {
                Some(w) => {
                    let i = choose|i: int|
                        0 <= i < entries.len() && #[trigger] entries[i] == (tok, w);
                    assert(entries[i].1.wf());
                },
                None => {},
            }
        },
        ValueModel::Array(elems) => {
            if is_canonical_index(tok) && dec_value(tok) < elems.len() {
                lemma_dec_value_nonneg(tok);
                assert(elems[dec_value(tok)].wf());
            }
        },
        _ => {},
    }
}

/// What a list of segments resolves to inside a well-formed value is well
/// formed.
proof fn lemma_wf_lookup_segs(v: ValueModel, segs: Seq<Seq<char>>)
    requires
        v.wf(),
    ensures
        match lookup_segs(v, segs) {
            Some(u) => u.wf(),
            None => true,
        },
    decreases segs.len(),
{
    if segs.len() > 0 {
        lemma_wf_token_step(v, unescaped_seg(segs[0]));
        match step_model(v, segs[0]) {
            Some(c) => {
                lemma_wf_lookup_segs(c, segs.drop_first());
            },
            None => {},
        }
    }
}

/// What a path resolves to inside a well-formed value is well formed.
pub proof fn lemma_wf_pointer(v: ValueModel, p: Seq<char>)
    requires
        v.wf(),
    ensures
        match pointer_model(v, p) {
            Some(u) => u.wf(),
            None => true,
        },
{
    if p.len() > 0 && p[0] == '/' {
        lemma_wf_lookup_segs(v, split_on_slash(p.drop_first()));
    }
}

/// A key some entry carries looks up to something.
pub proof fn lemma_key_lookup_some(s: Seq<(Seq<char>, ValueModel)>, k: Seq<char>, m: int)
    requires
        0 <= m < s.len(),
        s[m].0 == k,
    ensures
        key_lookup(s, k) is Some,
    decreases s.len(),
{
    if s.len() > 0 && s[0].0 != k {
        let rest = s.drop_first();
        assert(forall|i: int| 0 <= i < rest.len() ==> rest[i] == #[trigger] s[i + 1]);
        lemma_key_lookup_some(rest, k, m - 1);
    }
}

/// Resolving one more segment resolves the step it names.
proof fn lemma_lookup_segs_push(v: ValueModel, segs: Seq<Seq<char>>, e: Seq<char>)
    ensures
        lookup_segs(v, segs.push(e)) == (match lookup_segs(v, segs) {
            Some(c) => step_model(c, e),
            None => None,
        }),
    decreases segs.len(),
{
    if segs.len() == 0 {
        assert(segs.push(e)[0] == e);
        assert(segs.push(e).drop_first() =~= Seq::<Seq<char>>::empty());
        match step_model(v, e) {
            Some(c) => {
                assert(lookup_segs(c, segs.push(e).drop_first()) == Some(c));
            },
            None => {},
        }
    } else {
        assert(segs.push(e)[0] == segs[0]);
        assert(segs.push(e).drop_first() =~= segs.drop_first().push(e));
        match step_model(v, segs[0]) {
            Some(c) => {
                lemma_lookup_segs_push(c, segs.drop_first(), e);
            },
            None => {},
        }
    }
}

/// Appending one separator-free segment to a path resolves the step it
/// names below what the path resolves to.
pub proof fn lemma_pointer_step(doc: ValueModel, p: Seq<char>, e: Seq<char>)
    requires
        forall|i: int| 0 <= i < e.len() ==> e[i] != '/',
    ensures
        pointer_model(doc, p + seq!['/'] + e) == (match pointer_model(doc, p) {
            Some(v) => step_model(v, e),
            None => None,
        }),
{
    let whole = p + seq!['/'] + e;
    assert(whole.len() > 0);
    if p.len() == 0 {
        assert(whole[0] == '/');
        assert(whole.drop_first() =~= e);
        lemma_split_whole(e);
        assert(split_on_slash(e) == seq![e]);
        assert(seq![e][0] == e);
        assert(seq![e].drop_first() =~= Seq::<Seq<char>>::empty());
        assert(pointer_model(doc, whole) == lookup_segs(doc, seq![e]));
        match step_model(doc, e) {
            Some(c) => {
                assert(lookup_segs(c, seq![e].drop_first()) == Some(c));
            },
            None => {},
        }
    } else if p[0] != '/' {
        assert(whole[0] == p[0]);
    } else {
        assert(whole[0] == '/');
        assert(whole.drop_first() =~= p.drop_first() + seq!['/'] + e);
        lemma_split_append(p.drop_first(), e);
        lemma_lookup_segs_push(doc, split_on_slash(p.drop_first()), e);
    }
}

/// The path of an object member resolves to what its key selects below
/// whatever the parent path resolves to.
pub proof fn lemma_pointer_child_key(doc: ValueModel, p: Seq<char>, k: Seq<char>)
    ensures
        pointer_model(doc, appended_key(p, k)) == (match pointer_model(doc, p) {
            Some(v) => token_step(v, k),
            None => None,
        }),
{
    lemma_escaped_key_no_slash(k);
    lemma_pointer_step(doc, p, escaped_key(k));
    lemma_escape_round_trip(k);
    match pointer_model(doc, p) {
        Some(v) => {
            assert(step_model(v, escaped_key(k)) == token_step(v, k));
        },
        None => {},
    }
}

/// The path of an array element resolves to the element where the parent
/// path resolves to an array long enough; in general, to what its decimal
/// numeral selects below the parent.
pub proof fn lemma_pointer_child_index(doc: ValueModel, p: Seq<char>, i: int)
    requires
        0 <= i,
    ensures
        pointer_model(doc, appended_index(p, i)) == (match pointer_model(doc, p) {
            Some(v) => token_step(v, dec_digits(i as nat)),
            None => None,
        }),
        pointer_model(doc, p) matches Some(ValueModel::Array(elems)) ==> pointer_model(
            doc,
            appended_index(p, i),
        ) == (if i < elems.len() {
            Some(elems[i])
        } else {
            None
        }),
{
    let e = dec_digits(i as nat);
    lemma_dec_digits(i as nat);
    assert forall|m: int| 0 <= m < e.len() implies e[m] != '/' by {
        assert(is_digit(e[m]));
    }
    assert forall|m: int| 0 <= m < e.len() implies e[m] != '~' by {
        assert(is_digit(e[m]));
    }
    lemma_pointer_step(doc, p, e);
    lemma_unescape_plain(e);
    match pointer_model(doc, p) {
        Some(v) => {
            assert(step_model(v, e) == token_step(v, e));
            match v {
                ValueModel::Array(elems) => {
                    assert(dec_value(e) == i);
                },
                _ => {},
            }
        },
        None => {},
    }
}

impl Value {
    /// Resolves a path against this value, tolerant of every kind of miss:
    /// a dangling key, an out-of-range or non-canonical position, a scalar
    /// in the middle, or a path without its leading separator.
    pub fn pointer<'a>(&'a self, p: &str) -> (r: Option<&'a Value>)
        ensures
            match r {
                Some(c) => pointer_model(self@, p@) == Some(c@),
                None => pointer_model(self@, p@) is None,
            },
    {
        let n = p.unicode_len();
        if n == 0 {
            return Some(self);
        }
        if p.get_char(0) != '/' {
            return None;
        }
        let rest = p.substring_char(1, n);
        proof {
            assert(rest@ =~= p@.drop_first());
        }
        lookup_in(self, rest)
    }
}

} // verus!
