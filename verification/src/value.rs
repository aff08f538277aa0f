//! The tagged result type of parsing one JSON element, and its deep
//! structural equality.

use vstd::prelude::*;
use vstd::pervasive::VecAdditionalExecFns;

verus! {

/// A parsed JSON number, held exactly as a canonical decimal
/// `(-1)^negative * 0.d1 d2 .. dk * 10^(exponent + 1)`, i.e. the significand
/// digits `d1..dk` with the decimal point placed after the first digit and
/// scaled by `10^exponent`.
///
/// Canonical form: the digit vector has no leading and no trailing zero
/// digit, and the number zero is the empty digit vector with a positive sign
/// and exponent zero. Two canonical numbers denote the same decimal value
/// exactly when they are equal field by field, so equality of parsed numbers
/// is field equality.
#[derive(Debug)]
pub struct Number {
    pub negative: bool,
    pub digits: Vec<u8>,
    pub exponent: i128,
}

impl Number {
    /// Canonical-form invariant; every number built by the parser satisfies it.
    pub open spec fn wf(&self) -> bool {
        &&& forall|i: int| 0 <= i < self.digits@.len() ==> self.digits@[i] <= 9
        &&& self.digits@.len() == 0 ==> !self.negative && self.exponent == 0
        &&& self.digits@.len() > 0 ==> self.digits@[0] != 0 && self.digits@[self.digits@.len()
            - 1] != 0
    }
}

/// The mathematical model of a `Value`: the same tree, over `Seq` and `Map`.
/// An object is modelled as a map from key text to value, so the model of an
/// object does not depend on the order in which its members were written.
pub enum SpecValue {
    Null,
    False,
    True,
    Num { negative: bool, digits: Seq<u8>, exponent: int },
    Text { s: Seq<char> },
    Arr { elems: Seq<SpecValue> },
    Obj { entries: Map<Seq<char>, SpecValue> },
}

/// The result of parsing one JSON element: a closed union with exactly seven
/// variants. `False` and `True` are kept distinct to mirror the grammar
/// productions one to one. An object holds its members as a vector of
/// key-value pairs with pairwise distinct keys; its model is the map those
/// pairs describe, with a later entry overriding an earlier one.
#[derive(Debug)]
pub enum Value {
    Null,
    False,
    True,
    Number { v: Number },
    String { v: String },
    Array { v: Vec<Value> },
    Object { v: Vec<(String, Value)> },
}

/// The map described by a vector of key-value pairs, a later pair winning
/// over an earlier one with the same key.
pub open spec fn entries_map(s: Seq<(String, Value)>) -> Map<Seq<char>, SpecValue>
    decreases s,
{
    if s.len() == 0 {
        Map::empty()
    } else {
        entries_map(s.drop_last()).insert(s.last().0@, s.last().1@)
    }
}

/// The models of the elements of a sequence of values, in order.
pub open spec fn elems_view(s: Seq<Value>) -> Seq<SpecValue>
    decreases s,
{
    if s.len() == 0 {
        Seq::empty()
    } else {
        elems_view(s.drop_last()).push(s.last()@)
    }
}

impl View for Value {
    type V = SpecValue;

    open spec fn view(&self) -> SpecValue
        decreases self,
    {
        match self {
            Value::Null => SpecValue::Null,
            Value::False => SpecValue::False,
            Value::True => SpecValue::True,
            Value::Number { v } => SpecValue::Num {
                negative: v.negative,
                digits: v.digits@,
                exponent: v.exponent as int,
            },
            Value::String { v } => SpecValue::Text { s: v@ },
            Value::Array { v } => SpecValue::Arr { elems: elems_view(v@) },
            Value::Object { v } => SpecValue::Obj { entries: entries_map(v@) },
        }
    }
}

impl Value {
    /// Well-formedness of the tree: numbers are canonical and object keys are
    /// pairwise distinct. The parser only returns well-formed trees.
    pub open spec fn wf(&self) -> bool
        decreases self,
    {
        match self {
            Value::Null => true,
            Value::False => true,
            Value::True => true,
            Value::Number { v } => v.wf(),
            Value::String { v } => true,
            Value::Array { v } => forall|i: int| 0 <= i < v@.len() ==> (#[trigger] v@[i]).wf(),
            Value::Object { v } => {
                &&& forall|i: int| 0 <= i < v@.len() ==> (#[trigger] v@[i]).1.wf()
                &&& forall|i: int, j: int|
                    0 <= i < j < v@.len() ==> (#[trigger] v@[i]).0@ != (#[trigger] v@[j]).0@
            },
        }
    }
}

/// The name of a value's variant, as the grammar knows it.
pub open spec fn spec_value_name(v: &Value) -> Seq<char> {
    match v {
        Value::Null => "null"@,
        Value::False => "false"@,
        Value::True => "true"@,
        Value::Number { v } => "number"@,
        Value::String { v } => "string"@,
        Value::Array { v } => "array"@,
        Value::Object { v } => "object"@,
    }
}

/// Names the variant of a value.
pub fn value_name(v: Value) -> (r: Option<&'static str>)
    ensures
        r matches Some(n) && n@ == spec_value_name(&v),
{
    match v {
        Value::Null => Some("null"),
        Value::False => Some("false"),
        Value::True => Some("true"),
        Value::Number { v: _ } => Some("number"),
        Value::String { v: _ } => Some("string"),
        Value::Array { v: _ } => Some("array"),
        Value::Object { v: _ } => Some("object"),
    }
}

/// The value the last pair with key `k` holds, if any pair has key `k`.
pub open spec fn last_val(s: Seq<(String, Value)>, k: Seq<char>) -> Option<SpecValue>
    decreases s.len(),
{
    if s.len() == 0 {
        None
    } else if s.last().0@ == k {
        Some(s.last().1@)
    } else {
        last_val(s.drop_last(), k)
    }
}

/// How `entries_map` relates to the pairs it was built from: a key is in the
/// map exactly when some pair carries it, and the map holds the value of the
/// last such pair.
pub proof fn lemma_entries_map(s: Seq<(String, Value)>, k: Seq<char>)
    ensures
        entries_map(s).contains_key(k) == (last_val(s, k) is Some),
        entries_map(s).contains_key(k) == (exists|i: int|
            0 <= i < s.len() && (#[trigger] s[i]).0@ == k),
        last_val(s, k) matches Some(sv) ==> entries_map(s)[k] == sv,
    decreases s.len(),
{
    if s.len() > 0 {
        lemma_entries_map(s.drop_last(), k);
        assert(entries_map(s) == entries_map(s.drop_last()).insert(s.last().0@, s.last().1@));
        if s.last().0@ == k {
            assert((s[s.len() - 1]).0@ == k);
        } else {
            if exists|i: int| 0 <= i < s.len() && (#[trigger] s[i]).0@ == k {
                let i = choose|i: int| 0 <= i < s.len() && (#[trigger] s[i]).0@ == k;
                assert(s.drop_last()[i] == s[i]);
            }
            if exists|i: int| 0 <= i < s.drop_last().len() && (#[trigger] s.drop_last()[i]).0@
                == k {
                let i = choose|i: int|
                    0 <= i < s.drop_last().len() && (#[trigger] s.drop_last()[i]).0@ == k;
                assert(s[i] == s.drop_last()[i]);
            }
        }
    }
}

/// `elems_view` is the pointwise model of its argument.
pub proof fn lemma_elems_view(s: Seq<Value>)
    ensures
        elems_view(s).len() == s.len(),
        forall|i: int| 0 <= i < s.len() ==> elems_view(s)[i] == (#[trigger] s[i])@,
    decreases s.len(),
{
    if s.len() > 0 {
        lemma_elems_view(s.drop_last());
        assert(elems_view(s) == elems_view(s.drop_last()).push(s.last()@));
        assert(forall|i: int| 0 <= i < s.len() - 1 ==> s.drop_last()[i] == #[trigger] s[i]);
        assert(forall|i: int|
            0 <= i < s.len() - 1 ==> elems_view(s)[i] == (#[trigger] s[i])@);
        assert(elems_view(s)[s.len() - 1] == s[s.len() - 1]@);
    }
}

/// The model of a number taken on its own.
pub open spec fn num_view(n: &Number) -> SpecValue {
    SpecValue::Num { negative: n.negative, digits: n.digits@, exponent: n.exponent as int }
}

/// Decides whether two digit vectors are equal.
fn eq_digits(a: &Vec<u8>, b: &Vec<u8>) -> (r: bool)
    ensures
        r == (a@ == b@),
{
    if a.len() != b.len() {
        return false;
    }
    let mut i: usize = 0;
    while i < a.len()
        invariant
            0 <= i <= a.len(),
            a@.len() == b@.len(),
            forall|j: int| 0 <= j < i ==> a@[j] == b@[j],
        decreases a.len() - i,
    {
        if a[i] != b[i] {
            return false;
        }
        i = i + 1;
    }
    proof {
        assert(a@ =~= b@);
    }
    true
}

/// What `eq_value` decides: equality of the two models. Object member
/// order cannot matter, since an object's model is a map.
pub open spec fn value_eq(a: &Value, b: &Value) -> bool {
    a@ == b@
}

/// Equality of values is reflexive.
pub proof fn lemma_value_eq_reflexive(a: &Value)
    ensures
        value_eq(a, a),
{
}

/// Equality of values is symmetric.
pub proof fn lemma_value_eq_symmetric(a: &Value, b: &Value)
    ensures
        value_eq(a, b) == value_eq(b, a),
{
}

/// Equality of values is transitive.
pub proof fn lemma_value_eq_transitive(a: &Value, b: &Value, c: &Value)
    requires
        value_eq(a, b),
        value_eq(b, c),
    ensures
        value_eq(a, c),
{
}

/// Deep structural equality of two values: equal exactly when their models
/// are equal, so object member order does not matter.
pub fn eq_value(lhs: &Value, rhs: &Value) -> (r: bool)
    ensures
        r == value_eq(lhs, rhs),
    decreases lhs,
{
    match lhs {
        Value::Null => eq_null(rhs),
        Value::False => eq_false(rhs),
        Value::True => eq_true(rhs),
        Value::Number { v } => eq_number(v, rhs),
        Value::String { v } => eq_string(v, rhs),
        Value::Array { v } => eq_array(v, rhs),
        Value::Object { v } => eq_object(v, rhs),
    }
}

/// Whether `v` is the null value.
pub fn eq_null(v: &Value) -> (r: bool)
    ensures
        r == (SpecValue::Null == v@),
{
    match v {
        Value::Null => true,
        _ => false,
    }
}

/// Whether `v` is the false value.
pub fn eq_false(v: &Value) -> (r: bool)
    ensures
        r == (SpecValue::False == v@),
{
    match v {
        Value::False => true,
        _ => false,
    }
}

/// Whether `v` is the true value.
pub fn eq_true(v: &Value) -> (r: bool)
    ensures
        r == (SpecValue::True == v@),
{
    match v {
        Value::True => true,
        _ => false,
    }
}

/// Whether `v` is a number equal to `f`.
pub fn eq_number(f: &Number, v: &Value) -> (r: bool)
    ensures
        r == (num_view(f) == v@),
{
    match v {
        Value::Number { v } => f.negative == v.negative && f.exponent == v.exponent && eq_digits(
            &f.digits,
            &v.digits,
        ),
        _ => false,
    }
}

/// Whether `v` is a string holding exactly the text `s`.
pub fn eq_string(s: &String, v: &Value) -> (r: bool)
    ensures
        r == (SpecValue::Text { s: s@ } == v@),
{
    match v {
        Value::String { v } => *v == *s,
        _ => false,
    }
}

/// Whether `v` is an array of the same length as `arr` whose elements are
/// pairwise equal to those of `arr`, in order.
#[verifier::loop_isolation(false)]
pub fn eq_array(arr: &Vec<Value>, v: &Value) -> (r: bool)
    ensures
        r == (SpecValue::Arr { elems: elems_view(arr@) } == v@),
    decreases arr,
{
    match v {
        Value::Array { v } => {
            proof {
                lemma_elems_view(arr@);
                lemma_elems_view(v@);
            }
            if arr.len() != v.len() {
                return false;
            }
            let mut i: usize = 0;
            while i < arr.len()
                invariant
                    0 <= i <= arr@.len(),
                    arr@.len() == v@.len(),
                    elems_view(arr@).len() == arr@.len(),
                    elems_view(v@).len() == v@.len(),
                    forall|j: int| 0 <= j < arr@.len() ==> elems_view(arr@)[j] == (
                    #[trigger] arr@[j])@,
                    forall|j: int| 0 <= j < v@.len() ==> elems_view(v@)[j] == (#[trigger] v@[j])@,
                    forall|j: int| 0 <= j < i ==> elems_view(arr@)[j] == elems_view(v@)[j],
                decreases arr@.len() - i,
            {
                if !eq_value(&arr[i], &v[i]) {
                    return false;
                }
                i = i + 1;
            }
            proof {
                assert(elems_view(arr@) =~= elems_view(v@));
            }
            true
        },
        _ => false,
    }
}

/// The index of the last pair of `s` whose key is `k`, if there is one.
fn find_last_idx(s: &Vec<(String, Value)>, k: &String) -> (r: Option<usize>)
    ensures
        match r {
            Some(i) => i < s@.len() && s@[i as int].0@ == k@ && last_val(s@, k@) == Some(
                s@[i as int].1@,
            ),
            None => last_val(s@, k@) is None,
        },
{
    let mut i: usize = s.len();
    proof {
        assert(s@.subrange(0, s@.len() as int) =~= s@);
    }
    while i > 0
        invariant
            0 <= i <= s@.len(),
            last_val(s@, k@) == last_val(s@.subrange(0, i as int), k@),
        decreases i,
    {
        i = i - 1;
        proof {
            assert(s@.subrange(0, i + 1 as int).drop_last() =~= s@.subrange(0, i as int));
            assert(s@.subrange(0, i + 1 as int).last() == s@[i as int]);
        }
        if s[i].0 == *k {
            return Some(i);
        }
    }
    proof {
        assert(s@.subrange(0, 0) =~= Seq::<(String, Value)>::empty());
    }
    None
}

/// Whether `v` is an object describing the same key-to-value map as the
/// pairs `obj`, whatever order either side lists its members in.
#[verifier::loop_isolation(false)]
pub fn eq_object(obj: &Vec<(String, Value)>, v: &Value) -> (r: bool)
    ensures
        r == (SpecValue::Obj { entries: entries_map(obj@) } == v@),
    decreases obj,
{
    match v {
        Value::Object { v } => {
            let mut i: usize = 0;
            while i < obj.len()
                invariant
                    0 <= i <= obj@.len(),
                    forall|t: int|
                        0 <= t < i ==> {
                            &&& entries_map(v@).contains_key((#[trigger] obj@[t]).0@)
                            &&& entries_map(obj@).contains_key(obj@[t].0@)
                            &&& entries_map(v@)[obj@[t].0@] == entries_map(obj@)[obj@[t].0@]
                        },
                decreases obj@.len() - i,
            {
                let k = &obj[i].0;
                proof {
                    lemma_entries_map(obj@, k@);
                    lemma_entries_map(v@, k@);
                }
                let a = find_last_idx(obj, k);
                let ai = a.unwrap();
                match find_last_idx(v, k) {
                    None => {
                        proof {
                            assert(entries_map(obj@).contains_key(k@));
                            assert(!entries_map(v@).contains_key(k@));
                        }
                        return false;
                    },
                    Some(bi) => {
                        if !eq_value(&obj[ai].1, &v[bi].1) {
                            proof {
                                assert(entries_map(obj@)[k@] != entries_map(v@)[k@]);
                                assert(entries_map(obj@) != entries_map(v@));
                            }
                            return false;
                        }
                    },
                }
                i = i + 1;
            }
            let mut j: usize = 0;
            while j < v.len()
                invariant
                    0 <= j <= v@.len(),
                    forall|t: int|
                        0 <= t < obj@.len() ==> {
                            &&& entries_map(v@).contains_key((#[trigger] obj@[t]).0@)
                            &&& entries_map(obj@).contains_key(obj@[t].0@)
                            &&& entries_map(v@)[obj@[t].0@] == entries_map(obj@)[obj@[t].0@]
                        },
                    forall|t: int|
                        0 <= t < j ==> entries_map(obj@).contains_key((#[trigger] v@[t]).0@),
                decreases v@.len() - j,
            {
                let k = &v[j].0;
                proof {
                    lemma_entries_map(obj@, k@);
                    lemma_entries_map(v@, k@);
                }
                if find_last_idx(obj, k).is_none() {
                    proof {
                        assert(entries_map(v@).contains_key(k@));
                        assert(!entries_map(obj@).contains_key(k@));
                    }
                    return false;
                }
                j = j + 1;
            }
            proof {
                assert forall|k: Seq<char>| #[trigger]
                    entries_map(obj@).contains_key(k)
                        == entries_map(v@).contains_key(k) by {
                    lemma_entries_map(obj@, k);
                    lemma_entries_map(v@, k);
                }
                assert forall|k: Seq<char>|
                    entries_map(obj@).contains_key(k) implies #[trigger] entries_map(obj@)[k]
                    == entries_map(v@)[k] by {
                    lemma_entries_map(obj@, k);
                    lemma_entries_map(v@, k);
                }
                assert(entries_map(obj@) =~= entries_map(v@));
            }
            true
        },
        _ => false,
    }
}

/// Pairwise distinct keys.
pub open spec fn key_unique(s: Seq<(String, Value)>) -> bool {
    forall|i: int, j: int| 0 <= i < j < s.len() ==> (#[trigger] s[i]).0@ != (#[trigger] s[j]).0@
}

/// Replacing the pair at `i`, whose key is `k`, is inserting over that key.
pub proof fn lemma_entries_map_update(s: Seq<(String, Value)>, i: int, k: String, val: Value)
    requires
        0 <= i < s.len(),
        s[i].0@ == k@,
        key_unique(s),
    ensures
        entries_map(s.update(i, (k, val))) == entries_map(s).insert(k@, val@),
    decreases s.len(),
{
    let s2 = s.update(i, (k, val));
    assert(entries_map(s2) == entries_map(s2.drop_last()).insert(s2.last().0@, s2.last().1@));
    assert(entries_map(s) == entries_map(s.drop_last()).insert(s.last().0@, s.last().1@));
    if i == s.len() - 1 {
        assert(s2.drop_last() =~= s.drop_last());
        assert(s2.last() == (k, val));
        assert(entries_map(s.drop_last()).insert(k@, val@) =~= entries_map(
            s.drop_last(),
        ).insert(s.last().0@, s.last().1@).insert(k@, val@));
    } else {
        assert(s2.last() == s.last());
        assert(s2.drop_last() =~= s.drop_last().update(i, (k, val)));
        assert(forall|a: int, b: int|
            0 <= a < b < s.drop_last().len() ==> (#[trigger] s.drop_last()[a]).0@ != (
            #[trigger] s.drop_last()[b]).0@);
        lemma_entries_map_update(s.drop_last(), i, k, val);
        assert(s.last().0@ != k@);
        assert(entries_map(s.drop_last()).insert(k@, val@).insert(s.last().0@, s.last().1@)
            =~= entries_map(s.drop_last()).insert(s.last().0@, s.last().1@).insert(k@, val@));
    }
}

/// Inserts a member, overwriting the pair that already carries the key if
/// there is one, so keys stay pairwise distinct and the described map gains
/// exactly this binding.
#[verifier::loop_isolation(false)]
pub fn object_insert(entries: &mut Vec<(String, Value)>, k: String, val: Value)
    requires
        key_unique(old(entries)@),
    ensures
        key_unique(final(entries)@),
        entries_map(final(entries)@) == entries_map(old(entries)@).insert(k@, val@),
        (val.wf() && (forall|t: int|
            0 <= t < old(entries)@.len() ==> (#[trigger] old(entries)@[t]).1.wf())) ==> (forall|
            t: int,
        |
            0 <= t < final(entries)@.len() ==> (#[trigger] final(entries)@[t]).1.wf()),
{
    let mut i: usize = 0;
    while i < entries.len()
        invariant
            0 <= i <= entries@.len(),
            entries@ == old(entries)@,
            forall|t: int| 0 <= t < i ==> (#[trigger] entries@[t]).0@ != k@,
        decreases entries@.len() - i,
    {
        if entries[i].0 == k {
            proof {
                lemma_entries_map_update(entries@, i as int, k, val);
            }
            entries.set(i, (k, val));
            proof {
                assert(forall|t: int|
                    0 <= t < entries@.len() ==> (#[trigger] entries@[t]).0@ == old(
                        entries,
                    )@[t].0@);
            }
            return ;
        }
        i = i + 1;
    }
    proof {
        lemma_entries_map(entries@, k@);
    }
    entries.push((k, val));
    proof {
        assert(entries@.drop_last() =~= old(entries)@);
        assert(entries_map(entries@) == entries_map(old(entries)@).insert(k@, val@));
    }
}

impl PartialEq for Value {
    /// Deep structural equality, as `eq_value` decides it.
    fn eq(&self, other: &Self) -> (r: bool) {
        eq_value(self, other)
    }
}

impl vstd::std_specs::cmp::PartialEqSpecImpl for Value {
    open spec fn obeys_eq_spec() -> bool {
        true
    }

    open spec fn eq_spec(&self, other: &Value) -> bool {
        self@ == other@
    }
}

/// The text held by a string value, and nothing for any other variant.
pub fn value_string(v: Value) -> (r: Option<String>)
    ensures
        match v {
            Value::String { v: s } => r matches Some(t) && t == s,
            _ => r is None,
        },
{
    match v {
        Value::String { v } => Some(v),
        _ => None,
    }
}

} // verus!
