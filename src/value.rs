use vstd::prelude::*;

verus! {

/// Mathematical model of a document value.
pub enum Value {
    Undefined,
    Null,
    Bool(bool),
    Number(u64),
    Str(Seq<char>),
    Function,
    Array(Seq<Value>),
    Object(Seq<(Seq<char>, Value)>),
}

/// A document value as the host hands it over: a closed sum of the shapes a
/// host value can take.  A number is held as the bit pattern of its IEEE-754
/// double; an object keeps its properties in enumeration order.
#[derive(Debug, PartialEq)]
pub enum RawValue {
    Undefined,
    Null,
    Bool(bool),
    Number(u64),
    Str(String),
    Function,
    Array(Vec<RawValue>),
    Object(Vec<(String, RawValue)>),
}

pub open spec fn model_of(v: RawValue) -> Value
    decreases v,
{
    match v {
        RawValue::Undefined => Value::Undefined,
        RawValue::Null => Value::Null,
        RawValue::Bool(b) => Value::Bool(b),
        RawValue::Number(n) => Value::Number(n),
        RawValue::Str(s) => Value::Str(s@),
        RawValue::Function => Value::Function,
        RawValue::Array(items) => Value::Array(items_model(items@)),
        RawValue::Object(props) => Value::Object(props_model(props@)),
    }
}

/// Model of the elements of an array.
pub open spec fn items_model(items: Seq<RawValue>) -> Seq<Value>
    decreases items,
{
    Seq::new(
        items.len(),
        |i: int|
            if 0 <= i < items.len() {
                model_of(items[i])
            } else {
                Value::Undefined
            },
    )
}

/// Model of the properties of an object.
pub open spec fn props_model(props: Seq<(String, RawValue)>) -> Seq<(Seq<char>, Value)>
    decreases props,
{
    Seq::new(
        props.len(),
        |i: int|
            if 0 <= i < props.len() {
                (props[i].0@, model_of(props[i].1))
            } else {
                (Seq::empty(), Value::Undefined)
            },
    )
}

impl View for RawValue {
    type V = Value;

    open spec fn view(&self) -> Value {
        model_of(*self)
    }
}

/// `i` is the first position in `props` whose name is `key`.
pub open spec fn first_key(props: Seq<(Seq<char>, Value)>, key: Seq<char>, i: int) -> bool {
    &&& 0 <= i < props.len()
    &&& props[i].0 == key
    &&& forall|j: int| 0 <= j < i ==> #[trigger] props[j].0 != key
}

/// Some property of `props` is named `key`.
pub open spec fn has_key(props: Seq<(Seq<char>, Value)>, key: Seq<char>) -> bool {
    exists|i: int| 0 <= i < props.len() && #[trigger] props[i].0 == key
}

/// The value of property `key` of `v`: the first property of that name
/// when `v` is an object, absent otherwise.
pub open spec fn property(v: Value, key: Seq<char>) -> Option<Value> {
    match v {
        Value::Object(props) => if exists|i: int| first_key(props, key, i) {
            Some(props[choose|i: int| first_key(props, key, i)].1)
        } else {
            None
        },
        _ => None,
    }
}

/// No two properties of `props` share a name.
pub open spec fn keys_distinct(props: Seq<(Seq<char>, Value)>) -> bool {
    forall|i: int, j: int| 0 <= i < j < props.len() ==> props[i].0 != props[j].0
}

/// Every object within `v`, `v` included, has distinct property names.
pub open spec fn well_keyed(v: Value) -> bool
    decreases v,
{
    match v {
        Value::Object(ps) => keys_distinct(ps) && forall|i: int|
            0 <= i < ps.len() ==> well_keyed(#[trigger] ps[i].1),
        Value::Array(xs) => forall|i: int| 0 <= i < xs.len() ==> well_keyed(#[trigger] xs[i]),
        _ => true,
    }
}

/// Deep equality of document values.  Arrays are equal element by element;
/// objects are equal when they have the same property names and the same
/// value under each name, in any order.  A function is opaque and equal to
/// nothing.
pub open spec fn same(a: Value, b: Value) -> bool
    decreases a, 0int,
{
    match a {
        Value::Undefined => b is Undefined,
        Value::Null => b is Null,
        Value::Bool(x) => b == Value::Bool(x),
        Value::Number(x) => b == Value::Number(x),
        Value::Str(s) => b == Value::Str(s),
        Value::Function => false,
        Value::Array(xs) => match b {
            Value::Array(ys) => xs.len() == ys.len() && forall|i: int|
                0 <= i < xs.len() ==> same(xs[i], #[trigger] ys[i]),
            _ => false,
        },
        Value::Object(xs) => match b {
            Value::Object(ys) => within(xs, b) && forall|j: int|
                0 <= j < ys.len() ==> has_key(xs, #[trigger] ys[j].0),
            _ => false,
        },
    }
}

/// Every property of `xs` is present in `b` with a deeply equal value.
pub open spec fn within(xs: Seq<(Seq<char>, Value)>, b: Value) -> bool
    decreases xs, 0int,
{
    forall|i: int|
        0 <= i < xs.len() ==> match property(b, #[trigger] xs[i].0) {
            Some(w) => same(xs[i].1, w),
            None => false,
        }
}


/// Model of an optional borrowed value.
pub open spec fn opt_model(r: Option<&RawValue>) -> Option<Value> {
    match r {
        Some(w) => Some(w@),
        None => None,
    }
}

impl RawValue {
    /// The value of property `key`: the first property of that name when
    /// this value is an object.
    pub fn get(&self, key: &String) -> (r: Option<&RawValue>)
        ensures
            opt_model(r) == property(self@, key@),
    {
        match self {
            RawValue::Object(props) => {
                let ghost m = self@->Object_0;
                assert(self@ == Value::Object(m));
                let mut i: usize = 0;
                while i < props.len()
                    invariant
                        i <= props@.len(),
                        self@ == Value::Object(m),
                        m.len() == props@.len(),
                        forall|j: int| 0 <= j < props@.len() ==> #[trigger] m[j] == (props@[j].0@, props@[j].1@),
                        forall|j: int| 0 <= j < i ==> #[trigger] m[j].0 != key@,
                    decreases props@.len() - i,
                {
                    if props[i].0 == *key {
                        assert(first_key(m, key@, i as int));
                        let ghost c = choose|c: int| first_key(m, key@, c);
                        assert(c == i) by {
                            if c < i {
                                assert(m[c].0 != key@);
                            } else if c > i {
                                assert(m[i as int].0 != key@);
                            }
                        }
                        return Some(&props[i].1);
                    }
                    i = i + 1;
                }
                None
            },
            _ => None,
        }
    }
}


/// Deep equality of two values, as `same` states it.
pub fn same_value(a: &RawValue, b: &RawValue) -> (r: bool)
    ensures
        r == same(a@, b@),
    decreases a,
{
    match a {
        RawValue::Undefined => matches!(b, RawValue::Undefined),
        RawValue::Null => matches!(b, RawValue::Null),
        RawValue::Bool(x) => match b {
            RawValue::Bool(y) => *x == *y,
            _ => false,
        },
        RawValue::Number(x) => match b {
            RawValue::Number(y) => *x == *y,
            _ => false,
        },
        RawValue::Str(x) => match b {
            RawValue::Str(y) => *x == *y,
            _ => false,
        },
        RawValue::Function => false,
        RawValue::Array(xs) => match b {
            RawValue::Array(ys) => {
                let ghost mx = items_model(xs@);
                let ghost my = items_model(ys@);
                if xs.len() != ys.len() {
                    return false;
                }
                let mut i: usize = 0;
                while i < xs.len()
                    invariant
                        i <= xs@.len() == ys@.len(),
                        *a == RawValue::Array(*xs),
                        a@ == Value::Array(mx),
                        b@ == Value::Array(my),
                        mx == items_model(xs@),
                        my == items_model(ys@),
                        forall|j: int| 0 <= j < i ==> same(mx[j], #[trigger] my[j]),
                    decreases xs@.len() - i,
                {
                    proof {
                        assert(decreases_to!(xs => xs[i as int]));
                    }
                    assert(mx[i as int] == xs@[i as int]@ && my[i as int] == ys@[i as int]@);
                    if !same_value(&xs[i], &ys[i]) {
                        return false;
                    }
                    i = i + 1;
                }
                true
            },
            _ => false,
        },
        RawValue::Object(xs) => match b {
            RawValue::Object(ys) => {
                let ghost mx = props_model(xs@);
                let ghost my = props_model(ys@);
                if !within_props(xs, b) {
                    return false;
                }
                let mut j: usize = 0;
                while j < ys.len()
                    invariant
                        j <= ys@.len(),
                        a@ == Value::Object(mx),
                        b@ == Value::Object(my),
                        mx == props_model(xs@),
                        my == props_model(ys@),
                        within(mx, b@),
                        forall|k: int| 0 <= k < j ==> has_key(mx, #[trigger] my[k].0),
                    decreases ys@.len() - j,
                {
                    let mut i: usize = 0;
                    let mut found = false;
                    while i < xs.len() && !found
                        invariant
                            i <= xs@.len(),
                            j < ys@.len(),
                            a@ == Value::Object(mx),
                            b@ == Value::Object(my),
                            mx == props_model(xs@),
                            my == props_model(ys@),
                            found ==> has_key(mx, my[j as int].0),
                            !found ==> forall|k: int| 0 <= k < i ==> #[trigger] mx[k].0 != my[j as int].0,
                        decreases xs@.len() - i,
                    {
                        assert(mx[i as int].0 == xs@[i as int].0@ && my[j as int].0 == ys@[j as int].0@);
                        if xs[i].0 == ys[j].0 {
                            found = true;
                        }
                        i = i + 1;
                    }
                    if !found {
                        assert(!has_key(mx, my[j as int].0)) by {
                            assert(i == xs@.len());
                        }
                        assert(a@ == Value::Object(mx));
                        assert(!(forall|k: int| 0 <= k < my.len() ==> has_key(mx, #[trigger] my[k].0)));
                        assert(!same(a@, b@));
                        return false;
                    }
                    j = j + 1;
                }
                true
            },
            _ => false,
        },
    }
}

/// Whether every property of `xs` is present in `b` with a deeply equal
/// value, as `within` states it.
pub fn within_props(xs: &Vec<(String, RawValue)>, b: &RawValue) -> (r: bool)
    ensures
        r == within(props_model(xs@), b@),
    decreases xs,
{
    let ghost mx = props_model(xs@);
    let mut i: usize = 0;
    while i < xs.len()
        invariant
            i <= xs@.len(),
            mx == props_model(xs@),
            forall|k: int|
                0 <= k < i ==> match property(b@, #[trigger] mx[k].0) {
                    Some(w) => same(mx[k].1, w),
                    None => false,
                },
        decreases xs@.len() - i,
    {
        assert(mx[i as int] == (xs@[i as int].0@, xs@[i as int].1@));
        proof {
            assert(decreases_to!(xs => xs[i as int]));
        }
        match b.get(&xs[i].0) {
            Some(w) => {
                if !same_value(&xs[i].1, w) {
                    assert(property(b@, mx[i as int].0) == Some(w@));
                    assert(!within(mx, b@));
                    return false;
                }
            },
            None => {
                assert(property(b@, mx[i as int].0) is None);
                assert(!within(mx, b@));
                return false;
            },
        }
        i = i + 1;
    }
    true
}

} // verus!
