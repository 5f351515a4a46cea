//! JSON values, their mathematical model, structural equality and deep copy.
use vstd::prelude::*;

verus! {

broadcast use {
    vstd::std_specs::vec::axiom_vec_index_decreases,
    vstd::std_specs::vec::axiom_vec_decreases_to_view,
};

/// The sign bit of an IEEE-754 double; on its own it is negative zero.
pub const NEGATIVE_ZERO_BITS: u64 = 0x8000_0000_0000_0000;

/// A JSON number as a JSON parser holds it: a non-negative integer, a negative
/// integer, or a finite double given by its IEEE-754 bit pattern. `==`
/// compares representations; `number_eq` compares values.
#[derive(Clone, Copy, Debug, PartialEq, Eq, Structural)]
pub enum Number {
    PosInt(u64),
    NegInt(i64),
    Float(u64),
}

/// A JSON value. An object is a list of members whose keys are distinct
/// (see `Value::wf`); the order of members carries no meaning.
#[derive(Debug)]
pub enum Value {
    Null,
    Bool(bool),
    Number(Number),
    String(String),
    Array(Vec<Value>),
    Object(Vec<(String, Value)>),
}

/// The mathematical model of a JSON value: strings as character sequences,
/// numbers by their value, objects as maps from keys to values.
pub enum Json {
    Null,
    Bool(bool),
    Number(Number),
    Str(Seq<char>),
    Array(Seq<Json>),
    Object(Map<Seq<char>, Json>),
}

/// Numbers compare by value: the two zeros of a double are the same number.
pub open spec fn canonical(n: Number) -> Number {
    if n == Number::Float(NEGATIVE_ZERO_BITS) {
        Number::Float(0)
    } else {
        n
    }
}

pub open spec fn has_key(es: Seq<(String, Value)>, k: Seq<char>) -> bool {
    exists|i: int| 0 <= i < es.len() && #[trigger] es[i].0@ == k
}

/// The position of the member with key `k` (meaningful when `has_key(es, k)`).
pub open spec fn key_index(es: Seq<(String, Value)>, k: Seq<char>) -> int {
    choose|i: int| 0 <= i < es.len() && #[trigger] es[i].0@ == k
}

pub open spec fn keys_unique(es: Seq<(String, Value)>) -> bool {
    forall|i: int, j: int| 0 <= i < es.len() && 0 <= j < es.len() && i != j
        ==> #[trigger] es[i].0@ != #[trigger] es[j].0@
}

impl Value {
    /// Every object, at every depth, has distinct keys.
    pub open spec fn wf(self) -> bool
        decreases self,
    {
        match self {
            Value::Array(v) => forall|i: int| 0 <= i < v.len() ==> (#[trigger] v@[i]).wf(),
            Value::Object(es) => keys_unique(es@) && forall|i: int|
                0 <= i < es.len() ==> (#[trigger] es@[i]).1.wf(),
            _ => true,
        }
    }

    pub open spec fn model(self) -> Json
        decreases self,
    {
        match self {
            Value::Null => Json::Null,
            Value::Bool(b) => Json::Bool(b),
            Value::Number(n) => Json::Number(canonical(n)),
            Value::String(s) => Json::Str(s@),
            Value::Array(v) => Json::Array(
                Seq::new(
                    v.len() as nat,
                    |i: int|
                        if 0 <= i < v.len() {
                            v[i].model()
                        } else {
                            Json::Null
                        },
                ),
            ),
            Value::Object(es) => Json::Object(
                Map::new(
                    |k: Seq<char>| has_key(es@, k),
                    |k: Seq<char>|
                        {
                            let i = key_index(es@, k);
                            if 0 <= i < es.len() {
                                es@[i].1.model()
                            } else {
                                Json::Null
                            }
                        },
                ),
            ),
        }
    }
}

/// In an object with distinct keys, a key's position is the one member that
/// holds it.
pub proof fn lemma_key_index(es: Seq<(String, Value)>, i: int)
    requires
        keys_unique(es),
        0 <= i < es.len(),
    ensures
        has_key(es, es[i].0@),
        key_index(es, es[i].0@) == i,
{
    assert(has_key(es, es[i].0@));
}

/// The model of an object member is the model of the value stored under it.
pub proof fn lemma_member_model(es: Vec<(String, Value)>, i: int)
    requires
        keys_unique(es@),
        0 <= i < es.len(),
    ensures
        Value::Object(es).model()->Object_0.contains_key(es@[i].0@),
        Value::Object(es).model()->Object_0[es@[i].0@] == es@[i].1.model(),
{
    lemma_key_index(es@, i);
}

pub(crate) proof fn lemma_wf_element(v: Vec<Value>, i: int)
    requires
        Value::Array(v).wf(),
        0 <= i < v.len(),
    ensures
        v@[i].wf(),
        decreases_to!(Value::Array(v) => v@[i]),
{
    let x = Value::Array(v);
    assert(x->Array_0 == v);
    assert(v@[i].wf());
    assert(decreases_to!(v => v[i]));
}

pub(crate) proof fn lemma_wf_member(es: Vec<(String, Value)>, i: int)
    requires
        Value::Object(es).wf(),
        0 <= i < es.len(),
    ensures
        keys_unique(es@),
        es@[i].1.wf(),
        decreases_to!(Value::Object(es) => es@[i].1),
{
    let x = Value::Object(es);
    assert(x->Object_0 == es);
    assert(es@[i].1.wf());
    assert(decreases_to!(es => es[i]));
}

/// Equality of numbers by value.
pub fn number_eq(a: Number, b: Number) -> (r: bool)
    ensures
        r == (canonical(a) == canonical(b)),
{
    match (a, b) {
        (Number::PosInt(x), Number::PosInt(y)) => x == y,
        (Number::NegInt(x), Number::NegInt(y)) => x == y,
        (Number::Float(x), Number::Float(y)) => {
            x == y || ((x == 0 || x == NEGATIVE_ZERO_BITS) && (y == 0 || y == NEGATIVE_ZERO_BITS))
        },
        _ => false,
    }
}

/// The position of the member with key `k`, if the object has one.
pub fn find_key(es: &Vec<(String, Value)>, k: &String) -> (r: Option<usize>)
    ensures
        r is Some <==> has_key(es@, k@),
        r matches Some(i) ==> i < es.len() && es@[i as int].0@ == k@,
{
    let mut i: usize = 0;
    while i < es.len()
        invariant
            i <= es.len(),
            forall|j: int| 0 <= j < i ==> (#[trigger] es@[j]).0@ != k@,
        decreases es.len() - i,
    {
        if es[i].0 == *k {
            return Some(i);
        }
        i = i + 1;
    }
    None
}

/// `b` is `a` member for member: the same kinds, numbers and strings, and
/// array items and object members in the same order.
pub open spec fn same_value(a: Value, b: Value) -> bool
    decreases a,
{
    match a {
        Value::Array(v) => b is Array && b->Array_0.len() == v.len() && forall|i: int|
            0 <= i < v.len() ==> same_value(#[trigger] v@[i], b->Array_0@[i]),
        Value::Object(es) => b is Object && b->Object_0.len() == es.len() && forall|i: int|
            0 <= i < es.len() ==> (#[trigger] es@[i]).0@ == b->Object_0@[i].0@ && same_value(
                es@[i].1,
                b->Object_0@[i].1,
            ),
        Value::String(t) => b is String && b->String_0@ == t@,
        _ => b == a,
    }
}

impl Value {
    /// An independent copy of the value, sharing nothing with it.
    pub fn deep_copy(&self) -> (r: Value)
        requires
            self.wf(),
        ensures
            r.wf(),
            r.model() == self.model(),
            same_value(*self, r),
        decreases self,
    {
        match self {
            Value::Null => Value::Null,
            Value::Bool(b) => Value::Bool(*b),
            Value::Number(n) => Value::Number(*n),
            Value::String(s) => Value::String(s.clone()),
            Value::Array(v) => {
                let mut out: Vec<Value> = Vec::new();
                let mut i: usize = 0;
                while i < v.len()
                    invariant
                        self.wf(),
                        *self == Value::Array(*v),
                        i <= v.len(),
                        out.len() == i,
                        forall|j: int|
                            0 <= j < i ==> (#[trigger] out@[j]).wf() && out@[j].model()
                                == v@[j].model() && same_value(v@[j], out@[j]),
                    decreases v.len() - i,
                {
                    proof {
                        lemma_wf_element(*v, i as int);
                    }
                    let c = v[i].deep_copy();
                    out.push(c);
                    i = i + 1;
                }
                let r = Value::Array(out);
                assert(r.model()->Array_0 =~= self.model()->Array_0);
                assert(r->Array_0 == out);
                r
            },
            Value::Object(es) => {
                let mut out: Vec<(String, Value)> = Vec::new();
                let mut i: usize = 0;
                while i < es.len()
                    invariant
                        self.wf(),
                        *self == Value::Object(*es),
                        i <= es.len(),
                        out.len() == i,
                        forall|j: int|
                            0 <= j < i ==> (#[trigger] out@[j]).0@ == es@[j].0@ && out@[j].1.wf()
                                && out@[j].1.model() == es@[j].1.model() && same_value(
                                es@[j].1,
                                out@[j].1,
                            ),
                    decreases es.len() - i,
                {
                    proof {
                        lemma_wf_member(*es, i as int);
                    }
                    let k = es[i].0.clone();
                    let c = es[i].1.deep_copy();
                    out.push((k, c));
                    i = i + 1;
                }
                assert(keys_unique(out@)) by {
                    assert forall|a: int, b: int|
                        0 <= a < out.len() && 0 <= b < out.len() && a != b implies #[trigger] out@[a].0@
                        != #[trigger] out@[b].0@ by {
                        assert(es@[a].0@ != es@[b].0@);
                    }
                }
                let r = Value::Object(out);
                assert(r->Object_0 == out);
                let ghost rm = r.model()->Object_0;
                let ghost sm = self.model()->Object_0;
                assert forall|k: Seq<char>| rm.contains_key(k) == sm.contains_key(k) by {
                    if has_key(out@, k) {
                        let j = choose|j: int| 0 <= j < out.len() && #[trigger] out@[j].0@ == k;
                        assert(es@[j].0@ == k);
                    }
                    if has_key(es@, k) {
                        let j = choose|j: int| 0 <= j < es.len() && #[trigger] es@[j].0@ == k;
                        assert(out@[j].0@ == k);
                    }
                }
                assert forall|k: Seq<char>| rm.contains_key(k) implies rm[k] == sm[k] by {
                    let j = choose|j: int| 0 <= j < out.len() && #[trigger] out@[j].0@ == k;
                    lemma_member_model(out, j);
                    lemma_member_model(*es, j);
                }
                assert(rm =~= sm);
                r
            },
        }
    }
}

/// Structural equality: same kind and same contents, arrays in order,
/// objects by their sets of members.
pub fn values_equal(a: &Value, b: &Value) -> (r: bool)
    requires
        a.wf(),
        b.wf(),
    ensures
        r == (a.model() == b.model()),
    decreases a,
{
    match (a, b) {
        (Value::Null, Value::Null) => true,
        (Value::Bool(x), Value::Bool(y)) => *x == *y,
        (Value::Number(x), Value::Number(y)) => number_eq(*x, *y),
        (Value::String(x), Value::String(y)) => *x == *y,
        (Value::Array(x), Value::Array(y)) => {
            let ghost xs = a.model()->Array_0;
            let ghost ys = b.model()->Array_0;
            if x.len() != y.len() {
                assert(xs.len() != ys.len());
                return false;
            }
            let mut i: usize = 0;
            while i < x.len()
                invariant
                    a.wf(),
                    b.wf(),
                    *a == Value::Array(*x),
                    *b == Value::Array(*y),
                    x.len() == y.len(),
                    xs == a.model()->Array_0,
                    ys == b.model()->Array_0,
                    i <= x.len(),
                    forall|j: int| 0 <= j < i ==> #[trigger] xs[j] == ys[j],
                decreases x.len() - i,
            {
                proof {
                    lemma_wf_element(*x, i as int);
                    lemma_wf_element(*y, i as int);
                }
                if !values_equal(&x[i], &y[i]) {
                    assert(xs[i as int] != ys[i as int]);
                    return false;
                }
                i = i + 1;
            }
            assert(xs =~= ys);
            true
        },
        (Value::Object(x), Value::Object(y)) => {
            let ghost xm = a.model()->Object_0;
            let ghost ym = b.model()->Object_0;
            let mut i: usize = 0;
            while i < x.len()
                invariant
                    a.wf(),
                    b.wf(),
                    *a == Value::Object(*x),
                    *b == Value::Object(*y),
                    xm == a.model()->Object_0,
                    ym == b.model()->Object_0,
                    i <= x.len(),
                    forall|j: int|
                        0 <= j < i ==> ym.contains_key(#[trigger] x@[j].0@) && xm[x@[j].0@]
                            == ym[x@[j].0@],
                decreases x.len() - i,
            {
                proof {
                    lemma_wf_member(*x, i as int);
                    lemma_member_model(*x, i as int);
                }
                match find_key(y, &x[i].0) {
                    None => {
                        return false;
                    },
                    Some(p) => {
                        proof {
                            lemma_wf_member(*y, p as int);
                            lemma_member_model(*y, p as int);
                        }
                        if !values_equal(&x[i].1, &y[p].1) {
                            return false;
                        }
                    },
                }
                i = i + 1;
            }
            let mut i: usize = 0;
            while i < y.len()
                invariant
                    a.wf(),
                    b.wf(),
                    *a == Value::Object(*x),
                    *b == Value::Object(*y),
                    xm == a.model()->Object_0,
                    ym == b.model()->Object_0,
                    i <= y.len(),
                    forall|j: int|
                        0 <= j < x.len() ==> ym.contains_key(#[trigger] x@[j].0@) && xm[x@[j].0@]
                            == ym[x@[j].0@],
                    forall|j: int| 0 <= j < i ==> xm.contains_key(#[trigger] y@[j].0@),
                decreases y.len() - i,
            {
                proof {
                    lemma_wf_member(*y, i as int);
                    lemma_member_model(*y, i as int);
                }
                if find_key(x, &y[i].0).is_none() {
                    return false;
                }
                i = i + 1;
            }
            assert forall|k: Seq<char>| xm.contains_key(k) implies ym.contains_key(k) && xm[k] == ym[k] by {
                let j = choose|j: int| 0 <= j < x.len() && #[trigger] x@[j].0@ == k;
                assert(x@[j].0@ == k);
            }
            assert forall|k: Seq<char>| ym.contains_key(k) implies xm.contains_key(k) by {
                let j = choose|j: int| 0 <= j < y.len() && #[trigger] y@[j].0@ == k;
                assert(y@[j].0@ == k);
            }
            assert(xm =~= ym);
            true
        },
        _ => false,
    }
}

} // verus!
