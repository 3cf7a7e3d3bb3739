//! Equality of values: two values are equal when their views are.

use vstd::prelude::*;
use crate::order::bytes_equal;
use crate::value::{values_view, Dict, Value};

verus! {

/// Tells whether two values have the same view.
pub fn same_value(a: &Value, b: &Value) -> (r: bool)
    ensures
        r == (a@ == b@),
    decreases a@,
{
    match a {
        Value::Str(x) => match b {
            Value::Str(y) => bytes_equal(x.as_slice(), y.as_slice()),
            _ => false,
        },
        Value::Int(x) => match b {
            Value::Int(y) => *x == *y,
            _ => false,
        },
        Value::List(x) => match b {
            Value::List(y) => {
                assert(a@->List_0 == values_view(*x));
                assert(b@->List_0 == values_view(*y));
                if x.len() != y.len() {
                    assert(values_view(*x).len() != values_view(*y).len());
                    return false;
                }
                let mut i: usize = 0;
                while i < x.len()
                    invariant
                        0 <= i <= x.len(),
                        x.len() == y.len(),
                        a@ is List,
                        a@->List_0 == values_view(*x),
                        b@ == crate::value::Bencode::List(values_view(*y)),
                        forall|j: int| 0 <= j < i ==> (#[trigger] x@[j])@ == y@[j]@,
                    decreases x.len() - i,
                {
                    assert(values_view(*x)[i as int] == x@[i as int]@);
                    assert(values_view(*y)[i as int] == y@[i as int]@);
                    if !same_value(&x[i], &y[i]) {
                        return false;
                    }
                    i += 1;
                }
                assert(values_view(*x) =~= values_view(*y));
                true
            },
            _ => false,
        },
        Value::Dict(x) => match b {
            Value::Dict(y) => {
                assert(a@->Dict_0 == x@);
                same_dict(x, y)
            },
            _ => false,
        },
    }
}

/// Tells whether two dictionaries have the same view: the same keys, bound
/// to values with the same views.
pub fn same_dict(a: &Dict, b: &Dict) -> (r: bool)
    ensures
        r == (a@ == b@),
    decreases a@,
{
    let n = a.len();
    if n != b.len() {
        return false;
    }
    let mut i: usize = 0;
    while i < n
        invariant
            0 <= i <= n,
            n == a@.len(),
            n == b@.len(),
            forall|j: int| 0 <= j < i ==> a@[j] == b@[j],
        decreases n - i,
    {
        if !bytes_equal(a.key_at(i).as_slice(), b.key_at(i).as_slice()) {
            assert(a@[i as int].0 != b@[i as int].0);
            return false;
        }
        if !same_value(a.value_at(i), b.value_at(i)) {
            assert(a@[i as int].1 != b@[i as int].1);
            return false;
        }
        i += 1;
    }
    assert(a@ =~= b@);
    true
}

impl PartialEq for Value {
    fn eq(&self, other: &Value) -> (r: bool) {
        same_value(self, other)
    }
}

impl vstd::std_specs::cmp::PartialEqSpecImpl for Value {
    open spec fn obeys_eq_spec() -> bool {
        true
    }

    open spec fn eq_spec(&self, other: &Value) -> bool {
        self@ == other@
    }
}

impl PartialEq for Dict {
    fn eq(&self, other: &Dict) -> (r: bool) {
        same_dict(self, other)
    }
}

impl vstd::std_specs::cmp::PartialEqSpecImpl for Dict {
    open spec fn obeys_eq_spec() -> bool {
        true
    }

    open spec fn eq_spec(&self, other: &Dict) -> bool {
        self@ == other@
    }
}

} // verus!
