//! When two values are the same: when they are of one kind and hold the
//! same, down to every leaf. Arrays hold the same when they do so position
//! by position, objects when they do so key by key.
use vstd::prelude::*;
use vstd::string::*;
use crate::key_order::{bytes_order, same_text, KeyOrder};
use crate::value::{entries_view, items_view, Value};

verus! {

/// Whether two runs of entries hold the same keys with the same values.
pub fn same_entries(a: &Vec<(String, Value)>, b: &Vec<(String, Value)>) -> (same: bool)
    ensures
        same == (entries_view(a@) == entries_view(b@)),
    decreases a, 0nat,
{
    if a.len() != b.len() {
        assert(entries_view(a@).len() != entries_view(b@).len());
        return false;
    }
    let mut i: usize = 0;
    while i < a.len()
        invariant
            a@.len() == b@.len(),
            i <= a@.len(),
            forall|j: int| 0 <= j < i ==> entries_view(a@)[j] == entries_view(b@)[j],
        decreases a@.len() - i,
    {
        if !same_text(a[i].0.as_str(), b[i].0.as_str()) || !same_value(&a[i].1, &b[i].1) {
            assert(entries_view(a@)[i as int] != entries_view(b@)[i as int]);
            return false;
        }
        i += 1;
    }
    assert(entries_view(a@) =~= entries_view(b@));
    true
}

/// Whether two values are the same.
pub fn same_value(a: &Value, b: &Value) -> (same: bool)
    ensures
        same == (a@ == b@),
    decreases a, 1nat,
{
    match (a, b) {
        (Value::Bytes(x), Value::Bytes(y)) => match bytes_order(x.as_slice(), y.as_slice()) {
            KeyOrder::Same => true,
            KeyOrder::Before => {
                proof {
                    crate::key_order::lemma_bytes_lt_asymmetric(x@, y@);
                }
                false
            },
            KeyOrder::After => {
                proof {
                    crate::key_order::lemma_bytes_lt_asymmetric(y@, x@);
                }
                false
            },
        },
        (Value::Integer(x), Value::Integer(y)) => *x == *y,
        (Value::Float(x), Value::Float(y)) => *x == *y,
        (Value::Boolean(x), Value::Boolean(y)) => *x == *y,
        (Value::Timestamp(x), Value::Timestamp(y)) => x.seconds == y.seconds && x.nanos == y.nanos,
        (Value::Object(x), Value::Object(y)) => same_entries(x, y),
        (Value::Array(x), Value::Array(y)) => {
            if x.len() != y.len() {
                assert(items_view(x@).len() != items_view(y@).len());
                return false;
            }
            let mut i: usize = 0;
            while i < x.len()
                invariant
                    decreases_to!(a => x),
                    a@ == crate::value::ValueView::Array(items_view(x@)),
                    b@ == crate::value::ValueView::Array(items_view(y@)),
                    x@.len() == y@.len(),
                    i <= x@.len(),
                    forall|j: int| 0 <= j < i ==> items_view(x@)[j] == items_view(y@)[j],
                decreases x@.len() - i,
            {
                if !same_value(&x[i], &y[i]) {
                    assert(items_view(x@)[i as int] != items_view(y@)[i as int]);
                    return false;
                }
                i += 1;
            }
            assert(items_view(x@) =~= items_view(y@));
            true
        },
        (Value::Null, Value::Null) => true,
        _ => false,
    }
}

impl PartialEq for Value {
    /// Whether two values are the same.
    fn eq(&self, other: &Value) -> (same: bool) {
        same_value(self, other)
    }
}

impl vstd::std_specs::cmp::PartialEqSpecImpl for Value {
    open spec fn obeys_eq_spec() -> bool {
        true
    }

    open spec fn eq_spec(&self, other: &Value) -> bool {
        self@ == other@
    }
}

} // verus!
