//! Equality of trees: two trees are equal when they hold the same value.

use crate::order::key_eq;
use crate::value::{list_view, BData, BDict};
use vstd::prelude::*;
use vstd::std_specs::cmp::PartialEqSpecImpl;

verus! {

/// Tells whether two lists hold the same values in the same order.
fn same_list(a: &Vec<BData>, b: &Vec<BData>) -> (r: bool)
    ensures
        r == (list_view(a@) == list_view(b@)),
    decreases a,
{
    if a.len() != b.len() {
        assert(list_view(a@).len() != list_view(b@).len());
        return false;
    }
    let mut i: usize = 0;
    while i < a.len()
        invariant
            i <= a.len(),
            a.len() == b.len(),
            forall|j: int| 0 <= j < i ==> list_view(a@)[j] == list_view(b@)[j],
        decreases a.len() - i,
    {
        if !a[i].eq(&b[i]) {
            assert(list_view(a@)[i as int] != list_view(b@)[i as int]);
            return false;
        }
        i += 1;
    }
    assert(list_view(a@) =~= list_view(b@));
    true
}

impl PartialEq for BDict {
    /// Two dictionaries are equal when they give the same keys the same
    /// values.
    fn eq(&self, other: &BDict) -> (r: bool)
        decreases self,
    {
        if self.len() != other.len() {
            return false;
        }
        let mut i: usize = 0;
        while i < self.len()
            invariant
                i <= self@.len(),
                self@.len() == other@.len(),
                forall|j: int| 0 <= j < i ==> self@[j] == other@[j],
            decreases self@.len() - i,
        {
            if !key_eq(self.key_at(i), other.key_at(i)) {
                assert(self@[i as int] != other@[i as int]);
                return false;
            }
            if !self.value_at(i).eq(other.value_at(i)) {
                assert(self@[i as int] != other@[i as int]);
                return false;
            }
            i += 1;
        }
        assert(self@ =~= other@);
        true
    }
}

impl PartialEqSpecImpl for BDict {
    open spec fn obeys_eq_spec() -> bool {
        true
    }

    open spec fn eq_spec(&self, other: &BDict) -> bool {
        self@ == other@
    }
}

impl PartialEq for BData {
    /// Two trees are equal when they are of one kind and hold the same: the
    /// same bytes, the same number, equal elements in the same order, or the
    /// same keys with equal values.
    fn eq(&self, other: &BData) -> (r: bool)
        decreases self,
    {
        match (self, other) {
            (BData::BString(a), BData::BString(b)) => key_eq(a, b),
            (BData::Number(a), BData::Number(b)) => *a == *b,
            (BData::List(a), BData::List(b)) => same_list(a, b),
            (BData::Dict(a), BData::Dict(b)) => a.eq(b),
            _ => false,
        }
    }
}

impl PartialEqSpecImpl for BData {
    open spec fn obeys_eq_spec() -> bool {
        true
    }

    open spec fn eq_spec(&self, other: &BData) -> bool {
        self@ == other@
    }
}

} // verus!
