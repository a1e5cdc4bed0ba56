//! Copies of values, and containers of them.

use vstd::prelude::*;

use crate::trailers;
use crate::oid::Oid;
use crate::trailers::CommitMessage;

verus! {

/// A value that can be copied without changing what it says.
pub trait Duplicate: DeepView + Sized {
    fn duplicate(&self) -> (r: Self)
        ensures
            r.deep_view() == self.deep_view(),
    ;
}

impl Duplicate for bool {
    fn duplicate(&self) -> (r: Self) {
        *self
    }
}

impl Duplicate for u64 {
    fn duplicate(&self) -> (r: Self) {
        *self
    }
}

impl Duplicate for usize {
    fn duplicate(&self) -> (r: Self) {
        *self
    }
}

impl Duplicate for char {
    fn duplicate(&self) -> (r: Self) {
        *self
    }
}

impl Duplicate for String {
    fn duplicate(&self) -> (r: Self) {
        self.clone()
    }
}

impl DeepView for Oid {
    type V = Oid;

    open spec fn deep_view(&self) -> Oid {
        *self
    }
}

impl Duplicate for Oid {
    fn duplicate(&self) -> (r: Self) {
        *self
    }
}

impl DeepView for CommitMessage {
    type V = trailers::MessageView;

    open spec fn deep_view(&self) -> trailers::MessageView {
        self@
    }
}

impl Duplicate for CommitMessage {
    fn duplicate(&self) -> (r: Self) {
        self.clone()
    }
}

impl<T: Duplicate> Duplicate for Option<T> {
    fn duplicate(&self) -> (r: Self) {
        match self {
            Some(t) => Some(t.duplicate()),
            None => None,
        }
    }
}

impl<T: Duplicate> Duplicate for Vec<T> {
    fn duplicate(&self) -> (r: Self) {
        let mut r: Vec<T> = Vec::new();
        let mut i: usize = 0;
        while i < self.len()
            invariant
                i <= self@.len(),
                r@.len() == i,
                forall|k: int| 0 <= k < i ==> (#[trigger] r@[k]).deep_view() == self@[k].deep_view(),
            decreases self@.len() - i,
        {
            r.push(self[i].duplicate());
            i = i + 1;
        }
        assert(r.deep_view() =~= self.deep_view());
        r
    }
}

impl<A: Duplicate, B: Duplicate> Duplicate for (A, B) {
    fn duplicate(&self) -> (r: Self) {
        (self.0.duplicate(), self.1.duplicate())
    }
}

/// Appends a value to a vector.
pub fn put<T: DeepView>(v: &mut Vec<T>, t: T)
    ensures
        final(v)@ == old(v)@.push(t),
        final(v).deep_view() == old(v).deep_view().push(t.deep_view()),
{
    v.push(t);
    assert(v.deep_view() =~= old(v).deep_view().push(t.deep_view()));
}

/// Replaces the value at a position of a vector.
pub fn replace<T: DeepView>(v: &mut Vec<T>, i: usize, t: T)
    requires
        i < old(v)@.len(),
    ensures
        final(v)@ == old(v)@.update(i as int, t),
        final(v).deep_view() == old(v).deep_view().update(i as int, t.deep_view()),
{
    v.set(i, t);
    assert(v.deep_view() =~= old(v).deep_view().update(i as int, t.deep_view()));
}

/// An empty vector.
pub fn nothing<T: DeepView>() -> (r: Vec<T>)
    ensures
        r@ == Seq::<T>::empty(),
        r.deep_view() == Seq::<T::V>::empty(),
{
    let r: Vec<T> = Vec::new();
    assert(r.deep_view() =~= Seq::<T::V>::empty());
    r
}

/// Whether a list of numbers holds one.
pub fn has_number(list: &Vec<u64>, number: u64) -> (r: bool)
    ensures
        r == list@.contains(number),
{
    let mut k: usize = 0;
    while k < list.len()
        invariant
            k <= list@.len(),
            forall|m: int| 0 <= m < k ==> list@[m] != number,
        decreases list@.len() - k,
    {
        if list[k] == number {
            return true;
        }
        k = k + 1;
    }
    false
}

} // verus!
