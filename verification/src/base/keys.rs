//! Values that are compared and copied by what they stand for, their view.

use vstd::prelude::*;

verus! {

/// A value with a copy of the same view.
pub trait Dup: View + Sized {
    /// Returns a copy that stands for the same value.
    fn dup(&self) -> (copy: Self)
        ensures
            copy@ == self@,
    ;
}

/// A value that can be looked up: two keys are the same when their views are.
pub trait Key: Dup {
    /// Tells whether both keys stand for the same value.
    fn same(&self, other: &Self) -> (same: bool)
        ensures
            same == (self@ == other@),
    ;
}

impl Dup for Vec<u8> {
    fn dup(&self) -> (copy: Self) {
        let copy = self.clone();
        assert(copy@ =~= self@);
        copy
    }
}

impl Key for Vec<u8> {
    fn same(&self, other: &Self) -> (same: bool) {
        let same = *self == *other;
        assert(same ==> self@ =~= other@);
        same
    }
}

impl Dup for String {
    fn dup(&self) -> (copy: Self) {
        self.clone()
    }
}

impl Key for String {
    fn same(&self, other: &Self) -> (same: bool) {
        *self == *other
    }
}

impl Dup for u64 {
    fn dup(&self) -> (copy: Self) {
        *self
    }
}

impl Key for u64 {
    fn same(&self, other: &Self) -> (same: bool) {
        *self == *other
    }
}

impl Dup for bool {
    fn dup(&self) -> (copy: Self) {
        *self
    }
}

impl Dup for u8 {
    fn dup(&self) -> (copy: Self) {
        *self
    }
}

impl Dup for u32 {
    fn dup(&self) -> (copy: Self) {
        *self
    }
}

/// The views of a sequence's elements.
pub open spec fn views<T: View>(s: Seq<T>) -> Seq<T::V> {
    s.map_values(|x: T| x@)
}

/// The view of what an option holds.
pub open spec fn opt<T: View>(o: Option<T>) -> Option<T::V> {
    match o {
        Some(x) => Some(x@),
        None => None,
    }
}

/// A result with the text of its error.
pub open spec fn told<T>(r: Result<T, String>) -> Result<T, Seq<char>> {
    match r {
        Ok(x) => Ok(x),
        Err(e) => Err(e@),
    }
}

/// A result whose value is taken by its view and whose error by its text.
pub open spec fn seen<T: View>(r: Result<T, String>) -> Result<T::V, Seq<char>> {
    match r {
        Ok(x) => Ok(x@),
        Err(e) => Err(e@),
    }
}

/// Copies a byte slice into a vector.
pub fn to_bytes(s: &[u8]) -> (v: Vec<u8>)
    ensures
        v@ == s@,
{
    let mut v: Vec<u8> = Vec::with_capacity(s.len());
    let mut i: usize = 0;
    while i < s.len()
        invariant
            i <= s.len(),
            v@ == s@.take(i as int),
        decreases s.len() - i,
    {
        v.push(s[i]);
        assert(s@.take(i + 1) =~= s@.take(i as int).push(s@[i as int]));
        i += 1;
    }
    assert(s@.take(s@.len() as int) =~= s@);
    v
}

/// Copies every element.
pub fn dup_all<T: Dup>(items: &Vec<T>) -> (copy: Vec<T>)
    ensures
        views(copy@) == views(items@),
{
    let mut copy: Vec<T> = Vec::with_capacity(items.len());
    let mut i: usize = 0;
    while i < items.len()
        invariant
            i <= items.len(),
            copy@.len() == i,
            forall|j: int| 0 <= j < i ==> (#[trigger] copy@[j])@ == items@[j]@,
        decreases items.len() - i,
    {
        copy.push(items[i].dup());
        i += 1;
    }
    assert(views(copy@) =~= views(items@));
    copy
}

/// Copies what an option holds.
pub fn dup_opt<T: Dup>(o: &Option<T>) -> (copy: Option<T>)
    ensures
        opt(copy) == opt(*o),
{
    match o {
        Some(x) => Some(x.dup()),
        None => None,
    }
}

/// Tells whether the key occurs.
pub fn contains_key_in<K: Key>(items: &Vec<K>, key: &K) -> (found: bool)
    ensures
        found == views(items@).contains(key@),
{
    let mut i: usize = 0;
    while i < items.len()
        invariant
            i <= items.len(),
            forall|j: int| 0 <= j < i ==> (#[trigger] items@[j])@ != key@,
        decreases items.len() - i,
    {
        if items[i].same(key) {
            assert(views(items@)[i as int] == key@);
            return true;
        }
        i += 1;
    }
    assert forall|j: int| 0 <= j < views(items@).len() implies views(items@)[j] != key@ by {
        assert(items@[j]@ != key@);
    }
    false
}

} // verus!
