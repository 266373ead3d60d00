//! Typed identifiers: a 32-bit value tagged at the type level with the kind of
//! entity it names, so that keys of different kinds cannot be mixed up.

use core::marker::PhantomData;
use vstd::prelude::*;

verus! {

/// A 32-bit identifier tagged with a marker type `T`. The value `0xffff_ffff`
/// is reserved as the invalid sentinel and is never issued by an allocator.
///
/// A key's view (`k@`) is its numeric value.
#[derive(Debug)]
pub struct Key<T> {
    ival: u32,
    phantom: PhantomData<T>,
}

impl<T> Clone for Key<T> {
    fn clone(&self) -> (r: Self)
        ensures
            r == *self,
    {
        Key { ival: self.ival, phantom: PhantomData }
    }
}

impl<T> Copy for Key<T> {

}

impl<T> View for Key<T> {
    type V = u32;

    closed spec fn view(&self) -> u32 {
        self.ival
    }
}

impl<T> PartialEq for Key<T> {
    fn eq(&self, other: &Key<T>) -> (r: bool)
        ensures
            r == (self@ == other@),
    {
        self.ival == other.ival
    }
}

impl<T> vstd::std_specs::cmp::PartialEqSpecImpl for Key<T> {
    open spec fn obeys_eq_spec() -> bool {
        true
    }

    open spec fn eq_spec(&self, other: &Key<T>) -> bool {
        self@ == other@
    }
}

impl<T> Key<T> {
    /// The reserved invalid key, `0xffff_ffff`.
    pub fn invalid() -> (k: Key<T>)
        ensures
            k@ == 0xffff_ffffu32,
    {
        Key { ival: 0xffff_ffff, phantom: PhantomData }
    }

    /// Wrap a numeric value as a key.
    pub fn new(val: u32) -> (k: Key<T>)
        ensures
            k@ == val,
    {
        Key { ival: val, phantom: PhantomData }
    }

    /// Whether this key is not the reserved invalid sentinel.
    pub fn valid(&self) -> (r: bool)
        ensures
            r == (self@ != 0xffff_ffffu32),
    {
        self.ival != 0xffff_ffff
    }

    /// The numeric value of the key.
    pub fn value(&self) -> (v: u32)
        ensures
            v == self@,
    {
        self.ival
    }
}

/// Two keys of one kind with the same numeric value are the same key.
pub broadcast proof fn lemma_key_injective<T>(a: Key<T>, b: Key<T>)
    ensures
        #![trigger a.view(), b.view()]
        (a == b) <==> (a@ == b@),
{
    assert(a.phantom == b.phantom);
}

} // verus!
