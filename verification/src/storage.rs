//! Fixed-capacity storage for the wheel.
//!
//! The buffers themselves are `heapless::Vec`s, which live inline and never
//! allocate. Verus cannot look inside them, so every function in this module
//! is a single call into `heapless` whose effect is *stated*, not proved.
//! Everything outside this module is verified against those statements.

use vstd::prelude::*;

verus! {

#[verifier::external_type_specification]
#[verifier::external_body]
#[verifier::reject_recursive_types(T)]
pub struct ExHeaplessVec<T, const N: usize>(heapless::Vec<T, N>);

/// A sequence of at most `N` items, stored inline.
///
/// `model` is the sequence that `items` holds, in order. No verified code
/// builds or alters a `FixedVec` except through the functions below, each of
/// which says what one `heapless::Vec` operation does to that sequence.
#[verifier::reject_recursive_types(T)]
pub struct FixedVec<T, const N: usize> {
    items: heapless::Vec<T, N>,
    model: Ghost<Seq<T>>,
}

impl<T, const N: usize> View for FixedVec<T, N> {
    type V = Seq<T>;

    closed spec fn view(&self) -> Seq<T> {
        self.model@
    }
}

impl<T, const N: usize> FixedVec<T, N> {
    /// `heapless::Vec::new`: a vector that holds nothing.
    #[verifier::external_body]
    pub(crate) fn new() -> (v: Self)
        ensures
            v@ == Seq::<T>::empty(),
    {
        FixedVec { items: heapless::Vec::new(), model: Ghost(Seq::empty()) }
    }

    /// `heapless::Vec::push`: appends `value` while fewer than `N` items are
    /// held; once `N` are held it changes nothing and hands `value` back.
    #[verifier::external_body]
    pub(crate) fn push(&mut self, value: T) -> (outcome: Result<(), T>)
        ensures
            old(self)@.len() < N ==> outcome is Ok && final(self)@ == old(self)@.push(value),
            old(self)@.len() >= N ==> outcome == (Err::<(), T>(value)) && final(self)@ == old(self)@,
    {
        self.items.push(value)
    }

    /// `len` of the slice that `heapless::Vec` dereferences to: the number
    /// of items held.
    #[verifier::external_body]
    pub(crate) fn len(&self) -> (n: usize)
        ensures
            n == self@.len(),
    {
        self.items.len()
    }

    /// `heapless::Vec::clear`: drops every item.
    #[verifier::external_body]
    pub(crate) fn clear(&mut self)
        ensures
            final(self)@ == Seq::<T>::empty(),
    {
        self.items.clear()
    }

    /// Mutable indexing of the slice that `heapless::Vec` dereferences to.
    /// The borrow gives the item at `index`; whatever the borrower leaves
    /// there takes that item's place, and no other position changes.
    /// Indexing past the end panics, so such an `index` is ruled out.
    #[verifier::external_body]
    pub(crate) fn at_mut(&mut self, index: usize) -> (item: &mut T)
        requires
            index < old(self)@.len(),
        ensures
            *item == old(self)@[index as int],
            final(self)@ == old(self)@.update(index as int, *final(item)),
    {
        &mut self.items[index]
    }

    /// Gives up the verified view and hands out the underlying buffer.
    pub fn into_inner(self) -> (inner: heapless::Vec<T, N>)
        ensures
            inner == self.buffer(),
    {
        self.items
    }

    /// The buffer that holds the items of `self@`.
    pub closed spec fn buffer(&self) -> heapless::Vec<T, N> {
        self.items
    }
}

} // verus!
