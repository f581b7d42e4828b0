//! The inline itemset vector of a utility list, kept in a `smallvec::SmallVec`.
use smallvec::SmallVec;
use vstd::prelude::*;

verus! {

/// An itemset stored inline for up to eight items (spilling to the heap beyond).
#[verifier::external_body]
pub struct Itemset {
    v: SmallVec<[u32; 8]>,
}

/// The items that an itemset vector holds, in order.
pub uninterp spec fn itemset_items(v: &Itemset) -> Seq<u32>;

impl Itemset {
    /// `SmallVec::from_slice`: a vector holding a copy of the slice.
    #[verifier::external_body]
    fn sv_from_slice(s: &[u32]) -> (r: Itemset)
        ensures
            itemset_items(&r) == s@,
    {
        Itemset { v: SmallVec::from_slice(s) }
    }

    /// `SmallVec::push`: appends one item.
    #[verifier::external_body]
    fn sv_push(&mut self, x: u32)
        ensures
            itemset_items(&*final(self)) == itemset_items(&*old(self)).push(x),
    {
        self.v.push(x)
    }

    /// `SmallVec::len`: the number of items.
    #[verifier::external_body]
    fn sv_len(&self) -> (r: usize)
        ensures
            r == itemset_items(self).len(),
    {
        self.v.len()
    }

    /// `SmallVec::to_vec`: copies the items out into a `Vec`.
    #[verifier::external_body]
    fn sv_to_vec(&self) -> (r: Vec<u32>)
        ensures
            r@ == itemset_items(self),
    {
        self.v.to_vec()
    }

    /// `SmallVec::clone`: an independent copy with the same items.
    #[verifier::external_body]
    fn sv_clone(&self) -> (r: Itemset)
        ensures
            itemset_items(&r) == itemset_items(self),
    {
        Itemset { v: self.v.clone() }
    }

    /// `SmallVec::spilled`: whether the items have moved to the heap.
    #[verifier::external_body]
    fn sv_spilled(&self) -> (r: bool)
        ensures
            itemset_items(self).len() <= 8 ==> !r,
    {
        self.v.spilled()
    }

    /// An itemset holding the items of the slice, in order.
    pub fn from_slice(s: &[u32]) -> (r: Itemset)
        ensures
            itemset_items(&r) == s@,
    {
        Self::sv_from_slice(s)
    }

    /// Appends one item.
    pub fn push(&mut self, x: u32)
        ensures
            itemset_items(&*final(self)) == itemset_items(&*old(self)).push(x),
    {
        self.sv_push(x)
    }

    /// The number of items.
    pub fn len(&self) -> (r: usize)
        ensures
            r == itemset_items(self).len(),
    {
        self.sv_len()
    }

    /// The items, copied into a `Vec`.
    pub fn to_vec(&self) -> (r: Vec<u32>)
        ensures
            r@ == itemset_items(self),
    {
        self.sv_to_vec()
    }

    /// An independent copy with the same items.
    pub fn duplicate(&self) -> (r: Itemset)
        ensures
            itemset_items(&r) == itemset_items(self),
    {
        self.sv_clone()
    }

    /// Whether the items have moved from inline storage to the heap; never while at
    /// most eight are held.
    pub fn spilled(&self) -> (r: bool)
        ensures
            itemset_items(self).len() <= 8 ==> !r,
    {
        self.sv_spilled()
    }
}

} // verus!
