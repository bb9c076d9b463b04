//! A short list of raw features.
use smallvec::SmallVec;
use vstd::prelude::*;

verus! {

/// A list of raw features, kept inline while it is short: a `SmallVec` of the
/// `smallvec` crate.
#[verifier::external_body]
pub struct RawList {
    inner: SmallVec<[u32; 3]>,
}

/// The features of a list, in order.
pub uninterp spec fn raw_items(v: RawList) -> Seq<u32>;

impl RawList {
    /// Calls `SmallVec::new`: a list without features.
    #[verifier::external_body]
    pub(crate) fn new() -> (v: RawList)
        ensures
            raw_items(v) == Seq::<u32>::empty(),
    {
        RawList { inner: SmallVec::new() }
    }

    /// Calls `SmallVec::push`: the feature is appended.
    #[verifier::external_body]
    pub(crate) fn push(&mut self, x: u32)
        ensures
            raw_items(*final(self)) == raw_items(*old(self)).push(x),
    {
        self.inner.push(x);
    }

    /// Calls `SmallVec::len`: the number of features.
    #[verifier::external_body]
    pub(crate) fn len(&self) -> (n: usize)
        ensures
            n == raw_items(*self).len(),
    {
        self.inner.len()
    }

    /// Calls `contains` on the slice that a `SmallVec` dereferences to: whether
    /// a feature of the list equals `x`.
    #[verifier::external_body]
    pub(crate) fn contains(&self, x: u32) -> (b: bool)
        ensures
            b == raw_items(*self).contains(x),
    {
        self.inner.contains(&x)
    }
}

} // verus!
