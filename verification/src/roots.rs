//! The accumulator of cache identities used during one diff pass. The caller
//! owns it after the pass and uses it to retain or evict cache entries.

use fxhash::FxHashSet;
use vstd::prelude::*;

verus! {

/// The set of cache identities one diff pass has used, backed by a hash set
/// keyed with the fxhash hasher. Verus does not look inside the collection:
/// its contents are named by [`roots_of`], and the methods below are trusted
/// to maintain that name as std's `HashSet` documentation describes.
#[verifier::external_body]
pub struct CachedRoots {
    set: FxHashSet<usize>,
}

/// The mathematical set of identities that a `CachedRoots` value holds.
pub uninterp spec fn roots_of(roots: CachedRoots) -> Set<usize>;

impl CachedRoots {
    /// Relies on `HashSet::default`: a freshly built set is empty.
    #[verifier::external_body]
    pub fn new() -> (r: Self)
        ensures
            roots_of(r) == Set::<usize>::empty(),
    {
        CachedRoots { set: FxHashSet::default() }
    }

    /// Relies on `HashSet::insert`: afterwards the set holds `id` besides
    /// everything it already held.
    #[verifier::external_body]
    pub fn insert(&mut self, id: usize)
        ensures
            roots_of(*final(self)) == roots_of(*old(self)).insert(id),
    {
        self.set.insert(id);
    }

    /// Relies on `HashSet::contains`.
    #[verifier::external_body]
    pub fn contains(&self, id: usize) -> (r: bool)
        ensures
            r == roots_of(*self).contains(id),
    {
        self.set.contains(&id)
    }

    /// Relies on `HashSet::len`: the number of distinct identities held.
    #[verifier::external_body]
    pub fn len(&self) -> (n: usize)
        ensures
            roots_of(*self).finite() ==> n as int == roots_of(*self).len(),
    {
        self.set.len()
    }
}

} // verus!
