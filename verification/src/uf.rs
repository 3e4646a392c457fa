//! The union-find capability contract, shared by every strategy.

use vstd::prelude::*;

use crate::partition::{class_count, identity_reps, merged_reps, same_classes, valid_reps};

verus! {

/// A disjoint-set structure over a fixed universe of dense integer sites.
///
/// Each strategy exposes the same abstract state: `reps()` assigns every
/// site a representative site, and two sites are connected exactly when
/// their representatives coincide.  `count_spec()` is the number of
/// components.  Representative identities are internal: callers may rely
/// only on the partition they induce, which is why mutating contracts are
/// stated up to `same_classes`.
pub trait UF: Sized {
    /// The strategy's internal state is consistent.
    spec fn wf(&self) -> bool;

    /// The representative of each site.
    spec fn reps(&self) -> Seq<nat>;

    /// The number of distinct components.
    spec fn count_spec(&self) -> nat;

    /// A consistent state has valid representatives and counts its
    /// components exactly.
    proof fn lemma_wf(&self)
        requires
            self.wf(),
        ensures
            valid_reps(self.reps()),
            self.count_spec() == class_count(self.reps()),
            self.reps().len() <= u32::MAX,
    ;

    /// `n` singleton components, ids `0..n`.
    fn new(n: u32) -> (uf: Self)
        ensures
            uf.wf(),
            uf.reps() == identity_reps(n as nat),
            uf.count_spec() == n,
    ;

    /// Merges the components containing `p` and `q`; a no-op when they are
    /// already connected, and only then does the count stay put.
    fn union(&mut self, p: u32, q: u32)
        requires
            old(self).wf(),
            (p as int) < old(self).reps().len(),
            (q as int) < old(self).reps().len(),
        ensures
            final(self).wf(),
            same_classes(final(self).reps(), merged_reps(old(self).reps(), p as nat, q as nat)),
            final(self).count_spec() as int == if old(self).reps()[p as int] == old(self).reps()[
                q as int
            ] {
                old(self).count_spec() as int
            } else {
                old(self).count_spec() - 1
            },
    ;

    /// Returns the representative of `p`'s component.  Internal
    /// path-compression metadata may change, but the externally visible
    /// mapping of sites to representatives never does.
    fn find(&mut self, p: u32) -> (root: u32)
        requires
            old(self).wf(),
            (p as int) < old(self).reps().len(),
        ensures
            final(self).wf(),
            final(self).reps() == old(self).reps(),
            final(self).count_spec() == old(self).count_spec(),
            root as nat == old(self).reps()[p as int],
    ;

    /// Whether `p` and `q` are in the same component.
    fn connected(&mut self, p: u32, q: u32) -> (r: bool)
        requires
            old(self).wf(),
            (p as int) < old(self).reps().len(),
            (q as int) < old(self).reps().len(),
        ensures
            final(self).wf(),
            final(self).reps() == old(self).reps(),
            final(self).count_spec() == old(self).count_spec(),
            r == (old(self).reps()[p as int] == old(self).reps()[q as int]),
    ;

    /// The number of distinct components remaining.
    fn count(&self) -> (c: u32)
        requires
            self.wf(),
        ensures
            c as nat == self.count_spec(),
    ;
}

} // verus!
