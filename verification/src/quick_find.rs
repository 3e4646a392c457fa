//! Quick-find union-find: `sites[p]` stores `p`'s component label directly,
//! so `find` is a single lookup and `union` relabels the losing component
//! whole — the O(n)-per-union baseline strategy.

use vstd::prelude::*;

use crate::partition::{
    class_count, identity_reps, lemma_identity, lemma_merged_class_count, lemma_merged_noop,
    merged_reps,
};
use crate::uf::UF;

verus! {

/// Union-find with constant-time `find`: the parent array holds final
/// component labels, and every label is itself a fixpoint.
pub struct QuickFindUF {
    pub sites: Vec<u32>,
    pub components: u32,
}

impl QuickFindUF {
    /// The labels as the abstract representative map.
    pub open spec fn labels(&self) -> Seq<nat> {
        self.sites@.map(|x: int, v: u32| v as nat)
    }
}

impl UF for QuickFindUF {
    open spec fn wf(&self) -> bool {
        let len = self.sites@.len() as int;
        &&& len <= u32::MAX
        &&& self.components as int == class_count(self.labels())
        &&& forall|x: int|
            0 <= x < len ==> (#[trigger] self.sites@[x]) < len && self.sites@[self.sites@[x]
                as int] == self.sites@[x]
    }

    open spec fn reps(&self) -> Seq<nat> {
        self.labels()
    }

    open spec fn count_spec(&self) -> nat {
        self.components as nat
    }

    proof fn lemma_wf(&self) {
    }

    fn new(n: u32) -> (uf: Self) {
        let mut sites: Vec<u32> = Vec::new();
        let mut k: u32 = 0;
        while k < n
            invariant
                k <= n,
                sites@.len() == k,
                forall|x: int| 0 <= x < k ==> (#[trigger] sites@[x]) as int == x,
            decreases n - k,
        {
            sites.push(k);
            k = k + 1;
        }
        let uf = QuickFindUF { sites, components: n };
        proof {
            lemma_identity(n as nat);
            assert(uf.labels() =~= identity_reps(n as nat));
        }
        uf
    }

    fn union(&mut self, p: u32, q: u32) {
        let p_label = self.find(p);
        let q_label = self.find(q);
        if p_label == q_label {
            proof {
                lemma_merged_noop(self.labels(), p as nat, q as nat);
            }
            return;
        }
        let ghost r = self.labels();
        let n = self.sites.len();
        let mut k: usize = 0;
        while k < n
            invariant
                n == self.sites@.len(),
                r.len() == n,
                k <= n,
                self.components == old(self).components,
                r == old(self).labels(),
                (p as int) < n,
                (q as int) < n,
                p_label as nat == r[p as int],
                q_label as nat == r[q as int],
                p_label != q_label,
                (p_label as int) < n,
                (q_label as int) < n,
                n <= u32::MAX,
                forall|x: int|
                    0 <= x < k ==> (#[trigger] self.sites@[x]) as nat == merged_reps(
                        r,
                        p as nat,
                        q as nat,
                    )[x],
                forall|x: int| k <= x < n ==> (#[trigger] self.sites@[x]) as nat == r[x],
            decreases n - k,
        {
            let ghost s0 = self.sites@;
            if self.sites[k] == p_label {
                self.sites[k] = q_label;
            }
            proof {
                let m = merged_reps(r, p as nat, q as nat);
                assert forall|x: int|
                    0 <= x <= k implies (#[trigger] self.sites@[x]) as nat == m[x] by {
                    if x == k as int {
                        assert(s0[x] as nat == r[x]);
                    } else {
                        assert(self.sites@[x] == s0[x]);
                    }
                }
            }
            k = k + 1;
        }
        proof {
            assert(self.labels() =~= merged_reps(r, p as nat, q as nat));
            lemma_merged_class_count(r, p as nat, q as nat);
        }
        self.components = self.components - 1;
    }

    fn find(&mut self, p: u32) -> (root: u32) {
        self.sites[p as usize]
    }

    fn connected(&mut self, p: u32, q: u32) -> (r: bool) {
        let a = self.find(p);
        let b = self.find(q);
        a == b
    }

    fn count(&self) -> (c: u32) {
        self.components
    }
}

} // verus!
