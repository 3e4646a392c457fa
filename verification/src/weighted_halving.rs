//! Weighted union-find with path halving: `sites[p]` points toward the root
//! of `p`'s tree, `sizes[root]` counts the tree's members, and every `find`
//! rewrites each visited node's parent to its grandparent.

use vstd::prelude::*;

use crate::partition::{
    class_count, identity_reps, lemma_identity, lemma_merge_commutative, lemma_merged_class_count,
    lemma_merged_noop, merged_reps, same_classes,
};
use crate::uf::UF;

verus! {

/// The total of all entries of `s`.
pub open spec fn sum_of(s: Seq<u32>) -> int
    decreases s.len(),
{
    if s.len() == 0 {
        0
    } else {
        sum_of(s.drop_last()) + s.last()
    }
}

proof fn lemma_sum_push(s: Seq<u32>, v: u32)
    ensures
        sum_of(s.push(v)) == sum_of(s) + v,
{
    assert(s.push(v).drop_last() =~= s);
}

proof fn lemma_sum_nonneg(s: Seq<u32>)
    ensures
        sum_of(s) >= 0,
    decreases s.len(),
{
    if s.len() > 0 {
        lemma_sum_nonneg(s.drop_last());
    }
}

proof fn lemma_sum_one(s: Seq<u32>, i: int)
    requires
        0 <= i < s.len(),
    ensures
        s[i] <= sum_of(s),
    decreases s.len(),
{
    if i == s.len() - 1 {
        lemma_sum_nonneg(s.drop_last());
    } else {
        lemma_sum_one(s.drop_last(), i);
        assert(s.drop_last()[i] == s[i]);
    }
}

proof fn lemma_sum_two(s: Seq<u32>, i: int, j: int)
    requires
        0 <= i < s.len(),
        0 <= j < s.len(),
        i != j,
    ensures
        s[i] + s[j] <= sum_of(s),
    decreases s.len(),
{
    if j == s.len() - 1 {
        lemma_sum_one(s.drop_last(), i);
        assert(s.drop_last()[i] == s[i]);
    } else if i == s.len() - 1 {
        lemma_sum_one(s.drop_last(), j);
        assert(s.drop_last()[j] == s[j]);
    } else {
        lemma_sum_two(s.drop_last(), i, j);
        assert(s.drop_last()[i] == s[i]);
        assert(s.drop_last()[j] == s[j]);
    }
}

proof fn lemma_sum_update(s: Seq<u32>, i: int, v: u32)
    requires
        0 <= i < s.len(),
    ensures
        sum_of(s.update(i, v)) == sum_of(s) - s[i] + v,
    decreases s.len(),
{
    let t = s.update(i, v);
    if i == s.len() - 1 {
        assert(t.drop_last() =~= s.drop_last());
    } else {
        assert(t.drop_last() =~= s.drop_last().update(i, v));
        lemma_sum_update(s.drop_last(), i, v);
        assert(s.drop_last()[i] == s[i]);
        assert(t.last() == s.last());
    }
}

/// The parent forest `s`, the representative map `r` and the measure `d`
/// agree: parents stay in range and in their component, representatives are
/// the roots, and the measure shrinks strictly along parent pointers (so
/// every walk toward a root terminates).
pub open spec fn forest_inv(s: Seq<u32>, r: Seq<nat>, d: Seq<nat>) -> bool {
    let len = s.len() as int;
    &&& r.len() == len
    &&& d.len() == len
    &&& forall|x: int| 0 <= x < len ==> (#[trigger] s[x]) < len
    &&& forall|x: int|
        0 <= x < len ==> (#[trigger] r[x]) < len && r[r[x] as int] == r[x] && s[r[x] as int]
            == r[x]
    &&& forall|x: int| 0 <= x < len ==> r[(#[trigger] s[x]) as int] == r[x]
    &&& forall|x: int| 0 <= x < len && (#[trigger] s[x]) as int == x ==> r[x] == x as nat
    &&& forall|x: int|
        0 <= x < len && (#[trigger] s[x]) as int != x ==> d[s[x] as int] < d[x]
}

/// Linking the root `loser` under the distinct root `winner` preserves the
/// forest invariant, once the losing tree's representatives are relabelled
/// and its measure is lifted above the winning root's.
proof fn lemma_link_preserves_forest(s: Seq<u32>, r: Seq<nat>, d: Seq<nat>, winner: u32, loser: u32)
    requires
        forest_inv(s, r, d),
        (winner as int) < s.len(),
        (loser as int) < s.len(),
        winner != loser,
        r[winner as int] == winner as nat,
        r[loser as int] == loser as nat,
    ensures
        forest_inv(
            s.update(loser as int, winner),
            merged_reps(r, loser as nat, winner as nat),
            Seq::new(
                r.len(),
                |x: int|
                    if r[x] == loser as nat {
                        (d[x] + d[winner as int] + 1) as nat
                    } else {
                        d[x]
                    },
            ),
        ),
{
    let len = s.len() as int;
    let s1 = s.update(loser as int, winner);
    let r1 = merged_reps(r, loser as nat, winner as nat);
    let d1 = Seq::new(
        r.len(),
        |x: int|
            if r[x] == loser as nat {
                (d[x] + d[winner as int] + 1) as nat
            } else {
                d[x]
            },
    );
    assert forall|x: int|
        0 <= x < len implies (#[trigger] r1[x]) < len && r1[r1[x] as int] == r1[x] && s1[r1[x]
        as int] == r1[x] by {
        assert(r[r[x] as int] == r[x]);
        assert(r[winner as int] == winner as nat);
    }
    assert forall|x: int| 0 <= x < len implies r1[(#[trigger] s1[x]) as int] == r1[x] by {
        if x == loser as int {
            assert(r[winner as int] == winner as nat);
        } else {
            assert(r[s[x] as int] == r[x]);
        }
    }
    assert forall|x: int|
        0 <= x < len && (#[trigger] s1[x]) as int == x implies r1[x] == x as nat by {
        if x != loser as int {
            assert(s[x] as int == x);
            assert(r[x] == x as nat);
            // a root relabelled away would have to be the loser itself
        }
    }
    assert forall|x: int|
        0 <= x < len && (#[trigger] s1[x]) as int != x implies d1[s1[x] as int] < d1[x] by {
        if x == loser as int {
            assert(r[winner as int] != loser as nat);
        } else {
            assert(d[s[x] as int] < d[x]);
            assert(r[s[x] as int] == r[x]);
        }
    }
}

/// Weighted union-find with path halving.
///
/// `sites[p]` is `p`'s parent (`sites[p] == p` at roots), `sizes[r]` the
/// member count of the tree rooted at `r` (zero off roots), `components`
/// the number of trees.  The ghost `rep` fixes each site's root, and the
/// ghost `dist` is a measure that strictly shrinks along parent pointers,
/// which rules cycles out and bounds every root walk.
pub struct WeightedWithHalvingUF {
    pub sites: Vec<u32>,
    pub components: u32,
    pub sizes: Vec<u32>,
    pub rep: Ghost<Seq<nat>>,
    pub dist: Ghost<Seq<nat>>,
}

impl UF for WeightedWithHalvingUF {
    open spec fn wf(&self) -> bool {
        let len = self.sites@.len() as int;
        &&& forest_inv(self.sites@, self.rep@, self.dist@)
        &&& self.sizes@.len() == len
        &&& len <= u32::MAX
        &&& self.components as int == class_count(self.rep@)
        &&& sum_of(self.sizes@) == len
    }

    open spec fn reps(&self) -> Seq<nat> {
        self.rep@
    }

    open spec fn count_spec(&self) -> nat {
        self.components as nat
    }

    proof fn lemma_wf(&self) {
    }

    fn new(n: u32) -> (uf: Self) {
        let mut sites: Vec<u32> = Vec::new();
        let mut sizes: Vec<u32> = Vec::new();
        let mut k: u32 = 0;
        while k < n
            invariant
                k <= n,
                sites@.len() == k,
                sizes@.len() == k,
                forall|x: int| 0 <= x < k ==> (#[trigger] sites@[x]) as int == x,
                sum_of(sizes@) == k,
            decreases n - k,
        {
            proof {
                lemma_sum_push(sizes@, 1);
            }
            sites.push(k);
            sizes.push(1);
            k = k + 1;
        }
        let uf = WeightedWithHalvingUF {
            sites,
            components: n,
            sizes,
            rep: Ghost(identity_reps(n as nat)),
            dist: Ghost(Seq::new(n as nat, |x: int| 0nat)),
        };
        proof {
            lemma_identity(n as nat);
        }
        uf
    }

    fn union(&mut self, p: u32, q: u32) {
        let p_root = self.find(p);
        let q_root = self.find(q);
        if q_root == p_root {
            proof {
                lemma_merged_noop(self.rep@, p as nat, q as nat);
            }
            return;
        }
        let ghost r = self.rep@;
        let ghost d = self.dist@;
        let ghost s = self.sites@;
        proof {
            lemma_sum_two(self.sizes@, p_root as int, q_root as int);
            assert(r[r[p as int] as int] == r[p as int]);
            assert(r[r[q as int] as int] == r[q as int]);
        }
        let p_size = self.sizes[p_root as usize];
        let q_size = self.sizes[q_root as usize];
        if p_size >= q_size {
            // the smaller tree rooted at q_root goes under p_root
            proof {
                lemma_sum_update(self.sizes@, p_root as int, (p_size + q_size) as u32);
                lemma_sum_update(
                    self.sizes@.update(p_root as int, (p_size + q_size) as u32),
                    q_root as int,
                    0,
                );
            }
            self.sizes[p_root as usize] = p_size + q_size;
            self.sizes[q_root as usize] = 0;
            self.sites[q_root as usize] = p_root;
            self.rep = Ghost(merged_reps(r, q as nat, p as nat));
            self.dist = Ghost(
                Seq::new(
                    r.len(),
                    |x: int|
                        if r[x] == q_root as nat {
                            (d[x] + d[p_root as int] + 1) as nat
                        } else {
                            d[x]
                        },
                ),
            );
            proof {
                assert(merged_reps(r, q as nat, p as nat) =~= merged_reps(
                    r,
                    q_root as nat,
                    p_root as nat,
                ));
                lemma_link_preserves_forest(s, r, d, p_root, q_root);
                lemma_merged_class_count(r, q as nat, p as nat);
                lemma_merge_commutative(r, p as nat, q as nat);
                assert(same_classes(self.rep@, merged_reps(r, p as nat, q as nat)));
            }
        } else {
            // the smaller tree rooted at p_root goes under q_root
            proof {
                lemma_sum_update(self.sizes@, q_root as int, (p_size + q_size) as u32);
                lemma_sum_update(
                    self.sizes@.update(q_root as int, (p_size + q_size) as u32),
                    p_root as int,
                    0,
                );
            }
            self.sizes[q_root as usize] = p_size + q_size;
            self.sizes[p_root as usize] = 0;
            self.sites[p_root as usize] = q_root;
            self.rep = Ghost(merged_reps(r, p as nat, q as nat));
            self.dist = Ghost(
                Seq::new(
                    r.len(),
                    |x: int|
                        if r[x] == p_root as nat {
                            (d[x] + d[q_root as int] + 1) as nat
                        } else {
                            d[x]
                        },
                ),
            );
            proof {
                assert(merged_reps(r, p as nat, q as nat) =~= merged_reps(
                    r,
                    p_root as nat,
                    q_root as nat,
                ));
                lemma_link_preserves_forest(s, r, d, q_root, p_root);
                lemma_merged_class_count(r, p as nat, q as nat);
            }
        }
        self.components = self.components - 1;
    }

    fn find(&mut self, p: u32) -> (root: u32) {
        let mut parent: u32 = self.sites[p as usize];
        while parent != self.sites[parent as usize]
            invariant
                self.wf(),
                self.rep@ == old(self).rep@,
                self.dist@ == old(self).dist@,
                self.sizes@ == old(self).sizes@,
                self.components == old(self).components,
                self.sites@.len() == old(self).sites@.len(),
                (p as int) < self.sites@.len(),
                (parent as int) < self.sites@.len(),
                self.rep@[parent as int] == self.rep@[p as int],
            decreases self.dist@[parent as int],
        {
            let ghost s0 = self.sites@;
            let ghost d = self.dist@;
            let ghost r = self.rep@;
            let ghost len = s0.len() as int;
            let step = self.sites[parent as usize];
            let grand = self.sites[step as usize];
            proof {
                // the grandparent sits strictly closer to the root
                if s0[step as int] as int != step as int {
                    assert(d[grand as int] < d[step as int]);
                }
                assert(d[grand as int] < d[parent as int]);
                assert(r[grand as int] == r[parent as int]);
            }
            self.sites[parent as usize] = grand;
            proof {
                assert forall|x: int| 0 <= x < len implies (#[trigger] self.sites@[x]) < len by {}
                assert forall|x: int|
                    0 <= x < len implies r[(#[trigger] self.sites@[x]) as int] == r[x] by {
                    if x != parent as int {
                        assert(self.sites@[x] == s0[x]);
                    }
                }
                assert forall|x: int|
                    0 <= x < len && (#[trigger] self.sites@[x]) as int == x implies r[x]
                    == x as nat by {
                    if x != parent as int {
                        assert(s0[x] as int == x);
                    }
                }
                assert forall|x: int|
                    0 <= x < len && (#[trigger] self.sites@[x]) as int != x implies d[self.sites@[x]
                    as int] < d[x] by {
                    if x != parent as int {
                        assert(self.sites@[x] == s0[x]);
                    }
                }
                assert forall|x: int|
                    0 <= x < len implies (#[trigger] r[x]) < len && r[r[x] as int] == r[x]
                    && self.sites@[r[x] as int] == r[x] by {
                    // roots keep their self-loop: `parent` is no root
                    assert(s0[r[x] as int] == r[x]);
                    assert(s0[parent as int] as int != parent as int);
                }
            }
            parent = grand;
        }
        parent
    }

    fn connected(&mut self, p: u32, q: u32) -> (r: bool) {
        let a = self.find(p);
        let b = self.find(q);
        a == b
    }

    fn count(&self) -> (c: u32) {
        self.components
    }
}

} // verus!
