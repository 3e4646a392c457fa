//! The mathematical model shared by every union-find strategy: a sequence
//! `reps` assigning each site its representative site.  Two sites are in the
//! same component exactly when their representatives coincide.  Merging is
//! modelled by relabelling one component's representative, and the component
//! count by the number of representative fixpoints.

use vstd::prelude::*;
use vstd::set_lib::{lemma_int_range, lemma_len_subset, set_int_range};

verus! {

/// Every representative is in range and is itself a fixpoint.
pub open spec fn valid_reps(r: Seq<nat>) -> bool {
    forall|x: int|
        0 <= x < r.len() ==> (#[trigger] r[x]) < r.len() && r[r[x] as int] == r[x]
}

/// The partition of `n` singleton components: every site represents itself.
pub open spec fn identity_reps(n: nat) -> Seq<nat> {
    Seq::new(n, |x: int| x as nat)
}

/// The partition after merging the component of `p` into the component of
/// `q`: every site labelled like `p` is relabelled to `q`'s representative.
pub open spec fn merged_reps(r: Seq<nat>, p: nat, q: nat) -> Seq<nat> {
    Seq::new(r.len(), |x: int| if r[x] == r[p as int] { r[q as int] } else { r[x] })
}

/// Two representative sequences induce the same partition of the same sites.
pub open spec fn same_classes(a: Seq<nat>, b: Seq<nat>) -> bool {
    &&& a.len() == b.len()
    &&& forall|x: int, y: int|
        #![trigger a[x], a[y]]
        #![trigger b[x], b[y]]
        0 <= x < a.len() && 0 <= y < a.len() ==> ((a[x] == a[y]) <==> (b[x] == b[y]))
}

/// The sites that represent themselves: one per component.
pub open spec fn roots_of(r: Seq<nat>) -> Set<int> {
    Set::new(|x: int| 0 <= x < r.len() && r[x] == x)
}

/// The number of components induced by `r`.
pub open spec fn class_count(r: Seq<nat>) -> int {
    roots_of(r).len() as int
}

pub proof fn lemma_roots_finite(r: Seq<nat>)
    ensures
        roots_of(r).finite(),
        roots_of(r).len() <= r.len(),
{
    lemma_int_range(0, r.len() as int);
    lemma_len_subset(roots_of(r), set_int_range(0, r.len() as int));
}

/// The singleton partition is valid and has one component per site.
pub proof fn lemma_identity(n: nat)
    ensures
        valid_reps(identity_reps(n)),
        class_count(identity_reps(n)) == n,
{
    lemma_int_range(0, n as int);
    assert(roots_of(identity_reps(n)) =~= set_int_range(0, n as int));
}

/// Immediately after initialization every valid site is its own component,
/// two sites share a component exactly when they are equal, and there are as
/// many components as sites.
pub proof fn lemma_new_singletons(n: nat, p: nat, q: nat)
    requires
        p < n,
        q < n,
    ensures
        valid_reps(identity_reps(n)),
        (identity_reps(n)[p as int] == identity_reps(n)[q as int]) <==> p == q,
        class_count(identity_reps(n)) == n,
{
    lemma_int_range(0, n as int);
    assert(roots_of(identity_reps(n)) =~= set_int_range(0, n as int));
}

/// Merging two sites that already share a component changes nothing.
pub proof fn lemma_merged_noop(r: Seq<nat>, p: nat, q: nat)
    requires
        p < r.len(),
        q < r.len(),
        r[p as int] == r[q as int],
    ensures
        merged_reps(r, p, q) == r,
{
    assert(merged_reps(r, p, q) =~= r);
}

/// Exactly which pairs a merge connects: a pair is connected afterwards when
/// it was connected before, or when its two sides lay in the two merged
/// components.
pub proof fn lemma_merged_classes(r: Seq<nat>, p: nat, q: nat)
    requires
        p < r.len(),
        q < r.len(),
    ensures
        forall|x: int, y: int|
            #![trigger merged_reps(r, p, q)[x], merged_reps(r, p, q)[y]]
            0 <= x < r.len() && 0 <= y < r.len() ==> ((merged_reps(r, p, q)[x] == merged_reps(
                r,
                p,
                q,
            )[y]) <==> (r[x] == r[y] || (r[x] == r[p as int] && r[y] == r[q as int]) || (r[x]
                == r[q as int] && r[y] == r[p as int]))),
{
}

/// Partition-equal inputs stay partition-equal under the same merge.
pub proof fn lemma_merge_respects_classes(a: Seq<nat>, b: Seq<nat>, p: nat, q: nat)
    requires
        same_classes(a, b),
        p < a.len(),
        q < a.len(),
    ensures
        same_classes(merged_reps(a, p, q), merged_reps(b, p, q)),
{
    lemma_merged_classes(a, p, q);
    lemma_merged_classes(b, p, q);
}

/// Inducing the same partition is transitive.
pub proof fn lemma_same_classes_trans(a: Seq<nat>, b: Seq<nat>, c: Seq<nat>)
    requires
        same_classes(a, b),
        same_classes(b, c),
    ensures
        same_classes(a, c),
{
}

/// A merge connects the two sites it was given.
pub proof fn lemma_merged_connects(r: Seq<nat>, p: nat, q: nat)
    requires
        p < r.len(),
        q < r.len(),
    ensures
        merged_reps(r, p, q)[p as int] == merged_reps(r, p, q)[q as int],
{
}

/// Merging is commutative in effect: merging `p` with `q` yields the same
/// partition as merging `q` with `p`, the two sites end up connected, and
/// repeating the merge the other way round afterwards changes nothing.
pub proof fn lemma_merge_commutative(r: Seq<nat>, p: nat, q: nat)
    requires
        p < r.len(),
        q < r.len(),
    ensures
        same_classes(merged_reps(r, p, q), merged_reps(r, q, p)),
        merged_reps(r, p, q)[q as int] == merged_reps(r, p, q)[p as int],
        merged_reps(merged_reps(r, p, q), q, p) == merged_reps(r, p, q),
{
    lemma_merged_classes(r, p, q);
    lemma_merged_classes(r, q, p);
    lemma_merged_connects(r, p, q);
    lemma_merged_noop(merged_reps(r, p, q), q, p);
}

/// A merge of two distinct components removes exactly one root (the losing
/// representative); a merge within one component removes none.  With at
/// least two components to merge, there were at least two roots.
pub proof fn lemma_merged_class_count(r: Seq<nat>, p: nat, q: nat)
    requires
        valid_reps(r),
        p < r.len(),
        q < r.len(),
    ensures
        class_count(merged_reps(r, p, q)) == class_count(r) - (if r[p as int] == r[q as int] {
            0int
        } else {
            1int
        }),
        r[p as int] != r[q as int] ==> class_count(r) >= 2,
{
    lemma_roots_finite(r);
    if r[p as int] == r[q as int] {
        lemma_merged_noop(r, p, q);
    } else {
        let rp = r[p as int] as int;
        let rq = r[q as int] as int;
        assert(roots_of(merged_reps(r, p, q)) =~= roots_of(r).remove(rp)) by {
            let m = merged_reps(r, p, q);
            assert forall|x: int| roots_of(m).contains(x) implies roots_of(r).remove(rp).contains(
                x,
            ) by {
                if r[x] == r[p as int] {
                    // relabelled sites point at `q`'s representative, which is
                    // not its own site unless it equals x; rule that out
                    assert(m[x] == r[q as int]);
                    assert(r[rq] == r[q as int]);
                }
            }
            assert forall|x: int| roots_of(r).remove(rp).contains(x) implies roots_of(m).contains(
                x,
            ) by {}
        }
        assert(roots_of(r).contains(rp));
        vstd::set::axiom_set_remove_len(roots_of(r), rp);
        // two distinct roots give at least two components
        let pair = Set::<int>::empty().insert(rp).insert(rq);
        vstd::set::axiom_set_insert_len(Set::<int>::empty().insert(rp), rq);
        vstd::set::axiom_set_insert_len(Set::<int>::empty(), rp);
        lemma_len_subset(pair, roots_of(r));
    }
}

/// One step of a merge on a model state carrying the representatives and the
/// component count.
pub open spec fn merge_step(st: (Seq<nat>, int), p: nat, q: nat) -> (Seq<nat>, int) {
    (
        merged_reps(st.0, p, q),
        if st.0[p as int] == st.0[q as int] {
            st.1
        } else {
            st.1 - 1
        },
    )
}

/// Every requested merge names two sites in range.
pub open spec fn ops_in_range(ops: Seq<(nat, nat)>, len: nat) -> bool {
    forall|k: int|
        0 <= k < ops.len() ==> (#[trigger] ops[k]).0 < len && ops[k].1 < len
}

/// The representatives after a whole sequence of merges.
pub open spec fn reps_after_unions(r: Seq<nat>, ops: Seq<(nat, nat)>) -> Seq<nat>
    decreases ops.len(),
{
    if ops.len() == 0 {
        r
    } else {
        reps_after_unions(merged_reps(r, ops[0].0, ops[0].1), ops.drop_first())
    }
}

/// How many of the merges in `ops` connect two previously-distinct
/// components when run in order from `r`.
pub open spec fn effective_unions(r: Seq<nat>, ops: Seq<(nat, nat)>) -> int
    decreases ops.len(),
{
    if ops.len() == 0 {
        0
    } else {
        (if r[ops[0].0 as int] == r[ops[0].1 as int] {
            0int
        } else {
            1int
        }) + effective_unions(merged_reps(r, ops[0].0, ops[0].1), ops.drop_first())
    }
}

/// The component count after a whole sequence of merges, starting from
/// count `c`: only merges of two distinct components decrement it.
pub open spec fn count_after_unions(r: Seq<nat>, c: int, ops: Seq<(nat, nat)>) -> int
    decreases ops.len(),
{
    if ops.len() == 0 {
        c
    } else {
        count_after_unions(
            merged_reps(r, ops[0].0, ops[0].1),
            if r[ops[0].0 as int] == r[ops[0].1 as int] {
                c
            } else {
                c - 1
            },
            ops.drop_first(),
        )
    }
}

/// After any sequence of merges, the component count equals the starting
/// count minus the number of merges that connected two previously-distinct
/// components; re-merging already-connected pairs never decrements.
pub proof fn lemma_count_after_unions(r: Seq<nat>, c: int, ops: Seq<(nat, nat)>)
    ensures
        count_after_unions(r, c, ops) == c - effective_unions(r, ops),
    decreases ops.len(),
{
    if ops.len() > 0 {
        let r1 = merged_reps(r, ops[0].0, ops[0].1);
        if r[ops[0].0 as int] == r[ops[0].1 as int] {
            lemma_count_after_unions(r1, c, ops.drop_first());
        } else {
            lemma_count_after_unions(r1, c - 1, ops.drop_first());
        }
    }
}

/// Interchangeable strategies agree: two starting states that induce the
/// same partition and carry the same component count keep inducing the same
/// partition, and the same count, under any identical sequence of merges.
pub proof fn lemma_same_ops_same_results(a: Seq<nat>, b: Seq<nat>, c: int, ops: Seq<(nat, nat)>)
    requires
        same_classes(a, b),
        ops_in_range(ops, a.len()),
    ensures
        same_classes(reps_after_unions(a, ops), reps_after_unions(b, ops)),
        count_after_unions(a, c, ops) == count_after_unions(b, c, ops),
    decreases ops.len(),
{
    if ops.len() > 0 {
        let p = ops[0].0;
        let q = ops[0].1;
        lemma_merge_respects_classes(a, b, p, q);
        assert(ops_in_range(ops.drop_first(), a.len())) by {
            assert forall|k: int|
                0 <= k < ops.drop_first().len() implies (#[trigger] ops.drop_first()[k]).0
                < a.len() && ops.drop_first()[k].1 < a.len() by {
                assert(ops.drop_first()[k] == ops[k + 1]);
            }
        }
        let c1 = if a[p as int] == a[q as int] {
            c
        } else {
            c - 1
        };
        lemma_same_ops_same_results(merged_reps(a, p, q), merged_reps(b, p, q), c1, ops.drop_first());
    }
}

} // verus!
