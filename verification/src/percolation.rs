//! Grid percolation over a weighted union-find: an n-by-n grid of sites that
//! can be opened one by one, with two virtual sites wired to the whole top
//! and bottom rows so that "does the system percolate" is a single
//! connectivity query.

use vstd::prelude::*;

use crate::partition::{
    identity_reps, lemma_identity, lemma_merge_respects_classes, lemma_same_classes_trans,
    merge_step, merged_reps, same_classes,
};
use crate::uf::UF;
use crate::weighted_halving::WeightedWithHalvingUF;

verus! {

/// The 1D site id of cell `(i, j)` on an n-by-n grid: row-major order,
/// offset by one to reserve site 0 for the virtual top.
pub open spec fn site_index(n: nat, i: nat, j: nat) -> nat {
    i * n + j + 1
}

/// The number of union-find sites backing an n-by-n grid: one per cell plus
/// the virtual top and bottom.
pub open spec fn grid_total(n: nat) -> nat {
    n * n + 2
}

/// Every in-range cell maps into `[1, n*n]`.
pub proof fn lemma_site_index_bounds(n: nat, i: nat, j: nat)
    requires
        i < n,
        j < n,
    ensures
        1 <= site_index(n, i, j),
        site_index(n, i, j) <= n * n,
{
    assert(i * n + j + 1 <= n * n) by (nonlinear_arith)
        requires
            i < n,
            j < n,
    ;
}

/// The coordinate mapping is injective over the grid and disjoint from the
/// two virtual site ids, 0 and n*n + 1.
pub proof fn lemma_site_index_injective(n: nat, i1: nat, j1: nat, i2: nat, j2: nat)
    requires
        i1 < n,
        j1 < n,
        i2 < n,
        j2 < n,
    ensures
        site_index(n, i1, j1) == site_index(n, i2, j2) ==> (i1 == i2 && j1 == j2),
        site_index(n, i1, j1) != 0,
        site_index(n, i1, j1) != n * n + 1,
{
    lemma_site_index_bounds(n, i1, j1);
    assert(i1 * n + j1 == i2 * n + j2 ==> (i1 == i2 && j1 == j2)) by (nonlinear_arith)
        requires
            i1 < n,
            j1 < n,
            i2 < n,
            j2 < n,
    ;
}

/// Converts 2D grid coordinates to the backing 1D site id.
pub fn convert_2d_to_index(n: u32, i: u32, j: u32) -> (idx: u32)
    requires
        i < n,
        j < n,
        (n as int) * (n as int) + 2 <= u32::MAX as int,
    ensures
        idx as nat == site_index(n as nat, i as nat, j as nat),
{
    proof {
        lemma_site_index_bounds(n as nat, i as nat, j as nat);
    }
    i * n + j + 1
}

/// The model state (representatives, component count) after wiring the
/// first `i` columns of the top row to virtual site 0 and of the bottom row
/// to virtual site n*n + 1, starting from all-singleton components.
pub open spec fn init_state(n: nat, i: nat) -> (Seq<nat>, int)
    decreases i,
{
    if i == 0 {
        (identity_reps(grid_total(n)), grid_total(n) as int)
    } else {
        let prev = init_state(n, (i - 1) as nat);
        let wired_top = merge_step(prev, 0, site_index(n, 0, (i - 1) as nat));
        merge_step(wired_top, n * n + 1, site_index(n, (n - 1) as nat, (i - 1) as nat))
    }
}

/// One neighbor attempt while opening cell `s`: merge with site `t` when the
/// step stays on the grid (`cond`) and the neighbor is open in `g`.
pub open spec fn neighbor_step(
    st: (Seq<nat>, int),
    g: Seq<bool>,
    s: nat,
    t: nat,
    cond: bool,
) -> (Seq<nat>, int) {
    if cond && g[t as int] {
        merge_step(st, s, t)
    } else {
        st
    }
}

/// The model state after opening cell `(i, j)` on grid `g` (with the cell
/// itself already marked open in `g`): its site merged with each open
/// in-bounds neighbor, up, down, left, right in that order.
pub open spec fn open_state(
    r: Seq<nat>,
    c: int,
    g: Seq<bool>,
    n: nat,
    i: nat,
    j: nat,
) -> (Seq<nat>, int) {
    let s = site_index(n, i, j);
    let up = neighbor_step((r, c), g, s, site_index(n, (i - 1) as nat, j), i > 0);
    let down = neighbor_step(up, g, s, site_index(n, (i + 1) as nat, j), i + 1 < n);
    let left = neighbor_step(down, g, s, site_index(n, i, (j - 1) as nat), j > 0);
    neighbor_step(left, g, s, site_index(n, i, (j + 1) as nat), j + 1 < n)
}

/// An n-by-n grid percolation simulator: cell sites plus a virtual top site
/// (0, wired to the whole top row) and a virtual bottom site (n*n + 1, wired
/// to the whole bottom row), both permanently open.
pub struct Percolation {
    pub uf: WeightedWithHalvingUF,
    pub grid: Vec<bool>,
    pub n: u32,
    pub virtual_top: u32,
    pub virtual_bottom: u32,
}

impl Percolation {
    /// The number of backing sites.
    pub open spec fn total(&self) -> int {
        (self.n as int) * (self.n as int) + 2
    }

    /// The simulator's invariant: the union-find and the open-cell grid
    /// cover all n*n + 2 sites, and the two virtual sites sit at the ends
    /// and stay open.
    pub open spec fn wf(&self) -> bool {
        &&& 1 <= self.n
        &&& self.total() <= u32::MAX
        &&& self.uf.wf()
        &&& self.uf.reps().len() == self.total()
        &&& self.grid@.len() == self.total()
        &&& self.virtual_top == 0
        &&& self.virtual_bottom as int == self.total() - 1
        &&& self.grid@[0]
        &&& self.grid@[self.total() - 1]
    }

    /// Builds a fully closed n-by-n grid whose top and bottom rows are
    /// already wired to the two virtual sites.
    pub fn new(n: u32) -> (perc: Self)
        requires
            1 <= n,
            (n as int) * (n as int) + 2 <= u32::MAX as int,
        ensures
            perc.wf(),
            perc.n == n,
            perc.grid@.len() == perc.total(),
            forall|x: int|
                0 < x < perc.total() - 1 ==> !(#[trigger] perc.grid@[x]),
            same_classes(perc.uf.reps(), init_state(n as nat, n as nat).0),
            perc.uf.count_spec() as int == init_state(n as nat, n as nat).1,
    {
        let total = n * n + 2;
        let mut uf = WeightedWithHalvingUF::new(total);
        proof {
            lemma_identity(grid_total(n as nat));
        }
        let mut i: u32 = 0;
        while i < n
            invariant
                i <= n,
                1 <= n,
                (n as int) * (n as int) + 2 <= u32::MAX as int,
                total as int == (n as int) * (n as int) + 2,
                uf.wf(),
                uf.reps().len() == total as int,
                same_classes(uf.reps(), init_state(n as nat, i as nat).0),
                uf.count_spec() as int == init_state(n as nat, i as nat).1,
            decreases n - i,
        {
            let top_site = convert_2d_to_index(n, 0, i);
            let bottom_site = convert_2d_to_index(n, n - 1, i);
            proof {
                lemma_site_index_bounds(n as nat, 0, i as nat);
                lemma_site_index_bounds(n as nat, (n - 1) as nat, i as nat);
            }
            let ghost prev = init_state(n as nat, i as nat);
            let ghost r0 = uf.reps();
            uf.union(0, top_site);
            proof {
                lemma_merge_respects_classes(r0, prev.0, 0, top_site as nat);
                lemma_same_classes_trans(
                    uf.reps(),
                    merged_reps(r0, 0, top_site as nat),
                    merged_reps(prev.0, 0, top_site as nat),
                );
            }
            let ghost wired_top = merge_step(prev, 0, site_index(n as nat, 0, i as nat));
            let ghost r1 = uf.reps();
            uf.union(total - 1, bottom_site);
            proof {
                lemma_merge_respects_classes(
                    r1,
                    wired_top.0,
                    (total - 1) as nat,
                    bottom_site as nat,
                );
                lemma_same_classes_trans(
                    uf.reps(),
                    merged_reps(r1, (total - 1) as nat, bottom_site as nat),
                    merged_reps(wired_top.0, (total - 1) as nat, bottom_site as nat),
                );
                assert(same_classes(uf.reps(), init_state(n as nat, (i + 1) as nat).0));
            }
            i = i + 1;
        }
        let mut grid: Vec<bool> = Vec::new();
        let mut k: u32 = 0;
        while k < total
            invariant
                k <= total,
                grid@.len() == k,
                forall|x: int| 0 <= x < k ==> !(#[trigger] grid@[x]),
            decreases total - k,
        {
            grid.push(false);
            k = k + 1;
        }
        grid[0] = true;
        let last = (total - 1) as usize;
        grid[last] = true;
        Percolation { uf, grid, n, virtual_top: 0, virtual_bottom: total - 1 }
    }

    /// Whether the cell at `(i, j)` has been opened.
    pub fn is_open(&self, i: u32, j: u32) -> (r: bool)
        requires
            self.wf(),
            i < self.n,
            j < self.n,
        ensures
            r == self.grid@[site_index(self.n as nat, i as nat, j as nat) as int],
    {
        proof {
            lemma_site_index_bounds(self.n as nat, i as nat, j as nat);
        }
        let index = convert_2d_to_index(self.n, i, j);
        self.grid[index as usize]
    }

    /// Whether the cell at `(i, j)` is full: open and connected to the
    /// virtual top site.  Only path-compression metadata may change.
    pub fn is_full(&mut self, i: u32, j: u32) -> (r: bool)
        requires
            old(self).wf(),
            i < old(self).n,
            j < old(self).n,
        ensures
            final(self).wf(),
            final(self).n == old(self).n,
            final(self).virtual_top == old(self).virtual_top,
            final(self).virtual_bottom == old(self).virtual_bottom,
            final(self).grid@ == old(self).grid@,
            final(self).uf.reps() == old(self).uf.reps(),
            final(self).uf.count_spec() == old(self).uf.count_spec(),
            r == (old(self).grid@[site_index(old(self).n as nat, i as nat, j as nat) as int]
                && old(self).uf.reps()[site_index(old(self).n as nat, i as nat, j as nat) as int]
                == old(self).uf.reps()[0]),
    {
        proof {
            lemma_site_index_bounds(self.n as nat, i as nat, j as nat);
        }
        let index = convert_2d_to_index(self.n, i, j);
        let open_now = self.is_open(i, j);
        if open_now {
            let vt = self.virtual_top;
            self.uf.connected(index, vt)
        } else {
            false
        }
    }

    /// Whether the system percolates: the virtual top and bottom sites are
    /// connected.  Only path-compression metadata may change.
    pub fn percolates(&mut self) -> (r: bool)
        requires
            old(self).wf(),
        ensures
            final(self).wf(),
            final(self).n == old(self).n,
            final(self).virtual_top == old(self).virtual_top,
            final(self).virtual_bottom == old(self).virtual_bottom,
            final(self).grid@ == old(self).grid@,
            final(self).uf.reps() == old(self).uf.reps(),
            final(self).uf.count_spec() == old(self).uf.count_spec(),
            r == (old(self).uf.reps()[0] == old(self).uf.reps()[old(self).total() - 1]),
    {
        let vt = self.virtual_top;
        let vb = self.virtual_bottom;
        self.uf.connected(vt, vb)
    }

    /// Opens the cell at `(i, j)` (idempotently) and unions its site with
    /// each in-bounds neighbor that is already open, up, down, left, right.
    pub fn open(&mut self, i: u32, j: u32)
        requires
            old(self).wf(),
            i < old(self).n,
            j < old(self).n,
        ensures
            final(self).wf(),
            final(self).n == old(self).n,
            final(self).virtual_top == old(self).virtual_top,
            final(self).virtual_bottom == old(self).virtual_bottom,
            final(self).grid@ == old(self).grid@.update(
                site_index(old(self).n as nat, i as nat, j as nat) as int,
                true,
            ),
            same_classes(
                final(self).uf.reps(),
                open_state(
                    old(self).uf.reps(),
                    old(self).uf.count_spec() as int,
                    final(self).grid@,
                    old(self).n as nat,
                    i as nat,
                    j as nat,
                ).0,
            ),
            final(self).uf.count_spec() as int == open_state(
                old(self).uf.reps(),
                old(self).uf.count_spec() as int,
                final(self).grid@,
                old(self).n as nat,
                i as nat,
                j as nat,
            ).1,
    {
        let ghost n_ = self.n as nat;
        proof {
            lemma_site_index_bounds(n_, i as nat, j as nat);
            lemma_site_index_injective(n_, i as nat, j as nat, i as nat, j as nat);
        }
        let index = convert_2d_to_index(self.n, i, j);
        self.grid[index as usize] = true;
        let ghost g = self.grid@;
        let ghost s_ = site_index(n_, i as nat, j as nat);
        let ghost r0 = self.uf.reps();
        let ghost c0 = self.uf.count_spec() as int;
        let ghost st1 = neighbor_step(
            (r0, c0),
            g,
            s_,
            site_index(n_, (i as nat - 1) as nat, j as nat),
            i > 0,
        );
        let ghost st2 = neighbor_step(
            st1,
            g,
            s_,
            site_index(n_, (i as nat + 1) as nat, j as nat),
            i as nat + 1 < n_,
        );
        let ghost st3 = neighbor_step(
            st2,
            g,
            s_,
            site_index(n_, i as nat, (j as nat - 1) as nat),
            j > 0,
        );
        let ghost st4 = neighbor_step(
            st3,
            g,
            s_,
            site_index(n_, i as nat, (j as nat + 1) as nat),
            j as nat + 1 < n_,
        );
        // UP
        if i > 0 && self.is_open(i - 1, j) {
            let up = convert_2d_to_index(self.n, i - 1, j);
            proof {
                lemma_site_index_bounds(n_, (i - 1) as nat, j as nat);
            }
            self.uf.union(index, up);
        }
        proof {
            assert(same_classes(self.uf.reps(), st1.0));
            assert(self.uf.count_spec() as int == st1.1);
        }
        // DOWN
        if i < self.n - 1 && self.is_open(i + 1, j) {
            let down = convert_2d_to_index(self.n, i + 1, j);
            let ghost rcur = self.uf.reps();
            proof {
                lemma_site_index_bounds(n_, (i + 1) as nat, j as nat);
            }
            self.uf.union(index, down);
            proof {
                lemma_merge_respects_classes(rcur, st1.0, s_, down as nat);
                lemma_same_classes_trans(
                    self.uf.reps(),
                    merged_reps(rcur, s_, down as nat),
                    merged_reps(st1.0, s_, down as nat),
                );
            }
        }
        proof {
            assert(same_classes(self.uf.reps(), st2.0));
            assert(self.uf.count_spec() as int == st2.1);
        }
        // LEFT
        if j > 0 && self.is_open(i, j - 1) {
            let left = convert_2d_to_index(self.n, i, j - 1);
            let ghost rcur = self.uf.reps();
            proof {
                lemma_site_index_bounds(n_, i as nat, (j - 1) as nat);
            }
            self.uf.union(index, left);
            proof {
                lemma_merge_respects_classes(rcur, st2.0, s_, left as nat);
                lemma_same_classes_trans(
                    self.uf.reps(),
                    merged_reps(rcur, s_, left as nat),
                    merged_reps(st2.0, s_, left as nat),
                );
            }
        }
        proof {
            assert(same_classes(self.uf.reps(), st3.0));
            assert(self.uf.count_spec() as int == st3.1);
        }
        // RIGHT
        if j < self.n - 1 && self.is_open(i, j + 1) {
            let right = convert_2d_to_index(self.n, i, j + 1);
            let ghost rcur = self.uf.reps();
            proof {
                lemma_site_index_bounds(n_, i as nat, (j + 1) as nat);
            }
            self.uf.union(index, right);
            proof {
                lemma_merge_respects_classes(rcur, st3.0, s_, right as nat);
                lemma_same_classes_trans(
                    self.uf.reps(),
                    merged_reps(rcur, s_, right as nat),
                    merged_reps(st3.0, s_, right as nat),
                );
            }
        }
        proof {
            assert(same_classes(self.uf.reps(), st4.0));
            assert(self.uf.count_spec() as int == st4.1);
        }
    }
}

} // verus!
