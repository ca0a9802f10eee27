use vstd::math::{max, min};
use vstd::prelude::*;

use crate::dag::{descending, kids, Tree, DAG};
use crate::{Cell, Gate};

verus! {

/// The largest value a single catalog delay can take.
pub open spec fn delay_cap() -> int {
    u32::MAX as int
}

/// The intrinsic delay of node `n`'s gate type.
pub open spec fn intrinsic(gates: Seq<Gate>, kinds: Seq<u32>, n: u32) -> int {
    gates[kinds[n as int] as int].delay as int
}

/// The `(cell, child)` pairs that `cell` can cover among the children `ks`:
/// one for each child whose gate type is the cell's `gate_a`.
pub open spec fn pairs_for(cell: Cell, kinds: Seq<u32>, ks: Seq<u32>) -> Seq<(Cell, u32)>
    decreases ks.len(),
{
    if ks.len() == 0 {
        Seq::empty()
    } else {
        let rest = pairs_for(cell, kinds, ks.drop_last());
        if kinds[ks.last() as int] == cell.gate_a {
            rest.push((cell, ks.last()))
        } else {
            rest
        }
    }
}

/// Every cell covering that applies at node `n` of a tree, in catalog order
/// and then in child order.
pub open spec fn cell_pairs(
    cells: Seq<Cell>,
    kinds: Seq<u32>,
    branches: Map<u32, Seq<u32>>,
    n: u32,
) -> Seq<(Cell, u32)>
    decreases cells.len(),
{
    if cells.len() == 0 {
        Seq::empty()
    } else {
        let rest = cell_pairs(cells.drop_last(), kinds, branches, n);
        let c = cells.last();
        if c.gate_b == kinds[n as int] {
            rest + pairs_for(c, kinds, kids(branches, n))
        } else {
            rest
        }
    }
}

/// The minimum delay at the output of node `n` of a tree: the cheapest of the
/// plain covering and every cell covering.
pub open spec fn walk_delay(
    gates: Seq<Gate>,
    cells: Seq<Cell>,
    kinds: Seq<u32>,
    branches: Map<u32, Seq<u32>>,
    n: u32,
) -> int
    decreases n, 3nat, 0nat,
{
    let ps = cell_pairs(cells, kinds, branches, n);
    cover_min(gates, cells, kinds, branches, n, ps, ps.len())
}

/// The plain covering of `n` minimized with the first `i` cell coverings of `ps`.
pub open spec fn cover_min(
    gates: Seq<Gate>,
    cells: Seq<Cell>,
    kinds: Seq<u32>,
    branches: Map<u32, Seq<u32>>,
    n: u32,
    ps: Seq<(Cell, u32)>,
    i: nat,
) -> int
    decreases n, 2nat, i,
{
    if i == 0 {
        plain_delay(gates, cells, kinds, branches, n)
    } else {
        min(
            cover_min(gates, cells, kinds, branches, n, ps, (i - 1) as nat),
            cell_delay(gates, cells, kinds, branches, n, ps[i - 1].0, ps[i - 1].1),
        )
    }
}

/// The delay at `n` when its gate is used as it is.
pub open spec fn plain_delay(
    gates: Seq<Gate>,
    cells: Seq<Cell>,
    kinds: Seq<u32>,
    branches: Map<u32, Seq<u32>>,
    n: u32,
) -> int
    decreases n, 1nat, 0nat,
{
    let ks = kids(branches, n);
    let d = intrinsic(gates, kinds, n);
    if ks.len() == 0 {
        d
    } else {
        max_plus(gates, cells, kinds, branches, n, ks, ks.len(), d, None)
    }
}

/// The delay at `n` when `cell` covers `n` together with its child `m`.
pub open spec fn cell_delay(
    gates: Seq<Gate>,
    cells: Seq<Cell>,
    kinds: Seq<u32>,
    branches: Map<u32, Seq<u32>>,
    n: u32,
    cell: Cell,
    m: u32,
) -> int
    decreases n, 1nat, 0nat,
{
    let km = kids(branches, m);
    let matched = if km.len() == 0 {
        cell.delay_a as int
    } else {
        max_plus(gates, cells, kinds, branches, n, km, km.len(), cell.delay_a as int, None)
    };
    let ks = kids(branches, n);
    let others = if ks.len() == 0 {
        cell.delay_b as int
    } else {
        max_plus(gates, cells, kinds, branches, n, ks, ks.len(), cell.delay_b as int, Some(m))
    };
    max(matched, others)
}

/// The largest `walk_delay(c) + add` over the first `i` nodes `c` of `ks`,
/// leaving out `skip`; 0 where none is left. Only ids below `bound` count.
pub open spec fn max_plus(
    gates: Seq<Gate>,
    cells: Seq<Cell>,
    kinds: Seq<u32>,
    branches: Map<u32, Seq<u32>>,
    bound: u32,
    ks: Seq<u32>,
    i: nat,
    add: int,
    skip: Option<u32>,
) -> int
    decreases bound, 0nat, i,
{
    if i == 0 {
        0
    } else {
        let prev = max_plus(gates, cells, kinds, branches, bound, ks, (i - 1) as nat, add, skip);
        let c = ks[i - 1];
        if c < bound && skip != Some(c) {
            max(prev, walk_delay(gates, cells, kinds, branches, c) + add)
        } else {
            prev
        }
    }
}

/// The largest of the values, 0 for none.
pub open spec fn seq_max(s: Seq<u64>) -> int
    decreases s.len(),
{
    if s.len() == 0 {
        0
    } else {
        max(seq_max(s.drop_last()), s.last() as int)
    }
}

/// The smallest of the values, `u64::MAX` for none.
pub open spec fn seq_min(s: Seq<u64>) -> int
    decreases s.len(),
{
    if s.len() == 0 {
        u64::MAX as int
    } else {
        min(seq_min(s.drop_last()), s.last() as int)
    }
}

/// The largest minimum root delay over the trees, 0 for none.
pub open spec fn trees_max(
    gates: Seq<Gate>,
    cells: Seq<Cell>,
    kinds: Seq<u32>,
    trees: Seq<Tree>,
) -> int
    decreases trees.len(),
{
    if trees.len() == 0 {
        0
    } else {
        let t = trees.last();
        max(
            trees_max(gates, cells, kinds, trees.drop_last()),
            walk_delay(gates, cells, kinds, t.branches(), t.spec_root()),
        )
    }
}

/// Computes the minimum worst-case delay of a network over its trees.
pub struct LaydownWalker<'a> {
    gates: &'a Vec<Gate>,
    cells: &'a Vec<Cell>,
    trees: &'a Vec<Tree>,
    dag: &'a DAG,
}

impl<'a> LaydownWalker<'a> {
    pub closed spec fn spec_gates(&self) -> Seq<Gate> {
        self.gates@
    }

    pub closed spec fn spec_cells(&self) -> Seq<Cell> {
        self.cells@
    }

    pub closed spec fn spec_trees(&self) -> Seq<Tree> {
        self.trees@
    }

    pub closed spec fn spec_dag(&self) -> DAG {
        *self.dag
    }

    /// The network is well formed, its gate types index a catalog entry, and
    /// every tree is rooted at a node of the network with children below parents.
    pub open spec fn valid(&self) -> bool {
        &&& self.spec_dag().wf()
        &&& forall|i: int|
            0 <= i < self.spec_dag().len() ==> #[trigger] self.spec_dag().kinds()[i]
                < self.spec_gates().len()
        &&& forall|t: int|
            0 <= t < self.spec_trees().len() ==> (#[trigger] self.spec_trees()[t]).wf()
                && self.spec_trees()[t].spec_root() < self.spec_dag().len()
    }

    pub open spec fn tree_delay(&self, t: Tree, n: u32) -> int {
        walk_delay(self.spec_gates(), self.spec_cells(), self.spec_dag().kinds(), t.branches(), n)
    }

    pub fn new(gates: &'a Vec<Gate>, cells: &'a Vec<Cell>, trees: &'a Vec<Tree>, dag: &'a DAG) -> (r:
        LaydownWalker<'a>)
        ensures
            r.spec_gates() == gates@,
            r.spec_cells() == cells@,
            r.spec_trees() == trees@,
            r.spec_dag() == *dag,
    {
        LaydownWalker { gates, cells, trees, dag }
    }

    /// The worst delay over all tree roots, each covered as cheaply as possible.
    pub fn find_min_delay(&self) -> (r: u64)
        requires
            self.valid(),
        ensures
            r == trees_max(self.spec_gates(), self.spec_cells(), self.spec_dag().kinds(), self.spec_trees()),
    {
        let mut tree_timings: Vec<u64> = Vec::new();
        let mut i: usize = 0;
        while i < self.trees.len()
            invariant
                self.valid(),
                i <= self.spec_trees().len(),
                seq_max(tree_timings@) == trees_max(
                    self.spec_gates(),
                    self.spec_cells(),
                    self.spec_dag().kinds(),
                    self.spec_trees().take(i as int),
                ),
            decreases self.spec_trees().len() - i,
        {
            let tree = &self.trees[i];
            let ghost s0 = tree_timings@;
            let w = self.walk(tree.root(), tree);
            tree_timings.push(w);
            assert(tree_timings@.drop_last() == s0);
            assert(self.spec_trees().take(i + 1).drop_last() =~= self.spec_trees().take(i as int));
            i += 1;
        }
        assert(self.spec_trees().take(i as int) =~= self.spec_trees());
        LaydownWalker::vec_max(&tree_timings)
    }

    fn walk(&self, root: u32, tree: &Tree) -> (r: u64)
        requires
            self.valid(),
            tree.wf(),
            root < self.spec_dag().len(),
        ensures
            r == self.tree_delay(*tree, root),
            r <= plain_delay(
                self.spec_gates(),
                self.spec_cells(),
                self.spec_dag().kinds(),
                tree.branches(),
                root,
            ),
            kids(tree.branches(), root).len() == 0 ==> r == intrinsic(
                self.spec_gates(),
                self.spec_dag().kinds(),
                root,
            ),
            r <= (root + 1) * delay_cap(),
        decreases root,
    {
        proof {
            assert((root + 1) * delay_cap() <= u64::MAX) by (nonlinear_arith)
                requires root <= u32::MAX;
        }
        let ghost g = self.spec_gates();
        let ghost cs = self.spec_cells();
        let ghost ki = self.spec_dag().kinds();
        let ghost br = tree.branches();
        let ghost bound = (root + 1) * delay_cap();
        let mut node_timings: Vec<u64> = Vec::new();
        match tree.children(root) {
            Some(x) => {
                // First calculate regular gate mapping.
                let d = self.gate_delay(root) as u64;
                let mut child_timings: Vec<u64> = Vec::new();
                let mut i: usize = 0;
                while i < x.len()
                    invariant
                        self.valid(),
                        g == self.spec_gates(),
                        cs == self.spec_cells(),
                        ki == self.spec_dag().kinds(),
                        tree.wf(),
                        root < self.spec_dag().len(),
                        x@ == kids(br, root),
                        br == tree.branches(),
                        d == intrinsic(g, ki, root),
                        d <= delay_cap(),
                        i <= x@.len(),
                        bound == (root + 1) * delay_cap(),
                        seq_max(child_timings@) == max_plus(g, cs, ki, br, root, x@, i as nat, d as int, None),
                        seq_max(child_timings@) <= bound,
                    decreases x@.len() - i,
                {
                    let child = x[i];
                    assert(child < root);
                    let w = self.walk(child, tree);
                    proof {
                        assert((child + 1) * delay_cap() + delay_cap() <= bound) by (nonlinear_arith)
                            requires child < root, bound == (root + 1) * delay_cap(), delay_cap() > 0;
                    }
                    let ghost s0 = child_timings@;
                    child_timings.push(w + d);
                    assert(child_timings@.drop_last() == s0);
                    i += 1;
                }
                node_timings.push(LaydownWalker::vec_max(&child_timings));
            },
            None => node_timings.push(self.gate_delay(root) as u64),
        }
        proof {
            lemma_single(node_timings@);
        }
        assert(seq_min(node_timings@) == plain_delay(g, cs, ki, br, root));

        // Determine if any complex cells match the tree and then calculate their timings
        assert forall|j: int| 0 <= j < kids(br, root).len() implies #[trigger] kids(br, root)[j]
            < self.spec_dag().len() by {
            assert(br[root][j] < root);
        }
        let matches = self.cell_matches(root, tree);
        let mut k: usize = 0;
        while k < matches.len()
            invariant
                self.valid(),
                g == self.spec_gates(),
                cs == self.spec_cells(),
                ki == self.spec_dag().kinds(),
                tree.wf(),
                root < self.spec_dag().len(),
                br == tree.branches(),
                bound == (root + 1) * delay_cap(),
                matches@ == cell_pairs(cs, ki, br, root),
                k <= matches@.len(),
                seq_min(node_timings@) == cover_min(g, cs, ki, br, root, matches@, k as nat),
                seq_min(node_timings@) <= bound,
            decreases matches@.len() - k,
        {
            let (cell, child_match) = matches[k];
            proof {
                lemma_pairs_are_children(cs, ki, br, root, k as int);
            }
            let mut child_timings: Vec<u64> = Vec::new();
            match tree.children(child_match) {
                Some(x) => {
                    let mut i: usize = 0;
                    while i < x.len()
                        invariant
                            self.valid(),
                            g == self.spec_gates(),
                            cs == self.spec_cells(),
                            ki == self.spec_dag().kinds(),
                            tree.wf(),
                            child_match < root < self.spec_dag().len(),
                            x@ == kids(br, child_match),
                            br == tree.branches(),
                            i <= x@.len(),
                            bound == (root + 1) * delay_cap(),
                            seq_max(child_timings@) == max_plus(g, cs, ki, br, root, x@, i as nat, cell.delay_a as int, None),
                            seq_max(child_timings@) <= bound,
                        decreases x@.len() - i,
                    {
                        let secondary_child = x[i];
                        assert(secondary_child < child_match);
                        let child_time = self.walk(secondary_child, tree);
                        proof {
                            assert((secondary_child + 1) * delay_cap() + delay_cap() <= bound) by (nonlinear_arith)
                                requires secondary_child < root, bound == (root + 1) * delay_cap(), delay_cap() > 0;
                        }
                        let ghost s0 = child_timings@;
                        child_timings.push(child_time + cell.delay_a as u64);
                        assert(child_timings@.drop_last() == s0);
                        i += 1;
                    }
                },
                None => {
                    child_timings.push(cell.delay_a as u64);
                    proof {
                        lemma_single(child_timings@);
                        assert((root + 1) * delay_cap() >= delay_cap()) by (nonlinear_arith);
                    }
                },
            }
            let ghost matched = seq_max(child_timings@);
            match tree.children(root) {
                Some(x) => {
                    let mut i: usize = 0;
                    while i < x.len()
                        invariant
                            self.valid(),
                            g == self.spec_gates(),
                            cs == self.spec_cells(),
                            ki == self.spec_dag().kinds(),
                            tree.wf(),
                            root < self.spec_dag().len(),
                            x@ == kids(br, root),
                            br == tree.branches(),
                            i <= x@.len(),
                            bound == (root + 1) * delay_cap(),
                            matched <= bound,
                            seq_max(child_timings@) == max(matched, max_plus(g, cs, ki, br, root, x@, i as nat, cell.delay_b as int, Some(child_match))),
                            seq_max(child_timings@) <= bound,
                        decreases x@.len() - i,
                    {
                        let primary_child = x[i];
                        if primary_child != child_match {
                            assert(primary_child < root);
                            let child_time = self.walk(primary_child, tree);
                            proof {
                                assert((primary_child + 1) * delay_cap() + delay_cap() <= bound) by (nonlinear_arith)
                                    requires primary_child < root, bound == (root + 1) * delay_cap(), delay_cap() > 0;
                            }
                            let ghost s0 = child_timings@;
                            child_timings.push(child_time + cell.delay_b as u64);
                            assert(child_timings@.drop_last() == s0);
                        }
                        i += 1;
                    }
                },
                None => {
                    proof {
                        assert((root + 1) * delay_cap() >= delay_cap()) by (nonlinear_arith);
                    }
                    let ghost s0 = child_timings@;
                    child_timings.push(cell.delay_b as u64);
                    assert(child_timings@.drop_last() == s0);
                },
            }
            assert(matches@[k as int] == (cell, child_match));
            assert(seq_max(child_timings@) == cell_delay(g, cs, ki, br, root, cell, child_match));
            let ghost s1 = node_timings@;
            node_timings.push(LaydownWalker::vec_max(&child_timings));
            assert(node_timings@.drop_last() == s1);
            assert(cover_min(g, cs, ki, br, root, matches@, (k + 1) as nat) == min(
                cover_min(g, cs, ki, br, root, matches@, k as nat),
                cell_delay(g, cs, ki, br, root, cell, child_match),
            ));
            k += 1;
        }
        proof {
            lemma_walk_le_plain(g, cs, ki, br, root);
            if kids(br, root).len() == 0 {
                lemma_leaf_delay(g, cs, ki, br, root);
            }
        }
        LaydownWalker::vec_min(&node_timings)
    }

    fn gate_delay(&self, node: u32) -> (r: u32)
        requires
            node < self.spec_dag().len(),
            self.spec_dag().kinds()[node as int] < self.spec_gates().len(),
        ensures
            r == intrinsic(self.spec_gates(), self.spec_dag().kinds(), node),
    {
        let gate_type = self.dag.gate_type(node);
        let delay = self.gates[gate_type as usize].delay();
        delay
    }

    fn cell_matches(&self, root: u32, tree: &Tree) -> (r: Vec<(Cell, u32)>)
        requires
            root < self.spec_dag().len(),
            forall|j: int|
                0 <= j < kids(tree.branches(), root).len() ==> #[trigger] kids(tree.branches(), root)[j]
                    < self.spec_dag().len(),
        ensures
            r@ == cell_pairs(self.spec_cells(), self.spec_dag().kinds(), tree.branches(), root),
    {
        let ghost cs = self.spec_cells();
        let ghost ki = self.spec_dag().kinds();
        let ghost br = tree.branches();
        let mut matches: Vec<(Cell, u32)> = Vec::new();
        let mut j: usize = 0;
        while j < self.cells.len()
            invariant
                cs == self.spec_cells(),
                ki == self.spec_dag().kinds(),
                root < self.spec_dag().len(),
                br == tree.branches(),
                forall|t: int| 0 <= t < kids(br, root).len() ==> #[trigger] kids(br, root)[t] < ki.len(),
                j <= cs.len(),
                matches@ == cell_pairs(cs.take(j as int), ki, br, root),
            decreases cs.len() - j,
        {
            let cell = self.cells[j];
            assert(cs.take(j + 1).drop_last() =~= cs.take(j as int));
            if cell.gate_b == self.dag.gate_type(root) {
                match tree.children(root) {
                    Some(x) => {
                        let ghost base = matches@;
                        let mut i: usize = 0;
                        while i < x.len()
                            invariant
                                ki == self.spec_dag().kinds(),
                                br == tree.branches(),
                                root < self.spec_dag().len(),
                                forall|t: int| 0 <= t < kids(br, root).len() ==> #[trigger] kids(br, root)[t] < ki.len(),
                                x@ == kids(br, root),
                                i <= x@.len(),
                                matches@ == base + pairs_for(cell, ki, x@.take(i as int)),
                            decreases x@.len() - i,
                        {
                            let child = x[i];
                            assert(child < ki.len());
                            assert(x@.take(i + 1).drop_last() =~= x@.take(i as int));
                            if cell.gate_a == self.dag.gate_type(child) {
                                matches.push((cell, child));
                                assert(matches@ =~= base + pairs_for(cell, ki, x@.take(i + 1)));
                            } else {
                                assert(matches@ =~= base + pairs_for(cell, ki, x@.take(i + 1)));
                            }
                            i += 1;
                        }
                        assert(x@.take(i as int) =~= x@);
                    },
                    None => {
                        assert(matches@ =~= matches@ + pairs_for(cell, ki, kids(br, root)));
                    },
                }
            }
            j += 1;
        }
        assert(cs.take(j as int) =~= cs);
        matches
    }

    fn vec_max(vec: &Vec<u64>) -> (r: u64)
        ensures
            r == seq_max(vec@),
    {
        let mut max: u64 = u64::MIN;
        let mut i: usize = 0;
        while i < vec.len()
            invariant
                i <= vec@.len(),
                max == seq_max(vec@.take(i as int)),
            decreases vec@.len() - i,
        {
            let value = vec[i];
            assert(vec@.take(i + 1).drop_last() =~= vec@.take(i as int));
            if value > max {
                max = value;
            }
            i += 1;
        }
        assert(vec@.take(i as int) =~= vec@);
        max
    }

    fn vec_min(vec: &Vec<u64>) -> (r: u64)
        ensures
            r == seq_min(vec@),
    {
        let mut min: u64 = u64::MAX;
        let mut i: usize = 0;
        while i < vec.len()
            invariant
                i <= vec@.len(),
                min == seq_min(vec@.take(i as int)),
            decreases vec@.len() - i,
        {
            let value = vec[i];
            assert(vec@.take(i + 1).drop_last() =~= vec@.take(i as int));
            if value < min {
                min = value;
            }
            i += 1;
        }
        assert(vec@.take(i as int) =~= vec@);
        min
    }
}


/// The delay at `n` when every node is a plain gate: its intrinsic delay plus
/// the longest such delay among its children.
pub open spec fn path_delay(gates: Seq<Gate>, kinds: Seq<u32>, branches: Map<u32, Seq<u32>>, n: u32) -> int
    decreases n, 1nat, 0nat,
{
    let ks = kids(branches, n);
    intrinsic(gates, kinds, n) + longest_below(gates, kinds, branches, n, ks, ks.len())
}

/// The largest `path_delay` among the first `i` of `ks`, 0 for none. Only ids
/// below `bound` count.
pub open spec fn longest_below(
    gates: Seq<Gate>,
    kinds: Seq<u32>,
    branches: Map<u32, Seq<u32>>,
    bound: u32,
    ks: Seq<u32>,
    i: nat,
) -> int
    decreases bound, 0nat, i,
{
    if i == 0 {
        0
    } else {
        let c = ks[i - 1];
        let prev = longest_below(gates, kinds, branches, bound, ks, (i - 1) as nat);
        if c < bound {
            max(prev, path_delay(gates, kinds, branches, c))
        } else {
            prev
        }
    }
}

/// The largest `path_delay` at a tree root, 0 for no trees.
pub open spec fn trees_path_max(gates: Seq<Gate>, kinds: Seq<u32>, trees: Seq<Tree>) -> int
    decreases trees.len(),
{
    if trees.len() == 0 {
        0
    } else {
        let t = trees.last();
        max(
            trees_path_max(gates, kinds, trees.drop_last()),
            path_delay(gates, kinds, t.branches(), t.spec_root()),
        )
    }
}

/// The second catalogs differ from the first only in delays, and never by less.
pub open spec fn catalogs_no_faster(g1: Seq<Gate>, c1: Seq<Cell>, g2: Seq<Gate>, c2: Seq<Cell>) -> bool {
    &&& g1.len() == g2.len()
    &&& forall|i: int| 0 <= i < g1.len() ==> #[trigger] g1[i].delay <= g2[i].delay
    &&& c1.len() == c2.len()
    &&& forall|i: int|
        0 <= i < c1.len() ==> #[trigger] c1[i].gate_a == c2[i].gate_a && c1[i].gate_b == c2[i].gate_b
            && c1[i].delay_a <= c2[i].delay_a && c1[i].delay_b <= c2[i].delay_b
}

/// Every node's gate type indexes an entry of `gates`.
pub open spec fn kinds_fit(gates: Seq<Gate>, kinds: Seq<u32>) -> bool {
    forall|i: int| 0 <= i < kinds.len() ==> #[trigger] kinds[i] < gates.len()
}

proof fn lemma_cover_min_le_plain(
    gates: Seq<Gate>,
    cells: Seq<Cell>,
    kinds: Seq<u32>,
    branches: Map<u32, Seq<u32>>,
    n: u32,
    ps: Seq<(Cell, u32)>,
    i: nat,
)
    ensures
        cover_min(gates, cells, kinds, branches, n, ps, i) <= plain_delay(gates, cells, kinds, branches, n),
    decreases i,
{
    if i > 0 {
        lemma_cover_min_le_plain(gates, cells, kinds, branches, n, ps, (i - 1) as nat);
    }
}

/// Cell coverings can only help: the minimum delay at a node is never above
/// the delay of its plain covering.
pub proof fn lemma_walk_le_plain(
    gates: Seq<Gate>,
    cells: Seq<Cell>,
    kinds: Seq<u32>,
    branches: Map<u32, Seq<u32>>,
    n: u32,
)
    ensures
        walk_delay(gates, cells, kinds, branches, n) <= plain_delay(gates, cells, kinds, branches, n),
{
    let ps = cell_pairs(cells, kinds, branches, n);
    lemma_cover_min_le_plain(gates, cells, kinds, branches, n, ps, ps.len());
}

proof fn lemma_no_pairs_without_children(
    cells: Seq<Cell>,
    kinds: Seq<u32>,
    branches: Map<u32, Seq<u32>>,
    n: u32,
)
    requires
        kids(branches, n).len() == 0,
    ensures
        cell_pairs(cells, kinds, branches, n).len() == 0,
    decreases cells.len(),
{
    if cells.len() > 0 {
        lemma_no_pairs_without_children(cells.drop_last(), kinds, branches, n);
    }
}

/// A node without children costs exactly its gate's intrinsic delay.
pub proof fn lemma_leaf_delay(
    gates: Seq<Gate>,
    cells: Seq<Cell>,
    kinds: Seq<u32>,
    branches: Map<u32, Seq<u32>>,
    n: u32,
)
    requires
        kids(branches, n).len() == 0,
    ensures
        walk_delay(gates, cells, kinds, branches, n) == intrinsic(gates, kinds, n),
{
    lemma_no_pairs_without_children(cells, kinds, branches, n);
}

proof fn lemma_path_delay_nonneg(gates: Seq<Gate>, kinds: Seq<u32>, branches: Map<u32, Seq<u32>>, n: u32)
    ensures
        path_delay(gates, kinds, branches, n) >= 0,
{
    let ks = kids(branches, n);
    lemma_longest_below_nonneg(gates, kinds, branches, n, ks, ks.len());
}

proof fn lemma_longest_below_nonneg(
    gates: Seq<Gate>,
    kinds: Seq<u32>,
    branches: Map<u32, Seq<u32>>,
    bound: u32,
    ks: Seq<u32>,
    i: nat,
)
    ensures
        longest_below(gates, kinds, branches, bound, ks, i) >= 0,
    decreases i,
{
    if i > 0 {
        lemma_longest_below_nonneg(gates, kinds, branches, bound, ks, (i - 1) as nat);
    }
}

/// With no cells, the minimum delay at a node is its plain path delay.
pub proof fn lemma_walk_without_cells(
    gates: Seq<Gate>,
    kinds: Seq<u32>,
    branches: Map<u32, Seq<u32>>,
    n: u32,
)
    requires
        descending(branches),
    ensures
        walk_delay(gates, Seq::empty(), kinds, branches, n) == path_delay(gates, kinds, branches, n),
    decreases n, 1nat, 0nat,
{
    let cells = Seq::<Cell>::empty();
    let ks = kids(branches, n);
    assert(cell_pairs(cells, kinds, branches, n).len() == 0);
    if ks.len() > 0 {
        assert forall|j: int| 0 <= j < ks.len() implies #[trigger] ks[j] < n by {
            assert(branches[n][j] < n);
        }
        lemma_max_plus_without_cells(gates, kinds, branches, n, ks, ks.len(), intrinsic(gates, kinds, n));
    }
}

proof fn lemma_max_plus_without_cells(
    gates: Seq<Gate>,
    kinds: Seq<u32>,
    branches: Map<u32, Seq<u32>>,
    bound: u32,
    ks: Seq<u32>,
    i: nat,
    add: int,
)
    requires
        descending(branches),
        add >= 0,
        i <= ks.len(),
        forall|j: int| 0 <= j < i ==> #[trigger] ks[j] < bound,
    ensures
        i > 0 ==> max_plus(gates, Seq::empty(), kinds, branches, bound, ks, i, add, None) == add
            + longest_below(gates, kinds, branches, bound, ks, i),
        max_plus(gates, Seq::empty(), kinds, branches, bound, ks, i, add, None) >= 0,
    decreases bound, 0nat, i,
{
    if i > 0 {
        let c = ks[i - 1];
        lemma_max_plus_without_cells(gates, kinds, branches, bound, ks, (i - 1) as nat, add);
        lemma_walk_without_cells(gates, kinds, branches, c);
        lemma_path_delay_nonneg(gates, kinds, branches, c);
        lemma_longest_below_nonneg(gates, kinds, branches, bound, ks, (i - 1) as nat);
    }
}


/// With an empty cell catalog, the delay of the network is the largest plain
/// path delay at any tree root: its critical path.
pub proof fn lemma_no_cells_baseline(gates: Seq<Gate>, kinds: Seq<u32>, trees: Seq<Tree>)
    requires
        forall|t: int| 0 <= t < trees.len() ==> (#[trigger] trees[t]).wf(),
    ensures
        trees_max(gates, Seq::empty(), kinds, trees) == trees_path_max(gates, kinds, trees),
    decreases trees.len(),
{
    if trees.len() > 0 {
        let t = trees.last();
        assert(trees[trees.len() - 1].wf());
        lemma_no_cells_baseline(gates, kinds, trees.drop_last());
        lemma_walk_without_cells(gates, kinds, t.branches(), t.spec_root());
    }
}

/// The delay of the network depends on nothing but the catalogs, each node's
/// gate type, and the root and branches of each tree.
pub proof fn lemma_delay_determined(
    gates: Seq<Gate>,
    cells: Seq<Cell>,
    kinds: Seq<u32>,
    trees1: Seq<Tree>,
    trees2: Seq<Tree>,
)
    requires
        trees1.len() == trees2.len(),
        forall|t: int|
            0 <= t < trees1.len() ==> (#[trigger] trees1[t]).spec_root() == trees2[t].spec_root()
                && trees1[t].branches() == trees2[t].branches(),
    ensures
        trees_max(gates, cells, kinds, trees1) == trees_max(gates, cells, kinds, trees2),
    decreases trees1.len(),
{
    if trees1.len() > 0 {
        assert(trees1[trees1.len() - 1].spec_root() == trees2[trees1.len() - 1].spec_root());
        lemma_delay_determined(gates, cells, kinds, trees1.drop_last(), trees2.drop_last());
    }
}

proof fn lemma_pairs_for_related(c1: Cell, c2: Cell, kinds: Seq<u32>, ks: Seq<u32>)
    requires
        c1.gate_a == c2.gate_a,
    ensures
        pairs_for(c1, kinds, ks).len() == pairs_for(c2, kinds, ks).len(),
        forall|i: int|
            0 <= i < pairs_for(c1, kinds, ks).len() ==> (#[trigger] pairs_for(c1, kinds, ks)[i]).1
                == pairs_for(c2, kinds, ks)[i].1 && pairs_for(c1, kinds, ks)[i].0 == c1
                && pairs_for(c2, kinds, ks)[i].0 == c2,
    decreases ks.len(),
{
    if ks.len() > 0 {
        lemma_pairs_for_related(c1, c2, kinds, ks.drop_last());
    }
}

/// The pairs of both catalogs name the same children, with cells that differ
/// only in delays, and never by less.
pub open spec fn pairs_no_faster(ps1: Seq<(Cell, u32)>, ps2: Seq<(Cell, u32)>) -> bool {
    &&& ps1.len() == ps2.len()
    &&& forall|i: int|
        0 <= i < ps1.len() ==> (#[trigger] ps1[i]).1 == ps2[i].1 && ps1[i].0.delay_a <= ps2[i].0.delay_a
            && ps1[i].0.delay_b <= ps2[i].0.delay_b
}

proof fn lemma_cell_pairs_related(
    g1: Seq<Gate>,
    c1: Seq<Cell>,
    g2: Seq<Gate>,
    c2: Seq<Cell>,
    kinds: Seq<u32>,
    branches: Map<u32, Seq<u32>>,
    n: u32,
)
    requires
        catalogs_no_faster(g1, c1, g2, c2),
    ensures
        pairs_no_faster(cell_pairs(c1, kinds, branches, n), cell_pairs(c2, kinds, branches, n)),
    decreases c1.len(),
{
    if c1.len() > 0 {
        let last = (c1.len() - 1) as int;
        assert(c1[last].gate_a == c2[last].gate_a);
        assert(c1.drop_last().len() == c2.drop_last().len());
        assert forall|i: int| 0 <= i < c1.drop_last().len() implies #[trigger] c1.drop_last()[i].gate_a
            == c2.drop_last()[i].gate_a && c1.drop_last()[i].gate_b == c2.drop_last()[i].gate_b
            && c1.drop_last()[i].delay_a <= c2.drop_last()[i].delay_a && c1.drop_last()[i].delay_b
            <= c2.drop_last()[i].delay_b by {
            assert(c1[i].gate_a == c2[i].gate_a);
        }
        lemma_cell_pairs_related(g1, c1.drop_last(), g2, c2.drop_last(), kinds, branches, n);
        lemma_pairs_for_related(c1.last(), c2.last(), kinds, kids(branches, n));
        let r1 = cell_pairs(c1.drop_last(), kinds, branches, n);
        let r2 = cell_pairs(c2.drop_last(), kinds, branches, n);
        let p1 = pairs_for(c1.last(), kinds, kids(branches, n));
        let p2 = pairs_for(c2.last(), kinds, kids(branches, n));
        if c1.last().gate_b == kinds[n as int] {
            assert forall|i: int| 0 <= i < p1.len() implies #[trigger] p1[i].1 == p2[i].1
                && p1[i].0.delay_a <= p2[i].0.delay_a && p1[i].0.delay_b <= p2[i].0.delay_b by {
                assert(p1[i].0 == c1.last());
            }
            let s1 = cell_pairs(c1, kinds, branches, n);
            let s2 = cell_pairs(c2, kinds, branches, n);
            assert forall|i: int| 0 <= i < s1.len() implies (#[trigger] s1[i]).1 == s2[i].1
                && s1[i].0.delay_a <= s2[i].0.delay_a && s1[i].0.delay_b <= s2[i].0.delay_b by {
                if i < r1.len() {
                    assert(s1[i] == r1[i] && s2[i] == r2[i]);
                } else {
                    assert(s1[i] == p1[i - r1.len()] && s2[i] == p2[i - r1.len()]);
                }
            }
        }
    }
}

proof fn lemma_walk_no_faster(
    g1: Seq<Gate>,
    c1: Seq<Cell>,
    g2: Seq<Gate>,
    c2: Seq<Cell>,
    kinds: Seq<u32>,
    branches: Map<u32, Seq<u32>>,
    n: u32,
)
    requires
        catalogs_no_faster(g1, c1, g2, c2),
        kinds_fit(g1, kinds),
        n < kinds.len(),
    ensures
        walk_delay(g1, c1, kinds, branches, n) <= walk_delay(g2, c2, kinds, branches, n),
    decreases n, 3nat, 0nat,
{
    let ps1 = cell_pairs(c1, kinds, branches, n);
    let ps2 = cell_pairs(c2, kinds, branches, n);
    lemma_cell_pairs_related(g1, c1, g2, c2, kinds, branches, n);
    lemma_cover_no_faster(g1, c1, g2, c2, kinds, branches, n, ps1, ps2, ps1.len());
}

proof fn lemma_cover_no_faster(
    g1: Seq<Gate>,
    c1: Seq<Cell>,
    g2: Seq<Gate>,
    c2: Seq<Cell>,
    kinds: Seq<u32>,
    branches: Map<u32, Seq<u32>>,
    n: u32,
    ps1: Seq<(Cell, u32)>,
    ps2: Seq<(Cell, u32)>,
    i: nat,
)
    requires
        catalogs_no_faster(g1, c1, g2, c2),
        kinds_fit(g1, kinds),
        n < kinds.len(),
        pairs_no_faster(ps1, ps2),
        i <= ps1.len(),
    ensures
        cover_min(g1, c1, kinds, branches, n, ps1, i) <= cover_min(g2, c2, kinds, branches, n, ps2, i),
    decreases n, 2nat, i,
{
    if i == 0 {
        lemma_plain_no_faster(g1, c1, g2, c2, kinds, branches, n);
    } else {
        let k = i - 1;
        assert(ps1[k].1 == ps2[k].1);
        lemma_cover_no_faster(g1, c1, g2, c2, kinds, branches, n, ps1, ps2, (i - 1) as nat);
        lemma_cell_no_faster(g1, c1, g2, c2, kinds, branches, n, ps1[k].0, ps2[k].0, ps1[k].1);
    }
}

proof fn lemma_plain_no_faster(
    g1: Seq<Gate>,
    c1: Seq<Cell>,
    g2: Seq<Gate>,
    c2: Seq<Cell>,
    kinds: Seq<u32>,
    branches: Map<u32, Seq<u32>>,
    n: u32,
)
    requires
        catalogs_no_faster(g1, c1, g2, c2),
        kinds_fit(g1, kinds),
        n < kinds.len(),
    ensures
        plain_delay(g1, c1, kinds, branches, n) <= plain_delay(g2, c2, kinds, branches, n),
    decreases n, 1nat, 0nat,
{
    let ks = kids(branches, n);
    assert(kinds[n as int] < g1.len());
    assert(g1[kinds[n as int] as int].delay <= g2[kinds[n as int] as int].delay);
    lemma_max_plus_no_faster(
        g1,
        c1,
        g2,
        c2,
        kinds,
        branches,
        n,
        ks,
        ks.len(),
        intrinsic(g1, kinds, n),
        intrinsic(g2, kinds, n),
        None,
    );
}

proof fn lemma_cell_no_faster(
    g1: Seq<Gate>,
    c1: Seq<Cell>,
    g2: Seq<Gate>,
    c2: Seq<Cell>,
    kinds: Seq<u32>,
    branches: Map<u32, Seq<u32>>,
    n: u32,
    cell1: Cell,
    cell2: Cell,
    m: u32,
)
    requires
        catalogs_no_faster(g1, c1, g2, c2),
        kinds_fit(g1, kinds),
        n < kinds.len(),
        cell1.delay_a <= cell2.delay_a,
        cell1.delay_b <= cell2.delay_b,
    ensures
        cell_delay(g1, c1, kinds, branches, n, cell1, m) <= cell_delay(g2, c2, kinds, branches, n, cell2, m),
    decreases n, 1nat, 0nat,
{
    let km = kids(branches, m);
    let ks = kids(branches, n);
    lemma_max_plus_no_faster(
        g1,
        c1,
        g2,
        c2,
        kinds,
        branches,
        n,
        km,
        km.len(),
        cell1.delay_a as int,
        cell2.delay_a as int,
        None,
    );
    lemma_max_plus_no_faster(
        g1,
        c1,
        g2,
        c2,
        kinds,
        branches,
        n,
        ks,
        ks.len(),
        cell1.delay_b as int,
        cell2.delay_b as int,
        Some(m),
    );
}

proof fn lemma_max_plus_no_faster(
    g1: Seq<Gate>,
    c1: Seq<Cell>,
    g2: Seq<Gate>,
    c2: Seq<Cell>,
    kinds: Seq<u32>,
    branches: Map<u32, Seq<u32>>,
    bound: u32,
    ks: Seq<u32>,
    i: nat,
    add1: int,
    add2: int,
    skip: Option<u32>,
)
    requires
        catalogs_no_faster(g1, c1, g2, c2),
        kinds_fit(g1, kinds),
        bound < kinds.len(),
        add1 <= add2,
    ensures
        max_plus(g1, c1, kinds, branches, bound, ks, i, add1, skip) <= max_plus(
            g2,
            c2,
            kinds,
            branches,
            bound,
            ks,
            i,
            add2,
            skip,
        ),
    decreases bound, 0nat, i,
{
    if i > 0 {
        let c = ks[i - 1];
        lemma_max_plus_no_faster(g1, c1, g2, c2, kinds, branches, bound, ks, (i - 1) as nat, add1, add2, skip);
        if c < bound && skip != Some(c) {
            lemma_walk_no_faster(g1, c1, g2, c2, kinds, branches, c);
        }
    }
}

/// Making gates or cells slower, and nothing else, never makes the network
/// faster.
pub proof fn lemma_slower_catalogs_no_faster(
    g1: Seq<Gate>,
    c1: Seq<Cell>,
    g2: Seq<Gate>,
    c2: Seq<Cell>,
    kinds: Seq<u32>,
    trees: Seq<Tree>,
)
    requires
        catalogs_no_faster(g1, c1, g2, c2),
        kinds_fit(g1, kinds),
        forall|t: int| 0 <= t < trees.len() ==> (#[trigger] trees[t]).spec_root() < kinds.len(),
    ensures
        trees_max(g1, c1, kinds, trees) <= trees_max(g2, c2, kinds, trees),
    decreases trees.len(),
{
    if trees.len() > 0 {
        let t = trees.last();
        assert(trees[trees.len() - 1].spec_root() < kinds.len());
        lemma_slower_catalogs_no_faster(g1, c1, g2, c2, kinds, trees.drop_last());
        lemma_walk_no_faster(g1, c1, g2, c2, kinds, t.branches(), t.spec_root());
    }
}

proof fn lemma_single(s: Seq<u64>)
    requires
        s.len() == 1,
    ensures
        seq_max(s) == s[0],
        seq_min(s) == s[0],
{
    assert(seq_max(s.drop_last()) == 0);
    assert(seq_min(s.drop_last()) == u64::MAX);
}

/// Each covering pair of `n` names a child of `n`.
proof fn lemma_pairs_are_children(
    cells: Seq<Cell>,
    kinds: Seq<u32>,
    branches: Map<u32, Seq<u32>>,
    n: u32,
    k: int,
)
    requires
        0 <= k < cell_pairs(cells, kinds, branches, n).len(),
    ensures
        kids(branches, n).contains(cell_pairs(cells, kinds, branches, n)[k].1),
    decreases cells.len(),
{
    let ps = cell_pairs(cells, kinds, branches, n);
    let rest = cell_pairs(cells.drop_last(), kinds, branches, n);
    if k < rest.len() {
        lemma_pairs_are_children(cells.drop_last(), kinds, branches, n, k);
    } else {
        lemma_pairs_for_children(cells.last(), kinds, kids(branches, n), k - rest.len());
    }
}

proof fn lemma_pairs_for_children(cell: Cell, kinds: Seq<u32>, ks: Seq<u32>, k: int)
    requires
        0 <= k < pairs_for(cell, kinds, ks).len(),
    ensures
        ks.contains(pairs_for(cell, kinds, ks)[k].1),
    decreases ks.len(),
{
    let rest = pairs_for(cell, kinds, ks.drop_last());
    if k < rest.len() {
        lemma_pairs_for_children(cell, kinds, ks.drop_last(), k);
        let t = choose|t: int| 0 <= t < ks.drop_last().len() && ks.drop_last()[t] == rest[k].1;
        assert(ks[t] == rest[k].1);
    } else {
        assert(ks[ks.len() - 1] == ks.last());
    }
}

} // verus!
