use std::collections::HashMap;
use vstd::prelude::*;

use crate::error::MappingError;

verus! {

broadcast use {vstd::std_specs::hash::group_hash_axioms, vstd::seq_lib::lemma_seq_contains_after_push};

/// A raw node definition: a gate type and wire ids. A wire id below the number
/// of primary inputs names a primary input; any other id `w` names the output
/// of node `w - input_wires`.
#[derive(Debug)]
pub struct InputNode {
    pub gate_type: u32,
    pub inputs: Vec<u32>,
}

/// One gate instance of the network.
#[derive(Debug)]
pub struct Node {
    gate_type: u32,
    inputs: Vec<u32>,
    outputs: Vec<u32>,
}

impl Node {
    pub closed spec fn spec_gate_type(&self) -> u32 {
        self.gate_type
    }

    /// The nodes whose outputs feed this node, in wire order.
    pub closed spec fn spec_inputs(&self) -> Seq<u32> {
        self.inputs@
    }

    /// The nodes that consume this node's output.
    pub closed spec fn spec_outputs(&self) -> Seq<u32> {
        self.outputs@
    }

    fn new(gate_type: u32, inputs: Vec<u32>) -> (r: Node)
        ensures
            r.spec_gate_type() == gate_type,
            r.spec_inputs() == inputs@,
            r.spec_outputs() == Seq::<u32>::empty(),
    {
        Node { gate_type, inputs, outputs: Vec::new() }
    }

    pub fn gate_type(&self) -> (r: u32)
        ensures
            r == self.spec_gate_type(),
    {
        self.gate_type
    }

    pub fn inputs(&self) -> (r: &Vec<u32>)
        ensures
            r@ == self.spec_inputs(),
    {
        &self.inputs
    }

    fn add_output(&mut self, node_index: u32)
        ensures
            final(self).spec_gate_type() == old(self).spec_gate_type(),
            final(self).spec_inputs() == old(self).spec_inputs(),
            final(self).spec_outputs() == old(self).spec_outputs().push(node_index),
    {
        self.outputs.push(node_index);
    }
}

/// What is left of a raw wire list once primary inputs are dropped and node
/// wires are renumbered to node ids.
pub open spec fn pruned(wires: Seq<u32>, input_wires: u32) -> Seq<u32>
    decreases wires.len(),
{
    if wires.len() == 0 {
        Seq::empty()
    } else {
        let w = wires.last();
        let rest = pruned(wires.drop_last(), input_wires);
        if w >= input_wires {
            rest.push((w - input_wires) as u32)
        } else {
            rest
        }
    }
}

/// Some definition names a node that is not defined before it.
pub open spec fn has_forward_ref(raw: Seq<InputNode>, input_wires: u32) -> bool {
    exists|i: int, j: int|
        0 <= i < raw.len() && 0 <= j < raw[i].inputs@.len() && #[trigger] raw[i].inputs@[j]
            >= input_wires && raw[i].inputs@[j] - input_wires >= i
}

/// The children of `n` in a tree's branch map; a node without an entry is a leaf.
pub open spec fn kids(branches: Map<u32, Seq<u32>>, n: u32) -> Seq<u32> {
    if branches.contains_key(n) {
        branches[n]
    } else {
        Seq::empty()
    }
}

/// Every child in the branch map has a smaller id than its parent.
pub open spec fn descending(branches: Map<u32, Seq<u32>>) -> bool {
    forall|k: u32, j: int|
        branches.contains_key(k) && 0 <= j < branches[k].len() ==> #[trigger] branches[k][j] < k
}

/// A rooted expansion of the network from one node.
#[derive(Debug)]
pub struct Tree {
    root: u32,
    data: HashMap<u32, Vec<u32>>,
}

impl Tree {
    pub closed spec fn spec_root(&self) -> u32 {
        self.root
    }

    /// Each expanded node with its children.
    pub closed spec fn branches(&self) -> Map<u32, Seq<u32>> {
        self.data@.map_values(|v: Vec<u32>| v@)
    }

    /// Every child has a smaller id than its parent, so walks end.
    pub open spec fn wf(&self) -> bool {
        descending(self.branches())
    }

    pub fn new(root: u32) -> (r: Tree)
        ensures
            r.spec_root() == root,
            r.branches() == Map::<u32, Seq<u32>>::empty(),
            r.wf(),
    {
        let r = Tree { root, data: HashMap::new() };
        assert(r.branches() =~= Map::<u32, Seq<u32>>::empty());
        r
    }

    pub fn root(&self) -> (r: u32)
        ensures
            r == self.spec_root(),
    {
        self.root
    }

    /// The children of `parent`, or `None` where it has none.
    pub fn children(&self, parent: u32) -> (r: Option<&Vec<u32>>)
        ensures
            match r {
                Some(v) => v@ == kids(self.branches(), parent) && v@.len() > 0,
                None => kids(self.branches(), parent).len() == 0,
            },
    {
        match self.data.get(&parent) {
            Some(x) => {
                if !x.is_empty() {
                    Some(x)
                } else {
                    None
                }
            },
            None => None,
        }
    }

    fn add_branch(&mut self, root: u32, children: &Vec<u32>)
        ensures
            final(self).spec_root() == old(self).spec_root(),
            final(self).branches() == old(self).branches().insert(root, children@),
    {
        let copy = children.clone();
        assert(copy@ =~= children@);
        self.data.insert(root, copy);
        assert(self.branches() =~= old(self).branches().insert(root, children@));
    }
}


/// The whole network. Node `i` may only consume nodes defined before it.
#[derive(Debug)]
pub struct DAG {
    nodes: Vec<Node>,
}

/// The ids of the first `n` nodes that feed no other node, in id order.
pub open spec fn sink_ids(outputs: Seq<Seq<u32>>, n: int) -> Seq<u32>
    decreases n,
{
    if n <= 0 {
        Seq::empty()
    } else if outputs[n - 1].len() == 0 {
        sink_ids(outputs, n - 1).push((n - 1) as u32)
    } else {
        sink_ids(outputs, n - 1)
    }
}

/// `to` is `from` or lies below it, following inputs to smaller ids.
pub open spec fn reaches(wires: Seq<Seq<u32>>, from: u32, to: u32) -> bool
    decreases from,
{
    from == to || exists|j: int|
        0 <= j < wires[from as int].len() && #[trigger] wires[from as int][j] < from && reaches(
            wires,
            wires[from as int][j],
            to,
        )
}

proof fn lemma_reaches_input(wires: Seq<Seq<u32>>, from: u32, p: u32, j: int)
    requires
        reaches(wires, from, p),
        0 <= j < wires[p as int].len(),
        wires[p as int][j] < p,
    ensures
        reaches(wires, from, wires[p as int][j]),
    decreases from,
{
    let c = wires[p as int][j];
    if from == p {
        assert(reaches(wires, c, c));
    } else {
        let i = choose|i: int|
            0 <= i < wires[from as int].len() && #[trigger] wires[from as int][i] < from && reaches(
                wires,
                wires[from as int][i],
                p,
            );
        lemma_reaches_input(wires, wires[from as int][i], p, j);
    }
}

/// The number of nodes in the full expansion below `n`, `n` included.
pub open spec fn expansion_size(wires: Seq<Seq<u32>>, n: u32) -> nat
    decreases n, 1nat, 0nat,
{
    1 + expansion_sum(wires, n, wires[n as int], wires[n as int].len())
}

/// The summed expansion sizes of the first `i` of `ks`, counting only ids below `bound`.
pub open spec fn expansion_sum(wires: Seq<Seq<u32>>, bound: u32, ks: Seq<u32>, i: nat) -> nat
    decreases bound, 0nat, i,
{
    if i == 0 {
        0
    } else {
        let c = ks[i - 1];
        expansion_sum(wires, bound, ks, (i - 1) as nat) + if c < bound {
            expansion_size(wires, c)
        } else {
            0
        }
    }
}

/// The expansion sizes of the nodes waiting on a work stack, summed.
pub open spec fn stack_weight(wires: Seq<Seq<u32>>, s: Seq<u32>) -> nat
    decreases s.len(),
{
    if s.len() == 0 {
        0
    } else {
        stack_weight(wires, s.drop_last()) + expansion_size(wires, s.last())
    }
}

impl DAG {
    /// Each node's gate type.
    pub closed spec fn kinds(&self) -> Seq<u32> {
        self.nodes@.map_values(|n: Node| n.spec_gate_type())
    }

    /// The nodes feeding each node.
    pub closed spec fn wires(&self) -> Seq<Seq<u32>> {
        self.nodes@.map_values(|n: Node| n.spec_inputs())
    }

    /// The consumers recorded for each node.
    pub closed spec fn consumers(&self) -> Seq<Seq<u32>> {
        self.nodes@.map_values(|n: Node| n.spec_outputs())
    }

    pub open spec fn len(&self) -> nat {
        self.kinds().len()
    }

    /// No node of the network reads `k`'s output.
    pub open spec fn is_sink(&self, k: u32) -> bool {
        forall|x: int| 0 <= x < self.len() ==> !(#[trigger] self.wires()[x]).contains(k)
    }

    /// Node ids fit in `u32`, every node reads only earlier nodes, and the
    /// recorded consumers of each node are exactly the nodes that read it.
    pub open spec fn wf(&self) -> bool {
        &&& self.len() <= u32::MAX
        &&& self.wires().len() == self.len()
        &&& self.consumers().len() == self.len()
        &&& forall|i: int, j: int|
            0 <= i < self.len() && 0 <= j < self.wires()[i].len() ==> #[trigger] self.wires()[i][j]
                < i
        &&& forall|k: int, x: u32|
            0 <= k < self.len() ==> (#[trigger] self.consumers()[k].contains(x) <==> (x
                < self.len() && self.wires()[x as int].contains(k as u32)))
    }

    /// The sinks of the network in id order.
    pub open spec fn sinks(&self) -> Seq<u32> {
        sink_ids(self.consumers(), self.len() as int)
    }

    /// Builds the network from definitions in topological order. Fails when
    /// a definition reads a node that is not defined before it.
    pub fn new(input_wires: u32, input_nodes: &mut Vec<InputNode>) -> (r: Result<
        DAG,
        MappingError<'static>,
    >)
        requires
            old(input_nodes)@.len() <= u32::MAX,
        ensures
            *final(input_nodes) == *old(input_nodes),
            r is Err <==> has_forward_ref(old(input_nodes)@, input_wires),
            r matches Ok(d) ==> {
                &&& d.wf()
                &&& d.len() == old(input_nodes)@.len()
                &&& forall|i: int|
                    0 <= i < d.len() ==> d.kinds()[i] == (#[trigger] old(input_nodes)@[i]).gate_type
                        && d.wires()[i] == pruned(old(input_nodes)@[i].inputs@, input_wires)
            },
    {
        let defs: &Vec<InputNode> = input_nodes;
        let ghost raw = defs@;
        let mut node_index: u32 = 0;
        let mut nodes: Vec<Node> = Vec::new();
        let n = defs.len();
        while (node_index as usize) < n
            invariant
                raw == defs@,
                raw == old(input_nodes)@,
                n == raw.len() <= u32::MAX,
                node_index <= n,
                nodes@.len() == node_index,
                forall|i: int, j: int|
                    0 <= i < node_index && 0 <= j < raw[i].inputs@.len() && #[trigger] raw[i].inputs@[j]
                        >= input_wires ==> raw[i].inputs@[j] - input_wires < i,
                forall|i: int|
                    0 <= i < node_index ==> (#[trigger] nodes@[i]).spec_gate_type() == raw[i].gate_type
                        && nodes@[i].spec_inputs() == pruned(raw[i].inputs@, input_wires),
                forall|i: int, j: int|
                    0 <= i < node_index && 0 <= j < nodes@[i].spec_inputs().len()
                        ==> #[trigger] nodes@[i].spec_inputs()[j] < i,
                forall|k: int, x: u32|
                    0 <= k < node_index ==> (#[trigger] nodes@[k].spec_outputs().contains(x) <==> (x
                        < node_index && nodes@[x as int].spec_inputs().contains(k as u32))),
            decreases n - node_index,
        {
            let input_node = &defs[node_index as usize];
            let mut pruned_inputs: Vec<u32> = Vec::new();
            let mut j: usize = 0;
            while j < input_node.inputs.len()
                invariant
                    raw == defs@,
                    raw == old(input_nodes)@,
                    input_node == raw[node_index as int],
                    node_index < n == raw.len(),
                    j <= input_node.inputs@.len(),
                    pruned_inputs@ == pruned(input_node.inputs@.take(j as int), input_wires),
                    forall|t: int| 0 <= t < pruned_inputs@.len() ==> #[trigger] pruned_inputs@[t] < node_index,
                    forall|t: int|
                        0 <= t < j && #[trigger] input_node.inputs@[t] >= input_wires
                            ==> input_node.inputs@[t] - input_wires < node_index,
                decreases input_node.inputs@.len() - j,
            {
                let input = input_node.inputs[j];
                assert(input_node.inputs@.take(j + 1).drop_last() =~= input_node.inputs@.take(j as int));
                if input >= input_wires {
                    if input - input_wires >= node_index {
                        assert(has_forward_ref(raw, input_wires)) by {
                            assert(raw[node_index as int].inputs@[j as int] >= input_wires);
                        }
                        return Err(MappingError { why: "Input references a node that is not defined before it" });
                    }
                    pruned_inputs.push(input - input_wires);
                }
                j += 1;
            }
            assert(input_node.inputs@.take(j as int) =~= input_node.inputs@);
            let node = Node::new(input_node.gate_type, pruned_inputs);
            let mut j: usize = 0;
            while j < node.inputs().len()
                invariant
                    nodes@.len() == node_index,
                    node_index < n == raw.len() <= u32::MAX,
                    forall|t: int| 0 <= t < node.spec_inputs().len() ==> #[trigger] node.spec_inputs()[t] < node_index,
                    j <= node.spec_inputs().len(),
                    forall|i: int|
                        0 <= i < node_index ==> (#[trigger] nodes@[i]).spec_gate_type() == raw[i].gate_type
                            && nodes@[i].spec_inputs() == pruned(raw[i].inputs@, input_wires),
                    forall|i: int, j: int|
                        0 <= i < node_index && 0 <= j < nodes@[i].spec_inputs().len()
                            ==> #[trigger] nodes@[i].spec_inputs()[j] < i,
                    forall|k: int, x: u32|
                        0 <= k < node_index ==> (#[trigger] nodes@[k].spec_outputs().contains(x) <==> ((x
                            < node_index && nodes@[x as int].spec_inputs().contains(k as u32)) || (x == node_index
                            && node.spec_inputs().take(j as int).contains(k as u32)))),
                decreases node.spec_inputs().len() - j,
            {
                let k = node.inputs()[j];
                let ghost before = nodes@;
                nodes[k as usize].add_output(node_index);
                assert forall|k2: int, x: u32|
                    0 <= k2 < node_index implies (#[trigger] nodes@[k2].spec_outputs().contains(x) <==> ((x
                        < node_index && nodes@[x as int].spec_inputs().contains(k2 as u32)) || (x == node_index
                        && node.spec_inputs().take(j + 1).contains(k2 as u32)))) by {
                    assert(node.spec_inputs().take(j + 1) =~= node.spec_inputs().take(j as int).push(k));
                    if x < node_index {
                        assert(nodes@[x as int].spec_inputs() == before[x as int].spec_inputs());
                    }
                    if k2 == k {
                        assert(nodes@[k2].spec_outputs() == before[k2].spec_outputs().push(node_index));
                    } else {
                        assert(nodes@[k2] == before[k2]);
                    }
                }
                j += 1;
            }
            assert(node.spec_inputs().take(j as int) =~= node.spec_inputs());
            let ghost before = nodes@;
            nodes.push(node);
            node_index += 1;
            assert forall|k: int, x: u32|
                0 <= k < node_index implies (#[trigger] nodes@[k].spec_outputs().contains(x) <==> (x
                    < node_index && nodes@[x as int].spec_inputs().contains(k as u32))) by {
                if k == node_index - 1 {
                    if x < node_index && nodes@[x as int].spec_inputs().contains(k as u32) {
                        let t = choose|t: int| 0 <= t < nodes@[x as int].spec_inputs().len() && nodes@[x as int].spec_inputs()[t] == k as u32;
                        assert(nodes@[x as int].spec_inputs()[t] < x);
                    }
                } else {
                    assert(nodes@[k] == before[k]);
                    if x < node_index - 1 {
                        assert(nodes@[x as int] == before[x as int]);
                    }
                }
            }
        }
        let d = DAG { nodes };
        assert(d.kinds().len() == d.nodes@.len());
        assert forall|i: int, j: int|
            0 <= i < d.len() && 0 <= j < d.wires()[i].len() implies #[trigger] d.wires()[i][j] < i by {
            assert(d.wires()[i] == d.nodes@[i].spec_inputs());
        }
        assert forall|k: int, x: u32|
            0 <= k < d.len() implies (#[trigger] d.consumers()[k].contains(x) <==> (x < d.len()
                && d.wires()[x as int].contains(k as u32))) by {
            assert(d.consumers()[k] == d.nodes@[k].spec_outputs());
            if x < d.len() {
                assert(d.wires()[x as int] == d.nodes@[x as int].spec_inputs());
            }
        }
        assert(!has_forward_ref(raw, input_wires));
        Ok(d)
    }

    /// `t` is the full expansion of the network below its root: the root is
    /// expanded, every expanded node lies below the root and carries its
    /// inputs as children, and every child is expanded in turn.
    pub open spec fn expands(&self, t: Tree) -> bool {
        &&& t.spec_root() < self.len()
        &&& t.branches().contains_key(t.spec_root())
        &&& forall|k: u32|
            #[trigger] t.branches().contains_key(k) ==> k < self.len() && t.branches()[k]
                == self.wires()[k as int] && reaches(self.wires(), t.spec_root(), k)
        &&& forall|k: u32, j: int|
            t.branches().contains_key(k) && 0 <= j < t.branches()[k].len()
                ==> t.branches().contains_key(#[trigger] t.branches()[k][j])
    }

    pub fn gate_type(&self, node: u32) -> (r: u32)
        requires
            node < self.len(),
        ensures
            r == self.kinds()[node as int],
    {
        self.nodes[node as usize].gate_type()
    }

    pub fn inputs(&self, node: u32) -> (r: &Vec<u32>)
        requires
            node < self.len(),
        ensures
            r@ == self.wires()[node as int],
    {
        self.nodes[node as usize].inputs()
    }

    /// Whether every node's gate type indexes a catalog of `count` gate types.
    pub fn gate_types_below(&self, count: usize) -> (r: bool)
        ensures
            r == forall|i: int| 0 <= i < self.len() ==> self.kinds()[i] < count,
    {
        let mut i: usize = 0;
        while i < self.nodes.len()
            invariant
                i <= self.len(),
                self.nodes@.len() == self.len(),
                forall|t: int| 0 <= t < i ==> self.kinds()[t] < count,
            decreases self.nodes@.len() - i,
        {
            if self.nodes[i].gate_type() as usize >= count {
                assert(self.kinds()[i as int] == self.nodes@[i as int].spec_gate_type());
                return false;
            }
            i += 1;
        }
        true
    }

    /// One tree per sink, in id order, each the full expansion below its sink.
    ///
    /// No node is expanded only once: a node read along several paths is
    /// expanded again under each of them. The trees can therefore grow
    /// exponentially with the depth of reconvergent sharing; this is a known
    /// scaling limit.
    pub fn partition(&self) -> (r: Vec<Tree>)
        requires
            self.wf(),
        ensures
            r@.len() == self.sinks().len(),
            forall|t: int|
                0 <= t < r@.len() ==> (#[trigger] r@[t]).spec_root() == self.sinks()[t]
                    && self.expands(r@[t]) && r@[t].wf(),
    {
        let mut trees: Vec<Tree> = Vec::new();
        let mut index: usize = 0;
        while index < self.nodes.len()
            invariant
                self.wf(),
                index <= self.len(),
                self.nodes@.len() == self.len(),
                trees@.len() == sink_ids(self.consumers(), index as int).len(),
                forall|t: int|
                    0 <= t < trees@.len() ==> (#[trigger] trees@[t]).spec_root() == sink_ids(
                        self.consumers(),
                        index as int,
                    )[t] && self.expands(trees@[t]) && trees@[t].wf(),
            decreases self.nodes@.len() - index,
        {
            assert(self.consumers()[index as int] == self.nodes@[index as int].spec_outputs());
            if self.nodes[index].outputs.is_empty() {
                trees.push(self.find_tree(index as u32));
            }
            index += 1;
        }
        trees
    }

    fn find_tree(&self, root_index: u32) -> (r: Tree)
        requires
            self.wf(),
            root_index < self.len(),
        ensures
            r.spec_root() == root_index,
            self.expands(r),
            r.wf(),
    {
        let ghost wires = self.wires();
        let mut tree = Tree::new(root_index);
        let mut tree_stack: Vec<u32> = vec![root_index];
        while !tree_stack.is_empty()
            invariant
                self.wf(),
                wires == self.wires(),
                self.nodes@.len() == self.len(),
                root_index < self.len(),
                tree.spec_root() == root_index,
                forall|t: int|
                    0 <= t < tree_stack@.len() ==> #[trigger] tree_stack@[t] < self.len() && reaches(
                        wires,
                        root_index,
                        tree_stack@[t],
                    ),
                tree.branches().contains_key(root_index) || tree_stack@.contains(root_index),
                forall|k: u32|
                    #[trigger] tree.branches().contains_key(k) ==> k < self.len() && tree.branches()[k]
                        == wires[k as int] && reaches(wires, root_index, k),
                forall|k: u32, j: int|
                    tree.branches().contains_key(k) && 0 <= j < tree.branches()[k].len() ==> (
                    tree.branches().contains_key(#[trigger] tree.branches()[k][j])
                        || tree_stack@.contains(tree.branches()[k][j])),
            decreases stack_weight(wires, tree_stack@),
        {
            let ghost before = tree_stack@;
            let root = tree_stack.pop().unwrap();
            let ghost base = tree_stack@;
            assert(before.drop_last() == base);
            assert(before[before.len() - 1] == root);
            assert(before =~= base.push(root));
            let ghost old_tree = tree.branches();
            tree.add_branch(root, &self.nodes[root as usize].inputs);
            let ks = &self.nodes[root as usize].inputs;
            assert(ks@ == wires[root as int]);
            let mut i: usize = 0;
            while i < ks.len()
                invariant
                    self.wf(),
                    wires == self.wires(),
                    root < self.len(),
                    ks@ == wires[root as int],
                    i <= ks@.len(),
                    tree_stack@ == base + ks@.take(i as int),
                    reaches(wires, root_index, root),
                    forall|t: int|
                        0 <= t < tree_stack@.len() ==> #[trigger] tree_stack@[t] < self.len() && reaches(
                            wires,
                            root_index,
                            tree_stack@[t],
                        ),
                    stack_weight(wires, tree_stack@) == stack_weight(wires, base) + expansion_sum(
                        wires,
                        root,
                        ks@,
                        i as nat,
                    ),
                decreases ks@.len() - i,
            {
                let c = ks[i];
                assert(c < root);
                proof {
                    lemma_reaches_input(wires, root_index, root, i as int);
                }
                let ghost s0 = tree_stack@;
                tree_stack.push(c);
                assert(tree_stack@.drop_last() == s0);
                assert(ks@.take(i + 1) =~= ks@.take(i as int).push(c));
                assert(tree_stack@ =~= base + ks@.take(i + 1));
                i += 1;
            }
            assert(ks@.take(i as int) =~= ks@);
            proof {
                if !tree.branches().contains_key(root_index) {
                    let t = choose|t: int| 0 <= t < before.len() && before[t] == root_index;
                    assert(tree_stack@[t] == root_index);
                }
            }
            assert forall|k: u32, j: int|
                tree.branches().contains_key(k) && 0 <= j < tree.branches()[k].len() implies (
                tree.branches().contains_key(#[trigger] tree.branches()[k][j])
                    || tree_stack@.contains(tree.branches()[k][j])) by {
                let c = tree.branches()[k][j];
                if k == root {
                    assert(ks@[j] == c);
                    assert(tree_stack@[base.len() + j] == c);
                } else {
                    assert(old_tree.contains_key(k) && old_tree[k][j] == c);
                    if !old_tree.contains_key(c) && c != root {
                        assert(before.contains(c));
                        let t = choose|t: int| 0 <= t < before.len() && before[t] == c;
                        assert(t < base.len());
                        assert(base[t] == c);
                        assert(tree_stack@[t] == c);
                    }
                }
            }
        }
        assert forall|k: u32, j: int|
            tree.branches().contains_key(k) && 0 <= j < tree.branches()[k].len()
                implies #[trigger] tree.branches()[k][j] < k by {
            assert(tree.branches()[k] == wires[k as int]);
        }
        tree
    }
}


proof fn lemma_sink_ids_contains(outputs: Seq<Seq<u32>>, n: int, k: u32)
    requires
        0 <= n <= outputs.len() <= u32::MAX + 1,
    ensures
        sink_ids(outputs, n).contains(k) <==> (k < n && outputs[k as int].len() == 0),
    decreases n,
{
    if n > 0 {
        lemma_sink_ids_contains(outputs, n - 1, k);
        let prev = sink_ids(outputs, n - 1);
        if outputs[n - 1].len() == 0 {
            let cur = prev.push((n - 1) as u32);
            if k == n - 1 {
                assert(cur[prev.len() as int] == k);
            }
            if cur.contains(k) && k != n - 1 {
                let t = choose|t: int| 0 <= t < cur.len() && cur[t] == k;
                assert(prev[t] == k);
            }
            if prev.contains(k) {
                let t = choose|t: int| 0 <= t < prev.len() && prev[t] == k;
                assert(cur[t] == k);
            }
        }
    }
}

/// The trees of a well-formed network are rooted exactly at the nodes whose
/// output feeds no other node.
pub proof fn lemma_sinks_feed_nothing(dag: DAG, k: u32)
    requires
        dag.wf(),
    ensures
        dag.sinks().contains(k) <==> (k < dag.len() && dag.is_sink(k)),
{
    lemma_sink_ids_contains(dag.consumers(), dag.len() as int, k);
    if k < dag.len() {
        let outs = dag.consumers()[k as int];
        if outs.len() > 0 {
            assert(outs.contains(outs[0]));
            assert(dag.wires()[outs[0] as int].contains(k));
        }
        if !dag.is_sink(k) {
            let x = choose|x: int| 0 <= x < dag.len() && (#[trigger] dag.wires()[x]).contains(k);
            assert(dag.consumers()[k as int].contains(x as u32));
        }
    }
}

} // verus!
