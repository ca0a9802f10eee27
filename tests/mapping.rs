use mapping::{Cell, Config, Gate, InputNode, LaydownWalker, Tree, DAG};

fn gate(delay: u32) -> Gate {
    Gate { inputs: 2, delay }
}

fn node(gate_type: u32, inputs: Vec<u32>) -> InputNode {
    InputNode { gate_type, inputs }
}

fn build(input_wires: u32, nodes: Vec<InputNode>) -> DAG {
    let mut nodes = nodes;
    match DAG::new(input_wires, &mut nodes) {
        Ok(dag) => dag,
        Err(e) => panic!("unexpected error: {}", e.why),
    }
}

fn min_delay(gates: &Vec<Gate>, cells: &Vec<Cell>, dag: &DAG) -> u64 {
    assert!(dag.gate_types_below(gates.len()));
    let trees = dag.partition();
    let walker = LaydownWalker::new(gates, cells, &trees, dag);
    walker.find_min_delay()
}

#[test]
fn single_node_of_primary_inputs() {
    let gates = vec![gate(1), gate(2)];
    let cells: Vec<Cell> = Vec::new();
    let dag = build(2, vec![node(1, vec![0, 1])]);
    let trees = dag.partition();
    assert_eq!(trees.len(), 1);
    assert_eq!(trees[0].root(), 0);
    assert!(trees[0].children(0).is_none());
    assert_eq!(min_delay(&gates, &cells, &dag), 2);
}

#[test]
fn shared_node_is_expanded_under_each_sink() {
    let gates = vec![gate(3)];
    let cells: Vec<Cell> = Vec::new();
    let dag = build(1, vec![node(0, vec![0]), node(0, vec![1]), node(0, vec![1])]);
    let trees = dag.partition();
    assert_eq!(trees.len(), 2);
    assert_eq!(trees[0].root(), 1);
    assert_eq!(trees[1].root(), 2);
    assert_eq!(trees[0].children(1), Some(&vec![0]));
    assert_eq!(trees[1].children(2), Some(&vec![0]));
    assert_eq!(min_delay(&gates, &cells, &dag), 6);
}

#[test]
fn cell_covers_node_and_leaf_child() {
    let gates = vec![gate(5), gate(5)];
    let cells = vec![Cell { gate_a: 0, gate_b: 1, delay_a: 1, delay_b: 1 }];
    let dag = build(1, vec![node(0, vec![0]), node(1, vec![1])]);
    assert_eq!(min_delay(&gates, &cells, &dag), 1);
}

#[test]
fn cell_delays_other_inputs_by_delay_b() {
    // node2 (type 1) reads node0 (type 0) and node1 (type 2); the cell covers
    // node2 with node0, node1 goes through delay_b.
    let gates = vec![gate(5), gate(5), gate(4)];
    let cells = vec![Cell { gate_a: 0, gate_b: 1, delay_a: 2, delay_b: 3 }];
    let dag = build(1, vec![node(0, vec![0]), node(2, vec![0]), node(1, vec![1, 2])]);
    // plain: max(5, 4) + 5 = 10; cell: max(2, 4 + 3) = 7
    assert_eq!(min_delay(&gates, &cells, &dag), 7);
}

#[test]
fn cell_matched_child_with_children_uses_delay_a() {
    // chain node0 (type 2) -> node1 (type 0) -> node2 (type 1)
    let gates = vec![gate(5), gate(5), gate(6)];
    let cells = vec![Cell { gate_a: 0, gate_b: 1, delay_a: 2, delay_b: 9 }];
    let dag = build(1, vec![node(2, vec![0]), node(0, vec![1]), node(1, vec![2])]);
    // plain: 6 + 5 + 5 = 16; cell over node2 and node1: 6 + 2 = 8
    assert_eq!(min_delay(&gates, &cells, &dag), 8);
}

#[test]
fn slower_cell_is_not_taken() {
    let gates = vec![gate(5), gate(5)];
    let cells = vec![Cell { gate_a: 0, gate_b: 1, delay_a: 100, delay_b: 100 }];
    let dag = build(1, vec![node(0, vec![0]), node(1, vec![1])]);
    assert_eq!(min_delay(&gates, &cells, &dag), 10);
}

#[test]
fn cell_with_other_pattern_does_not_apply() {
    let gates = vec![gate(5), gate(5)];
    let cells = vec![Cell { gate_a: 1, gate_b: 0, delay_a: 1, delay_b: 1 }];
    let dag = build(1, vec![node(0, vec![0]), node(1, vec![1])]);
    assert_eq!(min_delay(&gates, &cells, &dag), 10);
}

#[test]
fn without_cells_delay_is_longest_path_sum() {
    // node3 reads node2 and node0; node2 reads node1; node1 reads node0
    let gates = vec![gate(1), gate(10), gate(100)];
    let cells: Vec<Cell> = Vec::new();
    let dag = build(2, vec![node(0, vec![0]), node(1, vec![2]), node(2, vec![3, 1]), node(0, vec![4, 2])]);
    // longest: node0 (1) + node1 (10) + node2 (100) + node3 (1) = 112
    assert_eq!(min_delay(&gates, &cells, &dag), 112);
}

#[test]
fn slower_gate_never_lowers_delay() {
    let cells = vec![Cell { gate_a: 0, gate_b: 1, delay_a: 4, delay_b: 4 }];
    let dag = build(1, vec![node(0, vec![0]), node(1, vec![1]), node(0, vec![0]), node(1, vec![3, 2])]);
    let base = min_delay(&vec![gate(3), gate(2)], &cells, &dag);
    let slower_gate = min_delay(&vec![gate(3), gate(7)], &cells, &dag);
    let slower_cell = min_delay(
        &vec![gate(3), gate(2)],
        &vec![Cell { gate_a: 0, gate_b: 1, delay_a: 9, delay_b: 4 }],
        &dag,
    );
    assert!(slower_gate >= base);
    assert!(slower_cell >= base);
}

#[test]
fn same_inputs_give_same_delay() {
    let gates = vec![gate(2), gate(3)];
    let cells = vec![Cell { gate_a: 0, gate_b: 1, delay_a: 1, delay_b: 2 }];
    let dag = build(1, vec![node(0, vec![0]), node(1, vec![1, 0])]);
    let first = min_delay(&gates, &cells, &dag);
    let second = min_delay(&gates, &cells, &dag);
    assert_eq!(first, second);
    // plain: 2 + 3 = 5; the cell covers both nodes for delay_a = 1
    assert_eq!(first, 1);
}

#[test]
fn leaf_root_costs_its_gate_delay() {
    let gates = vec![gate(7)];
    let cells = vec![Cell { gate_a: 0, gate_b: 0, delay_a: 1, delay_b: 1 }];
    let dag = build(3, vec![node(0, vec![0, 1, 2])]);
    assert_eq!(min_delay(&gates, &cells, &dag), 7);
}

#[test]
fn empty_network_has_no_delay() {
    let gates = vec![gate(7)];
    let cells: Vec<Cell> = Vec::new();
    let dag = build(3, Vec::new());
    assert_eq!(dag.partition().len(), 0);
    assert_eq!(min_delay(&gates, &cells, &dag), 0);
}

#[test]
fn largest_delays_do_not_overflow() {
    let gates = vec![gate(u32::MAX)];
    let cells: Vec<Cell> = Vec::new();
    let dag = build(1, vec![node(0, vec![0]), node(0, vec![1]), node(0, vec![2])]);
    assert_eq!(min_delay(&gates, &cells, &dag), 3 * (u32::MAX as u64));
}

#[test]
fn forward_reference_is_rejected() {
    let mut nodes = vec![node(0, vec![0]), node(0, vec![3])];
    assert!(DAG::new(1, &mut nodes).is_err());
}

#[test]
fn self_reference_is_rejected() {
    let mut nodes = vec![node(0, vec![0]), node(0, vec![2])];
    let result = DAG::new(1, &mut nodes);
    assert!(result.is_err());
    assert_eq!(nodes.len(), 2);
}

#[test]
fn wires_are_renumbered_and_primary_inputs_dropped() {
    let dag = build(3, vec![node(4, vec![0, 2]), node(5, vec![3, 1, 3])]);
    assert_eq!(dag.gate_type(0), 4);
    assert_eq!(dag.gate_type(1), 5);
    assert!(dag.inputs(0).is_empty());
    assert_eq!(dag.inputs(1), &vec![0, 0]);
    let trees = dag.partition();
    assert_eq!(trees.len(), 1);
    assert_eq!(trees[0].root(), 1);
    assert_eq!(trees[0].children(1), Some(&vec![0, 0]));
    assert!(trees[0].children(0).is_none());
}

#[test]
fn unknown_gate_type_is_detected() {
    let dag = build(1, vec![node(0, vec![0]), node(2, vec![1])]);
    assert!(dag.gate_types_below(3));
    assert!(!dag.gate_types_below(2));
}

#[test]
fn new_tree_has_no_children() {
    let tree = Tree::new(4);
    assert_eq!(tree.root(), 4);
    assert!(tree.children(4).is_none());
}

#[test]
fn gate_delay_getter() {
    assert_eq!(gate(9).delay(), 9);
}

#[test]
fn config_takes_one_file_argument() {
    let args = vec!["prog".to_string(), "circuit.txt".to_string()];
    let config = Config::new(&args).unwrap();
    assert_eq!(config.file, "circuit.txt");
    assert_eq!(Config::new(&args[..1]).unwrap_err().why, "Too few arguments");
    let three = vec!["prog".to_string(), "a".to_string(), "b".to_string()];
    assert!(Config::new(&three).is_err());
}
