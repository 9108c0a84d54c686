use grad::graph::Graph;
use grad::Operation;

#[test]
fn leaf_and_binary_nodes_record_operation_and_operands() {
    let mut g = Graph::new();
    let a = g.leaf();
    let b = g.leaf();
    let c = g.binary(Operation::Div, a, b);
    let d = g.log(c);
    assert_eq!((a, b, c, d), (0, 1, 2, 3));
    assert_eq!(g.len(), 4);
    assert_eq!(g.op(a), Operation::Leaf);
    assert_eq!(g.op(c), Operation::Div);
    assert_eq!(g.op(d), Operation::Log);
    assert_eq!(g.operands(a), Vec::<usize>::new());
    assert_eq!(g.operands(c), vec![0, 1]);
    assert_eq!(g.operands(d), vec![2]);
}

#[test]
fn square_through_one_node_uses_both_operand_slots() {
    let mut g = Graph::new();
    let x = g.leaf();
    let y = g.binary(Operation::Mul, x, x);
    assert_eq!(g.operands(y), vec![x, x]);
    assert_eq!(g.topo_order(y), vec![x, y]);
    assert_eq!(g.backward_plan(y), vec![(y, 0), (y, 1)]);
}

#[test]
fn topo_order_holds_only_reachable_nodes_once_each() {
    let mut g = Graph::new();
    let a = g.leaf();
    let b = g.leaf();
    let unused = g.leaf();
    let c = g.binary(Operation::Add, a, b);
    let d = g.binary(Operation::Mul, c, a);
    let e = g.binary(Operation::Pow, d, c);
    assert_eq!(g.topo_order(e), vec![a, b, c, d, e]);
    assert_eq!(g.topo_order(c), vec![a, b, c]);
    assert_eq!(g.topo_order(unused), vec![unused]);
}

#[test]
fn backward_plan_visits_consumers_before_their_operands() {
    let mut g = Graph::new();
    let a = g.leaf();
    let b = g.leaf();
    let c = g.binary(Operation::Add, a, b);
    let d = g.binary(Operation::Mul, c, a);
    let plan = g.backward_plan(d);
    assert_eq!(plan, vec![(d, 0), (d, 1), (c, 0), (c, 1)]);
}

#[test]
fn backward_plan_of_a_leaf_is_empty() {
    let mut g = Graph::new();
    let a = g.leaf();
    assert!(g.backward_plan(a).is_empty());
}

#[test]
fn truncate_keeps_the_first_nodes() {
    let mut g = Graph::with_leaves(3);
    let s = g.binary(Operation::Add, 0, 2);
    let _ = g.log(s);
    assert_eq!(g.len(), 5);
    g.truncate(3);
    assert_eq!(g.len(), 3);
    for i in 0..3 {
        assert_eq!(g.op(i), Operation::Leaf);
    }
}

#[test]
fn weighted_sum_appends_products_and_running_sums() {
    // parameters: weights at 0 and 1, bias at 2; inputs at 3 and 4
    let mut g = Graph::with_leaves(5);
    let r = g.weighted_sum(0, 2, &vec![3, 4]);
    assert_eq!(r, 5 + 2 * 2 + 1);
    assert_eq!(g.len(), 5 + 2 * 2 + 2);
    assert_eq!(g.op(5), Operation::Leaf);
    assert_eq!((g.op(6), g.operands(6)), (Operation::Mul, vec![0, 3]));
    assert_eq!((g.op(7), g.operands(7)), (Operation::Add, vec![5, 6]));
    assert_eq!((g.op(8), g.operands(8)), (Operation::Mul, vec![1, 4]));
    assert_eq!((g.op(9), g.operands(9)), (Operation::Add, vec![7, 8]));
    assert_eq!((g.op(10), g.operands(10)), (Operation::Add, vec![9, 2]));
}

#[test]
fn weighted_sum_without_inputs_adds_the_bias_to_zero() {
    let mut g = Graph::with_leaves(1);
    let r = g.weighted_sum(0, 0, &vec![]);
    assert_eq!(r, 2);
    assert_eq!(g.op(1), Operation::Leaf);
    assert_eq!(g.operands(2), vec![1, 0]);
}
