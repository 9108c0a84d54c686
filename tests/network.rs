use grad::network::{layer_forward, shape_matches};
use grad::{Activation, Graph, Layout, Loss, Operation};

#[test]
fn layout_counts_weights_and_biases() {
    let lay = Layout::new(vec![2, 2, 1]).unwrap();
    assert_eq!(lay.num_layers(), 2);
    assert_eq!(lay.input_size(), 2);
    assert_eq!(lay.fan_in(1), 2);
    assert_eq!(lay.width(0), 2);
    assert_eq!(lay.param_count(), 2 * 3 + 1 * 3);
    assert_eq!(lay.param(0, 0, 0), 0);
    assert_eq!(lay.param(0, 0, 2), 2);
    assert_eq!(lay.param(0, 1, 0), 3);
    assert_eq!(lay.param(1, 0, 1), 7);
    assert_eq!(lay.param(1, 0, 2), 8);
}

#[test]
fn layout_of_a_wide_network() {
    let lay = Layout::new(vec![784, 32, 16, 10]).unwrap();
    assert_eq!(lay.param_count(), 32 * 785 + 16 * 33 + 10 * 17);
    assert_eq!(lay.param(2, 9, 16), lay.param_count() - 1);
}

#[test]
fn layout_refuses_more_parameters_than_usize_holds() {
    assert!(Layout::new(vec![usize::MAX, 2]).is_none());
    assert!(Layout::new(vec![usize::MAX, 0]).is_some());
}

#[test]
fn layer_forward_builds_one_weighted_sum_per_neuron() {
    let lay = Layout::new(vec![2, 2, 1]).unwrap();
    let mut g = Graph::with_leaves(lay.param_count() + 2);
    let inputs = vec![9, 10];
    let out = layer_forward(&mut g, &lay, 0, &inputs);
    assert_eq!(out, vec![11 + 5, 11 + 6 + 5]);
    assert_eq!(g.len(), 11 + 2 * 6);
    // second neuron: weights 3 and 4, bias 5
    assert_eq!(g.operands(18), vec![3, 9]);
    assert_eq!(g.operands(20), vec![4, 10]);
    assert_eq!((g.op(22), g.operands(22)), (Operation::Add, vec![21, 5]));
}

#[test]
fn shape_matches_accepts_a_consistent_shape() {
    let sizes = vec![2, 3, 1];
    let counts = vec![vec![2, 2, 2], vec![3]];
    assert!(shape_matches(&sizes, 2, &counts));
}

#[test]
fn shape_matches_rejects_each_kind_of_mismatch() {
    let sizes = vec![2, 3, 1];
    assert!(!shape_matches(&sizes, 1, &vec![vec![2, 2, 2], vec![3]]));
    assert!(!shape_matches(&sizes, 2, &vec![vec![2, 2, 2]]));
    assert!(!shape_matches(&sizes, 2, &vec![vec![2, 2], vec![3]]));
    assert!(!shape_matches(&sizes, 2, &vec![vec![2, 2, 2], vec![2]]));
    assert!(!shape_matches(&vec![2], 0, &vec![]));
}

#[test]
fn softmax_on_a_scalar_falls_back_to_sigmoid() {
    assert_eq!(Activation::Softmax.scalar_form(), Activation::Sigmoid);
    assert_eq!(Activation::ReLU.scalar_form(), Activation::ReLU);
    assert_eq!(Activation::Linear.scalar_form(), Activation::Linear);
    assert_eq!(Activation::Sigmoid.scalar_form(), Activation::Sigmoid);
    assert_ne!(Loss::MSE, Loss::CrossEntropy);
}
