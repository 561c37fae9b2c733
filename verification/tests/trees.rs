use apt_expr::apt::{APTNode, AptError};
use apt_expr::scalar::Scalar;
use rand::SeedableRng;

fn c(micros: i64) -> APTNode {
    APTNode::Constant(Scalar::new(micros))
}

/// The fixed arity of each operator tag, per the name table.
fn arity_of(node: &APTNode) -> usize {
    match node {
        APTNode::Add(_) | APTNode::Sub(_) | APTNode::Mul(_) | APTNode::Div(_)
        | APTNode::Atan2(_) => 2,
        APTNode::FBM(_) | APTNode::Ridge(_) | APTNode::Turbulence(_) | APTNode::Cell1(_)
        | APTNode::Cell2(_) => 3,
        APTNode::Sqrt(_) | APTNode::Sin(_) | APTNode::Atan(_) | APTNode::Tan(_)
        | APTNode::Log(_) | APTNode::Abs(_) => 1,
        _ => 0,
    }
}

fn check_arity(node: &APTNode) {
    if let Some(children) = node.get_children() {
        assert_eq!(children.len(), arity_of(node));
        for child in children {
            check_arity(child);
        }
    }
}

fn has_empty(node: &APTNode) -> bool {
    if matches!(node, APTNode::Empty) {
        return true;
    }
    match node.get_children() {
        Some(children) => children.iter().any(has_empty),
        None => false,
    }
}

fn count_ops(node: &APTNode) -> usize {
    match node.get_children() {
        Some(children) => 1 + children.iter().map(count_ops).sum::<usize>(),
        None => 0,
    }
}

#[test]
fn fold_collapses_arithmetic() {
    let tree = APTNode::Add(vec![c(1_500_000), APTNode::Mul(vec![c(2_000_000), c(3_000_000)])]);
    assert_eq!(tree.constant_fold(), c(7_500_000));
}

#[test]
fn fold_matches_direct_evaluation() {
    let tree = APTNode::Div(vec![APTNode::Sub(vec![c(9_000_000), c(2_000_000)]), c(2_000_000)]);
    let value = tree.constant_eval().unwrap();
    assert_eq!(tree.constant_fold(), APTNode::Constant(value));
    assert_eq!(value, Scalar::new(3_500_000));
}

#[test]
fn fold_is_idempotent() {
    let trees = vec![
        APTNode::Sin(vec![APTNode::Add(vec![c(1_000_000), c(250_000)])]),
        APTNode::Add(vec![APTNode::X, APTNode::Mul(vec![c(2_000_000), c(2_000_000)])]),
        APTNode::FBM(vec![APTNode::X, APTNode::Y, c(500_000)]),
    ];
    for tree in trees {
        let once = tree.constant_fold();
        assert_eq!(once.constant_fold(), once);
    }
}

#[test]
fn fold_keeps_structure_without_arithmetic_semantics() {
    let tree = APTNode::Sin(vec![APTNode::Add(vec![c(1_000_000), c(250_000)])]);
    assert_eq!(tree.constant_fold(), APTNode::Sin(vec![c(1_250_000)]));
}

#[test]
fn fold_rebuilds_atan2_as_atan2() {
    let tree = APTNode::Atan2(vec![APTNode::X, APTNode::Add(vec![c(1), c(2)])]);
    assert_eq!(tree.constant_fold(), APTNode::Atan2(vec![APTNode::X, c(3)]));
}

#[test]
fn constant_eval_rejects_other_tags() {
    assert_eq!(APTNode::Sin(vec![c(0)]).constant_eval(), Err(AptError::InvalidEval));
    assert_eq!(APTNode::X.constant_eval(), Err(AptError::InvalidEval));
    assert_eq!(APTNode::Empty.constant_eval(), Err(AptError::InvalidEval));
}

#[test]
fn generated_trees_keep_arity_and_are_complete() {
    let mut rng = rand::rngs::StdRng::seed_from_u64(7);
    for count in [0usize, 1, 2, 5, 12] {
        let tree = APTNode::generate_tree(count, true, &mut rng);
        check_arity(&tree);
        assert!(!has_empty(&tree));
        assert_eq!(count_ops(&tree), count.max(1));
    }
}

#[test]
fn generation_is_deterministic_per_seed() {
    let mut a = rand::rngs::StdRng::seed_from_u64(42);
    let mut b = rand::rngs::StdRng::seed_from_u64(42);
    let ta = APTNode::generate_tree(8, false, &mut a);
    let tb = APTNode::generate_tree(8, false, &mut b);
    assert_eq!(ta, tb);
    let mut c2 = rand::rngs::StdRng::seed_from_u64(43);
    let tc = APTNode::generate_tree(8, false, &mut c2);
    assert!(tc != ta || tc.to_lisp() == ta.to_lisp());
}

#[test]
fn generated_tree_round_trips() {
    let mut rng = rand::rngs::StdRng::seed_from_u64(11);
    let tree = APTNode::generate_tree(6, true, &mut rng);
    let text = tree.to_lisp();
    let tokens = apt_expr::parser::Lexer::begin_lexing(&text);
    let mut pos: usize = 0;
    let parsed = APTNode::parse_apt_node(&tokens, &mut pos).unwrap();
    assert_eq!(parsed, tree);
}

#[test]
fn add_leaf_fills_first_empty_slot() {
    let mut tree = APTNode::Add(vec![APTNode::Empty, APTNode::Empty]);
    assert!(tree.add_leaf(&APTNode::X));
    assert_eq!(tree, APTNode::Add(vec![APTNode::X, APTNode::Empty]));
    assert!(tree.add_leaf(&APTNode::Y));
    assert_eq!(tree, APTNode::Add(vec![APTNode::X, APTNode::Y]));
    assert!(!tree.add_leaf(&APTNode::T));
    assert_eq!(tree, APTNode::Add(vec![APTNode::X, APTNode::Y]));
}

#[test]
fn add_random_rejects_leaves() {
    let mut leaf = APTNode::X;
    let mut rng = rand::rngs::StdRng::seed_from_u64(1);
    let extra = APTNode::Sin(vec![APTNode::Empty]);
    assert_eq!(leaf.add_random(extra, &mut rng), Err(AptError::LeafOperation));
    assert_eq!(leaf, APTNode::X);
}

#[test]
fn add_random_grows_open_trees() {
    let mut rng = rand::rngs::StdRng::seed_from_u64(5);
    let mut tree = APTNode::Add(vec![APTNode::Empty, APTNode::Empty]);
    let node = APTNode::Sin(vec![APTNode::Empty]);
    assert_eq!(tree.add_random(node, &mut rng), Ok(()));
    assert_eq!(count_ops(&tree), 2);
    check_arity(&tree);
}
