use tract::fact::{DatumType, Dim, Fact, ShapeFact, TractError};
use tract::tensor::{Tensor, TensorFact};
use tract::ops::{Const, Op};
use tract::solver::{Graph, Node};
use tract::helpers::tensor_to_fact;

fn only_fixed(n: usize) -> Fact<Dim> {
    Fact::Only(Dim::Fixed(n))
}

fn vector(data: Vec<i64>) -> Tensor {
    Tensor::vector(DatumType::I64, data)
}

#[test]
fn a_fully_concrete_graph_is_confirmed_in_exactly_one_pass_unchanged() {
    // Const -> e0 -> Identity -> e1, both facts already fully concrete.
    let t = vector(vec![4, 5]);
    let f0 = tensor_to_fact(t.dup());
    let f1 = tensor_to_fact(t.dup());
    let mut g = Graph {
        nodes: vec![
            Node { op: Op::Const(Const::for_tensor(t.dup())), inputs: vec![], outputs: vec![0] },
            Node { op: Op::Identity, inputs: vec![0], outputs: vec![1] },
        ],
        edges: vec![f0, f1],
    };
    let passes = g.analyse(16).unwrap();
    assert_eq!(passes, 1);
    for e in &g.edges {
        match &e.value {
            Fact::Only(v) => assert_eq!(v.data, vec![4, 5]),
            Fact::Any => panic!("the graph must stay fully concrete"),
        }
    }
}

#[test]
fn two_rules_asserting_incompatible_dimensions_conflict_on_that_edge() {
    // Two identities read edge 0 and equate it backward with their
    // preset output facts, which disagree on the dimension.
    let mut out1 = TensorFact::new_any();
    out1.shape = ShapeFact::closed(vec![only_fixed(3)]);
    let mut out2 = TensorFact::new_any();
    out2.shape = ShapeFact::closed(vec![only_fixed(4)]);
    let mut g = Graph {
        nodes: vec![
            Node { op: Op::Identity, inputs: vec![0], outputs: vec![1] },
            Node { op: Op::Identity, inputs: vec![0], outputs: vec![2] },
        ],
        edges: vec![TensorFact::new_any(), out1, out2],
    };
    // The first identity propagates [3] backward onto edge 0; the second
    // then carries [3] forward onto edge 2, where it meets the recorded
    // [4]: the conflict names that edge and both facts.
    let e = g.analyse(16).unwrap_err();
    match e {
        TractError::EdgeConflict { edge, recorded, proposed } => {
            assert_eq!(edge, 2);
            assert!(!recorded.shape.is_open);
            assert!(matches!(recorded.shape.dims[0], Fact::Only(Dim::Fixed(4))));
            assert!(matches!(proposed.shape.dims[0], Fact::Only(Dim::Fixed(3))));
        },
        other => panic!("expected an edge conflict, got {:?}", other),
    }
}

#[test]
fn constants_propagate_through_a_chain_to_a_fixpoint() {
    let t = vector(vec![7, 8, 9]);
    let mut g = Graph {
        nodes: vec![
            Node { op: Op::Const(Const::for_tensor(t)), inputs: vec![], outputs: vec![0] },
            Node { op: Op::Identity, inputs: vec![0], outputs: vec![1] },
            Node { op: Op::Identity, inputs: vec![1], outputs: vec![2] },
        ],
        edges: vec![TensorFact::new_any(), TensorFact::new_any(), TensorFact::new_any()],
    };
    let passes = g.analyse(16).unwrap();
    assert!(passes >= 2);
    for e in &g.edges {
        match &e.value {
            Fact::Only(v) => assert_eq!(v.data, vec![7, 8, 9]),
            Fact::Any => panic!("every edge must become concrete"),
        }
    }
}

#[test]
fn addition_of_two_constants_becomes_concrete() {
    let mut g = Graph {
        nodes: vec![
            Node {
                op: Op::Const(Const::for_tensor(vector(vec![1, 2]))),
                inputs: vec![],
                outputs: vec![0],
            },
            Node {
                op: Op::Const(Const::for_tensor(vector(vec![30, 40]))),
                inputs: vec![],
                outputs: vec![1],
            },
            Node { op: Op::Add, inputs: vec![0, 1], outputs: vec![2] },
        ],
        edges: vec![TensorFact::new_any(), TensorFact::new_any(), TensorFact::new_any()],
    };
    g.analyse(16).unwrap();
    match &g.edges[2].value {
        Fact::Only(v) => assert_eq!(v.data, vec![31, 42]),
        Fact::Any => panic!("the sum must be inferred"),
    }
}

#[test]
fn the_moving_sum_shape_rule_shrinks_the_leading_dimension() {
    let mut input = TensorFact::new_any();
    input.datum_type = Fact::Only(DatumType::I64);
    input.shape = ShapeFact::closed(vec![only_fixed(5), only_fixed(2)]);
    let mut g = Graph {
        nodes: vec![
            Node { op: Op::MovingSum { window: 3 }, inputs: vec![0], outputs: vec![1] },
        ],
        edges: vec![input, TensorFact::new_any()],
    };
    g.analyse(16).unwrap();
    let out = &g.edges[1];
    assert!(matches!(out.datum_type, Fact::Only(DatumType::I64)));
    assert!(!out.shape.is_open);
    assert!(matches!(out.shape.dims[0], Fact::Only(Dim::Fixed(3))));
    assert!(matches!(out.shape.dims[1], Fact::Only(Dim::Fixed(2))));
}

#[test]
fn a_node_with_the_wrong_output_arity_is_rejected() {
    let mut g = Graph {
        nodes: vec![Node { op: Op::Identity, inputs: vec![0], outputs: vec![1, 2] }],
        edges: vec![TensorFact::new_any(), TensorFact::new_any(), TensorFact::new_any()],
    };
    let e = g.analyse(16).unwrap_err();
    assert!(matches!(e, TractError::Arity { expected: 1, actual: 2 }));
}

#[test]
fn a_node_with_the_wrong_input_arity_is_rejected() {
    let mut g = Graph {
        nodes: vec![Node { op: Op::Add, inputs: vec![0], outputs: vec![1] }],
        edges: vec![TensorFact::new_any(), TensorFact::new_any()],
    };
    let e = g.analyse(16).unwrap_err();
    assert!(matches!(e, TractError::Arity { expected: 2, actual: 1 }));
}

#[test]
fn const_rules_validate_arity_only() {
    let c = Const::for_tensor(vector(vec![1]));
    assert!(c.rules(&vec![], &vec![TensorFact::new_any()]).is_ok());
    let e = c.rules(&vec![TensorFact::new_any()], &vec![TensorFact::new_any()]).unwrap_err();
    assert!(matches!(e, TractError::Arity { expected: 0, actual: 1 }));
    let e2 = c.rules(&vec![], &vec![]).unwrap_err();
    assert!(matches!(e2, TractError::Arity { expected: 1, actual: 0 }));
}

#[test]
fn too_few_passes_hit_the_explicit_iteration_guard() {
    // A three-stage chain needs more than one pass to converge, and the
    // guard reports that rather than silently under-converging.
    let mut g = Graph {
        nodes: vec![
            Node {
                op: Op::Const(Const::for_tensor(vector(vec![1]))),
                inputs: vec![],
                outputs: vec![0],
            },
            Node { op: Op::Identity, inputs: vec![0], outputs: vec![1] },
            Node { op: Op::Identity, inputs: vec![1], outputs: vec![2] },
        ],
        edges: vec![TensorFact::new_any(), TensorFact::new_any(), TensorFact::new_any()],
    };
    let e = g.analyse(1).unwrap_err();
    assert!(matches!(e, TractError::MaxIterations { passes: 1 }));
}

#[test]
fn moving_sum_of_a_two_dimensional_tensor() {
    let t = Tensor::new(DatumType::I64, vec![3, 2], vec![1, 2, 3, 4, 5, 6]);
    let out = tract::ops::eval(&Op::MovingSum { window: 2 }, &vec![t]).unwrap().pop().unwrap();
    assert_eq!(out.shape, vec![2, 2]);
    assert_eq!(out.data, vec![4, 6, 8, 10]);
}

#[test]
fn wrapped_addition_never_panics_at_the_integer_boundary() {
    let a = vector(vec![i64::MAX]);
    let b = vector(vec![1]);
    let out = tract::ops::eval(&Op::Add, &vec![a, b]).unwrap().pop().unwrap();
    assert_eq!(out.data, vec![i64::MIN]);
}

#[test]
fn const_eval_returns_the_embedded_tensor() {
    let c = Const::for_tensor(vector(vec![5, 6]));
    let out = c.eval(vec![]).unwrap();
    assert_eq!(out.len(), 1);
    assert_eq!(out[0].data, vec![5, 6]);
    assert_eq!(c.name(), "Const");
}
