use tract::fact::{DatumType, Fact, TractError};
use tract::tensor::{Tensor, TensorFact};
use tract::ops::{eval, Const, Op};
use tract::solver::{Graph, Node};
use tract::streaming::{AxisDecl, InputDecl, StreamingState};

fn vector(data: Vec<i64>) -> Tensor {
    Tensor::vector(DatumType::I64, data)
}

/// A source feeding one downstream node, with the downstream edge
/// tracked.
fn pipeline(op: Op) -> Graph {
    Graph {
        nodes: vec![
            Node { op: Op::Source, inputs: vec![], outputs: vec![0] },
            Node { op, inputs: vec![0], outputs: vec![1] },
        ],
        edges: vec![TensorFact::new_any(), TensorFact::new_any()],
    }
}

fn streamed_decl(edge: usize) -> InputDecl {
    InputDecl { edge, datum_type: DatumType::I64, axes: vec![AxisDecl::Streamed] }
}

/// Concatenate rank-one chunks along their single axis.
fn concat(chunks: &[Vec<i64>]) -> Tensor {
    let data: Vec<i64> = chunks.iter().flatten().copied().collect();
    vector(data)
}

#[test]
fn streaming_an_identity_chunk_by_chunk_equals_batch_evaluation() {
    let g = pipeline(Op::Identity);
    let mut st = StreamingState::start(g, vec![streamed_decl(0)], Some(1), 16).unwrap();
    let chunks: Vec<Vec<i64>> = vec![vec![10], vec![20], vec![30], vec![40]];
    let mut streamed_out: Vec<i64> = Vec::new();
    for c in &chunks {
        let out = st.step(0, vector(c.clone())).unwrap();
        let t = out.expect("an identity emits one chunk per chunk");
        streamed_out.extend(t.data.iter());
    }
    let batch_in = concat(&chunks);
    let batch_out = eval(&Op::Identity, &vec![batch_in]).unwrap().pop().unwrap();
    assert_eq!(streamed_out, batch_out.data);
}

#[test]
fn streaming_a_windowed_operator_equals_batch_evaluation() {
    let g = pipeline(Op::MovingSum { window: 2 });
    let mut st = StreamingState::start(g, vec![streamed_decl(0)], Some(1), 16).unwrap();
    let chunks: Vec<Vec<i64>> = vec![vec![1], vec![2], vec![3], vec![4], vec![5]];
    let mut streamed_out: Vec<i64> = Vec::new();
    let mut first_missing = 0;
    for (i, c) in chunks.iter().enumerate() {
        match st.step(0, vector(c.clone())).unwrap() {
            Some(t) => streamed_out.extend(t.data.iter()),
            None => {
                first_missing += 1;
                assert_eq!(i, 0, "only the very first chunk gives no output yet");
            },
        }
    }
    assert_eq!(first_missing, 1);
    let batch_in = concat(&chunks);
    let batch_out = eval(&Op::MovingSum { window: 2 }, &vec![batch_in]).unwrap().pop().unwrap();
    assert_eq!(batch_out.data, vec![3, 5, 7, 9]);
    assert_eq!(streamed_out, batch_out.data);
}

#[test]
fn a_static_constant_input_is_added_to_every_chunk() {
    let g = Graph {
        nodes: vec![
            Node { op: Op::Source, inputs: vec![], outputs: vec![0] },
            Node {
                op: Op::Const(Const::for_tensor(vector(vec![100]))),
                inputs: vec![],
                outputs: vec![1],
            },
            Node { op: Op::Add, inputs: vec![0, 1], outputs: vec![2] },
        ],
        edges: vec![TensorFact::new_any(), TensorFact::new_any(), TensorFact::new_any()],
    };
    let mut st = StreamingState::start(g, vec![streamed_decl(0)], Some(2), 16).unwrap();
    let out1 = st.step(0, vector(vec![1])).unwrap().unwrap();
    let out2 = st.step(0, vector(vec![2])).unwrap().unwrap();
    assert_eq!(out1.data, vec![101]);
    assert_eq!(out2.data, vec![102]);
}

#[test]
fn advancing_a_clone_leaves_the_original_observably_unchanged() {
    let g = pipeline(Op::MovingSum { window: 3 });
    let mut st = StreamingState::start(g, vec![streamed_decl(0)], Some(1), 16).unwrap();
    st.step(0, vector(vec![1])).unwrap();
    st.step(0, vector(vec![2])).unwrap();
    assert_eq!(st.position(0), 2);
    assert_eq!(st.buffered(0), 2);

    let mut clone = st.duplicate();
    let speculative = clone.step(0, vector(vec![3])).unwrap();
    assert_eq!(speculative.unwrap().data, vec![6]);
    assert_eq!(clone.position(0), 3);
    assert_eq!(clone.buffered(0), 2);

    // The original still sits where it was before the clone advanced.
    assert_eq!(st.position(0), 2);
    assert_eq!(st.buffered(0), 2);
    assert_eq!(st.buffered(1), 0);

    // Advancing the original afterwards yields the same chunk the clone
    // produced, and never touches the clone.
    let real = st.step(0, vector(vec![3])).unwrap();
    assert_eq!(real.unwrap().data, vec![6]);
    assert_eq!(clone.position(0), 3);
}

#[test]
fn a_chunk_with_the_wrong_shape_is_rejected_and_changes_nothing() {
    let g = pipeline(Op::Identity);
    let decl = InputDecl {
        edge: 0,
        datum_type: DatumType::I64,
        axes: vec![AxisDecl::Streamed, AxisDecl::Fixed(2)],
    };
    let mut st = StreamingState::start(g, vec![decl], Some(1), 16).unwrap();
    let bad = Tensor::new(DatumType::I64, vec![1, 3], vec![1, 2, 3]);
    let e = st.step(0, bad).unwrap_err();
    assert!(matches!(e, TractError::StreamingShapeMismatch { input: 0 }));
    assert_eq!(st.position(0), 0);
    assert_eq!(st.buffered(0), 0);

    let wrong_type = Tensor::new(DatumType::F32, vec![1, 2], vec![1, 2]);
    let e2 = st.step(0, wrong_type).unwrap_err();
    assert!(matches!(e2, TractError::StreamingShapeMismatch { input: 0 }));

    let e3 = st.step(1, vector(vec![1])).unwrap_err();
    assert!(matches!(e3, TractError::StreamingShapeMismatch { input: 1 }));

    let good = Tensor::new(DatumType::I64, vec![1, 2], vec![7, 8]);
    let out = st.step(0, good).unwrap().unwrap();
    assert_eq!(out.data, vec![7, 8]);
}

#[test]
fn a_declaration_incompatible_with_the_recorded_fact_is_a_conflict() {
    let mut g = pipeline(Op::Identity);
    g.edges[0].datum_type = Fact::Only(DatumType::F32);
    let e = StreamingState::start(g, vec![streamed_decl(0)], Some(1), 16).unwrap_err();
    assert!(matches!(e, TractError::TypeConflict { a: DatumType::F32, b: DatumType::I64 }));
}

#[test]
fn a_static_input_that_never_resolved_is_reported() {
    // The adder's second input has no producer and no value, so the plan
    // cannot supply it.
    let g = Graph {
        nodes: vec![
            Node { op: Op::Source, inputs: vec![], outputs: vec![0] },
            Node { op: Op::Add, inputs: vec![0, 1], outputs: vec![2] },
        ],
        edges: vec![TensorFact::new_any(), TensorFact::new_any(), TensorFact::new_any()],
    };
    let e = StreamingState::start(g, vec![streamed_decl(0)], Some(2), 16).unwrap_err();
    assert!(matches!(e, TractError::Unresolved { edge: 1 }));
}

#[test]
fn more_than_one_streamed_axis_per_input_is_rejected() {
    let g = pipeline(Op::Identity);
    let decl = InputDecl {
        edge: 0,
        datum_type: DatumType::I64,
        axes: vec![AxisDecl::Streamed, AxisDecl::Streamed],
    };
    let e = StreamingState::start(g, vec![decl], Some(1), 16).unwrap_err();
    assert!(matches!(e, TractError::PlanError));
}
