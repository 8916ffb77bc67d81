use tract::fact::{DatumType, Dim, Fact, ShapeFact, TractError};
use tract::tensor::Tensor;
use tract::helpers::{infer_forward_basic, infer_forward_concrete, infer_shape_broadcasting, most_specific_shape, tensor_to_fact};
use tract::ops::Op;

fn only_fixed(n: usize) -> Fact<Dim> {
    Fact::Only(Dim::Fixed(n))
}

fn closed(dims: Vec<usize>) -> ShapeFact {
    ShapeFact::closed(dims.into_iter().map(|d| only_fixed(d)).collect())
}

fn dims_of(s: &ShapeFact) -> Vec<Fact<Dim>> {
    s.dims.clone()
}

#[test]
fn standard_broadcast_of_one_five_and_three_one() {
    let shapes = vec![closed(vec![1, 5]), closed(vec![3, 1])];
    let out = infer_shape_broadcasting(&shapes).unwrap().unwrap();
    assert!(!out.is_open);
    assert_eq!(dims_of(&out), vec![only_fixed(3), only_fixed(5)]);
}

#[test]
fn standard_broadcast_of_two_equal_shapes() {
    let shapes = vec![closed(vec![3, 5]), closed(vec![3, 5])];
    let out = infer_shape_broadcasting(&shapes).unwrap().unwrap();
    assert_eq!(dims_of(&out), vec![only_fixed(3), only_fixed(5)]);
}

#[test]
fn broadcast_aligns_shapes_of_different_rank_at_the_trailing_axis() {
    let shapes = vec![closed(vec![2, 3, 4]), closed(vec![4])];
    let out = infer_shape_broadcasting(&shapes).unwrap().unwrap();
    assert_eq!(dims_of(&out), vec![only_fixed(2), only_fixed(3), only_fixed(4)]);
}

#[test]
fn mismatched_non_neutral_dimensions_are_a_shape_conflict() {
    let shapes = vec![closed(vec![3]), closed(vec![4])];
    let e = infer_shape_broadcasting(&shapes).unwrap_err();
    assert!(matches!(e, TractError::ShapeConflict { a: Dim::Fixed(3), b: Dim::Fixed(4) }));
}

#[test]
fn any_open_shape_means_no_inference_and_no_error() {
    let shapes = vec![ShapeFact::all(), closed(vec![3, 5])];
    let r = infer_shape_broadcasting(&shapes).unwrap();
    assert!(r.is_none());
}

#[test]
fn two_unknowns_at_one_position_give_up() {
    let shapes = vec![
        ShapeFact::closed(vec![Fact::Any]),
        ShapeFact::closed(vec![Fact::Any]),
    ];
    let r = infer_shape_broadcasting(&shapes).unwrap();
    assert!(r.is_none());
}

#[test]
fn an_unknown_beside_a_concrete_non_neutral_value_gives_up() {
    let shapes = vec![
        ShapeFact::closed(vec![Fact::Any]),
        ShapeFact::closed(vec![only_fixed(3)]),
    ];
    let r = infer_shape_broadcasting(&shapes).unwrap();
    assert!(r.is_none());
}

#[test]
fn a_single_unknown_with_only_neutral_neighbours_stays_unknown() {
    let shapes = vec![
        ShapeFact::closed(vec![Fact::Any]),
        ShapeFact::closed(vec![only_fixed(1)]),
    ];
    let out = infer_shape_broadcasting(&shapes).unwrap().unwrap();
    assert_eq!(dims_of(&out), vec![Fact::Any]);
}

#[test]
fn most_specific_shape_picks_the_most_concrete_closed_shape() {
    let shapes = vec![
        ShapeFact::open_with(vec![only_fixed(9), only_fixed(9), only_fixed(9)]),
        ShapeFact::closed(vec![only_fixed(2), Fact::Any]),
        ShapeFact::closed(vec![only_fixed(2), only_fixed(3)]),
    ];
    let best = most_specific_shape(&shapes).unwrap().unwrap();
    assert_eq!(dims_of(best), vec![only_fixed(2), only_fixed(3)]);
}

#[test]
fn most_specific_shape_rejects_closed_shapes_of_different_rank() {
    let shapes = vec![closed(vec![2, 3]), closed(vec![2])];
    let e = most_specific_shape(&shapes).unwrap_err();
    assert!(matches!(e, TractError::RankMismatch { a: 2, b: 1 }));
}

#[test]
fn most_specific_shape_with_no_closed_shape_selects_nothing() {
    let shapes = vec![ShapeFact::all(), ShapeFact::open_with(vec![only_fixed(2)])];
    let r = most_specific_shape(&shapes).unwrap();
    assert!(r.is_none());
}

#[test]
fn forward_concrete_inference_evaluates_once_and_knows_everything() {
    let a = tensor_to_fact(Tensor::vector(DatumType::I64, vec![1, 2, 3]));
    let b = tensor_to_fact(Tensor::vector(DatumType::I64, vec![10, 20, 30]));
    let facts = vec![a, b];
    let out = infer_forward_concrete(&Op::Add, &facts).unwrap().unwrap();
    assert_eq!(out.len(), 1);
    match &out[0].value {
        Fact::Only(t) => {
            assert_eq!(t.data, vec![11, 22, 33]);
            assert_eq!(t.shape, vec![3]);
            assert_eq!(t.datum_type, DatumType::I64);
        },
        Fact::Any => panic!("forward-concrete inference must produce a concrete value"),
    }
    assert!(matches!(out[0].datum_type, Fact::Only(DatumType::I64)));
    assert!(!out[0].shape.is_open);
}

#[test]
fn forward_concrete_inference_yields_nothing_while_a_value_is_unknown() {
    let a = tensor_to_fact(Tensor::vector(DatumType::I64, vec![1]));
    let facts = vec![a, tract::tensor::TensorFact::new_any()];
    let r = infer_forward_concrete(&Op::Add, &facts).unwrap();
    assert!(r.is_none());
}

#[test]
fn forward_basic_inference_takes_the_first_concrete_type_and_the_broadcast_shape() {
    let mut a = tract::tensor::TensorFact::new_any();
    a.datum_type = Fact::Only(DatumType::F32);
    a.shape = closed(vec![1, 5]);
    let mut b = tract::tensor::TensorFact::new_any();
    b.shape = closed(vec![3, 1]);
    let facts = vec![a, b];
    let out = infer_forward_basic(&Op::Add, &facts).unwrap().unwrap();
    assert_eq!(out.len(), 1);
    assert!(matches!(out[0].datum_type, Fact::Only(DatumType::F32)));
    assert!(!out[0].shape.is_open);
    assert_eq!(dims_of(&out[0].shape), vec![only_fixed(3), only_fixed(5)]);
    assert!(matches!(out[0].value, Fact::Any));
}

#[test]
fn forward_basic_inference_falls_back_to_the_fully_open_shape() {
    let mut a = tract::tensor::TensorFact::new_any();
    a.shape = ShapeFact::closed(vec![Fact::Any]);
    let mut b = tract::tensor::TensorFact::new_any();
    b.shape = ShapeFact::closed(vec![only_fixed(3)]);
    let facts = vec![a, b];
    let out = infer_forward_basic(&Op::Add, &facts).unwrap().unwrap();
    assert!(out[0].shape.is_open);
    assert_eq!(out[0].shape.dims.len(), 0);
}
