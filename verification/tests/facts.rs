use tract::fact::{merge_datum_type, merge_dim, merge_shape, DatumType, Dim, Fact, ShapeFact, TractError};
use tract::tensor::{Tensor, TensorFact};
use tract::helpers::tensor_to_fact;

fn only_fixed(n: usize) -> Fact<Dim> {
    Fact::Only(Dim::Fixed(n))
}

#[test]
fn merge_with_unknown_returns_other_side() {
    let a: Fact<DatumType> = Fact::Only(DatumType::F32);
    let r = merge_datum_type(&a, &Fact::Any).unwrap();
    assert!(matches!(r, Fact::Only(DatumType::F32)));
    let r2 = merge_datum_type(&Fact::Any, &a).unwrap();
    assert!(matches!(r2, Fact::Only(DatumType::F32)));
    let r3 = merge_datum_type(&Fact::Any, &Fact::Any).unwrap();
    assert!(matches!(r3, Fact::Any));
}

#[test]
fn merge_is_idempotent_and_commutative_on_concrete_values() {
    let a: Fact<Dim> = only_fixed(3);
    let r = merge_dim(&a, &a).unwrap();
    assert!(matches!(r, Fact::Only(Dim::Fixed(3))));
    let b: Fact<Dim> = Fact::Any;
    let ab = merge_dim(&a, &b).unwrap();
    let ba = merge_dim(&b, &a).unwrap();
    assert!(matches!(ab, Fact::Only(Dim::Fixed(3))));
    assert!(matches!(ba, Fact::Only(Dim::Fixed(3))));
}

#[test]
fn merging_two_different_concrete_values_is_a_conflict() {
    let e = merge_datum_type(&Fact::Only(DatumType::F32), &Fact::Only(DatumType::I64)).unwrap_err();
    assert!(matches!(e, TractError::TypeConflict { a: DatumType::F32, b: DatumType::I64 }));
    let e2 = merge_dim(&only_fixed(2), &only_fixed(5)).unwrap_err();
    assert!(matches!(e2, TractError::ShapeConflict { a: Dim::Fixed(2), b: Dim::Fixed(5) }));
}

#[test]
fn closed_shapes_of_different_rank_never_merge() {
    let a = ShapeFact::closed(vec![only_fixed(2), only_fixed(3)]);
    let b = ShapeFact::closed(vec![only_fixed(2)]);
    let e = merge_shape(&a, &b).unwrap_err();
    assert!(matches!(e, TractError::RankMismatch { a: 2, b: 1 }));
}

#[test]
fn open_shape_merges_as_a_prefix_of_a_closed_one() {
    let closed = ShapeFact::closed(vec![Fact::Any, only_fixed(3), only_fixed(4)]);
    let open = ShapeFact::open_with(vec![only_fixed(2)]);
    let (merged, changed) = merge_shape(&closed, &open).unwrap();
    assert!(!merged.is_open);
    assert_eq!(merged.dims.len(), 3);
    assert!(matches!(merged.dims[0], Fact::Only(Dim::Fixed(2))));
    assert!(matches!(merged.dims[1], Fact::Only(Dim::Fixed(3))));
    assert!(changed);
}

#[test]
fn an_open_prefix_longer_than_the_closed_rank_is_a_rank_mismatch() {
    let closed = ShapeFact::closed(vec![only_fixed(2)]);
    let open = ShapeFact::open_with(vec![only_fixed(2), only_fixed(3)]);
    let e = merge_shape(&closed, &open).unwrap_err();
    assert!(matches!(e, TractError::RankMismatch { a: 1, b: 2 }));
}

#[test]
fn tensor_fact_merge_checks_type_then_shape_then_value() {
    let t1 = Tensor::vector(DatumType::I64, vec![1, 2]);
    let t2 = Tensor::vector(DatumType::I64, vec![1, 3]);
    let f1 = tensor_to_fact(t1);
    let f2 = tensor_to_fact(t2);
    let e = f1.unify(&f2).unwrap_err();
    match e {
        TractError::ValueConflict { a, b } => {
            assert_eq!(a.data, vec![1, 2]);
            assert_eq!(b.data, vec![1, 3]);
        },
        other => panic!("expected a value conflict, got {:?}", other),
    }
}

#[test]
fn tensor_to_fact_makes_everything_concrete() {
    let t = Tensor::new(DatumType::I32, vec![2, 2], vec![1, 2, 3, 4]);
    let f = tensor_to_fact(t);
    assert!(matches!(f.datum_type, Fact::Only(DatumType::I32)));
    assert!(!f.shape.is_open);
    assert_eq!(f.shape.dims.len(), 2);
    assert!(matches!(f.shape.dims[0], Fact::Only(Dim::Fixed(2))));
    match &f.value {
        Fact::Only(t) => {
            assert_eq!(t.data, vec![1, 2, 3, 4]);
        },
        Fact::Any => panic!("value fact must be concrete"),
    }
}

#[test]
fn unifying_a_fact_with_the_unknown_fact_returns_it_unchanged() {
    let t = Tensor::vector(DatumType::F32, vec![7]);
    let f = tensor_to_fact(t);
    let merged = f.unify(&TensorFact::new_any()).unwrap();
    assert!(matches!(merged.datum_type, Fact::Only(DatumType::F32)));
    assert!(!merged.shape.is_open);
    match &merged.value {
        Fact::Only(t) => assert_eq!(t.data, vec![7]),
        Fact::Any => panic!("value fact must stay concrete"),
    }
}
