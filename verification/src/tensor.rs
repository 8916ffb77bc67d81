//! Concrete tensors and the tensor fact attached to a graph edge.

use vstd::prelude::*;
use crate::fact::{DatumType, Dim, Fact, ShapeFact, ShapeView, TractError};
use crate::fact::{merge_datum_type, merge_shape, lemma_shape_unify_unchanged};

verus! {

/// Spec-level image of a concrete tensor.
pub ghost struct TensorView {
    pub datum_type: DatumType,
    pub shape: Seq<usize>,
    pub data: Seq<i64>,
}

/// The number of elements a shape describes.
pub open spec fn elem_count(s: Seq<usize>) -> int
    decreases s.len(),
{
    if s.len() == 0 {
        1
    } else {
        s[0] * elem_count(s.drop_first())
    }
}

impl TensorView {
    /// The stored data covers exactly the shape's elements, laid out
    /// row-major.
    pub open spec fn wf(self) -> bool {
        self.data.len() as int == elem_count(self.shape)
    }
}

/// A fully materialized tensor: an element type, a shape, and one stored
/// word per element in row-major order.
#[derive(Debug)]
pub struct Tensor {
    pub datum_type: DatumType,
    pub shape: Vec<usize>,
    pub data: Vec<i64>,
}

impl View for Tensor {
    type V = TensorView;

    open spec fn view(&self) -> TensorView {
        TensorView { datum_type: self.datum_type, shape: self.shape@, data: self.data@ }
    }
}

impl Tensor {
    pub fn new(datum_type: DatumType, shape: Vec<usize>, data: Vec<i64>) -> (t: Tensor)
        requires
            data@.len() as int == elem_count(shape@),
        ensures
            t@ == (TensorView { datum_type, shape: shape@, data: data@ }),
            t@.wf(),
    {
        Tensor { datum_type, shape, data }
    }

    /// A rank-one tensor holding the given words.
    pub fn vector(datum_type: DatumType, data: Vec<i64>) -> (t: Tensor)
        ensures
            t@.datum_type == datum_type,
            t@.shape == seq![data@.len() as usize],
            t@.data == data@,
            t@.wf(),
    {
        let n = data.len();
        let mut shape: Vec<usize> = Vec::new();
        shape.push(n);
        proof {
            assert(shape@ =~= seq![data@.len() as usize]);
            assert(shape@.drop_first() =~= Seq::<usize>::empty());
            assert(elem_count(shape@.drop_first()) == 1);
            assert(elem_count(shape@) == shape@[0] * elem_count(shape@.drop_first()));
        }
        Tensor { datum_type, shape, data }
    }

    /// An exact copy sharing no storage with the original.
    pub fn dup(&self) -> (t: Tensor)
        ensures
            t@ == self@,
    {
        let mut shape: Vec<usize> = Vec::new();
        let mut i: usize = 0;
        while i < self.shape.len()
            invariant
                i <= self.shape@.len(),
                shape@.len() == i,
                forall|j: int| 0 <= j < i ==> shape@[j] == self.shape@[j],
            decreases self.shape@.len() - i,
        {
            shape.push(self.shape[i]);
            i += 1;
        }
        let mut data: Vec<i64> = Vec::new();
        let mut j: usize = 0;
        while j < self.data.len()
            invariant
                j <= self.data@.len(),
                data@.len() == j,
                forall|t: int| 0 <= t < j ==> data@[t] == self.data@[t],
            decreases self.data@.len() - j,
        {
            data.push(self.data[j]);
            j += 1;
        }
        let t = Tensor { datum_type: self.datum_type, shape, data };
        proof {
            assert(t@.shape =~= self@.shape);
            assert(t@.data =~= self@.data);
        }
        t
    }
}

/// A shape with a zero dimension describes no elements at all.
pub proof fn lemma_elem_count_zero(s: Seq<usize>, i: int)
    requires
        0 <= i < s.len(),
        s[i] == 0,
    ensures
        elem_count(s) == 0,
    decreases i,
{
    if i > 0 {
        lemma_elem_count_zero(s.drop_first(), i - 1);
    }
}

/// With no zero dimension, a shape describes at least one element.
pub proof fn lemma_elem_count_pos(s: Seq<usize>)
    requires
        forall|j: int| 0 <= j < s.len() ==> s[j] >= 1,
    ensures
        elem_count(s) >= 1,
    decreases s.len(),
{
    if s.len() > 0 {
        lemma_elem_count_pos(s.drop_first());
        vstd::arithmetic::mul::lemma_mul_inequality(1, s[0] as int, elem_count(s.drop_first()));
    }
}

/// With no zero dimension, dropping leading axes never grows the element
/// count.
pub proof fn lemma_elem_count_skip(s: Seq<usize>, i: int)
    requires
        0 <= i <= s.len(),
        forall|j: int| 0 <= j < s.len() ==> s[j] >= 1,
    ensures
        elem_count(s.skip(i)) <= elem_count(s),
        elem_count(s.skip(i)) >= 1,
    decreases i,
{
    assert forall|j: int| 0 <= j < s.skip(i).len() implies s.skip(i)[j] >= 1 by {}
    lemma_elem_count_pos(s.skip(i));
    if i == 0 {
        assert(s.skip(0) =~= s);
    } else {
        lemma_elem_count_skip(s, i - 1);
        assert(s.skip(i - 1).drop_first() =~= s.skip(i));
        assert(elem_count(s.skip(i - 1)) == s[i - 1] * elem_count(s.skip(i)));
        vstd::arithmetic::mul::lemma_mul_inequality(
            1,
            s[i - 1] as int,
            elem_count(s.skip(i)),
        );
    }
}

/// Decide at run time whether a tensor's data covers its shape.
pub fn tensor_is_wf(t: &Tensor) -> (r: bool)
    ensures
        r == t@.wf(),
{
    let mut i: usize = 0;
    while i < t.shape.len()
        invariant
            i <= t.shape@.len(),
            forall|j: int| 0 <= j < i ==> t.shape@[j] >= 1,
        decreases t.shape@.len() - i,
    {
        if t.shape[i] == 0 {
            proof {
                lemma_elem_count_zero(t.shape@, i as int);
            }
            return t.data.len() == 0;
        }
        i += 1;
    }
    let mut acc: usize = 1;
    let mut k: usize = t.shape.len();
    proof {
        assert(t.shape@.skip(t.shape@.len() as int) =~= Seq::<usize>::empty());
    }
    while k > 0
        invariant
            k <= t.shape@.len(),
            forall|j: int| 0 <= j < t.shape@.len() ==> t.shape@[j] >= 1,
            acc as int == elem_count(t.shape@.skip(k as int)),
            acc >= 1,
        decreases k,
    {
        k -= 1;
        proof {
            assert(t.shape@.skip(k as int).drop_first() =~= t.shape@.skip(k + 1));
            assert(elem_count(t.shape@.skip(k as int)) == t.shape@[k as int] * elem_count(
                t.shape@.skip(k + 1),
            ));
            lemma_elem_count_pos(t.shape@.skip(k as int));
        }
        match t.shape[k].checked_mul(acc) {
            Some(p) => {
                acc = p;
            },
            None => {
                let dl = t.data.len();
                proof {
                    lemma_elem_count_skip(t.shape@, k as int);
                    assert((t.shape@[k as int] as int) * (acc as int) > usize::MAX);
                    assert(elem_count(t.shape@) >= elem_count(t.shape@.skip(k as int)));
                    assert(dl == t@.data.len());
                    assert(elem_count(t.shape@) > dl);
                }
                return false;
            },
        }
    }
    proof {
        assert(t.shape@.skip(0) =~= t.shape@);
    }
    t.data.len() == acc
}

/// An exact copy of a vector of dimension lengths.
pub fn dup_usize_vec(v: &Vec<usize>) -> (r: Vec<usize>)
    ensures
        r@ == v@,
{
    let mut out: Vec<usize> = Vec::new();
    let mut i: usize = 0;
    while i < v.len()
        invariant
            i <= v@.len(),
            out@.len() == i,
            forall|j: int| 0 <= j < i ==> out@[j] == v@[j],
        decreases v@.len() - i,
    {
        out.push(v[i]);
        i += 1;
    }
    proof {
        assert(out@ =~= v@);
    }
    out
}

/// Deep equality of two tensors: same element type, shape, and contents.
pub fn tensor_eq(a: &Tensor, b: &Tensor) -> (r: bool)
    ensures
        r == (a@ == b@),
{
    if !(a.datum_type == b.datum_type) {
        return false;
    }
    if a.shape.len() != b.shape.len() {
        assert(a@.shape.len() != b@.shape.len());
        return false;
    }
    let mut i: usize = 0;
    while i < a.shape.len()
        invariant
            i <= a.shape@.len(),
            a.shape@.len() == b.shape@.len(),
            forall|j: int| 0 <= j < i ==> a.shape@[j] == b.shape@[j],
        decreases a.shape@.len() - i,
    {
        if a.shape[i] != b.shape[i] {
            return false;
        }
        i += 1;
    }
    if a.data.len() != b.data.len() {
        assert(a@.data.len() != b@.data.len());
        return false;
    }
    let mut j: usize = 0;
    while j < a.data.len()
        invariant
            j <= a.data@.len(),
            a.data@.len() == b.data@.len(),
            forall|t: int| 0 <= t < j ==> a.data@[t] == b.data@[t],
        decreases a.data@.len() - j,
    {
        if a.data[j] != b.data[j] {
            return false;
        }
        j += 1;
    }
    proof {
        assert(a@.shape =~= b@.shape);
        assert(a@.data =~= b@.data);
    }
    true
}

/// Spec-level image of the fact attached to one edge.
pub ghost struct TensorFactView {
    pub datum_type: Fact<DatumType>,
    pub shape: ShapeView,
    pub value: Fact<TensorView>,
}

/// What is known about the tensor on one edge: a partially known element
/// type, shape, and value.
#[derive(Debug)]
pub struct TensorFact {
    pub datum_type: Fact<DatumType>,
    pub shape: ShapeFact,
    pub value: Fact<Tensor>,
}

impl View for TensorFact {
    type V = TensorFactView;

    open spec fn view(&self) -> TensorFactView {
        TensorFactView {
            datum_type: self.datum_type,
            shape: self.shape@,
            value: match self.value {
                Fact::Any => Fact::Any,
                Fact::Only(t) => Fact::Only(t@),
            },
        }
    }
}

impl TensorFactView {
    /// Nothing at all is known.
    pub open spec fn is_any(self) -> bool {
        self.datum_type is Any && self.shape.is_open && self.shape.dims.len() == 0
            && self.value is Any
    }

    /// Everything is known: type, rank, every dimension, and the value.
    pub open spec fn all_concrete(self) -> bool {
        self.datum_type is Only && self.shape.all_concrete() && self.value is Only
    }

    /// A concrete value pins everything else: when the value is known,
    /// the type and shape are known, the shape is closed, and both match
    /// the concrete tensor.  Facts keep this because type and shape are
    /// only ever derived from an evaluated tensor, never the reverse.
    pub open spec fn consistent(self) -> bool {
        self.value matches Fact::Only(t) ==> {
            &&& self.datum_type == Fact::Only(t.datum_type)
            &&& !self.shape.is_open
            &&& self.shape.dims.len() == t.shape.len()
            &&& forall|i: int|
                0 <= i < t.shape.len() ==> self.shape.dims[i] == Fact::Only(
                    Dim::Fixed(#[trigger] t.shape[i]),
                )
        }
    }

    pub open spec fn unify_ok(self, o: TensorFactView) -> bool {
        self.datum_type.merge_ok(o.datum_type) && self.shape.unify_ok(o.shape)
            && self.value.merge_ok(o.value)
    }

    pub open spec fn unified(self, o: TensorFactView) -> TensorFactView {
        TensorFactView {
            datum_type: self.datum_type.merged(o.datum_type),
            shape: self.shape.unified(o.shape),
            value: self.value.merged(o.value),
        }
    }

    pub open spec fn unify_changed(self, o: TensorFactView) -> bool {
        ||| (self.datum_type is Any && o.datum_type is Only)
        ||| self.shape.unify_changed(o.shape)
        ||| (self.value is Any && o.value is Only)
    }

    /// The error a failing type or shape merge reports, checking the
    /// element type first, then the shape.  A value disagreement is
    /// reported separately, carrying both tensors.
    pub open spec fn unify_err(self, o: TensorFactView) -> TractError
        recommends
            !self.datum_type.merge_ok(o.datum_type) || !self.shape.unify_ok(o.shape),
    {
        if !self.datum_type.merge_ok(o.datum_type) {
            TractError::TypeConflict { a: self.datum_type.val(), b: o.datum_type.val() }
        } else {
            self.shape.unify_err(o.shape)
        }
    }
}

/// If a merge changes nothing, the merged fact is the left fact.
pub proof fn lemma_tfact_unify_unchanged(a: TensorFactView, b: TensorFactView)
    requires
        a.unify_ok(b),
        !a.unify_changed(b),
    ensures
        a.unified(b) == a,
{
    lemma_shape_unify_unchanged(a.shape, b.shape);
}

/// Merging a tensor fact with itself succeeds and changes nothing: the
/// merge is idempotent on whole facts, so re-recording what an edge
/// already holds never disturbs it.
pub proof fn lemma_tfact_unify_idempotent(a: TensorFactView)
    ensures
        a.unify_ok(a),
        !a.unify_changed(a),
        a.unified(a) == a,
{
    lemma_tfact_unify_unchanged(a, a);
}

/// A fully concrete fact absorbs anything it merges with: the merge
/// succeeds only by changing nothing.
pub proof fn lemma_concrete_fact_stable(a: TensorFactView, b: TensorFactView)
    requires
        a.all_concrete(),
        a.unify_ok(b),
    ensures
        !a.unify_changed(b),
        a.unified(b) == a,
{
    lemma_tfact_unify_unchanged(a, b);
}

/// A consistent fact whose value is known is fully concrete.
pub proof fn lemma_consistent_concrete(a: TensorFactView)
    requires
        a.consistent(),
        a.value is Only,
    ensures
        a.all_concrete(),
{
    let t = a.value->0;
    assert forall|i: int| 0 <= i < a.shape.dims.len() implies (#[trigger] a.shape.dims[i])
        is Only by {
        assert(a.shape.dims[i] == Fact::Only(Dim::Fixed(t.shape[i])));
    }
}

/// Merging two consistent facts yields a consistent fact: whichever side
/// supplies the merged value also supplies, or agrees with, the merged
/// type and shape.
pub proof fn lemma_unify_preserves_consistent(a: TensorFactView, b: TensorFactView)
    requires
        a.consistent(),
        b.consistent(),
        a.unify_ok(b),
    ensures
        a.unified(b).consistent(),
{
    if a.value is Only {
        lemma_consistent_concrete(a);
        lemma_concrete_fact_stable(a, b);
    } else if b.value is Only {
        let t = b.value->0;
        let u = a.unified(b);
        assert(u.shape.dims.len() == t.shape.len());
        assert forall|i: int| 0 <= i < t.shape.len() implies u.shape.dims[i] == Fact::Only(
            Dim::Fixed(#[trigger] t.shape[i]),
        ) by {
            if i < a.shape.dims.len() {
                assert(a.shape.dims[i].merge_ok(b.shape.dims[i]));
            }
        }
    }
}

impl TensorFact {
    /// The fact that knows nothing: unknown type, fully open shape,
    /// unknown value.
    pub fn new_any() -> (r: TensorFact)
        ensures
            r@.is_any(),
            r@.datum_type == Fact::<DatumType>::Any,
            r@.shape == (ShapeView { is_open: true, dims: Seq::<Fact<Dim>>::empty() }),
            r@.value == Fact::<TensorView>::Any,
    {
        TensorFact { datum_type: Fact::Any, shape: ShapeFact::all(), value: Fact::Any }
    }

    /// An exact copy sharing no storage with the original.
    pub fn dup(&self) -> (r: TensorFact)
        ensures
            r@ == self@,
    {
        let value = match &self.value {
            Fact::Any => Fact::Any,
            Fact::Only(t) => Fact::Only(t.dup()),
        };
        TensorFact { datum_type: self.datum_type, shape: self.shape.dup(), value }
    }

    /// Merge this fact with another, reporting the merged fact and whether
    /// the merge refined this side.  Checks the element type first, then
    /// the shape, then the value.
    pub fn unify_step(&self, o: &TensorFact) -> (r: Result<(TensorFact, bool), TractError>)
        ensures
            self@.unify_ok(o@) ==> (r matches Ok(p) && p.0@ == self@.unified(o@) && p.1
                == self@.unify_changed(o@)),
            (!self@.datum_type.merge_ok(o@.datum_type) || !self@.shape.unify_ok(o@.shape)) ==> r
                == Err::<(TensorFact, bool), TractError>(self@.unify_err(o@)),
            (self@.datum_type.merge_ok(o@.datum_type) && self@.shape.unify_ok(o@.shape)
                && !self@.value.merge_ok(o@.value)) ==> (r matches Err(e) && e matches
                TractError::ValueConflict { a, b } && a@ == self@.value->0 && b@ == o@.value->0),
    {
        let datum_type = match merge_datum_type(&self.datum_type, &o.datum_type) {
            Ok(d) => d,
            Err(e) => {
                return Err(e);
            },
        };
        let dt_changed = matches!(self.datum_type, Fact::Any) && matches!(
            o.datum_type,
            Fact::Only(_),
        );
        let (shape, shape_changed) = match merge_shape(&self.shape, &o.shape) {
            Ok(p) => p,
            Err(e) => {
                return Err(e);
            },
        };
        let (value, value_changed): (Fact<Tensor>, bool) = match (&self.value, &o.value) {
            (Fact::Any, Fact::Any) => (Fact::Any, false),
            (Fact::Any, Fact::Only(t)) => (Fact::Only(t.dup()), true),
            (Fact::Only(t), Fact::Any) => (Fact::Only(t.dup()), false),
            (Fact::Only(x), Fact::Only(y)) => {
                if tensor_eq(x, y) {
                    (Fact::Only(x.dup()), false)
                } else {
                    return Err(
                        TractError::ValueConflict { a: Box::new(x.dup()), b: Box::new(y.dup()) },
                    );
                }
            },
        };
        Ok((TensorFact { datum_type, shape, value }, dt_changed || shape_changed || value_changed))
    }

    /// Merge this fact with another, keeping only the merged fact.
    pub fn unify(&self, o: &TensorFact) -> (r: Result<TensorFact, TractError>)
        ensures
            self@.unify_ok(o@) ==> (r matches Ok(f) && f@ == self@.unified(o@)),
            (!self@.datum_type.merge_ok(o@.datum_type) || !self@.shape.unify_ok(o@.shape)) ==> r
                == Err::<TensorFact, TractError>(self@.unify_err(o@)),
            (self@.datum_type.merge_ok(o@.datum_type) && self@.shape.unify_ok(o@.shape)
                && !self@.value.merge_ok(o@.value)) ==> (r matches Err(e) && e matches
                TractError::ValueConflict { a, b } && a@ == self@.value->0 && b@ == o@.value->0),
    {
        match self.unify_step(o) {
            Ok(p) => Ok(p.0),
            Err(e) => Err(e),
        }
    }
}

} // verus!
