//! Reusable inference strategies offered to operator authors: forward
//! concrete inference, broadcast shape inference, and shape selection.

use vstd::prelude::*;
use crate::fact::{DatumType, Dim, Fact, ShapeFact, ShapeView, TractError};
use crate::tensor::{Tensor, TensorFact, TensorFactView, TensorView};
use crate::ops::{eval, eval_err, eval_ok, eval_out, views_of, Op};

verus! {

/// The views of a sequence of shape facts.
pub open spec fn shape_views(s: Seq<ShapeFact>) -> Seq<ShapeView> {
    Seq::new(s.len(), |i: int| s[i]@)
}

/// Some input shape has unknown rank.
pub open spec fn any_open(shapes: Seq<ShapeView>) -> bool {
    exists|i: int| 0 <= i < shapes.len() && (#[trigger] shapes[i]).is_open
}

/// The greatest rank among the first `j` shapes.
pub open spec fn max_rank_upto(shapes: Seq<ShapeView>, j: int) -> int
    decreases j,
{
    if j <= 0 {
        0
    } else {
        let r = max_rank_upto(shapes, j - 1);
        if shapes[j - 1].dims.len() > r {
            shapes[j - 1].dims.len() as int
        } else {
            r
        }
    }
}

pub open spec fn max_rank(shapes: Seq<ShapeView>) -> int {
    max_rank_upto(shapes, shapes.len() as int)
}

/// Scanning the first `j` shapes at trailing position `p` (1 counts from
/// the rightmost dimension): the first concrete, non-neutral dimension.
pub open spec fn prev_at(shapes: Seq<ShapeView>, p: int, j: int) -> Option<Dim>
    decreases j,
{
    if j <= 0 {
        None
    } else {
        let prior = prev_at(shapes, p, j - 1);
        let d = shapes[j - 1].dims;
        if d.len() < p {
            prior
        } else {
            match d[d.len() - p] {
                Fact::Any => prior,
                Fact::Only(v) => if v.spec_is_one() {
                    prior
                } else if prior is None {
                    Some(v)
                } else {
                    prior
                },
            }
        }
    }
}

/// The first conflicting pair at trailing position `p` among the first
/// `j` shapes: an already-seen non-neutral dimension and a disagreeing
/// later one.
pub open spec fn conflict_at(shapes: Seq<ShapeView>, p: int, j: int) -> Option<(Dim, Dim)>
    decreases j,
{
    if j <= 0 {
        None
    } else {
        let prior = conflict_at(shapes, p, j - 1);
        if prior is Some {
            prior
        } else {
            let d = shapes[j - 1].dims;
            if d.len() < p {
                None
            } else {
                match d[d.len() - p] {
                    Fact::Any => None,
                    Fact::Only(v) => if v.spec_is_one() {
                        None
                    } else {
                        match prev_at(shapes, p, j - 1) {
                            None => None,
                            Some(q) => if q == v {
                                None
                            } else {
                                Some((q, v))
                            },
                        }
                    },
                }
            }
        }
    }
}

/// How many of the first `j` shapes have an unknown dimension at trailing
/// position `p`.
pub open spec fn unknowns_at(shapes: Seq<ShapeView>, p: int, j: int) -> int
    decreases j,
{
    if j <= 0 {
        0
    } else {
        let d = shapes[j - 1].dims;
        unknowns_at(shapes, p, j - 1) + if d.len() >= p && d[d.len() - p] is Any {
            1int
        } else {
            0int
        }
    }
}

/// The outcome of examining one trailing position.
pub ghost enum PosOut {
    /// Two concrete, non-neutral dimensions disagree: a fatal conflict.
    Conflict(Dim, Dim),
    /// The position is ambiguous: inference for the whole shape gives up.
    GiveUp,
    /// The output dimension fact at this position.
    Dim(Fact<Dim>),
}

/// Examine trailing position `p` across all shapes: a conflict dominates;
/// more than one unknown, or an unknown beside a concrete non-neutral
/// value, gives up; one unknown alone stays unknown; otherwise the
/// concrete non-neutral value if one was seen, else 1.
pub open spec fn pos_out(shapes: Seq<ShapeView>, p: int) -> PosOut {
    let m = shapes.len() as int;
    match conflict_at(shapes, p, m) {
        Some((q, v)) => PosOut::Conflict(q, v),
        None => {
            let u = unknowns_at(shapes, p, m);
            let prev = prev_at(shapes, p, m);
            if u > 1 {
                PosOut::GiveUp
            } else if u == 1 && prev is Some {
                PosOut::GiveUp
            } else if u == 1 {
                PosOut::Dim(Fact::Any)
            } else {
                match prev {
                    Some(q) => PosOut::Dim(Fact::Only(q)),
                    None => PosOut::Dim(Fact::Only(Dim::Fixed(1))),
                }
            }
        },
    }
}

/// The overall decision of broadcast inference.
pub ghost enum BcastDecision {
    Conflict(Dim, Dim),
    GiveUp,
    Output,
}

/// Walk the trailing positions from `p` up to `bound`: the first position
/// that conflicts or gives up decides; if none does, an output shape is
/// produced.
pub open spec fn decide_from(shapes: Seq<ShapeView>, p: int, bound: int) -> BcastDecision
    decreases bound + 1 - p,
{
    if p > bound {
        BcastDecision::Output
    } else {
        match pos_out(shapes, p) {
            PosOut::Conflict(q, v) => BcastDecision::Conflict(q, v),
            PosOut::GiveUp => BcastDecision::GiveUp,
            PosOut::Dim(_) => decide_from(shapes, p + 1, bound),
        }
    }
}

pub open spec fn bcast_decision(shapes: Seq<ShapeView>) -> BcastDecision {
    decide_from(shapes, 1, max_rank(shapes))
}

/// The output dimension fact at trailing position `p`.
pub open spec fn bcast_dim(shapes: Seq<ShapeView>, p: int) -> Fact<Dim> {
    match pos_out(shapes, p) {
        PosOut::Dim(f) => f,
        _ => Fact::Any,
    }
}

/// The whole inferred output shape, back in forward order.
pub open spec fn bcast_output(shapes: Seq<ShapeView>) -> Seq<Fact<Dim>> {
    Seq::new(max_rank(shapes) as nat, |j: int| bcast_dim(shapes, max_rank(shapes) - j))
}

/// A conflict found while scanning persists through the rest of the scan.
proof fn lemma_conflict_persists(shapes: Seq<ShapeView>, p: int, j: int, m: int)
    requires
        0 <= j <= m,
        conflict_at(shapes, p, j) is Some,
    ensures
        conflict_at(shapes, p, m) == conflict_at(shapes, p, j),
    decreases m - j,
{
    if j < m {
        lemma_conflict_persists(shapes, p, j + 1, m);
    }
}

/// If every trailing position before `p` yields a dimension, the overall
/// decision is decided from `p` on.
proof fn lemma_decide_reaches(shapes: Seq<ShapeView>, p: int, bound: int)
    requires
        1 <= p <= bound + 1,
        forall|q: int| 1 <= q < p ==> pos_out(shapes, q) is Dim,
    ensures
        decide_from(shapes, 1, bound) == decide_from(shapes, p, bound),
    decreases p,
{
    if p > 1 {
        lemma_decide_reaches(shapes, p - 1, bound);
    }
}

/// Broadcast shape inference.  Gives up (no error, no output) when any
/// input shape is open or a position is ambiguous; fails on two
/// disagreeing concrete, non-neutral dimensions; otherwise aligns all
/// shapes at their trailing dimension and produces the closed output.
pub fn infer_shape_broadcasting(shapes: &Vec<ShapeFact>) -> (r: Result<
    Option<ShapeFact>,
    TractError,
>)
    requires
        shapes@.len() >= 1,
    ensures
        any_open(shape_views(shapes@)) ==> r == Ok::<Option<ShapeFact>, TractError>(None),
        !any_open(shape_views(shapes@)) ==> match bcast_decision(shape_views(shapes@)) {
            BcastDecision::Conflict(q, v) => r == Err::<Option<ShapeFact>, TractError>(
                TractError::ShapeConflict { a: q, b: v },
            ),
            BcastDecision::GiveUp => r == Ok::<Option<ShapeFact>, TractError>(None),
            BcastDecision::Output => r matches Ok(Some(s)) && !s@.is_open && s@.dims
                == bcast_output(shape_views(shapes@)),
        },
{
    let ghost vs = shape_views(shapes@);
    let m = shapes.len();
    let mut i: usize = 0;
    while i < m
        invariant
            m == shapes@.len(),
            vs == shape_views(shapes@),
            i <= m,
            forall|j: int| 0 <= j < i ==> !(#[trigger] vs[j]).is_open,
        decreases m - i,
    {
        if shapes[i].is_open {
            proof {
                assert(vs[i as int].is_open);
                assert(any_open(vs));
            }
            return Ok(None);
        }
        i += 1;
    }
    let mut bound: usize = 0;
    let mut i2: usize = 0;
    while i2 < m
        invariant
            m == shapes@.len(),
            vs == shape_views(shapes@),
            i2 <= m,
            bound == max_rank_upto(vs, i2 as int),
        decreases m - i2,
    {
        if shapes[i2].dims.len() > bound {
            bound = shapes[i2].dims.len();
        }
        i2 += 1;
    }
    let mut out_rev: Vec<Fact<Dim>> = Vec::new();
    let mut pidx: usize = 0;
    while pidx < bound
        invariant
            m == shapes@.len(),
            m >= 1,
            vs == shape_views(shapes@),
            bound == max_rank(vs),
            !any_open(vs),
            pidx <= bound,
            out_rev@.len() == pidx,
            forall|q: int| 1 <= q <= pidx ==> pos_out(vs, q) is Dim,
            forall|q: int| 1 <= q <= pidx ==> out_rev@[q - 1] == bcast_dim(vs, q),
        decreases bound - pidx,
    {
        let p = pidx + 1;
        let mut prev: Option<Dim> = None;
        let mut unknown: usize = 0;
        let mut j: usize = 0;
        while j < m
            invariant
                m == shapes@.len(),
                m >= 1,
                vs == shape_views(shapes@),
                bound == max_rank(vs),
                !any_open(vs),
                1 <= p <= bound,
                forall|q: int| 1 <= q < p ==> pos_out(vs, q) is Dim,
                j <= m,
                prev == prev_at(vs, p as int, j as int),
                conflict_at(vs, p as int, j as int) is None,
                unknown == unknowns_at(vs, p as int, j as int),
                unknown <= j,
            decreases m - j,
        {
            let dlen = shapes[j].dims.len();
            if dlen >= p {
                match shapes[j].dims[dlen - p] {
                    Fact::Any => {
                        unknown += 1;
                    },
                    Fact::Only(v) => {
                        if v.is_one() {
                        } else {
                            match prev {
                                None => {
                                    prev = Some(v);
                                },
                                Some(q) => {
                                    if q == v {
                                    } else {
                                        proof {
                                            assert(conflict_at(vs, p as int, j + 1) == Some(
                                                (q, v),
                                            ));
                                            lemma_conflict_persists(
                                                vs,
                                                p as int,
                                                j + 1,
                                                m as int,
                                            );
                                            assert(pos_out(vs, p as int) == PosOut::Conflict(
                                                q,
                                                v,
                                            ));
                                            lemma_decide_reaches(vs, p as int, bound as int);
                                        }
                                        return Err(TractError::ShapeConflict { a: q, b: v });
                                    }
                                },
                            }
                        }
                    },
                }
            }
            j += 1;
        }
        if unknown > 1 {
            proof {
                lemma_decide_reaches(vs, p as int, bound as int);
            }
            return Ok(None);
        } else if unknown == 1 && prev.is_some() {
            proof {
                lemma_decide_reaches(vs, p as int, bound as int);
            }
            return Ok(None);
        } else if unknown == 1 {
            out_rev.push(Fact::Any);
        } else {
            match prev {
                Some(q) => {
                    out_rev.push(Fact::Only(q));
                },
                None => {
                    out_rev.push(Fact::Only(Dim::Fixed(1)));
                },
            }
        }
        pidx = p;
    }
    proof {
        lemma_decide_reaches(vs, bound + 1, bound as int);
    }
    let mut dims: Vec<Fact<Dim>> = Vec::new();
    let mut idx: usize = out_rev.len();
    while idx > 0
        invariant
            out_rev@.len() == bound,
            bound == max_rank(vs),
            forall|q: int| 1 <= q <= bound ==> out_rev@[q - 1] == bcast_dim(vs, q),
            idx <= bound,
            dims@.len() == bound - idx,
            forall|t: int| 0 <= t < bound - idx ==> dims@[t] == bcast_dim(vs, bound - t),
        decreases idx,
    {
        idx -= 1;
        dims.push(out_rev[idx]);
    }
    proof {
        assert(dims@ =~= bcast_output(vs));
    }
    Ok(Some(ShapeFact::closed(dims)))
}

/// All ranks equal `r` makes `r` the bound.
proof fn lemma_max_rank_equal(shapes: Seq<ShapeView>, r: int, j: int)
    requires
        1 <= j <= shapes.len(),
        r >= 0,
        forall|s: int| 0 <= s < shapes.len() ==> (#[trigger] shapes[s]).dims.len() == r,
    ensures
        max_rank_upto(shapes, j) == r,
    decreases j,
{
    if j > 1 {
        lemma_max_rank_equal(shapes, r, j - 1);
    } else {
        assert(max_rank_upto(shapes, 0) == 0);
    }
}

/// With every dimension concrete, no position counts an unknown.
proof fn lemma_no_unknowns(shapes: Seq<ShapeView>, r: int, p: int, j: int)
    requires
        0 <= j <= shapes.len(),
        1 <= p <= r,
        forall|s: int| 0 <= s < shapes.len() ==> (#[trigger] shapes[s]).dims.len() == r,
        forall|s: int, q: int|
            0 <= s < shapes.len() && 0 <= q < r ==> (#[trigger] shapes[s].dims[q]) is Only,
    ensures
        unknowns_at(shapes, p, j) == 0,
    decreases j,
{
    if j > 0 {
        lemma_no_unknowns(shapes, r, p, j - 1);
    }
}

/// What the scan for a previous value has seen: nothing while every
/// dimension so far is broadcast-neutral, else a non-neutral dimension
/// some input carries at this trailing position.
proof fn lemma_prev_shape(shapes: Seq<ShapeView>, r: int, p: int, j: int)
    requires
        0 <= j <= shapes.len(),
        1 <= p <= r,
        forall|s: int| 0 <= s < shapes.len() ==> (#[trigger] shapes[s]).dims.len() == r,
        forall|s: int, q: int|
            0 <= s < shapes.len() && 0 <= q < r ==> (#[trigger] shapes[s].dims[q]) is Only,
    ensures
        prev_at(shapes, p, j) is None ==> forall|s: int|
            0 <= s < j ==> (#[trigger] shapes[s].dims[r - p])->0.spec_is_one(),
        prev_at(shapes, p, j) matches Some(d) ==> exists|s: int|
            0 <= s < j && (#[trigger] shapes[s].dims[r - p]) == Fact::Only(d)
                && !d.spec_is_one(),
    decreases j,
{
    if j > 0 {
        lemma_prev_shape(shapes, r, p, j - 1);
    }
}

/// Compatible concrete shapes never conflict at any position.
proof fn lemma_no_conflict(shapes: Seq<ShapeView>, r: int, p: int, j: int)
    requires
        0 <= j <= shapes.len(),
        1 <= p <= r,
        forall|s: int| 0 <= s < shapes.len() ==> (#[trigger] shapes[s]).dims.len() == r,
        forall|s: int, q: int|
            0 <= s < shapes.len() && 0 <= q < r ==> (#[trigger] shapes[s].dims[q]) is Only,
        forall|s1: int, s2: int, q: int|
            0 <= s1 < shapes.len() && 0 <= s2 < shapes.len() && 0 <= q < r && !(
            #[trigger] shapes[s1].dims[q])->0.spec_is_one() && !(
            #[trigger] shapes[s2].dims[q])->0.spec_is_one() ==> shapes[s1].dims[q]
                == shapes[s2].dims[q],
    ensures
        conflict_at(shapes, p, j) is None,
    decreases j,
{
    if j > 0 {
        lemma_no_conflict(shapes, r, p, j - 1);
        lemma_prev_shape(shapes, r, p, j - 1);
    }
}

/// Every position of compatible concrete shapes yields a dimension.
proof fn lemma_all_positions_dim(shapes: Seq<ShapeView>, r: int, p: int)
    requires
        shapes.len() >= 1,
        1 <= p <= r,
        forall|s: int| 0 <= s < shapes.len() ==> (#[trigger] shapes[s]).dims.len() == r,
        forall|s: int, q: int|
            0 <= s < shapes.len() && 0 <= q < r ==> (#[trigger] shapes[s].dims[q]) is Only,
        forall|s1: int, s2: int, q: int|
            0 <= s1 < shapes.len() && 0 <= s2 < shapes.len() && 0 <= q < r && !(
            #[trigger] shapes[s1].dims[q])->0.spec_is_one() && !(
            #[trigger] shapes[s2].dims[q])->0.spec_is_one() ==> shapes[s1].dims[q]
                == shapes[s2].dims[q],
    ensures
        pos_out(shapes, p) is Dim,
{
    let m = shapes.len() as int;
    lemma_no_conflict(shapes, r, p, m);
    lemma_no_unknowns(shapes, r, p, m);
}

proof fn lemma_all_d_output(shapes: Seq<ShapeView>, p: int, bound: int)
    requires
        1 <= p <= bound + 1,
        forall|q: int| p <= q <= bound ==> pos_out(shapes, q) is Dim,
    ensures
        decide_from(shapes, p, bound) == BcastDecision::Output,
    decreases bound + 1 - p,
{
    if p <= bound {
        lemma_all_d_output(shapes, p + 1, bound);
    }
}

/// Broadcast inference on fully concrete shapes of equal rank, pairwise
/// compatible except at broadcast-neutral positions, returns the standard
/// broadcast result: at each position the shared non-neutral dimension
/// where one exists, else 1.
pub proof fn lemma_broadcast_standard(shapes: Seq<ShapeView>, r: int)
    requires
        shapes.len() >= 1,
        r >= 1,
        forall|s: int| 0 <= s < shapes.len() ==> !(#[trigger] shapes[s]).is_open,
        forall|s: int| 0 <= s < shapes.len() ==> (#[trigger] shapes[s]).dims.len() == r,
        forall|s: int, q: int|
            0 <= s < shapes.len() && 0 <= q < r ==> (#[trigger] shapes[s].dims[q]) is Only,
        forall|s1: int, s2: int, q: int|
            0 <= s1 < shapes.len() && 0 <= s2 < shapes.len() && 0 <= q < r && !(
            #[trigger] shapes[s1].dims[q])->0.spec_is_one() && !(
            #[trigger] shapes[s2].dims[q])->0.spec_is_one() ==> shapes[s1].dims[q]
                == shapes[s2].dims[q],
    ensures
        !any_open(shapes),
        max_rank(shapes) == r,
        bcast_decision(shapes) == BcastDecision::Output,
        bcast_output(shapes).len() == r,
        forall|s: int, q: int|
            0 <= s < shapes.len() && 0 <= q < r && !(
            #[trigger] shapes[s].dims[q])->0.spec_is_one() ==> bcast_output(shapes)[q]
                == shapes[s].dims[q],
        forall|q: int|
            0 <= q < r && (forall|s: int|
                0 <= s < shapes.len() ==> (#[trigger] shapes[s].dims[q])->0.spec_is_one())
                ==> #[trigger] bcast_output(shapes)[q] == Fact::Only(Dim::Fixed(1)),
{
    let m = shapes.len() as int;
    lemma_max_rank_equal(shapes, r, m);
    assert forall|p: int| 1 <= p <= r implies pos_out(shapes, p) is Dim by {
        lemma_all_positions_dim(shapes, r, p);
    }
    lemma_all_d_output(shapes, 1, r);
    assert forall|s: int, q: int|
        0 <= s < shapes.len() && 0 <= q < r && !(
    #[trigger] shapes[s].dims[q])->0.spec_is_one() implies bcast_output(shapes)[q]
        == shapes[s].dims[q] by {
        let p = r - q;
        lemma_no_conflict(shapes, r, p, m);
        lemma_no_unknowns(shapes, r, p, m);
        lemma_prev_shape(shapes, r, p, m);
        assert(shapes[s].dims[q] is Only);
        if prev_at(shapes, p, m) is None {
            assert(shapes[s].dims[r - p]->0.spec_is_one());
            assert(false);
        } else {
            let d = prev_at(shapes, p, m)->0;
            let s2 = choose|s2: int|
                0 <= s2 < m && (#[trigger] shapes[s2].dims[r - p]) == Fact::Only(d)
                    && !d.spec_is_one();
            assert(shapes[s2].dims[q] == shapes[s].dims[q]);
        }
    }
    assert forall|q: int|
        0 <= q < r && (forall|s: int|
            0 <= s < shapes.len() ==> (#[trigger] shapes[s].dims[q])->0.spec_is_one())
        implies #[trigger] bcast_output(shapes)[q] == Fact::Only(Dim::Fixed(1)) by {
        let p = r - q;
        lemma_no_conflict(shapes, r, p, m);
        lemma_no_unknowns(shapes, r, p, m);
        lemma_prev_shape(shapes, r, p, m);
        let prev = prev_at(shapes, p, m);
        if prev is Some {
            let d = prev->0;
            let s2 = choose|s2: int|
                0 <= s2 < m && (#[trigger] shapes[s2].dims[r - p]) == Fact::Only(d)
                    && !d.spec_is_one();
            assert(shapes[s2].dims[q]->0.spec_is_one());
            assert(false);
        }
    }
}

/// The fully known fact derived from an evaluated tensor: type, shape and
/// value all concrete.
pub open spec fn fact_of(t: TensorView) -> TensorFactView {
    TensorFactView {
        datum_type: Fact::Only(t.datum_type),
        shape: ShapeView {
            is_open: false,
            dims: Seq::new(t.shape.len(), |i: int| Fact::Only(Dim::Fixed(t.shape[i]))),
        },
        value: Fact::Only(t),
    }
}

/// Build the tensor fact of a concrete tensor.  This is the only way a
/// value fact becomes concrete: type and shape are derived from the
/// evaluated tensor, never the reverse.
pub fn tensor_to_fact(tensor: Tensor) -> (r: TensorFact)
    ensures
        r@ == fact_of(tensor@),
        r@.all_concrete(),
        r@.consistent(),
{
    let shape = ShapeFact::from_concrete(&tensor.shape);
    let datum_type = Fact::Only(tensor.datum_type);
    let r = TensorFact { datum_type, shape, value: Fact::Only(tensor) };
    proof {
        assert(r@.shape.dims =~= fact_of(r.value->0@).shape.dims);
    }
    r
}

/// The views of a sequence of tensor facts.
pub open spec fn fact_views(s: Seq<TensorFact>) -> Seq<TensorFactView> {
    Seq::new(s.len(), |i: int| s[i]@)
}

/// Every fact's value is concrete.
pub open spec fn all_values_known(ins: Seq<TensorFactView>) -> bool {
    forall|i: int| 0 <= i < ins.len() ==> (#[trigger] ins[i]).value is Only
}

/// The concrete values of the facts.
pub open spec fn values_of(ins: Seq<TensorFactView>) -> Seq<TensorView> {
    Seq::new(ins.len(), |i: int| ins[i].value->0)
}

/// Every concrete value carried by a fact is a well-formed tensor, and
/// every fact is internally consistent: a known value pins the type and
/// the closed shape that match it.
pub open spec fn facts_wf(ins: Seq<TensorFactView>) -> bool {
    forall|i: int|
        0 <= i < ins.len() ==> (((#[trigger] ins[i]).value is Only ==> ins[i].value->0.wf())
            && ins[i].consistent())
}

/// Whether forward-concrete inference applies: every input value is known
/// and the operator offers a pure evaluation.
pub open spec fn concrete_applies(op: Op, ins: Seq<TensorFactView>) -> bool {
    all_values_known(ins) && op.spec_has_eval()
}

/// Forward-concrete inference: when every input value is known and the
/// operator evaluates, evaluate it once and derive the single output fact
/// from the result.  Otherwise nothing can be said.
pub fn infer_forward_concrete(op: &Op, inputs: &Vec<TensorFact>) -> (r: Result<
    Option<Vec<TensorFact>>,
    TractError,
>)
    requires
        op.wf(),
        facts_wf(fact_views(inputs@)),
    ensures
        !concrete_applies(*op, fact_views(inputs@)) ==> (r matches Ok(o) && o is None),
        concrete_applies(*op, fact_views(inputs@)) ==> {
            let vals = values_of(fact_views(inputs@));
            &&& eval_ok(*op, vals) ==> (r matches Ok(o) && o matches Some(fs) && fs@.len() == 1
                && fs@[0]@ == fact_of(eval_out(*op, vals)) && eval_out(*op, vals).wf())
            &&& !eval_ok(*op, vals) ==> r == Err::<Option<Vec<TensorFact>>, TractError>(
                eval_err(*op, vals),
            )
        },
{
    let ghost ins = fact_views(inputs@);
    let mut values: Vec<Tensor> = Vec::new();
    let mut i: usize = 0;
    while i < inputs.len()
        invariant
            ins == fact_views(inputs@),
            facts_wf(ins),
            i <= inputs@.len(),
            values@.len() == i,
            forall|j: int| 0 <= j < i ==> (#[trigger] ins[j]).value is Only,
            forall|j: int| 0 <= j < i ==> (#[trigger] values@[j])@ == ins[j].value->0,
        decreases inputs@.len() - i,
    {
        match &inputs[i].value {
            Fact::Only(t) => {
                values.push(t.dup());
            },
            Fact::Any => {
                proof {
                    assert(ins[i as int].value is Any);
                    assert(!all_values_known(ins));
                }
                return Ok(None);
            },
        }
        i += 1;
    }
    if !op.has_eval() {
        return Ok(None);
    }
    proof {
        assert(views_of(values@) =~= values_of(ins));
        assert forall|j: int| 0 <= j < values@.len() implies (#[trigger] values@[j])@.wf() by {
            assert(ins[j].value is Only);
        }
    }
    match eval(op, &values) {
        Err(e) => Err(e),
        Ok(mut outs) => {
            let out = match outs.pop() {
                Some(t) => t,
                None => {
                    proof {
                        assert(false);
                    }
                    return Err(TractError::PlanError);
                },
            };
            let mut fs: Vec<TensorFact> = Vec::new();
            fs.push(tensor_to_fact(out));
            Ok(Some(fs))
        },
    }
}

/// The first concrete element type among the inputs, scanning in order.
pub open spec fn first_known_dt(ins: Seq<TensorFactView>, j: int) -> Fact<DatumType>
    decreases j,
{
    if j <= 0 {
        Fact::Any
    } else if first_known_dt(ins, j - 1) is Only {
        first_known_dt(ins, j - 1)
    } else {
        ins[j - 1].datum_type
    }
}

/// The shapes carried by the facts.
pub open spec fn shapes_of(ins: Seq<TensorFactView>) -> Seq<ShapeView> {
    Seq::new(ins.len(), |i: int| ins[i].shape)
}

/// The output fact of forward-basic inference when forward-concrete
/// inference yields nothing: the first concrete input type, the broadcast
/// shape (fully open if broadcasting gives up), and an unknown value.
pub open spec fn basic_fact(ins: Seq<TensorFactView>) -> TensorFactView {
    TensorFactView {
        datum_type: first_known_dt(ins, ins.len() as int),
        shape: if !any_open(shapes_of(ins)) && bcast_decision(shapes_of(ins))
            is Output {
            ShapeView { is_open: false, dims: bcast_output(shapes_of(ins)) }
        } else {
            ShapeView { is_open: true, dims: Seq::<Fact<Dim>>::empty() }
        },
        value: Fact::Any,
    }
}

/// Forward-basic inference for unary and binary broadcasting operators:
/// forward-concrete inference when it applies, else the output's type and
/// shape alone.  A broadcast conflict is an error; a broadcast give-up
/// falls back to the fully open shape.
pub fn infer_forward_basic(op: &Op, inputs: &Vec<TensorFact>) -> (r: Result<
    Option<Vec<TensorFact>>,
    TractError,
>)
    requires
        op.wf(),
        facts_wf(fact_views(inputs@)),
        inputs@.len() >= 1,
    ensures
        concrete_applies(*op, fact_views(inputs@)) ==> {
            let vals = values_of(fact_views(inputs@));
            &&& eval_ok(*op, vals) ==> (r matches Ok(o) && o matches Some(fs) && fs@.len() == 1
                && fs@[0]@ == fact_of(eval_out(*op, vals)) && eval_out(*op, vals).wf())
            &&& !eval_ok(*op, vals) ==> r == Err::<Option<Vec<TensorFact>>, TractError>(
                eval_err(*op, vals),
            )
        },
        !concrete_applies(*op, fact_views(inputs@)) ==> {
            let ins = fact_views(inputs@);
            let svs = shapes_of(ins);
            &&& !any_open(svs) ==> (bcast_decision(svs) matches BcastDecision::Conflict(q, v)
                ==> r == Err::<Option<Vec<TensorFact>>, TractError>(
                TractError::ShapeConflict { a: q, b: v },
            ))
            &&& (any_open(svs) || !(bcast_decision(svs) is Conflict)) ==> (r matches Ok(o)
                && o matches Some(fs) && fs@.len() == 1 && fs@[0]@ == basic_fact(ins))
        },
{
    let ghost ins = fact_views(inputs@);
    match infer_forward_concrete(op, inputs) {
        Err(e) => {
            return Err(e);
        },
        Ok(Some(fs)) => {
            return Ok(Some(fs));
        },
        Ok(None) => {},
    }
    let mut datum_type: Fact<DatumType> = Fact::Any;
    let mut i: usize = 0;
    while i < inputs.len()
        invariant
            ins == fact_views(inputs@),
            i <= inputs@.len(),
            datum_type == first_known_dt(ins, i as int),
        decreases inputs@.len() - i,
    {
        if matches!(datum_type, Fact::Any) {
            datum_type = inputs[i].datum_type;
        }
        i += 1;
    }
    let mut shapes: Vec<ShapeFact> = Vec::new();
    let mut j: usize = 0;
    while j < inputs.len()
        invariant
            ins == fact_views(inputs@),
            j <= inputs@.len(),
            shapes@.len() == j,
            forall|t: int| 0 <= t < j ==> (#[trigger] shapes@[t])@ == ins[t].shape,
        decreases inputs@.len() - j,
    {
        shapes.push(inputs[j].shape.dup());
        j += 1;
    }
    proof {
        assert(shape_views(shapes@) =~= shapes_of(ins));
    }
    let shape = match infer_shape_broadcasting(&shapes) {
        Err(e) => {
            return Err(e);
        },
        Ok(Some(s)) => s,
        Ok(None) => ShapeFact::all(),
    };
    let mut fs: Vec<TensorFact> = Vec::new();
    fs.push(TensorFact { datum_type, shape, value: Fact::Any });
    Ok(Some(fs))
}

/// The rank shared by the closed shapes among the first `j`, or the first
/// disagreeing pair of ranks.
pub open spec fn rank_scan(shapes: Seq<ShapeView>, j: int) -> Result<Option<int>, (int, int)>
    decreases j,
{
    if j <= 0 {
        Ok(None)
    } else {
        match rank_scan(shapes, j - 1) {
            Err(e) => Err(e),
            Ok(prevr) => {
                let s = shapes[j - 1];
                if s.is_open {
                    Ok(prevr)
                } else {
                    match prevr {
                        None => Ok(Some(s.dims.len() as int)),
                        Some(pr) => if s.dims.len() == pr {
                            Ok(Some(pr))
                        } else {
                            Err((pr, s.dims.len() as int))
                        },
                    }
                }
            },
        }
    }
}

/// How many dimension facts are concrete.
pub open spec fn n_concrete(dims: Seq<Fact<Dim>>, j: int) -> int
    decreases j,
{
    if j <= 0 {
        0
    } else {
        n_concrete(dims, j - 1) + if dims[j - 1] is Only {
            1int
        } else {
            0int
        }
    }
}

pub open spec fn concrete_count(s: ShapeView) -> int {
    n_concrete(s.dims, s.dims.len() as int)
}

/// The index of the most specific shape among the first `j`: the earliest
/// closed shape with strictly more concrete dimensions than any closed
/// shape before it.
pub open spec fn best_scan(shapes: Seq<ShapeView>, j: int) -> Option<int>
    decreases j,
{
    if j <= 0 {
        None
    } else {
        let b = best_scan(shapes, j - 1);
        let s = shapes[j - 1];
        if s.is_open {
            b
        } else {
            match b {
                None => Some(j - 1),
                Some(bi) => if concrete_count(s) > concrete_count(shapes[bi]) {
                    Some(j - 1)
                } else {
                    b
                },
            }
        }
    }
}

/// A rank mismatch found while scanning persists through the rest of the
/// scan.
proof fn lemma_rank_err_persists(shapes: Seq<ShapeView>, j: int, m: int)
    requires
        0 <= j <= m,
        rank_scan(shapes, j) is Err,
    ensures
        rank_scan(shapes, m) == rank_scan(shapes, j),
    decreases m - j,
{
    if j < m {
        lemma_rank_err_persists(shapes, j + 1, m);
    }
}

/// What the shape selection promises: a selected shape is closed and
/// carries at least as many concrete dimensions as every closed shape in
/// the collection, and nothing is selected only when nothing is closed.
pub proof fn lemma_best_is_most_specific(shapes: Seq<ShapeView>, j: int)
    requires
        0 <= j <= shapes.len(),
    ensures
        best_scan(shapes, j) matches Some(b) ==> 0 <= b < j && !shapes[b].is_open && forall|s: int|
            0 <= s < j && !(#[trigger] shapes[s]).is_open ==> concrete_count(shapes[s])
                <= concrete_count(shapes[b]),
        best_scan(shapes, j) is None ==> forall|s: int|
            0 <= s < j ==> (#[trigger] shapes[s]).is_open,
    decreases j,
{
    if j > 0 {
        lemma_best_is_most_specific(shapes, j - 1);
    }
}

/// Count the concrete dimension facts of a shape.
fn count_concrete(s: &ShapeFact) -> (c: usize)
    ensures
        c == concrete_count(s@),
{
    let mut c: usize = 0;
    let mut i: usize = 0;
    while i < s.dims.len()
        invariant
            i <= s.dims@.len(),
            c == n_concrete(s@.dims, i as int),
            c <= i,
        decreases s.dims@.len() - i,
    {
        if matches!(s.dims[i], Fact::Only(_)) {
            c += 1;
        }
        i += 1;
    }
    c
}

/// The most specific closed shape of a collection: all closed shapes must
/// share one rank (a mismatch is a fatal error), and among them the one
/// with the greatest count of concrete dimensions is selected, the
/// earliest on a tie.  With no closed shape there is no selection.
pub fn most_specific_shape<'a>(shapes: &'a Vec<ShapeFact>) -> (r: Result<
    Option<&'a ShapeFact>,
    TractError,
>)
    ensures
        match rank_scan(shape_views(shapes@), shapes@.len() as int) {
            Err((x, y)) => r == Err::<Option<&'a ShapeFact>, TractError>(
                TractError::RankMismatch { a: x as usize, b: y as usize },
            ),
            Ok(_) => match best_scan(shape_views(shapes@), shapes@.len() as int) {
                None => r matches Ok(o) && o is None,
                Some(bi) => r matches Ok(o) && o matches Some(s) && *s == shapes@[bi]
                    && !s@.is_open,
            },
        },
{
    let ghost vs = shape_views(shapes@);
    let mut prev_rank: Option<usize> = None;
    let mut best: Option<usize> = None;
    let mut best_count: usize = 0;
    let mut i: usize = 0;
    while i < shapes.len()
        invariant
            vs == shape_views(shapes@),
            i <= shapes@.len(),
            rank_scan(vs, i as int) matches Ok(pr) && (match pr {
                None => prev_rank is None,
                Some(x) => prev_rank matches Some(y) && x == y,
            }),
            best_scan(vs, i as int) matches Some(bi) ==> (best matches Some(b) && b == bi && 0
                <= bi < i && best_count == concrete_count(vs[bi]) && !vs[bi].is_open),
            best_scan(vs, i as int) is None ==> best is None,
        decreases shapes@.len() - i,
    {
        let s = &shapes[i];
        if !s.is_open {
            let rank = s.dims.len();
            match prev_rank {
                Some(pr) => {
                    if rank != pr {
                        proof {
                            assert(rank_scan(vs, i + 1) == Result::<Option<int>, (int, int)>::Err(
                                (pr as int, rank as int),
                            ));
                            lemma_rank_err_persists(vs, i + 1, shapes@.len() as int);
                        }
                        return Err(TractError::RankMismatch { a: pr, b: rank });
                    }
                },
                None => {
                    prev_rank = Some(rank);
                },
            }
            let c = count_concrete(s);
            let better = match best {
                None => true,
                Some(_) => c > best_count,
            };
            if better {
                best = Some(i);
                best_count = c;
            }
        }
        i += 1;
    }
    match best {
        Some(b) => Ok(Some(&shapes[b])),
        None => Ok(None),
    }
}

} // verus!
