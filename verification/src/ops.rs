//! The operator catalog: the capability set every graph node implements
//! (a name, an optional pure evaluation, arity-checked inference rules).

use vstd::prelude::*;
use crate::fact::{DatumType, Dim, Fact, TractError};
use crate::tensor::{elem_count, Tensor, TensorFact, TensorView};

verus! {

/// A zero-input, one-output operator holding a fixed embedded tensor.
#[derive(Debug)]
pub struct Const {
    pub value: Tensor,
}

impl Const {
    pub fn for_tensor(tensor: Tensor) -> (r: Const)
        ensures
            r.value@ == tensor@,
    {
        Const { value: tensor }
    }

    pub fn name(&self) -> (r: &'static str)
        ensures
            r@ == "Const"@,
    {
        "Const"
    }

    /// Evaluation ignores its inputs and returns the embedded tensor.
    pub fn eval(&self, _inputs: Vec<Tensor>) -> (r: Result<Vec<Tensor>, TractError>)
        ensures
            r matches Ok(v) && v@.len() == 1 && v@[0]@ == self.value@,
    {
        let mut out: Vec<Tensor> = Vec::new();
        out.push(self.value.dup());
        Ok(out)
    }

    /// The inference rules of a constant only validate arity: no inputs,
    /// one output.  Its fact is contributed by forward-concrete inference.
    pub fn rules(&self, inputs: &Vec<TensorFact>, outputs: &Vec<TensorFact>) -> (r: Result<
        (),
        TractError,
    >)
        ensures
            (inputs@.len() == 0 && outputs@.len() == 1) <==> r is Ok,
            inputs@.len() != 0 ==> r == Err::<(), TractError>(
                TractError::Arity { expected: 0, actual: inputs@.len() as usize },
            ),
            inputs@.len() == 0 && outputs@.len() != 1 ==> r == Err::<(), TractError>(
                TractError::Arity { expected: 1, actual: outputs@.len() as usize },
            ),
    {
        match check_input_arity(inputs, 0) {
            Ok(_) => {},
            Err(e) => {
                return Err(e);
            },
        }
        match check_output_arity(outputs, 1) {
            Ok(_) => {},
            Err(e) => {
                return Err(e);
            },
        }
        Ok(())
    }
}

/// Fails with an arity error naming the expected and actual count unless
/// the node was given exactly `expected` inputs.
pub fn check_input_arity(inputs: &Vec<TensorFact>, expected: usize) -> (r: Result<(), TractError>)
    ensures
        inputs@.len() == expected ==> r is Ok,
        inputs@.len() != expected ==> r == Err::<(), TractError>(
            TractError::Arity { expected, actual: inputs@.len() as usize },
        ),
{
    if inputs.len() == expected {
        Ok(())
    } else {
        Err(TractError::Arity { expected, actual: inputs.len() })
    }
}

/// The same check for a node's outputs.
pub fn check_output_arity(outputs: &Vec<TensorFact>, expected: usize) -> (r: Result<(), TractError>)
    ensures
        outputs@.len() == expected ==> r is Ok,
        outputs@.len() != expected ==> r == Err::<(), TractError>(
            TractError::Arity { expected, actual: outputs@.len() as usize },
        ),
{
    if outputs.len() == expected {
        Ok(())
    } else {
        Err(TractError::Arity { expected, actual: outputs.len() })
    }
}

/// The closed catalog of operators a node may carry.
///
/// `Source` marks a graph input: it has no evaluation and its fact is
/// supplied from outside.  `MovingSum` sums a sliding window of the given
/// length along the leading axis, a stand-in for operators whose receptive
/// field spans several positions of a streamed axis.
#[derive(Debug)]
pub enum Op {
    Source,
    Const(Const),
    Identity,
    Add,
    MovingSum { window: usize },
}

impl Op {
    pub open spec fn spec_n_inputs(&self) -> usize {
        match self {
            Op::Source => 0,
            Op::Const(_) => 0,
            Op::Identity => 1,
            Op::Add => 2,
            Op::MovingSum { .. } => 1,
        }
    }

    #[verifier::when_used_as_spec(spec_n_inputs)]
    pub fn n_inputs(&self) -> (r: usize)
        ensures
            r == self.spec_n_inputs(),
    {
        match self {
            Op::Source => 0,
            Op::Const(_) => 0,
            Op::Identity => 1,
            Op::Add => 2,
            Op::MovingSum { .. } => 1,
        }
    }

    /// Whether the operator offers a pure evaluation.  A `Source` does
    /// not: its value arrives from outside the graph.
    pub open spec fn spec_has_eval(&self) -> bool {
        !(self is Source)
    }

    #[verifier::when_used_as_spec(spec_has_eval)]
    pub fn has_eval(&self) -> (r: bool)
        ensures
            r == self.spec_has_eval(),
    {
        !matches!(self, Op::Source)
    }

    /// A well-formed operator: an embedded constant tensor must itself be
    /// well formed.
    pub open spec fn wf(&self) -> bool {
        match self {
            Op::Const(c) => c.value@.wf(),
            _ => true,
        }
    }

    pub open spec fn spec_name(&self) -> Seq<char> {
        match self {
            Op::Source => "Source"@,
            Op::Const(_) => "Const"@,
            Op::Identity => "Identity"@,
            Op::Add => "Add"@,
            Op::MovingSum { .. } => "MovingSum"@,
        }
    }

    /// The operator's diagnostic name.
    pub fn name(&self) -> (r: &'static str)
        ensures
            r@ == self.spec_name(),
    {
        match self {
            Op::Source => "Source",
            Op::Const(c) => c.name(),
            Op::Identity => "Identity",
            Op::Add => "Add",
            Op::MovingSum { .. } => "MovingSum",
        }
    }
}

/// Spec-level image of an operator.
pub ghost enum OpView {
    Source,
    Const(TensorView),
    Identity,
    Add,
    MovingSum { window: usize },
}

impl View for Op {
    type V = OpView;

    open spec fn view(&self) -> OpView {
        match self {
            Op::Source => OpView::Source,
            Op::Const(c) => OpView::Const(c.value@),
            Op::Identity => OpView::Identity,
            Op::Add => OpView::Add,
            Op::MovingSum { window } => OpView::MovingSum { window: *window },
        }
    }
}

impl Op {
    /// An exact copy sharing no storage with the original.
    pub fn dup(&self) -> (r: Op)
        ensures
            r@ == self@,
            r.wf() == self.wf(),
            r.spec_n_inputs() == self.spec_n_inputs(),
            r.spec_has_eval() == self.spec_has_eval(),
    {
        match self {
            Op::Source => Op::Source,
            Op::Const(c) => Op::Const(Const { value: c.value.dup() }),
            Op::Identity => Op::Identity,
            Op::Add => Op::Add,
            Op::MovingSum { window } => Op::MovingSum { window: *window },
        }
    }
}

/// The views of a sequence of tensors.
pub open spec fn views_of(s: Seq<Tensor>) -> Seq<TensorView> {
    Seq::new(s.len(), |i: int| s[i]@)
}

/// The first index at which two concrete shapes differ, scanning from `i`.
pub open spec fn first_udiff(x: Seq<usize>, y: Seq<usize>, i: int) -> int
    decreases x.len() - i,
{
    if i < 0 || i >= x.len() || i >= y.len() {
        x.len() as int
    } else if x[i] != y[i] {
        i
    } else {
        first_udiff(x, y, i + 1)
    }
}

/// The number of elements of one row: everything below the leading axis.
pub open spec fn row_size(shape: Seq<usize>) -> int {
    elem_count(shape.drop_first())
}

/// The wrapped sum of `k` words taken from `data` starting at `start`,
/// `step` apart, in ascending order.
pub open spec fn window_sum(data: Seq<i64>, start: int, step: int, k: int) -> i64
    decreases k,
{
    if k <= 0 {
        0i64
    } else {
        window_sum(data, start, step, k - 1).wrapping_add(data[start + (k - 1) * step])
    }
}

/// The moving-window sum of `t` along its leading axis: row `j` of the
/// result is the elementwise wrapped sum of rows `j .. j + k` of `t`.
pub open spec fn moving_sum_view(t: TensorView, k: usize) -> TensorView {
    let n = t.shape[0] as int;
    let rs = row_size(t.shape);
    TensorView {
        datum_type: t.datum_type,
        shape: t.shape.update(0, (n - k + 1) as usize),
        data: Seq::new(((n - k + 1) * rs) as nat, |i: int| window_sum(t.data, i, rs, k as int)),
    }
}

/// Whether a pure evaluation succeeds on the given concrete inputs.
pub open spec fn eval_ok(op: Op, ins: Seq<TensorView>) -> bool {
    &&& ins.len() == op.spec_n_inputs()
    &&& match op {
        Op::Source => false,
        Op::Const(_) => true,
        Op::Identity => true,
        Op::Add => ins[0].datum_type == ins[1].datum_type && ins[0].shape == ins[1].shape,
        Op::MovingSum { window } => 1 <= window && ins[0].shape.len() >= 1 && window
            <= ins[0].shape[0],
    }
}

/// The error a failing evaluation reports.
pub open spec fn eval_err(op: Op, ins: Seq<TensorView>) -> TractError {
    if ins.len() != op.spec_n_inputs() {
        TractError::Arity { expected: op.spec_n_inputs(), actual: ins.len() as usize }
    } else {
        match op {
            Op::Add => if ins[0].datum_type != ins[1].datum_type {
                TractError::TypeConflict { a: ins[0].datum_type, b: ins[1].datum_type }
            } else if ins[0].shape.len() != ins[1].shape.len() {
                TractError::RankMismatch {
                    a: ins[0].shape.len() as usize,
                    b: ins[1].shape.len() as usize,
                }
            } else {
                let d = first_udiff(ins[0].shape, ins[1].shape, 0);
                TractError::ShapeConflict {
                    a: Dim::Fixed(ins[0].shape[d]),
                    b: Dim::Fixed(ins[1].shape[d]),
                }
            },
            Op::MovingSum { window } => if ins[0].shape.len() < 1 {
                TractError::RankMismatch { a: 0, b: 1 }
            } else {
                TractError::ShapeConflict {
                    a: Dim::Fixed(ins[0].shape[0]),
                    b: Dim::Fixed(window),
                }
            },
            _ => TractError::Unresolved { edge: 0 },
        }
    }
}

/// The single output of a successful evaluation.
pub open spec fn eval_out(op: Op, ins: Seq<TensorView>) -> TensorView
    recommends
        eval_ok(op, ins),
{
    match op {
        Op::Const(c) => c.value@,
        Op::Identity => ins[0],
        Op::Add => TensorView {
            datum_type: ins[0].datum_type,
            shape: ins[0].shape,
            data: Seq::new(
                ins[0].data.len(),
                |i: int| ins[0].data[i].wrapping_add(ins[1].data[i]),
            ),
        },
        Op::MovingSum { window } => moving_sum_view(ins[0], window),
        Op::Source => arbitrary(),
    }
}

/// The concatenation, in order, of the data of a sequence of chunks.
pub open spec fn flat_data(chunks: Seq<Seq<i64>>) -> Seq<i64>
    decreases chunks.len(),
{
    if chunks.len() == 0 {
        Seq::empty()
    } else {
        chunks[0] + flat_data(chunks.drop_first())
    }
}

/// The wrapped sum of chunks `j .. j + k` at column `q`, accumulated in
/// arrival order: the value a streaming accumulation emits after its
/// window fills.
pub open spec fn chunk_sum(chunks: Seq<Seq<i64>>, j: int, k: int, q: int) -> i64
    decreases k,
{
    if k <= 0 {
        0i64
    } else {
        chunk_sum(chunks, j, k - 1, q).wrapping_add(chunks[j + k - 1][q])
    }
}

/// Indexing the concatenation of equal-sized rows.
proof fn lemma_flat_index(chunks: Seq<Seq<i64>>, rs: int, r: int, q: int)
    requires
        forall|c: int| 0 <= c < chunks.len() ==> (#[trigger] chunks[c]).len() == rs,
        0 <= q < rs,
        0 <= r < chunks.len(),
    ensures
        flat_data(chunks).len() == chunks.len() * rs,
        flat_data(chunks)[r * rs + q] == chunks[r][q],
    decreases chunks.len(),
{
    lemma_flat_len(chunks, rs);
    if r == 0 {
        assert(flat_data(chunks)[q] == chunks[0][q]);
    } else {
        lemma_flat_index(chunks.drop_first(), rs, r - 1, q);
        lemma_flat_len(chunks.drop_first(), rs);
        assert(r * rs == (r - 1) * rs + rs) by (nonlinear_arith);
        assert((r - 1) * rs >= 0) by (nonlinear_arith)
            requires
                r >= 1,
                rs > 0,
        {}
        assert((r - 1) * rs + q < (chunks.len() - 1) * rs) by (nonlinear_arith)
            requires
                1 <= r < chunks.len(),
                0 <= q < rs,
        {}
        assert(chunks[0].len() == rs);
        assert(flat_data(chunks)[r * rs + q] == flat_data(chunks.drop_first())[(r - 1) * rs + q]);
    }
}

proof fn lemma_flat_len(chunks: Seq<Seq<i64>>, rs: int)
    requires
        forall|c: int| 0 <= c < chunks.len() ==> (#[trigger] chunks[c]).len() == rs,
    ensures
        flat_data(chunks).len() == chunks.len() * rs,
    decreases chunks.len(),
{
    if chunks.len() == 0 {
    } else {
        lemma_flat_len(chunks.drop_first(), rs);
        assert(chunks.len() * rs == rs + (chunks.len() - 1) * rs) by (nonlinear_arith);
    }
}

/// A window's wrapped sum over the concatenation is the arrival-order
/// wrapped sum of its chunks.
proof fn lemma_window_is_chunk_sum(chunks: Seq<Seq<i64>>, rs: int, j: int, q: int, k: int)
    requires
        forall|c: int| 0 <= c < chunks.len() ==> (#[trigger] chunks[c]).len() == rs,
        0 <= q < rs,
        0 <= j,
        0 <= k,
        j + k <= chunks.len(),
    ensures
        window_sum(flat_data(chunks), j * rs + q, rs, k) == chunk_sum(chunks, j, k, q),
    decreases k,
{
    if k > 0 {
        lemma_window_is_chunk_sum(chunks, rs, j, q, k - 1);
        lemma_flat_index(chunks, rs, j + k - 1, q);
        assert((j * rs + q) + (k - 1) * rs == (j + k - 1) * rs + q) by (nonlinear_arith);
    }
}

/// Streaming a windowed operator agrees with batch evaluation, row by
/// row: on the concatenation of chunk-granularity-1 chunks, the windowed
/// batch output at row `j`, column `q`, is exactly the wrapped sum of
/// chunks `j .. j + k` at column `q`, accumulated in arrival order — the
/// chunk a streaming accumulation emits at that position.
pub proof fn lemma_streaming_window_matches_batch(
    chunks: Seq<Seq<i64>>,
    t: TensorView,
    k: usize,
    j: int,
    q: int,
)
    requires
        t.data == flat_data(chunks),
        t.shape.len() >= 1,
        t.shape[0] == chunks.len(),
        forall|c: int|
            0 <= c < chunks.len() ==> (#[trigger] chunks[c]).len() == row_size(t.shape),
        1 <= k <= chunks.len(),
        0 <= j,
        j + k <= chunks.len(),
        0 <= q < row_size(t.shape),
    ensures
        eval_ok(Op::MovingSum { window: k }, seq![t]),
        eval_out(Op::MovingSum { window: k }, seq![t]).data[j * row_size(t.shape) + q]
            == chunk_sum(chunks, j, k as int, q),
{
    let rs = row_size(t.shape);
    let n = t.shape[0] as int;
    assert(eval_ok(Op::MovingSum { window: k }, seq![t]));
    let i = j * rs + q;
    assert(0 <= i && i < (n - k + 1) * rs) by (nonlinear_arith)
        requires
            0 <= j,
            j + k <= n,
            0 <= q < rs,
            i == j * rs + q,
    {}
    lemma_flat_len(chunks, rs);
    assert(eval_out(Op::MovingSum { window: k }, seq![t]).data[i] == window_sum(
        t.data,
        i,
        rs,
        k as int,
    ));
    lemma_window_is_chunk_sum(chunks, rs, j, q, k as int);
}

/// The product of the elements of a shape is never negative.
pub proof fn lemma_elem_count_nonneg(s: Seq<usize>)
    ensures
        elem_count(s) >= 0,
    decreases s.len(),
{
    if s.len() > 0 {
        lemma_elem_count_nonneg(s.drop_first());
        vstd::arithmetic::mul::lemma_mul_nonnegative(s[0] as int, elem_count(s.drop_first()));
    }
}

/// When every position before `i` agrees and `i` does not, the scan for
/// the first difference, started at `j`, stops exactly at `i`.
proof fn lemma_first_udiff_at(x: Seq<usize>, y: Seq<usize>, j: int, i: int)
    requires
        0 <= j <= i,
        i < x.len(),
        i < y.len(),
        x[i] != y[i],
        forall|t: int| j <= t < i ==> x[t] == y[t],
    ensures
        first_udiff(x, y, j) == i,
    decreases i - j,
{
    if j < i {
        lemma_first_udiff_at(x, y, j + 1, i);
    }
}

/// Evaluate an operator once on fully concrete inputs.
pub fn eval(op: &Op, inputs: &Vec<Tensor>) -> (r: Result<Vec<Tensor>, TractError>)
    requires
        op.spec_has_eval(),
        op.wf(),
        forall|i: int| 0 <= i < inputs@.len() ==> (#[trigger] inputs@[i])@.wf(),
    ensures
        eval_ok(*op, views_of(inputs@)) ==> (r matches Ok(outs) && outs@.len() == 1 && outs@[0]@
            == eval_out(*op, views_of(inputs@)) && outs@[0]@.wf()),
        !eval_ok(*op, views_of(inputs@)) ==> r == Err::<Vec<Tensor>, TractError>(
            eval_err(*op, views_of(inputs@)),
        ),
{
    match op {
        Op::Source => {
            proof {
                assert(false);
            }
            Err(TractError::PlanError)
        },
        Op::Const(c) => {
            if inputs.len() != 0 {
                return Err(TractError::Arity { expected: 0, actual: inputs.len() });
            }
            let mut out: Vec<Tensor> = Vec::new();
            out.push(c.value.dup());
            Ok(out)
        },
        Op::Identity => {
            if inputs.len() != 1 {
                return Err(TractError::Arity { expected: 1, actual: inputs.len() });
            }
            let mut out: Vec<Tensor> = Vec::new();
            out.push(inputs[0].dup());
            Ok(out)
        },
        Op::Add => eval_add(inputs),
        Op::MovingSum { window } => eval_moving_sum(*window, inputs),
    }
}

/// Elementwise wrapped addition of two tensors of identical type and
/// shape.
fn eval_add(inputs: &Vec<Tensor>) -> (r: Result<Vec<Tensor>, TractError>)
    requires
        forall|i: int| 0 <= i < inputs@.len() ==> (#[trigger] inputs@[i])@.wf(),
    ensures
        eval_ok(Op::Add, views_of(inputs@)) ==> (r matches Ok(outs) && outs@.len() == 1
            && outs@[0]@ == eval_out(Op::Add, views_of(inputs@)) && outs@[0]@.wf()),
        !eval_ok(Op::Add, views_of(inputs@)) ==> r == Err::<Vec<Tensor>, TractError>(
            eval_err(Op::Add, views_of(inputs@)),
        ),
{
    if inputs.len() != 2 {
        return Err(TractError::Arity { expected: 2, actual: inputs.len() });
    }
    let a = &inputs[0];
    let b = &inputs[1];
    if !(a.datum_type == b.datum_type) {
        return Err(TractError::TypeConflict { a: a.datum_type, b: b.datum_type });
    }
    if a.shape.len() != b.shape.len() {
        return Err(TractError::RankMismatch { a: a.shape.len(), b: b.shape.len() });
    }
    let mut i: usize = 0;
    while i < a.shape.len()
        invariant
            inputs@.len() == 2,
            a@ == views_of(inputs@)[0],
            b@ == views_of(inputs@)[1],
            a@.datum_type == b@.datum_type,
            i <= a@.shape.len(),
            a@.shape.len() == b@.shape.len(),
            forall|j: int| 0 <= j < i ==> a@.shape[j] == b@.shape[j],
        decreases a@.shape.len() - i,
    {
        if a.shape[i] != b.shape[i] {
            proof {
                lemma_first_udiff_at(a@.shape, b@.shape, 0, i as int);
                assert(a@.shape[i as int] != b@.shape[i as int]);
            }
            return Err(TractError::ShapeConflict {
                a: Dim::Fixed(a.shape[i]),
                b: Dim::Fixed(b.shape[i]),
            });
        }
        i += 1;
    }
    proof {
        assert(a@.shape =~= b@.shape);
    }
    let n = a.data.len();
    let mut data: Vec<i64> = Vec::new();
    let mut j: usize = 0;
    while j < n
        invariant
            inputs@.len() == 2,
            a@ == views_of(inputs@)[0],
            b@ == views_of(inputs@)[1],
            n == a@.data.len(),
            a@.data.len() == b@.data.len(),
            j <= n,
            data@.len() == j,
            forall|t: int| 0 <= t < j ==> data@[t] == a@.data[t].wrapping_add(b@.data[t]),
        decreases n - j,
    {
        data.push(a.data[j].wrapping_add(b.data[j]));
        j += 1;
    }
    let out = Tensor { datum_type: a.datum_type, shape: crate::tensor::dup_usize_vec(&a.shape), data };
    proof {
        assert(out@.data =~= eval_out(Op::Add, views_of(inputs@)).data);
        assert(out@ == eval_out(Op::Add, views_of(inputs@)));
    }
    let mut outs: Vec<Tensor> = Vec::new();
    outs.push(out);
    Ok(outs)
}

/// The sliding-window sum along the leading axis.
fn eval_moving_sum(window: usize, inputs: &Vec<Tensor>) -> (r: Result<Vec<Tensor>, TractError>)
    requires
        forall|i: int| 0 <= i < inputs@.len() ==> (#[trigger] inputs@[i])@.wf(),
    ensures
        eval_ok(Op::MovingSum { window }, views_of(inputs@)) ==> (r matches Ok(outs) && outs@.len()
            == 1 && outs@[0]@ == eval_out(Op::MovingSum { window }, views_of(inputs@))
            && outs@[0]@.wf()),
        !eval_ok(Op::MovingSum { window }, views_of(inputs@)) ==> r == Err::<
            Vec<Tensor>,
            TractError,
        >(eval_err(Op::MovingSum { window }, views_of(inputs@))),
{
    if inputs.len() != 1 {
        return Err(TractError::Arity { expected: 1, actual: inputs.len() });
    }
    let t = &inputs[0];
    if t.shape.len() < 1 {
        return Err(TractError::RankMismatch { a: 0, b: 1 });
    }
    let n = t.shape[0];
    if window < 1 || window > n {
        return Err(TractError::ShapeConflict { a: Dim::Fixed(n), b: Dim::Fixed(window) });
    }
    proof {
        assert(elem_count(t@.shape) == n * row_size(t@.shape));
        lemma_elem_count_nonneg(t@.shape.drop_first());
    }
    let rs = t.data.len() / n;
    proof {
        vstd::arithmetic::div_mod::lemma_div_multiples_vanish(
            row_size(t@.shape),
            n as int,
        );
        assert(rs == row_size(t@.shape));
    }
    let m = n - window + 1;
    let total = t.data.len();
    proof {
        vstd::arithmetic::mul::lemma_mul_inequality(m as int, n as int, rs as int);
        assert(m * rs <= n * rs);
    }
    let out_len = m * rs;
    let mut data: Vec<i64> = Vec::new();
    let mut i: usize = 0;
    while i < out_len
        invariant
            inputs@.len() == 1,
            t@ == views_of(inputs@)[0],
            t@.shape.len() >= 1,
            rs >= 0,
            t@.wf(),
            1 <= window <= n,
            n == t@.shape[0],
            t@.shape.len() >= 1,
            rs == row_size(t@.shape),
            out_len == (n - window + 1) * rs,
            out_len <= t@.data.len(),
            t@.data.len() == n * rs,
            total == t@.data.len(),
            i <= out_len,
            data@.len() == i,
            forall|j: int| 0 <= j < i ==> data@[j] == window_sum(t@.data, j, rs as int, window as int),
        decreases out_len - i,
    {
        let mut acc: i64 = 0;
        let mut w: usize = 0;
        proof {
            assert(window_sum(t@.data, i as int, rs as int, 0) == 0i64);
        }
        while w < window
            invariant
                inputs@.len() == 1,
                t@ == views_of(inputs@)[0],
                t@.shape.len() >= 1,
                1 <= window <= n,
                n == t@.shape[0],
                rs == row_size(t@.shape),
                rs >= 0,
                out_len == (n - window + 1) * rs,
                t@.data.len() == n * rs,
                total == t@.data.len(),
                i < out_len,
                w <= window,
                acc == window_sum(t@.data, i as int, rs as int, w as int),
            decreases window - w,
        {
            proof {
                assert(0 <= (w as int) * (rs as int) && (i as int) + (w as int) * (rs as int) < (
                n as int) * (rs as int)) by (nonlinear_arith)
                    requires
                        0 <= (i as int) < ((n as int) - (window as int) + 1) * (rs as int),
                        0 <= (w as int) < (window as int),
                        0 <= (rs as int),
                        1 <= (window as int) <= (n as int),
                {}
                assert((n as int) * (rs as int) == t@.data.len());
            }
            let idx = i + w * rs;
            acc = acc.wrapping_add(t.data[idx]);
            w += 1;
        }
        data.push(acc);
        i += 1;
    }
    let mut shape = crate::tensor::dup_usize_vec(&t.shape);
    shape.set(0, m);
    let out = Tensor { datum_type: t.datum_type, shape, data };
    proof {
        let vs = views_of(inputs@);
        assert(out@.shape =~= moving_sum_view(vs[0], window).shape);
        assert(out@.data =~= moving_sum_view(vs[0], window).data);
        assert(out@.shape.drop_first() =~= t@.shape.drop_first());
        assert(elem_count(out@.shape) == (m as int) * row_size(t@.shape));
        assert(out@.wf());
    }
    let mut outs: Vec<Tensor> = Vec::new();
    outs.push(out);
    Ok(outs)
}

} // verus!
