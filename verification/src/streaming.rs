//! The streaming planner and state: a graph built for whole-tensor batch
//! evaluation is executed incrementally, one input chunk at a time, with
//! per-node buffering and value-semantic cloning for speculative use.

use vstd::prelude::*;
use vstd::pervasive::VecAdditionalExecFns;
use crate::fact::{DatumType, Dim, Fact, ShapeFact, TractError};
use crate::tensor::{tensor_is_wf, Tensor, TensorFact, TensorFactView, TensorView};
use crate::ops::{eval, eval_err, eval_ok, eval_out, Op};
use crate::solver::{at_fixpoint_v, Graph, Node, NodeView, node_views};

verus! {

/// One axis of a declared streaming input: a fixed length, or the single
/// axis along which data arrives chunk by chunk.
#[derive(Clone, Copy, Debug, PartialEq, Eq, Structural)]
pub enum AxisDecl {
    Fixed(usize),
    Streamed,
}

/// Spec-level image of a streaming input declaration.
pub ghost struct DeclView {
    pub edge: usize,
    pub datum_type: DatumType,
    pub axes: Seq<AxisDecl>,
}

/// A model input selected for streaming: the edge it feeds, its element
/// type, and a descriptor per axis (at most one axis streamed).
#[derive(Debug)]
pub struct InputDecl {
    pub edge: usize,
    pub datum_type: DatumType,
    pub axes: Vec<AxisDecl>,
}

impl View for InputDecl {
    type V = DeclView;

    open spec fn view(&self) -> DeclView {
        DeclView { edge: self.edge, datum_type: self.datum_type, axes: self.axes@ }
    }
}

/// The buffering strategy the planner assigns to one node.
#[derive(Clone, Copy, Debug, PartialEq, Eq, Structural)]
pub enum BufStrategy {
    /// The node takes no part in streaming: sources, constants, and nodes
    /// all of whose inputs are static.
    Inert,
    /// One chunk in on every streamed input, one chunk out.
    PassThrough,
    /// The node needs `window` buffered chunks before it can emit one,
    /// and then slides forward by one chunk.
    Accumulate { window: usize },
}

/// A submitted chunk fits its declaration: right element type, right
/// rank, the declared length on each fixed axis and length 1 on the
/// streamed axis.
pub open spec fn chunk_matches(d: DeclView, t: TensorView) -> bool {
    &&& t.datum_type == d.datum_type
    &&& t.shape.len() == d.axes.len()
    &&& forall|i: int|
        0 <= i < d.axes.len() ==> match #[trigger] d.axes[i] {
            AxisDecl::Fixed(l) => t.shape[i] == l,
            AxisDecl::Streamed => t.shape[i] == 1,
        }
}

/// Spec-level image of a streaming state.
pub ghost struct StreamView {
    pub nodes: Seq<NodeView>,
    pub edges: Seq<TensorFactView>,
    pub strategies: Seq<BufStrategy>,
    pub streamed: Seq<bool>,
    pub decls: Seq<DeclView>,
    pub buffers: Seq<Seq<TensorView>>,
    pub positions: Seq<usize>,
    pub target: Option<usize>,
}

/// Two states carry the same plan: the same graph, strategies and
/// declarations.  Only the buffers and positions may differ.
pub open spec fn same_plan(a: StreamView, b: StreamView) -> bool {
    &&& a.nodes == b.nodes
    &&& a.edges == b.edges
    &&& a.strategies == b.strategies
    &&& a.streamed == b.streamed
    &&& a.decls == b.decls
    &&& a.target == b.target
}

/// Every chunk buffered anywhere is a well-formed tensor.
pub open spec fn buf_all_wf(bufs: Seq<Vec<Tensor>>) -> bool {
    forall|e: int, j: int|
        0 <= e < bufs.len() && 0 <= j < bufs[e]@.len() ==> (#[trigger] bufs[e]@[j])@.wf()
}

/// The mutable-but-cloneable execution state of a streaming run.  It owns
/// the solved graph plan, the buffered-but-not-yet-consumed chunks of
/// every edge, and the cumulative position along each declared input.
/// Nothing here aliases the caller's graph: everything is copied at
/// construction time.
#[derive(Debug)]
pub struct StreamingState {
    pub graph: Graph,
    pub strategies: Vec<BufStrategy>,
    pub streamed: Vec<bool>,
    pub decls: Vec<InputDecl>,
    pub buffers: Vec<Vec<Tensor>>,
    pub positions: Vec<usize>,
    pub target: Option<usize>,
}

impl View for StreamingState {
    type V = StreamView;

    open spec fn view(&self) -> StreamView {
        StreamView {
            nodes: node_views(self.graph.nodes@),
            edges: self.graph.edge_views(),
            strategies: self.strategies@,
            streamed: self.streamed@,
            decls: Seq::new(self.decls@.len(), |i: int| self.decls@[i]@),
            buffers: Seq::new(
                self.buffers@.len(),
                |e: int| Seq::new(self.buffers@[e]@.len(), |j: int| self.buffers@[e]@[j]@),
            ),
            positions: self.positions@,
            target: self.target,
        }
    }
}

/// Append a chunk to one edge's buffer.
fn buf_push(bufs: &mut Vec<Vec<Tensor>>, e: usize, t: Tensor)
    requires
        e < old(bufs)@.len(),
    ensures
        final(bufs)@.len() == old(bufs)@.len(),
        final(bufs)@[e as int]@ == old(bufs)@[e as int]@.push(t),
        forall|i: int|
            0 <= i < old(bufs)@.len() && i != e ==> final(bufs)@[i] == #[trigger] old(bufs)@[i],
        buf_all_wf(old(bufs)@) && t@.wf() ==> buf_all_wf(final(bufs)@),
{
    let mut row: Vec<Tensor> = Vec::new();
    bufs.set_and_swap(e, &mut row);
    row.push(t);
    bufs.set_and_swap(e, &mut row);
    proof {
        if buf_all_wf(old(bufs)@) && t@.wf() {
            assert forall|i: int, j: int|
                0 <= i < final(bufs)@.len() && 0 <= j < final(bufs)@[i]@.len() implies (
            #[trigger] final(bufs)@[i]@[j])@.wf() by {
                if i == e {
                    if j < old(bufs)@[i]@.len() {
                        assert(final(bufs)@[i]@[j] == old(bufs)@[i]@[j]);
                    } else {
                        assert(final(bufs)@[i]@[j] == t);
                    }
                } else {
                    assert(final(bufs)@[i] == old(bufs)@[i]);
                }
            }
        }
    }
}

/// Take the oldest chunk out of one edge's buffer.
fn buf_pop_front(bufs: &mut Vec<Vec<Tensor>>, e: usize) -> (t: Tensor)
    requires
        e < old(bufs)@.len(),
        old(bufs)@[e as int]@.len() >= 1,
    ensures
        t == old(bufs)@[e as int]@[0],
        final(bufs)@.len() == old(bufs)@.len(),
        final(bufs)@[e as int]@ == old(bufs)@[e as int]@.subrange(
            1,
            old(bufs)@[e as int]@.len() as int,
        ),
        forall|i: int|
            0 <= i < old(bufs)@.len() && i != e ==> final(bufs)@[i] == #[trigger] old(bufs)@[i],
        buf_all_wf(old(bufs)@) ==> (buf_all_wf(final(bufs)@) && t@.wf()),
{
    let mut row: Vec<Tensor> = Vec::new();
    bufs.set_and_swap(e, &mut row);
    let t = row.remove(0);
    bufs.set_and_swap(e, &mut row);
    proof {
        assert(final(bufs)@[e as int]@ =~= old(bufs)@[e as int]@.subrange(
            1,
            old(bufs)@[e as int]@.len() as int,
        ));
        if buf_all_wf(old(bufs)@) {
            assert forall|i: int, j: int|
                0 <= i < final(bufs)@.len() && 0 <= j < final(bufs)@[i]@.len() implies (
            #[trigger] final(bufs)@[i]@[j])@.wf() by {
                if i == e {
                    assert(final(bufs)@[i]@[j] == old(bufs)@[i]@[j + 1]);
                } else {
                    assert(final(bufs)@[i] == old(bufs)@[i]);
                }
            }
        }
    }
    t
}

impl StreamingState {
    /// Structurally sound: the plan covers every node, a buffer exists
    /// for every edge, every index is in range, and every buffered chunk
    /// is a well-formed tensor.
    pub open spec fn wf(self) -> bool {
        &&& self.graph.wf()
        &&& self.strategies@.len() == self.graph.nodes@.len()
        &&& self.streamed@.len() == self.graph.edges@.len()
        &&& self.buffers@.len() == self.graph.edges@.len()
        &&& self.positions@.len() == self.decls@.len()
        &&& forall|i: int|
            0 <= i < self.decls@.len() ==> (#[trigger] self.decls@[i]).edge
                < self.graph.edges@.len()
        &&& (self.target matches Some(t) ==> t < self.graph.edges@.len())
        &&& forall|n: int|
            0 <= n < self.graph.nodes@.len() ==> (#[trigger] self.graph.nodes@[n]).outputs@.len()
                == 1
        &&& buf_all_wf(self.buffers@)
    }

    /// The cumulative position along one declared input.
    pub fn position(&self, input_index: usize) -> (r: usize)
        requires
            input_index < self.positions@.len(),
        ensures
            r == self@.positions[input_index as int],
    {
        self.positions[input_index]
    }

    /// How many chunks sit unconsumed in one edge's buffer.
    pub fn buffered(&self, edge: usize) -> (r: usize)
        requires
            edge < self.buffers@.len(),
        ensures
            r == self@.buffers[edge as int].len(),
    {
        self.buffers[edge].len()
    }

    /// A fully independent snapshot: the plan, every buffer and every
    /// counter are copied by value, so advancing either state is never
    /// observable on the other.
    pub fn duplicate(&self) -> (r: StreamingState)
        ensures
            r@ == self@,
            self.wf() ==> r.wf(),
    {
        let graph = self.graph.dup();
        let mut strategies: Vec<BufStrategy> = Vec::new();
        let mut i: usize = 0;
        while i < self.strategies.len()
            invariant
                i <= self.strategies@.len(),
                strategies@.len() == i,
                forall|j: int| 0 <= j < i ==> strategies@[j] == self.strategies@[j],
            decreases self.strategies@.len() - i,
        {
            strategies.push(self.strategies[i]);
            i += 1;
        }
        let mut streamed: Vec<bool> = Vec::new();
        let mut i2: usize = 0;
        while i2 < self.streamed.len()
            invariant
                i2 <= self.streamed@.len(),
                streamed@.len() == i2,
                forall|j: int| 0 <= j < i2 ==> streamed@[j] == self.streamed@[j],
            decreases self.streamed@.len() - i2,
        {
            streamed.push(self.streamed[i2]);
            i2 += 1;
        }
        let mut decls: Vec<InputDecl> = Vec::new();
        let mut i3: usize = 0;
        while i3 < self.decls.len()
            invariant
                i3 <= self.decls@.len(),
                decls@.len() == i3,
                forall|j: int| 0 <= j < i3 ==> (#[trigger] decls@[j])@ == self.decls@[j]@,
            decreases self.decls@.len() - i3,
        {
            let d = &self.decls[i3];
            let mut axes: Vec<AxisDecl> = Vec::new();
            let mut a: usize = 0;
            while a < d.axes.len()
                invariant
                    a <= d.axes@.len(),
                    axes@.len() == a,
                    forall|j: int| 0 <= j < a ==> axes@[j] == d.axes@[j],
                decreases d.axes@.len() - a,
            {
                axes.push(d.axes[a]);
                a += 1;
            }
            proof {
                assert(axes@ =~= d.axes@);
            }
            decls.push(InputDecl { edge: d.edge, datum_type: d.datum_type, axes });
            i3 += 1;
        }
        let mut buffers: Vec<Vec<Tensor>> = Vec::new();
        let mut e: usize = 0;
        while e < self.buffers.len()
            invariant
                e <= self.buffers@.len(),
                buffers@.len() == e,
                forall|i4: int|
                    0 <= i4 < e ==> (#[trigger] buffers@[i4])@.len() == self.buffers@[i4]@.len(),
                forall|i4: int, j: int|
                    0 <= i4 < e && 0 <= j < buffers@[i4]@.len() ==> (#[trigger] buffers@[i4]@[j])@
                        == self.buffers@[i4]@[j]@,
            decreases self.buffers@.len() - e,
        {
            let row = &self.buffers[e];
            let mut out_row: Vec<Tensor> = Vec::new();
            let mut j: usize = 0;
            while j < row.len()
                invariant
                    j <= row@.len(),
                    out_row@.len() == j,
                    forall|t: int| 0 <= t < j ==> (#[trigger] out_row@[t])@ == row@[t]@,
                decreases row@.len() - j,
            {
                out_row.push(row[j].dup());
                j += 1;
            }
            buffers.push(out_row);
            e += 1;
        }
        let mut positions: Vec<usize> = Vec::new();
        let mut p: usize = 0;
        while p < self.positions.len()
            invariant
                p <= self.positions@.len(),
                positions@.len() == p,
                forall|j: int| 0 <= j < p ==> positions@[j] == self.positions@[j],
            decreases self.positions@.len() - p,
        {
            positions.push(self.positions[p]);
            p += 1;
        }
        let r = StreamingState {
            graph,
            strategies,
            streamed,
            decls,
            buffers,
            positions,
            target: self.target,
        };
        proof {
            assert(r@.strategies =~= self@.strategies);
            assert(r@.streamed =~= self@.streamed);
            assert(r@.decls =~= self@.decls);
            assert(r@.positions =~= self@.positions);
            assert forall|e2: int| 0 <= e2 < r@.buffers.len() implies r@.buffers[e2]
                =~= self@.buffers[e2] by {}
            assert(r@.buffers =~= self@.buffers);
            assert(r@ == self@);
            if self.wf() {
                assert forall|i5: int| 0 <= i5 < r.decls@.len() implies (
                #[trigger] r.decls@[i5]).edge < r.graph.edges@.len() by {
                    assert(r.decls@[i5]@ == self.decls@[i5]@);
                }
                assert forall|n2: int| 0 <= n2 < r.graph.nodes@.len() implies (
                #[trigger] r.graph.nodes@[n2]).outputs@.len() == 1 by {
                    assert(node_views(r.graph.nodes@)[n2] == node_views(self.graph.nodes@)[n2]);
                }
                assert forall|e2: int, j: int|
                    0 <= e2 < r.buffers@.len() && 0 <= j < r.buffers@[e2]@.len() implies (
                #[trigger] r.buffers@[e2]@[j])@.wf() by {
                    assert(r.buffers@[e2]@[j]@ == self.buffers@[e2]@[j]@);
                }
            }
        }
        r
    }

    /// Build a streaming state: refine each declared input's fact with
    /// its declared axes (a disagreement is a fatal conflict), run the
    /// inference solver to a fixpoint, and assign each node its buffering
    /// strategy.  An input declaring more than one streamed axis, a plan
    /// that cannot order the data flow, or an unresolved static input is
    /// rejected.
    pub fn start(
        graph: Graph,
        decls: Vec<InputDecl>,
        target: Option<usize>,
        max_passes: usize,
    ) -> (r: Result<StreamingState, TractError>)
        requires
            graph.wf(),
            max_passes >= 1,
        ensures
            r matches Ok(s) ==> {
                &&& s.wf()
                &&& at_fixpoint_v(s.graph.nodes@, s.graph.edge_views())
                &&& forall|e: int|
                    0 <= e < s@.buffers.len() ==> (#[trigger] s@.buffers[e]).len() == 0
                &&& forall|i: int|
                    0 <= i < s@.positions.len() ==> (#[trigger] s@.positions[i]) == 0
                &&& s@.positions.len() == decls@.len()
                &&& s@.target == target
            },
            start_ready(
                graph.nodes@,
                graph.edge_views(),
                Seq::new(decls@.len(), |i: int| decls@[i]@),
                target,
            ) ==> r is Ok,
    {
        let ghost nodes0 = graph.nodes@;
        let ghost views0 = graph.edge_views();
        let ghost decls_v = Seq::new(decls@.len(), |i: int| decls@[i]@);
        let ghost ready = start_ready(nodes0, views0, decls_v, target);
        let mut g = graph;
        let n_edges = g.edges.len();
        let n_nodes = g.nodes.len();
        if let Some(t) = target {
            if t >= n_edges {
                proof {
                    assert(!ready);
                }
                return Err(TractError::PlanError);
            }
        }
        let mut d: usize = 0;
        while d < decls.len()
            invariant
                g.wf(),
                nodes0 == g.nodes@,
                n_edges == g.edges@.len(),
                n_nodes == g.nodes@.len(),
                d <= decls@.len(),
                decls_v == Seq::new(decls@.len(), |i: int| decls@[i]@),
                ready == start_ready(nodes0, views0, decls_v, target),
                ready == start_ready(
                    graph.nodes@,
                    graph.edge_views(),
                    Seq::new(decls@.len(), |i: int| decls@[i]@),
                    target,
                ),
                views0.len() == n_edges,
                forall|i: int| 0 <= i < d ==> (#[trigger] decls@[i]).edge < n_edges,
                ready ==> g.edge_views() == views0,
            decreases decls@.len() - d,
        {
            let decl = &decls[d];
            proof {
                assert(decls_v[d as int] == decl@);
            }
            if decl.edge >= n_edges {
                proof {
                    if ready {
                        assert(decls_v[d as int].edge < views0.len());
                        assert(false);
                    }
                }
                return Err(TractError::PlanError);
            }
            let mut n_streamed: usize = 0;
            let mut dims: Vec<Fact<Dim>> = Vec::new();
            let mut a: usize = 0;
            while a < decl.axes.len()
                invariant
                    a <= decl.axes@.len(),
                    dims@.len() == a,
                    n_streamed == streamed_upto(decl.axes@, a as int),
                    n_streamed <= a,
                    forall|j: int| 0 <= j < a ==> dims@[j] == decl_dims(decl.axes@)[j],
                decreases decl.axes@.len() - a,
            {
                match decl.axes[a] {
                    AxisDecl::Fixed(l) => {
                        dims.push(Fact::Only(Dim::Fixed(l)));
                    },
                    AxisDecl::Streamed => {
                        n_streamed += 1;
                        dims.push(Fact::Any);
                    },
                }
                a += 1;
            }
            if n_streamed > 1 {
                proof {
                    if ready {
                        assert(streamed_upto(
                            decls_v[d as int].axes,
                            decls_v[d as int].axes.len() as int,
                        ) <= 1);
                        assert(false);
                    }
                }
                return Err(TractError::PlanError);
            }
            let decl_fact = TensorFact {
                datum_type: Fact::Only(decl.datum_type),
                shape: ShapeFact::closed(dims),
                value: Fact::Any,
            };
            proof {
                assert(decl_fact@.shape.dims =~= decl_dims(decl.axes@));
                assert(decl_fact@ == decl_fact_view(decls_v[d as int]));
            }
            let merged = match g.edges[decl.edge].unify(&decl_fact) {
                Ok(m) => m,
                Err(e) => {
                    proof {
                        if ready {
                            assert(views0[decls_v[d as int].edge as int].unify_ok(
                                decl_fact_view(decls_v[d as int]),
                            ));
                            assert(false);
                        }
                    }
                    return Err(e);
                },
            };
            let ghost pre = g.edge_views();
            g.edges.set(decl.edge, merged);
            proof {
                assert(g.edge_views() =~= pre.update(
                    decl.edge as int,
                    pre[decl.edge as int].unified(decl_fact@),
                ));
                assert(crate::helpers::facts_wf(g.edge_views())) by {
                    let vs2 = g.edge_views();
                    assert forall|e2: int|
                        0 <= e2 < n_edges && (#[trigger] vs2[e2]).value is Only implies vs2[e2].value->0.wf() by {
                        if e2 != decl.edge as int {
                            assert(vs2[e2] == pre[e2]);
                        }
                    }
                }
                if ready {
                    crate::tensor::lemma_tfact_unify_unchanged(
                        pre[decl.edge as int],
                        decl_fact@,
                    );
                    assert(g.edge_views() =~= views0);
                }
            }
            d += 1;
        }
        proof {
            if ready {
                assert(at_fixpoint_v(g.nodes@, g.edge_views()));
            }
        }
        match g.analyse(max_passes) {
            Ok(_) => {},
            Err(e) => {
                proof {
                    if ready {
                        assert(false);
                    }
                }
                return Err(e);
            },
        }
        proof {
            if ready {
                assert(g.edge_views() == views0);
            }
        }
        let mut streamed: Vec<bool> = Vec::new();
        let mut e: usize = 0;
        while e < n_edges
            invariant
                e <= n_edges,
                streamed@.len() == e,
                forall|j: int| 0 <= j < e ==> !(#[trigger] streamed@[j]),
            decreases n_edges - e,
        {
            streamed.push(false);
            e += 1;
        }
        let mut consumed: Vec<bool> = Vec::new();
        let mut e2: usize = 0;
        while e2 < n_edges
            invariant
                e2 <= n_edges,
                consumed@.len() == e2,
                forall|j: int| 0 <= j < e2 ==> !(#[trigger] consumed@[j]),
            decreases n_edges - e2,
        {
            consumed.push(false);
            e2 += 1;
        }
        let mut d2: usize = 0;
        while d2 < decls.len()
            invariant
                n_edges == g.edges@.len(),
                streamed@.len() == n_edges,
                decls_v == Seq::new(decls@.len(), |i: int| decls@[i]@),
                d2 <= decls@.len(),
                forall|i: int| 0 <= i < decls@.len() ==> (#[trigger] decls@[i]).edge < n_edges,
                forall|ed: int|
                    0 <= ed < n_edges ==> ((#[trigger] streamed@[ed]) <==> exists|i: int|
                        0 <= i < d2 && (#[trigger] decls@[i]).edge == ed),
            decreases decls@.len() - d2,
        {
            let ghost pre_streamed = streamed@;
            let de = decls[d2].edge;
            streamed.set(de, true);
            proof {
                assert forall|ed: int| 0 <= ed < n_edges implies ((#[trigger] streamed@[ed])
                    <==> exists|i: int| 0 <= i < d2 + 1 && (#[trigger] decls@[i]).edge == ed) by {
                    if ed == de as int {
                        assert(decls@[d2 as int].edge == ed);
                    } else {
                        assert(streamed@[ed] == pre_streamed[ed]);
                    }
                }
            }
            d2 += 1;
        }
        let ghost st0 = streamed@;
        let ghost co0 = consumed@;
        let ghost views_p = g.edge_views();
        proof {
            assert forall|ed: int| 0 <= ed < n_edges implies st0[ed] == decl_streamed(
                decls_v,
                n_edges as int,
            )[ed] by {
                if exists|i: int| 0 <= i < decls@.len() && (#[trigger] decls@[i]).edge == ed {
                    let i = choose|i: int|
                        0 <= i < decls@.len() && (#[trigger] decls@[i]).edge == ed;
                    assert(decls_v[i].edge == ed);
                }
                if exists|i: int| 0 <= i < decls_v.len() && (#[trigger] decls_v[i]).edge == ed {
                    let i = choose|i: int|
                        0 <= i < decls_v.len() && (#[trigger] decls_v[i]).edge == ed;
                    assert(decls@[i].edge == ed);
                }
            }
            assert(st0 =~= decl_streamed(decls_v, n_edges as int));
            assert(co0 =~= Seq::new(n_edges as nat, |ed: int| false));
            assert(plan_fold(nodes0, views_p, st0, co0, 0) == Ok::<
                (Seq<bool>, Seq<bool>, Seq<BufStrategy>),
                TractError,
            >((st0, co0, Seq::<BufStrategy>::empty())));
        }
        let mut strategies: Vec<BufStrategy> = Vec::new();
        let mut n: usize = 0;
        while n < n_nodes
            invariant
                g.wf(),
                g.at_fixpoint(),
                nodes0 == g.nodes@,
                n_nodes == g.nodes@.len(),
                n_edges == g.edges@.len(),
                views_p == g.edge_views(),
                ready == start_ready(nodes0, views0, decls_v, target),
                ready == start_ready(
                    graph.nodes@,
                    graph.edge_views(),
                    Seq::new(decls@.len(), |i: int| decls@[i]@),
                    target,
                ),
                ready ==> views_p == views0,
                st0 == decl_streamed(decls_v, n_edges as int),
                co0 == Seq::new(n_edges as nat, |ed: int| false),
                views0.len() == n_edges,
                streamed@.len() == n_edges,
                consumed@.len() == n_edges,
                n <= n_nodes,
                strategies@.len() == n,
                plan_fold(nodes0, views_p, st0, co0, n as int) == Ok::<
                    (Seq<bool>, Seq<bool>, Seq<BufStrategy>),
                    TractError,
                >((streamed@, consumed@, strategies@)),
                forall|k: int| 0 <= k < n ==> (#[trigger] g.nodes@[k]).outputs@.len() == 1,
            decreases n_nodes - n,
        {
            let ghost node0 = g.nodes@[n as int];
            let ghost st_enter = streamed@;
            let ghost co_enter = consumed@;
            if g.nodes[n].outputs.len() != 1 {
                proof {
                    assert(plan_step(node0, views_p, st_enter, co_enter) is Err);
                    assert(plan_fold(nodes0, views_p, st0, co0, n + 1) is Err);
                    lemma_plan_fold_err(nodes0, views_p, st0, co0, n + 1, n_nodes as int);
                    if ready {
                        assert(views_p == views0);
                        assert(st0 == decl_streamed(decls_v, views0.len() as int));
                        assert(co0 =~= Seq::new(views0.len() as nat, |ed: int| false));
                        assert(plan_fold(
                            nodes0,
                            views0,
                            decl_streamed(decls_v, views0.len() as int),
                            Seq::new(views0.len() as nat, |ed: int| false),
                            nodes0.len() as int,
                        ) is Ok);
                        assert(false);
                    }
                }
                return Err(
                    TractError::Arity { expected: 1, actual: g.nodes[n].outputs.len() },
                );
            }
            let n_ins = g.nodes[n].inputs.len();
            let mut any_streamed = false;
            let mut i: usize = 0;
            while i < n_ins
                invariant
                    g.wf(),
                    n_nodes == g.nodes@.len(),
                    n_edges == g.edges@.len(),
                    streamed@.len() == n_edges,
                    n < n_nodes,
                    node0 == g.nodes@[n as int],
                    n_ins == node0.inputs@.len(),
                    i <= n_ins,
                    any_streamed == exists|j: int|
                        0 <= j < i && streamed@[(#[trigger] node0.inputs@[j]) as int],
                decreases n_ins - i,
            {
                let ie = g.nodes[n].inputs[i];
                if streamed[ie] {
                    any_streamed = true;
                }
                i += 1;
            }
            proof {
                assert(any_streamed == any_streamed_in(node0.inputs@, streamed@));
            }
            if !any_streamed {
                strategies.push(BufStrategy::Inert);
                proof {
                    assert(plan_step(node0, views_p, st_enter, co_enter) == Ok::<
                        (Seq<bool>, Seq<bool>, BufStrategy),
                        TractError,
                    >((st_enter, co_enter, BufStrategy::Inert)));
                }
            } else {
                let mut i2: usize = 0;
                while i2 < n_ins
                    invariant
                        g.wf(),
                        n_nodes == g.nodes@.len(),
                        n_edges == g.edges@.len(),
                        views_p == g.edge_views(),
                        nodes0 == g.nodes@,
                        ready == start_ready(nodes0, views0, decls_v, target),
                        ready == start_ready(
                            graph.nodes@,
                            graph.edge_views(),
                            Seq::new(decls@.len(), |i: int| decls@[i]@),
                            target,
                        ),
                        ready ==> views_p == views0,
                        st0 == decl_streamed(decls_v, n_edges as int),
                        co0 == Seq::new(n_edges as nat, |ed: int| false),
                        views0.len() == n_edges,
                        strategies@.len() == n,
                        plan_fold(nodes0, views_p, st0, co0, n as int) == Ok::<
                            (Seq<bool>, Seq<bool>, Seq<BufStrategy>),
                            TractError,
                        >((st_enter, co_enter, strategies@)),
                        any_streamed_in(node0.inputs@, st_enter),
                        node0.outputs@.len() == 1,
                        streamed@ == st_enter,
                        streamed@.len() == n_edges,
                        consumed@.len() == n_edges,
                        n < n_nodes,
                        node0 == g.nodes@[n as int],
                        n_ins == node0.inputs@.len(),
                        i2 <= n_ins,
                        plan_inputs(node0.inputs@, views_p, st_enter, co_enter, i2 as int) == Ok::<
                            Seq<bool>,
                            TractError,
                        >(consumed@),
                    decreases n_ins - i2,
                {
                    let ghost co_pre = consumed@;
                    let ie = g.nodes[n].inputs[i2];
                    if streamed[ie] {
                        if consumed[ie] {
                            proof {
                                assert(plan_inputs(
                                    node0.inputs@,
                                    views_p,
                                    st_enter,
                                    co_enter,
                                    i2 + 1,
                                ) is Err);
                                lemma_plan_inputs_err(
                                    node0.inputs@,
                                    views_p,
                                    st_enter,
                                    co_enter,
                                    i2 + 1,
                                    n_ins as int,
                                );
                                assert(plan_step(node0, views_p, st_enter, co_enter) is Err);
                                assert(plan_fold(nodes0, views_p, st0, co0, n + 1) is Err);
                                lemma_plan_fold_err(nodes0, views_p, st0, co0, n + 1, n_nodes as int);
                                if ready {
                                    assert(views_p == views0);
                                    assert(st0 == decl_streamed(decls_v, views0.len() as int));
                                    assert(co0 =~= Seq::new(views0.len() as nat, |ed: int| false));
                                    assert(plan_fold(
                                        nodes0,
                                        views0,
                                        decl_streamed(decls_v, views0.len() as int),
                                        Seq::new(views0.len() as nat, |ed: int| false),
                                        nodes0.len() as int,
                                    ) is Ok);
                                    assert(false);
                                }
                            }
                            return Err(TractError::PlanError);
                        }
                        consumed.set(ie, true);
                        proof {
                            assert(consumed@ =~= co_pre.update(ie as int, true));
                        }
                    } else {
                        if !matches!(g.edges[ie].value, Fact::Only(_)) {
                            proof {
                                assert(!(views_p[ie as int].value is Only));
                                assert(plan_inputs(
                                    node0.inputs@,
                                    views_p,
                                    st_enter,
                                    co_enter,
                                    i2 + 1,
                                ) is Err);
                                lemma_plan_inputs_err(
                                    node0.inputs@,
                                    views_p,
                                    st_enter,
                                    co_enter,
                                    i2 + 1,
                                    n_ins as int,
                                );
                                assert(plan_step(node0, views_p, st_enter, co_enter) is Err);
                                assert(plan_fold(nodes0, views_p, st0, co0, n + 1) is Err);
                                lemma_plan_fold_err(nodes0, views_p, st0, co0, n + 1, n_nodes as int);
                                if ready {
                                    assert(views_p == views0);
                                    assert(st0 == decl_streamed(decls_v, views0.len() as int));
                                    assert(co0 =~= Seq::new(views0.len() as nat, |ed: int| false));
                                    assert(plan_fold(
                                        nodes0,
                                        views0,
                                        decl_streamed(decls_v, views0.len() as int),
                                        Seq::new(views0.len() as nat, |ed: int| false),
                                        nodes0.len() as int,
                                    ) is Ok);
                                    assert(false);
                                }
                            }
                            return Err(TractError::Unresolved { edge: ie });
                        }
                        proof {
                            assert(views_p[ie as int].value is Only);
                        }
                    }
                    i2 += 1;
                }
                let strategy = match &g.nodes[n].op {
                    Op::MovingSum { window } => {
                        if *window < 1 {
                            proof {
                                assert(plan_step(node0, views_p, st_enter, co_enter) is Err);
                                assert(plan_fold(nodes0, views_p, st0, co0, n + 1) is Err);
                                lemma_plan_fold_err(nodes0, views_p, st0, co0, n + 1, n_nodes as int);
                                if ready {
                                    assert(views_p == views0);
                                    assert(st0 == decl_streamed(decls_v, views0.len() as int));
                                    assert(co0 =~= Seq::new(views0.len() as nat, |ed: int| false));
                                    assert(plan_fold(
                                        nodes0,
                                        views0,
                                        decl_streamed(decls_v, views0.len() as int),
                                        Seq::new(views0.len() as nat, |ed: int| false),
                                        nodes0.len() as int,
                                    ) is Ok);
                                    assert(false);
                                }
                            }
                            return Err(TractError::PlanError);
                        }
                        BufStrategy::Accumulate { window: *window }
                    },
                    Op::Identity | Op::Add => BufStrategy::PassThrough,
                    _ => {
                        proof {
                            assert(plan_step(node0, views_p, st_enter, co_enter) is Err);
                            assert(plan_fold(nodes0, views_p, st0, co0, n + 1) is Err);
                            lemma_plan_fold_err(nodes0, views_p, st0, co0, n + 1, n_nodes as int);
                            if ready {
                                assert(views_p == views0);
                                assert(st0 == decl_streamed(decls_v, views0.len() as int));
                                assert(co0 =~= Seq::new(views0.len() as nat, |ed: int| false));
                                assert(plan_fold(
                                    nodes0,
                                    views0,
                                    decl_streamed(decls_v, views0.len() as int),
                                    Seq::new(views0.len() as nat, |ed: int| false),
                                    nodes0.len() as int,
                                ) is Ok);
                                assert(false);
                            }
                        }
                        return Err(TractError::PlanError);
                    },
                };
                strategies.push(strategy);
                let ghost st_pre = streamed@;
                streamed.set(g.nodes[n].outputs[0], true);
                proof {
                    assert(streamed@ =~= st_pre.update(node0.outputs@[0] as int, true));
                    assert(plan_step(node0, views_p, st_enter, co_enter) == Ok::<
                        (Seq<bool>, Seq<bool>, BufStrategy),
                        TractError,
                    >((streamed@, consumed@, strategy)));
                }
            }
            proof {
                assert(strategies@ =~= plan_fold(nodes0, views_p, st0, co0, n + 1)->Ok_0.2);
            }
            n += 1;
        }
        let mut buffers: Vec<Vec<Tensor>> = Vec::new();
        let mut e3: usize = 0;
        while e3 < n_edges
            invariant
                e3 <= n_edges,
                buffers@.len() == e3,
                forall|i: int| 0 <= i < e3 ==> (#[trigger] buffers@[i])@.len() == 0,
            decreases n_edges - e3,
        {
            buffers.push(Vec::new());
            e3 += 1;
        }
        let mut positions: Vec<usize> = Vec::new();
        let mut p: usize = 0;
        while p < decls.len()
            invariant
                p <= decls@.len(),
                positions@.len() == p,
                forall|i: int| 0 <= i < p ==> positions@[i] == 0,
            decreases decls@.len() - p,
        {
            positions.push(0);
            p += 1;
        }
        Ok(StreamingState { graph: g, strategies, streamed, decls, buffers, positions, target })
    }
}

/// Spec mirror of gathering one pass-through node's arguments, input by
/// input: a streamed input with a buffered chunk is consumed from the
/// front of its buffer; otherwise the edge's recorded concrete value
/// serves; an edge offering neither fails as unresolved.
pub open spec fn gather_model(
    inputs: Seq<usize>,
    edges: Seq<TensorFactView>,
    streamed: Seq<bool>,
    bufs: Seq<Seq<TensorView>>,
    i: int,
) -> Result<(Seq<TensorView>, Seq<Seq<TensorView>>), TractError>
    decreases i,
{
    if i <= 0 {
        Ok((Seq::empty(), bufs))
    } else {
        match gather_model(inputs, edges, streamed, bufs, i - 1) {
            Err(e) => Err(e),
            Ok((args, b)) => {
                let ie = inputs[i - 1] as int;
                if streamed[ie] && b[ie].len() > 0 {
                    Ok((args.push(b[ie][0]), b.update(ie, b[ie].drop_first())))
                } else if edges[ie].value is Only {
                    Ok((args.push(edges[ie].value->0), b))
                } else {
                    Err(TractError::Unresolved { edge: inputs[i - 1] })
                }
            },
        }
    }
}

/// A pass-through node is ready to fire: every streamed input has a
/// buffered chunk and every static input a recorded concrete value.
pub open spec fn pass_ready(
    inputs: Seq<usize>,
    edges: Seq<TensorFactView>,
    streamed: Seq<bool>,
    bufs: Seq<Seq<TensorView>>,
) -> bool {
    forall|i: int|
        0 <= i < inputs.len() ==> {
            let ie = (#[trigger] inputs[i]) as int;
            if streamed[ie] {
                bufs[ie].len() > 0
            } else {
                edges[ie].value is Only
            }
        }
}

/// Spec mirror of a windowed accumulation: the elementwise wrapped sum of
/// the first `t` buffered chunks, folded in arrival order.
pub open spec fn acc_model(buf: Seq<TensorView>, t: int) -> Result<TensorView, TractError>
    decreases t,
{
    if t <= 1 {
        Ok(buf[0])
    } else {
        match acc_model(buf, t - 1) {
            Err(e) => Err(e),
            Ok(a) => if eval_ok(Op::Add, seq![a, buf[t - 1]]) {
                Ok(eval_out(Op::Add, seq![a, buf[t - 1]]))
            } else {
                Err(eval_err(Op::Add, seq![a, buf[t - 1]]))
            },
        }
    }
}

/// Spec mirror of firing one node once: an inert node leaves the buffers
/// alone; a ready pass-through node consumes one chunk per streamed
/// input, reads its static inputs, and appends its operator's evaluated
/// output to its output edge's buffer; an accumulating node whose window
/// is full emits the arrival-order elementwise sum of its buffered window
/// and consumes the oldest chunk.
pub open spec fn fire_model(
    node: Node,
    strategy: BufStrategy,
    edges: Seq<TensorFactView>,
    streamed: Seq<bool>,
    bufs: Seq<Seq<TensorView>>,
) -> Result<Seq<Seq<TensorView>>, TractError> {
    match strategy {
        BufStrategy::Inert => Ok(bufs),
        BufStrategy::PassThrough => {
            if !pass_ready(node.inputs@, edges, streamed, bufs) {
                Ok(bufs)
            } else {
                match gather_model(node.inputs@, edges, streamed, bufs, node.inputs@.len() as int) {
                    Err(e) => Err(e),
                    Ok((args, b)) => {
                        if !node.op.spec_has_eval() {
                            Err(TractError::Unresolved { edge: node.outputs@[0] })
                        } else if eval_ok(node.op, args) {
                            let oe = node.outputs@[0] as int;
                            Ok(b.update(oe, b[oe].push(eval_out(node.op, args))))
                        } else {
                            Err(eval_err(node.op, args))
                        }
                    },
                }
            }
        },
        BufStrategy::Accumulate { window } => {
            if window < 1 || node.inputs@.len() != 1 {
                Ok(bufs)
            } else {
                let ie = node.inputs@[0] as int;
                if bufs[ie].len() < window {
                    Ok(bufs)
                } else {
                    match acc_model(bufs[ie], window as int) {
                        Err(e) => Err(e),
                        Ok(acc) => {
                            let b1 = bufs.update(ie, bufs[ie].drop_first());
                            let oe = node.outputs@[0] as int;
                            Ok(b1.update(oe, b1[oe].push(acc)))
                        },
                    }
                }
            }
        },
    }
}

/// Spec mirror of one sweep: the nodes fire once each, in index order.
pub open spec fn sweep_model(
    nodes: Seq<Node>,
    strategies: Seq<BufStrategy>,
    edges: Seq<TensorFactView>,
    streamed: Seq<bool>,
    bufs: Seq<Seq<TensorView>>,
    n: int,
) -> Result<Seq<Seq<TensorView>>, TractError>
    decreases n,
{
    if n <= 0 {
        Ok(bufs)
    } else {
        match sweep_model(nodes, strategies, edges, streamed, bufs, n - 1) {
            Err(e) => Err(e),
            Ok(b) => fire_model(nodes[n - 1], strategies[n - 1], edges, streamed, b),
        }
    }
}

/// How many of the first `a` axes of a declaration are streamed.
pub open spec fn streamed_upto(axes: Seq<AxisDecl>, a: int) -> int
    decreases a,
{
    if a <= 0 {
        0
    } else {
        streamed_upto(axes, a - 1) + if axes[a - 1] is Streamed {
            1int
        } else {
            0int
        }
    }
}

/// The dimension facts a declaration asserts: each fixed axis concrete,
/// the streamed axis unknown.
pub open spec fn decl_dims(axes: Seq<AxisDecl>) -> Seq<Fact<Dim>> {
    Seq::new(
        axes.len(),
        |i: int|
            match axes[i] {
                AxisDecl::Fixed(l) => Fact::Only(Dim::Fixed(l)),
                AxisDecl::Streamed => Fact::Any,
            },
    )
}

/// The tensor fact a declaration asserts on its edge.
pub open spec fn decl_fact_view(d: DeclView) -> TensorFactView {
    TensorFactView {
        datum_type: Fact::Only(d.datum_type),
        shape: crate::fact::ShapeView { is_open: false, dims: decl_dims(d.axes) },
        value: Fact::Any,
    }
}

/// Which edges the declarations stream into.
pub open spec fn decl_streamed(decls: Seq<DeclView>, n_edges: int) -> Seq<bool> {
    Seq::new(
        n_edges as nat,
        |e: int| exists|i: int| 0 <= i < decls.len() && (#[trigger] decls[i]).edge == e,
    )
}

/// Some input edge of the node is streamed.
pub open spec fn any_streamed_in(inputs: Seq<usize>, st: Seq<bool>) -> bool {
    exists|i: int| 0 <= i < inputs.len() && st[(#[trigger] inputs[i]) as int]
}

/// Spec mirror of checking one streamed node's inputs, in order: each
/// streamed input may be consumed by only one node, and each static input
/// must carry a resolved value.
pub open spec fn plan_inputs(
    inputs: Seq<usize>,
    views: Seq<TensorFactView>,
    st: Seq<bool>,
    co: Seq<bool>,
    i: int,
) -> Result<Seq<bool>, TractError>
    decreases i,
{
    if i <= 0 {
        Ok(co)
    } else {
        match plan_inputs(inputs, views, st, co, i - 1) {
            Err(e) => Err(e),
            Ok(co2) => {
                let ie = inputs[i - 1] as int;
                if st[ie] {
                    if co2[ie] {
                        Err(TractError::PlanError)
                    } else {
                        Ok(co2.update(ie, true))
                    }
                } else {
                    if views[ie].value is Only {
                        Ok(co2)
                    } else {
                        Err(TractError::Unresolved { edge: inputs[i - 1] })
                    }
                }
            },
        }
    }
}

/// Spec mirror of planning one node: its arity is validated, an
/// unstreamed node stays inert, and a streamed node gets the strategy its
/// operator calls for, marking its output edge streamed.
pub open spec fn plan_step(node: Node, views: Seq<TensorFactView>, st: Seq<bool>, co: Seq<bool>) -> Result<
    (Seq<bool>, Seq<bool>, BufStrategy),
    TractError,
> {
    if node.outputs@.len() != 1 {
        Err(TractError::Arity { expected: 1, actual: node.outputs@.len() as usize })
    } else if !any_streamed_in(node.inputs@, st) {
        Ok((st, co, BufStrategy::Inert))
    } else {
        match plan_inputs(node.inputs@, views, st, co, node.inputs@.len() as int) {
            Err(e) => Err(e),
            Ok(co2) => match node.op {
                Op::MovingSum { window } => if window < 1 {
                    Err(TractError::PlanError)
                } else {
                    Ok(
                        (
                            st.update(node.outputs@[0] as int, true),
                            co2,
                            BufStrategy::Accumulate { window },
                        ),
                    )
                },
                Op::Identity | Op::Add => Ok(
                    (st.update(node.outputs@[0] as int, true), co2, BufStrategy::PassThrough),
                ),
                _ => Err(TractError::PlanError),
            },
        }
    }
}

/// Spec mirror of the whole planning pass, node by node.
pub open spec fn plan_fold(
    nodes: Seq<Node>,
    views: Seq<TensorFactView>,
    st: Seq<bool>,
    co: Seq<bool>,
    n: int,
) -> Result<(Seq<bool>, Seq<bool>, Seq<BufStrategy>), TractError>
    decreases n,
{
    if n <= 0 {
        Ok((st, co, Seq::empty()))
    } else {
        match plan_fold(nodes, views, st, co, n - 1) {
            Err(e) => Err(e),
            Ok((st1, co1, strats)) => match plan_step(nodes[n - 1], views, st1, co1) {
                Err(e) => Err(e),
                Ok((st2, co2, strat)) => Ok((st2, co2, strats.push(strat))),
            },
        }
    }
}

/// A failing input check fails the node's whole input scan.
proof fn lemma_plan_inputs_err(
    inputs: Seq<usize>,
    views: Seq<TensorFactView>,
    st: Seq<bool>,
    co: Seq<bool>,
    i: int,
    m: int,
)
    requires
        0 <= i <= m,
        plan_inputs(inputs, views, st, co, i) is Err,
    ensures
        plan_inputs(inputs, views, st, co, m) == plan_inputs(inputs, views, st, co, i),
    decreases m - i,
{
    if i < m {
        lemma_plan_inputs_err(inputs, views, st, co, i + 1, m);
    }
}

/// A planning failure at one node is the failure of the whole pass.
proof fn lemma_plan_fold_err(
    nodes: Seq<Node>,
    views: Seq<TensorFactView>,
    st: Seq<bool>,
    co: Seq<bool>,
    n: int,
    m: int,
)
    requires
        0 <= n <= m,
        plan_fold(nodes, views, st, co, n) is Err,
    ensures
        plan_fold(nodes, views, st, co, m) == plan_fold(nodes, views, st, co, n),
    decreases m - n,
{
    if n < m {
        lemma_plan_fold_err(nodes, views, st, co, n + 1, m);
    }
}

/// The inputs a streaming run is owed to accept: the target and every
/// declared edge in range, at most one streamed axis per declaration,
/// every declaration's fact already absorbed by its edge's recorded fact,
/// the graph already at the solver's fixpoint, and the planning pass
/// succeeding on the declared streams.
pub open spec fn start_ready(
    nodes: Seq<Node>,
    views: Seq<TensorFactView>,
    decls: Seq<DeclView>,
    target: Option<usize>,
) -> bool {
    &&& (target matches Some(t) ==> t < views.len())
    &&& forall|i: int| 0 <= i < decls.len() ==> (#[trigger] decls[i]).edge < views.len()
    &&& forall|i: int|
        0 <= i < decls.len() ==> streamed_upto(
            (#[trigger] decls[i]).axes,
            decls[i].axes.len() as int,
        ) <= 1
    &&& forall|i: int|
        0 <= i < decls.len() ==> (views[(#[trigger] decls[i]).edge as int].unify_ok(
            decl_fact_view(decls[i]),
        ) && !views[decls[i].edge as int].unify_changed(decl_fact_view(decls[i])))
    &&& at_fixpoint_v(nodes, views)
    &&& plan_fold(
        nodes,
        views,
        decl_streamed(decls, views.len() as int),
        Seq::new(views.len() as nat, |e: int| false),
        nodes.len() as int,
    ) is Ok
}

impl StreamingState {
    /// Whether a submitted chunk is accepted: the input exists, the chunk
    /// fits its declaration, and its data covers its shape.
    pub open spec fn step_valid(s: StreamView, input_index: usize, chunk: TensorView) -> bool {
        &&& input_index < s.decls.len()
        &&& chunk_matches(s.decls[input_index as int], chunk)
        &&& chunk.wf()
    }

    /// What an accepted step does, stated over the spec mirror: the chunk
    /// enters its declared edge's buffer, one sweep fires the nodes, and
    /// the tracked output edge yields its oldest produced chunk if any.
    pub open spec fn step_result(
        s: StreamView,
        nodes: Seq<Node>,
        input_index: usize,
        chunk: TensorView,
        o: Option<Tensor>,
        after: StreamView,
    ) -> bool {
        let in_e = s.decls[input_index as int].edge as int;
        let bufs1 = s.buffers.update(in_e, s.buffers[in_e].push(chunk));
        match sweep_model(nodes, s.strategies, s.edges, s.streamed, bufs1, nodes.len() as int) {
            Err(_) => false,
            Ok(b2) => match s.target {
                None => o is None && after.buffers == b2,
                Some(t) => if b2[t as int].len() > 0 {
                    &&& o matches Some(out) && out@ == b2[t as int][0]
                    &&& after.buffers == b2.update(t as int, b2[t as int].drop_first())
                } else {
                    o is None && after.buffers == b2
                },
            },
        }
    }

    /// Submit one chunk for one declared input.  A chunk whose shape
    /// disagrees with the declaration is rejected with the state left
    /// untouched, as is a saturated position counter.  An accepted chunk
    /// is buffered, the input's position counter advances, every node
    /// whose buffered inputs suffice fires once (a node is never
    /// re-evaluated on unchanged inputs: firing consumes them), and the
    /// tracked output edge yields a produced chunk if one is ready — all
    /// exactly as the spec mirror of the sweep says.
    pub fn step(&mut self, input_index: usize, chunk: Tensor) -> (r: Result<
        Option<Tensor>,
        TractError,
    >)
        requires
            old(self).wf(),
        ensures
            final(self).wf(),
            same_plan(final(self)@, old(self)@),
            !Self::step_valid(old(self)@, input_index, chunk@) ==> (r == Err::<
                Option<Tensor>,
                TractError,
            >(TractError::StreamingShapeMismatch { input: input_index }) && final(self)@ == old(
                self,
            )@),
            Self::step_valid(old(self)@, input_index, chunk@) && old(self)@.positions[
                input_index as int] == usize::MAX ==> (r == Err::<Option<Tensor>, TractError>(
                TractError::PositionSaturated { input: input_index },
            ) && final(self)@ == old(self)@),
            r matches Err(e) ==> (e matches TractError::StreamingShapeMismatch { input } ==> (
            input == input_index && final(self)@ == old(self)@)),
            r is Ok ==> (Self::step_valid(old(self)@, input_index, chunk@)
                && final(self)@.positions == old(self)@.positions.update(
                input_index as int,
                (old(self)@.positions[input_index as int] + 1) as usize,
            )),
            r matches Ok(o) ==> Self::step_result(
                old(self)@,
                old(self).graph.nodes@,
                input_index,
                chunk@,
                o,
                final(self)@,
            ),
            r matches Ok(o) ==> (o matches Some(t) ==> t@.wf()),
    {
        if input_index >= self.decls.len() {
            return Err(TractError::StreamingShapeMismatch { input: input_index });
        }
        let decl_rank = self.decls[input_index].axes.len();
        if !(chunk.datum_type == self.decls[input_index].datum_type) || chunk.shape.len()
            != decl_rank {
            return Err(TractError::StreamingShapeMismatch { input: input_index });
        }
        let mut i: usize = 0;
        while i < decl_rank
            invariant
                *self == *old(self),
                old(self).wf(),
                input_index < self.decls@.len(),
                decl_rank == self.decls@[input_index as int].axes@.len(),
                chunk.shape@.len() == decl_rank,
                i <= decl_rank,
                forall|j: int|
                    0 <= j < i ==> match #[trigger] self.decls@[input_index as int].axes@[j] {
                        AxisDecl::Fixed(l) => chunk.shape@[j] == l,
                        AxisDecl::Streamed => chunk.shape@[j] == 1,
                    },
            decreases decl_rank - i,
        {
            match self.decls[input_index].axes[i] {
                AxisDecl::Fixed(l) => {
                    if chunk.shape[i] != l {
                        return Err(TractError::StreamingShapeMismatch { input: input_index });
                    }
                },
                AxisDecl::Streamed => {
                    if chunk.shape[i] != 1 {
                        return Err(TractError::StreamingShapeMismatch { input: input_index });
                    }
                },
            }
            i += 1;
        }
        if !tensor_is_wf(&chunk) {
            return Err(TractError::StreamingShapeMismatch { input: input_index });
        }
        proof {
            assert(Self::step_valid(old(self)@, input_index, chunk@));
        }
        if self.positions[input_index] == usize::MAX {
            return Err(TractError::PositionSaturated { input: input_index });
        }
        let in_edge = self.decls[input_index].edge;
        buf_push(&mut self.buffers, in_edge, chunk);
        let pos = self.positions[input_index];
        self.positions.set(input_index, pos + 1);
        proof {
            assert(self@.positions =~= old(self)@.positions.update(
                input_index as int,
                (old(self)@.positions[input_index as int] + 1) as usize,
            ));
            assert(self@.buffers =~~= old(self)@.buffers.update(
                in_edge as int,
                old(self)@.buffers[in_edge as int].push(chunk@),
            ));
        }
        match self.sweep() {
            Ok(o) => Ok(o),
            Err(e) => Err(self.non_mismatch(e)),
        }
    }

    /// One sweep over the nodes in order, then the tracked output edge
    /// yields its oldest produced chunk if any; the buffers end exactly
    /// as the sweep's spec mirror says.
    fn sweep(&mut self) -> (r: Result<Option<Tensor>, TractError>)
        requires
            old(self).wf(),
        ensures
            final(self).wf(),
            same_plan(final(self)@, old(self)@),
            final(self)@.positions == old(self)@.positions,
            final(self).graph == old(self).graph,
            final(self).strategies == old(self).strategies,
            final(self).streamed == old(self).streamed,
            final(self).decls == old(self).decls,
            final(self).positions == old(self).positions,
            final(self).target == old(self).target,
            r matches Ok(o) ==> (sweep_model(
                old(self).graph.nodes@,
                old(self)@.strategies,
                old(self)@.edges,
                old(self)@.streamed,
                old(self)@.buffers,
                old(self).graph.nodes@.len() as int,
            ) matches Ok(b2) && (match old(self)@.target {
                None => o is None && final(self)@.buffers == b2,
                Some(t) => if b2[t as int].len() > 0 {
                    &&& o matches Some(out) && out@ == b2[t as int][0]
                    &&& final(self)@.buffers == b2.update(t as int, b2[t as int].drop_first())
                } else {
                    o is None && final(self)@.buffers == b2
                },
            })),
            r matches Ok(o) ==> (o matches Some(t) ==> t@.wf()),
    {
        let ghost nodes0 = self.graph.nodes@;
        let ghost strategies0 = self@.strategies;
        let ghost edges0 = self@.edges;
        let ghost streamed0 = self@.streamed;
        let ghost bufs0 = self@.buffers;
        let n_nodes = self.graph.nodes.len();
        let mut n: usize = 0;
        while n < n_nodes
            invariant
                self.wf(),
                n_nodes == self.graph.nodes@.len(),
                n <= n_nodes,
                same_plan(self@, old(self)@),
                self@.positions == old(self)@.positions,
                self.graph == old(self).graph,
                self.strategies == old(self).strategies,
                self.streamed == old(self).streamed,
                self.decls == old(self).decls,
                self.positions == old(self).positions,
                self.target == old(self).target,
                nodes0 == self.graph.nodes@,
                strategies0 == self@.strategies,
                edges0 == self@.edges,
                streamed0 == self@.streamed,
                bufs0 == old(self)@.buffers,
                sweep_model(nodes0, strategies0, edges0, streamed0, bufs0, n as int) == Ok::<
                    Seq<Seq<TensorView>>,
                    TractError,
                >(self@.buffers),
            decreases n_nodes - n,
        {
            match self.fire_node(n) {
                Ok(_) => {},
                Err(e) => {
                    return Err(e);
                },
            }
            n += 1;
        }
        match self.target {
            None => Ok(None),
            Some(t) => {
                if self.buffers[t].len() > 0 {
                    let ghost b2 = self@.buffers;
                    let out = buf_pop_front(&mut self.buffers, t);
                    proof {
                        assert(out@ == b2[t as int][0]);
                        assert(self@.buffers =~~= b2.update(t as int, b2[t as int].drop_first()));
                    }
                    Ok(Some(out))
                } else {
                    Ok(None)
                }
            },
        }
    }

    /// Fire one node once if its buffered inputs suffice, exactly as the
    /// firing spec mirror says: a pass-through node consumes one chunk
    /// per streamed input and appends its evaluated output, an
    /// accumulating node reads its full window and consumes the oldest
    /// chunk.
    fn fire_node(&mut self, n: usize) -> (r: Result<(), TractError>)
        requires
            old(self).wf(),
            n < old(self).graph.nodes@.len(),
        ensures
            final(self).wf(),
            same_plan(final(self)@, old(self)@),
            final(self)@.positions == old(self)@.positions,
            final(self).graph == old(self).graph,
            final(self).strategies == old(self).strategies,
            final(self).streamed == old(self).streamed,
            final(self).decls == old(self).decls,
            final(self).positions == old(self).positions,
            final(self).target == old(self).target,
            r matches Ok(u) ==> (fire_model(
                old(self).graph.nodes@[n as int],
                old(self)@.strategies[n as int],
                old(self)@.edges,
                old(self)@.streamed,
                old(self)@.buffers,
            ) matches Ok(b2) && final(self)@.buffers == b2),
    {
        let ghost node0 = self.graph.nodes@[n as int];
        let ghost edges0 = self@.edges;
        let ghost streamed0 = self@.streamed;
        let ghost bufs0 = self@.buffers;
        let strategy = self.strategies[n];
        match strategy {
            BufStrategy::Inert => Ok(()),
            BufStrategy::PassThrough => {
                let n_ins = self.graph.nodes[n].inputs.len();
                let mut ready = true;
                let mut i: usize = 0;
                while i < n_ins
                    invariant
                        *self == *old(self),
                        old(self).wf(),
                        n < self.graph.nodes@.len(),
                        node0 == self.graph.nodes@[n as int],
                        edges0 == self@.edges,
                        streamed0 == self@.streamed,
                        bufs0 == self@.buffers,
                        n_ins == node0.inputs@.len(),
                        i <= n_ins,
                        ready == (forall|j: int|
                            0 <= j < i ==> {
                                let ie = (#[trigger] node0.inputs@[j]) as int;
                                if streamed0[ie] {
                                    bufs0[ie].len() > 0
                                } else {
                                    edges0[ie].value is Only
                                }
                            }),
                    decreases n_ins - i,
                {
                    let ie = self.graph.nodes[n].inputs[i];
                    if self.streamed[ie] {
                        if self.buffers[ie].len() == 0 {
                            ready = false;
                        }
                    } else {
                        if !matches!(self.graph.edges[ie].value, Fact::Only(_)) {
                            ready = false;
                        }
                    }
                    i += 1;
                }
                if !ready {
                    return Ok(());
                }
                proof {
                    assert(pass_ready(node0.inputs@, edges0, streamed0, bufs0));
                }
                let mut args: Vec<Tensor> = Vec::new();
                proof {
                    assert(crate::ops::views_of(args@) =~= Seq::<TensorView>::empty());
                }
                let mut i2: usize = 0;
                while i2 < n_ins
                    invariant
                        self.wf(),
                        n < self.graph.nodes@.len(),
                        node0 == self.graph.nodes@[n as int],
                        edges0 == self@.edges,
                        streamed0 == self@.streamed,
                        n_ins == node0.inputs@.len(),
                        i2 <= n_ins,
                        forall|j: int| 0 <= j < args@.len() ==> (#[trigger] args@[j])@.wf(),
                        same_plan(self@, old(self)@),
                        self@.positions == old(self)@.positions,
                        self.graph == old(self).graph,
                        self.strategies == old(self).strategies,
                        self.streamed == old(self).streamed,
                        self.decls == old(self).decls,
                        self.positions == old(self).positions,
                        self.target == old(self).target,
                        gather_model(node0.inputs@, edges0, streamed0, bufs0, i2 as int) == Ok::<
                            (Seq<TensorView>, Seq<Seq<TensorView>>),
                            TractError,
                        >((crate::ops::views_of(args@), self@.buffers)),
                    decreases n_ins - i2,
                {
                    let ghost args_pre = crate::ops::views_of(args@);
                    let ghost bufs_pre = self@.buffers;
                    let ie = self.graph.nodes[n].inputs[i2];
                    if self.streamed[ie] && self.buffers[ie].len() > 0 {
                        let t = buf_pop_front(&mut self.buffers, ie);
                        args.push(t);
                        proof {
                            assert(crate::ops::views_of(args@) =~= args_pre.push(
                                bufs_pre[ie as int][0],
                            ));
                            assert(self@.buffers =~~= bufs_pre.update(
                                ie as int,
                                bufs_pre[ie as int].drop_first(),
                            ));
                            assert(gather_model(node0.inputs@, edges0, streamed0, bufs0, i2 + 1)
                                == Ok::<(Seq<TensorView>, Seq<Seq<TensorView>>), TractError>((
                                args_pre.push(bufs_pre[ie as int][0]),
                                bufs_pre.update(ie as int, bufs_pre[ie as int].drop_first()),
                            )));
                        }
                    } else {
                        match &self.graph.edges[ie].value {
                            Fact::Only(t) => {
                                proof {
                                    assert(crate::helpers::fact_views(self.graph.edges@)[ie as int]
                                        == self.graph.edges@[ie as int]@);
                                    assert(self.graph.edge_views()[ie as int].value->0.wf());
                                    assert(edges0[ie as int].value == Fact::Only(t@));
                                }
                                args.push(t.dup());
                                proof {
                                    assert(crate::ops::views_of(args@) =~= args_pre.push(
                                        edges0[ie as int].value->0,
                                    ));
                                    assert(gather_model(
                                        node0.inputs@,
                                        edges0,
                                        streamed0,
                                        bufs0,
                                        i2 + 1,
                                    ) == Ok::<(Seq<TensorView>, Seq<Seq<TensorView>>), TractError>(
                                    (args_pre.push(edges0[ie as int].value->0), bufs_pre)));
                                }
                            },
                            Fact::Any => {
                                return Err(TractError::Unresolved { edge: ie });
                            },
                        }
                    }
                    i2 += 1;
                }
                let out = match self.eval_node(n, &args) {
                    Ok(t) => t,
                    Err(e) => {
                        return Err(e);
                    },
                };
                let out_e = self.graph.nodes[n].outputs[0];
                let ghost bufs_mid = self@.buffers;
                let ghost outv = out@;
                buf_push(&mut self.buffers, out_e, out);
                proof {
                    assert(self@.buffers =~~= bufs_mid.update(
                        out_e as int,
                        bufs_mid[out_e as int].push(outv),
                    ));
                    assert(fire_model(node0, BufStrategy::PassThrough, edges0, streamed0, bufs0)
                        == Ok::<Seq<Seq<TensorView>>, TractError>(self@.buffers));
                }
                Ok(())
            },
            BufStrategy::Accumulate { window } => {
                if window < 1 || self.graph.nodes[n].inputs.len() != 1 {
                    return Ok(());
                }
                let ie = self.graph.nodes[n].inputs[0];
                if self.buffers[ie].len() < window {
                    return Ok(());
                }
                let mut acc = self.buffers[ie][0].dup();
                let mut t: usize = 1;
                while t < window
                    invariant
                        *self == *old(self),
                        old(self).wf(),
                        n < self.graph.nodes@.len(),
                        node0 == self.graph.nodes@[n as int],
                        bufs0 == self@.buffers,
                        ie < self.buffers@.len(),
                        ie == node0.inputs@[0],
                        window <= self.buffers@[ie as int]@.len(),
                        1 <= t <= window,
                        acc@.wf(),
                        acc_model(bufs0[ie as int], t as int) == Ok::<TensorView, TractError>(
                            acc@,
                        ),
                    decreases window - t,
                {
                    let ghost acc_pre = acc@;
                    let mut args: Vec<Tensor> = Vec::new();
                    args.push(acc);
                    args.push(self.buffers[ie][t].dup());
                    proof {
                        assert(crate::ops::views_of(args@) =~= seq![
                            acc_pre,
                            bufs0[ie as int][t as int],
                        ]);
                    }
                    let mut outs = match eval(&Op::Add, &args) {
                        Ok(o) => o,
                        Err(e) => {
                            return Err(e);
                        },
                    };
                    acc = match outs.pop() {
                        Some(o) => o,
                        None => {
                            return Err(TractError::PlanError);
                        },
                    };
                    proof {
                        assert(eval_ok(Op::Add, seq![acc_pre, bufs0[ie as int][t as int]]));
                        assert(acc@ == eval_out(Op::Add, seq![acc_pre, bufs0[ie as int][t as int]]));
                        assert(acc_model(bufs0[ie as int], t + 1) == Ok::<TensorView, TractError>(
                            acc@,
                        ));
                    }
                    t += 1;
                }
                let _consumed = buf_pop_front(&mut self.buffers, ie);
                let ghost bufs_mid = self@.buffers;
                let ghost accv = acc@;
                let out_e = self.graph.nodes[n].outputs[0];
                buf_push(&mut self.buffers, out_e, acc);
                proof {
                    assert(bufs_mid =~~= bufs0.update(ie as int, bufs0[ie as int].drop_first()));
                    assert(self@.buffers =~~= bufs_mid.update(
                        out_e as int,
                        bufs_mid[out_e as int].push(accv),
                    ));
                    assert(fire_model(
                        node0,
                        BufStrategy::Accumulate { window },
                        edges0,
                        streamed0,
                        bufs0,
                    ) == Ok::<Seq<Seq<TensorView>>, TractError>(self@.buffers));
                }
                Ok(())
            },
        }
    }

    /// Evaluate node `n` once on gathered concrete arguments.
    fn eval_node(&self, n: usize, args: &Vec<Tensor>) -> (r: Result<Tensor, TractError>)
        requires
            self.wf(),
            n < self.graph.nodes@.len(),
            forall|j: int| 0 <= j < args@.len() ==> (#[trigger] args@[j])@.wf(),
        ensures
            r matches Ok(t) ==> {
                let op = self.graph.nodes@[n as int].op;
                &&& op.spec_has_eval()
                &&& eval_ok(op, crate::ops::views_of(args@))
                &&& t@ == eval_out(op, crate::ops::views_of(args@))
                &&& t@.wf()
            },
    {
        let op = &self.graph.nodes[n].op;
        if !op.has_eval() {
            return Err(TractError::Unresolved { edge: self.graph.nodes[n].outputs[0] });
        }
        let mut outs = match eval(op, args) {
            Ok(o) => o,
            Err(e) => {
                return Err(e);
            },
        };
        match outs.pop() {
            Some(o) => Ok(o),
            None => Err(TractError::PlanError),
        }
    }

    /// Replace a streaming-shape-mismatch error from an inner evaluation
    /// by a plan error: only `step`'s own validation reports mismatches,
    /// because only those leave the state untouched.
    fn non_mismatch(&self, e: TractError) -> (r: TractError)
        ensures
            !(r matches TractError::StreamingShapeMismatch { .. }),
    {
        match e {
            TractError::StreamingShapeMismatch { .. } => TractError::PlanError,
            other => other,
        }
    }
}

} // verus!
