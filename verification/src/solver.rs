//! The inference solver: per-node rules are applied across the whole
//! graph and their proposals merged into the edges' recorded facts, until
//! a full pass changes nothing (a fixpoint) or a merge conflicts.

use vstd::prelude::*;
use crate::fact::{Dim, Fact, ShapeFact, ShapeView, TractError};
use crate::tensor::{lemma_concrete_fact_stable, lemma_tfact_unify_unchanged, TensorFact, TensorFactView};
use crate::ops::{eval_err, eval_ok, eval_out, Op};
use crate::helpers::{any_open, basic_fact, bcast_decision, BcastDecision, concrete_applies, fact_of, fact_views, facts_wf, infer_forward_basic, infer_forward_concrete, shapes_of, values_of};

verus! {

/// One node of the graph: an operator instance plus the edges it reads
/// and writes, named by index into the graph's edge arena.
#[derive(Debug)]
pub struct Node {
    pub op: Op,
    pub inputs: Vec<usize>,
    pub outputs: Vec<usize>,
}

/// Spec-level image of a node.
pub ghost struct NodeView {
    pub op: crate::ops::OpView,
    pub inputs: Seq<usize>,
    pub outputs: Seq<usize>,
}

impl View for Node {
    type V = NodeView;

    open spec fn view(&self) -> NodeView {
        NodeView { op: self.op@, inputs: self.inputs@, outputs: self.outputs@ }
    }
}

impl Node {
    /// An exact copy sharing no storage with the original.
    pub fn dup(&self) -> (r: Node)
        ensures
            r@ == self@,
            r.op.wf() == self.op.wf(),
    {
        Node {
            op: self.op.dup(),
            inputs: crate::tensor::dup_usize_vec(&self.inputs),
            outputs: crate::tensor::dup_usize_vec(&self.outputs),
        }
    }
}

/// A directed graph of operator nodes over an arena of edges, each edge
/// carrying the tensor fact recorded for it so far.
#[derive(Debug)]
pub struct Graph {
    pub nodes: Vec<Node>,
    pub edges: Vec<TensorFact>,
}

/// The views of a sequence of nodes.
pub open spec fn node_views(s: Seq<Node>) -> Seq<NodeView> {
    Seq::new(s.len(), |i: int| s[i]@)
}

/// The sliding-window shape rule: with a closed input shape of rank at
/// least one, the leading dimension `n` becomes `n - window + 1` when it
/// is fixed and covers the window, and unknown otherwise; an open input
/// shape gives no information.
pub open spec fn ms_fact(inf: TensorFactView, window: usize) -> TensorFactView {
    TensorFactView {
        datum_type: inf.datum_type,
        shape: if inf.shape.is_open || inf.shape.dims.len() < 1 {
            ShapeView { is_open: true, dims: Seq::<Fact<Dim>>::empty() }
        } else {
            ShapeView {
                is_open: false,
                dims: inf.shape.dims.update(
                    0,
                    match inf.shape.dims[0] {
                        Fact::Only(Dim::Fixed(n)) => if 1 <= window <= n {
                            Fact::Only(Dim::Fixed((n - window + 1) as usize))
                        } else {
                            Fact::Any
                        },
                        _ => Fact::Any,
                    },
                ),
            }
        },
        value: Fact::Any,
    }
}

/// The error, if any, that a node's inference rules report on the given
/// input facts: an arity violation first, then whatever the applicable
/// strategy (forward-concrete evaluation, broadcast shape inference)
/// reports.
pub open spec fn proposal_err(op: Op, ins: Seq<TensorFactView>) -> Option<TractError> {
    if ins.len() != op.spec_n_inputs() {
        Some(TractError::Arity { expected: op.spec_n_inputs(), actual: ins.len() as usize })
    } else if op is Source {
        None
    } else if concrete_applies(op, ins) {
        if eval_ok(op, values_of(ins)) {
            None
        } else {
            Some(eval_err(op, values_of(ins)))
        }
    } else {
        match op {
            Op::Identity | Op::Add => if !any_open(shapes_of(ins)) && bcast_decision(
                shapes_of(ins),
            ) is Conflict {
                match bcast_decision(shapes_of(ins)) {
                    BcastDecision::Conflict(q, v) => Some(TractError::ShapeConflict { a: q, b: v }),
                    _ => None,
                }
            } else {
                None
            },
            _ => None,
        }
    }
}

/// The fact a node proposes for its single output edge.
pub open spec fn out_proposal(op: Op, ins: Seq<TensorFactView>) -> Option<TensorFactView>
    recommends
        proposal_err(op, ins) is None,
{
    if op is Source {
        None
    } else if concrete_applies(op, ins) {
        Some(fact_of(eval_out(op, values_of(ins))))
    } else {
        match op {
            Op::Identity | Op::Add => Some(basic_fact(ins)),
            Op::MovingSum { window } => Some(ms_fact(ins[0], window)),
            _ => None,
        }
    }
}

/// The fact a node proposes backward for its single input edge: an
/// identity equates its input with its output.
pub open spec fn in_proposal(op: Op, out: TensorFactView) -> Option<TensorFactView> {
    if op is Identity {
        Some(out)
    } else {
        None
    }
}

/// What one node proposes after a rules pass: a refined fact for its
/// output edge, and possibly one for its input edge.
pub struct Proposal {
    pub output: Option<TensorFact>,
    pub input: Option<TensorFact>,
}

/// A proposed fact only ever carries a well-formed tensor value, and is
/// internally consistent.
pub open spec fn opt_fact_wf(f: Option<TensorFact>) -> bool {
    f matches Some(g) ==> ((g@.value is Only ==> g@.value->0.wf()) && g@.consistent())
}

/// Run one node's inference rules: validate arity, then apply
/// forward-concrete inference, forward-basic inference or the node's own
/// shape rule, and propose refined facts for the adjacent edges.
pub fn infer_node(op: &Op, in_facts: &Vec<TensorFact>, out_fact: &TensorFact) -> (r: Result<
    Proposal,
    TractError,
>)
    requires
        op.wf(),
        facts_wf(fact_views(in_facts@)),
        out_fact@.value is Only ==> out_fact@.value->0.wf(),
        out_fact@.consistent(),
    ensures
        proposal_err(*op, fact_views(in_facts@)) matches Some(e) ==> r == Err::<
            Proposal,
            TractError,
        >(e),
        proposal_err(*op, fact_views(in_facts@)) is None ==> (r matches Ok(p) && {
            &&& match out_proposal(*op, fact_views(in_facts@)) {
                Some(f) => p.output matches Some(g) && g@ == f,
                None => p.output is None,
            }
            &&& match in_proposal(*op, out_fact@) {
                Some(f) => p.input matches Some(g) && g@ == f,
                None => p.input is None,
            }
            &&& opt_fact_wf(p.output)
            &&& opt_fact_wf(p.input)
        }),
{
    let ghost ins = fact_views(in_facts@);
    if in_facts.len() != op.n_inputs() {
        return Err(TractError::Arity { expected: op.n_inputs(), actual: in_facts.len() });
    }
    match op {
        Op::Source => Ok(Proposal { output: None, input: None }),
        Op::Const(_) => {
            match infer_forward_concrete(op, in_facts) {
                Err(e) => Err(e),
                Ok(Some(mut fs)) => {
                    let f = match fs.pop() {
                        Some(f) => f,
                        None => {
                            proof {
                                assert(false);
                            }
                            return Err(TractError::PlanError);
                        },
                    };
                    Ok(Proposal { output: Some(f), input: None })
                },
                Ok(None) => {
                    proof {
                        assert(concrete_applies(*op, ins));
                        assert(false);
                    }
                    Err(TractError::PlanError)
                },
            }
        },
        Op::Identity | Op::Add => {
            match infer_forward_basic(op, in_facts) {
                Err(e) => Err(e),
                Ok(Some(mut fs)) => {
                    let f = match fs.pop() {
                        Some(f) => f,
                        None => {
                            proof {
                                assert(false);
                            }
                            return Err(TractError::PlanError);
                        },
                    };
                    let input = if matches!(op, Op::Identity) {
                        Some(out_fact.dup())
                    } else {
                        None
                    };
                    Ok(Proposal { output: Some(f), input })
                },
                Ok(None) => {
                    proof {
                        assert(false);
                    }
                    Err(TractError::PlanError)
                },
            }
        },
        Op::MovingSum { window } => {
            match infer_forward_concrete(op, in_facts) {
                Err(e) => Err(e),
                Ok(Some(mut fs)) => {
                    let f = match fs.pop() {
                        Some(f) => f,
                        None => {
                            proof {
                                assert(false);
                            }
                            return Err(TractError::PlanError);
                        },
                    };
                    Ok(Proposal { output: Some(f), input: None })
                },
                Ok(None) => {
                    let inf = &in_facts[0];
                    let shape = if inf.shape.is_open || inf.shape.dims.len() < 1 {
                        ShapeFact::all()
                    } else {
                        let mut s = inf.shape.dup();
                        let d0 = match s.dims[0] {
                            Fact::Only(Dim::Fixed(n)) => {
                                if 1 <= *window && *window <= n {
                                    Fact::Only(Dim::Fixed(n - *window + 1))
                                } else {
                                    Fact::Any
                                }
                            },
                            _ => Fact::Any,
                        };
                        s.dims.set(0, d0);
                        s
                    };
                    let f = TensorFact { datum_type: inf.datum_type, shape, value: Fact::Any };
                    proof {
                        assert(f@.shape.dims =~= ms_fact(ins[0], *window).shape.dims);
                        assert(f@ == ms_fact(ins[0], *window));
                    }
                    Ok(Proposal { output: Some(f), input: None })
                },
            }
        },
    }
}

/// One recorded fact refines another when it keeps everything the other
/// already knew.
pub open spec fn refines(n: TensorFactView, o: TensorFactView) -> bool {
    &&& (o.datum_type is Only ==> n.datum_type == o.datum_type)
    &&& (!o.shape.is_open ==> !n.shape.is_open && n.shape.dims.len() == o.shape.dims.len())
    &&& o.shape.dims.len() <= n.shape.dims.len()
    &&& forall|i: int|
        0 <= i < o.shape.dims.len() ==> ((#[trigger] o.shape.dims[i]) is Only ==> n.shape.dims[i]
            == o.shape.dims[i])
    &&& (o.value is Only ==> n.value == o.value)
}

/// A successful merge refines its left side.
pub proof fn lemma_unify_refines(a: TensorFactView, b: TensorFactView)
    requires
        a.unify_ok(b),
    ensures
        refines(a.unified(b), a),
{
}

pub proof fn lemma_refines_trans(a: TensorFactView, b: TensorFactView, c: TensorFactView)
    requires
        refines(a, b),
        refines(b, c),
    ensures
        refines(a, c),
{
}

/// Refining a fully concrete fact changes nothing.
pub proof fn lemma_refines_concrete_eq(n: TensorFactView, o: TensorFactView)
    requires
        refines(n, o),
        o.all_concrete(),
    ensures
        n == o,
{
    assert(n.shape.dims =~= o.shape.dims);
}

/// The input facts node `n` sees under the given edge facts.
pub open spec fn node_ins_v(nodes: Seq<Node>, views: Seq<TensorFactView>, n: int) -> Seq<
    TensorFactView,
> {
    Seq::new(nodes[n].inputs@.len(), |i: int| views[nodes[n].inputs@[i] as int])
}

/// Node `n`'s rules pass without error and its proposals merge into the
/// adjacent edges without changing them.
pub open spec fn node_stable_v(nodes: Seq<Node>, views: Seq<TensorFactView>, n: int) -> bool {
    let node = nodes[n];
    let ins = node_ins_v(nodes, views, n);
    &&& node.outputs@.len() == 1
    &&& proposal_err(node.op, ins) is None
    &&& (out_proposal(node.op, ins) matches Some(f) ==> {
        let rec = views[node.outputs@[0] as int];
        rec.unify_ok(f) && !rec.unify_changed(f)
    })
    &&& (in_proposal(node.op, views[node.outputs@[0] as int]) matches Some(f) ==> {
        let rec = views[node.inputs@[0] as int];
        rec.unify_ok(f) && !rec.unify_changed(f)
    })
}

/// The fixpoint: one more pass over any node would change nothing.
pub open spec fn at_fixpoint_v(nodes: Seq<Node>, views: Seq<TensorFactView>) -> bool {
    forall|n: int| 0 <= n < nodes.len() ==> node_stable_v(nodes, views, n)
}

/// Every fact is fully concrete.
pub open spec fn views_concrete(views: Seq<TensorFactView>) -> bool {
    forall|e: int| 0 <= e < views.len() ==> (#[trigger] views[e]).all_concrete()
}

impl Graph {
    /// The recorded fact on each edge, as views.
    pub open spec fn edge_views(self) -> Seq<TensorFactView> {
        fact_views(self.edges@)
    }

    /// Structurally sound: every edge index in range, every operator and
    /// every recorded tensor value well formed.
    pub open spec fn wf(self) -> bool {
        &&& forall|n: int, i: int|
            0 <= n < self.nodes@.len() && 0 <= i < self.nodes@[n].inputs@.len()
                ==> (#[trigger] self.nodes@[n].inputs@[i]) < self.edges@.len()
        &&& forall|n: int, i: int|
            0 <= n < self.nodes@.len() && 0 <= i < self.nodes@[n].outputs@.len()
                ==> (#[trigger] self.nodes@[n].outputs@[i]) < self.edges@.len()
        &&& forall|n: int| 0 <= n < self.nodes@.len() ==> (#[trigger] self.nodes@[n]).op.wf()
        &&& facts_wf(self.edge_views())
    }

    /// Every fact on every edge is fully concrete.
    pub open spec fn all_concrete(self) -> bool {
        views_concrete(self.edge_views())
    }

    /// The fixpoint, on this graph's current facts.
    pub open spec fn at_fixpoint(self) -> bool {
        at_fixpoint_v(self.nodes@, self.edge_views())
    }

    /// An exact copy sharing no storage with the original.
    pub fn dup(&self) -> (r: Graph)
        ensures
            node_views(r.nodes@) == node_views(self.nodes@),
            r.nodes@.len() == self.nodes@.len(),
            r.edge_views() == self.edge_views(),
            r.edges@.len() == self.edges@.len(),
            self.wf() ==> r.wf(),
    {
        let mut nodes: Vec<Node> = Vec::new();
        let mut n: usize = 0;
        while n < self.nodes.len()
            invariant
                n <= self.nodes@.len(),
                nodes@.len() == n,
                forall|i: int|
                    0 <= i < n ==> (#[trigger] nodes@[i])@ == self.nodes@[i]@ && nodes@[i].op.wf()
                        == self.nodes@[i].op.wf(),
            decreases self.nodes@.len() - n,
        {
            nodes.push(self.nodes[n].dup());
            n += 1;
        }
        let mut edges: Vec<TensorFact> = Vec::new();
        let mut e: usize = 0;
        while e < self.edges.len()
            invariant
                e <= self.edges@.len(),
                edges@.len() == e,
                forall|i: int| 0 <= i < e ==> (#[trigger] edges@[i])@ == self.edges@[i]@,
            decreases self.edges@.len() - e,
        {
            edges.push(self.edges[e].dup());
            e += 1;
        }
        let r = Graph { nodes, edges };
        proof {
            assert(node_views(r.nodes@) =~= node_views(self.nodes@));
            assert(r.edge_views() =~= self.edge_views());
            if self.wf() {
                assert forall|n2: int, i: int|
                    0 <= n2 < r.nodes@.len() && 0 <= i < r.nodes@[n2].inputs@.len() implies (
                #[trigger] r.nodes@[n2].inputs@[i]) < r.edges@.len() by {
                    assert(r.nodes@[n2]@ == self.nodes@[n2]@);
                }
                assert forall|n2: int, i: int|
                    0 <= n2 < r.nodes@.len() && 0 <= i < r.nodes@[n2].outputs@.len() implies (
                #[trigger] r.nodes@[n2].outputs@[i]) < r.edges@.len() by {
                    assert(r.nodes@[n2]@ == self.nodes@[n2]@);
                }
            }
        }
        r
    }

    /// Run the inference solver to a fixpoint: apply every node's rules
    /// and merge their proposals into the edges' recorded facts, pass
    /// after pass, until a full pass changes nothing.  The result on
    /// success is the number of passes run, at least 1; a graph whose
    /// facts are already fully concrete is confirmed in exactly one pass,
    /// unchanged.  A failed merge aborts the pass, naming the offending
    /// edge and both incompatible facts; a graph still changing after
    /// `max_passes` passes aborts with the explicit iteration guard
    /// rather than under-converging silently.
    pub fn analyse(&mut self, max_passes: usize) -> (r: Result<usize, TractError>)
        requires
            old(self).wf(),
            max_passes >= 1,
        ensures
            final(self).wf(),
            final(self).nodes == old(self).nodes,
            final(self).edges@.len() == old(self).edges@.len(),
            forall|e: int|
                0 <= e < old(self).edges@.len() ==> refines(
                    #[trigger] final(self).edge_views()[e],
                    old(self).edge_views()[e],
                ),
            r matches Ok(p) ==> 1 <= p <= max_passes && final(self).at_fixpoint(),
            old(self).at_fixpoint() ==> (r == Ok::<usize, TractError>(1usize)
                && final(self).edge_views() == old(self).edge_views()),
            old(self).all_concrete() && r is Ok ==> r == Ok::<usize, TractError>(1usize)
                && final(self).edge_views() == old(self).edge_views(),
            r matches Err(e) ==> (e matches TractError::MaxIterations { passes } ==> passes
                == max_passes),
            r matches Err(e) ==> (e matches TractError::EdgeConflict { edge, recorded, proposed }
                ==> edge < final(self).edges@.len() && recorded@
                == final(self).edge_views()[edge as int] && !recorded@.unify_ok(proposed@)),
    {
        let ghost nodes0 = self.nodes@;
        let ghost orig_views = self.edge_views();
        let n_edges = self.edges.len();
        let mut pass: usize = 0;
        while pass < max_passes
            invariant
                self.wf(),
                max_passes >= 1,
                self.nodes == old(self).nodes,
                nodes0 == self.nodes@,
                orig_views == old(self).edge_views(),
                n_edges == self.edges@.len(),
                self.edges@.len() == old(self).edges@.len(),
                pass <= max_passes,
                forall|e: int|
                    0 <= e < n_edges ==> refines(#[trigger] self.edge_views()[e], orig_views[e]),
                views_concrete(orig_views) ==> (self.edge_views() == orig_views && pass == 0),
                at_fixpoint_v(nodes0, orig_views) ==> (self.edge_views() == orig_views && pass
                    == 0),
            decreases max_passes - pass,
        {
            let ghost entry_views = self.edge_views();
            let mut changed = false;
            let mut n: usize = 0;
            while n < self.nodes.len()
                invariant
                    self.wf(),
                    self.nodes == old(self).nodes,
                    nodes0 == self.nodes@,
                    orig_views == old(self).edge_views(),
                    n_edges == self.edges@.len(),
                    self.edges@.len() == old(self).edges@.len(),
                    entry_views.len() == n_edges,
                    n <= self.nodes@.len(),
                    forall|e: int|
                        0 <= e < n_edges ==> refines(
                            #[trigger] self.edge_views()[e],
                            entry_views[e],
                        ),
                    forall|e: int|
                        0 <= e < n_edges ==> refines(#[trigger] entry_views[e], orig_views[e]),
                    !changed ==> self.edge_views() == entry_views,
                    !changed ==> forall|k: int|
                        0 <= k < n ==> node_stable_v(nodes0, self.edge_views(), k),
                    views_concrete(orig_views) ==> (entry_views == orig_views && !changed),
                    at_fixpoint_v(nodes0, orig_views) ==> (entry_views == orig_views && !changed),
                decreases self.nodes@.len() - n,
            {
                let ghost views_before = self.edge_views();
                if self.nodes[n].outputs.len() != 1 {
                    proof {
                        if at_fixpoint_v(nodes0, orig_views) {
                            assert(node_stable_v(nodes0, orig_views, n as int));
                            assert(false);
                        }
                    }
                    return Err(
                        TractError::Arity { expected: 1, actual: self.nodes[n].outputs.len() },
                    );
                }
                let out_e = self.nodes[n].outputs[0];
                let n_inputs = self.nodes[n].inputs.len();
                let mut in_facts: Vec<TensorFact> = Vec::new();
                let mut i: usize = 0;
                while i < n_inputs
                    invariant
                        self.wf(),
                        nodes0 == self.nodes@,
                        n < nodes0.len(),
                        n_inputs == nodes0[n as int].inputs@.len(),
                        i <= n_inputs,
                        in_facts@.len() == i,
                        forall|j: int|
                            0 <= j < i ==> (#[trigger] in_facts@[j])@
                                == self.edge_views()[nodes0[n as int].inputs@[j] as int],
                    decreases n_inputs - i,
                {
                    let e = self.nodes[n].inputs[i];
                    in_facts.push(self.edges[e].dup());
                    i += 1;
                }
                let ghost ins = node_ins_v(nodes0, self.edge_views(), n as int);
                proof {
                    assert(fact_views(in_facts@) =~= ins);
                }
                let out_fact = self.edges[out_e].dup();
                let prop = match infer_node(&self.nodes[n].op, &in_facts, &out_fact) {
                    Ok(p) => p,
                    Err(e) => {
                        proof {
                            if at_fixpoint_v(nodes0, orig_views) {
                                assert(self.edge_views() == entry_views);
                                assert(node_stable_v(nodes0, orig_views, n as int));
                                assert(ins == node_ins_v(nodes0, orig_views, n as int));
                                assert(false);
                            }
                        }
                        return Err(e);
                    },
                };
                match prop.output {
                    None => {},
                    Some(f) => {
                        proof {
                            if at_fixpoint_v(nodes0, orig_views) {
                                assert(self.edge_views() == entry_views);
                                assert(node_stable_v(nodes0, orig_views, n as int));
                                assert(ins == node_ins_v(nodes0, orig_views, n as int));
                                assert(self.edge_views()[out_e as int].unify_ok(f@)
                                    && !self.edge_views()[out_e as int].unify_changed(f@));
                            }
                        }
                        match self.edges[out_e].unify_step(&f) {
                            Err(_) => {
                                let recorded = self.edges[out_e].dup();
                                return Err(
                                    TractError::EdgeConflict {
                                        edge: out_e,
                                        recorded: Box::new(recorded),
                                        proposed: Box::new(f),
                                    },
                                );
                            },
                            Ok((merged, ch)) => {
                                proof {
                                    let a = self.edge_views()[out_e as int];
                                    lemma_unify_refines(a, f@);
                                    if !ch {
                                        lemma_tfact_unify_unchanged(a, f@);
                                    }
                                    if views_concrete(orig_views) && !changed {
                                        assert(a == orig_views[out_e as int]);
                                        lemma_concrete_fact_stable(a, f@);
                                    }
                                }
                                let ghost pre = self.edge_views();
                                self.edges.set(out_e, merged);
                                proof {
                                    assert(self.edge_views() =~= pre.update(
                                        out_e as int,
                                        pre[out_e as int].unified(f@),
                                    ));
                                    assert(facts_wf(self.edge_views())) by {
                                        let vs2 = self.edge_views();
                                        crate::tensor::lemma_unify_preserves_consistent(
                                            pre[out_e as int],
                                            f@,
                                        );
                                        assert forall|e2: int| 0 <= e2 < n_edges implies (((
                                        #[trigger] vs2[e2]).value is Only
                                            ==> vs2[e2].value->0.wf()) && vs2[e2].consistent()) by {
                                            if e2 != out_e as int {
                                                assert(vs2[e2] == pre[e2]);
                                            }
                                        }
                                    }
                                }
                                if ch {
                                    changed = true;
                                }
                            },
                        }
                    },
                }
                let ghost views_mid = self.edge_views();
                match prop.input {
                    None => {},
                    Some(f) => {
                        proof {
                            assert(nodes0[n as int].inputs@.len() == 1);
                        }
                        let in_e = self.nodes[n].inputs[0];
                        proof {
                            if at_fixpoint_v(nodes0, orig_views) {
                                assert(!changed);
                                assert(views_before == entry_views);
                                assert(self.edge_views() =~= views_before);
                                assert(node_stable_v(nodes0, orig_views, n as int));
                                assert(ins == node_ins_v(nodes0, orig_views, n as int));
                                assert(f@ == orig_views[nodes0[n as int].outputs@[0] as int]);
                                assert(self.edge_views()[in_e as int].unify_ok(f@)
                                    && !self.edge_views()[in_e as int].unify_changed(f@));
                            }
                        }
                        match self.edges[in_e].unify_step(&f) {
                            Err(_) => {
                                let recorded = self.edges[in_e].dup();
                                return Err(
                                    TractError::EdgeConflict {
                                        edge: in_e,
                                        recorded: Box::new(recorded),
                                        proposed: Box::new(f),
                                    },
                                );
                            },
                            Ok((merged, ch)) => {
                                proof {
                                    let a = self.edge_views()[in_e as int];
                                    lemma_unify_refines(a, f@);
                                    if !ch {
                                        lemma_tfact_unify_unchanged(a, f@);
                                    }
                                    if views_concrete(orig_views) && !changed {
                                        assert(a == orig_views[in_e as int]);
                                        lemma_concrete_fact_stable(a, f@);
                                    }
                                }
                                let ghost pre = self.edge_views();
                                self.edges.set(in_e, merged);
                                proof {
                                    assert(self.edge_views() =~= pre.update(
                                        in_e as int,
                                        pre[in_e as int].unified(f@),
                                    ));
                                    assert(facts_wf(self.edge_views())) by {
                                        let vs2 = self.edge_views();
                                        crate::tensor::lemma_unify_preserves_consistent(
                                            pre[in_e as int],
                                            f@,
                                        );
                                        assert forall|e2: int| 0 <= e2 < n_edges implies (((
                                        #[trigger] vs2[e2]).value is Only
                                            ==> vs2[e2].value->0.wf()) && vs2[e2].consistent()) by {
                                            if e2 != in_e as int {
                                                assert(vs2[e2] == pre[e2]);
                                            }
                                        }
                                    }
                                }
                                if ch {
                                    changed = true;
                                }
                            },
                        }
                    },
                }
                proof {
                    let cur = self.edge_views();
                    assert forall|e2: int| 0 <= e2 < n_edges implies refines(
                        #[trigger] cur[e2],
                        entry_views[e2],
                    ) by {
                        lemma_refines_trans(cur[e2], views_before[e2], entry_views[e2]);
                    }
                    if !changed {
                        assert(cur =~= entry_views);
                        assert forall|k: int| 0 <= k < n + 1 implies node_stable_v(
                            nodes0,
                            cur,
                            k,
                        ) by {
                            if k < n {
                                assert(node_stable_v(nodes0, self.edge_views(), k));
                            } else {
                                assert(fact_views(in_facts@) == ins);
                            }
                        }
                    }
                }
                n += 1;
            }
            if !changed {
                return Ok(pass + 1);
            }
            pass += 1;
        }
        Err(TractError::MaxIterations { passes: max_passes })
    }
}

} // verus!
