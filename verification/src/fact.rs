//! The partial-fact lattice: two-point facts, dimension and shape facts,
//! and their merge ("unification") algebra.

use vstd::prelude::*;

verus! {

/// A scalar element type a tensor may carry.
#[derive(Clone, Copy, Debug, PartialEq, Eq, Structural)]
pub enum DatumType {
    F32,
    F64,
    I32,
    I64,
    Bool,
    Text,
}

/// One tensor dimension: a concrete length, or a named symbolic axis
/// (identified by a numeric symbol) unresolved at graph-build time.
#[derive(Clone, Copy, Debug, PartialEq, Eq, Structural)]
pub enum Dim {
    Fixed(usize),
    Sym(u64),
}

impl Dim {
    pub open spec fn spec_is_one(&self) -> bool {
        *self == Dim::Fixed(1usize)
    }

    /// A dimension of length 1 is broadcast-neutral.
    #[verifier::when_used_as_spec(spec_is_one)]
    pub fn is_one(&self) -> (r: bool)
        ensures
            r == self.spec_is_one(),
    {
        match self {
            Dim::Fixed(n) => *n == 1,
            Dim::Sym(_) => false,
        }
    }
}

/// A partially known value: the two-point lattice with `Any` at the bottom.
#[derive(Clone, Copy, Debug, PartialEq, Eq)]
pub enum Fact<T> {
    Any,
    Only(T),
}

impl<T> Fact<T> {
    pub open spec fn is_concrete(self) -> bool {
        self is Only
    }

    pub open spec fn val(self) -> T
        recommends
            self is Only,
    {
        self->0
    }

    /// Two facts merge unless both are concrete and disagree.
    pub open spec fn merge_ok(self, other: Fact<T>) -> bool {
        self is Any || other is Any || self == other
    }

    /// The merge keeps the concrete side (the left one when both are).
    pub open spec fn merged(self, other: Fact<T>) -> Fact<T> {
        if self is Any {
            other
        } else {
            self
        }
    }
}

/// The merge of any fact with `Any` gives that fact back, and merging is
/// commutative and idempotent.
pub proof fn lemma_fact_merge_laws<T>(a: Fact<T>, b: Fact<T>)
    ensures
        a.merge_ok(Fact::Any) && a.merged(Fact::Any) == a,
        a.merge_ok(a) && a.merged(a) == a,
        a.merge_ok(b) == b.merge_ok(a),
        a.merge_ok(b) ==> a.merged(b) == b.merged(a),
{
}

/// What went wrong during inference or streaming evaluation.
#[derive(Debug)]
pub enum TractError {
    /// An operator was given the wrong number of inputs or outputs.
    Arity { expected: usize, actual: usize },
    /// Two concrete element types disagree.
    TypeConflict { a: DatumType, b: DatumType },
    /// Two concrete dimensions disagree.
    ShapeConflict { a: Dim, b: Dim },
    /// Two concrete tensor values disagree; both are carried for
    /// diagnosis.
    ValueConflict { a: Box<crate::tensor::Tensor>, b: Box<crate::tensor::Tensor> },
    /// Two closed shapes of different rank were compared where equal rank
    /// is required.
    RankMismatch { a: usize, b: usize },
    /// A merge on the named edge failed: the recorded and the proposed
    /// fact are both carried for diagnosis.
    EdgeConflict { edge: usize, recorded: Box<crate::tensor::TensorFact>, proposed: Box<crate::tensor::TensorFact> },
    /// A submitted chunk's shape disagrees with the declared axes.
    StreamingShapeMismatch { input: usize },
    /// A streaming input's position counter cannot advance any further.
    PositionSaturated { input: usize },
    /// A computation needed a fact that never became concrete.
    Unresolved { edge: usize },
    /// The solver hit its explicit iteration guard before a fixpoint.
    MaxIterations { passes: usize },
    /// The streaming planner could not lay the graph out for execution.
    PlanError,
}

/// Spec-level image of a shape fact.
pub ghost struct ShapeView {
    pub is_open: bool,
    pub dims: Seq<Fact<Dim>>,
}

/// An ordered sequence of dimension facts.  When `is_open` is set the rank
/// itself is unknown and `dims` records only a known prefix; otherwise
/// `dims` is exact and its length is the tensor's rank.
#[derive(Debug)]
pub struct ShapeFact {
    pub is_open: bool,
    pub dims: Vec<Fact<Dim>>,
}

impl View for ShapeFact {
    type V = ShapeView;

    open spec fn view(&self) -> ShapeView {
        ShapeView { is_open: self.is_open, dims: self.dims@ }
    }
}

impl ShapeView {
    pub open spec fn rank(self) -> int {
        self.dims.len() as int
    }

    /// Every dimension of a closed shape is concrete.
    pub open spec fn all_concrete(self) -> bool {
        !self.is_open && forall|i: int| 0 <= i < self.dims.len() ==> self.dims[i] is Only
    }

    /// The dimension facts shared by both shapes merge pointwise.
    pub open spec fn prefix_ok(self, o: ShapeView) -> bool {
        forall|i: int|
            0 <= i < self.dims.len() && i < o.dims.len() ==> self.dims[i].merge_ok(#[trigger] o.dims[i])
    }

    /// A closed shape fixes the rank: the other side may not record more
    /// dimensions than that, and two closed shapes must agree on it.
    pub open spec fn rank_ok(self, o: ShapeView) -> bool {
        if !self.is_open && !o.is_open {
            self.dims.len() == o.dims.len()
        } else if !self.is_open {
            o.dims.len() <= self.dims.len()
        } else if !o.is_open {
            self.dims.len() <= o.dims.len()
        } else {
            true
        }
    }

    pub open spec fn unify_ok(self, o: ShapeView) -> bool {
        self.rank_ok(o) && self.prefix_ok(o)
    }

    /// The merged shape is open only when both sides are, and takes the
    /// pointwise merge over the shared prefix.
    pub open spec fn unified(self, o: ShapeView) -> ShapeView {
        ShapeView {
            is_open: self.is_open && o.is_open,
            dims: Seq::new(
                if self.dims.len() >= o.dims.len() { self.dims.len() } else { o.dims.len() },
                |i: int|
                    if i < self.dims.len() && i < o.dims.len() {
                        self.dims[i].merged(o.dims[i])
                    } else if i < self.dims.len() {
                        self.dims[i]
                    } else {
                        o.dims[i]
                    },
            ),
        }
    }

    /// Whether the merge refines the left side at all.
    pub open spec fn unify_changed(self, o: ShapeView) -> bool {
        ||| (self.is_open && !o.is_open)
        ||| o.dims.len() > self.dims.len()
        ||| exists|i: int|
            0 <= i < self.dims.len() && i < o.dims.len() && self.dims[i] is Any
                && #[trigger] o.dims[i] is Only
    }

    /// The first position of the shared prefix whose dimension facts
    /// conflict, scanning from `i`.
    pub open spec fn first_conflict_from(self, o: ShapeView, i: int) -> int
        decreases (if self.dims.len() <= o.dims.len() { self.dims.len() as int } else { o.dims.len() as int }) - i,
    {
        let m = if self.dims.len() <= o.dims.len() { self.dims.len() as int } else { o.dims.len() as int };
        if i < 0 || i >= m {
            m
        } else if !self.dims[i].merge_ok(o.dims[i]) {
            i
        } else {
            self.first_conflict_from(o, i + 1)
        }
    }

    /// The error a failing merge reports: a rank mismatch first, else the
    /// conflicting pair at the first conflicting position.
    pub open spec fn unify_err(self, o: ShapeView) -> TractError {
        if !self.rank_ok(o) {
            TractError::RankMismatch { a: self.dims.len() as usize, b: o.dims.len() as usize }
        } else {
            let i = self.first_conflict_from(o, 0);
            TractError::ShapeConflict { a: self.dims[i].val(), b: o.dims[i].val() }
        }
    }
}

/// If a merge changes nothing, the merged shape is the left shape.
pub proof fn lemma_shape_unify_unchanged(a: ShapeView, b: ShapeView)
    requires
        a.unify_ok(b),
        !a.unify_changed(b),
    ensures
        a.unified(b) == a,
{
    assert(a.unified(b).dims =~= a.dims);
}

impl ShapeFact {
    /// A closed shape: the rank is the number of dimension facts given.
    pub fn closed(dims: Vec<Fact<Dim>>) -> (r: ShapeFact)
        ensures
            r@ == (ShapeView { is_open: false, dims: dims@ }),
    {
        ShapeFact { is_open: false, dims }
    }

    /// An open shape recording only a known prefix of the dimensions.
    pub fn open_with(dims: Vec<Fact<Dim>>) -> (r: ShapeFact)
        ensures
            r@ == (ShapeView { is_open: true, dims: dims@ }),
    {
        ShapeFact { is_open: true, dims }
    }

    /// The fully open shape: nothing known, not even the rank.
    pub fn all() -> (r: ShapeFact)
        ensures
            r@ == (ShapeView { is_open: true, dims: Seq::<Fact<Dim>>::empty() }),
    {
        ShapeFact { is_open: true, dims: Vec::new() }
    }

    /// The closed, fully concrete shape of an evaluated tensor.
    pub fn from_concrete(shape: &Vec<usize>) -> (r: ShapeFact)
        ensures
            !r@.is_open,
            r@.dims.len() == shape@.len(),
            forall|i: int| 0 <= i < shape@.len() ==> r@.dims[i] == Fact::Only(Dim::Fixed(shape@[i])),
    {
        let mut dims: Vec<Fact<Dim>> = Vec::new();
        let mut i: usize = 0;
        while i < shape.len()
            invariant
                i <= shape@.len(),
                dims@.len() == i,
                forall|j: int| 0 <= j < i ==> dims@[j] == Fact::Only(Dim::Fixed(shape@[j])),
            decreases shape@.len() - i,
        {
            dims.push(Fact::Only(Dim::Fixed(shape[i])));
            i += 1;
        }
        ShapeFact { is_open: false, dims }
    }

    /// An exact copy sharing no storage with the original.
    pub fn dup(&self) -> (r: ShapeFact)
        ensures
            r@ == self@,
    {
        let mut dims: Vec<Fact<Dim>> = Vec::new();
        let mut i: usize = 0;
        while i < self.dims.len()
            invariant
                i <= self.dims@.len(),
                dims@.len() == i,
                forall|j: int| 0 <= j < i ==> dims@[j] == self.dims@[j],
            decreases self.dims@.len() - i,
        {
            dims.push(self.dims[i]);
            i += 1;
        }
        let r = ShapeFact { is_open: self.is_open, dims };
        proof {
            assert(r@.dims =~= self@.dims);
        }
        r
    }
}

/// Merge two concrete-or-unknown dimension facts; two concrete dimensions
/// conflict unless equal.
pub fn merge_dim(a: &Fact<Dim>, b: &Fact<Dim>) -> (r: Result<Fact<Dim>, TractError>)
    ensures
        a.merge_ok(*b) ==> r == Ok::<Fact<Dim>, TractError>(a.merged(*b)),
        !a.merge_ok(*b) ==> r == Err::<Fact<Dim>, TractError>(
            TractError::ShapeConflict { a: a.val(), b: b.val() },
        ),
{
    match (a, b) {
        (Fact::Any, _) => Ok(*b),
        (_, Fact::Any) => Ok(*a),
        (Fact::Only(x), Fact::Only(y)) => {
            if *x == *y {
                Ok(*a)
            } else {
                Err(TractError::ShapeConflict { a: *x, b: *y })
            }
        },
    }
}

/// Merge two element-type facts; two concrete types conflict unless equal.
pub fn merge_datum_type(a: &Fact<DatumType>, b: &Fact<DatumType>) -> (r: Result<
    Fact<DatumType>,
    TractError,
>)
    ensures
        a.merge_ok(*b) ==> r == Ok::<Fact<DatumType>, TractError>(a.merged(*b)),
        !a.merge_ok(*b) ==> r == Err::<Fact<DatumType>, TractError>(
            TractError::TypeConflict { a: a.val(), b: b.val() },
        ),
{
    match (a, b) {
        (Fact::Any, _) => Ok(*b),
        (_, Fact::Any) => Ok(*a),
        (Fact::Only(x), Fact::Only(y)) => {
            if *x == *y {
                Ok(*a)
            } else {
                Err(TractError::TypeConflict { a: *x, b: *y })
            }
        },
    }
}

/// Merge two shape facts, reconciling the open flags and the dimension
/// facts of the shared prefix.  Also reports whether the merge refined the
/// left side.
pub fn merge_shape(a: &ShapeFact, b: &ShapeFact) -> (r: Result<(ShapeFact, bool), TractError>)
    ensures
        a@.unify_ok(b@) ==> (r matches Ok(p) && p.0@ == a@.unified(b@) && p.1 == a@.unify_changed(
            b@,
        )),
        !a@.unify_ok(b@) ==> r == Err::<(ShapeFact, bool), TractError>(a@.unify_err(b@)),
{
    let (la, lb) = (a.dims.len(), b.dims.len());
    if !a.is_open && !b.is_open {
        if la != lb {
            return Err(TractError::RankMismatch { a: la, b: lb });
        }
    } else if !a.is_open {
        if lb > la {
            return Err(TractError::RankMismatch { a: la, b: lb });
        }
    } else if !b.is_open {
        if la > lb {
            return Err(TractError::RankMismatch { a: la, b: lb });
        }
    }
    let m = if la <= lb {
        la
    } else {
        lb
    };
    let n = if la >= lb {
        la
    } else {
        lb
    };
    let mut dims: Vec<Fact<Dim>> = Vec::new();
    let mut changed: bool = (a.is_open && !b.is_open) || lb > la;
    let mut i: usize = 0;
    while i < m
        invariant
            m == (if la <= lb { la as int } else { lb as int }),
            la == a@.dims.len(),
            lb == b@.dims.len(),
            a@.rank_ok(b@),
            i <= m,
            dims@.len() == i,
            forall|j: int| 0 <= j < i ==> a@.dims[j].merge_ok(#[trigger] b@.dims[j]),
            forall|j: int| 0 <= j < i ==> dims@[j] == a@.dims[j].merged(b@.dims[j]),
            changed == ((a@.is_open && !b@.is_open) || lb > la || exists|j: int|
                0 <= j < i && a@.dims[j] is Any && #[trigger] b@.dims[j] is Only),
        decreases m - i,
    {
        match merge_dim(&a.dims[i], &b.dims[i]) {
            Ok(d) => {
                if matches!(a.dims[i], Fact::Any) && matches!(b.dims[i], Fact::Only(_)) {
                    changed = true;
                }
                dims.push(d);
            },
            Err(e) => {
                proof {
                    lemma_first_conflict_at(a@, b@, 0, i as int);
                    assert(a@.prefix_ok(b@) ==> a@.dims[i as int].merge_ok(b@.dims[i as int]));
                }
                return Err(e);
            },
        }
        i += 1;
    }
    let mut j: usize = m;
    while j < n
        invariant
            m == (if la <= lb { la as int } else { lb as int }),
            n == (if la >= lb { la as int } else { lb as int }),
            la == a@.dims.len(),
            lb == b@.dims.len(),
            m <= j <= n,
            dims@.len() == j,
            forall|t: int| 0 <= t < m ==> dims@[t] == a@.dims[t].merged(b@.dims[t]),
            forall|t: int| m <= t < j ==> dims@[t] == (if t < la { a@.dims[t] } else { b@.dims[t] }),
        decreases n - j,
    {
        if j < la {
            dims.push(a.dims[j]);
        } else {
            dims.push(b.dims[j]);
        }
        j += 1;
    }
    let out = ShapeFact { is_open: a.is_open && b.is_open, dims };
    proof {
        assert(out@.dims =~= a@.unified(b@).dims);
    }
    Ok((out, changed))
}

/// When every position before `i` merges and `i` does not, the scan for
/// the first conflict, started at `j`, stops exactly at `i`.
proof fn lemma_first_conflict_at(a: ShapeView, b: ShapeView, j: int, i: int)
    requires
        0 <= j <= i,
        i < a.dims.len(),
        i < b.dims.len(),
        !a.dims[i].merge_ok(b.dims[i]),
        forall|t: int| j <= t < i ==> a.dims[t].merge_ok(#[trigger] b.dims[t]),
    ensures
        a.first_conflict_from(b, j) == i,
    decreases i - j,
{
    if j < i {
        lemma_first_conflict_at(a, b, j + 1, i);
    }
}

} // verus!
