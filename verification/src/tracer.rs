//! Tracing: values that record the operations applied to them as a compute graph.

use vstd::prelude::*;
use crate::error::EvalError;
use crate::manipulate;
use crate::model;
use crate::model::{BinOpV, Fault, TensorV, UnOpV};
use crate::nn;
use crate::nn::{
    Atom, AtomKind, AtomV, ComputeGraph, EqnV, Equation, GraphV, PrimV, Primitive,
};
use crate::op::{BinOp, UnOp};
use crate::scalar::Scalar;
use crate::shape;
use crate::tensor;
use crate::tensor::Tensor;
use crate::text;
use crate::value::Value;

verus! {

/// A compute graph under construction.
#[derive(Debug)]
pub struct ComputeGraphBuilder<S> {
    n_atoms: usize,
    equations: Vec<Equation<S>>,
    invars: Vec<Atom<S>>,
}

/// A mathematical graph under construction: `next` is the number of the next generated name.
#[verifier::ext_equal]
pub struct BuilderV<S> {
    pub next: nat,
    pub equations: Seq<EqnV<S>>,
    pub invars: Seq<AtomV<S>>,
}

impl<S> View for ComputeGraphBuilder<S> {
    type V = BuilderV<S>;

    closed spec fn view(&self) -> BuilderV<S> {
        BuilderV {
            next: self.n_atoms as nat,
            equations: nn::eqn_views(self.equations@),
            invars: nn::atom_views(self.invars@),
        }
    }
}

/// Generated name number `n`.
pub open spec fn generated(n: nat) -> Seq<char> {
    text::numbered("a"@, n)
}

/// The number of a generated name.
pub open spec fn generated_number(name: Seq<char>) -> Option<nat> {
    if name.len() > 0 && name[0] == 'a' {
        text::parsed(name.drop_first())
    } else {
        None
    }
}

/// The smallest number above those of the first `k` names.
pub open spec fn number_above(names: Seq<Seq<char>>, k: nat) -> nat
    decreases k,
{
    if k == 0 {
        0
    } else {
        let m = number_above(names, (k - 1) as nat);
        match generated_number(names[k - 1]) {
            Some(n) => if n >= m {
                n + 1
            } else {
                m
            },
            None => m,
        }
    }
}

/// The names of some atoms.
pub open spec fn atom_names<S>(atoms: Seq<AtomV<S>>) -> Seq<Seq<char>> {
    Seq::new(atoms.len(), |i: int| atoms[i].name)
}

/// The number from which on names are generated beside some names. No name is generated from the
/// largest number on.
pub open spec fn first_number(names: Seq<Seq<char>>) -> nat {
    let n = number_above(names, names.len());
    if n <= usize::MAX {
        n
    } else {
        usize::MAX as nat
    }
}

/// The names of the variables of a graph.
pub open spec fn graph_names<S>(g: GraphV<S>) -> Seq<Seq<char>> {
    Seq::new(g.invars.len(), |i: int| g.invars[i].name) + Seq::new(
        g.equations.len(),
        |i: int| g.equations[i].out.name,
    )
}

/// A graph reopened for construction: generated names continue behind those in the graph.
pub open spec fn reopened<S>(g: GraphV<S>) -> BuilderV<S> {
    BuilderV {
        next: number_above(graph_names(g), graph_names(g).len()),
        equations: g.equations,
        invars: g.invars,
    }
}

/// The graph under construction with one more equation, whose result gets a generated name.
pub open spec fn extended<S>(b: BuilderV<S>, p: PrimV<S>, s: Seq<usize>) -> BuilderV<S> {
    BuilderV {
        next: b.next + 1,
        equations: b.equations.push(
            EqnV { prim: p, out: nn::variable(generated(b.next), s) },
        ),
        invars: b.invars,
    }
}

impl<S: Scalar> ComputeGraphBuilder<S> {
    pub fn new() -> (r: Self)
        ensures
            r@ == (BuilderV::<S> { next: 0, equations: Seq::empty(), invars: Seq::empty() }),
    {
        let r = ComputeGraphBuilder { n_atoms: 0, equations: Vec::new(), invars: Vec::new() };
        assert(r@ =~= (BuilderV::<S> { next: 0, equations: Seq::empty(), invars: Seq::empty() }));
        r
    }

    /// An empty graph whose generated names start behind those of some inputs, so that no result
    /// is named like an input.
    pub(crate) fn beside(inputs: &Vec<(String, Vec<usize>)>) -> (r: Self)
        ensures
            r@ == (BuilderV::<S> {
                next: first_number(Seq::new(inputs@.len(), |i: int| inputs@[i].0@)),
                equations: Seq::empty(),
                invars: Seq::empty(),
            }),
    {
        let ghost names = Seq::new(inputs@.len(), |i: int| inputs@[i].0@);
        let mut next: usize = 0;
        let mut full: bool = false;
        for i in 0..inputs.len()
            invariant
                names == Seq::new(inputs@.len(), |i: int| inputs@[i].0@),
                !full ==> next == number_above(names, i as nat),
                full ==> number_above(names, i as nat) > usize::MAX,
        {
            proof {
                lemma_number_bound(names, i as nat);
            }
            if !full {
                match bump(next, inputs[i].0.as_str()) {
                    Some(k) => {
                        next = k;
                    },
                    None => {
                        full = true;
                    },
                }
            }
        }
        if full {
            next = usize::MAX;
        }
        let r = ComputeGraphBuilder { n_atoms: next, equations: Vec::new(), invars: Vec::new() };
        assert(r@.equations =~= Seq::empty());
        assert(r@.invars =~= Seq::empty());
        r
    }

    /// Adds an input.
    pub fn register_invar(&mut self, name: String, shape: Vec<usize>) -> (r: Atom<S>)
        ensures
            r@ == nn::variable::<S>(name@, shape@),
            final(self)@ == (BuilderV {
                next: old(self)@.next,
                equations: old(self)@.equations,
                invars: old(self)@.invars.push(nn::variable(name@, shape@)),
            }),
    {
        let atom = Atom::var(name, shape);
        let ghost before = self@.invars;
        self.invars.push(atom.clone());
        assert(self@.invars =~= before.push(atom@));
        atom
    }

    /// Whether another name can be generated.
    fn has_name(&self) -> (r: bool)
        ensures
            r == (self@.next < usize::MAX),
    {
        self.n_atoms < usize::MAX
    }

    /// Adds an equation, whose result gets a generated name.
    pub fn build_equation(&mut self, primitive: Primitive<S>, shape: Vec<usize>) -> (r: Atom<S>)
        requires
            old(self)@.next < usize::MAX,
        ensures
            r@ == nn::variable::<S>(generated(old(self)@.next), shape@),
            final(self)@ == extended(old(self)@, primitive@, shape@),
    {
        let outvar = Atom::var(text::with_number("a", self.n_atoms), shape);
        self.n_atoms = self.n_atoms + 1;
        let res = outvar.clone();
        let ghost before = nn::eqn_views(self.equations@);
        let eqn = Equation { primitive, outvar };
        let ghost e = eqn@;
        self.equations.push(eqn);
        assert(nn::eqn_views(self.equations@) =~= before.push(e));
        res
    }

    /// The finished graph, with one output.
    pub fn build(self, outvar: Atom<S>) -> (r: ComputeGraph<S>)
        ensures
            r@ == (GraphV {
                invars: self@.invars,
                outvars: seq![outvar@],
                equations: self@.equations,
            }),
    {
        let outvars: Vec<Atom<S>> = vec![outvar];
        assert(nn::atom_views(outvars@) =~= seq![outvar@]);
        ComputeGraph { invars: self.invars, outvars, equations: self.equations }
    }

    /// Reopens a graph. Generated names continue behind those in the graph, so that new
    /// equations cannot collide with atoms already in it; `None` if they cannot.
    pub fn from_graph(graph: ComputeGraph<S>) -> (r: Option<Self>)
        ensures
            match r {
                Some(b) => b@ == reopened(graph@) && reopened(graph@).next <= usize::MAX,
                None => reopened(graph@).next > usize::MAX,
            },
    {
        let ghost names = graph_names(graph@);
        let (n, m) = (graph.invars.len(), graph.equations.len());
        let mut next: usize = 0;
        let mut full: bool = false;
        for i in 0..n
            invariant
                n == graph.invars@.len(),
                names == graph_names(graph@),
                !full ==> next == number_above(names, i as nat),
                full ==> number_above(names, i as nat) > usize::MAX,
        {
            assert(names[i as int] == graph.invars@[i as int].name@);
            proof {
                lemma_number_bound(names, i as nat);
            }
            if !full {
                match bump(next, graph.invars[i].name.as_str()) {
                    Some(k) => {
                        next = k;
                    },
                    None => {
                        full = true;
                    },
                }
            }
        }
        for i in 0..m
            invariant
                n == graph.invars@.len(),
                m == graph.equations@.len(),
                names == graph_names(graph@),
                !full ==> next == number_above(names, (n + i) as nat),
                full ==> number_above(names, (n + i) as nat) > usize::MAX,
        {
            assert(names[n + i] == graph.equations@[i as int].outvar.name@);
            proof {
                lemma_number_bound(names, (n + i) as nat);
            }
            if !full {
                match bump(next, graph.equations[i].outvar.name.as_str()) {
                    Some(k) => {
                        next = k;
                    },
                    None => {
                        full = true;
                    },
                }
            }
        }
        if full {
            return None;
        }
        Some(
            ComputeGraphBuilder {
                n_atoms: next,
                equations: graph.equations,
                invars: graph.invars,
            },
        )
    }
}

/// The number above those of some names does not decrease with one more name.
proof fn lemma_number_bound(names: Seq<Seq<char>>, k: nat)
    ensures
        number_above(names, k) <= number_above(names, k + 1),
{
}

/// The smallest number above `next` and that of a name, if it fits a `usize`.
fn bump(next: usize, name: &str) -> (r: Option<usize>)
    ensures
        ({
            let m = match generated_number(name@) {
                Some(n) => if n >= next {
                    n + 1
                } else {
                    next as nat
                },
                None => next as nat,
            };
            match r {
                Some(k) => k == m,
                None => m > usize::MAX,
            }
        }),
{
    if !text::starts_with(name, 'a') {
        return Some(next);
    }
    assert(name@.subrange(1, name@.len() as int) =~= name@.drop_first());
    match text::parse_from(name, 1) {
        Some(n) => if n >= next {
            n.checked_add(1)
        } else {
            Some(next)
        },
        None => Some(next),
    }
}

/// A value that stands for a variable of the graph under construction, or for a constant.
#[derive(Debug)]
pub struct Tracer<S> {
    atom: Atom<S>,
    traced: bool,
}

/// A mathematical traced value.
#[verifier::ext_equal]
pub struct TracerV<S> {
    pub atom: AtomV<S>,
    pub traced: bool,
}

impl<S> View for Tracer<S> {
    type V = TracerV<S>;

    closed spec fn view(&self) -> TracerV<S> {
        TracerV { atom: self.atom@, traced: self.traced }
    }
}

/// A traced value that stands for an atom of the graph.
pub open spec fn tracing<S>(a: AtomV<S>) -> TracerV<S> {
    TracerV { atom: a, traced: true }
}

/// A value that stands for a constant tensor.
pub open spec fn constant_tracer<S>(t: TensorV<S>) -> TracerV<S> {
    TracerV {
        atom: AtomV { name: Seq::empty(), shape: t.shape, value: Some(t) },
        traced: false,
    }
}

impl<S: Scalar> Tracer<S> {
    /// The value that stands for an atom of the graph under construction.
    pub fn new(atom: Atom<S>) -> (r: Self)
        ensures
            r@ == tracing(atom@),
    {
        Tracer { atom, traced: true }
    }

    /// The value that stands for a constant tensor.
    pub fn from_tensor(t: Tensor<S>) -> (r: Self)
        ensures
            r@ == constant_tracer(t@),
    {
        let shape = tensor::copy_of(t.shape());
        Tracer {
            atom: Atom { name: String::new(), shape, kind: AtomKind::Const(t) },
            traced: false,
        }
    }

    /// The atom that the value stands for.
    pub fn atom(&self) -> (r: &Atom<S>)
        ensures
            r@ == self@.atom,
    {
        &self.atom
    }
}

// ---- the shapes that are recorded ----
/// The recorded shape of a reshape.
pub open spec fn traced_reshape(d: Seq<isize>, s: Seq<usize>) -> Result<Seq<usize>, Fault> {
    let infers = exists|i: int| 0 <= i < d.len() && #[trigger] d[i] < 0;
    if !shape::fits(s) || model::known_size(d) > usize::MAX {
        Err(Fault::Size)
    } else if infers && model::known_size(d) == 0 {
        Err(Fault::Reshape)
    } else {
        Ok(model::resolved(d, shape::product(s)))
    }
}

/// Whether windows along the last axes lie in a tensor of shape `s` and move.
pub open spec fn tail_windows_ok(s: Seq<usize>, window: Seq<usize>, stride: Seq<usize>) -> bool {
    forall|i: int|
        0 <= i < window.len() ==> #[trigger] window[i] <= s[i + s.len() - window.len()]
            && stride[i] > 0
}

/// The recorded shape of a pooling operation, whose windows run along the last axes.
pub open spec fn traced_pool(s: Seq<usize>, window: Seq<usize>, stride: Seq<usize>) -> Result<
    Seq<usize>,
    Fault,
> {
    if window.len() > s.len() || stride.len() < window.len() {
        Err(Fault::PoolRank)
    } else if !tail_windows_ok(s, window, stride) {
        Err(Fault::Window)
    } else {
        let d = s.len() - window.len();
        if exists|i: int|
            0 <= i < window.len() && (s[i + d] - window[i]) / (#[trigger] stride[i] as int) + 1
                > usize::MAX {
            Err(Fault::Size)
        } else {
            Ok(
                Seq::new(
                    s.len(),
                    |i: int|
                        if i < d {
                            s[i]
                        } else {
                            ((s[i] - window[i - d]) / (stride[i - d] as int) + 1) as usize
                        },
                ),
            )
        }
    }
}

/// The recorded shape of an operation on a value of shape `s`.
pub open spec fn traced_un_shape<S>(op: UnOpV<S>, s: Seq<usize>) -> Result<Seq<usize>, Fault> {
    if s.len() > isize::MAX {
        Err(Fault::Size)
    } else {
        let n = s.len() as int;
        match op {
            UnOpV::ReduceSum(axes) => Ok(model::drop_axes(s, axes, n, n as nat)),
            UnOpV::ExpandDims(axes) => if s.len() + axes.len() > isize::MAX {
                Err(Fault::Size)
            } else if model::unnamed_below(
                axes,
                n + axes.len(),
                (n + axes.len()) as nat,
            ) == s.len() {
                Ok(model::expanded(s, axes))
            } else {
                Err(Fault::Axis)
            },
            UnOpV::Reshape(d) => traced_reshape(d, s),
            UnOpV::Slice(axis, start, end, step) => if !shape::axis_ok(axis as int, n) {
                Err(Fault::Axis)
            } else if step == 0 {
                Err(Fault::Step)
            } else if s[shape::norm_axis(axis as int, n)] > isize::MAX {
                Err(Fault::Size)
            } else {
                model::un_shape(op, s)
            },
            UnOpV::Pad(p) => if forall|i: int|
                0 <= i < s.len() ==> #[trigger] model::pad_len(p, s, i) <= usize::MAX {
                Ok(Seq::new(s.len(), |i: int| model::pad_len(p, s, i) as usize))
            } else {
                Err(Fault::Size)
            },
            UnOpV::Pool(window, stride, _) => traced_pool(s, window, stride),
            _ => model::un_shape(op, s),
        }
    }
}

/// The recorded shape of an operation on values of shapes `a` and `b`.
pub open spec fn traced_bin_shape(op: BinOpV, a: Seq<usize>, b: Seq<usize>) -> Result<
    Seq<usize>,
    Fault,
> {
    match op {
        BinOpV::Add | BinOpV::Mul => match shape::broadcast(a, b) {
            Some(s) => Ok(s),
            None => Err(Fault::Broadcast),
        },
        BinOpV::Dot => if a.len() == 0 {
            Ok(b)
        } else if b.len() == 0 {
            Ok(a)
        } else if b.len() == 1 {
            Ok(a.drop_last())
        } else {
            Ok(a.drop_last() + b.subrange(0, b.len() - 2) + seq![b.last()])
        },
        BinOpV::Conv(stride) => {
            let s = stride as usize;
            if a.len() < 4 || b.len() < 4 {
                Err(Fault::ConvRank)
            } else if s == 0 || a[2] < b[2] || a[3] < b[3] {
                Err(Fault::Window)
            } else if (a[2] - b[2]) / (s as int) + 1 > usize::MAX || (a[3] - b[3]) / (s as int) + 1
                > usize::MAX {
                Err(Fault::Size)
            } else {
                Ok(
                    seq![
                        a[0],
                        b[0],
                        ((a[2] - b[2]) / (s as int) + 1) as usize,
                        ((a[3] - b[3]) / (s as int) + 1) as usize,
                    ],
                )
            }
        },
        BinOpV::ConvKernelGrad(_, k) => Ok(k),
    }
}

/// Records an equation with a result of shape `s`.
pub open spec fn emitted<S>(b: BuilderV<S>, p: PrimV<S>, s: Result<Seq<usize>, Fault>) -> (
    BuilderV<S>,
    Result<TracerV<S>, Fault>,
) {
    match s {
        Err(f) => (b, Err(f)),
        Ok(s) => if b.next >= usize::MAX {
            (b, Err(Fault::Size))
        } else {
            (extended(b, p, s), Ok(tracing(nn::variable(generated(b.next), s))))
        },
    }
}

/// A folded constant.
pub open spec fn folded<S>(b: BuilderV<S>, r: Result<TensorV<S>, Fault>) -> (
    BuilderV<S>,
    Result<TracerV<S>, Fault>,
) {
    (
        b,
        match r {
            Ok(t) => Ok(constant_tracer(t)),
            Err(f) => Err(f),
        },
    )
}

/// An operation on one traced value: folded for a constant, recorded otherwise.
pub open spec fn traced_unary<S: Scalar>(b: BuilderV<S>, op: UnOpV<S>, x: TracerV<S>) -> (
    BuilderV<S>,
    Result<TracerV<S>, Fault>,
) {
    if !x.traced && x.atom.value is Some {
        folded(b, model::un_tensor(op, x.atom.value->0))
    } else {
        emitted(b, PrimV::Un(op, x.atom), traced_un_shape(op, x.atom.shape))
    }
}

/// An operation on two traced values: folded for constants, recorded otherwise.
pub open spec fn traced_binary<S: Scalar>(
    b: BuilderV<S>,
    op: BinOpV,
    x: TracerV<S>,
    y: TracerV<S>,
) -> (BuilderV<S>, Result<TracerV<S>, Fault>) {
    if !x.traced && !y.traced && x.atom.value is Some && y.atom.value is Some {
        folded(b, model::bin_tensor(op, x.atom.value->0, y.atom.value->0))
    } else {
        emitted(
            b,
            PrimV::Bin(op, x.atom, y.atom),
            traced_bin_shape(op, x.atom.shape, y.atom.shape),
        )
    }
}

/// A selection between traced values: folded for constants, recorded otherwise.
pub open spec fn traced_select<S: Scalar>(
    b: BuilderV<S>,
    p: TracerV<S>,
    x: TracerV<S>,
    y: TracerV<S>,
) -> (BuilderV<S>, Result<TracerV<S>, Fault>) {
    if !p.traced && !x.traced && !y.traced && p.atom.value is Some && x.atom.value is Some
        && y.atom.value is Some {
        folded(
            b,
            model::select_tensor(p.atom.value->0, x.atom.value->0, y.atom.value->0),
        )
    } else {
        emitted(b, PrimV::Select(p.atom, x.atom, y.atom), Ok(x.atom.shape))
    }
}

// ---- recording ----
/// A reduced shape.
fn reduced_shape(s: &[usize], axes: &[isize]) -> (r: Vec<usize>)
    requires
        s@.len() <= isize::MAX,
    ensures
        r@ == model::drop_axes(s@, axes@, s@.len() as int, s@.len()),
{
    let n = s.len();
    let mut out = tensor::copy_of(s);
    for i in 0..n
        invariant
            n == s@.len(),
            n <= isize::MAX,
            out@.len() >= n - i,
            model::drop_axes(s@, axes@, n as int, n as nat) == model::drop_axes(
                out@,
                axes@,
                n as int,
                (n - i) as nat,
            ),
    {
        let ax = n - 1 - i;
        if manipulate::is_named(axes, n, ax) {
            out.remove(ax);
        }
    }
    out
}

/// The recorded shape of a reshape.
fn reshape_shape(d: &[isize], s: &[usize]) -> (r: Result<Vec<usize>, EvalError>)
    ensures
        match (r, traced_reshape(d@, s@)) {
            (Ok(v), Ok(w)) => v@ == w,
            (Err(e), Err(f)) => e@ == f,
            _ => false,
        },
{
    if !shape::check_fits(s) {
        return Err(EvalError::Size);
    }
    let known: usize = match manipulate::known_dims(d) {
        Some(k) => k,
        None => {
            return Err(EvalError::Size);
        },
    };
    let n = s.len();
    let total = shape::size_of(s, 0, n);
    assert(s@.subrange(0, n as int) =~= s@);
    let mut infer: bool = false;
    for i in 0..d.len()
        invariant
            infer == exists|j: int| 0 <= j < i && #[trigger] d@[j] < 0,
    {
        if d[i] < 0 {
            infer = true;
            assert(d@[i as int] < 0);
        }
    }
    if infer && known == 0 {
        return Err(EvalError::Reshape);
    }
    let fill: usize = if known == 0 {
        0
    } else {
        total / known
    };
    let ghost want = model::resolved(d@, total as nat);
    let mut out: Vec<usize> = Vec::new();
    for i in 0..d.len()
        invariant
            out@.len() == i,
            want == model::resolved(d@, total as nat),
            fill == model::inferred(total as nat, model::known_size(d@)),
            forall|j: int| 0 <= j < i ==> out@[j] == want[j],
    {
        if d[i] < 0 {
            out.push(fill);
        } else {
            out.push(d[i] as usize);
        }
    }
    assert(out@ =~= want);
    Ok(out)
}

/// The recorded shape of a pooling operation.
fn pool_shape(s: &[usize], window: &[usize], stride: &[usize]) -> (r: Result<Vec<usize>, EvalError>)
    ensures
        match (r, traced_pool(s@, window@, stride@)) {
            (Ok(v), Ok(w)) => v@ == w,
            (Err(e), Err(f)) => e@ == f,
            _ => false,
        },
{
    let (n, m) = (s.len(), window.len());
    if m > n || stride.len() < m {
        return Err(EvalError::PoolRank);
    }
    let d = n - m;
    for i in 0..m
        invariant
            n == s@.len(),
            m == window@.len(),
            m <= n,
            m <= stride@.len(),
            d == n - m,
            forall|j: int|
                0 <= j < i ==> #[trigger] window@[j] <= s@[j + n - m] && stride@[j] > 0,
    {
        if window[i] > s[d + i] || stride[i] == 0 {
            assert(!(window@[i as int] <= s@[i + n - m] && stride@[i as int] > 0));
            return Err(EvalError::Window);
        }
    }
    assert(tail_windows_ok(s@, window@, stride@));
    let mut out: Vec<usize> = Vec::new();
    for i in 0..d
        invariant
            n == s@.len(),
            d <= n,
            out@ == s@.subrange(0, i as int),
    {
        out.push(s[i]);
    }
    for i in 0..m
        invariant
            n == s@.len(),
            m == window@.len(),
            m <= n,
            m <= stride@.len(),
            d == n - m,
            tail_windows_ok(s@, window@, stride@),
            out@.len() == d + i,
            forall|j: int| 0 <= j < d ==> out@[j] == s@[j],
            forall|j: int|
                d <= j < d + i ==> out@[j] == (s@[j] - window@[j - d]) / (stride@[j - d] as int)
                    + 1,
            forall|j: int|
                0 <= j < i ==> (s@[j + d] - window@[j]) / (#[trigger] stride@[j] as int) + 1
                    <= usize::MAX,
    {
        assert(window@[i as int] <= s@[i + n - m] && stride@[i as int] > 0);
        let q = (s[d + i] - window[i]) / stride[i];
        if q == usize::MAX {
            assert((s@[i + d] - window@[i as int]) / (stride@[i as int] as int) + 1 > usize::MAX);
            return Err(EvalError::Size);
        }
        out.push(q + 1);
    }
    assert(out@ =~= traced_pool(s@, window@, stride@)->Ok_0);
    Ok(out)
}

/// The recorded shape of an operation on one value.
fn un_shape<S: Scalar>(op: &UnOp<S>, s: &[usize]) -> (r: Result<Vec<usize>, EvalError>)
    ensures
        match (r, traced_un_shape(op@, s@)) {
            (Ok(v), Ok(w)) => v@ == w,
            (Err(e), Err(f)) => e@ == f,
            _ => false,
        },
{
    let n = s.len();
    if n > isize::MAX as usize {
        return Err(EvalError::Size);
    }
    let nd = n as isize;
    match op {
        UnOp::ReduceSum(axes) => Ok(reduced_shape(s, axes)),
        UnOp::ExpandDims(axes) => {
            let total: usize = match n.checked_add(axes.len()) {
                Some(t) => t,
                None => {
                    return Err(EvalError::Size);
                },
            };
            if total > isize::MAX as usize {
                return Err(EvalError::Size);
            }
            match manipulate::expanded_shape(s, axes, total) {
                Some(out) => Ok(out),
                None => Err(EvalError::Axis),
            }
        },
        UnOp::MoveAxis(a, b) => {
            if *a < -nd || *a >= nd || *b < -nd || *b >= nd {
                return Err(EvalError::Axis);
            }
            let src = shape::norm_axis_index(*a, n);
            let dst = shape::norm_axis_index(*b, n);
            let mut out = tensor::copy_of(s);
            let d = out.remove(src);
            out.insert(dst, d);
            assert(out@ =~= model::moved(s@, src as int, dst as int));
            Ok(out)
        },
        UnOp::Reshape(d) => reshape_shape(d, s),
        UnOp::Slice(axis, start, end, step) => {
            if *axis < -nd || *axis >= nd {
                return Err(EvalError::Axis);
            }
            if *step == 0 {
                return Err(EvalError::Step);
            }
            let ax = shape::norm_axis_index(*axis, n);
            if s[ax] > isize::MAX as usize {
                return Err(EvalError::Size);
            }
            let count = manipulate::slice_length(s[ax], *start, *end, *step);
            let mut out = tensor::copy_of(s);
            out.set(ax, count);
            Ok(out)
        },
        UnOp::Pad(p) => {
            let mut out: Vec<usize> = Vec::new();
            for i in 0..n
                invariant
                    n == s@.len(),
                    n <= isize::MAX,
                    op@ == UnOpV::Pad(p@),
                    out@.len() == i,
                    forall|j: int|
                        0 <= j < i ==> out@[j] == #[trigger] model::pad_len(p@, s@, j),
            {
                if manipulate::is_named(&p.axes, n, i) {
                    match manipulate::padded_length(p, s[i]) {
                        Some(l) => {
                            out.push(l);
                        },
                        None => {
                            assert(model::pad_len(p@, s@, i as int) > usize::MAX);
                            return Err(EvalError::Size);
                        },
                    }
                } else {
                    out.push(s[i]);
                }
            }
            proof {
                assert(forall|j: int|
                    0 <= j < n ==> #[trigger] model::pad_len(p@, s@, j) <= usize::MAX);
                assert(out@ =~= Seq::new(s@.len(), |i: int| model::pad_len(p@, s@, i) as usize));
            }
            Ok(out)
        },
        UnOp::Pool(o, _) => pool_shape(s, &o.window_size, &o.stride),
        _ => Ok(tensor::copy_of(s)),
    }
}

/// The recorded shape of an operation on two values.
fn bin_shape(op: &BinOp, a: &[usize], b: &[usize]) -> (r: Result<Vec<usize>, EvalError>)
    ensures
        match (r, traced_bin_shape(op@, a@, b@)) {
            (Ok(v), Ok(w)) => v@ == w,
            (Err(e), Err(f)) => e@ == f,
            _ => false,
        },
{
    match op {
        BinOp::Add | BinOp::Mul => match shape::broadcast_shape(a, b) {
            Some(s) => Ok(s),
            None => Err(EvalError::Broadcast),
        },
        BinOp::Dot => {
            let (n, m) = (a.len(), b.len());
            if n == 0 {
                return Ok(tensor::copy_of(b));
            }
            if m == 0 {
                return Ok(tensor::copy_of(a));
            }
            let mut out = tensor::copy_of(a);
            out.remove(n - 1);
            assert(out@ =~= a@.drop_last());
            if m > 1 {
                for i in 0..m - 2
                    invariant
                        m == b@.len(),
                        m > 1,
                        out@ == a@.drop_last() + b@.subrange(0, i as int),
                {
                    out.push(b[i]);
                    assert(out@ =~= a@.drop_last() + b@.subrange(0, i + 1));
                }
                out.push(b[m - 1]);
                assert(out@ =~= a@.drop_last() + b@.subrange(0, m - 2) + seq![b@.last()]);
            }
            Ok(out)
        },
        BinOp::Conv(stride) => {
            let s = *stride as usize;
            if a.len() < 4 || b.len() < 4 {
                return Err(EvalError::ConvRank);
            }
            if s == 0 || a[2] < b[2] || a[3] < b[3] {
                return Err(EvalError::Window);
            }
            let h = (a[2] - b[2]) / s;
            let w = (a[3] - b[3]) / s;
            if h == usize::MAX || w == usize::MAX {
                return Err(EvalError::Size);
            }
            let out: Vec<usize> = vec![a[0], b[0], h + 1, w + 1];
            assert(out@ =~= seq![a@[0], b@[0], (h + 1) as usize, (w + 1) as usize]);
            Ok(out)
        },
        BinOp::ConvKernelGrad(_, k) => Ok(tensor::copy_of(k)),
    }
}

impl<S: Scalar> Tracer<S> {
    /// A copy.
    pub fn dup(&self) -> (r: Self)
        ensures
            r@ == self@,
    {
        Tracer { atom: self.atom.clone(), traced: self.traced }
    }

    /// The constant that the value stands for, unless it stands for an atom of the graph.
    fn untraced(&self) -> (r: Option<&Tensor<S>>)
        ensures
            match r {
                Some(t) => !self@.traced && self@.atom.value == Some(t@),
                None => self@.traced || self@.atom.value is None,
            },
    {
        if self.traced {
            return None;
        }
        match &self.atom.kind {
            AtomKind::Const(t) => Some(t),
            AtomKind::Var => None,
        }
    }

    /// Records an equation.
    fn emit(b: &mut ComputeGraphBuilder<S>, p: Primitive<S>, s: Vec<usize>) -> (r: Result<
        Self,
        EvalError,
    >)
        ensures
            final(b)@ == emitted(old(b)@, p@, Ok(s@)).0,
            match (r, emitted(old(b)@, p@, Ok(s@)).1) {
                (Ok(v), Ok(w)) => v@ == w,
                (Err(e), Err(f)) => e@ == f,
                _ => false,
            },
    {
        if !b.has_name() {
            return Err(EvalError::Size);
        }
        let atom = b.build_equation(p, s);
        Ok(Tracer { atom, traced: true })
    }
}

impl<S: Scalar> Value<S> for Tracer<S> {
    type M = TracerV<S>;

    type Cx = ComputeGraphBuilder<S>;

    type C = BuilderV<S>;

    open spec fn m(&self) -> TracerV<S> {
        self@
    }

    open spec fn c(cx: &ComputeGraphBuilder<S>) -> BuilderV<S> {
        cx@
    }

    open spec fn shape_of(m: TracerV<S>) -> Seq<usize> {
        m.atom.shape
    }

    open spec fn constant(t: TensorV<S>) -> TracerV<S> {
        constant_tracer(t)
    }

    open spec fn tensor_of(m: TracerV<S>) -> Option<TensorV<S>> {
        m.atom.value
    }

    open spec fn unary(c: BuilderV<S>, op: UnOpV<S>, a: TracerV<S>) -> (
        BuilderV<S>,
        Result<TracerV<S>, Fault>,
    ) {
        traced_unary(c, op, a)
    }

    open spec fn binary(c: BuilderV<S>, op: BinOpV, a: TracerV<S>, b: TracerV<S>) -> (
        BuilderV<S>,
        Result<TracerV<S>, Fault>,
    ) {
        traced_binary(c, op, a, b)
    }

    open spec fn select(c: BuilderV<S>, p: TracerV<S>, x: TracerV<S>, y: TracerV<S>) -> (
        BuilderV<S>,
        Result<TracerV<S>, Fault>,
    ) {
        traced_select(c, p, x, y)
    }

    fn dims(&self) -> (r: &[usize]) {
        &self.atom.shape
    }

    fn copy(&self) -> (r: Self) {
        self.dup()
    }

    fn lift(t: Tensor<S>) -> (r: Self) {
        Tracer::from_tensor(t)
    }

    fn as_tensor(&self) -> (r: Option<&Tensor<S>>) {
        match &self.atom.kind {
            AtomKind::Const(t) => Some(t),
            AtomKind::Var => None,
        }
    }

    fn apply1(&self, op: &UnOp<S>, cx: &mut ComputeGraphBuilder<S>) -> (r: Result<
        Self,
        EvalError,
    >) {
        if let Some(t) = self.untraced() {
            let v = t.unary(op)?;
            return Ok(Tracer::from_tensor(v));
        }
        let s = un_shape(op, &self.atom.shape)?;
        Tracer::emit(cx, Primitive::from_unary(op.clone(), self.atom.clone()), s)
    }

    fn apply2(&self, op: &BinOp, b: &Self, cx: &mut ComputeGraphBuilder<S>) -> (r: Result<
        Self,
        EvalError,
    >) {
        if let (Some(t), Some(u)) = (self.untraced(), b.untraced()) {
            let v = t.pairwise(op, u)?;
            return Ok(Tracer::from_tensor(v));
        }
        let s = bin_shape(op, &self.atom.shape, &b.atom.shape)?;
        Tracer::emit(
            cx,
            Primitive::from_binary(op.clone(), self.atom.clone(), b.atom.clone()),
            s,
        )
    }

    fn apply3(p: &Self, x: &Self, y: &Self, cx: &mut ComputeGraphBuilder<S>) -> (r: Result<
        Self,
        EvalError,
    >) {
        if let (Some(q), Some(t), Some(u)) = (p.untraced(), x.untraced(), y.untraced()) {
            let v = Tensor::select(q, t, u)?;
            return Ok(Tracer::from_tensor(v));
        }
        let s = tensor::copy_of(&x.atom.shape);
        Tracer::emit(
            cx,
            Primitive::Where(p.atom.clone(), x.atom.clone(), y.atom.clone()),
            s,
        )
    }
}

} // verus!
