//! Multi-layer perceptrons: their layers, and the graphs that they make up.

use vstd::prelude::*;
use crate::error::EvalError;
use crate::model;
use crate::model::{BinOpV, Fault, TensorV, UnOpV};
use crate::nn;
use crate::nn::{Atom, AtomV, ComputeGraph, EqnV, Equation, GraphV, PrimV, Primitive};
use crate::scalar;
use crate::scalar::Scalar;
use crate::tensor::Tensor;
use crate::text;

verus! {

/// A fully connected layer.
#[derive(Debug)]
pub struct Layer<S> {
    /// (fan_in, fan_out)
    pub w: Tensor<S>,
    /// (fan_out,)
    pub b: Tensor<S>,
}

/// A mathematical layer.
#[verifier::ext_equal]
pub struct LayerV<S> {
    pub w: TensorV<S>,
    pub b: TensorV<S>,
}

impl<S> View for Layer<S> {
    type V = LayerV<S>;

    open spec fn view(&self) -> LayerV<S> {
        LayerV { w: self.w@, b: self.b@ }
    }
}

/// Mathematical layers.
pub open spec fn layer_views<S>(v: Seq<Layer<S>>) -> Seq<LayerV<S>> {
    Seq::new(v.len(), |i: int| v[i]@)
}

// ---- the graph of a perceptron ----
/// A graph of the first layers of a perceptron.
#[verifier::ext_equal]
pub struct StackV<S> {
    pub invars: Seq<AtomV<S>>,
    pub equations: Seq<EqnV<S>>,
    pub last: AtomV<S>,
    pub width: usize,
}

/// A variable with a numbered name.
pub open spec fn numbered_var<S>(prefix: &str, i: nat, shape: Seq<usize>) -> AtomV<S> {
    nn::variable(text::numbered(prefix@, i), shape)
}

/// The graph of the first `k` layers; `batch` rows of inputs come in. Every layer but the last of
/// all is followed by a rectifier.
pub open spec fn stack<S>(layers: Seq<LayerV<S>>, batch: usize, in_size: usize, k: nat) -> StackV<S>
    decreases k,
{
    if k == 0 {
        let x = nn::variable("x"@, seq![batch, in_size]);
        StackV { invars: seq![x], equations: seq![], last: x, width: in_size }
    } else {
        let n = stack(layers, batch, in_size, (k - 1) as nat);
        let i = (k - 1) as nat;
        let out = layers[k - 1].b.data.len() as usize;
        let w = numbered_var("W", i, seq![n.width, out]);
        let b = numbered_var("b", i, seq![out]);
        let h = numbered_var("h", i, seq![batch, out]);
        let a = numbered_var("a", i, seq![batch, out]);
        let r = numbered_var("r", i, seq![batch, out]);
        let linear = n.equations.push(
            EqnV { prim: PrimV::Bin(BinOpV::Dot, n.last, w), out: h },
        ).push(EqnV { prim: PrimV::Bin(BinOpV::Add, h, b), out: a });
        if k < layers.len() {
            StackV {
                invars: n.invars.push(w).push(b),
                equations: linear.push(EqnV { prim: PrimV::Un(UnOpV::Relu, a), out: r }),
                last: r,
                width: out,
            }
        } else {
            StackV { invars: n.invars.push(w).push(b), equations: linear, last: a, width: out }
        }
    }
}

/// The graph of a perceptron: its inputs are the batch, then the weights and biases of each layer.
pub open spec fn mlp_graph<S>(layers: Seq<LayerV<S>>, batch: usize, in_size: usize) -> GraphV<S> {
    let n = stack(layers, batch, in_size, layers.len());
    GraphV { invars: n.invars, outvars: seq![n.last], equations: n.equations }
}

/// A list of two lengths.
fn two(a: usize, b: usize) -> (r: Vec<usize>)
    ensures
        r@ == seq![a, b],
{
    let v: Vec<usize> = vec![a, b];
    assert(v@ =~= seq![a, b]);
    v
}

/// A list of one length.
fn one(a: usize) -> (r: Vec<usize>)
    ensures
        r@ == seq![a],
{
    let v: Vec<usize> = vec![a];
    assert(v@ =~= seq![a]);
    v
}

/// Appends an equation.
fn push_equation<S: Scalar>(equations: &mut Vec<Equation<S>>, primitive: Primitive<S>, outvar: Atom<
    S,
>)
    ensures
        nn::eqn_views(final(equations)@) == nn::eqn_views(old(equations)@).push(
            EqnV { prim: primitive@, out: outvar@ },
        ),
{
    let ghost before = nn::eqn_views(equations@);
    let e = Equation { primitive, outvar };
    let ghost v = e@;
    equations.push(e);
    assert(nn::eqn_views(equations@) =~= before.push(v));
}

/// Appends a variable.
fn push_atom<S: Scalar>(atoms: &mut Vec<Atom<S>>, atom: Atom<S>)
    ensures
        nn::atom_views(final(atoms)@) == nn::atom_views(old(atoms)@).push(atom@),
{
    let ghost before = nn::atom_views(atoms@);
    let ghost v = atom@;
    atoms.push(atom);
    assert(nn::atom_views(atoms@) =~= before.push(v));
}

impl<S: Scalar> ComputeGraph<S> {
    /// The graph of a perceptron on batches of `batch_size` rows: its inputs are the batch, then
    /// the weights and biases of each layer.
    pub fn from_layers(layers: &Vec<Layer<S>>, batch_size: usize, in_size: usize) -> (r: Self)
        ensures
            r@ == mlp_graph(layer_views(layers@), batch_size, in_size),
    {
        let ghost ls = layer_views(layers@);
        let x = Atom::var(text::copied("x"), two(batch_size, in_size));
        let mut invars: Vec<Atom<S>> = Vec::new();
        assert(nn::atom_views(invars@) =~= seq![]);
        push_atom(&mut invars, x.clone());
        assert(nn::atom_views(invars@) =~= seq![x@]);
        let mut equations: Vec<Equation<S>> = Vec::new();
        assert(nn::eqn_views(equations@) =~= seq![]);
        let mut prev_size: usize = in_size;
        let mut prev = x;
        for i in 0..layers.len()
            invariant
                ls == layer_views(layers@),
                stack(ls, batch_size, in_size, i as nat) == (StackV {
                    invars: nn::atom_views(invars@),
                    equations: nn::eqn_views(equations@),
                    last: prev@,
                    width: prev_size,
                }),
        {
            let out_size = layers[i].b.len();
            assert(ls[i as int].b.data.len() == out_size);
            let w = Atom::var(text::with_number("W", i), two(prev_size, out_size));
            let b = Atom::var(text::with_number("b", i), one(out_size));
            push_atom(&mut invars, w.clone());
            push_atom(&mut invars, b.clone());
            let h = Atom::var(text::with_number("h", i), two(batch_size, out_size));
            push_equation(&mut equations, Primitive::Dot(prev, w), h.clone());
            let a = Atom::var(text::with_number("a", i), two(batch_size, out_size));
            push_equation(&mut equations, Primitive::Add(h, b), a.clone());
            if i < layers.len() - 1 {
                let r = Atom::var(text::with_number("r", i), two(batch_size, out_size));
                push_equation(&mut equations, Primitive::Relu(a), r.clone());
                prev = r;
            } else {
                prev = a;
            }
            prev_size = out_size;
        }
        let ghost last = prev@;
        let outvars: Vec<Atom<S>> = vec![prev];
        assert(nn::atom_views(outvars@) =~= seq![last]);
        ComputeGraph { invars, outvars, equations }
    }
}

// ---- initialisation ----
/// The sizes of the weights of all layers: each layer takes what the one before gives.
pub open spec fn layer_shapes_of(in_size: usize, sizes: Seq<usize>) -> Seq<(usize, usize)> {
    Seq::new(
        sizes.len(),
        |i: int|
            (
                if i == 0 {
                    in_size
                } else {
                    sizes[i - 1]
                },
                sizes[i],
            ),
    )
}

/// The sizes of the weights of all layers.
pub fn layer_shapes(in_size: usize, layer_sizes: &Vec<usize>) -> (r: Vec<(usize, usize)>)
    ensures
        r@ == layer_shapes_of(in_size, layer_sizes@),
{
    let mut out: Vec<(usize, usize)> = Vec::new();
    let mut fan_in: usize = in_size;
    for i in 0..layer_sizes.len()
        invariant
            fan_in == (if i == 0 {
                in_size
            } else {
                layer_sizes@[i - 1]
            }),
            out@ == layer_shapes_of(in_size, layer_sizes@).subrange(0, i as int),
    {
        out.push((fan_in, layer_sizes[i]));
        fan_in = layer_sizes[i];
        assert(out@ =~= layer_shapes_of(in_size, layer_sizes@).subrange(0, i + 1));
    }
    assert(out@ =~= layer_shapes_of(in_size, layer_sizes@));
    out
}

/// The bound of the weights of a layer with `fan_in` inputs.
pub open spec fn kaiming<S: Scalar>(fan_in: usize) -> S {
    scalar::num::<S>(2).root().times(scalar::num::<S>(3).over(scalar::num(fan_in as int)).root())
}

/// The bound of the weights of a layer with `fan_in` inputs: they are drawn uniformly between its
/// negative and it.
pub fn kaiming_bound<S: Scalar>(fan_in: usize) -> (r: S)
    ensures
        r == kaiming::<S>(fan_in),
{
    let fan = scalar::number::<S>(fan_in as i128);
    scalar::number::<S>(2).sqrt().mul(scalar::number::<S>(3).div(fan).sqrt())
}

/// A layer with the given weights and no bias.
pub open spec fn fresh_layer<S: Scalar>(size: (usize, usize), w: Seq<S>) -> Result<
    LayerV<S>,
    Fault,
> {
    let s = seq![size.0, size.1];
    if !crate::shape::fits(s) || !crate::shape::fits(seq![size.1]) {
        Err(Fault::Size)
    } else if w.len() != crate::shape::product(s) {
        Err(Fault::Reshape)
    } else {
        Ok(
            LayerV {
                w: TensorV { shape: s, data: w },
                b: model::filled(seq![size.1], scalar::zero()),
            },
        )
    }
}

/// The first `k` layers with the given weights and no bias.
pub open spec fn fresh_layers<S: Scalar>(
    sizes: Seq<(usize, usize)>,
    weights: Seq<Seq<S>>,
    k: nat,
) -> Result<Seq<LayerV<S>>, Fault>
    decreases k,
{
    if k == 0 {
        Ok(Seq::empty())
    } else {
        match fresh_layers(sizes, weights, (k - 1) as nat) {
            Err(f) => Err(f),
            Ok(v) => match fresh_layer(sizes[k - 1], weights[k - 1]) {
                Err(f) => Err(f),
                Ok(l) => Ok(v.push(l)),
            },
        }
    }
}

/// A failure decides the outcome.
proof fn lemma_fresh_fails<S: Scalar>(
    sizes: Seq<(usize, usize)>,
    weights: Seq<Seq<S>>,
    i: nat,
    k: nat,
)
    requires
        i <= k,
        fresh_layers(sizes, weights, i) is Err,
    ensures
        fresh_layers(sizes, weights, k) == fresh_layers(sizes, weights, i),
    decreases k,
{
    if i < k {
        lemma_fresh_fails(sizes, weights, i, (k - 1) as nat);
    }
}

/// Lists of numbers, mathematically.
pub open spec fn list_views<S>(v: Seq<Vec<S>>) -> Seq<Seq<S>> {
    Seq::new(v.len(), |i: int| v[i]@)
}

/// The layers of a perceptron with the given weights, which were drawn for the sizes of its
/// layers, in row-major order. The biases are zero.
pub fn init_mlp<S: Scalar>(in_size: usize, layer_sizes: &Vec<usize>, weights: Vec<Vec<S>>) -> (r:
    Result<Vec<Layer<S>>, EvalError>)
    requires
        weights@.len() == layer_sizes@.len(),
    ensures
        (match r {
            Ok(v) => Ok(layer_views(v@)),
            Err(e) => Err(e@),
        }) == fresh_layers(
            layer_shapes_of(in_size, layer_sizes@),
            list_views(weights@),
            layer_sizes@.len(),
        ),
{
    let sizes = layer_shapes(in_size, layer_sizes);
    let ghost ws = list_views(weights@);
    let n = layer_sizes.len();
    let mut left = weights;
    let mut out: Vec<Layer<S>> = Vec::new();
    assert(layer_views(out@) =~= Seq::<LayerV<S>>::empty());
    for i in 0..n
        invariant
            n == layer_sizes@.len(),
            sizes@ == layer_shapes_of(in_size, layer_sizes@),
            ws.len() == n,
            left@.len() == n - i,
            forall|j: int| 0 <= j < left@.len() ==> (#[trigger] left@[j])@ == ws[i + j],
            fresh_layers(sizes@, ws, i as nat) == Ok::<Seq<LayerV<S>>, Fault>(
                layer_views(out@),
            ),
            ws == list_views(weights@),
    {
        let ghost old_left = left@;
        let w = left.remove(0);
        assert forall|j: int| 0 <= j < left@.len() implies (#[trigger] left@[j])@ == ws[(i + 1)
            + j] by {
            assert(left@[j] == old_left[j + 1]);
        }
        assert(w@ == ws[i as int]) by {
            assert(old_left[0]@ == ws[i + 0]);
        }
        proof {
            if fresh_layers(sizes@, ws, (i + 1) as nat) is Err {
                lemma_fresh_fails(sizes@, ws, (i + 1) as nat, n as nat);
            }
        }
        let (fan_in, fan_out) = sizes[i];
        let s = two(fan_in, fan_out);
        if !crate::shape::check_fits(&s) {
            return Err(EvalError::Size);
        }
        let b = Tensor::from_elem(one(fan_out), scalar::number::<S>(0))?;
        let w = Tensor::from_shape_vec(s, w)?;
        let ghost before = layer_views(out@);
        let layer = Layer { w, b };
        let ghost lv = layer@;
        out.push(layer);
        assert(layer_views(out@) =~= before.push(lv));
    }
    Ok(out)
}

// ---- what the graph of a perceptron is made of ----
/// The five letters that start the names of the variables of a perceptron.
pub open spec fn is_initial(p: Seq<char>) -> bool {
    p == "W"@ || p == "b"@ || p == "h"@ || p == "a"@ || p == "r"@
}

/// Numbered names tell their letters and numbers.
proof fn lemma_numbered(p: Seq<char>, q: Seq<char>, i: nat, j: nat)
    requires
        is_initial(p),
        is_initial(q),
        text::numbered(p, i) == text::numbered(q, j),
    ensures
        p == q,
        i == j,
{
    reveal_strlit("W");
    reveal_strlit("b");
    reveal_strlit("h");
    reveal_strlit("a");
    reveal_strlit("r");
    let (m, n) = (text::numbered(p, i), text::numbered(q, j));
    assert(m[0] == p[0] && n[0] == q[0]);
    assert(p =~= q);
    assert(text::digits(i) =~= m.subrange(1, m.len() as int));
    assert(text::digits(j) =~= n.subrange(1, n.len() as int));
    text::lemma_digits_injective(i, j);
}

/// A numbered name is not the name of the input.
proof fn lemma_not_input(p: Seq<char>, i: nat)
    requires
        is_initial(p),
    ensures
        text::numbered(p, i) != "x"@,
{
    reveal_strlit("W");
    reveal_strlit("b");
    reveal_strlit("h");
    reveal_strlit("a");
    reveal_strlit("r");
    reveal_strlit("x");
    assert(text::numbered(p, i)[0] == p[0]);
}

/// Input number `i` of the graph of a perceptron.
pub open spec fn invar_name(i: int) -> Seq<char> {
    if i == 0 {
        "x"@
    } else if i % 2 == 1 {
        text::numbered("W"@, ((i - 1) / 2) as nat)
    } else {
        text::numbered("b"@, ((i - 2) / 2) as nat)
    }
}

/// The result of equation number `j` of the graph of a perceptron.
pub open spec fn result_name(j: int) -> Seq<char> {
    text::numbered(letter(j), (j / 3) as nat)
}

/// Whether an atom is one of some inputs or the result of one of the first `j` equations.
pub open spec fn at_hand<S>(
    invars: Seq<AtomV<S>>,
    eqns: Seq<EqnV<S>>,
    a: AtomV<S>,
    j: int,
) -> bool {
    ||| exists|i: int| 0 <= i < invars.len() && #[trigger] invars[i] == a
    ||| exists|k: int| 0 <= k < j && (#[trigger] eqns[k]).out == a
}

/// Whether equation `j` of a perceptron is the one that its number says, on atoms at hand.
pub open spec fn eqn_in_place<S>(invars: Seq<AtomV<S>>, eqns: Seq<EqnV<S>>, j: int) -> bool {
    &&& eqns[j].out.value is None
    &&& eqns[j].out.name == result_name(j)
    &&& match eqns[j].prim {
        PrimV::Bin(op, a, b) => {
            &&& (op is Dot && j % 3 == 0) || (op is Add && j % 3 == 1)
            &&& at_hand(invars, eqns, a, j)
            &&& at_hand(invars, eqns, b, j)
        },
        PrimV::Un(op, a) => op is Relu && j % 3 == 2 && at_hand(invars, eqns, a, j),
        _ => false,
    }
}

/// What the first `k` layers are made of.
pub open spec fn stack_in_place<S>(n: StackV<S>, k: nat, whole: nat) -> bool {
    &&& n.invars.len() == 2 * k + 1
    &&& n.equations.len() == (if k > 0 && k == whole {
        3 * k - 1
    } else {
        3 * k as int
    })
    &&& forall|i: int|
        0 <= i < n.invars.len() ==> (#[trigger] n.invars[i]).value is None && n.invars[i].name
            == invar_name(i)
    &&& forall|j: int| 0 <= j < n.equations.len() ==> #[trigger] eqn_in_place(
        n.invars,
        n.equations,
        j,
    )
    &&& at_hand(n.invars, n.equations, n.last, n.equations.len() as int)
    &&& k > 0 ==> n.last == n.equations[n.equations.len() - 1].out
}

/// What is at hand stays at hand.
proof fn lemma_at_hand<S>(
    iv: Seq<AtomV<S>>,
    eq: Seq<EqnV<S>>,
    iw: Seq<AtomV<S>>,
    er: Seq<EqnV<S>>,
    a: AtomV<S>,
    j: int,
    l: int,
)
    requires
        0 <= j <= eq.len() <= er.len(),
        j <= l,
        iv.len() <= iw.len(),
        forall|i: int| 0 <= i < iv.len() ==> #[trigger] iw[i] == iv[i],
        forall|i: int| 0 <= i < eq.len() ==> #[trigger] er[i] == eq[i],
        at_hand(iv, eq, a, j),
    ensures
        at_hand(iw, er, a, l),
{
    if exists|i: int| 0 <= i < iv.len() && #[trigger] iv[i] == a {
        let i = choose|i: int| 0 <= i < iv.len() && #[trigger] iv[i] == a;
        assert(iw[i] == a);
    } else {
        let k = choose|k: int| 0 <= k < j && (#[trigger] eq[k]).out == a;
        assert(er[k].out == a);
    }
}

/// The first `k` layers.
#[verifier::rlimit(40)]
proof fn lemma_stack<S>(layers: Seq<LayerV<S>>, batch: usize, in_size: usize, k: nat)
    requires
        k <= layers.len(),
    ensures
        stack_in_place(stack(layers, batch, in_size, k), k, layers.len()),
        k > 0 ==> stack(layers, batch, in_size, k).last.shape == seq![
            batch,
            layers[k - 1].b.data.len() as usize,
        ],
    decreases k,
{
    let s = stack(layers, batch, in_size, k);
    if k == 0 {
        assert(s.invars[0] == s.last);
    } else {
        let n = stack(layers, batch, in_size, (k - 1) as nat);
        lemma_stack(layers, batch, in_size, (k - 1) as nat);
        let (i0, m) = (n.invars.len() as int, n.equations.len() as int);
        assert(m == 3 * (k - 1));
        assert(s.invars[i0].name == invar_name(i0));
        assert(s.invars[i0 + 1].name == invar_name(i0 + 1));
        assert forall|i: int| 0 <= i < s.invars.len() implies (#[trigger] s.invars[i]).value is None
            && s.invars[i].name == invar_name(i) by {
            if i < i0 {
                assert(s.invars[i] == n.invars[i]);
            }
        }
        assert forall|j: int| 0 <= j < s.equations.len() implies #[trigger] eqn_in_place(
            s.invars,
            s.equations,
            j,
        ) by {
            if j < m {
                assert(s.equations[j] == n.equations[j]);
                assert(eqn_in_place(n.invars, n.equations, j));
                match n.equations[j].prim {
                    PrimV::Bin(_, a, b) => {
                        lemma_at_hand(n.invars, n.equations, s.invars, s.equations, a, j, j);
                        lemma_at_hand(n.invars, n.equations, s.invars, s.equations, b, j, j);
                    },
                    PrimV::Un(_, a) => {
                        lemma_at_hand(n.invars, n.equations, s.invars, s.equations, a, j, j);
                    },
                    _ => {},
                }
            } else if j == m {
                lemma_at_hand(n.invars, n.equations, s.invars, s.equations, n.last, m, m);
                assert(at_hand(s.invars, s.equations, s.invars[i0], m));
            } else if j == m + 1 {
                assert(s.equations[m].out == s.equations[j].prim->Bin_1);
                assert(at_hand(s.invars, s.equations, s.invars[i0 + 1], m + 1));
            } else {
                assert(s.equations[m + 1].out == s.equations[j].prim->Un_1);
            }
        }
        let last = s.equations.len() - 1;
        assert(s.equations[last].out == s.last);
    }
}

/// The graph of a perceptron has its batch, and the weights and biases of each layer as inputs;
/// each layer is a contraction and a sum, and all but the last have a rectifier. All variables
/// have names of their own, every operand is an input or the result of an earlier equation, and
/// the output is the result of the last equation, with one row for each of the batch.
pub proof fn lemma_mlp_graph<S>(layers: Seq<LayerV<S>>, batch: usize, in_size: usize)
    requires
        layers.len() > 0,
    ensures
        ({
            let g = mlp_graph(layers, batch, in_size);
            let n = layers.len() as int;
            &&& g.invars.len() == 2 * n + 1
            &&& g.equations.len() == 3 * n - 1
            &&& forall|j: int| 0 <= j < g.equations.len() ==> #[trigger] eqn_in_place(
                g.invars,
                g.equations,
                j,
            )
            &&& g.outvars == seq![g.equations[g.equations.len() - 1].out]
            &&& g.outvars[0].shape == seq![batch, layers[n - 1].b.data.len() as usize]
            &&& forall|i: int, j: int|
                0 <= i < j < g.invars.len() ==> (#[trigger] g.invars[i]).name != (
                #[trigger] g.invars[j]).name
            &&& forall|i: int, j: int|
                0 <= i < j < g.equations.len() ==> (#[trigger] g.equations[i]).out.name != (
                #[trigger] g.equations[j]).out.name
            &&& forall|i: int, j: int|
                0 <= i < g.invars.len() && 0 <= j < g.equations.len() ==> (
                #[trigger] g.invars[i]).name != (#[trigger] g.equations[j]).out.name
        }),
{
    let g = mlp_graph(layers, batch, in_size);
    lemma_stack(layers, batch, in_size, layers.len());
    reveal_strlit("W");
    reveal_strlit("b");
    reveal_strlit("h");
    reveal_strlit("a");
    reveal_strlit("r");
    assert forall|i: int, j: int| 0 <= i < j < g.invars.len() implies (#[trigger] g.invars[i]).name
        != (#[trigger] g.invars[j]).name by {
        let (p, q) = (
            if i % 2 == 1 {
                "W"@
            } else {
                "b"@
            },
            if j % 2 == 1 {
                "W"@
            } else {
                "b"@
            },
        );
        if i == 0 {
            lemma_not_input("W"@, ((j - 1) / 2) as nat);
            lemma_not_input("b"@, ((j - 2) / 2) as nat);
        } else if invar_name(i) == invar_name(j) {
            let s = if i % 2 == 1 {
                ((i - 1) / 2) as nat
            } else {
                ((i - 2) / 2) as nat
            };
            let t = if j % 2 == 1 {
                ((j - 1) / 2) as nat
            } else {
                ((j - 2) / 2) as nat
            };
            lemma_numbered(p, q, s, t);
            assert("W"@[0] != "b"@[0]);
        }
    }
    assert forall|i: int, j: int| 0 <= i < j < g.equations.len() implies (
    #[trigger] g.equations[i]).out.name != (#[trigger] g.equations[j]).out.name by {
        assert(eqn_in_place(g.invars, g.equations, i));
        assert(eqn_in_place(g.invars, g.equations, j));
        if result_name(i) == result_name(j) {
            lemma_numbered(letter(i), letter(j), (i / 3) as nat, (j / 3) as nat);
            assert("h"@[0] != "a"@[0] && "a"@[0] != "r"@[0] && "h"@[0] != "r"@[0]);
        }
    }
    assert forall|i: int, j: int| 0 <= i < g.invars.len() && 0 <= j < g.equations.len() implies (
    #[trigger] g.invars[i]).name != (#[trigger] g.equations[j]).out.name by {
        assert(eqn_in_place(g.invars, g.equations, j));
        lemma_not_input(letter(j), (j / 3) as nat);
        assert("h"@[0] != "W"@[0] && "a"@[0] != "W"@[0] && "r"@[0] != "W"@[0]);
        assert("h"@[0] != "b"@[0] && "a"@[0] != "b"@[0] && "r"@[0] != "b"@[0]);
        if i > 0 && invar_name(i) == result_name(j) {
            if i % 2 == 1 {
                lemma_numbered("W"@, letter(j), ((i - 1) / 2) as nat, (j / 3) as nat);
            } else {
                lemma_numbered("b"@, letter(j), ((i - 2) / 2) as nat, (j / 3) as nat);
            }
        }
    }
}

/// The letter that starts the name of the result of equation number `j`.
pub open spec fn letter(j: int) -> Seq<char> {
    if j % 3 == 0 {
        "h"@
    } else if j % 3 == 1 {
        "a"@
    } else {
        "r"@
    }
}

} // verus!
