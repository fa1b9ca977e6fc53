//! Command-line front ends: arguments, the text of checkpoints, and the names of verdicts.

use vstd::prelude::*;
use vstd::string::StringExecFns;
use crate::bab::{BaBResult, VerdictV};
use crate::mlp;
use crate::mlp::{Layer, LayerV};
use crate::nn::ComputeGraph;
use crate::scalar::Scalar;
use crate::text;

verus! {

// ---- input specifications ----
/// Where the values of an input come from.
#[derive(Debug, PartialEq, Eq)]
pub enum InputSpec {
    /// All values between those in two files
    Box(String, String),
    /// The values in one file
    Point(String),
}

/// Where the values of an input come from, mathematically.
pub enum SpecV {
    Box(Seq<char>, Seq<char>),
    Point(Seq<char>),
}

impl View for InputSpec {
    type V = SpecV;

    open spec fn view(&self) -> SpecV {
        match self {
            InputSpec::Box(a, b) => SpecV::Box(a@, b@),
            InputSpec::Point(a) => SpecV::Point(a@),
        }
    }
}

/// Why input specifications make no sense.
#[derive(Debug, PartialEq, Eq)]
pub enum SpecError {
    /// The network has more inputs than specifications were given.
    Missing {
        /// How many were given
        provided: usize,
    },
    /// `box` needs two file paths.
    BoxPaths,
    /// `point` needs one file path.
    PointPath,
    /// A marker that is neither `box` nor `point`.
    Unknown(String),
    /// Words left over behind the last input, from this number on.
    Trailing(usize),
}

/// Why input specifications make no sense, mathematically.
pub enum SpecFault {
    Missing(nat),
    BoxPaths,
    PointPath,
    Unknown(Seq<char>),
    Trailing(nat),
}

impl View for SpecError {
    type V = SpecFault;

    open spec fn view(&self) -> SpecFault {
        match self {
            SpecError::Missing { provided } => SpecFault::Missing(*provided as nat),
            SpecError::BoxPaths => SpecFault::BoxPaths,
            SpecError::PointPath => SpecFault::PointPath,
            SpecError::Unknown(s) => SpecFault::Unknown(s@),
            SpecError::Trailing(i) => SpecFault::Trailing(*i as nat),
        }
    }
}

/// Words, mathematically.
pub open spec fn words(v: Seq<String>) -> Seq<Seq<char>> {
    Seq::new(v.len(), |i: int| v[i]@)
}

/// The specification that starts at word `i`, and where the next one starts.
pub open spec fn spec_at(w: Seq<Seq<char>>, i: int, done: nat) -> Result<(SpecV, int), SpecFault> {
    if i >= w.len() {
        Err(SpecFault::Missing(done))
    } else if w[i] == "box"@ {
        if i + 2 >= w.len() {
            Err(SpecFault::BoxPaths)
        } else {
            Ok((SpecV::Box(w[i + 1], w[i + 2]), i + 3))
        }
    } else if w[i] == "point"@ {
        if i + 1 >= w.len() {
            Err(SpecFault::PointPath)
        } else {
            Ok((SpecV::Point(w[i + 1]), i + 2))
        }
    } else {
        Err(SpecFault::Unknown(w[i]))
    }
}

/// The first `k` specifications, and where the next one starts.
pub open spec fn specs_upto(w: Seq<Seq<char>>, k: nat) -> Result<(Seq<SpecV>, int), SpecFault>
    decreases k,
{
    if k == 0 {
        Ok((Seq::empty(), 0))
    } else {
        match specs_upto(w, (k - 1) as nat) {
            Err(f) => Err(f),
            Ok((s, i)) => match spec_at(w, i, (k - 1) as nat) {
                Err(f) => Err(f),
                Ok((x, j)) => Ok((s.push(x), j)),
            },
        }
    }
}

/// The specifications of `n` inputs: `box <lb> <ub>` or `point <x>`, with nothing left over.
pub open spec fn specs_of(w: Seq<Seq<char>>, n: nat) -> Result<Seq<SpecV>, SpecFault> {
    match specs_upto(w, n) {
        Err(f) => Err(f),
        Ok((s, i)) => if i != w.len() {
            Err(SpecFault::Trailing(i as nat))
        } else {
            Ok(s)
        },
    }
}

/// Specifications, mathematically.
pub open spec fn spec_views(v: Seq<InputSpec>) -> Seq<SpecV> {
    Seq::new(v.len(), |i: int| v[i]@)
}

/// Specifications, mathematically.
pub open spec fn specs_result(r: Result<Vec<InputSpec>, SpecError>) -> Result<
    Seq<SpecV>,
    SpecFault,
> {
    match r {
        Ok(v) => Ok(spec_views(v@)),
        Err(e) => Err(e@),
    }
}

/// A failure decides the outcome.
proof fn lemma_specs_fail(w: Seq<Seq<char>>, i: nat, k: nat)
    requires
        i <= k,
        specs_upto(w, i) is Err,
    ensures
        specs_upto(w, k) == specs_upto(w, i),
    decreases k,
{
    if i < k {
        lemma_specs_fail(w, i, (k - 1) as nat);
    }
}

/// The specifications of `n` inputs.
pub fn parse_specs(tokens: &Vec<String>, n: usize) -> (r: Result<Vec<InputSpec>, SpecError>)
    ensures
        specs_result(r) == specs_of(words(tokens@), n as nat),
{
    let ghost w = words(tokens@);
    let boxed = text::copied("box");
    let pointed = text::copied("point");
    let mut specs: Vec<InputSpec> = Vec::new();
    let mut i: usize = 0;
    assert(spec_views(specs@) =~= Seq::<SpecV>::empty());
    for k in 0..n
        invariant
            w == words(tokens@),
            boxed@ == "box"@,
            pointed@ == "point"@,
            i <= tokens@.len(),
            specs@.len() == k,
            specs_upto(w, k as nat) == Ok::<(Seq<SpecV>, int), SpecFault>(
                (spec_views(specs@), i as int),
            ),
    {
        let ghost before = spec_views(specs@);
        proof {
            if specs_upto(w, (k + 1) as nat) is Err {
                lemma_specs_fail(w, (k + 1) as nat, n as nat);
            }
        }
        if i >= tokens.len() {
            return Err(SpecError::Missing { provided: k });
        }
        assert(w[i as int] == tokens@[i as int]@);
        let left = tokens.len() - i;
        if tokens[i] == boxed {
            if left <= 2 {
                return Err(SpecError::BoxPaths);
            }
            assert(w[i + 1] == tokens@[i + 1]@);
            assert(w[i + 2] == tokens@[i + 2]@);
            specs.push(InputSpec::Box(tokens[i + 1].clone(), tokens[i + 2].clone()));
            assert(spec_views(specs@) =~= before.push(SpecV::Box(w[i + 1], w[i + 2])));
            i = i + 3;
        } else if tokens[i] == pointed {
            if left <= 1 {
                return Err(SpecError::PointPath);
            }
            assert(w[i + 1] == tokens@[i + 1]@);
            specs.push(InputSpec::Point(tokens[i + 1].clone()));
            assert(spec_views(specs@) =~= before.push(SpecV::Point(w[i + 1])));
            i = i + 2;
        } else {
            return Err(SpecError::Unknown(tokens[i].clone()));
        }
    }
    if i != tokens.len() {
        return Err(SpecError::Trailing(i));
    }
    Ok(specs)
}

/// Arguments of the commands that propagate bounds.
#[derive(Debug)]
pub struct BoundsArgs {
    /// Directory to write output `.bin` files into.
    pub output_dir: String,
    /// The `.mininn` network file to load.
    pub mininn_file: String,
    /// Input specifications: `box <lb.bin> <ub.bin>` or `point <x.bin>`, repeatable.
    pub input_spec: Vec<String>,
}

impl BoundsArgs {
    /// The input specifications, one for each input of the graph.
    pub fn parse_inputs<S: Scalar>(&self, graph: &ComputeGraph<S>) -> (r: Result<
        Vec<InputSpec>,
        SpecError,
    >)
        ensures
            specs_result(r) == specs_of(words(self.input_spec@), graph@.invars.len()),
    {
        parse_specs(&self.input_spec, graph.invars.len())
    }
}

/// Arguments of the command that evaluates a network.
#[derive(Debug)]
pub struct EvalArgs {
    /// Directory to write output `.bin` files into.
    pub output_dir: String,
    /// The `.mininn` network file to load.
    pub mininn_file: String,
    /// Input `.bin` files, one per network input variable (in graph order).
    pub input_files: Vec<String>,
}

impl EvalArgs {
    /// Whether there is one file for each input of the graph.
    pub fn match_inputs<S: Scalar>(&self, graph: &ComputeGraph<S>) -> (r: bool)
        ensures
            r == (self.input_files@.len() == graph@.invars.len()),
    {
        self.input_files.len() == graph.invars.len()
    }
}

/// Arguments of the command that trains a network.
#[derive(Debug)]
pub struct TrainArgs {
    /// Directory to write checkpoint `.mininn` files into.
    pub output_dir: String,
    /// Dataset identifier (selects hyperparameters from ./hyperparams/<id>.json).
    pub dataset: String,
    /// Float64 input array (N, in_size), row-major binary.
    pub train_inputs: String,
    /// Float64 one-hot label array (N, num_classes), row-major binary.
    pub train_labels: String,
}

impl TrainArgs {
    /// Where the hyperparameters of the data set stand.
    pub fn hyperparams_path(&self) -> (r: String)
        ensures
            r@ == "./hyperparams/"@ + self.dataset@ + ".json"@,
    {
        let mut path = text::copied("./hyperparams/");
        path.append(self.dataset.as_str());
        path.append(".json");
        path
    }
}

// ---- verdicts ----
/// The word that a verdict is reported by.
pub open spec fn verdict_word<S>(v: VerdictV<S>) -> Seq<char> {
    match v {
        VerdictV::Safe => "sat"@,
        VerdictV::Unsafe(_) => "viol"@,
        VerdictV::Undecided => "unknown"@,
    }
}

/// The word that a verdict is reported by.
pub fn verdict_text<S: Scalar>(v: &BaBResult<S>) -> (r: &'static str)
    ensures
        r@ == verdict_word(v@),
{
    match v {
        BaBResult::Safe => "sat",
        BaBResult::Unsafe(_) => "viol",
        BaBResult::Undecided => "unknown",
    }
}

// ---- file names ----
/// A word, a number, and another word.
pub open spec fn file_name(before: Seq<char>, i: nat, after: Seq<char>) -> Seq<char> {
    text::numbered(before, i) + after
}

/// A word, a number, and another word.
pub fn numbered_file(before: &str, i: usize, after: &str) -> (r: String)
    ensures
        r@ == file_name(before@, i as nat, after@),
{
    let mut s = text::with_number(before, i);
    s.append(after);
    s
}

// ---- checkpoints ----
/// A matrix variable: its name, then its shape in brackets.
pub open spec fn matrix_text(prefix: Seq<char>, i: nat, a: nat, b: nat) -> Seq<char> {
    text::numbered(prefix, i) + shape_text(a, b)
}

/// A shape of two axes in brackets.
pub open spec fn shape_text(a: nat, b: nat) -> Seq<char> {
    "["@ + text::digits(a) + ","@ + text::digits(b) + "]"@
}

/// A vector variable: its name, then its length in brackets.
pub open spec fn vector_text(prefix: Seq<char>, i: nat, a: nat) -> Seq<char> {
    text::numbered(prefix, i) + "["@ + text::digits(a) + "]"@
}

/// The width of layer number `i` of a perceptron.
pub open spec fn width<S>(layers: Seq<LayerV<S>>, i: int) -> nat {
    layers[i].b.data.len()
}

/// The number of inputs of layer number `i` of a perceptron.
pub open spec fn fan_in<S>(layers: Seq<LayerV<S>>, in_size: usize, i: int) -> nat {
    if i == 0 {
        in_size as nat
    } else {
        width(layers, i - 1)
    }
}

/// The variable that the first `k` layers of a perceptron end in.
pub open spec fn end_text<S>(
    layers: Seq<LayerV<S>>,
    batch: usize,
    in_size: usize,
    k: nat,
) -> Seq<char> {
    if k == 0 {
        "x"@ + shape_text(batch as nat, in_size as nat)
    } else if k < layers.len() {
        matrix_text("r"@, k, batch as nat, width(layers, k - 1))
    } else {
        matrix_text("a"@, k, batch as nat, width(layers, k - 1))
    }
}

/// The lines of layer number `k`, counted from one. Its parameters are named constants.
pub open spec fn layer_text<S>(
    layers: Seq<LayerV<S>>,
    batch: usize,
    in_size: usize,
    k: nat,
) -> Seq<char> {
    let n = width(layers, k - 1);
    let h = matrix_text("h"@, k, batch as nat, n);
    let a = matrix_text("a"@, k, batch as nat, n);
    let r = matrix_text("r"@, k, batch as nat, n);
    let w = matrix_text("W"@, k, fan_in(layers, in_size, k - 1), n);
    let b = vector_text("B"@, k, n);
    let linear = "\n"@ + h + " = dot {} "@ + end_text(layers, batch, in_size, (k - 1) as nat) + " "@
        + w + "\n"@ + a + " = add {} "@ + h + " "@ + b;
    if k < layers.len() {
        linear + ("\n"@ + r + " = relu {} "@ + a)
    } else {
        linear
    }
}

/// The graph of the first `k` layers, without its output line.
pub open spec fn layers_text<S>(
    layers: Seq<LayerV<S>>,
    batch: usize,
    in_size: usize,
    k: nat,
) -> Seq<char>
    decreases k,
{
    if k == 0 {
        "input: x"@ + shape_text(batch as nat, in_size as nat)
    } else {
        layers_text(layers, batch, in_size, (k - 1) as nat) + layer_text(
            layers,
            batch,
            in_size,
            k,
        )
    }
}

/// The text of the graph of a perceptron whose parameters are constants.
pub open spec fn checkpoint_text<S>(
    layers: Seq<LayerV<S>>,
    batch: usize,
    in_size: usize,
) -> Seq<char> {
    layers_text(layers, batch, in_size, layers.len()) + "\noutput: "@ + end_text(
        layers,
        batch,
        in_size,
        layers.len(),
    )
}

/// A shape of two axes in brackets.
fn write_shape(a: usize, b: usize) -> (r: String)
    ensures
        r@ == shape_text(a as nat, b as nat),
{
    let mut s = text::copied("[");
    s.append(text::decimal(a).as_str());
    s.append(",");
    s.append(text::decimal(b).as_str());
    s.append("]");
    s
}

/// A matrix variable.
fn write_matrix(prefix: &str, i: usize, a: usize, b: usize) -> (r: String)
    ensures
        r@ == matrix_text(prefix@, i as nat, a as nat, b as nat),
{
    let mut s = text::with_number(prefix, i);
    s.append(write_shape(a, b).as_str());
    s
}

/// A vector variable.
fn write_vector(prefix: &str, i: usize, a: usize) -> (r: String)
    ensures
        r@ == vector_text(prefix@, i as nat, a as nat),
{
    let mut s = text::with_number(prefix, i);
    s.append("[");
    s.append(text::decimal(a).as_str());
    s.append("]");
    s
}

/// The text of the graph of a perceptron whose parameters are constants, for batches of
/// `eval_batch_size` rows.
pub fn checkpoint_graph<S: Scalar>(
    layers: &Vec<Layer<S>>,
    eval_batch_size: usize,
    in_size: usize,
) -> (r: String)
    ensures
        r@ == checkpoint_text(mlp::layer_views(layers@), eval_batch_size, in_size),
{
    let ghost ls = mlp::layer_views(layers@);
    let batch = eval_batch_size;
    let n = layers.len();
    let mut graph = text::copied("input: x");
    graph.append(write_shape(batch, in_size).as_str());
    let mut prev = text::copied("x");
    prev.append(write_shape(batch, in_size).as_str());
    let mut prev_size: usize = in_size;
    for i in 0..n
        invariant
            n == layers@.len(),
            ls == mlp::layer_views(layers@),
            graph@ == layers_text(ls, batch, in_size, i as nat),
            prev@ == end_text(ls, batch, in_size, i as nat),
            prev_size == fan_in(ls, in_size, i as int),
    {
        let li = i + 1;
        let out_size = layers[i].b.len();
        assert(ls[i as int] == layers@[i as int]@);
        assert(width(ls, i as int) == out_size);
        let h = write_matrix("h", li, batch, out_size);
        let a = write_matrix("a", li, batch, out_size);
        let w = write_matrix("W", li, prev_size, out_size);
        let b = write_vector("B", li, out_size);
        let mut lines = text::copied("\n");
        lines.append(h.as_str());
        lines.append(" = dot {} ");
        lines.append(prev.as_str());
        lines.append(" ");
        lines.append(w.as_str());
        lines.append("\n");
        lines.append(a.as_str());
        lines.append(" = add {} ");
        lines.append(h.as_str());
        lines.append(" ");
        lines.append(b.as_str());
        if li < n {
            let r = write_matrix("r", li, batch, out_size);
            let mut line = text::copied("\n");
            line.append(r.as_str());
            line.append(" = relu {} ");
            line.append(a.as_str());
            lines.append(line.as_str());
            prev = r;
        } else {
            prev = a;
        }
        assert(lines@ == layer_text(ls, batch, in_size, li as nat));
        graph.append(lines.as_str());
        prev_size = out_size;
    }
    graph.append("\noutput: ");
    graph.append(prev.as_str());
    graph
}

} // verus!
