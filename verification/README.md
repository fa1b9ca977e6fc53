# Mini NN verifier

A verifier for small neural networks: it evaluates compute graphs, differentiates them, bounds
their outputs on boxes of inputs, and decides by branch and bound whether an output can be
negative. The library in `src/` is written in Verus: its functions have contracts that are proved,
and the laws that tie the functions together are proved beside them. Of the pseudorandom generator
that training draws from, whose state is opaque, nothing is stated.

## Layout

- `src/scalar.rs`, `src/fixed.rs`: the numbers that tensors hold, and fixed-point numbers.
- `src/model.rs`, `src/shape.rs`, `src/tensor.rs`, `src/manipulate.rs`, `src/reduce.rs`,
  `src/linalg.rs`, `src/apply.rs`: tensors and their operations.
- `src/nn.rs`, `src/env.rs`, `src/eval.rs`, `src/vjp.rs`, `src/grad.rs`: compute graphs, their
  evaluation and their gradients.
- `src/tracer.rs`, `src/compute_graph.rs`: graphs recorded from computations.
- `src/interval.rs`, `src/batched.rs`: interval bounds, single and in batches.
- `src/lines.rs`, `src/affine.rs`, `src/crown.rs`, `src/alpha_crown.rs`, `src/beta_crown.rs`,
  `src/abp.rs`: affine bounds.
- `src/bab.rs`, `src/input_splitting.rs`, `src/node_splitting.rs`: branch and bound.
- `src/mlp.rs`, `src/train.rs`, `src/cli.rs`, `src/describe.rs`, `src/notation.rs`,
  `src/reading.rs`: perceptrons, their training, and texts.
- `src/exact.rs` and the modules that build on it state what holds in exact arithmetic:
  `containment.rs`, `members.rs` and `alike.rs` that interval bounds hold the outputs,
  `soundness.rs` and `slope_bounds.rs` that affine bounds do, `input_verdicts.rs` and
  `node_verdicts.rs` under which conditions on bounds and shapes verdicts are right. `turning.rs`
  states that lines lie on their sides of functions that turn, under premises on how the error
  function bends them; `walking.rs` that affine bounds of graphs of layers, curves, products and
  sums can be had.
  `retracing.rs` states that traced computations evaluate alike, `undoing.rs` which operations
  undo each other.
- `src/layered.rs`, `src/shaping.rs`, `src/layer_walk.rs`, `src/layer_success.rs`,
  `src/loss_shapes.rs`, `src/layer_params.rs`, `src/layer_slopes.rs` and `src/layer_verdicts.rs`
  establish those conditions for networks of layers, that is contractions and sums with constants,
  negations and rectifiers, and state that bounds and the verdicts of both searches are right on
  them. `src/unsplit.rs` states that without splits the bound under phases of rectifiers is the
  one with optimized slopes.
- `app/`: the command line, which loads networks and arrays and writes results.
- `tests/`: tests of the library on double-precision and fixed-point numbers.

## Files

Arrays are flat row-major `float64` files without a header. A network is a ZIP archive with
`graph.txt` and one `.bin` file per named constant. Training reads its settings from
`hyperparams/<dataset>.json` and writes a checkpoint after each epoch.
