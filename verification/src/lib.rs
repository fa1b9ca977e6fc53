//! Bound computation and branch and bound for small neural networks.

pub mod scalar;
pub mod fixed;
pub mod model;
pub mod shape;
pub mod error;
pub mod text;

pub mod tensor;
pub mod op;
pub mod manipulate;
pub mod reduce;
pub mod linalg;
pub mod apply;

pub mod nn;
pub mod value;
pub mod env;
pub mod eval;
pub mod vjp;
pub mod grad;
pub mod tracer;
pub mod compute_graph;

pub mod interval;
pub mod batched;
pub mod lines;
pub mod affine;
pub mod crown;
pub mod alpha_crown;
pub mod beta_crown;
pub mod abp;

pub mod bab;
pub mod input_splitting;
pub mod node_splitting;

pub mod mlp;
pub mod train;
pub mod cli;
pub mod describe;
pub mod notation;
pub mod reading;

pub mod sums;
pub mod exact;
pub mod reals;
pub mod pairing;
pub mod unspread;
pub mod matrices;
pub mod cubes;
pub mod slopes;
pub mod sandwich;
pub mod turning;
pub mod ascent;
pub mod phases;
pub mod undoing;
pub mod retracing;
pub mod derivatives;
pub mod training;
pub mod tightness;

pub mod carry;
pub mod carry_products;
pub mod carry_select;
pub mod carry_dot;
pub mod carry_moves;
pub mod carry_places;
pub mod carry_pad;
pub mod carry_pool;
pub mod carry_conv;
pub mod support;

pub mod containment;
pub mod stacks;
pub mod members;
pub mod alike;
pub mod soundness;
pub mod layered;
pub mod shaping;
pub mod layer_walk;
pub mod loss_shapes;
pub mod layer_success;
pub mod walking;
pub mod layer_params;
pub mod slope_bounds;
pub mod input_verdicts;
pub mod node_verdicts;
pub mod layer_verdicts;
pub mod layer_slopes;
pub mod unsplit;
pub mod halving;
pub mod forking;
pub mod scoring;
pub mod attained;
pub mod chaining;
pub mod passing;
pub mod contracting;
pub mod likelihood;
pub mod picking;
pub mod kernels;
pub mod choosing;
pub mod climbing;
pub mod perceptron;
