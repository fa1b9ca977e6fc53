//! Texts: arguments, verdicts, checkpoints and errors.

use mininn_verifier::bab::BaBResult;
use mininn_verifier::cli::{
    checkpoint_graph, numbered_file, parse_specs, verdict_text, BoundsArgs, EvalArgs, InputSpec,
    SpecError, TrainArgs,
};
use mininn_verifier::error::EvalError;
use mininn_verifier::eval::{EvalInterpreter, Interpreter};
use mininn_verifier::env::Env;
use mininn_verifier::mlp::Layer;
use mininn_verifier::nn::{Atom, ComputeGraph, Equation, Primitive};
use mininn_verifier::notation::{operation_named, read_term};
use mininn_verifier::op::{BinOp, UnOp};
use mininn_verifier::reading::{read_graph, ReadError};
use mininn_verifier::scalar::Scalar;
use mininn_verifier::tensor::Tensor;

/// Double-precision numbers.
#[derive(Debug, Clone, Copy, PartialEq)]
struct F(f64);

impl Scalar for F {
    fn from_ratio(num: i128, den: u128) -> F {
        F(num as f64 / den as f64)
    }
    fn infinity() -> F {
        F(f64::INFINITY)
    }
    fn neg_infinity() -> F {
        F(f64::NEG_INFINITY)
    }
    fn pi() -> F {
        F(std::f64::consts::PI)
    }
    fn add(self, other: F) -> F {
        F(self.0 + other.0)
    }
    fn sub(self, other: F) -> F {
        F(self.0 - other.0)
    }
    fn mul(self, other: F) -> F {
        F(self.0 * other.0)
    }
    fn div(self, other: F) -> F {
        F(self.0 / other.0)
    }
    fn neg(self) -> F {
        F(-self.0)
    }
    fn recip(self) -> F {
        F(self.0.recip())
    }
    fn abs(self) -> F {
        F(self.0.abs())
    }
    fn sqrt(self) -> F {
        F(self.0.sqrt())
    }
    fn exp(self) -> F {
        F(self.0.exp())
    }
    fn ln(self) -> F {
        F(self.0.ln())
    }
    fn erf(self) -> F {
        F(libm::erf(self.0))
    }
    fn max_of(self, other: F) -> F {
        F(self.0.max(other.0))
    }
    fn min_of(self, other: F) -> F {
        F(self.0.min(other.0))
    }
    fn is_lt(self, other: F) -> bool {
        self.0 < other.0
    }
    fn is_le(self, other: F) -> bool {
        self.0 <= other.0
    }
    fn is_eq(self, other: F) -> bool {
        self.0 == other.0
    }
    fn is_before(self, other: F) -> bool {
        self.0.total_cmp(&other.0).is_lt()
    }
}

fn arr(data: &[f64], shape: &[usize]) -> Tensor<F> {
    Tensor::from_shape_vec(shape.to_vec(), data.iter().map(|&x| F(x)).collect()).unwrap()
}

fn vals(t: &Tensor<F>) -> Vec<f64> {
    t.values().iter().map(|x| x.0).collect()
}


fn tokens(s: &str) -> Vec<String> {
    s.split_whitespace().map(str::to_string).collect()
}

fn one_input() -> ComputeGraph<F> {
    let x = Atom::var("x".to_string(), vec![2]);
    let y = Atom::var("y".to_string(), vec![2]);
    ComputeGraph {
        invars: vec![x.clone()],
        outvars: vec![y.clone()],
        equations: vec![Equation { primitive: Primitive::Neg(x), outvar: y }],
    }
}

#[test]
fn specs_alternate_boxes_and_points() {
    let r = parse_specs(&tokens("box lo hi point p"), 2).unwrap();
    assert_eq!(
        r,
        vec![
            InputSpec::Box("lo".to_string(), "hi".to_string()),
            InputSpec::Point("p".to_string()),
        ]
    );
    assert_eq!(parse_specs(&tokens(""), 0).unwrap(), vec![]);
}

#[test]
fn specs_can_be_wrong() {
    let wrong = |s: &str, n: usize| parse_specs(&tokens(s), n).unwrap_err();
    assert_eq!(wrong("point p", 2), SpecError::Missing { provided: 1 });
    assert_eq!(wrong("box lo", 1), SpecError::BoxPaths);
    assert_eq!(wrong("point", 1), SpecError::PointPath);
    assert_eq!(wrong("ball b", 1), SpecError::Unknown("ball".to_string()));
    assert_eq!(wrong("point p q", 1), SpecError::Trailing(2));
}

#[test]
fn arguments_meet_the_graph() {
    let graph = one_input();
    let bounds = BoundsArgs {
        output_dir: "out".to_string(),
        mininn_file: "net".to_string(),
        input_spec: tokens("point p"),
    };
    assert_eq!(bounds.parse_inputs(&graph).unwrap().len(), 1);
    let eval = EvalArgs {
        output_dir: "out".to_string(),
        mininn_file: "net".to_string(),
        input_files: vec![],
    };
    assert!(!eval.match_inputs(&graph));
    let train = TrainArgs {
        output_dir: "out".to_string(),
        dataset: "digits".to_string(),
        train_inputs: "x".to_string(),
        train_labels: "y".to_string(),
    };
    assert_eq!(train.hyperparams_path(), "./hyperparams/digits.json");
}

#[test]
fn verdicts_have_words() {
    assert_eq!(verdict_text::<F>(&BaBResult::Safe), "sat");
    assert_eq!(verdict_text::<F>(&BaBResult::Unsafe(vec![])), "viol");
    assert_eq!(verdict_text::<F>(&BaBResult::Undecided), "unknown");
}

#[test]
fn files_are_numbered() {
    assert_eq!(numbered_file("out", 12, ".bin"), "out12.bin");
}

#[test]
fn checkpoints_describe_the_network() {
    let layers = vec![
        Layer { w: arr(&[0.0; 6], &[2, 3]), b: arr(&[0.0; 3], &[3]) },
        Layer { w: arr(&[0.0; 3], &[3, 1]), b: arr(&[0.0], &[1]) },
    ];
    let text = checkpoint_graph(&layers, 4, 2);
    assert_eq!(
        text,
        "input: x[4,2]\nh1[4,3] = dot {} x[4,2] W1[2,3]\na1[4,3] = add {} h1[4,3] B1[3]\n\
         r1[4,3] = relu {} a1[4,3]\nh2[4,1] = dot {} r1[4,3] W2[3,1]\n\
         a2[4,1] = add {} h2[4,1] B2[1]\noutput: a2[4,1]"
    );
}

#[test]
fn atoms_and_operations_have_texts() {
    let x: Atom<F> = Atom::var("x".to_string(), vec![2, 3]);
    assert_eq!(x.to_text(), "x[2, 3] (var)");
    let p: Primitive<F> = Primitive::Neg(x);
    assert_eq!(p.to_text(), "neg(x[2, 3] (var))");
}

#[test]
fn unbound_names_are_errors() {
    let empty: Env<Tensor<F>> = Env::new();
    let graph = one_input();
    let e = EvalInterpreter::process_primitive(&graph.equations[0].primitive, &empty).unwrap_err();
    assert_eq!(e, EvalError::Undefined("x".to_string()));
    assert_eq!(e.message(), "undefined variable 'x'");
}

#[test]
fn missing_outputs_are_errors() {
    let mut graph = one_input();
    graph.outvars = vec![Atom::var("z".to_string(), vec![2])];
    let e = EvalInterpreter::run(&graph, &vec![arr(&[1.0, 2.0], &[2])]).unwrap_err();
    assert_eq!(e, EvalError::NeverComputed("z".to_string()));
    assert_eq!(e.message(), "output 'z' was never computed");
}

/// Each error has an operation that gives it.
#[test]
fn operations_report_their_errors() {
    let (a, b) = (arr(&[1.0, 2.0], &[2]), arr(&[1.0, 2.0, 3.0], &[3]));
    assert_eq!(a.add(&b).unwrap_err(), EvalError::Broadcast);
    assert_eq!(a.dot(&b).unwrap_err(), EvalError::Dot);
    assert_eq!(a.unary(&UnOp::Reshape(vec![3])).unwrap_err(), EvalError::Reshape);
    assert_eq!(a.unary(&UnOp::ReduceSum(vec![1])).unwrap_err(), EvalError::Axis);
    assert_eq!(a.unary(&UnOp::Slice(0, 0, None, 0)).unwrap_err(), EvalError::Step);
    assert_eq!(a.pairwise(&BinOp::Conv(1), &b).unwrap_err(), EvalError::ConvRank);
    let (img, ker) = (arr(&[1.0; 8], &[1, 2, 2, 2]), arr(&[1.0; 4], &[1, 1, 2, 2]));
    assert_eq!(img.pairwise(&BinOp::Conv(1), &ker).unwrap_err(), EvalError::ConvChannels);
    let big = arr(&[1.0; 18], &[1, 2, 3, 3]);
    assert_eq!(img.pairwise(&BinOp::Conv(1), &big).unwrap_err(), EvalError::Window);
    assert_eq!(
        Tensor::from_elem(vec![usize::MAX, 2], F(0.0)).unwrap_err(),
        EvalError::Size
    );
}

#[test]
fn names_are_bound_last_wins() {
    let mut e: Env<Tensor<F>> = Env::new();
    assert!(e.is_empty());
    e.insert("b".to_string(), arr(&[1.0], &[1]));
    e.insert("a".to_string(), arr(&[2.0], &[1]));
    e.insert("b".to_string(), arr(&[3.0], &[1]));
    assert_eq!(e.len(), 2);
    assert_eq!(e.name_at(0), "a");
    assert_eq!(vals(e.get("b").unwrap()), vec![3.0]);
    assert!(e.get("c").is_none());
    assert!(!e.update("c", arr(&[4.0], &[1])));
    assert!(e.update("a", arr(&[4.0], &[1])));
    assert_eq!(vals(e.get("a").unwrap()), vec![4.0]);
}

#[test]
fn a_variable_is_read_as_it_is_written() {
    let (name, shape) = read_term("x12[4,20]").unwrap();
    assert_eq!(name, "x12");
    assert_eq!(shape, vec![4, 20]);
    let (name, shape) = read_term("y[]").unwrap();
    assert_eq!(name, "y");
    assert!(shape.is_empty());
    assert!(read_term("x").is_none());
    assert!(read_term("x[4").is_none());
    assert!(read_term("x[4,]").is_none());
    assert!(read_term("x[4, 2]").is_none());
    assert!(read_term("").is_none());
}

#[test]
fn an_operation_is_read_under_its_name() {
    let a = || Atom::<F>::var("a".to_string(), vec![2]);
    let p = operation_named(&"relu".to_string(), vec![a()]).unwrap();
    assert_eq!(p.name(), "relu");
    let p = operation_named(&"dot".to_string(), vec![a(), a()]).unwrap();
    assert_eq!(p.name(), "dot");
    assert!(operation_named(&"dot".to_string(), vec![a()]).is_none());
    assert!(operation_named(&"relu".to_string(), vec![a(), a()]).is_none());
    assert!(operation_named(&"elu".to_string(), vec![a()]).is_none());
    assert!(operation_named::<F>(&"add".to_string(), vec![]).is_none());
}

#[test]
fn checkpoint_variables_are_read_back() {
    let layers = vec![
        Layer { w: arr(&[0.0; 6], &[2, 3]), b: arr(&[0.0; 3], &[3]) },
        Layer { w: arr(&[0.0; 3], &[3, 1]), b: arr(&[0.0], &[1]) },
    ];
    let text = checkpoint_graph(&layers, 4, 2);
    let read: Vec<(String, Vec<usize>)> =
        text.split_whitespace().filter_map(|word| read_term(word)).collect();
    assert_eq!(read.len(), 16);
    assert_eq!(read[3], ("W1".to_string(), vec![2, 3]));
    assert_eq!(read[6], ("B1".to_string(), vec![3]));
    assert_eq!(read[15], ("a2".to_string(), vec![4, 1]));
}

fn parameters() -> (Vec<Layer<F>>, Env<Tensor<F>>) {
    let layers = vec![
        Layer { w: arr(&[1.0, -1.0, 0.5, 2.0], &[2, 2]), b: arr(&[0.0, 1.0], &[2]) },
        Layer { w: arr(&[1.0, -2.0], &[2, 1]), b: arr(&[0.25], &[1]) },
    ];
    let mut constants = Env::new();
    constants.insert("W1".to_string(), arr(&[1.0, -1.0, 0.5, 2.0], &[4]));
    constants.insert("B1".to_string(), arr(&[0.0, 1.0], &[2]));
    constants.insert("W2".to_string(), arr(&[1.0, -2.0], &[2]));
    constants.insert("B2".to_string(), arr(&[0.25], &[1]));
    (layers, constants)
}

#[test]
fn a_checkpoint_is_read_back() {
    let (layers, constants) = parameters();
    let graph = read_graph(&checkpoint_graph(&layers, 1, 2), &constants).unwrap();
    assert_eq!(graph.invars[0].to_text(), "x[1, 2] (var)");
    assert_eq!(graph.outvars[0].to_text(), "a2[1, 1] (var)");
    assert_eq!(graph.equations.len(), 5);
    assert_eq!(graph.equations[2].outvar.name, "r1");
    // relu([1, 2] W1 + B1) == [2, 4], and 2 - 8 + 0.25 == -5.75
    let out = EvalInterpreter::run(&graph, &vec![arr(&[1.0, 2.0], &[1, 2])]).unwrap();
    assert_eq!(out[0].shape(), &[1, 1]);
    assert_eq!(vals(&out[0]), vec![-5.75]);
}

#[test]
fn white_space_does_not_matter() {
    let constants: Env<Tensor<F>> = Env::new();
    let text = "  input:\tx[2]  y[2]\r\n\n z[2]  =  add {}\tx[2] y[2] \noutput: z[2]\n";
    let graph = read_graph(text, &constants).unwrap();
    assert_eq!(graph.invars.len(), 2);
    assert_eq!(graph.equations[0].primitive.to_text(), "add(x[2] (var), y[2] (var))");
    assert_eq!(graph.outvars[0].name, "z");
}

#[test]
fn texts_that_are_no_networks() {
    let mut constants = Env::new();
    constants.insert("C".to_string(), arr(&[1.0, 2.0, 3.0], &[3]));
    let read = |text: &str| read_graph(text, &constants).unwrap_err();
    assert_eq!(read("z[2] add {} x[2] y[2]"), ReadError::Line);
    assert_eq!(read("z[2] = slice {axis=0} x[2]"), ReadError::Line);
    assert_eq!(read("input: x"), ReadError::Term);
    assert_eq!(read("z[2] = neg {} x[2"), ReadError::Term);
    assert_eq!(read("z[2] = halve {} x[2]"), ReadError::Operation);
    assert_eq!(read("z[2] = neg {} x[2] y[2]"), ReadError::Operation);
    assert_eq!(read("z[2] = neg {} C[2]"), ReadError::Constant);
    let graph = read_graph("z[3] = neg {} C[3]", &constants).unwrap();
    assert_eq!(graph.equations[0].outvar.shape, vec![3]);
}
