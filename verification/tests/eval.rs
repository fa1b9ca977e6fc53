//! Tensor operations.

use mininn_verifier::manipulate::reshape_c;
use mininn_verifier::op::{PaddingOptionConfig, PaddingOptions, PoolOptions};
use mininn_verifier::scalar::Scalar;
use mininn_verifier::shape::{broadcast_shape, norm_axis_index};
use mininn_verifier::tensor::{binary, Tensor};


/// Double-precision numbers.
#[derive(Debug, Clone, Copy, PartialEq)]
struct F(f64);

impl Scalar for F {
    fn from_ratio(num: i128, den: u128) -> F {
        F(num as f64 / den as f64)
    }
    fn infinity() -> F {
        F(f64::INFINITY)
    }
    fn neg_infinity() -> F {
        F(f64::NEG_INFINITY)
    }
    fn pi() -> F {
        F(std::f64::consts::PI)
    }
    fn add(self, other: F) -> F {
        F(self.0 + other.0)
    }
    fn sub(self, other: F) -> F {
        F(self.0 - other.0)
    }
    fn mul(self, other: F) -> F {
        F(self.0 * other.0)
    }
    fn div(self, other: F) -> F {
        F(self.0 / other.0)
    }
    fn neg(self) -> F {
        F(-self.0)
    }
    fn recip(self) -> F {
        F(self.0.recip())
    }
    fn abs(self) -> F {
        F(self.0.abs())
    }
    fn sqrt(self) -> F {
        F(self.0.sqrt())
    }
    fn exp(self) -> F {
        F(self.0.exp())
    }
    fn ln(self) -> F {
        F(self.0.ln())
    }
    fn erf(self) -> F {
        F(libm::erf(self.0))
    }
    fn max_of(self, other: F) -> F {
        F(self.0.max(other.0))
    }
    fn min_of(self, other: F) -> F {
        F(self.0.min(other.0))
    }
    fn is_lt(self, other: F) -> bool {
        self.0 < other.0
    }
    fn is_le(self, other: F) -> bool {
        self.0 <= other.0
    }
    fn is_eq(self, other: F) -> bool {
        self.0 == other.0
    }
    fn is_before(self, other: F) -> bool {
        self.0.total_cmp(&other.0).is_lt()
    }
}

fn arr(data: &[f64], shape: &[usize]) -> Tensor<F> {
    Tensor::from_shape_vec(shape.to_vec(), data.iter().map(|&x| F(x)).collect()).unwrap()
}

fn vals(t: &Tensor<F>) -> Vec<f64> {
    t.values().iter().map(|x| x.0).collect()
}

fn at(t: &Tensor<F>, ix: &[usize]) -> f64 {
    t.get(ix).unwrap().0
}

fn full(shape: &[usize], x: f64) -> Tensor<F> {
    Tensor::from_elem(shape.to_vec(), F(x)).unwrap()
}

fn count(from: usize, to: usize) -> Vec<f64> {
    (from..=to).map(|x| x as f64).collect()
}

// --- norm_axis_index tests ---

#[test]
fn eval_norm_axis_positive() {
    assert_eq!(norm_axis_index(0, 4), 0);
    assert_eq!(norm_axis_index(3, 4), 3);
}

#[test]
fn eval_norm_axis_negative() {
    assert_eq!(norm_axis_index(-1, 4), 3);
    assert_eq!(norm_axis_index(-4, 4), 0);
}

// --- broadcast_shape tests ---

#[test]
fn eval_broadcast_same_shape() {
    assert_eq!(broadcast_shape(&[2, 3], &[2, 3]), Some(vec![2, 3]));
}

#[test]
fn eval_broadcast_left_pad() {
    assert_eq!(broadcast_shape(&[3], &[2, 3]), Some(vec![2, 3]));
}

#[test]
fn eval_broadcast_size1_expansion() {
    assert_eq!(broadcast_shape(&[1, 3], &[2, 3]), Some(vec![2, 3]));
    assert_eq!(broadcast_shape(&[2, 1], &[1, 3]), Some(vec![2, 3]));
}

#[test]
fn eval_broadcast_scalar() {
    assert_eq!(broadcast_shape(&[], &[2, 3]), Some(vec![2, 3]));
}

#[test]
fn eval_broadcast_incompatible() {
    assert_eq!(broadcast_shape(&[2, 3], &[2, 4]), None);
}

#[test]
fn norm_axis_positive() {
    assert_eq!(norm_axis_index(0, 4), 0);
    assert_eq!(norm_axis_index(3, 4), 3);
}

#[test]
fn norm_axis_negative() {
    assert_eq!(norm_axis_index(-1, 4), 3);
    assert_eq!(norm_axis_index(-4, 4), 0);
}

#[test]
fn broadcast_same_shape() {
    assert_eq!(broadcast_shape(&[2, 3], &[2, 3]), Some(vec![2, 3]));
}

#[test]
fn broadcast_left_pad() {
    assert_eq!(broadcast_shape(&[3], &[2, 3]), Some(vec![2, 3]));
}

#[test]
fn broadcast_size1_expansion() {
    assert_eq!(broadcast_shape(&[1, 3], &[2, 3]), Some(vec![2, 3]));
    assert_eq!(broadcast_shape(&[2, 1], &[1, 3]), Some(vec![2, 3]));
}

#[test]
fn broadcast_scalar() {
    assert_eq!(broadcast_shape(&[], &[2, 3]), Some(vec![2, 3]));
}

#[test]
fn broadcast_incompatible() {
    assert_eq!(broadcast_shape(&[2, 3], &[2, 4]), None);
}

// --- binary tests ---

#[test]
fn eval_binary_add_elementwise() {
    let a = arr(&[1.0, 2.0, 3.0], &[3]);
    let b = arr(&[4.0, 5.0, 6.0], &[3]);
    let result = binary(&a, &b, |x: F, y: F| F(x.0 + y.0)).unwrap();
    assert_eq!(result.shape(), &[3]);
    assert_eq!(vals(&result), vec![5.0, 7.0, 9.0]);
}

#[test]
fn eval_binary_broadcast() {
    // [2,1] + [3] -> [2,3]
    let a = arr(&[1.0, 2.0], &[2, 1]);
    let b = arr(&[10.0, 20.0, 30.0], &[3]);
    let result = binary(&a, &b, |x: F, y: F| F(x.0 + y.0)).unwrap();
    assert_eq!(result.shape(), &[2, 3]);
    assert_eq!(at(&result, &[0, 0]), 11.0);
    assert_eq!(at(&result, &[1, 2]), 32.0);
}

#[test]
fn eval_binary_incompatible_error() {
    let a = full(&[2], 0.0);
    let b = full(&[3], 0.0);
    assert!(binary(&a, &b, |x: F, y: F| F(x.0 + y.0)).is_err());
}

// --- where tests ---

#[test]
fn eval_where_basic() {
    let cond = arr(&[1.0, 0.0, 1.0], &[3]);
    let x = arr(&[10.0, 20.0, 30.0], &[3]);
    let y = arr(&[40.0, 50.0, 60.0], &[3]);
    let result = Tensor::select(&cond, &x, &y).unwrap();
    assert_eq!(result.shape(), &[3]);
    assert_eq!(vals(&result), vec![10.0, 50.0, 30.0]);
}

#[test]
fn eval_where_broadcast_scalar_branches() {
    let cond = arr(&[1.0, 0.0], &[2]);
    let x = arr(&[5.0], &[]);
    let y = arr(&[0.0], &[]);
    let result = Tensor::select(&cond, &x, &y).unwrap();
    assert_eq!(result.shape(), &[2]);
    assert_eq!(vals(&result), vec![5.0, 0.0]);
}

// --- reshape_c tests ---

#[test]
fn eval_reshape_c_flatten() {
    let a = arr(&[1.0, 2.0, 3.0, 4.0], &[2, 2]);
    let result = reshape_c(&a, &[4]).unwrap();
    assert_eq!(result.shape(), &[4]);
    assert_eq!(vals(&result), vec![1.0, 2.0, 3.0, 4.0]);
}

#[test]
fn eval_reshape_c_unflatten() {
    let a = arr(&[1.0, 2.0, 3.0, 4.0], &[4]);
    let result = reshape_c(&a, &[2, 2]).unwrap();
    assert_eq!(result.shape(), &[2, 2]);
    assert_eq!(vals(&result), vec![1.0, 2.0, 3.0, 4.0]);
}

// --- moveaxis tests ---

#[test]
fn eval_moveaxis_first_to_last() {
    // [2,3,4]: move axis 0 to 2 -> permutation [1,2,0] -> shape [3,4,2]
    let a = full(&[2, 3, 4], 0.0);
    let result = a.moveaxis(0, 2).unwrap();
    assert_eq!(result.shape(), &[3, 4, 2]);
}

#[test]
fn eval_moveaxis_last_to_first() {
    // [2,3,4]: move axis -1 to 0 -> permutation [2,0,1] -> shape [4,2,3]
    let a = full(&[2, 3, 4], 0.0);
    let result = a.moveaxis(-1, 0).unwrap();
    assert_eq!(result.shape(), &[4, 2, 3]);
}

#[test]
fn eval_moveaxis_preserves_values() {
    // verify element [0,1,2] ends up at [1,2,0] after moving axis 0 -> 2
    let mut data = Vec::new();
    for i in 0..2 {
        for j in 0..3 {
            for k in 0..4 {
                data.push((i * 100 + j * 10 + k) as f64);
            }
        }
    }
    let a = arr(&data, &[2, 3, 4]);
    let result = a.moveaxis(0, 2).unwrap();
    assert_eq!(at(&result, &[1, 2, 0]), 12.0);
}

#[test]
fn eval_dot_1d_1d() {
    let a = arr(&[1.0, 2.0, 3.0], &[3]);
    let b = arr(&[4.0, 5.0, 6.0], &[3]);
    let result = a.dot(&b).unwrap();
    assert_eq!(result.ndim(), 0);
    assert_eq!(at(&result, &[]), 32.0); // 1*4 + 2*5 + 3*6
}

#[test]
fn eval_dot_2d_2d() {
    let a = arr(&[1.0, 2.0, 3.0, 4.0], &[2, 2]);
    let b = arr(&[5.0, 6.0, 7.0, 8.0], &[2, 2]);
    let result = a.dot(&b).unwrap();
    assert_eq!(result.shape(), &[2, 2]);
    assert_eq!(at(&result, &[0, 0]), 19.0); // 1*5 + 2*7
    assert_eq!(at(&result, &[1, 1]), 50.0); // 3*6 + 4*8
}

#[test]
fn eval_dot_2d_1d() {
    let a = arr(&[1.0, 2.0, 3.0, 4.0], &[2, 2]);
    let b = arr(&[1.0, 1.0], &[2]);
    let result = a.dot(&b).unwrap();
    assert_eq!(result.shape(), &[2]);
    assert_eq!(at(&result, &[0]), 3.0);
    assert_eq!(at(&result, &[1]), 7.0);
}

#[test]
fn eval_dot_nd_1d() {
    // a: [2, 3, 4], b: [4] -> result: [2, 3]
    let a = full(&[2, 3, 4], 1.0);
    let b = full(&[4], 2.0);
    let result = a.dot(&b).unwrap();
    assert_eq!(result.shape(), &[2, 3]);
    assert!(vals(&result).iter().all(|&x| x == 8.0)); // sum of 4 * (1*2)
}

#[test]
fn eval_dot_nd_md() {
    // a: [2, 3], b: [3, 4] -> result: [2, 4]
    let a = full(&[2, 3], 1.0);
    let b = full(&[3, 4], 1.0);
    let result = a.dot(&b).unwrap();
    assert_eq!(result.shape(), &[2, 4]);
    assert!(vals(&result).iter().all(|&x| x == 3.0));
}

#[test]
fn eval_dot_scalar() {
    let a = arr(&[3.0], &[]);
    let b = full(&[2, 3], 2.0);
    let result = a.dot(&b).unwrap();
    assert_eq!(result.shape(), &[2, 3]);
    assert!(vals(&result).iter().all(|&x| x == 6.0));
}

#[test]
fn eval_dot_1d_1d_mismatch() {
    let a = full(&[3], 1.0);
    let b = full(&[4], 1.0);
    assert!(a.dot(&b).is_err());
}

#[test]
fn eval_dot_2d_1d_mismatch() {
    let a = full(&[2, 3], 1.0);
    let b = full(&[4], 1.0);
    assert!(a.dot(&b).is_err());
}

#[test]
fn eval_dot_2d_2d_mismatch() {
    let a = full(&[2, 3], 1.0);
    let b = full(&[4, 2], 1.0);
    assert!(a.dot(&b).is_err());
}

#[test]
fn eval_dot_nd_1d_mismatch() {
    let a = full(&[2, 3, 4], 1.0);
    let b = full(&[5], 1.0);
    assert!(a.dot(&b).is_err());
}

#[test]
fn eval_dot_nd_md_mismatch() {
    let a = full(&[2, 3], 1.0);
    let b = full(&[4, 5], 1.0); // second-to-last is 4, not 3
    assert!(a.dot(&b).is_err());
}

#[test]
fn eval_reduce_sum_1d() {
    let a = arr(&[1.0, 2.0, 3.0], &[3]);
    let result = a.reduce_sum(&[0]).unwrap();
    assert_eq!(result.shape(), &[] as &[usize]);
    assert_eq!(at(&result, &[]), 6.0);
}

#[test]
fn eval_reduce_sum_3d_middle_axis() {
    let a = full(&[2, 3, 4], 1.0);
    let result = a.reduce_sum(&[1]).unwrap();
    assert_eq!(result.shape(), &[2, 4]);
    assert!(vals(&result).iter().all(|&x| x == 3.0));
}

#[test]
fn eval_reduce_sum_3d_multi_axes() {
    let a = full(&[2, 3, 4], 1.0);
    let result = a.reduce_sum(&[0, 2]).unwrap();
    assert_eq!(result.shape(), &[3]);
    assert!(vals(&result).iter().all(|&x| x == 8.0)); // 2 * 4 * 1
}

#[test]
fn eval_expand_dims_prepend() {
    let a = full(&[3, 4], 1.0);
    let result = a.expand_dims(&[0]).unwrap();
    assert_eq!(result.shape(), &[1, 3, 4]);
}

#[test]
fn eval_expand_dims_insert() {
    let a = full(&[3, 4], 1.0);
    let result = a.expand_dims(&[1]).unwrap();
    assert_eq!(result.shape(), &[3, 1, 4]);
}

#[test]
fn eval_expand_dims_multi_axes_neg() {
    let a = full(&[3, 4], 1.0);
    let result = a.expand_dims(&[0, -1]).unwrap();
    assert_eq!(result.shape(), &[1, 3, 4, 1]);
}

#[test]
fn eval_reshape_flatten() {
    let a = full(&[2, 3], 1.0);
    assert!(a.reshape(&[6]).is_ok())
}

#[test]
fn eval_reshape_unflatten() {
    let a = full(&[6], 1.0);
    assert!(a.reshape(&[2, -1]).is_ok())
}

#[test]
fn eval_reshape_mismatch() {
    let a = full(&[6], 1.0);
    assert!(a.reshape(&[2, 4]).is_err())
}

// --- conv tests ---

#[test]
fn eval_conv_identity_kernel() {
    // 1x1 all-ones kernel is the identity for a single channel
    let input = arr(&count(1, 9), &[1, 1, 3, 3]);
    let kernel = arr(&[1.0], &[1, 1, 1, 1]);
    let result = input.conv(&kernel, 1).unwrap();
    assert_eq!(result.shape(), &[1, 1, 3, 3]);
    assert_eq!(vals(&result), vals(&input));
}

#[test]
fn eval_conv_single_channel_sum_kernel() {
    // 2x2 all-ones kernel produces the sliding 2x2 sum
    let input = arr(&count(1, 9), &[1, 1, 3, 3]);
    let kernel = arr(&[1.0; 4], &[1, 1, 2, 2]);
    let result = input.conv(&kernel, 1).unwrap();
    assert_eq!(result.shape(), &[1, 1, 2, 2]);
    assert_eq!(at(&result, &[0, 0, 0, 0]), 12.0); // 1+2+4+5
    assert_eq!(at(&result, &[0, 0, 0, 1]), 16.0); // 2+3+5+6
    assert_eq!(at(&result, &[0, 0, 1, 0]), 24.0); // 4+5+7+8
    assert_eq!(at(&result, &[0, 0, 1, 1]), 28.0); // 5+6+8+9
}

#[test]
fn eval_conv_multi_output_channels() {
    // kernel shape [2,1,2,2]: two different output filters on one input channel
    let input = arr(&count(1, 9), &[1, 1, 3, 3]);
    // output channel 0: all ones (sum); output channel 1: top-left only
    let kernel = arr(
        &[
            1.0, 1.0, 1.0, 1.0, // oc=0
            1.0, 0.0, 0.0, 0.0, // oc=1
        ],
        &[2, 1, 2, 2],
    );
    let result = input.conv(&kernel, 1).unwrap();
    assert_eq!(result.shape(), &[1, 2, 2, 2]);
    // channel 0: sliding sum
    assert_eq!(at(&result, &[0, 0, 0, 0]), 12.0);
    assert_eq!(at(&result, &[0, 0, 0, 1]), 16.0);
    assert_eq!(at(&result, &[0, 0, 1, 0]), 24.0);
    assert_eq!(at(&result, &[0, 0, 1, 1]), 28.0);
    // channel 1: top-left element of each window
    assert_eq!(at(&result, &[0, 1, 0, 0]), 1.0);
    assert_eq!(at(&result, &[0, 1, 0, 1]), 2.0);
    assert_eq!(at(&result, &[0, 1, 1, 0]), 4.0);
    assert_eq!(at(&result, &[0, 1, 1, 1]), 5.0);
}

#[test]
fn eval_conv_multi_input_channels() {
    // kernel shape [1,2,2,2]: single output channel, sums over two input channels
    let mut input_data = count(1, 9); // 1..9
    input_data.extend(vec![1.0; 9]); // all ones
    let input = arr(&input_data, &[1, 2, 3, 3]);
    // ic=0: pick only top-left; ic=1: all ones (2x2 sum over the all-ones channel)
    let kernel = arr(
        &[
            1.0, 0.0, 0.0, 0.0, // ic=0
            1.0, 1.0, 1.0, 1.0, // ic=1
        ],
        &[1, 2, 2, 2],
    );
    let result = input.conv(&kernel, 1).unwrap();
    assert_eq!(result.shape(), &[1, 1, 2, 2]);
    assert_eq!(at(&result, &[0, 0, 0, 0]), 5.0); // ch0 contrib=1, ch1 contrib=4
    assert_eq!(at(&result, &[0, 0, 0, 1]), 6.0); // ch0=2, ch1=4
    assert_eq!(at(&result, &[0, 0, 1, 0]), 8.0); // ch0=4, ch1=4
    assert_eq!(at(&result, &[0, 0, 1, 1]), 9.0); // ch0=5, ch1=4
}

#[test]
fn eval_conv_stride_2() {
    // stride=2 skips alternate positions
    let input = arr(&count(1, 16), &[1, 1, 4, 4]);
    // kernel picks only the top-left element of each window
    let kernel = arr(&[1.0, 0.0, 0.0, 0.0], &[1, 1, 2, 2]);
    let result = input.conv(&kernel, 2).unwrap();
    assert_eq!(result.shape(), &[1, 1, 2, 2]);
    assert_eq!(at(&result, &[0, 0, 0, 0]), 1.0); // input[0,0,0,0]
    assert_eq!(at(&result, &[0, 0, 0, 1]), 3.0); // input[0,0,0,2]
    assert_eq!(at(&result, &[0, 0, 1, 0]), 9.0); // input[0,0,2,0]
    assert_eq!(at(&result, &[0, 0, 1, 1]), 11.0); // input[0,0,2,2]
}

#[test]
fn eval_conv_batch_size_2() {
    // two batch items are processed independently
    let input = arr(&[1.0, 2.0, 3.0, 4.0, 5.0, 6.0, 7.0, 8.0], &[2, 1, 2, 2]);
    let kernel = arr(&[2.0], &[1, 1, 1, 1]);
    let result = input.conv(&kernel, 1).unwrap();
    assert_eq!(result.shape(), &[2, 1, 2, 2]);
    assert_eq!(at(&result, &[0, 0, 0, 0]), 2.0);
    assert_eq!(at(&result, &[0, 0, 1, 1]), 8.0);
    assert_eq!(at(&result, &[1, 0, 0, 0]), 10.0);
    assert_eq!(at(&result, &[1, 0, 1, 1]), 16.0);
}

#[test]
fn eval_conv_channel_mismatch_error() {
    let input = full(&[1, 3, 4, 4], 0.0); // 3 input channels
    let kernel = full(&[2, 4, 2, 2], 0.0); // expects 4 input channels
    assert!(input.conv(&kernel, 1).is_err());
}

#[test]
fn eval_conv_non_4d_input_error() {
    let input = full(&[1, 3, 4], 0.0);
    let kernel = full(&[2, 3, 2, 2], 0.0);
    assert!(input.conv(&kernel, 1).is_err());
}

#[test]
fn eval_conv_non_4d_kernel_error() {
    let input = full(&[1, 3, 4, 4], 0.0);
    let kernel = full(&[2, 3, 2], 0.0);
    assert!(input.conv(&kernel, 1).is_err());
}

// --- pool tests ---

fn window(window_size: &[usize], stride: &[usize]) -> PoolOptions {
    PoolOptions {
        window_size: window_size.to_vec(),
        stride: stride.to_vec(),
    }
}

#[test]
fn eval_pool_1d_sum_stride1() {
    // [1,2,3,4] with window=2, stride=1 -> [3,5,7]
    let a = arr(&[1.0, 2.0, 3.0, 4.0], &[4]);
    let result = a.pool(&window(&[2], &[1]), false).unwrap();
    assert_eq!(result.shape(), &[3]);
    assert_eq!(at(&result, &[0]), 3.0);
    assert_eq!(at(&result, &[1]), 5.0);
    assert_eq!(at(&result, &[2]), 7.0);
}

#[test]
fn eval_pool_1d_avg_stride1() {
    // same windows, averaged
    let a = arr(&[1.0, 2.0, 3.0, 4.0], &[4]);
    let result = a.pool(&window(&[2], &[1]), true).unwrap();
    assert_eq!(result.shape(), &[3]);
    assert_eq!(at(&result, &[0]), 1.5);
    assert_eq!(at(&result, &[1]), 2.5);
    assert_eq!(at(&result, &[2]), 3.5);
}

#[test]
fn eval_pool_1d_sum_stride2() {
    // [1,2,3,4] with window=2, stride=2 -> [3,7]
    let a = arr(&[1.0, 2.0, 3.0, 4.0], &[4]);
    let result = a.pool(&window(&[2], &[2]), false).unwrap();
    assert_eq!(result.shape(), &[2]);
    assert_eq!(at(&result, &[0]), 3.0); // 1+2
    assert_eq!(at(&result, &[1]), 7.0); // 3+4
}

#[test]
fn eval_pool_2d_sum_stride1() {
    // 3x3 input, 2x2 window, stride 1 -> 2x2 output; same values as conv sum-kernel test
    let a = arr(&count(1, 9), &[3, 3]);
    let result = a.pool(&window(&[2, 2], &[1, 1]), false).unwrap();
    assert_eq!(result.shape(), &[2, 2]);
    assert_eq!(at(&result, &[0, 0]), 12.0); // 1+2+4+5
    assert_eq!(at(&result, &[0, 1]), 16.0); // 2+3+5+6
    assert_eq!(at(&result, &[1, 0]), 24.0); // 4+5+7+8
    assert_eq!(at(&result, &[1, 1]), 28.0); // 5+6+8+9
}

#[test]
fn eval_pool_2d_avg_stride1() {
    let a = arr(&count(1, 9), &[3, 3]);
    let result = a.pool(&window(&[2, 2], &[1, 1]), true).unwrap();
    assert_eq!(result.shape(), &[2, 2]);
    assert_eq!(at(&result, &[0, 0]), 3.0); // 12/4
    assert_eq!(at(&result, &[0, 1]), 4.0); // 16/4
    assert_eq!(at(&result, &[1, 0]), 6.0); // 24/4
    assert_eq!(at(&result, &[1, 1]), 7.0); // 28/4
}

#[test]
fn eval_pool_2d_sum_stride2() {
    // 4x4 input, 2x2 window, stride 2 -> 2x2 output
    let a = arr(&count(1, 16), &[4, 4]);
    let result = a.pool(&window(&[2, 2], &[2, 2]), false).unwrap();
    assert_eq!(result.shape(), &[2, 2]);
    assert_eq!(at(&result, &[0, 0]), 14.0); // 1+2+5+6
    assert_eq!(at(&result, &[0, 1]), 22.0); // 3+4+7+8
    assert_eq!(at(&result, &[1, 0]), 46.0); // 9+10+13+14
    assert_eq!(at(&result, &[1, 1]), 54.0); // 11+12+15+16
}

#[test]
fn eval_pad_single_axis() {
    let a = full(&[2, 3, 4], 1.0);
    let result = a
        .pad(&PaddingOptions {
            config: PaddingOptionConfig {
                left: 2,
                right: 2,
                interior: 1,
            },
            axes: vec![0],
            value: F(0.0),
        })
        .unwrap();

    let mut expected = vec![0.0; 7 * 3 * 4];
    for plane in [2, 4] {
        for k in 0..12 {
            expected[plane * 12 + k] = 1.0;
        }
    }

    assert_eq!(result.shape(), &[7, 3, 4]);
    assert_eq!(vals(&result), expected);
}
