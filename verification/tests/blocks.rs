//! The building blocks of the engines: convolutions, FiLM, gating, layers, arrays,
//! the post-stack head and the LSTM cell.

use nam_rs::arith::{Arith, Scalar};
use nam_rs::json::{Json, JsonNumber};
use nam_rs::lstm::cell::LstmCell;
use nam_rs::model::{ActivationSpec, GatingMode};
use nam_rs::reader::Reader;
use nam_rs::wavenet::activation::Activation;
use nam_rs::wavenet::array::LayerArray;
use nam_rs::wavenet::conv::Conv1d;
use nam_rs::wavenet::film::FiLM;
use nam_rs::wavenet::gating::Gating;
use nam_rs::wavenet::head::PostStackHead;
use nam_rs::wavenet::layer::Layer;
use nam_rs::Error;

/// Single-precision arithmetic.
struct F32;

impl Arith for F32 {
    type Num = f32;

    fn zero() -> f32 {
        0.0
    }

    fn one() -> f32 {
        1.0
    }

    fn constant(n: JsonNumber) -> f32 {
        match n {
            JsonNumber::PosInt(u) => u as f32,
            JsonNumber::NegInt(i) => i as f32,
            JsonNumber::Float(bits) => f64::from_bits(bits) as f32,
        }
    }

    fn sum(a: f32, b: f32) -> f32 {
        a + b
    }

    fn difference(a: f32, b: f32) -> f32 {
        a - b
    }

    fn product(a: f32, b: f32) -> f32 {
        a * b
    }

    fn quotient(a: f32, b: f32) -> f32 {
        a / b
    }

    fn negation(a: f32) -> f32 {
        -a
    }

    fn exponential(a: f32) -> f32 {
        a.exp()
    }

    fn tangent(a: f32) -> f32 {
        a.tanh()
    }

    fn maximum(a: f32, b: f32) -> f32 {
        a.max(b)
    }

    fn exceeds(a: f32, b: f32) -> bool {
        a > b
    }
}

type Signal = Vec<Scalar<F32>>;

/// A double as a file holds it.
fn number(x: f64) -> JsonNumber {
    JsonNumber::Float(x.to_bits())
}

fn wrap(xs: &[f32]) -> Signal {
    xs.iter().map(|&x| Scalar::input(x)).collect()
}

fn unwrap(xs: &[Scalar<F32>]) -> Vec<f32> {
    xs.iter().map(|x| x.output()).collect()
}

fn silent(n: usize) -> Signal {
    wrap(&vec![0.0; n])
}

// ---- Activations ----

fn activated(a: Activation, x: f32) -> f32 {
    a.apply(Scalar::<F32>::input(x)).output()
}

#[test]
fn from_spec_resolves_named_activations() {
    let named = |n: &str| ActivationSpec::Named {
        name: n.into(),
        negative_slope: None,
    };
    assert_eq!(
        Activation::from_spec(&named("Tanh")).unwrap(),
        Activation::Tanh
    );
    assert_eq!(
        Activation::from_spec(&named("ReLU")).unwrap(),
        Activation::Relu
    );
    assert_eq!(
        Activation::from_spec(&named("Sigmoid")).unwrap(),
        Activation::Sigmoid
    );
    assert_eq!(
        Activation::from_spec(&named("LeakyReLU")).unwrap(),
        Activation::LeakyRelu(number(0.01))
    );
    assert_eq!(
        Activation::from_spec(&ActivationSpec::Named {
            name: "LeakyReLU".into(),
            negative_slope: Some(number(0.2))
        })
        .unwrap(),
        Activation::LeakyRelu(number(0.2))
    );
}

#[test]
fn from_spec_rejects_unknown_and_unsupported() {
    let bad_name = ActivationSpec::Named {
        name: "Softsign".into(),
        negative_slope: None,
    };
    assert!(matches!(
        Activation::from_spec(&bad_name),
        Err(Error::UnsupportedActivation(_))
    ));
    let list = ActivationSpec::Unsupported(Json::parse(r#"["ReLU", "Tanh"]"#).unwrap());
    assert!(matches!(
        Activation::from_spec(&list),
        Err(Error::UnsupportedFeature(_))
    ));
}

#[test]
fn leaky_relu_applies_slope() {
    let a = Activation::LeakyRelu(number(0.01));
    assert_eq!(activated(a, 2.0), 2.0);
    assert!((activated(a, -2.0) - (-0.02)).abs() < 1e-9);
    assert_eq!(activated(a, 0.0), 0.0);
}

#[test]
fn sigmoid_matches_reference() {
    // sigmoid(0) = 0.5 exactly; pin the formula gating relies on.
    assert_eq!(activated(Activation::Sigmoid, 0.0), 0.5);
    let want = 1.0_f32 / (1.0 + (-1.5_f32).exp());
    assert!((activated(Activation::Sigmoid, 1.5) - want).abs() < 1e-9);
}

#[test]
fn activations_have_their_exact_values() {
    assert_eq!(activated(Activation::Tanh, 0.75), 0.75_f32.tanh());
    assert_eq!(activated(Activation::Relu, -0.75), 0.0);
    assert_eq!(activated(Activation::Relu, 0.75), 0.75);
    // A slope may be an integer of the file.
    assert_eq!(
        activated(Activation::LeakyRelu(JsonNumber::PosInt(2)), -1.5),
        -3.0
    );
    assert_eq!(
        activated(Activation::LeakyRelu(JsonNumber::NegInt(-2)), -1.5),
        3.0
    );
}

// ---- The weight blob ----

#[test]
fn weights_are_taken_in_order() {
    let blob = [number(0.5), JsonNumber::PosInt(3), JsonNumber::NegInt(-2)];
    let mut reader = Reader::new(&blob);
    assert_eq!(reader.remaining(), 3);
    assert_eq!(unwrap(&reader.take(1)), vec![0.5]);
    assert_eq!(unwrap(&reader.take(0)), Vec::<f32>::new());
    assert_eq!(unwrap(&reader.take(2)), vec![3.0, -2.0]);
    assert_eq!(reader.remaining(), 0);
}

// ---- Convolutions ----

fn conv(
    in_ch: usize,
    out_ch: usize,
    kernel: usize,
    dilation: usize,
    weights: Vec<f32>,
    bias: Option<Vec<f32>>,
) -> Conv1d<F32> {
    Conv1d::new(
        in_ch,
        out_ch,
        kernel,
        dilation,
        wrap(&weights),
        bias.map(|b| wrap(&b)),
    )
}

fn run(conv: &mut Conv1d<F32>, xs: &[&[f32]]) -> Vec<Vec<f32>> {
    let mut out = silent(conv.out_ch());
    xs.iter()
        .map(|x| {
            conv.process_sample(&wrap(x), &mut out);
            unwrap(&out)
        })
        .collect()
}

/// The test vectors of NAM's own convolution.
#[test]
fn matches_namcore_conv1d_vectors() {
    // test_process_basic: weights {1,2}, input [1,2,3,4] -> [2,5,8,11].
    let mut basic = conv(1, 1, 2, 1, vec![1.0, 2.0], None);
    assert_eq!(
        run(&mut basic, &[&[1.0], &[2.0], &[3.0], &[4.0]]),
        vec![vec![2.0], vec![5.0], vec![8.0], vec![11.0]]
    );

    // test_process_with_bias: weights {1,0}, bias 5, input [2,3] -> [5,7].
    let mut biased = conv(1, 1, 2, 1, vec![1.0, 0.0], Some(vec![5.0]));
    assert_eq!(
        run(&mut biased, &[&[2.0], &[3.0]]),
        vec![vec![5.0], vec![7.0]]
    );

    // test_process_dilation: weights {1,2}, dilation 2, [1,2,3,4] -> [2,4,7,10].
    let mut dil = conv(1, 1, 2, 2, vec![1.0, 2.0], None);
    assert_eq!(
        run(&mut dil, &[&[1.0], &[2.0], &[3.0], &[4.0]]),
        vec![vec![2.0], vec![4.0], vec![7.0], vec![10.0]]
    );
}

#[test]
fn kernel2_dilation1_single_channel() {
    // out[t] = a*x[t-1] + b*x[t] + c, history starts at silence.
    // weights [out][in][k] = [a (oldest tap), b (current tap)].
    let mut conv = conv(1, 1, 2, 1, vec![0.5, 2.0], Some(vec![0.1]));
    let got = run(&mut conv, &[&[1.0], &[2.0], &[3.0]]);
    assert_eq!(got, vec![vec![2.1], vec![4.6], vec![7.1]]);
}

#[test]
fn kernel2_dilation2_skips_a_sample() {
    // out[t] = 0.5*x[t-2] + 2*x[t], no bias.
    let mut conv = conv(1, 1, 2, 2, vec![0.5, 2.0], None);
    let got = run(&mut conv, &[&[1.0], &[2.0], &[3.0], &[4.0]]);
    assert_eq!(got, vec![vec![2.0], vec![4.0], vec![6.5], vec![9.0]]);
}

#[test]
fn one_by_one_is_a_matmul() {
    // kernel=1, dilation=1: out[o] = sum_j W[o][j]*x[j] + bias[o].
    // W (2x2) = [[1,2],[3,4]], bias=[10,20].
    let mut conv = conv(2, 2, 1, 1, vec![1.0, 2.0, 3.0, 4.0], Some(vec![10.0, 20.0]));
    let got = run(&mut conv, &[&[1.0, 1.0], &[2.0, 0.0]]);
    // x=[1,1]: [1+2+10, 3+4+20] = [13,27]; x=[2,0]: [2+10, 6+20]=[12,26]
    assert_eq!(got, vec![vec![13.0, 27.0], vec![12.0, 26.0]]);
}

/// Independent naive causal convolution oracle (single channel).
fn naive(xs: &[f32], w: &[f32], dilation: usize) -> Vec<f32> {
    let k = w.len();
    (0..xs.len())
        .map(|t| {
            (0..k)
                .map(|tap| {
                    let back = (k - 1 - tap) * dilation;
                    let x = if t >= back { xs[t - back] } else { 0.0 };
                    w[tap] * x
                })
                .sum()
        })
        .collect()
}

#[test]
fn ring_buffer_matches_naive_over_long_signal() {
    // kernel=3, dilation=4 -> ring_len=9; feed 32 samples to wrap repeatedly.
    let w = vec![0.3, -1.1, 2.0];
    let mut conv = conv(1, 1, 3, 4, w.clone(), None);
    let xs: Vec<f32> = (0..32).map(|i| (i as f32 * 0.37).sin()).collect();
    let got: Vec<f32> = xs
        .iter()
        .map(|&x| {
            let mut o = silent(1);
            conv.process_sample(&wrap(&[x]), &mut o);
            o[0].output()
        })
        .collect();
    let want = naive(&xs, &w, 4);
    for (g, e) in got.iter().zip(&want) {
        assert!((g - e).abs() < 1e-6, "got {g}, want {e}");
    }
}

/// The block path must reproduce the per-sample path exactly, including history
/// carried across successive (differently sized) blocks. Planar in/out.
#[test]
fn conv_process_block_equals_process_sample_loop() {
    // A few shapes: multi-channel, kernels 1..3, dilations that wrap the ring.
    let cases = [
        (1_usize, 1_usize, 1_usize, 1_usize),
        (2, 3, 1, 1),
        (3, 2, 2, 1),
        (2, 2, 3, 4),
        (4, 5, 2, 7),
    ];
    for (in_ch, out_ch, kernel, dilation) in cases {
        let wlen = out_ch * in_ch * kernel;
        // Deterministic pseudo-random weights/bias/input.
        let w: Vec<f32> = (0..wlen)
            .map(|i| ((i * 37 % 23) as f32 - 11.0) * 0.1)
            .collect();
        let bias: Vec<f32> = (0..out_ch).map(|o| (o as f32 + 1.0) * 0.05).collect();
        let total = 200_usize;
        let xs: Vec<Vec<f32>> = (0..total)
            .map(|t| {
                (0..in_ch)
                    .map(|j| ((t * in_ch + j) as f32 * 0.31).sin())
                    .collect()
            })
            .collect();

        // Reference: per-sample.
        let mut a = conv(
            in_ch,
            out_ch,
            kernel,
            dilation,
            w.clone(),
            Some(bias.clone()),
        );
        let mut want = silent(out_ch);
        let want_all: Vec<Vec<f32>> = xs
            .iter()
            .map(|x| {
                a.process_sample(&wrap(x), &mut want);
                unwrap(&want)
            })
            .collect();

        // Under test: block path, split into uneven chunks to exercise history.
        let mut b = conv(in_ch, out_ch, kernel, dilation, w, Some(bias));
        let chunks = [50usize, 1, 99, 50];
        let mut t0 = 0;
        for &len in &chunks {
            // Planar block_in: [channel][time].
            let mut bin = vec![0.0; in_ch * len];
            for (lt, x) in xs[t0..t0 + len].iter().enumerate() {
                for (j, &v) in x.iter().enumerate() {
                    bin[j * len + lt] = v;
                }
            }
            let mut bout = silent(out_ch * len);
            b.process_block(&wrap(&bin), &mut bout, len);
            let bout = unwrap(&bout);
            for lt in 0..len {
                for o in 0..out_ch {
                    let got = bout[o * len + lt];
                    let exp = want_all[t0 + lt][o];
                    assert!(
                        (got - exp).abs() < 1e-5,
                        "shape {in_ch}x{out_ch} k{kernel} d{dilation} t{} o{o}: got {got}, want {exp}",
                        t0 + lt
                    );
                    // The two apply the same operations in the same order.
                    assert_eq!(got, exp);
                }
            }
            t0 += len;
        }
    }
}

#[test]
fn reset_clears_history() {
    let mut conv = conv(1, 1, 2, 1, vec![0.5, 2.0], None);
    let _ = run(&mut conv, &[&[1.0], &[2.0]]);
    conv.reset();
    // After reset, history is silence again: out[0] = 2*1 = 2.0
    let got = run(&mut conv, &[&[1.0]]);
    assert_eq!(got, vec![vec![2.0]]);
}

#[test]
fn empty_block_changes_nothing() {
    let mut conv = conv(1, 1, 2, 1, vec![0.5, 2.0], None);
    let _ = run(&mut conv, &[&[1.0]]);
    conv.process_block(&[], &mut [], 0);
    assert_eq!(run(&mut conv, &[&[3.0]]), vec![vec![6.5]]);
}

#[test]
fn grouped_convolution_is_block_diagonal() {
    // Two groups of two input and one output channel: output 0 sees channels 0 and 1
    // only, output 1 sees channels 2 and 3 only.
    let mut grouped: Conv1d<F32> =
        Conv1d::new_grouped(4, 2, 1, 1, 2, wrap(&[1.0, 2.0, 3.0, 4.0]), None);
    assert_eq!(
        run(&mut grouped, &[&[1.0, 10.0, 100.0, 1000.0]]),
        vec![vec![21.0, 4300.0]]
    );
    assert_eq!((grouped.in_ch(), grouped.out_ch()), (4, 2));
    assert_eq!((grouped.kernel(), grouped.reach()), (1, 0));
}

#[test]
fn one_group_is_a_dense_convolution() {
    let w = [0.5, -1.0, 2.0, 0.25, 3.0, -0.75, 1.5, 0.125];
    let mut grouped: Conv1d<F32> = Conv1d::new_grouped(2, 2, 2, 3, 1, wrap(&w), None);
    let mut dense = conv(2, 2, 2, 3, w.to_vec(), None);
    let xs: [&[f32]; 5] = [
        &[1.0, 2.0],
        &[-0.5, 0.25],
        &[3.0, -1.0],
        &[0.0, 0.5],
        &[0.75, 1.25],
    ];
    assert_eq!(run(&mut grouped, &xs), run(&mut dense, &xs));
}

// ---- FiLM ----

fn film(
    condition_dim: usize,
    input_dim: usize,
    shift: bool,
    groups: usize,
    weights: Vec<f32>,
    bias: Vec<f32>,
) -> FiLM<F32> {
    FiLM::new(
        condition_dim,
        input_dim,
        shift,
        groups,
        wrap(&weights),
        wrap(&bias),
    )
}

#[test]
fn new_accepts_scale_only_and_scale_shift_dims() {
    // scale-only: out rows = input_dim = 2, cond_dim = 3, groups = 1.
    let f = film(3, 2, false, 1, vec![0.0; 2 * 3], vec![0.0; 2]);
    assert_eq!(f.out_rows(), 2);
    // scale+shift: out rows = 2*input_dim = 4.
    let g = film(3, 2, true, 1, vec![0.0; 4 * 3], vec![0.0; 4]);
    assert_eq!(g.out_rows(), 4);
}

#[test]
fn process_sample_scale_only() {
    // input_dim=2, condition_dim=1, no shift, groups=1.
    // Conv1x1 W = [out=2][in=1][k=1] = [3.0, 4.0], bias = [1.0, -1.0].
    // cond = [2.0] -> scale = [3*2+1, 4*2-1] = [7.0, 7.0].
    // input = [10.0, 100.0] -> out = [70.0, 700.0].
    let mut f = film(1, 2, false, 1, vec![3.0, 4.0], vec![1.0, -1.0]);
    let mut out = silent(2);
    f.process_sample(&wrap(&[10.0, 100.0]), &wrap(&[2.0]), &mut out);
    assert_eq!(unwrap(&out), vec![70.0, 700.0]);
}

#[test]
fn process_sample_scale_and_shift() {
    // input_dim=2, condition_dim=1, shift=true -> out_rows=4.
    // Conv1x1 W = [out=4][in=1][k=1] = [3,4,5,6], bias = [0,0,0,0].
    // cond = [2.0] -> ss = [6, 8, 10, 12]; scale = ss[0..2] = [6,8],
    //   shift = ss[2..4] = [10,12].
    // input = [1.0, 1.0] -> out = [1*6+10, 1*8+12] = [16.0, 20.0].
    let mut f = film(1, 2, true, 1, vec![3.0, 4.0, 5.0, 6.0], vec![0.0; 4]);
    let mut out = silent(2);
    f.process_sample(&wrap(&[1.0, 1.0]), &wrap(&[2.0]), &mut out);
    assert_eq!(unwrap(&out), vec![16.0, 20.0]);
}

#[test]
fn process_sample_in_place_matches_out_of_place() {
    // Same params as scale_and_shift, applied in place.
    // ss = [6,8,10,12]; buf=[1,1] -> [16, 20].
    let mut f = film(1, 2, true, 1, vec![3.0, 4.0, 5.0, 6.0], vec![0.0; 4]);
    let mut buf = wrap(&[1.0, 1.0]);
    f.process_sample_(&mut buf, &wrap(&[2.0]));
    assert_eq!(unwrap(&buf), vec![16.0, 20.0]);
}

#[test]
fn process_sample_in_place_scale_only_uses_old_input() {
    // Guard the read-then-write order: scale-only, input_dim=1.
    // W=[2.0] bias=[0], cond=[3] -> scale=6; buf=5 -> 30.
    let mut f = film(1, 1, false, 1, vec![2.0], vec![0.0]);
    let mut buf = wrap(&[5.0]);
    f.process_sample_(&mut buf, &wrap(&[3.0]));
    assert_eq!(unwrap(&buf), vec![30.0]);
}

#[test]
fn process_block_scale_and_shift_matches_hand_values() {
    // input_dim=2, condition_dim=1, shift=true, groups=1, n=3.
    // W=[3,4,5,6], bias=[0;4]. Conv1x1 over each frame's cond:
    //   ss[:,t] = [3*c, 4*c, 5*c, 6*c]; scale=ss[0..2], shift=ss[2..4].
    // cond frames (planar, 1 row): [c0,c1,c2] = [1.0, 2.0, 0.5].
    // input planar [2 rows][3 frames]:
    //   row0 = [1, 1, 1], row1 = [2, 2, 2].
    // t0 c=1: out0 = 1*3 + 5 = 8 ; out1 = 2*4 + 6 = 14
    // t1 c=2: out0 = 1*6 + 10 = 16 ; out1 = 2*8 + 12 = 28
    // t2 c=0.5: out0 = 1*1.5 + 2.5 = 4 ; out1 = 2*2 + 3 = 7
    let mut f = film(1, 2, true, 1, vec![3.0, 4.0, 5.0, 6.0], vec![0.0; 4]);
    let n = 3;
    let cond = wrap(&[1.0, 2.0, 0.5]); // 1 row * 3
    let input = wrap(&[1.0, 1.0, 1.0, /* row1 */ 2.0, 2.0, 2.0]); // 2 rows * 3
    let mut out = silent(2 * n);
    f.process_block(&input, &cond, &mut out, n);
    // planar [row*n + t]: row0 = [8,16,4], row1 = [14,28,7]
    assert_eq!(unwrap(&out), vec![8.0, 16.0, 4.0, 14.0, 28.0, 7.0]);

    let mut in_place = input.clone();
    f.process_block_(&mut in_place, &cond, n);
    assert_eq!(unwrap(&in_place), unwrap(&out));
}

// ---- Gating ----

fn gated(g: &Gating, z: &[f32], rows: usize) -> Vec<f32> {
    let mut out = silent(rows);
    g.process_sample(&wrap(z), &mut out);
    unwrap(&out)
}

#[test]
fn row_counts_follow_mode() {
    let g_none = Gating::new(
        GatingMode::Ungated,
        Activation::Tanh,
        Activation::Sigmoid,
        4,
    );
    assert_eq!(g_none.input_rows(), 4);
    assert_eq!(g_none.output_rows(), 4);

    let g_gated = Gating::new(GatingMode::Gated, Activation::Tanh, Activation::Sigmoid, 4);
    assert_eq!(g_gated.input_rows(), 8);
    assert_eq!(g_gated.output_rows(), 4);

    let g_blend = Gating::new(
        GatingMode::Blended,
        Activation::Tanh,
        Activation::Sigmoid,
        3,
    );
    assert_eq!(g_blend.input_rows(), 6);
    assert_eq!(g_blend.output_rows(), 3);
    assert_eq!(g_blend.mode(), GatingMode::Blended);
}

#[test]
fn process_sample_none_applies_primary_over_bn_rows() {
    // Ungated over bn=2 rows with ReLU primary. z has bn rows.
    let g = Gating::new(
        GatingMode::Ungated,
        Activation::Relu,
        Activation::Sigmoid,
        2,
    );
    // relu(2)=2, relu(-3)=0
    assert_eq!(gated(&g, &[2.0, -3.0], 2), [2.0, 0.0]);
}

#[test]
fn process_sample_gated_multiplies_primary_by_secondary() {
    // bn=1, Gated, ReLU primary, Sigmoid secondary. z = [value, gate] = [2.0, 0.0].
    // out[0] = relu(2) * sigmoid(0) = 2 * 0.5 = 1.0
    let g = Gating::new(GatingMode::Gated, Activation::Relu, Activation::Sigmoid, 1);
    assert_eq!(gated(&g, &[2.0, 0.0], 1), [1.0]);
}

#[test]
fn process_sample_gated_tanh_sigmoid_reproduces_a1() {
    // The classic A1 gate: primary=Tanh, secondary=Sigmoid, bn=2.
    // z = [v0, v1, g0, g1] (primary first half, secondary second half).
    let g = Gating::new(GatingMode::Gated, Activation::Tanh, Activation::Sigmoid, 2);
    let out = gated(&g, &[0.5_f32, -0.5, 1.0, -1.0], 2);
    let sig = |x: f32| 1.0_f32 / (1.0 + (-x).exp());
    let want0 = 0.5_f32.tanh() * sig(1.0);
    let want1 = (-0.5_f32).tanh() * sig(-1.0);
    assert!(
        (out[0] - want0).abs() < 1e-7,
        "out0={} want={}",
        out[0],
        want0
    );
    assert!(
        (out[1] - want1).abs() < 1e-7,
        "out1={} want={}",
        out[1],
        want1
    );
}

#[test]
fn process_sample_blended_uses_raw_pre_activation_for_one_minus_alpha() {
    // bn=1, Blended, primary=ReLU, secondary=Sigmoid.
    // z = [-2.0, 0.0]: pre-activation = -2.0, alpha = sigmoid(0) = 0.5.
    // out = 0.5*relu(-2) + 0.5*(-2) = 0.5*0 + 0.5*(-2) = -1.0
    // (uses RAW z[c]=-2 for the (1-alpha) term, NOT relu(-2)=0).
    let g = Gating::new(
        GatingMode::Blended,
        Activation::Relu,
        Activation::Sigmoid,
        1,
    );
    let out = gated(&g, &[-2.0, 0.0], 1);
    assert!((out[0] - (-1.0)).abs() < 1e-7, "out={}", out[0]);
}

#[test]
fn process_sample_blended_two_channels_tanh_sigmoid() {
    // bn=2, primary=Tanh, secondary=Sigmoid. z=[v0,v1,g0,g1]=[0.5,-1.0,0.0,2.0].
    let g = Gating::new(
        GatingMode::Blended,
        Activation::Tanh,
        Activation::Sigmoid,
        2,
    );
    let out = gated(&g, &[0.5_f32, -1.0, 0.0, 2.0], 2);
    let sig = |x: f32| 1.0_f32 / (1.0 + (-x).exp());
    let a0 = sig(0.0); // 0.5
    let a1 = sig(2.0);
    let want0 = a0 * 0.5_f32.tanh() + (1.0 - a0) * 0.5;
    let want1 = a1 * (-1.0_f32).tanh() - (1.0 - a1);
    assert!(
        (out[0] - want0).abs() < 1e-7,
        "out0={} want={}",
        out[0],
        want0
    );
    assert!(
        (out[1] - want1).abs() < 1e-7,
        "out1={} want={}",
        out[1],
        want1
    );
}

#[test]
fn process_block_direct_gated_two_channels() {
    // bn=2, Gated, ReLU primary, Sigmoid secondary, n=2 (planar [row][t]).
    // rows: v0=[1,2], v1=[3,-1], g0=[0,0], g1=[0,0] (so sigmoid=0.5 everywhere).
    // z planar = [v0_t0,v0_t1, v1_t0,v1_t1, g0_t0,g0_t1, g1_t0,g1_t1].
    let g = Gating::new(GatingMode::Gated, Activation::Relu, Activation::Sigmoid, 2);
    let z = wrap(&[1.0_f32, 2.0, 3.0, -1.0, 0.0, 0.0, 0.0, 0.0]);
    let mut out = silent(4); // bn*n = 4
    g.process_block(&z, &mut out, 2);
    // out[c*n+t] = relu(v)*0.5
    // c0: relu(1)*0.5=0.5, relu(2)*0.5=1.0 ; c1: relu(3)*0.5=1.5, relu(-1)*0.5=0.0
    assert_eq!(unwrap(&out), [0.5, 1.0, 1.5, 0.0]);
}

#[test]
fn process_block_equals_process_sample_loop_all_modes() {
    let modes = [GatingMode::Ungated, GatingMode::Gated, GatingMode::Blended];
    for mode in modes {
        let bn = 3usize;
        let g = Gating::new(mode, Activation::Tanh, Activation::Sigmoid, bn);
        let in_rows = g.input_rows();
        let n = 5usize;

        // Deterministic planar z: row r, time t -> value.
        let val = |r: usize, t: usize| (((r * 7 + t * 13) % 23) as f32 - 11.0) * 0.13;
        let mut z = vec![0.0_f32; in_rows * n];
        for r in 0..in_rows {
            for t in 0..n {
                z[r * n + t] = val(r, t);
            }
        }

        // Reference: per-sample over each column t, with contiguous-row z slices.
        let mut want = vec![0.0_f32; bn * n];
        for t in 0..n {
            let zc: Vec<f32> = (0..in_rows).map(|r| z[r * n + t]).collect();
            let oc = gated(&g, &zc, bn);
            for c in 0..bn {
                want[c * n + t] = oc[c];
            }
        }

        let mut got = silent(bn * n);
        g.process_block(&wrap(&z), &mut got, n);
        for (i, (a, b)) in unwrap(&got).iter().zip(&want).enumerate() {
            assert!(
                (a - b).abs() < 1e-6,
                "mode={mode:?} idx{i}: block {a}, per-sample {b}"
            );
        }
    }
}

// ---- The post-stack head ----

fn head_sample(head: &mut PostStackHead<F32>, x: f32) -> Vec<f32> {
    let mut out = silent(head.out_channels());
    head.process_sample(&wrap(&[x]), &mut out);
    unwrap(&out)
}

// One-conv head: in=1, out=1, kernel=1, ReLU. conv weight=3, bias=0.5.
// process_sample over scaled input s: out = 3*relu(s) + 0.5.
#[test]
fn single_conv_head_applies_activation_then_conv() {
    let convs = vec![(
        Activation::Relu,
        conv(1, 1, 1, 1, vec![3.0], Some(vec![0.5])),
    )];
    let mut head = PostStackHead::new(convs);
    // s = 2.0 -> relu(2)=2 -> 3*2+0.5 = 6.5
    let out = head_sample(&mut head, 2.0);
    assert!((out[0] - 6.5).abs() < 1e-6, "got {}", out[0]);
    // s = -1.0 -> relu(-1)=0 -> 3*0+0.5 = 0.5
    let out2 = head_sample(&mut head, -1.0);
    assert!((out2[0] - 0.5).abs() < 1e-6, "got {}", out2[0]);
    assert_eq!(head.out_channels(), 1);
    assert_eq!(head.in_channels(), 1);
}

// Two-conv head: in=1 -> channels=1 -> out=1, kernels [1,1], ReLU each.
// conv0 w=2 b=0 ; conv1 w=1 b=1. s -> relu(s) -> conv0=2*relu(s)
//   -> relu(2*relu(s)) -> conv1 = 1*relu(2*relu(s)) + 1.
#[test]
fn two_conv_head_chains_activation_conv_activation_conv() {
    let convs = vec![
        (
            Activation::Relu,
            conv(1, 1, 1, 1, vec![2.0], Some(vec![0.0])),
        ),
        (
            Activation::Relu,
            conv(1, 1, 1, 1, vec![1.0], Some(vec![1.0])),
        ),
    ];
    let mut head = PostStackHead::new(convs);
    // s=3 -> relu=3 -> conv0=6 -> relu=6 -> conv1=6+1=7
    let out = head_sample(&mut head, 3.0);
    assert!((out[0] - 7.0).abs() < 1e-6, "got {}", out[0]);
}

#[test]
fn receptive_field_sums_kernel_minus_one() {
    // kernels [16, 1] -> rf = 1 + (16-1) + (1-1) = 16.
    let convs = vec![
        (
            Activation::Relu,
            conv(1, 1, 16, 1, vec![0.0; 16], Some(vec![0.0])),
        ),
        (
            Activation::Relu,
            conv(1, 1, 1, 1, vec![0.0], Some(vec![0.0])),
        ),
    ];
    let head = PostStackHead::new(convs);
    assert_eq!(head.receptive_field(), 16);
}

#[test]
fn head_remembers_and_forgets() {
    // One conv of kernel 2: out = relu(x[t-1]) + 2*relu(x[t]).
    let convs = vec![(Activation::Relu, conv(1, 1, 2, 1, vec![1.0, 2.0], None))];
    let mut head = PostStackHead::new(convs);
    assert_eq!(head_sample(&mut head, 1.0), vec![2.0]);
    assert_eq!(head_sample(&mut head, 0.5), vec![2.0]);
    head.reset();
    assert_eq!(head_sample(&mut head, 0.5), vec![1.0]);
    let mut out = silent(3);
    head.process_block(&wrap(&[1.0, -1.0, 2.0]), &mut out, 3);
    assert_eq!(unwrap(&out), vec![2.5, 1.0, 4.0]);
}

// ---- Layers ----

#[allow(clippy::too_many_arguments)]
fn layer(
    channels: usize,
    condition_size: usize,
    kernel: usize,
    dilation: usize,
    activation: Activation,
    gated: bool,
    conv_w: Vec<f32>,
    conv_b: Vec<f32>,
    mix_w: Vec<f32>,
    one_w: Vec<f32>,
    one_b: Vec<f32>,
) -> Layer<F32> {
    Layer::new(
        channels,
        condition_size,
        kernel,
        dilation,
        activation,
        gated,
        wrap(&conv_w),
        wrap(&conv_b),
        wrap(&mix_w),
        wrap(&one_w),
        wrap(&one_b),
    )
}

#[test]
fn relu_layer_residual_and_head_accumulate() {
    // channels=1, condition=1, kernel=1, dilation=1, ReLU, not gated.
    // conv: block = 2*input + 0.5 ; mixin: mix = 1*condition ; z = block+mix
    // post = relu(z) ; out = 3*post + 0.1 + input (residual) ; head += post
    let mut layer = layer(
        1,
        1,
        1,
        1,
        Activation::Relu,
        false,
        vec![2.0],
        vec![0.5],
        vec![1.0],
        vec![3.0],
        vec![0.1],
    );

    assert_eq!(layer.head_contrib_width(), 1);
    assert_eq!(layer.condition_size(), 1);
    assert_eq!(layer.reach(), 0);
    let mut head = silent(1);
    let mut out = silent(1);

    // Sample 1: input=0.5, cond=0.5 -> z = 1.0+0.5+0.5 = 2.0, relu=2.0
    layer.process_sample(&wrap(&[0.5]), &wrap(&[0.5]), &mut head, &mut out);
    assert_eq!(unwrap(&out), vec![6.6]); // 3*2 + 0.1 + 0.5
    assert_eq!(unwrap(&head), vec![2.0]);

    // Sample 2: input=0.5, cond=-3.0 -> z = 1.0+0.5-3.0 = -1.5, relu=0
    layer.process_sample(&wrap(&[0.5]), &wrap(&[-3.0]), &mut head, &mut out);
    assert_eq!(unwrap(&out), vec![0.6]); // 3*0 + 0.1 + 0.5
    assert_eq!(unwrap(&head), vec![2.0]); // unchanged: += 0
}

#[test]
fn gated_layer_multiplies_tanh_path_by_sigmoid_gate() {
    // channels=1, gated -> mid=2. Make branch block[1] == 0 so
    // sigmoid(0)=0.5 exactly; ReLU on the value branch keeps it exact.
    // conv weights [out=2][in=1][k=1] = [value=2.0, gate=0.0]; bias [0,0].
    let mut layer = layer(
        1,
        1,
        1,
        1,
        Activation::Relu,
        true,
        vec![2.0, 0.0],
        vec![0.0, 0.0],
        vec![0.0, 0.0],
        vec![1.0],
        vec![0.0],
    );

    let mut head = silent(1);
    let mut out = silent(1);
    // input=1, cond=0 -> block=[2,0]; post = relu(2)*sigmoid(0) = 2*0.5 = 1
    layer.process_sample(&wrap(&[1.0]), &wrap(&[0.0]), &mut head, &mut out);
    assert_eq!(unwrap(&head), vec![1.0]);
    assert_eq!(unwrap(&out), vec![2.0]); // 1*post + input residual = 1 + 1
}

#[test]
fn tanh_activation_matches_reference_value() {
    let mut layer = layer(
        1,
        1,
        1,
        1,
        Activation::Tanh,
        false,
        vec![2.0],
        vec![0.5],
        vec![1.0],
        vec![3.0],
        vec![0.1],
    );
    let mut head = silent(1);
    let mut out = silent(1);
    // z = 2.0 ; post = tanh(2.0) ; out = 3*post + 0.1 + 0.5
    layer.process_sample(&wrap(&[0.5]), &wrap(&[0.5]), &mut head, &mut out);
    let (head, out) = (unwrap(&head), unwrap(&out));
    let post = 2.0_f32.tanh();
    assert!((head[0] - post).abs() < 1e-6, "head={}", head[0]);
    assert!((out[0] - (3.0 * post + 0.6)).abs() < 1e-6, "out={}", out[0]);
}

/// Block path reproduces the per-sample path for a full layer, gated and not,
/// multi-channel, dilated, with a per-sample head seed carried in planar form.
#[test]
fn layer_process_block_equals_process_sample_loop() {
    for gated in [false, true] {
        let channels = 3usize;
        let cond_sz = 2usize;
        let kernel = 3usize;
        let dilation = 4usize;
        let mid = if gated { 2 * channels } else { channels };
        let mk = |len: usize, salt: usize| -> Vec<f32> {
            (0..len)
                .map(|i| (((i * 31 + salt * 7) % 29) as f32 - 14.0) * 0.07)
                .collect()
        };
        let conv_w = mk(mid * channels * kernel, 1);
        let conv_b = mk(mid, 2);
        let mix_w = mk(mid * cond_sz, 3);
        let one_w = mk(channels * channels, 4);
        let one_b = mk(channels, 5);

        let total = 130usize;
        let inp: Vec<Vec<f32>> = (0..total)
            .map(|t| {
                (0..channels)
                    .map(|c| ((t * 3 + c) as f32 * 0.21).sin())
                    .collect()
            })
            .collect();
        let cond: Vec<Vec<f32>> = (0..total)
            .map(|t| {
                (0..cond_sz)
                    .map(|c| ((t * 5 + c) as f32 * 0.17).cos())
                    .collect()
            })
            .collect();
        let seed: Vec<Vec<f32>> = (0..total)
            .map(|t| (0..channels).map(|c| ((t + c) as f32) * 0.01).collect())
            .collect();

        let mk_layer = || {
            layer(
                channels,
                cond_sz,
                kernel,
                dilation,
                Activation::Tanh,
                gated,
                conv_w.clone(),
                conv_b.clone(),
                mix_w.clone(),
                one_w.clone(),
                one_b.clone(),
            )
        };

        // Reference: per-sample.
        let mut a = mk_layer();
        let mut out_ref = vec![vec![0.0; channels]; total];
        let mut head_ref = vec![vec![0.0; channels]; total];
        for t in 0..total {
            let mut head = wrap(&seed[t]);
            let mut out = silent(channels);
            a.process_sample(&wrap(&inp[t]), &wrap(&cond[t]), &mut head, &mut out);
            out_ref[t] = unwrap(&out);
            head_ref[t] = unwrap(&head);
        }

        // Under test: block path in two chunks.
        let mut b = mk_layer();
        for (lo, len) in [(0usize, 70usize), (70, 60)] {
            let mut bin = vec![0.0; channels * len];
            let mut bcond = vec![0.0; cond_sz * len];
            let mut bhead = vec![0.0; channels * len];
            for lt in 0..len {
                for c in 0..channels {
                    bin[c * len + lt] = inp[lo + lt][c];
                    bhead[c * len + lt] = seed[lo + lt][c];
                }
                for c in 0..cond_sz {
                    bcond[c * len + lt] = cond[lo + lt][c];
                }
            }
            let mut bhead = wrap(&bhead);
            let mut bout = silent(channels * len);
            b.process_block(&wrap(&bin), &wrap(&bcond), &mut bhead, &mut bout, len);
            let (bhead, bout) = (unwrap(&bhead), unwrap(&bout));
            for lt in 0..len {
                for c in 0..channels {
                    let go = bout[c * len + lt];
                    let gh = bhead[c * len + lt];
                    assert!(
                        (go - out_ref[lo + lt][c]).abs() < 1e-5,
                        "gated={gated} t{} c{c} out: got {go}, want {}",
                        lo + lt,
                        out_ref[lo + lt][c]
                    );
                    assert!(
                        (gh - head_ref[lo + lt][c]).abs() < 1e-5,
                        "gated={gated} t{} c{c} head: got {gh}, want {}",
                        lo + lt,
                        head_ref[lo + lt][c]
                    );
                }
            }
        }
    }
}

// ---- Arrays ----

fn relu_layer(
    channels: usize,
    conv_w: Vec<f32>,
    conv_b: Vec<f32>,
    mix_w: Vec<f32>,
    one_w: Vec<f32>,
    one_b: Vec<f32>,
) -> Layer<F32> {
    layer(
        channels,
        1,
        1,
        1,
        Activation::Relu,
        false,
        conv_w,
        conv_b,
        mix_w,
        one_w,
        one_b,
    )
}

fn array(
    input_size: usize,
    channels: usize,
    head_size: usize,
    rechannel_w: Vec<f32>,
    layers: Vec<Layer<F32>>,
    head_w: Vec<f32>,
    head_b: Option<Vec<f32>>,
) -> LayerArray<F32> {
    LayerArray::new(
        input_size,
        channels,
        head_size,
        wrap(&rechannel_w),
        layers,
        wrap(&head_w),
        head_b.map(|b| wrap(&b)),
    )
}

/// The head and the signal of one sample.
fn array_sample(
    array: &mut LayerArray<F32>,
    input: &[f32],
    condition: &[f32],
    head_in: &[f32],
) -> (Vec<f32>, Vec<f32>) {
    let mut head_out = silent(array.head_size());
    let mut array_out = silent(array.channels());
    array.process_sample(
        &wrap(input),
        &wrap(condition),
        &wrap(head_in),
        &mut head_out,
        &mut array_out,
    );
    (unwrap(&head_out), unwrap(&array_out))
}

/// Block path reproduces the per-sample path for a multi-layer, dilated,
/// multi-channel array, with a per-sample incoming head.
#[test]
fn array_process_block_equals_process_sample_loop() {
    let input_size = 1usize;
    let channels = 3usize;
    let head_size = 2usize;
    let cond_sz = 1usize;
    let kernel = 3usize;
    let mk = |len: usize, salt: usize| -> Vec<f32> {
        (0..len)
            .map(|i| (((i * 13 + salt * 5) % 19) as f32 - 9.0) * 0.06)
            .collect()
    };
    let tanh_layer = |dilation: usize, salt: usize| {
        layer(
            channels,
            cond_sz,
            kernel,
            dilation,
            Activation::Tanh,
            false,
            mk(channels * channels * kernel, salt),
            mk(channels, salt + 1),
            mk(channels * cond_sz, salt + 2),
            mk(channels * channels, salt + 3),
            mk(channels, salt + 4),
        )
    };
    let mk_array = || {
        array(
            input_size,
            channels,
            head_size,
            mk(channels * input_size, 20),
            vec![tanh_layer(1, 30), tanh_layer(2, 40), tanh_layer(4, 50)],
            mk(head_size * channels, 60),
            Some(mk(head_size, 70)),
        )
    };

    let total = 120usize;
    let inp: Vec<Vec<f32>> = (0..total)
        .map(|t| {
            (0..input_size)
                .map(|c| ((t + c) as f32 * 0.23).sin())
                .collect()
        })
        .collect();
    let cond: Vec<Vec<f32>> = (0..total)
        .map(|t| {
            (0..cond_sz)
                .map(|c| ((t + c) as f32 * 0.19).cos())
                .collect()
        })
        .collect();
    let head_in: Vec<Vec<f32>> = (0..total)
        .map(|t| {
            (0..channels)
                .map(|c| ((t * 2 + c) as f32) * 0.013)
                .collect()
        })
        .collect();

    // Reference: per-sample.
    let mut a = mk_array();
    let mut head_ref = vec![vec![0.0; head_size]; total];
    let mut out_ref = vec![vec![0.0; channels]; total];
    for t in 0..total {
        let (ho, ao) = array_sample(&mut a, &inp[t], &cond[t], &head_in[t]);
        head_ref[t] = ho;
        out_ref[t] = ao;
    }

    // Under test: block path in uneven chunks.
    let mut b = mk_array();
    let mut lo = 0usize;
    for &len in &[33usize, 1, 86] {
        let mut bin = vec![0.0; input_size * len];
        let mut bcond = vec![0.0; cond_sz * len];
        let mut bhead = vec![0.0; channels * len];
        for lt in 0..len {
            for c in 0..input_size {
                bin[c * len + lt] = inp[lo + lt][c];
            }
            for c in 0..cond_sz {
                bcond[c * len + lt] = cond[lo + lt][c];
            }
            for c in 0..channels {
                bhead[c * len + lt] = head_in[lo + lt][c];
            }
        }
        let mut bho = silent(head_size * len);
        let mut bao = silent(channels * len);
        b.process_block(
            &wrap(&bin),
            &wrap(&bcond),
            &wrap(&bhead),
            &mut bho,
            &mut bao,
            len,
        );
        let (bho, bao) = (unwrap(&bho), unwrap(&bao));
        for lt in 0..len {
            for c in 0..head_size {
                let g = bho[c * len + lt];
                assert!(
                    (g - head_ref[lo + lt][c]).abs() < 1e-5,
                    "t{} head c{c}: got {g}, want {}",
                    lo + lt,
                    head_ref[lo + lt][c]
                );
            }
            for c in 0..channels {
                let g = bao[c * len + lt];
                assert!(
                    (g - out_ref[lo + lt][c]).abs() < 1e-5,
                    "t{} out c{c}: got {g}, want {}",
                    lo + lt,
                    out_ref[lo + lt][c]
                );
            }
        }
        lo += len;
    }
}

#[test]
fn single_layer_array_rechannels_and_projects_head() {
    // rechannel r=1 ; layer: z=2*x+0.5+cond ; relu ; out=3*post+0.1+x ;
    // head_rechannel h=0.5, no bias ; head_in = silence.
    let layer = relu_layer(1, vec![2.0], vec![0.5], vec![1.0], vec![3.0], vec![0.1]);
    let mut array = array(1, 1, 1, vec![1.0], vec![layer], vec![0.5], None);

    let (head_out, array_out) = array_sample(&mut array, &[0.5], &[0.5], &[0.0]);

    // cur=0.5 ; z=2.0 ; post=2.0 ; array_out=3*2+0.1+0.5=6.6 ; head=0.5*2=1.0
    assert_eq!(array_out, vec![6.6]);
    assert_eq!(head_out, vec![1.0]);
}

#[test]
fn head_accumulates_across_stacked_layers() {
    // Two identity-ish layers (conv w=1,b=0 ; ignore cond ; one w=1,b=0 ; relu).
    // rechannel=1 ; head_rechannel=1, no bias ; head_in=silence.
    let l0 = relu_layer(1, vec![1.0], vec![0.0], vec![0.0], vec![1.0], vec![0.0]);
    let l1 = relu_layer(1, vec![1.0], vec![0.0], vec![0.0], vec![1.0], vec![0.0]);
    let mut array = array(1, 1, 1, vec![1.0], vec![l0, l1], vec![1.0], None);

    let (head_out, array_out) = array_sample(&mut array, &[2.0], &[0.0], &[0.0]);

    // cur=2 ; L0: post=2, head=2, out=2+2=4 ; L1: post=4, head=6, out=4+4=8
    assert_eq!(array_out, vec![8.0]);
    assert_eq!(head_out, vec![6.0]); // 1 * (2 + 4)
}

#[test]
fn incoming_head_is_carried_and_head_bias_applies() {
    // One layer that contributes 0 to head (relu of negative). head_in=[10].
    // head_rechannel weight=2, bias=[1] -> head_out = 2*10 + 1 = 21.
    let layer = relu_layer(1, vec![1.0], vec![0.0], vec![0.0], vec![1.0], vec![0.0]);
    let mut array = array(1, 1, 1, vec![1.0], vec![layer], vec![2.0], Some(vec![1.0]));

    // input=-5 -> cur=-5 ; z=-5 ; relu=0 ; head stays 10 ; out=0 + (-5) = -5
    let (head_out, array_out) = array_sample(&mut array, &[-5.0], &[0.0], &[10.0]);

    assert_eq!(head_out, vec![21.0]);
    assert_eq!(array_out, vec![-5.0]);
}

#[test]
fn channels_and_head_size_reported() {
    let layer = relu_layer(1, vec![1.0], vec![0.0], vec![0.0], vec![1.0], vec![0.0]);
    let array = array(1, 1, 2, vec![1.0], vec![layer], vec![1.0, 1.0], None);
    assert_eq!(array.channels(), 1);
    assert_eq!(array.head_size(), 2);
    assert_eq!(array.head_in(), 1);
}

// ---- The LSTM cell ----

fn cell(w: Vec<f32>, b: Vec<f32>) -> LstmCell<F32> {
    LstmCell::new(
        1,
        1,
        wrap(&w),
        wrap(&b),
        wrap(&[0.0]),
        wrap(&[0.0]),
    )
}

fn cell_step(cell: &mut LstmCell<F32>, x: f32) -> f32 {
    cell.process(&wrap(&[x]));
    cell.hidden()[0].output()
}

#[test]
fn single_cell_matches_hand_computed_step() {
    // H=1, input_size=1. Row-major W (4H x (in+H) = 4x2), gate order i,f,g,o.
    // W rows: i:[1,0] f:[0,0] g:[2,0] o:[0,0]; bias=[0,0,0,0]; h0=c0=0.
    let w = vec![
        1.0, 0.0, // i: w_xi=1, w_hi=0
        0.0, 0.0, // f
        2.0, 0.0, // g: w_xg=2
        0.0, 0.0, // o
    ];
    let b = vec![0.0, 0.0, 0.0, 0.0];
    let mut cell = cell(w, b);
    assert_eq!(cell.hidden_size(), 1);

    // x=0.5: i=sig(0.5)=0.622459, f=sig(0)=0.5, g=tanh(1.0)=0.761594, o=sig(0)=0.5
    // c = f*0 + i*g = 0.622459*0.761594 = 0.474061
    // h = o*tanh(c) = 0.5*tanh(0.474061) = 0.5*0.441510 = 0.220755
    let h = cell_step(&mut cell, 0.5);
    assert!((h - 0.2208).abs() < 1e-3, "got {h}");
}

#[test]
fn reset_restores_initial_state() {
    let w = vec![1.0, 0.0, 0.0, 0.0, 2.0, 0.0, 0.0, 0.0];
    let b = vec![0.0; 4];
    let mut cell = cell(w, b);
    let first = cell_step(&mut cell, 0.5);
    cell_step(&mut cell, 0.5); // advance state
    cell.reset();
    let after = cell_step(&mut cell, 0.5);
    assert!((first - after).abs() < 1e-7, "{first} vs {after}");
}
