//! Building engines from files, and running them.

use nam_rs::arith::{Arith, Scalar};
use nam_rs::json::{Json, JsonNumber};
use nam_rs::parser::layers::RawLayerArrayConfig;
use nam_rs::signal::MAX_BLOCK;
use nam_rs::wavenet::weights::{
    array_weight_count, expected_weight_count, post_stack_head_weight_count,
};
use nam_rs::{
    Error, LayerArrayConfig, Lstm, Model, ModelConfig, NamModel, WaveNet, WaveNetConfig,
    DEFAULT_SAMPLE_RATE,
};

/// Single-precision arithmetic.
struct F32;

impl Arith for F32 {
    type Num = f32;

    fn zero() -> f32 {
        0.0
    }

    fn one() -> f32 {
        1.0
    }

    fn constant(n: JsonNumber) -> f32 {
        match n {
            JsonNumber::PosInt(u) => u as f32,
            JsonNumber::NegInt(i) => i as f32,
            JsonNumber::Float(bits) => f64::from_bits(bits) as f32,
        }
    }

    fn sum(a: f32, b: f32) -> f32 {
        a + b
    }

    fn difference(a: f32, b: f32) -> f32 {
        a - b
    }

    fn product(a: f32, b: f32) -> f32 {
        a * b
    }

    fn quotient(a: f32, b: f32) -> f32 {
        a / b
    }

    fn negation(a: f32) -> f32 {
        -a
    }

    fn exponential(a: f32) -> f32 {
        a.exp()
    }

    fn tangent(a: f32) -> f32 {
        a.tanh()
    }

    fn maximum(a: f32, b: f32) -> f32 {
        a.max(b)
    }

    fn exceeds(a: f32, b: f32) -> bool {
        a > b
    }
}

/// A double as a file holds it.
fn number(x: f64) -> JsonNumber {
    JsonNumber::Float(x.to_bits())
}

fn mk_layer(json: &str) -> LayerArrayConfig {
    RawLayerArrayConfig::from_json(&Json::parse(json).unwrap())
        .unwrap()
        .normalize()
        .unwrap()
}

/// The same file with another weight blob.
fn with_weights(model: NamModel, weights: &[f32]) -> NamModel {
    NamModel {
        weights: weights.iter().map(|&w| number(w as f64)).collect(),
        ..model
    }
}

/// The model of a text, with made-up weights: as many as the configuration asks for.
fn filled(text: &str) -> NamModel {
    fn fill(model: NamModel, salt: usize) -> NamModel {
        let NamModel {
            version,
            architecture,
            config,
            weights: _,
            sample_rate,
            metadata,
        } = model;
        let (n, config) = match config {
            ModelConfig::WaveNet(mut c) => {
                c.condition_dsp = c.condition_dsp.map(|m| Box::new(fill(*m, salt + 5)));
                (expected_weight_count(&c).unwrap(), ModelConfig::WaveNet(c))
            }
            ModelConfig::Lstm(c) => (
                nam_rs::lstm::expected_weight_count(&c).unwrap(),
                ModelConfig::Lstm(c),
            ),
            other => (0, other),
        };
        let weights = (0..n)
            .map(|i| number((((i * 7 + salt) % 13) as f64 - 6.0) * 0.04))
            .collect();
        NamModel {
            version,
            architecture,
            config,
            weights,
            sample_rate,
            metadata,
        }
    }
    fill(NamModel::from_json_str(text).unwrap(), 1)
}

/// Whether running whole buffers and running sample by sample agree.
fn block_equals_samples(model: &NamModel, signal: &[f32]) {
    let mut per_sample = Model::<F32>::from_nam(model).unwrap();
    let want: Vec<f32> = signal
        .iter()
        .map(|&x| per_sample.process_sample(x))
        .collect();
    let mut block = Model::<F32>::from_nam(model).unwrap();
    let mut got = signal.to_vec();
    block.process_buffer(&mut got);
    for (i, (g, w)) in got.iter().zip(&want).enumerate() {
        assert!(
            (g - w).abs() < 1e-5,
            "sample {i}: block {g}, per-sample {w}"
        );
    }
    assert!(got.iter().any(|&y| y != 0.0), "the model is not silent");
}

// ---- WaveNet ----

// 1 array, 1 layer, 1 channel, ReLU. Weight order:
// rechannel=1, conv_w=2, conv_b=0.5, mix_w=1, one_w=3, one_b=0.1,
// head_rechannel=0.5, head_scale=10.
const TINY: &str = r#"{
    "version": "0.5.4",
    "architecture": "WaveNet",
    "config": {
        "layers": [{
            "input_size": 1, "condition_size": 1, "channels": 1, "head_size": 1,
            "kernel_size": 1, "dilations": [1], "activation": "ReLU",
            "gated": false, "head_bias": false
        }],
        "head": null, "head_scale": 10.0
    },
    "weights": [1.0, 2.0, 0.5, 1.0, 3.0, 0.1, 0.5, 10.0]
}"#;

const TINY_HEAD: &str = r#"{
    "version":"0.6.0","architecture":"WaveNet","config":{
        "layers":[{"input_size":1,"condition_size":1,"channels":1,"head_size":1,
            "kernel_size":1,"dilations":[1],"activation":"ReLU",
            "gated":false,"head_bias":false}],
        "head":{"channels":1,"out_channels":1,"kernel_sizes":[1],"activation":"ReLU"},
        "head_scale":2.0},
    "weights":[]}"#;

#[test]
fn weight_count_includes_post_stack_head() {
    let model0 = NamModel::from_json_str(TINY_HEAD).unwrap();
    let cfg = match &model0.config {
        ModelConfig::WaveNet(c) => c,
        _ => unreachable!(),
    };
    assert_eq!(expected_weight_count(cfg).unwrap(), 10);
}

#[test]
fn post_stack_head_no_longer_rejected() {
    let model0 = NamModel::from_json_str(TINY_HEAD).unwrap();
    let cfg = match &model0.config {
        ModelConfig::WaveNet(c) => c,
        _ => unreachable!(),
    };
    let n = expected_weight_count(cfg).unwrap();
    let model = with_weights(model0, &vec![0.0; n]);
    match WaveNet::<F32>::new(&model) {
        Err(Error::UnsupportedFeature(f)) if f.contains("post-stack head") => {
            panic!("post-stack head must not be rejected");
        }
        _ => {}
    }
}

#[test]
fn receptive_field_includes_post_stack_head_kernels() {
    // Array: kernel 3, dilations [1,2] -> array rf-term = (3-1)*1+(3-1)*2 = 6.
    // head kernel 1 -> +0. Post-stack head kernels [16, 1] -> +15+0 = 15.
    // total rf = 1 + 6 + 0 + 15 = 22.
    let json = r#"{
        "version":"0.6.0","architecture":"WaveNet","config":{
            "layers":[{"input_size":1,"condition_size":1,"channels":1,"head_size":1,
                "kernel_size":3,"dilations":[1,2],"activation":"ReLU",
                "gated":false,"head_bias":false}],
            "head":{"channels":2,"out_channels":1,"kernel_sizes":[16,1],"activation":"ReLU"},
            "head_scale":1.0},
        "weights":[]}"#;
    let model0 = NamModel::from_json_str(json).unwrap();
    let cfg = match &model0.config {
        ModelConfig::WaveNet(c) => c,
        _ => unreachable!(),
    };
    let n = expected_weight_count(cfg).unwrap();
    let model = with_weights(model0, &vec![0.0; n]);
    assert_eq!(WaveNet::<F32>::new(&model).unwrap().receptive_field(), 22);
}

#[test]
fn post_stack_head_forward_matches_hand_computed() {
    // TINY array weights produce final_head=1.0 for x=0.5 (see TINY test).
    // head_scale=2.0 scales head input to 2.0; ReLU head conv w=3,b=0.5 -> 6.5.
    // Weight blob order: [array(7), post_head_conv_w(1), post_head_conv_b(1), head_scale(1)]
    let json = r#"{
        "version":"0.6.0","architecture":"WaveNet","config":{
            "layers":[{"input_size":1,"condition_size":1,"channels":1,"head_size":1,
                "kernel_size":1,"dilations":[1],"activation":"ReLU",
                "gated":false,"head_bias":false}],
            "head":{"channels":1,"out_channels":1,"kernel_sizes":[1],"activation":"ReLU"},
            "head_scale":2.0},
        "weights":[1.0, 2.0, 0.5, 1.0, 3.0, 0.1, 0.5, 3.0, 0.5, 2.0]}"#;
    let model = NamModel::from_json_str(json).unwrap();
    let mut wn = WaveNet::<F32>::new(&model).unwrap();
    let mut buf = [0.5_f32];
    wn.process_buffer(&mut buf);
    assert!((buf[0] - 6.5).abs() < 1e-5, "got {}", buf[0]);

    // And the per-sample path agrees with the block path.
    let mut wn2 = WaveNet::<F32>::new(&model).unwrap();
    let got = wn2.process_sample(0.5);
    assert!((got - 6.5).abs() < 1e-5, "per-sample got {}", got);
}

#[test]
fn post_stack_head_multichannel_out_rejected() {
    let json = r#"{
        "version":"0.6.0","architecture":"WaveNet","config":{
            "layers":[{"input_size":1,"condition_size":1,"channels":1,"head_size":1,
                "kernel_size":1,"dilations":[1],"activation":"ReLU",
                "gated":false,"head_bias":false}],
            "head":{"channels":2,"out_channels":2,"kernel_sizes":[1],"activation":"ReLU"},
            "head_scale":1.0},
        "weights":[]}"#;
    let model0 = NamModel::from_json_str(json).unwrap();
    let cfg = match &model0.config {
        ModelConfig::WaveNet(c) => c,
        _ => unreachable!(),
    };
    let n = expected_weight_count(cfg).unwrap();
    let model = with_weights(model0, &vec![0.0; n]);
    assert!(matches!(
        WaveNet::<F32>::new(&model),
        Err(Error::UnsupportedFeature(f)) if f.contains("out_channels != 1")
    ));
}

#[test]
fn post_stack_head_builds_and_consumes_exact_weights() {
    let model0 = NamModel::from_json_str(TINY_HEAD).unwrap();
    let cfg = match &model0.config {
        ModelConfig::WaveNet(c) => c,
        _ => unreachable!(),
    };
    let n = expected_weight_count(cfg).unwrap(); // 10
    let weights: Vec<f32> = (0..n).map(|i| (i as f32 + 1.0) * 0.1).collect();
    let model = with_weights(model0, &weights);
    assert!(WaveNet::<F32>::new(&model).is_ok(), "post-stack head model builds");
}

#[test]
fn default_path_unchanged_baseline() {
    // No post-stack head, no condition_dsp: output = head_scale * final_head.
    // TINY: x=0.5 -> out=10.0 (pinned in tiny_model_matches_hand_computed_forward).
    let model = NamModel::from_json_str(TINY).unwrap();
    let mut wn = WaveNet::<F32>::new(&model).unwrap();
    let mut buf = [0.5_f32];
    wn.process_buffer(&mut buf);
    assert!((buf[0] - 10.0).abs() < 1e-5, "got {}", buf[0]);
    // And the config really has neither feature.
    let cfg = match &model.config {
        ModelConfig::WaveNet(c) => c,
        _ => unreachable!(),
    };
    assert!(cfg.post_stack_head.is_none());
    assert!(cfg.condition_dsp.is_none());
}

#[test]
fn tiny_model_matches_hand_computed_forward() {
    let model = NamModel::from_json_str(TINY).unwrap();
    let mut wn = WaveNet::<F32>::new(&model).unwrap();

    // x=0.5, cond=0.5: z = 2*0.5 + 0.5 + 1*0.5 = 2.0 ; relu=2.0
    // head = 0.5*2.0 = 1.0 ; out = head_scale * 1.0 = 10.0
    let mut buf = [0.5_f32];
    wn.process_buffer(&mut buf);
    assert!((buf[0] - 10.0).abs() < 1e-5, "got {}", buf[0]);
}

#[test]
fn array_weight_count_includes_a2_subblocks() {
    // channels=4, bottleneck=2, condition=1, GATED (mid=2*bn=4), kernel 3 x1 layer,
    // head_size=1 head_kernel=1 no head_bias, groups all 1, head1x1 active out=3,
    // layer1x1 active, conv_post_film (shift) + activation_post_film (no shift) active.
    // Per-layer weights, in the order of the blob:
    //   conv:     mid*channels*k + mid          = 4*4*3 + 4   = 52
    //   mixin:    mid*condition                 = 4*1         = 4
    //   layer1x1: channels*bottleneck + channels= 4*2 + 4     = 12
    //   head1x1:  head1x1_out*bottleneck + out   = 3*2 + 3     = 9
    //   conv_post_film: shift -> out_rows=2*mid=8; 8*condition + 8 = 8+8 = 16
    //   activation_post_film: no shift -> out_rows=bottleneck=2; 2*1 + 2 = 4
    // rechannel: channels*input = 4*1 = 4
    // head_rechannel: head_size*head_in*head_k = 1*3*1 = 3 (head_in=head1x1_out=3, no bias)
    // array total = 4 + (52+4+12+9+16+4) + 3 = 4 + 97 + 3 = 104
    let la = mk_layer(r#"{
        "input_size": 1, "condition_size": 1, "channels": 4, "bottleneck": 2,
        "kernel_sizes": [3], "dilations": [1],
        "activation": [{"type":"Tanh"}],
        "gating_mode": ["gated"],
        "layer1x1": {"active": true, "groups": 1},
        "head1x1": {"active": true, "out_channels": 3, "groups": 1},
        "head": {"out_channels": 1, "kernel_size": 1, "bias": false},
        "conv_post_film": {"active": true, "shift": true, "groups": 1},
        "activation_post_film": {"active": true, "shift": false, "groups": 1}
    }"#);
    assert_eq!(array_weight_count(&la).unwrap(), 104);
}

#[test]
fn reset_restores_from_fresh_result() {
    let model = NamModel::from_json_str(TINY).unwrap();
    let mut wn = WaveNet::<F32>::new(&model).unwrap();
    let mut warm = [0.3_f32, -0.7, 0.2];
    wn.process_buffer(&mut warm);
    wn.reset();
    let mut a = [0.5_f32];
    wn.process_buffer(&mut a);
    assert!((a[0] - 10.0).abs() < 1e-5, "got {}", a[0]);
}

#[test]
fn wrong_weight_count_is_rejected() {
    let bad = TINY.replace(
        "[1.0, 2.0, 0.5, 1.0, 3.0, 0.1, 0.5, 10.0]",
        "[1.0, 2.0, 0.5, 1.0, 3.0, 0.1, 0.5]",
    );
    let model = NamModel::from_json_str(&bad).unwrap();
    match WaveNet::<F32>::new(&model) {
        Err(Error::WeightCountMismatch { expected, found }) => {
            assert_eq!(expected, 8);
            assert_eq!(found, 7);
        }
        other => panic!("expected WeightCountMismatch, got {:?}", other.map(|_| ())),
    }
}

/// A structurally valid config whose dimensions overflow `usize` must return
/// `ConfigTooLarge`, not panic (debug) or wrap to a wrong count (release).
#[test]
fn absurd_dimensions_error_instead_of_overflowing() {
    let json = TINY.replace("\"channels\": 1", "\"channels\": 4294967296");
    let model = NamModel::from_json_str(&json).unwrap();
    assert!(matches!(WaveNet::<F32>::new(&model), Err(Error::ConfigTooLarge)));
}

#[test]
fn wavenet_new_rejects_non_wavenet() {
    let lstm = r#"{
        "version": "0.5.4", "architecture": "LSTM",
        "config": { "input_size": 1, "hidden_size": 4, "num_layers": 1 },
        "weights": [0.0]
    }"#;
    let model = NamModel::from_json_str(lstm).unwrap();
    assert!(matches!(
        WaveNet::<F32>::new(&model),
        Err(Error::UnsupportedArchitecture(_))
    ));
}

#[test]
fn a2_leaky_relu_and_conv_head_parse_and_build() {
    // LeakyReLU + multi-tap conv head (kernel_size=16) are supported.
    // Verify the config parses and builds (weight count determines valid input).
    let json = r#"{
        "version":"0.7.0","architecture":"WaveNet","config":{
            "layers":[{"input_size":1,"condition_size":1,"channels":2,"bottleneck":2,
                "dilations":[1,2],"kernel_sizes":[3,3],
                "activation":[{"type":"LeakyReLU"},{"type":"LeakyReLU"}],
                "head":{"out_channels":1,"kernel_size":16,"bias":true},
                "layer1x1":{"active":true,"groups":1},
                "gating_mode":["none","none"]}],
            "head":null,"head_scale":0.5},
        "weights":[]}"#;
    let model0 = NamModel::from_json_str(json).expect("parses cleanly");
    let cfg = match &model0.config {
        ModelConfig::WaveNet(c) => c,
        _ => unreachable!(),
    };
    let n = expected_weight_count(cfg).unwrap();
    let model = with_weights(model0, &vec![0.0; n]);
    assert!(
        WaveNet::<F32>::new(&model).is_ok(),
        "LeakyReLU + multi-tap conv head should build"
    );
}

#[test]
fn a1_still_builds_and_runs_after_typed_config() {
    let model = NamModel::from_json_str(TINY).unwrap();
    let mut wn = WaveNet::<F32>::new(&model).unwrap();
    let mut buf = [0.5_f32];
    wn.process_buffer(&mut buf);
    assert!((buf[0] - 10.0).abs() < 1e-5, "got {}", buf[0]);
}

/// Non-power-of-2 and out-of-order dilations with kernel 6 must size buffers
/// correctly: receptive field is order-independent, and the block path equals the
/// per-sample path. Mirrors A2's `[1,5,29,97,227]`-style dilations.
#[test]
fn non_pow2_out_of_order_dilations_size_correctly() {
    let json = r#"{
        "version":"0.7.0","architecture":"WaveNet","config":{"layers":[{
            "input_size":1,"condition_size":1,"channels":2,"head_size":1,
            "kernel_size":6,"dilations":[97,1,227,5,29],"activation":"ReLU",
            "gated":false,"head_bias":false}],"head":null,"head_scale":0.5},
        "weights":[]}"#;
    // Parse the config, then fill weights to the exact expected count so build succeeds.
    let model0 = NamModel::from_json_str(json).unwrap();
    let cfg = match &model0.config {
        ModelConfig::WaveNet(c) => c,
        _ => unreachable!(),
    };
    let n = expected_weight_count(cfg).unwrap();
    let weights: Vec<f32> = (0..n).map(|i| ((i % 7) as f32 - 3.0) * 0.05).collect();
    let model = with_weights(model0, &weights);

    // rf = 1 + (k-1)*sum(dilations), order-independent.
    let want_rf = 1 + (6 - 1) * (97 + 1 + 227 + 5 + 29);
    let mut per_sample = WaveNet::<F32>::new(&model).unwrap();
    assert_eq!(per_sample.receptive_field(), want_rf);

    // block path == per-sample path over a signal longer than MAX_BLOCK.
    let len = MAX_BLOCK + 200;
    let signal: Vec<f32> = (0..len).map(|i| (i as f32 * 0.017).sin() * 0.4).collect();
    let want: Vec<f32> = signal
        .iter()
        .map(|&x| per_sample.process_sample(x))
        .collect();
    let mut block = WaveNet::<F32>::new(&model).unwrap();
    let mut got = signal.clone();
    block.process_buffer(&mut got);
    for (i, (g, w)) in got.iter().zip(&want).enumerate() {
        assert!(
            (g - w).abs() < 1e-5,
            "sample {i}: block {g}, per-sample {w}"
        );
    }
}

#[test]
fn multitap_head_config_now_builds() {
    // Weight count: rechannel 2 + 2 layers*(conv 2*2*3+2=14, mix 2, one 2*2+2=6 =>22)
    // + head(1*2*4=8 + bias 1 =9) + head_scale 1 = 56.
    let json = r#"{
        "version":"0.7.0","architecture":"WaveNet","config":{
            "layers":[{"input_size":1,"condition_size":1,"channels":2,"bottleneck":2,
                "dilations":[1,2],"kernel_sizes":[3,3],
                "activation":[{"type":"ReLU"},{"type":"ReLU"}],
                "head":{"out_channels":1,"kernel_size":4,"bias":true},
                "layer1x1":{"active":true,"groups":1},
                "gating_mode":["none","none"]}],
            "head":null,"head_scale":0.5},
        "weights":[]}"#;
    let model0 = NamModel::from_json_str(json).unwrap();
    let cfg = match &model0.config {
        ModelConfig::WaveNet(c) => c,
        _ => unreachable!(),
    };
    let n = expected_weight_count(cfg).unwrap();
    assert_eq!(n, 56, "expected 56 weights for this conv-head config");
    let weights: Vec<f32> = (0..n).map(|i| ((i % 5) as f32 - 2.0) * 0.1).collect();
    let model = with_weights(model0, &weights);
    let mut wn = WaveNet::<F32>::new(&model).expect("conv-head model builds");
    let signal: Vec<f32> = (0..256).map(|i| (i as f32 * 0.05).sin() * 0.3).collect();
    let want: Vec<f32> = {
        let mut w = WaveNet::<F32>::new(&model).unwrap();
        signal.iter().map(|&x| w.process_sample(x)).collect()
    };
    let mut got = signal.clone();
    wn.process_buffer(&mut got);
    for (i, (g, w)) in got.iter().zip(&want).enumerate() {
        assert!(
            (g - w).abs() < 1e-5,
            "sample {i}: block {g} vs per-sample {w}"
        );
    }
}

#[test]
fn formerly_guarded_a2_features_now_build() {
    // grouped input conv + head1x1 + bottleneck<channels + FiLM + BLENDED + non-sigmoid
    // secondary, in one array. Weight count drives the (zeroed) blob length.
    let json = r#"{
        "version":"0.7.0","architecture":"WaveNet","config":{"layers":[{
            "input_size":1,"condition_size":1,"channels":4,"bottleneck":2,
            "dilations":[1,2],"kernel_sizes":[3,3],
            "activation":[{"type":"Tanh"},{"type":"Tanh"}],
            "gating_mode":["blended","blended"],
            "secondary_activation":[{"type":"Tanh"},{"type":"Tanh"}],
            "groups_input":2,"groups_input_mixin":1,
            "layer1x1":{"active":true,"groups":2},
            "head1x1":{"active":true,"out_channels":3,"groups":1},
            "head":{"out_channels":1,"kernel_size":1,"bias":false},
            "conv_post_film":{"active":true,"shift":true,"groups":1},
            "activation_post_film":{"active":true,"shift":false,"groups":1},
            "layer1x1_post_film":{"active":true,"shift":false,"groups":1}
        }],"head":null,"head_scale":0.5},"weights":[]}"#;
    let m0 = NamModel::from_json_str(json).unwrap();
    let cfg = match &m0.config {
        ModelConfig::WaveNet(c) => c,
        _ => unreachable!(),
    };
    let n = expected_weight_count(cfg).unwrap();
    let weights: Vec<f32> = (0..n).map(|i| ((i % 7) as f32 - 3.0) * 0.02).collect();
    let model = with_weights(m0, &weights);
    assert!(
        WaveNet::<F32>::new(&model).is_ok(),
        "full A2 feature layer must build"
    );

    // Inactive-layer1x1 (bottleneck==channels) also builds.
    let json2 = r#"{"version":"0.7.0","architecture":"WaveNet","config":{"layers":[{
        "input_size":1,"condition_size":1,"channels":2,"bottleneck":2,
        "dilations":[1],"kernel_sizes":[3],"activation":[{"type":"ReLU"}],
        "gating_mode":["none"],"layer1x1":{"active":false,"groups":1},
        "head":{"out_channels":1,"kernel_size":1,"bias":false}}],
        "head":null,"head_scale":0.5},"weights":[]}"#;
    let m2 = NamModel::from_json_str(json2).unwrap();
    let c2 = match &m2.config {
        ModelConfig::WaveNet(c) => c,
        _ => unreachable!(),
    };
    let n2 = expected_weight_count(c2).unwrap();
    let model2 = with_weights(m2, &vec![0.0; n2]);
    assert!(
        WaveNet::<F32>::new(&model2).is_ok(),
        "inactive layer1x1 must build"
    );
}

#[test]
fn receptive_field_sums_dilated_taps() {
    // rf = 1 + sum (k-1)*d + sum (head_kernel_size-1) over all arrays. Here the head
    // kernel is 1 so its term vanishes: kernel 3, dilations [1,2] then [8].
    let model = filled(
        r#"{"version": "0", "architecture": "WaveNet", "weights": [],
            "config": {"head": null, "head_scale": 1.0, "layers": [
                {"input_size": 1, "condition_size": 1, "channels": 1, "head_size": 1,
                 "kernel_size": 3, "dilations": [1, 2], "activation": "Tanh",
                 "gated": false, "head_bias": false},
                {"input_size": 1, "condition_size": 1, "channels": 1, "head_size": 1,
                 "kernel_size": 3, "dilations": [8], "activation": "Tanh",
                 "gated": false, "head_bias": false}]}}"#,
    );
    // (3-1)*1 + (3-1)*2 + (3-1)*8 = 2 + 4 + 16 = 22, + 1 = 23.
    assert_eq!(WaveNet::<F32>::new(&model).unwrap().receptive_field(), 23);

    // TINY (kernel 1, dilation 1) reaches back over no past samples: rf = 1.
    let model = NamModel::from_json_str(TINY).unwrap();
    assert_eq!(WaveNet::<F32>::new(&model).unwrap().receptive_field(), 1);
}

/// Building with as many weights as `expected_weight_count` says succeeds; one fewer or
/// one more is a count mismatch.
#[test]
fn weight_count_matches_consumption_across_shapes() {
    let layer_sets: Vec<Vec<&str>> = vec![
        vec![
            r#"{
            "input_size": 1, "condition_size": 1, "channels": 1, "head_size": 1,
            "kernel_size": 1, "dilations": [1], "activation": "Tanh",
            "gated": false, "head_bias": false
        }"#,
        ],
        vec![
            r#"{
            "input_size": 1, "condition_size": 1, "channels": 2, "head_size": 1,
            "kernel_size": 3, "dilations": [1, 2], "activation": "Tanh",
            "gated": false, "head_bias": false
        }"#,
        ],
        vec![
            r#"{
            "input_size": 1, "condition_size": 1, "channels": 4, "head_size": 2,
            "kernel_size": 3, "dilations": [1, 2, 4], "activation": "Tanh",
            "gated": true, "head_bias": false
        }"#,
        ], // gated
        vec![
            r#"{
            "input_size": 1, "condition_size": 1, "channels": 3, "head_size": 1,
            "kernel_size": 3, "dilations": [1], "activation": "Tanh",
            "gated": false, "head_bias": true
        }"#,
        ], // head_bias
        // two arrays: the second takes the first's channels as its input_size,
        // and the first's head_size must equal the second's channels (the
        // head-carry invariant that `WaveNet::new` checks).
        vec![
            r#"{
                "input_size": 1, "condition_size": 1, "channels": 4, "head_size": 2,
                "kernel_size": 3, "dilations": [1, 2], "activation": "Tanh",
                "gated": false, "head_bias": false
            }"#,
            r#"{
                "input_size": 4, "condition_size": 1, "channels": 2, "head_size": 1,
                "kernel_size": 3, "dilations": [1], "activation": "Tanh",
                "gated": true, "head_bias": true
            }"#,
        ],
    ];
    for layers in layer_sets {
        let config = || WaveNetConfig {
            layers: layers.iter().map(|l| mk_layer(l)).collect(),
            post_stack_head: None,
            head_scale: number(1.0),
            in_channels: 1,
            condition_dsp: None,
        };
        let n = expected_weight_count(&config()).unwrap();
        let mk_model = |count: usize| NamModel {
            version: "0".into(),
            architecture: "WaveNet".into(),
            config: ModelConfig::WaveNet(config()),
            weights: vec![number(0.0); count],
            sample_rate: None,
            metadata: None,
        };
        assert!(
            WaveNet::<F32>::new(&mk_model(n)).is_ok(),
            "exact count n={n}"
        );
        assert!(matches!(
            WaveNet::<F32>::new(&mk_model(n - 1)),
            Err(Error::WeightCountMismatch { .. })
        ));
        assert!(matches!(
            WaveNet::<F32>::new(&mk_model(n + 1)),
            Err(Error::WeightCountMismatch { .. })
        ));
    }
}

/// Two layer-arrays with the dilations of the standard architecture: the block
/// `process_buffer` must equal a per-sample `process_sample` loop over the same signal,
/// also across `MAX_BLOCK` chunk boundaries.
#[test]
fn process_buffer_equals_process_sample_loop_on_standard_model() {
    let model = filled(
        r#"{"version": "0.5.4", "architecture": "WaveNet", "weights": [],
            "config": {"head": null, "head_scale": 0.02, "layers": [
                {"input_size": 1, "condition_size": 1, "channels": 4, "head_size": 2,
                 "kernel_size": 3, "dilations": [1, 2, 4, 8, 16, 32, 64, 128, 256, 512],
                 "activation": "Tanh", "gated": false, "head_bias": false},
                {"input_size": 4, "condition_size": 1, "channels": 2, "head_size": 1,
                 "kernel_size": 3, "dilations": [1, 2, 4, 8, 16, 32, 64, 128, 256, 512],
                 "activation": "Tanh", "gated": false, "head_bias": true}]}}"#,
    );
    // A signal longer than MAX_BLOCK so chunking is exercised.
    let len = 2 * MAX_BLOCK + 137;
    let signal: Vec<f32> = (0..len)
        .map(|i| (i as f32 * 0.013).sin() * 0.5 + (i as f32 * 0.27).sin() * 0.2)
        .collect();
    block_equals_samples(&model, &signal);
}

// ---- Nested conditioning ----

/// A WaveNet conditioned by a nested WaveNet of `rows` output channels.
fn conditioned(rows: usize) -> NamModel {
    filled(&format!(
        r#"{{"version": "0.6.0", "architecture": "WaveNet", "weights": [],
            "config": {{"head": null, "head_scale": 1.0,
                "layers": [
                    {{"input_size": 1, "condition_size": {rows}, "channels": 3, "head_size": 2,
                      "kernel_size": 3, "dilations": [1, 4], "activation": "Tanh",
                      "gated": true, "head_bias": false}},
                    {{"input_size": 3, "condition_size": {rows}, "channels": 2, "kernel_sizes": [2],
                      "dilations": [3], "activation": "Tanh", "gated": false,
                      "head": {{"out_channels": 1, "kernel_size": 4, "bias": true}}}}],
                "condition_dsp": {{"version": "0.5.4", "architecture": "WaveNet", "weights": [],
                    "config": {{"head": null, "head_scale": 1.0, "layers": [
                        {{"input_size": 1, "condition_size": 1, "channels": 2, "head_size": {rows},
                          "kernel_size": 3, "dilations": [1, 2], "activation": "Tanh",
                          "gated": false, "head_bias": true}}]}}}}}}}}"#
    ))
}

#[test]
fn receptive_field_includes_condition_dsp_prewarm() {
    let model = conditioned(1);
    let cfg = match &model.config {
        ModelConfig::WaveNet(c) => c,
        _ => unreachable!(),
    };
    // Expected: nested condition_dsp rf + sum of array rf-terms (+ head, none here).
    let nested = Model::<F32>::from_nam(cfg.condition_dsp.as_ref().unwrap()).unwrap();
    let mut want = nested.receptive_field();
    for la in &cfg.layers {
        for (k, &d) in la.kernel_sizes.iter().zip(&la.dilations) {
            want += (k - 1) * d;
        }
        want += la.head_kernel_size - 1;
    }
    assert_eq!(WaveNet::<F32>::new(&model).unwrap().receptive_field(), want);
    assert_eq!(want, 7 + 10 + 3 + 3);
}

#[test]
fn condition_dsp_block_equals_per_sample() {
    let len = MAX_BLOCK + 173;
    let signal: Vec<f32> = (0..len).map(|i| (i as f32 * 0.017).sin() * 0.4).collect();
    block_equals_samples(&conditioned(1), &signal);
}

#[test]
fn condition_dsp_model_builds() {
    let wn = WaveNet::<F32>::new(&conditioned(1)).expect("condition_dsp model builds");
    assert!(
        wn.has_condition_dsp(),
        "nested condition_dsp must be present"
    );
    let plain = NamModel::from_json_str(TINY).unwrap();
    assert!(!WaveNet::<F32>::new(&plain).unwrap().has_condition_dsp());
}

#[test]
fn multi_channel_condition_dsp_builds_and_block_equals_per_sample() {
    let model = conditioned(3);
    let wn = WaveNet::<F32>::new(&model).expect("multi-channel condition_dsp builds");
    assert!(wn.has_condition_dsp());
    let len = MAX_BLOCK + 173;
    let signal: Vec<f32> = (0..len).map(|i| (i as f32 * 0.017).sin() * 0.4).collect();
    block_equals_samples(&model, &signal);
}

#[test]
fn mono_condition_dsp_is_supported_not_blanket_guarded() {
    let mut m = Model::<F32>::from_nam(&conditioned(1)).expect("mono condition_dsp must build");
    let mut buf = vec![0.1_f32; 256];
    m.process_buffer(&mut buf); // must not panic
}

#[test]
fn multi_channel_condition_dsp_builds_and_runs() {
    let mut m =
        Model::<F32>::from_nam(&conditioned(3)).expect("multi-channel condition_dsp must build");
    let mut buf = vec![0.1_f32; 256];
    m.process_buffer(&mut buf); // must not panic
}

/// The nested model's output replaces the conditioning; the arrays still get the raw
/// sample as their signal.
#[test]
fn nested_output_replaces_the_conditioning() {
    // Nested: out = 10 * 0.5 * relu(2x + 0.5 + x). For x = 0.5: 10.
    // Parent (TINY's weights, scale 1): z = 2x + 0.5 + c, out = 0.5 * relu(z).
    let text = format!(
        r#"{{"version": "0.6.0", "architecture": "WaveNet",
            "config": {{"layers": [{{
                "input_size": 1, "condition_size": 1, "channels": 1, "head_size": 1,
                "kernel_size": 1, "dilations": [1], "activation": "ReLU",
                "gated": false, "head_bias": false}}],
                "head": null, "head_scale": 1.0, "condition_dsp": {TINY}}},
            "weights": [1.0, 2.0, 0.5, 1.0, 3.0, 0.1, 0.5, 1.0]}}"#
    );
    let model = NamModel::from_json_str(&text).unwrap();
    let mut wn = WaveNet::<F32>::new(&model).unwrap();
    // c = 10, z = 1 + 0.5 + 10 = 11.5, out = 5.75.
    assert_eq!(wn.process_sample(0.5), 5.75);
}

#[test]
fn slimmable_wavenet_still_builds_and_runs() {
    // The benign `slimmable` training key must not be rejected.
    let text = TINY.replace("\"head_bias\": false", "\"head_bias\": false, \"slimmable\": {\"method\": \"x\"}");
    let model = NamModel::from_json_str(&text).unwrap();
    let mut wn = WaveNet::<F32>::new(&model).expect("should build");
    assert_eq!(wn.process_sample(0.5), 10.0);
}

// ---- Rejections ----

fn rejection(text: &str) -> Error {
    rejected(&NamModel::from_json_str(text).unwrap())
}

fn rejected(model: &NamModel) -> Error {
    match Model::<F32>::from_nam(model) {
        Err(e) => e,
        Ok(_) => panic!("expected a rejection"),
    }
}

fn unsupported(text: &str) -> String {
    match rejection(text) {
        Error::UnsupportedFeature(m) => m,
        other => panic!("expected UnsupportedFeature, got {other:?}"),
    }
}

#[test]
fn unsupported_features_are_named() {
    let with = |from: &str, to: &str| {
        let text = TINY.replace(from, to);
        assert_ne!(text, TINY, "replacement must apply");
        unsupported(&text)
    };
    assert_eq!(
        with("\"head\": null", "\"head\": null, \"in_channels\": 2"),
        "in_channels != 1"
    );
    assert_eq!(
        with(
            "\"dilations\": [1], \"activation\": \"ReLU\",\n            \"gated\": false",
            "\"dilations\": [1, 1], \"activation\": \"ReLU\", \"gating_mode\": [\"none\", \"gated\"]"
        ),
        "mixed gating modes"
    );
    assert_eq!(
        with("\"condition_size\": 1", "\"condition_size\": 2"),
        "condition_size of layer 0 (2) != condition_dsp output channels (1)"
    );
    assert_eq!(
        with("\"head\": null", "\"head\": {\"channels\": 1, \"out_channels\": 1, \"kernel_sizes\": [], \"activation\": \"ReLU\"}"),
        "post-stack head with no convs"
    );
    assert_eq!(
        unsupported(
            r#"{"version": "0.7.0", "architecture": "SlimmableContainer", "weights": [],
                "config": {"submodels": []}}"#
        ),
        "empty SlimmableContainer"
    );
}

#[test]
fn unsupported_activations_are_named() {
    match rejection(&TINY.replace("ReLU", "Softsign")) {
        Error::UnsupportedActivation(m) => assert_eq!(m, "Softsign"),
        other => panic!("expected UnsupportedActivation, got {other:?}"),
    }
    assert_eq!(
        unsupported(&TINY.replace("\"ReLU\"", "[{\"b\": 1.5, \"a\": null}]")),
        "activation: {\"a\":null,\"b\":1.5}"
    );
}

#[test]
fn head_carry_width_must_match() {
    let text = r#"{"version": "0", "architecture": "WaveNet", "weights": [],
        "config": {"head": null, "head_scale": 1.0, "layers": [
            {"input_size": 1, "condition_size": 1, "channels": 4, "head_size": 3,
             "kernel_size": 1, "dilations": [1], "activation": "Tanh",
             "gated": false, "head_bias": false},
            {"input_size": 4, "condition_size": 1, "channels": 2, "head_size": 1,
             "kernel_size": 1, "dilations": [1], "activation": "Tanh",
             "gated": false, "head_bias": false}]}}"#;
    match rejected(&filled(text)) {
        Error::UnsupportedFeature(m) => assert_eq!(
            m,
            "layer-array head-carry width mismatch: array 0 head_size 3 != array 1 head_in 2"
        ),
        other => panic!("expected UnsupportedFeature, got {other:?}"),
    }
}

#[test]
fn uneven_groups_are_rejected() {
    // 4 channels into 3 groups.
    let text = r#"{"version": "0", "architecture": "WaveNet", "weights": [],
        "config": {"head": null, "head_scale": 1.0, "layers": [
            {"input_size": 1, "condition_size": 1, "channels": 4, "head_size": 1,
             "kernel_size": 1, "dilations": [1], "activation": "Tanh",
             "gated": false, "head_bias": false, "groups_input": 3}]}}"#;
    assert!(matches!(
        rejected(&filled(text)),
        Error::UnsupportedFeature(_)
    ));
    // With an even split the same model builds.
    let even = filled(&text.replace("\"groups_input\": 3", "\"groups_input\": 2"));
    assert!(Model::<F32>::from_nam(&even).is_ok());
}

#[test]
fn post_stack_head_weights_are_counted() {
    // 2 channels into 3, kernel 4, with a bias; then 3 into 1, kernel 1.
    let text = TINY.replace(
        "\"head\": null",
        "\"head\": {\"channels\": 3, \"out_channels\": 1, \"kernel_sizes\": [4, 1], \"activation\": \"ReLU\"}",
    );
    let model = NamModel::from_json_str(&text).unwrap();
    let cfg = match &model.config {
        ModelConfig::WaveNet(c) => c,
        _ => unreachable!(),
    };
    let head = cfg.post_stack_head.as_ref().unwrap();
    assert_eq!(
        post_stack_head_weight_count(head, 2).unwrap(),
        (2 * 3 * 4 + 3) + (3 + 1)
    );
}

// ---- LSTM ----

const TINY_LSTM: &str = r#"{
    "version": "0.5.4", "architecture": "LSTM",
    "config": { "input_size": 1, "hidden_size": 1, "num_layers": 1 },
    "weights": [1.0,0.0, 0.0,0.0, 2.0,0.0, 0.0,0.0, 0.0,0.0,0.0,0.0, 0.0, 0.0, 3.0, 0.5]
}"#;

const TINY_LSTM_WITH_METADATA: &str = r#"{
    "version": "0.5.4", "architecture": "LSTM",
    "sample_rate": 44100,
    "metadata": {"loudness": -20.02, "input_level_dbu": 18.3, "output_level_dbu": 12.3},
    "config": { "input_size": 1, "hidden_size": 1, "num_layers": 1 },
    "weights": [1.0,0.0, 0.0,0.0, 2.0,0.0, 0.0,0.0, 0.0,0.0,0.0,0.0, 0.0, 0.0, 3.0, 0.5]
}"#;

const TINY_SLIMMABLE_WITH_OWN_METADATA: &str = r#"{
    "version": "0.7.0", "architecture": "SlimmableContainer",
    "sample_rate": 44100,
    "metadata": {"loudness": -1.0, "input_level_dbu": 2.0, "output_level_dbu": 3.0},
    "config": { "submodels": [
        { "max_value": 1.0, "model": {
            "version": "0.5.4", "architecture": "LSTM",
            "sample_rate": 96000,
            "metadata": {"loudness": -99.0, "input_level_dbu": 98.0, "output_level_dbu": 97.0},
            "config": { "input_size": 1, "hidden_size": 1, "num_layers": 1 },
            "weights": [1.0,0.0, 0.0,0.0, 2.0,0.0, 0.0,0.0, 0.0,0.0,0.0,0.0, 0.0, 0.0, 3.0, 0.5]
        }}
    ]},
    "weights": []
}"#;

#[test]
fn tiny_lstm_matches_hand_computed() {
    let model = NamModel::from_json_str(TINY_LSTM).unwrap();
    let mut net = Lstm::<F32>::new(&model).unwrap();
    // From the cell test: h after x=0.5 is ~0.220755.
    // y = head_w*h + head_b = 3.0*0.220755 + 0.5 = 1.16227
    let mut buf = [0.5_f32];
    net.process_buffer(&mut buf);
    assert!((buf[0] - 1.1623).abs() < 1e-3, "got {}", buf[0]);
}

#[test]
fn weight_count_mismatch_is_rejected() {
    let bad = TINY_LSTM.replace(", 3.0, 0.5]", ", 3.0]");
    let model = NamModel::from_json_str(&bad).unwrap();
    assert!(matches!(
        Lstm::<F32>::new(&model),
        Err(Error::WeightCountMismatch { .. })
    ));
}

#[test]
fn reset_restores_fresh_output() {
    let model = NamModel::from_json_str(TINY_LSTM).unwrap();
    let mut net = Lstm::<F32>::new(&model).unwrap();
    let mut warm = [0.3_f32, -0.7, 0.2];
    net.process_buffer(&mut warm);
    net.reset();
    let mut a = [0.5_f32];
    net.process_buffer(&mut a);
    assert!((a[0] - 1.1623).abs() < 1e-3, "got {}", a[0]);
}

// ---- Dispatch ----

#[test]
fn from_nam_builds_wavenet() {
    let m = NamModel::from_json_str(TINY).unwrap();
    let mut model = Model::<F32>::from_nam(&m).unwrap();
    assert!(matches!(model, Model::WaveNet(_)));
    let mut buf = [0.5_f32];
    model.process_buffer(&mut buf);
    assert!((buf[0] - 10.0).abs() < 1e-5, "got {}", buf[0]);
}

#[test]
fn receptive_field_zero_for_lstm_warmup_for_wavenet() {
    // TINY: kernel 1, dilation 1 -> rf = 1. LSTM has no warmup -> 0.
    let wn = Model::<F32>::from_nam(&NamModel::from_json_str(TINY).unwrap()).unwrap();
    assert_eq!(wn.receptive_field(), 1);
    let lstm = Model::<F32>::from_nam(&NamModel::from_json_str(TINY_LSTM).unwrap()).unwrap();
    assert_eq!(lstm.receptive_field(), 0);
}

#[test]
fn from_nam_builds_lstm() {
    let m = NamModel::from_json_str(TINY_LSTM).unwrap();
    let mut model = Model::<F32>::from_nam(&m).unwrap();
    assert!(matches!(model, Model::Lstm(_)));
    let mut buf = [0.5_f32];
    model.process_buffer(&mut buf);
    assert!((buf[0] - 1.1623).abs() < 1e-3, "got {}", buf[0]);
}

#[test]
fn model_calibration_accessors_default_to_none_when_file_omits_metadata() {
    // TINY / TINY_LSTM have no `metadata` block and no `sample_rate`.
    let wn = Model::<F32>::from_nam(&NamModel::from_json_str(TINY).unwrap()).unwrap();
    assert_eq!(wn.loudness(), None);
    assert_eq!(wn.input_level_dbu(), None);
    assert_eq!(wn.output_level_dbu(), None);
    assert_eq!(wn.expected_sample_rate(), JsonNumber::PosInt(DEFAULT_SAMPLE_RATE));

    let lstm = Model::<F32>::from_nam(&NamModel::from_json_str(TINY_LSTM).unwrap()).unwrap();
    assert_eq!(lstm.loudness(), None);
    assert_eq!(lstm.input_level_dbu(), None);
    assert_eq!(lstm.output_level_dbu(), None);
    assert_eq!(
        lstm.expected_sample_rate(),
        JsonNumber::PosInt(DEFAULT_SAMPLE_RATE)
    );
}

#[test]
fn model_calibration_accessors_match_nam_model() {
    let m = NamModel::from_json_str(TINY_LSTM_WITH_METADATA).unwrap();
    let model = Model::<F32>::from_nam(&m).unwrap();

    // Model must agree with the NamModel it was built from...
    assert_eq!(model.expected_sample_rate(), m.expected_sample_rate());
    assert_eq!(model.loudness(), m.loudness());
    assert_eq!(model.input_level_dbu(), m.input_level_dbu());
    assert_eq!(model.output_level_dbu(), m.output_level_dbu());

    // ...and those values must actually be the non-default ones from the file,
    // not coincidentally-matching defaults.
    assert_eq!(F32::constant(model.expected_sample_rate()), 44100.0);
    assert_eq!(model.loudness().map(F32::constant), Some(-20.02));
    assert_eq!(model.input_level_dbu().map(F32::constant), Some(18.3));
    assert_eq!(model.output_level_dbu().map(F32::constant), Some(12.3));
}

/// A container of an LSTM and two WaveNets. It has no metadata of its own, its
/// submodels have.
fn container() -> Model<F32> {
    let lstm = TINY_LSTM.replace(
        "\"weights\"",
        "\"metadata\": {\"loudness\": -37.84, \"input_level_dbu\": 1, \"output_level_dbu\": 2}, \"weights\"",
    );
    let wavenet = TINY.replace("\"weights\"", "\"metadata\": {\"loudness\": -20.02}, \"weights\"");
    let text = format!(
        r#"{{"version": "0.7.0", "architecture": "SlimmableContainer", "weights": [],
            "config": {{"submodels": [
                {{"max_value": 0.33, "model": {lstm}}},
                {{"max_value": 0.66, "model": {wavenet}}},
                {{"max_value": 1.0, "model": {wavenet}}}]}}}}"#
    );
    let m = NamModel::from_json_str(&text).expect("parse container");
    Model::<F32>::from_nam(&m).expect("build container")
}

#[test]
fn from_nam_builds_slimmable_default_full() {
    let mut model = container();
    let s = model.as_slimmable_mut().expect("is slimmable");
    assert_eq!(s.len(), 3);
    assert_eq!(s.active_index(), 2, "default = last/full submodel");
}

#[test]
fn slimmable_calibration_is_the_containers_own_not_the_active_submodels() {
    // The container has no `metadata` block of its own, but its submodels carry a
    // non-null `loudness` each. It must stay `None` whichever submodel is active.
    let mut model = container();
    for i in 0..3 {
        model.as_slimmable_mut().unwrap().select(i);
        assert_eq!(
            model.loudness(),
            None,
            "submodel {i} leaked its own loudness"
        );
        assert_eq!(
            model.input_level_dbu(),
            None,
            "submodel {i} leaked its own input_level_dbu"
        );
        assert_eq!(
            model.output_level_dbu(),
            None,
            "submodel {i} leaked its own output_level_dbu"
        );
    }
}

#[test]
fn slimmable_calibration_reads_the_containers_own_metadata_not_the_submodels() {
    let m = NamModel::from_json_str(TINY_SLIMMABLE_WITH_OWN_METADATA).unwrap();
    let model = Model::<F32>::from_nam(&m).unwrap();
    assert_eq!(
        F32::constant(model.expected_sample_rate()),
        44100.0,
        "must be the container's sample_rate, not the submodel's 96000"
    );
    assert_eq!(
        model.loudness().map(F32::constant),
        Some(-1.0),
        "must be the container's loudness, not the submodel's -99.0"
    );
    assert_eq!(model.input_level_dbu().map(F32::constant), Some(2.0));
    assert_eq!(model.output_level_dbu().map(F32::constant), Some(3.0));
}

#[test]
fn select_clamps_out_of_range() {
    let mut model = container();
    let s = model.as_slimmable_mut().unwrap();
    s.select(0);
    assert_eq!(s.active_index(), 0);
    s.select(99);
    assert_eq!(s.active_index(), 2, "clamped to last");
}

#[test]
fn set_slim_size_picks_first_threshold_above_value() {
    let mut model = container();
    let s = model.as_slimmable_mut().unwrap();
    // max_values = [0.33, 0.66, 1.0]; first max_value > v, else last.
    s.set_slim_size(0.0);
    assert_eq!(s.active_index(), 0); // 0.33 > 0.0
    s.set_slim_size(0.5);
    assert_eq!(s.active_index(), 1); // 0.33 !> 0.5, 0.66 > 0.5
    s.set_slim_size(0.99);
    assert_eq!(s.active_index(), 2); // only 1.0 > 0.99
    s.set_slim_size(5.0);
    assert_eq!(s.active_index(), 2); // none > 5.0 -> last
}

#[test]
fn reset_clears_all_submodels_not_just_active() {
    // reset() must restore EVERY submodel to initial conditions, not only the
    // active one — Model::reset's contract is a full clean slate. The LSTM
    // submodel (index 0, receptive field 1) is ideal: state shows up immediately.
    let mut model = container();

    // Probe value a fresh (never-processed) submodel-0 produces.
    let mut fresh = container();
    fresh.as_slimmable_mut().unwrap().select(0);
    let mut probe_fresh = vec![0.3_f32; 8];
    fresh.process_buffer(&mut probe_fresh);

    // Dirty submodel 0, switch away, reset, switch back: it must be clean again.
    model.as_slimmable_mut().unwrap().select(0);
    let mut warm = vec![0.5_f32; 16];
    model.process_buffer(&mut warm);
    model.as_slimmable_mut().unwrap().select(2);
    model.reset();
    model.as_slimmable_mut().unwrap().select(0);
    let mut probe = vec![0.3_f32; 8];
    model.process_buffer(&mut probe);

    for (i, (got, want)) in probe.iter().zip(&probe_fresh).enumerate() {
        assert!(
            (got - want).abs() < 1e-6,
            "reset left submodel 0 dirty at sample {i}: {got} vs fresh {want}"
        );
    }
}

#[test]
fn slimmable_processes_through_active_submodel() {
    let mut model = container();
    model.as_slimmable_mut().unwrap().select(0); // LSTM submodel
    let mut a = vec![0.1_f32; 32];
    model.process_buffer(&mut a);
    model.as_slimmable_mut().unwrap().select(2); // full WaveNet submodel
    let mut b = vec![0.1_f32; 32];
    model.process_buffer(&mut b);
}

#[test]
fn as_slimmable_none_for_plain_models() {
    let mut wn = Model::<F32>::from_nam(&NamModel::from_json_str(TINY).unwrap()).unwrap();
    assert!(wn.as_slimmable_mut().is_none());
}

#[test]
fn lstm_weight_count_is_exact() {
    let cfg = |input_size, hidden_size, num_layers| nam_rs::LstmConfig {
        input_size,
        hidden_size,
        num_layers,
    };
    let count = |c| nam_rs::lstm::expected_weight_count(&c);
    assert_eq!(count(cfg(1, 1, 1)).unwrap(), 16);
    // 4*3*(1+3) + 12 + 3 + 3 + 4*3*(3+3) + 12 + 3 + 3 + 3 + 1
    assert_eq!(count(cfg(1, 3, 2)).unwrap(), 48 + 18 + 72 + 18 + 4);
    assert!(matches!(
        count(cfg(1, usize::MAX, 1)),
        Err(Error::ConfigTooLarge)
    ));
}

#[test]
fn lstm_rejects_what_it_cannot_run() {
    let wide = filled(&TINY_LSTM.replace("\"input_size\": 1", "\"input_size\": 2"));
    match rejected(&wide) {
        Error::UnsupportedFeature(m) => assert_eq!(m, "LSTM input_size != 1"),
        other => panic!("expected UnsupportedFeature, got {other:?}"),
    }
    let model = NamModel::from_json_str(TINY).unwrap();
    match Lstm::<F32>::new(&model) {
        Err(Error::UnsupportedArchitecture(m)) => assert_eq!(m, "WaveNet"),
        other => panic!("expected a rejection, got {:?}", other.map(|_| ())),
    }
}

/// Two stacked cells, computed by hand.
#[test]
fn stacked_lstm_matches_formula() {
    // hidden_size 1: each cell has W (4 rows of 2), b (4), h0, c0; then the head.
    let mut weights = Vec::new();
    for layer in 0..2 {
        let s = 0.1 * (layer as f32 + 1.0);
        weights.extend_from_slice(&[s, 0.2, -s, 0.3, 2.0 * s, -0.1, 0.5, s]); // W
        weights.extend_from_slice(&[0.05, -0.05, 0.1, s]); // b
        weights.extend_from_slice(&[0.25, -0.5]); // h0, c0
    }
    weights.extend_from_slice(&[1.5, -0.25]);
    let text = TINY_LSTM.replace("\"num_layers\": 1", "\"num_layers\": 2");
    let model = with_weights(NamModel::from_json_str(&text).unwrap(), &weights);
    let mut net = Lstm::<F32>::new(&model).unwrap();

    let sig = |x: f32| 1.0_f32 / (1.0 + (-x).exp());
    let (mut h, mut c) = ([0.25_f32; 2], [-0.5_f32; 2]);
    for x in [0.5_f32, -0.25, 0.75] {
        let mut input = x;
        for layer in 0..2 {
            let w = &weights[layer * 14..layer * 14 + 8];
            let b = &weights[layer * 14 + 8..layer * 14 + 12];
            let gate = |g: usize| b[g] + w[2 * g] * input + w[2 * g + 1] * h[layer];
            let (i, f, g, o) = (sig(gate(0)), sig(gate(1)), gate(2).tanh(), sig(gate(3)));
            c[layer] = f * c[layer] + i * g;
            h[layer] = o * c[layer].tanh();
            input = h[layer];
        }
        let want = 1.5 * input - 0.25;
        let got = net.process_sample(x);
        assert!((got - want).abs() < 1e-6, "got {got}, want {want}");
    }
}

#[test]
fn selection_reaches_the_submodels() {
    let mut model = container();
    let mut lstm = Model::<F32>::from_nam(&NamModel::from_json_str(TINY_LSTM).unwrap()).unwrap();
    model.as_slimmable_mut().unwrap().select(0);
    assert_eq!(model.process_sample(0.5), lstm.process_sample(0.5));
    assert_eq!(model.receptive_field(), 0);
    model.as_slimmable_mut().unwrap().select(1);
    assert_eq!(model.process_sample(0.5), 10.0);
    assert_eq!(model.receptive_field(), 1);
    assert_eq!(model.num_output_channels(), 1);
    let slim = model.as_slimmable().unwrap();
    assert!(!slim.is_empty());
    assert_eq!(slim.len(), 3);
}

#[test]
fn runtime_types_are_send_and_sync() {
    fn check<T: Send + Sync>() {}
    check::<Model<F32>>();
    check::<WaveNet<F32>>();
    check::<Lstm<F32>>();
    check::<nam_rs::Slimmable<F32>>();
}

/// The rows of a multi-channel head.
#[test]
fn all_output_channels_are_given_out() {
    // head_size 2: rows 0.5*relu(z) and -1*relu(z), then the scale 10.
    let text = TINY
        .replace("\"head_size\": 1", "\"head_size\": 2")
        .replace("0.1, 0.5, 10.0", "0.1, 0.5, -1.0, 10.0");
    let model = NamModel::from_json_str(&text).unwrap();
    let mut engine = Model::<F32>::from_nam(&model).unwrap();
    assert_eq!(engine.num_output_channels(), 2);
    let input: Vec<Scalar<F32>> = [0.5_f32, 1.0].iter().map(|&x| Scalar::input(x)).collect();
    let mut out = vec![Scalar::zero(); 4];
    engine.process_block_multi(&input, &mut out, 2);
    let got: Vec<f32> = out.iter().map(|y| y.output()).collect();
    // z = 2.0 and 3.5.
    assert_eq!(got, vec![10.0, 17.5, -20.0, -35.0]);
    // A mono run gives the first row.
    engine.reset();
    assert_eq!(engine.process_sample(1.0), 17.5);
}

// ---- Arrays without a head row ----

#[test]
fn a_model_without_head_rows_is_silent() {
    let text = TINY
        .replace("\"head_size\": 1", "\"head_size\": 0")
        .replace("0.1, 0.5, 10.0", "0.1, 10.0");
    let model = NamModel::from_json_str(&text).unwrap();
    let mut engine = Model::<F32>::from_nam(&model).unwrap();
    assert_eq!(engine.num_output_channels(), 0);
    let mut buf = vec![0.5_f32; MAX_BLOCK + 3];
    engine.process_buffer(&mut buf);
    assert!(buf.iter().all(|&y| y == 0.0));
    assert_eq!(engine.process_sample(0.5), 0.0);
    let input: Vec<Scalar<F32>> = [0.5_f32, 1.0].iter().map(|&x| Scalar::input(x)).collect();
    let mut out: Vec<Scalar<F32>> = Vec::new();
    engine.process_block_multi(&input, &mut out, 2);
    assert!(out.is_empty());
}

/// One-channel arrays in series, all but the last with a head row. The first computes
/// what that of `TINY` does.
fn headless_last(arrays: usize) -> NamModel {
    let array = r#"{"input_size": 1, "condition_size": 1, "channels": 1, "head_size": 1,
        "kernel_size": 1, "dilations": [1], "activation": "ReLU",
        "gated": false, "head_bias": false}"#;
    let mut layers = vec![array.to_string(); arrays];
    layers[arrays - 1] = array.replace("\"head_size\": 1", "\"head_size\": 0");
    let text = format!(
        r#"{{"version": "0", "architecture": "WaveNet", "weights": [],
            "config": {{"head": null, "head_scale": 1.0, "layers": [{}]}}}}"#,
        layers.join(",")
    );
    let mut weights: Vec<f32> = Vec::new();
    for i in 0..arrays {
        weights.extend_from_slice(&[1.0, 2.0, 0.5, 1.0, 3.0, 0.1]);
        if i < arrays - 1 {
            weights.push(0.5 * (i + 1) as f32);
        }
    }
    weights.push(10.0);
    with_weights(NamModel::from_json_str(&text).unwrap(), &weights)
}

#[test]
fn a_missing_head_row_leaves_the_one_two_arrays_before() {
    let signal = [0.5_f32, 1.0, -2.0, 0.25];
    let mut two = Model::<F32>::from_nam(&headless_last(2)).unwrap();
    let mut buf = signal;
    two.process_buffer(&mut buf);
    assert_eq!(buf, [0.0; 4]);

    // z = 2.0, 3.5, 0.0 and 1.25 in the first array, whose head row is half of that.
    let mut three = Model::<F32>::from_nam(&headless_last(3)).unwrap();
    assert_eq!(three.num_output_channels(), 0);
    let mut buf = signal;
    three.process_buffer(&mut buf);
    assert_eq!(buf, [10.0, 17.5, 0.0, 6.25]);
    block_equals_samples(&headless_last(3), &signal);
    block_equals_samples(&headless_last(4), &signal);
}

#[test]
fn conditioning_may_have_no_row() {
    let signal: Vec<f32> = (0..300).map(|i| (i as f32 * 0.017).sin() * 0.4).collect();
    block_equals_samples(&conditioned(0), &signal);
}

#[test]
fn parts_that_are_not_built_may_have_any_size() {
    let idle = TINY.replace(
        "\"channels\": 1",
        "\"channels\": 1,
         \"head1x1\": {\"active\": false, \"out_channels\": 18446744073709551615, \"groups\": 1}",
    );
    assert_ne!(idle, TINY);
    let mut wn = WaveNet::<F32>::new(&NamModel::from_json_str(&idle).unwrap()).unwrap();
    assert!((wn.process_sample(0.5) - 10.0).abs() < 1e-5);

    // A head of one convolution has no inner channels.
    let json = r#"{
        "version":"0.6.0","architecture":"WaveNet","config":{
            "layers":[{"input_size":1,"condition_size":1,"channels":1,"head_size":1,
                "kernel_size":1,"dilations":[1],"activation":"ReLU",
                "gated":false,"head_bias":false}],
            "head":{"channels":18446744073709551615,"out_channels":1,"kernel_sizes":[1],
                "activation":"ReLU"},
            "head_scale":2.0},
        "weights":[1.0, 2.0, 0.5, 1.0, 3.0, 0.1, 0.5, 3.0, 0.5, 2.0]}"#;
    let mut wn = WaveNet::<F32>::new(&NamModel::from_json_str(json).unwrap()).unwrap();
    assert!((wn.process_sample(0.5) - 6.5).abs() < 1e-5);
}
