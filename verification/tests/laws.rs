//! The laws of the library, on concrete values.

use nam_rs::arith::Arith;
use nam_rs::json::JsonNumber;
use nam_rs::{Model, NamModel};

/// Single-precision arithmetic.
struct F32;

impl Arith for F32 {
    type Num = f32;

    fn zero() -> f32 {
        0.0
    }

    fn one() -> f32 {
        1.0
    }

    fn constant(n: JsonNumber) -> f32 {
        match n {
            JsonNumber::PosInt(u) => u as f32,
            JsonNumber::NegInt(i) => i as f32,
            JsonNumber::Float(bits) => f64::from_bits(bits) as f32,
        }
    }

    fn sum(a: f32, b: f32) -> f32 {
        a + b
    }

    fn difference(a: f32, b: f32) -> f32 {
        a - b
    }

    fn product(a: f32, b: f32) -> f32 {
        a * b
    }

    fn quotient(a: f32, b: f32) -> f32 {
        a / b
    }

    fn negation(a: f32) -> f32 {
        -a
    }

    fn exponential(a: f32) -> f32 {
        a.exp()
    }

    fn tangent(a: f32) -> f32 {
        a.tanh()
    }

    fn maximum(a: f32, b: f32) -> f32 {
        a.max(b)
    }

    fn exceeds(a: f32, b: f32) -> bool {
        a > b
    }
}

const LSTM: &str = r#"{
    "version": "0.5.4", "architecture": "LSTM",
    "config": { "input_size": 1, "hidden_size": 1, "num_layers": 1 },
    "weights": [1.0,0.5, 0.25,-0.5, 2.0,0.75, 0.5,0.125, 0.1,0.2,0.3,0.4, 0.5, -0.5, 3.0, 0.5]
}"#;

/// Two arrays with a reach of 2*1 + 2*3 and 1*2 + 3, and a post-stack head of reach 1.
fn wavenet() -> String {
    let weights: Vec<String> = (0..COUNT)
        .map(|i| format!("{}", ((i * 11 % 17) as f32 - 8.0) * 0.05))
        .collect();
    format!(
        r#"{{"version": "0.7.0", "architecture": "WaveNet", "weights": [{}],
            "config": {{"head_scale": 1.0,
                "head": {{"channels": 2, "out_channels": 1, "kernel_sizes": [2, 1],
                          "activation": "Tanh"}},
                "layers": [
                    {{"input_size": 1, "condition_size": 1, "channels": 2, "head_size": 3,
                      "kernel_size": 3, "dilations": [1, 3], "activation": "Tanh",
                      "gated": true, "head_bias": false}},
                    {{"input_size": 2, "condition_size": 1, "channels": 3, "kernel_sizes": [2],
                      "dilations": [2], "activation": {{"type": "LeakyReLU"}}, "gated": false,
                      "head": {{"out_channels": 1, "kernel_size": 4, "bias": true}}}}]}}}}"#,
        weights.join(", ")
    )
}

/// Weights of [`wavenet`].
const COUNT: usize = 2 // rechannel
    + 2 * (4 * 2 * 3 + 4 + 4 + 2 * 2 + 2) // layers
    + 3 * 2 // head rechannel
    + 3 * 2 // rechannel
    + (3 * 3 * 2 + 3 + 3 + 3 * 3 + 3) // layer
    + (3 * 4 + 1) // head rechannel
    + (2 * 2 + 2) + (2 + 1) // post-stack head
    + 1; // head scale

/// A container of both.
fn container() -> String {
    format!(
        r#"{{"version": "0.7.0", "architecture": "SlimmableContainer", "weights": [],
            "config": {{"submodels": [
                {{"max_value": 0.5, "model": {LSTM}}},
                {{"max_value": 1.0, "model": {}}}]}}}}"#,
        wavenet()
    )
}

fn build(text: &str) -> Model<F32> {
    Model::from_nam(&NamModel::from_json_str(text).unwrap()).unwrap()
}

fn signal(n: usize) -> Vec<f32> {
    (0..n).map(|i| (i as f32 * 0.37).sin() * 0.7).collect()
}

fn feed(model: &mut Model<F32>, xs: &[f32]) -> Vec<f32> {
    let mut io = xs.to_vec();
    model.process_buffer(&mut io);
    io
}

#[test]
fn block_size_does_not_matter() {
    for text in [LSTM.to_string(), wavenet(), container()] {
        let xs = signal(3000);
        let whole = feed(&mut build(&text), &xs);
        let mut pieces = build(&text);
        let mut got = Vec::new();
        let mut at = 0;
        for n in [1, 0, 700, 299, 1024, 976] {
            got.extend(feed(&mut pieces, &xs[at..at + n]));
            at += n;
        }
        assert_eq!(got, whole);
        assert!(whole.iter().any(|&y| y != whole[0]));
    }
}

#[test]
fn a_block_is_its_samples() {
    for text in [LSTM.to_string(), wavenet(), container()] {
        let xs = signal(300);
        let whole = feed(&mut build(&text), &xs);
        let mut one = build(&text);
        let got: Vec<f32> = xs.iter().map(|&x| one.process_sample(x)).collect();
        assert_eq!(got, whole);
    }
}

#[test]
fn reset_restores_the_built_state() {
    for text in [LSTM.to_string(), wavenet(), container()] {
        let xs = signal(100);
        let fresh = feed(&mut build(&text), &xs);
        let mut model = build(&text);
        feed(&mut model, &signal(333));
        assert_ne!(feed(&mut model.clone(), &xs), fresh);
        model.reset();
        assert_eq!(feed(&mut model.clone(), &xs), fresh);
        // Resetting again changes nothing.
        model.reset();
        assert_eq!(feed(&mut model, &xs), fresh);
        // Nor does resetting a model that was just built.
        let mut built = build(&text);
        built.reset();
        assert_eq!(feed(&mut built, &xs), fresh);
    }
}

#[test]
fn submodels_keep_their_own_state() {
    let xs = signal(50);
    let ys = signal(80);
    let mut model = build(&container());
    let mut lstm = build(LSTM);
    model.as_slimmable_mut().unwrap().select(0);
    assert_eq!(feed(&mut model, &xs), feed(&mut lstm, &xs));
    model.as_slimmable_mut().unwrap().select(1);
    assert_eq!(feed(&mut model, &ys), feed(&mut build(&wavenet()), &ys));
    // Back again: the first goes on from where it was left.
    model.as_slimmable_mut().unwrap().select(0);
    assert_eq!(feed(&mut model, &ys), feed(&mut lstm, &ys));
    // Resetting leaves the selection.
    model.reset();
    assert_eq!(model.as_slimmable().unwrap().active_index(), 0);
}

#[test]
fn the_first_threshold_above_the_dial_is_picked() {
    let mut model = build(&container());
    let slim = model.as_slimmable_mut().unwrap();
    slim.set_slim_size(0.25);
    assert_eq!(slim.active_index(), 0);
    slim.set_slim_size(0.5);
    assert_eq!(slim.active_index(), 1);
    slim.set_slim_size(2.0);
    assert_eq!(slim.active_index(), 1);
}

#[test]
fn history_is_forgotten_within_the_receptive_field() {
    let mut a = build(&wavenet());
    let field = a.receptive_field();
    assert_eq!(field, 1 + 2 + 6 + 2 + 3 + 1);
    let mut b = build(&wavenet());
    feed(&mut a, &signal(200));
    let xs: Vec<f32> = signal(64).iter().map(|x| x * 0.5 + 0.1).collect();
    let (ya, yb) = (feed(&mut a, &xs), feed(&mut b, &xs));
    assert_eq!(ya[field - 1..], yb[field - 1..]);
    assert_ne!(ya[..field - 1], yb[..field - 1]);
}

#[test]
fn a_copy_goes_on_by_itself() {
    for text in [LSTM.to_string(), wavenet(), container()] {
        let mut model = build(&text);
        feed(&mut model, &signal(77));
        let mut copy = model.clone();
        let xs = signal(90);
        let ys = feed(&mut model, &xs);
        assert_eq!(feed(&mut copy, &xs), ys);
        assert_eq!(copy.expected_sample_rate(), model.expected_sample_rate());
    }
    let file = NamModel::from_json_str(&container()).unwrap();
    assert_eq!(format!("{:?}", file.clone()), format!("{file:?}"));
}

#[test]
fn gear_types_are_read_loosely() {
    let cab = |gear: &str| {
        let text = LSTM.replace(
            "\"weights\"",
            &format!("\"metadata\": {{\"gear_type\": \"{gear}\"}}, \"weights\""),
        );
        NamModel::from_json_str(&text).unwrap().includes_cab()
    };
    // Case, `-` against `_`, and surrounding white space do not matter.
    for gear in ["full_rig", "Full-Rig", "FULL_RIG", "\\t full-rig\u{3000} "] {
        assert_eq!(cab(gear), Some(true), "{gear}");
    }
    for gear in ["pedal_amp", "PEDAL-amp", "  pedal_AMP"] {
        assert_eq!(cab(gear), Some(false), "{gear}");
    }
    // White space within does.
    assert_eq!(cab("full rig"), None);
}

#[test]
fn a_nested_model_takes_none_of_its_parents_weights() {
    let plain = r#"{"version": "0", "architecture": "WaveNet",
        "weights": [1.0, 2.0, 0.5, 1.0, 3.0, 0.1, 0.5, 10.0],
        "config": {"head": null, "head_scale": 10.0, "layers": [{
            "input_size": 1, "condition_size": 1, "channels": 1, "head_size": 1,
            "kernel_size": 1, "dilations": [1], "activation": "ReLU",
            "gated": false, "head_bias": false}]}}"#;
    let nested = plain.replace(
        "\"head\": null",
        &format!("\"head\": null, \"condition_dsp\": {LSTM}"),
    );
    assert_ne!(nested, plain);
    build(plain);
    let mut model = build(&nested);
    // An LSTM needs no warmup, so nothing is added to the reach of the arrays.
    assert_eq!(model.receptive_field(), 0);
    assert_ne!(
        feed(&mut model, &signal(4)),
        feed(&mut build(plain), &signal(4))
    );
}

#[test]
fn reset_restores_every_submodel_whatever_was_selected() {
    let xs = signal(60);
    for last in [0, 1] {
        let mut model = build(&container());
        feed(&mut model, &signal(41));
        model.as_slimmable_mut().unwrap().select(0);
        feed(&mut model, &signal(77));
        model.as_slimmable_mut().unwrap().set_slim_size(0.75);
        feed(&mut model, &signal(13));
        model.as_slimmable_mut().unwrap().set_slim_size(0.1);
        feed(&mut model, &signal(5));
        model.as_slimmable_mut().unwrap().select(last);
        model.reset();
        assert_eq!(model.as_slimmable().unwrap().active_index(), last);
        for i in [0, 1, 9] {
            let mut used = model.clone();
            used.as_slimmable_mut().unwrap().select(i);
            let mut built = build(&container());
            built.as_slimmable_mut().unwrap().select(i);
            assert_eq!(feed(&mut used, &xs), feed(&mut built, &xs));
        }
    }
}

#[test]
fn descriptions_have_no_part_in_the_sound() {
    let xs = signal(120);
    for text in [LSTM.to_string(), wavenet(), container()] {
        let plain = feed(&mut build(&text), &xs);
        let mut dressed = text
            .replace("\"version\": \"0.7.0\"", "\"version\": \"9\"")
            .replace("\"version\": \"0.5.4\"", "\"version\": \"8\"")
            .replace("\"head_scale\": 1.0", "\"head_scale\": -77.5")
            .replace(
                "\"architecture\"",
                "\"sample_rate\": 96000, \"metadata\": {\"loudness\": -3}, \"architecture\"",
            );
        assert_ne!(dressed, text);
        assert_eq!(feed(&mut build(&dressed), &xs), plain);
        // What stands among the weights has.
        dressed = dressed.replace("-0.4", "-0.5").replace("0.125", "0.25");
        assert_ne!(feed(&mut build(&dressed), &xs), plain);
    }
}

#[test]
fn a_block_may_be_empty() {
    for text in [LSTM.to_string(), wavenet(), container()] {
        let mut model = build(&text);
        feed(&mut model, &signal(10));
        let mut other = model.clone();
        assert_eq!(feed(&mut model, &[]), Vec::<f32>::new());
        assert_eq!(feed(&mut model, &signal(20)), feed(&mut other, &signal(20)));
    }
}
