//! Reading a `.nam` file's text into a [`NamModel`].

use nam_rs::error::JsonError;
use nam_rs::json::{Json, JsonNumber};
use nam_rs::parser::layers::RawLayerArrayConfig;
use nam_rs::{
    ActivationSpec, Error, FilmConfig, GatingMode, Head1x1Config, Layer1x1Config,
    LayerArrayConfig, ModelConfig, NamModel, SlimmableConfig, WaveNetConfig, DEFAULT_SAMPLE_RATE,
};

/// The double that a number of a file denotes.
fn double(n: JsonNumber) -> f64 {
    match n {
        JsonNumber::PosInt(u) => u as f64,
        JsonNumber::NegInt(i) => i as f64,
        JsonNumber::Float(bits) => f64::from_bits(bits),
    }
}

fn single(n: JsonNumber) -> f32 {
    double(n) as f32
}

fn json(text: &str) -> Json {
    Json::parse(text).unwrap()
}

/// A minimal but structurally-valid WaveNet `.nam`, with `sample_rate` omitted.
const MINIMAL_WAVENET: &str = r#"{
    "version": "0.5.4",
    "architecture": "WaveNet",
    "config": {
        "layers": [
            {
                "input_size": 1,
                "condition_size": 1,
                "channels": 2,
                "head_size": 1,
                "kernel_size": 3,
                "dilations": [1, 2],
                "activation": "Tanh",
                "gated": false,
                "head_bias": false
            }
        ],
        "head": null,
        "head_scale": 0.5
    },
    "weights": [0.1, -0.2, 0.3]
}"#;

#[test]
fn parses_minimal_wavenet_config() {
    let model = NamModel::from_json_str(MINIMAL_WAVENET).expect("should parse");

    assert_eq!(model.version, "0.5.4");
    assert_eq!(model.architecture, "WaveNet");
    let cfg = match &model.config {
        ModelConfig::WaveNet(c) => c,
        other => panic!("expected WaveNet config, got {other:?}"),
    };
    let layers = &cfg.layers;
    assert_eq!(layers.len(), 1);
    let layer = &layers[0];
    assert_eq!(layer.channels, 2);
    assert_eq!(layer.kernel_sizes[0], 3);
    assert_eq!(layer.dilations, vec![1, 2]);
    assert!(
        matches!(&layer.activations[0], ActivationSpec::Named { name, negative_slope: None } if name == "Tanh"),
        "got {:?}",
        layer.activations[0]
    );
    assert!(!matches!(
        layer.gating_modes[0],
        GatingMode::Gated | GatingMode::Blended
    ));
    assert!(!layer.head_bias);

    assert!((double(cfg.head_scale) - 0.5).abs() < 1e-9);
    let weights: Vec<f32> = model.weights.iter().map(|&w| single(w)).collect();
    assert_eq!(weights, vec![0.1_f32, -0.2, 0.3]);
}

#[test]
fn sample_rate_defaults_to_48k_when_absent() {
    let model = NamModel::from_json_str(MINIMAL_WAVENET).expect("should parse");
    assert!(model.sample_rate.is_none());
    assert!((double(model.expected_sample_rate()) - DEFAULT_SAMPLE_RATE as f64).abs() < 1e-9);
}

#[test]
fn sample_rate_is_read_when_present() {
    let json = MINIMAL_WAVENET.replace(
        "\"weights\": [0.1, -0.2, 0.3]",
        "\"sample_rate\": 44100.0, \"weights\": [0.1, -0.2, 0.3]",
    );
    let model = NamModel::from_json_str(&json).expect("should parse");
    assert!((double(model.expected_sample_rate()) - 44100.0).abs() < 1e-9);
}

#[test]
fn rejects_malformed_json() {
    assert!(NamModel::from_json_str("{ not json").is_err());
}

#[test]
fn rejects_wrong_typed_config_field() {
    // A config field with the wrong JSON type must fail to parse, not panic.
    let json = MINIMAL_WAVENET.replace("\"channels\": 2", "\"channels\": \"lots\"");
    assert!(NamModel::from_json_str(&json).is_err());
}

/// A WaveNet file carrying NAM's metadata block (keys taken from a real .nam).
const WITH_METADATA: &str = r#"{
    "version": "0.5.4",
    "architecture": "WaveNet",
    "config": {
        "layers": [{
            "input_size": 1, "condition_size": 1, "channels": 1, "head_size": 1,
            "kernel_size": 1, "dilations": [1], "activation": "ReLU",
            "gated": false, "head_bias": false
        }],
        "head": null, "head_scale": 1.0
    },
    "weights": [1.0, 2.0, 0.0, 0.0, 1.0, 0.0, 1.0, 1.0],
    "metadata": {
        "loudness": -20.02, "input_level_dbu": 18.3, "output_level_dbu": 12.3,
        "gain": 0.824, "name": "Test", "modeled_by": "somebody",
        "gear_make": "Marshall", "gear_model": "JMP-50", "gear_type": "amp",
        "tone_type": "overdrive", "trainer": "TONE3000",
        "date": {"year": 2026, "month": 5, "day": 15,
                 "hour": 18, "minute": 45, "second": 6}
    }
}"#;

#[test]
fn parses_loudness_and_calibration_metadata() {
    let m = NamModel::from_json_str(WITH_METADATA).expect("parse");
    let approx = |got: Option<JsonNumber>, want: f32| {
        (single(got.expect("present")) - want).abs() < 1e-4
    };
    assert!(approx(m.loudness(), -20.02));
    assert!(approx(m.input_level_dbu(), 18.3));
    assert!(approx(m.output_level_dbu(), 12.3));
}

#[test]
fn metadata_typed_parses_all_fields_in_one_call() {
    let m = NamModel::from_json_str(WITH_METADATA).expect("parse");
    let md = m.metadata_typed();
    let approx = |got: Option<JsonNumber>, want: f32| {
        (single(got.expect("present")) - want).abs() < 1e-4
    };
    assert!(approx(md.loudness, -20.02));
    assert!(approx(md.input_level_dbu, 18.3));
    assert!(approx(md.output_level_dbu, 12.3));
}

#[test]
fn metadata_absent_yields_none() {
    // MINIMAL_WAVENET has no metadata block at all.
    let m = NamModel::from_json_str(MINIMAL_WAVENET).expect("parse");
    assert_eq!(m.loudness(), None);
    assert_eq!(m.input_level_dbu(), None);
    assert_eq!(m.output_level_dbu(), None);
}

#[test]
fn unrelated_metadata_keys_are_ignored() {
    // Swap the calibration keys for ones the crate knows nothing about: the unknown keys
    // must be skipped silently rather than failing the parse.
    let json = WITH_METADATA.replace(
        "\"loudness\": -20.02, \"input_level_dbu\": 18.3, \"output_level_dbu\": 12.3,",
        "\"some_future_key\": 1, \"another\": {\"nested\": true},",
    );
    let m = NamModel::from_json_str(&json).expect("parse");
    assert_eq!(m.loudness(), None);
    assert_eq!(m.input_level_dbu(), None);
    assert_eq!(m.output_level_dbu(), None);
    // ...while the keys that *are* known still come through.
    assert_eq!(m.metadata_typed().name.as_deref(), Some("Test"));
}

#[test]
fn parses_descriptive_metadata() {
    let md = NamModel::from_json_str(WITH_METADATA)
        .expect("parse")
        .metadata_typed();
    assert_eq!(md.name.as_deref(), Some("Test"));
    assert_eq!(md.modeled_by.as_deref(), Some("somebody"));
    assert_eq!(md.gear_make.as_deref(), Some("Marshall"));
    assert_eq!(md.gear_model.as_deref(), Some("JMP-50"));
    assert_eq!(md.gear_type.as_deref(), Some("amp"));
    assert_eq!(md.tone_type.as_deref(), Some("overdrive"));
    assert_eq!(md.trainer.as_deref(), Some("TONE3000"));
    assert!((single(md.gain.expect("gain")) - 0.824).abs() < 1e-4);

    let date = md.date.expect("date");
    assert_eq!(
        (
            date.year,
            date.month,
            date.day,
            date.hour,
            date.minute,
            date.second
        ),
        (2026, 5, 15, 18, 45, 6)
    );
}

/// `gear_type` and `tone_type` are `String`, not enums, on purpose: files in the wild
/// carry values outside NAM's own enums (TONE3000 writes `"full-rig"` and
/// `"T3K-Null"`). A typed enum would reject those files outright.
#[test]
fn nonstandard_gear_and_tone_types_still_parse() {
    let json = WITH_METADATA
        .replace("\"gear_type\": \"amp\"", "\"gear_type\": \"full-rig\"")
        .replace(
            "\"tone_type\": \"overdrive\"",
            "\"tone_type\": \"T3K-Null\"",
        );
    let md = NamModel::from_json_str(&json)
        .expect("parse")
        .metadata_typed();
    assert_eq!(md.gear_type.as_deref(), Some("full-rig"));
    assert_eq!(md.tone_type.as_deref(), Some("T3K-Null"));
}

/// Real files write explicit JSON `null` for absent calibration levels, and write
/// integers where the schema says float. Both must parse as cleanly as an absent key.
#[test]
fn null_and_integer_metadata_values_parse() {
    let json = WITH_METADATA.replace(
        "\"input_level_dbu\": 18.3, \"output_level_dbu\": 12.3,",
        "\"input_level_dbu\": null, \"output_level_dbu\": 14,",
    );
    let md = NamModel::from_json_str(&json)
        .expect("parse")
        .metadata_typed();
    assert_eq!(md.input_level_dbu, None);
    assert!((single(md.output_level_dbu.expect("present")) - 14.0).abs() < 1e-4);
}

/// One field with an unexpected shape must not take the rest of the block down with
/// it.
#[test]
fn one_malformed_field_does_not_discard_the_others() {
    let json = WITH_METADATA.replace(
        "\"date\": {\"year\": 2026, \"month\": 5, \"day\": 15,\n                 \"hour\": 18, \"minute\": 45, \"second\": 6}",
        "\"date\": \"last Tuesday\"",
    );
    assert!(json.contains("last Tuesday"), "replacement must apply");

    let md = NamModel::from_json_str(&json)
        .expect("parse")
        .metadata_typed();
    assert_eq!(md.date, None, "the malformed field itself yields None");
    // ...and everything else survives.
    assert!((single(md.loudness.expect("loudness")) - -20.02).abs() < 1e-4);
    assert_eq!(md.gear_type.as_deref(), Some("amp"));
    assert_eq!(md.name.as_deref(), Some("Test"));
}

/// A scalar field holding the wrong JSON type costs only itself.
#[test]
fn wrong_typed_scalar_fields_cost_only_themselves() {
    // A number where a string belongs, and a string where a number belongs.
    let json = WITH_METADATA
        .replace("\"gear_type\": \"amp\"", "\"gear_type\": 5")
        .replace("\"loudness\": -20.02", "\"loudness\": \"quite loud\"");
    let md = NamModel::from_json_str(&json)
        .expect("parse")
        .metadata_typed();

    assert_eq!(md.gear_type, None, "the malformed field itself yields None");
    assert_eq!(md.loudness, None, "the malformed field itself yields None");
    // The neighbours are untouched — including the other calibration levels.
    assert!((single(md.input_level_dbu.expect("input level")) - 18.3).abs() < 1e-4);
    assert!((single(md.output_level_dbu.expect("output level")) - 12.3).abs() < 1e-4);
    assert_eq!(md.name.as_deref(), Some("Test"));
    assert_eq!(md.tone_type.as_deref(), Some("overdrive"));
    assert!(md.date.is_some());
    // A `gear_type` that failed to parse is unknown, never a guess.
    assert_eq!(md.includes_cab(), None);
}

#[test]
fn includes_cab_classifies_known_gear_types() {
    let with_gear = |gear: &str| {
        let json =
            WITH_METADATA.replace("\"gear_type\": \"amp\"", &format!("\"gear_type\": {gear}"));
        NamModel::from_json_str(&json)
            .expect("parse")
            .includes_cab()
    };

    // Speaker/cab in the signal chain. NAM's vocabulary...
    for gear in ["\"amp_cab\"", "\"amp_pedal_cab\""] {
        assert_eq!(with_gear(gear), Some(true), "{gear} should report a cab");
    }
    // ...and TONE3000's, which hyphenates. `full-rig` is documented by TONE3000 as
    // an alias for `amp-cab`, and `ir` is a directly captured cab response.
    for gear in ["\"amp-cab\"", "\"cab\"", "\"full-rig\"", "\"ir\""] {
        assert_eq!(with_gear(gear), Some(true), "{gear} should report a cab");
    }
    // Gear that stops before the speaker, from both vocabularies.
    for gear in [
        "\"amp\"",
        "\"preamp\"",
        "\"pedal\"",
        "\"pedal_amp\"",
        "\"outboard\"",
        "\"space\"",
    ] {
        assert_eq!(with_gear(gear), Some(false), "{gear} should report no cab");
    }
    // Case, surrounding whitespace, and `-` vs `_` are not significant, so the two
    // spellings of every cross-vocabulary value agree.
    assert_eq!(with_gear("\"  AMP_CAB \""), Some(true));
    assert_eq!(with_gear("\"full_rig\""), with_gear("\"full-rig\""));
    assert_eq!(with_gear("\"amp_cab\""), with_gear("\"amp-cab\""));

    // An unrecognised or absent value is "unknown", never a guess. NAM's `studio`
    // is undocumented and reads both ways; TONE3000's `experimental` promises
    // nothing about the chain. Both stay unknown on purpose.
    assert_eq!(with_gear("\"studio\""), None);
    assert_eq!(with_gear("\"experimental\""), None);
    assert_eq!(with_gear("\"something-new\""), None);
    assert_eq!(with_gear("null"), None);

    // `cab` is matched as a whole `_`-separated token, never a substring: these contain
    // "cab" while meaning something else entirely. A false `Some(true)` is the
    // dangerous direction — it tells the caller to drop an IR the model needs.
    for gear in ["\"cabless\"", "\"cable\"", "\"cabaret\""] {
        assert_eq!(with_gear(gear), None, "{gear} must not read as a cab");
    }
    // ...but an unseen spelling that does name a cab component still classifies,
    // without needing a new match arm.
    assert_eq!(with_gear("\"pedal_amp_cab\""), Some(true));
    // Documented limit of the token rule: a *negated* spelling still reads as
    // cab-inclusive, since `cab` is one of its tokens. No vendor forms values this
    // way, and sniffing for negation in free text is the guesswork this function
    // exists to avoid — so the behaviour is pinned here rather than defended against.
    assert_eq!(with_gear("\"amp_no_cab\""), Some(true));
    assert_eq!(
        NamModel::from_json_str(MINIMAL_WAVENET)
            .expect("parse")
            .includes_cab(),
        None
    );
}

const MINIMAL_LSTM: &str = r#"{
    "version": "0.5.4",
    "architecture": "LSTM",
    "config": { "input_size": 1, "hidden_size": 8, "num_layers": 1 },
    "weights": [0.0],
    "sample_rate": 44100.0
}"#;

#[test]
fn parses_lstm_config() {
    let m = NamModel::from_json_str(MINIMAL_LSTM).expect("parse LSTM");
    assert_eq!(m.architecture, "LSTM");
    match &m.config {
        ModelConfig::Lstm(c) => {
            assert_eq!(c.input_size, 1);
            assert_eq!(c.hidden_size, 8);
            assert_eq!(c.num_layers, 1);
        }
        other => panic!("expected Lstm config, got {other:?}"),
    }
    assert_eq!(double(m.expected_sample_rate()), 44100.0);
}

#[test]
fn wavenet_config_still_parses_through_enum() {
    let m = NamModel::from_json_str(MINIMAL_WAVENET).expect("parse");
    match &m.config {
        ModelConfig::WaveNet(c) => assert_eq!(c.layers.len(), 1),
        other => panic!("expected WaveNet config, got {other:?}"),
    }
}

#[test]
fn unknown_architecture_fails_to_parse() {
    let json = MINIMAL_WAVENET.replace("\"WaveNet\"", "\"Transformer\"");
    let err = NamModel::from_json_str(&json).unwrap_err();
    assert!(
        err.message().contains("Transformer"),
        "error should name the bad architecture: {err:?}"
    );
}

/// Builds a WaveNet config JSON with the given raw `activation` snippet.
fn wavenet_with_activation(activation_json: &str) -> String {
    format!(
        r#"{{"version":"0.7.0","architecture":"WaveNet","config":{{"layers":[{{
            "input_size":1,"condition_size":1,"channels":1,"head_size":1,
            "kernel_size":1,"dilations":[1],"activation":{activation_json},
            "gated":false,"head_bias":false}}],"head":null,"head_scale":1.0}},
            "weights":[1.0,2.0,0.0,0.0,1.0,0.0,1.0,1.0]}}"#
    )
}

fn first_layer_activation(json: &str) -> ActivationSpec {
    let m = NamModel::from_json_str(json).expect("parse");
    match &m.config {
        ModelConfig::WaveNet(c) => c.layers[0].activations[0].clone(),
        other => panic!("expected WaveNet, got {other:?}"),
    }
}

#[test]
fn activation_bare_string_parses() {
    let a = first_layer_activation(&wavenet_with_activation(r#""LeakyReLU""#));
    assert!(
        matches!(a, ActivationSpec::Named { name, negative_slope: None } if name == "LeakyReLU")
    );
}

#[test]
fn activation_dict_default_slope_parses() {
    let a = first_layer_activation(&wavenet_with_activation(r#"{"type":"LeakyReLU"}"#));
    assert!(
        matches!(a, ActivationSpec::Named { name, negative_slope: None } if name == "LeakyReLU")
    );
}

#[test]
fn activation_dict_explicit_slope_parses() {
    let a = first_layer_activation(&wavenet_with_activation(
        r#"{"type":"LeakyReLU","negative_slope":0.1}"#,
    ));
    match a {
        ActivationSpec::Named {
            name,
            negative_slope: Some(s),
        } => {
            assert_eq!(name, "LeakyReLU");
            assert!((double(s) - 0.1).abs() < 1e-6);
        }
        other => panic!("expected Named with slope, got {other:?}"),
    }
}

#[test]
fn activation_list_form_broadcasts_per_layer() {
    // A per-layer activation list (length == dilations.len()) now parses successfully.
    // `wavenet_with_activation` has one dilation, so a one-element list is valid.
    let a = first_layer_activation(&wavenet_with_activation(r#"["ReLU"]"#));
    assert!(
        matches!(a, ActivationSpec::Named { ref name, .. } if name == "ReLU"),
        "got {a:?}"
    );
}

#[test]
fn activation_dict_without_type_is_unsupported() {
    let a = first_layer_activation(&wavenet_with_activation(r#"{"negative_slope":0.01}"#));
    assert!(matches!(a, ActivationSpec::Unsupported(_)));
}

#[test]
fn activation_dict_non_numeric_slope_is_unsupported() {
    // A present-but-malformed `negative_slope` (here a string) must be rejected, not
    // silently treated as the 0.01 default — consistent with the crate's fail-loud
    // handling of unmodeled activation shapes.
    let a = first_layer_activation(&wavenet_with_activation(
        r#"{"type":"LeakyReLU","negative_slope":"0.1"}"#,
    ));
    assert!(matches!(a, ActivationSpec::Unsupported(_)));
}

#[test]
fn activation_dict_null_slope_uses_default() {
    // An explicit null slope means "no value" → runtime default, like an absent key.
    let a = first_layer_activation(&wavenet_with_activation(
        r#"{"type":"LeakyReLU","negative_slope":null}"#,
    ));
    assert!(
        matches!(a, ActivationSpec::Named { name, negative_slope: None } if name == "LeakyReLU")
    );
}

// ---- Layer-arrays ----

fn norm(v: &Json) -> LayerArrayConfig {
    RawLayerArrayConfig::from_json(v)
        .unwrap()
        .normalize()
        .unwrap()
}

#[test]
fn a1_layer_broadcasts_scalar_kernel_and_string_activation() {
    let la = norm(&json(r#"{
        "input_size": 1, "condition_size": 1, "channels": 2, "head_size": 1,
        "kernel_size": 3, "dilations": [1, 2, 4], "activation": "Tanh",
        "gated": false, "head_bias": false
    }"#));
    assert_eq!(la.channels, 2);
    assert_eq!(la.bottleneck, 2);
    assert_eq!(la.kernel_sizes, vec![3, 3, 3]);
    assert_eq!(la.gating_modes, vec![GatingMode::Ungated; 3]);
    assert_eq!(la.head_size, 1);
    assert_eq!(la.head_kernel_size, 1);
    assert!(!la.head_bias);
    assert!(la.layer1x1.active);
    assert!(!la.head1x1.active);
    assert_eq!(la.groups_input, 1);
    assert_eq!(la.activations.len(), 3);
    assert!(matches!(&la.activations[0], ActivationSpec::Named { name, .. } if name == "Tanh"));
    let g = norm(&json(r#"{
        "input_size": 1, "condition_size": 1, "channels": 2, "head_size": 1,
        "kernel_size": 3, "dilations": [1], "activation": "Tanh",
        "gated": true, "head_bias": true
    }"#));
    assert_eq!(g.gating_modes, vec![GatingMode::Gated]);
}

#[test]
fn a2_flexible_layer_parses_per_layer_vectors_and_nested_head() {
    let la = norm(&json(r#"{
        "input_size": 1, "condition_size": 1, "channels": 3, "bottleneck": 3,
        "dilations": [1, 3, 7],
        "kernel_sizes": [6, 6, 15],
        "activation": [
            {"type": "LeakyReLU", "negative_slope": 0.01},
            {"type": "LeakyReLU", "negative_slope": 0.01},
            {"type": "LeakyReLU", "negative_slope": 0.01}
        ],
        "head": {"out_channels": 1, "kernel_size": 16, "bias": true},
        "head1x1": {"active": false, "out_channels": 1, "groups": 1},
        "layer1x1": {"active": true, "groups": 1},
        "groups_input": 1, "groups_input_mixin": 1,
        "gating_mode": ["none", "none", "none"],
        "secondary_activation": [null, null, null],
        "conv_pre_film": {"active": false, "shift": true, "groups": 1}
    }"#));
    assert_eq!(la.kernel_sizes, vec![6, 6, 15]);
    assert_eq!(la.gating_modes, vec![GatingMode::Ungated; 3]);
    assert_eq!(la.head_size, 1);
    assert_eq!(la.head_kernel_size, 16);
    assert!(la.head_bias);
    assert_eq!(la.bottleneck, 3);
    assert_eq!(la.activations.len(), 3);
    assert!(!la.conv_pre_film.active);
}

#[test]
fn both_kernel_forms_is_an_error() {
    let raw = RawLayerArrayConfig::from_json(&json(r#"{
        "input_size": 1, "condition_size": 1, "channels": 1, "head_size": 1,
        "kernel_size": 3, "kernel_sizes": [3], "dilations": [1],
        "activation": "Tanh", "gated": false, "head_bias": false
    }"#)).unwrap();
    assert!(raw.normalize().is_err());
}

#[test]
fn kernel_sizes_length_mismatch_is_an_error() {
    let raw = RawLayerArrayConfig::from_json(&json(r#"{
        "input_size": 1, "condition_size": 1, "channels": 1, "head_size": 1,
        "kernel_sizes": [3, 3], "dilations": [1],
        "activation": "Tanh", "gated": false, "head_bias": false
    }"#)).unwrap();
    assert!(raw.normalize().is_err());
}

#[test]
fn activation_list_length_mismatch_is_an_error() {
    let raw = RawLayerArrayConfig::from_json(&json(r#"{
        "input_size": 1, "condition_size": 1, "channels": 1, "head_size": 1,
        "kernel_size": 3, "dilations": [1, 2],
        "activation": ["Tanh"], "gated": false, "head_bias": false
    }"#)).unwrap();
    assert!(raw.normalize().is_err());
}

#[test]
fn gating_mode_from_str() {
    assert_eq!(GatingMode::from_name("none").unwrap(), GatingMode::Ungated);
    assert_eq!(GatingMode::from_name("gated").unwrap(), GatingMode::Gated);
    assert_eq!(
        GatingMode::from_name("blended").unwrap(),
        GatingMode::Blended
    );
    assert!(GatingMode::from_name("wat").is_err());
}

#[test]
fn film_absent_or_false_is_inactive() {
    assert_eq!(FilmConfig::from_json(None), FilmConfig::inactive());
    assert_eq!(
        FilmConfig::from_json(Some(&json(r#"false"#))),
        FilmConfig::inactive()
    );
}

#[test]
fn film_object_defaults_active_shift_groups() {
    let v = json(r#"{}"#);
    let f = FilmConfig::from_json(Some(&v));
    assert_eq!(
        f,
        FilmConfig {
            active: true,
            shift: true,
            groups: 1
        }
    );
    let v = json(r#"{"active": false, "shift": false, "groups": 2}"#);
    assert_eq!(
        FilmConfig::from_json(Some(&v)),
        FilmConfig {
            active: false,
            shift: false,
            groups: 2
        }
    );
}

#[test]
fn layer1x1_defaults_active_true_groups_1() {
    assert_eq!(
        Layer1x1Config::from_json(None),
        Layer1x1Config {
            active: true,
            groups: 1
        }
    );
    let v = json(r#"{"active": true, "groups": 1}"#);
    assert_eq!(
        Layer1x1Config::from_json(Some(&v)),
        Layer1x1Config {
            active: true,
            groups: 1
        }
    );
}

#[test]
fn head1x1_defaults_inactive() {
    let h = Head1x1Config::from_json(None);
    assert_eq!(
        h,
        Head1x1Config {
            active: false,
            out_channels: None,
            groups: 1
        }
    );
    let v = json(r#"{"active": false, "out_channels": 1, "groups": 1}"#);
    assert_eq!(
        Head1x1Config::from_json(Some(&v)),
        Head1x1Config {
            active: false,
            out_channels: Some(1),
            groups: 1
        }
    );
}

fn parse(json: &str) -> WaveNetConfig {
    match NamModel::from_json_str(json).unwrap().config {
        ModelConfig::WaveNet(c) => c,
        other => panic!("expected WaveNet, got {other:?}"),
    }
}

#[test]
fn a1_config_parses_unchanged() {
    let c = parse(
        r#"{
        "version":"0.5.4","architecture":"WaveNet","config":{
            "layers":[{"input_size":1,"condition_size":1,"channels":2,"head_size":1,
                "kernel_size":3,"dilations":[1,2],"activation":"Tanh",
                "gated":false,"head_bias":false}],
            "head":null,"head_scale":2.0},
        "weights":[]}"#,
    );
    assert_eq!(c.layers.len(), 1);
    assert_eq!(double(c.head_scale), 2.0);
    assert!(c.post_stack_head.is_none());
    assert!(c.condition_dsp.is_none());
    assert_eq!(c.layers[0].kernel_sizes, vec![3, 3]);
}

#[test]
fn a2_flexible_container_submodel_config_parses() {
    let c = parse(
        r#"{
        "version":"0.7.0","architecture":"WaveNet","config":{
            "layers":[{"input_size":1,"condition_size":1,"channels":3,"bottleneck":3,
                "dilations":[1,3,7],"kernel_sizes":[6,6,15],
                "activation":[{"type":"LeakyReLU"},{"type":"LeakyReLU"},{"type":"LeakyReLU"}],
                "head":{"out_channels":1,"kernel_size":16,"bias":true},
                "head1x1":{"active":false},"layer1x1":{"active":true,"groups":1},
                "gating_mode":["none","none","none"]}],
            "head":null,"head_scale":0.5},
        "weights":[]}"#,
    );
    assert_eq!(c.layers[0].head_kernel_size, 16);
    assert_eq!(c.layers[0].kernel_sizes, vec![6, 6, 15]);
    assert!(c.post_stack_head.is_none());
}

#[test]
fn post_stack_head_parses() {
    let c = parse(
        r#"{
        "version":"0.6.0","architecture":"WaveNet","config":{
            "layers":[{"input_size":1,"condition_size":1,"channels":2,"head_size":2,
                "kernel_size":3,"dilations":[1],"activation":"Tanh",
                "gated":false,"head_bias":false}],
            "head":{"channels":4,"out_channels":1,"kernel_sizes":[1,1],"activation":"ReLU"},
            "head_scale":1.0},
        "weights":[]}"#,
    );
    let h = c.post_stack_head.expect("post-stack head present");
    assert_eq!(h.channels, 4);
    assert_eq!(h.out_channels, 1);
    assert_eq!(h.kernel_sizes, vec![1, 1]);
}

#[test]
fn condition_dsp_parses_as_nested_model() {
    let c = parse(
        r#"{
        "version":"0.6.0","architecture":"WaveNet","config":{
            "layers":[{"input_size":1,"condition_size":1,"channels":2,"head_size":1,
                "kernel_size":3,"dilations":[1],"activation":"Tanh",
                "gated":false,"head_bias":false}],
            "head":null,"head_scale":1.0,
            "condition_dsp":{"version":"0.5.4","architecture":"WaveNet","config":{
                "layers":[{"input_size":1,"condition_size":1,"channels":1,"head_size":1,
                    "kernel_size":1,"dilations":[1],"activation":"Tanh",
                    "gated":false,"head_bias":false}],
                "head":null,"head_scale":1.0},"weights":[]}},
        "weights":[]}"#,
    );
    let dsp = c.condition_dsp.expect("condition_dsp present");
    assert_eq!(dsp.architecture, "WaveNet");
}

// ---- Containers ----

const TINY_LSTM: &str = r#"{
    "version": "0.5.4", "architecture": "LSTM",
    "config": { "input_size": 1, "hidden_size": 1, "num_layers": 1 },
    "weights": [1.0,0.0, 0.0,0.0, 2.0,0.0, 0.0,0.0, 0.0,0.0,0.0,0.0, 0.0, 0.0, 3.0, 0.5]
}"#;

/// A container of an LSTM and two WaveNets.
fn container() -> String {
    format!(
        r#"{{"version": "0.7.0", "architecture": "SlimmableContainer", "weights": [],
            "config": {{"submodels": [
                {{"max_value": 0.33, "model": {TINY_LSTM}}},
                {{"max_value": 0.66, "model": {MINIMAL_WAVENET}}},
                {{"max_value": 1.0, "model": {MINIMAL_WAVENET}}}]}}}}"#
    )
}

#[test]
fn parses_slimmable_container() {
    let m = NamModel::from_json_str(&container()).expect("parse container");
    assert_eq!(m.architecture, "SlimmableContainer");
    let cfg: &SlimmableConfig = match &m.config {
        ModelConfig::Slimmable(c) => c,
        other => panic!("expected Slimmable config, got {other:?}"),
    };
    assert_eq!(cfg.submodels.len(), 3);
    // max_values are ascending [0.33, 0.66, 1.0].
    let maxes: Vec<f32> = cfg.submodels.iter().map(|s| single(s.max_value)).collect();
    assert!((maxes[0] - 0.33).abs() < 1e-6);
    assert!((maxes[2] - 1.0).abs() < 1e-6);
    // Submodels are mixed architecture: [LSTM, WaveNet, WaveNet].
    assert_eq!(cfg.submodels[0].model.architecture, "LSTM");
    assert_eq!(cfg.submodels[1].model.architecture, "WaveNet");
    assert_eq!(cfg.submodels[2].model.architecture, "WaveNet");
}

// ---- Documents ----

#[test]
fn numbers_keep_what_the_text_says() {
    let number = |text: &str| json(text).as_number().unwrap();
    assert_eq!(number("0"), JsonNumber::PosInt(0));
    assert_eq!(number("18446744073709551615"), JsonNumber::PosInt(u64::MAX));
    assert_eq!(number("-1"), JsonNumber::NegInt(-1));
    assert_eq!(
        number("-9223372036854775808"),
        JsonNumber::NegInt(i64::MIN)
    );
    assert_eq!(number("1.0"), JsonNumber::Float(1.0_f64.to_bits()));
    assert_eq!(number("-0.5"), JsonNumber::Float((-0.5_f64).to_bits()));
    assert_eq!(number("1e3"), JsonNumber::Float(1000.0_f64.to_bits()));
    // One past the largest integer is a double.
    assert_eq!(
        number("18446744073709551616"),
        JsonNumber::Float(18446744073709551616.0_f64.to_bits())
    );
}

#[test]
fn documents_are_written_compactly() {
    let text = r#"{"a":[null,true,-1,2.5],"b":"x\"y","c":{}}"#;
    assert_eq!(json(text).to_text(), text);
    // An object is written in the order of its names, and the last of several members
    // of one name counts.
    let member = |k: &str, v: &str| (k.to_string(), json(v));
    let v = Json::Object(vec![
        member("b", "1"),
        member("aa", "2"),
        member("b", "3"),
        member("a", "4"),
    ]);
    assert_eq!(v.to_text(), r#"{"a":4,"aa":2,"b":3}"#);
}

#[test]
fn documents_are_read_as_trees() {
    let v = json(r#"{"b": [true, null], "a": "x\ny"}"#);
    assert_eq!(v.get("a"), Some(&Json::String("x\ny".to_string())));
    assert_eq!(
        v.get("b"),
        Some(&Json::Array(vec![Json::Bool(true), Json::Null]))
    );
    assert_eq!(v.get("c"), None);
    assert_eq!(v.get("a").unwrap().as_string().as_deref(), Some("x\ny"));
    assert_eq!(v.get("a").unwrap().as_bool(), None);
    assert!(json("null").is_null());
    assert_eq!(json("true").as_bool(), Some(true));
    assert_eq!(json("7").as_usize(), Some(7));
    assert_eq!(json("-7").as_u64(), None);
    assert_eq!(json("7.0").as_u64(), None);
    assert_eq!(json("-7").as_number(), Some(JsonNumber::NegInt(-7)));
    assert_eq!(v.clone(), v);
    let numbers = json("[1, -2, 2.5]");
    assert_eq!(numbers.clone(), numbers);
    assert_eq!(numbers.clone().to_text(), "[1,-2,2.5]");
    // The last of two members of one name counts.
    assert_eq!(json(r#"{"a": 1, "a": 2}"#), json(r#"{"a": 2}"#));
}

#[test]
fn malformed_text_carries_the_complaint() {
    let complaint = Json::parse("{ not json").unwrap_err();
    assert!(complaint.contains("line 1 column 3"), "{complaint}");
    match NamModel::from_json_str("{ not json") {
        Err(Error::Json(JsonError::Syntax(m))) => assert_eq!(m, complaint),
        other => panic!("expected a syntax error, got {other:?}"),
    }
}

#[test]
fn records_may_be_arrays() {
    let by_name = json(r#"{"input_size": 1, "hidden_size": 8, "num_layers": 2}"#);
    let by_place = json("[1, 8, 2]");
    let a = nam_rs::LstmConfig::from_json(&by_name).unwrap();
    let b = nam_rs::LstmConfig::from_json(&by_place).unwrap();
    assert_eq!((a.input_size, a.hidden_size, a.num_layers), (1, 8, 2));
    assert_eq!(a, b);
    let refused = |text: &str| nam_rs::LstmConfig::from_json(&json(text)).unwrap_err();
    assert_eq!(
        refused("[1, 8]"),
        "invalid length 2, expected struct LstmConfig with 3 elements"
    );
    assert_eq!(
        refused("[1, 8, 2, 3]"),
        "invalid length 4, expected fewer elements in array"
    );
    assert_eq!(
        refused("[1, true]"),
        "invalid type: boolean `true`, expected usize"
    );
    assert_eq!(
        refused("7"),
        "invalid type: integer `7`, expected struct LstmConfig"
    );
    assert_eq!(
        refused(r#"{"input_size": 1}"#),
        "missing field `hidden_size`"
    );
}

// ---- Complaints ----

/// The complaint about a model in which a field is missing or has the wrong type.
fn shape_error(text: &str) -> String {
    match NamModel::from_json_str(text) {
        Err(Error::Json(JsonError::Shape(m))) => m,
        other => panic!("expected a shape error, got {other:?}"),
    }
}

/// A complaint about a field of a file, without its place in the text.
fn unplaced(m: String) -> String {
    let (words, place) = m.rsplit_once(" at line ").unwrap();
    assert!(place.contains(" column "));
    words.to_string()
}

/// The complaint about a model that has every field but makes no sense.
fn complaint(text: &str) -> String {
    match NamModel::from_json_str(text) {
        Err(Error::Json(JsonError::Content(m))) => m,
        other => panic!("expected a complaint, got {other:?}"),
    }
}

#[test]
fn missing_and_mistyped_fields_are_shape_errors() {
    let with = |from: &str, to: &str| shape_error(&MINIMAL_WAVENET.replace(from, to));
    assert_eq!(
        shape_error("[]"),
        "invalid length 0, expected struct Raw with 6 elements at line 1 column 2"
    );
    assert_eq!(
        shape_error("\"nam\""),
        "invalid type: string \"nam\", expected struct Raw at line 1 column 5"
    );
    assert_eq!(shape_error("{}"), "missing field `version` at line 1 column 2");
    assert_eq!(
        unplaced(with("\"version\": \"0.5.4\",", "")),
        "missing field `version`"
    );
    assert_eq!(
        unplaced(with("\"0.5.4\"", "5")),
        "invalid type: integer `5`, expected a string"
    );
    assert_eq!(
        unplaced(with("[0.1, -0.2, 0.3]", "[0.1, \"x\"]")),
        "invalid type: string \"x\", expected f32"
    );
    assert_eq!(
        unplaced(with("[0.1, -0.2, 0.3]", "null")),
        "invalid type: null, expected a sequence"
    );
    assert_eq!(
        with("\"channels\": 2", "\"channels\": -2"),
        "invalid value: integer `-2`, expected usize"
    );
    assert_eq!(
        with("\"channels\": 2", "\"channels\": 2.0"),
        "invalid type: floating point `2.0`, expected usize"
    );
    assert_eq!(
        with("[1, 2]", "{}"),
        "invalid type: map, expected a sequence"
    );
    assert_eq!(
        with("[1, 2]", "[1, [2]]"),
        "invalid type: sequence, expected usize"
    );
    assert_eq!(
        with("\"gated\": false", "\"gated\": 0"),
        "invalid type: integer `0`, expected a boolean"
    );
    assert_eq!(
        with("\"channels\": 2,", ""),
        "missing field `channels`"
    );
    assert_eq!(
        shape_error(&TINY_LSTM.replace("\"num_layers\": 1", "\"n\": 1")),
        "missing field `num_layers`"
    );
}

/// The complaint about a value is the one that `serde_json` makes of it.
#[test]
fn complaints_are_worded_as_serde_json_words_them() {
    let values = [
        "null", "true", "false", "0", "7", "-3", "2.5", "-0.0", "1e300", "1.5e-7",
        "18446744073709551615", "-9223372036854775808", "1e16", "123456789012345680.0",
        "\"a\\\"b\\u0001\\n\u{e9}\"", "\"\"", "[1]", "[]", "{}", "{\"a\": 1}", "[\"x\"]", "[1.5]",
        "[-1]", "[null]", "[true, 1]",
    ];
    let array = |field: &str, text: &str| {
        let head = r#""input_size": 1, "condition_size": 1, "channels": 1, "dilations": [1],
            "activation": "Tanh""#;
        let all = format!("{{{head}, \"{field}\": {text}}}");
        RawLayerArrayConfig::from_json(&json(&all)).err()
    };
    let file = |field: &str, text: &str| {
        let all = format!(
            r#"{{"version": "0", "architecture": "LSTM", "weights": [], "{field}": {text},
                "config": {{"input_size": 1, "hidden_size": 1, "num_layers": 1}}}}"#
        );
        match NamModel::from_json(&json(&all)) {
            Err(JsonError::Shape(m)) => Some(m),
            Err(other) => panic!("{other:?}"),
            Ok(_) => None,
        }
    };
    for text in values {
        let v: serde_json::Value = serde_json::from_str(text).unwrap();
        let words = |e: serde_json::Error| e.to_string();
        let size = serde_json::from_value::<usize>(v.clone()).err().map(words);
        assert_eq!(array("channels", text), size);
        let maybe = serde_json::from_value::<Option<usize>>(v.clone()).err().map(words);
        assert_eq!(array("bottleneck", text), maybe);
        let sizes = serde_json::from_value::<Vec<usize>>(v.clone()).err().map(words);
        assert_eq!(array("dilations", text), sizes);
        let some = serde_json::from_value::<Option<Vec<usize>>>(v.clone()).err().map(words);
        assert_eq!(array("kernel_sizes", text), some);
        let flag = serde_json::from_value::<Option<bool>>(v.clone()).err().map(words);
        assert_eq!(array("gated", text), flag);
        let string = serde_json::from_value::<String>(v.clone()).err().map(words);
        assert_eq!(file("version", text), string);
        let numbers = serde_json::from_value::<Vec<f32>>(v.clone()).err().map(words);
        assert_eq!(file("weights", text), numbers);
        let rate = serde_json::from_value::<Option<f64>>(v.clone()).err().map(words);
        assert_eq!(file("sample_rate", text), rate);
    }
}

#[test]
fn the_first_wrong_field_is_named() {
    // In a file, the first in the text; in a config, the first by name; a wrong type
    // before anything that is missing.
    let with = |config: &str| {
        shape_error(&format!(
            r#"{{"version": "0", "architecture": "WaveNet", "weights": [], "config": {config}}}"#
        ))
    };
    assert_eq!(
        shape_error(r#"{"weights": 1, "version": 2}"#),
        "invalid type: integer `1`, expected a sequence at line 1 column 13"
    );
    assert_eq!(
        shape_error(r#"{"version": 2, "weights": 1}"#),
        "invalid type: integer `2`, expected a string at line 1 column 13"
    );
    assert_eq!(
        with(r#"{"layers": 1, "in_channels": "x", "head_scale": 0.5}"#),
        "invalid type: string \"x\", expected usize"
    );
    assert_eq!(
        with(r#"{"layers": [7], "head_scale": 0.5}"#),
        "invalid type: integer `7`, expected struct RawLayerArrayConfig"
    );
    assert_eq!(
        with(r#"{"in_channels": []}"#),
        "invalid type: sequence, expected usize"
    );
    assert_eq!(with("{}"), "missing field `layers`");
}

#[test]
fn wrong_submodels_are_named() {
    let with = |config: &str| {
        shape_error(&format!(
            r#"{{"version": "0", "architecture": "SlimmableContainer", "weights": [],
                "config": {config}}}"#
        ))
    };
    assert_eq!(with("{}"), "missing field `submodels`");
    assert_eq!(
        with("[]"),
        "invalid length 0, expected struct SlimmableConfig with 1 element"
    );
    assert_eq!(
        with(r#"{"submodels": null}"#),
        "invalid type: null, expected a sequence"
    );
    assert_eq!(
        with(r#"{"submodels": [{"max_value": "x"}]}"#),
        "invalid type: string \"x\", expected f32"
    );
    // What the model holds is looked at before anything that is missing.
    assert_eq!(
        with(r#"{"submodels": [{"model": {"version": 1}}]}"#),
        "invalid type: integer `1`, expected a string"
    );
    assert_eq!(
        with(&format!(r#"{{"submodels": [{{"model": {TINY_LSTM}}}]}}"#)),
        "missing field `max_value`"
    );
    assert_eq!(
        with(r#"{"submodels": [{"max_value": 0.5}]}"#),
        "missing field `model`"
    );
}

#[test]
fn a_known_name_stands_once_in_a_file() {
    assert_eq!(
        unplaced(shape_error(&MINIMAL_WAVENET.replace(
            "\"version\": \"0.5.4\",",
            "\"version\": \"0.5.4\", \"version\": \"0.5.4\","
        ))),
        "duplicate field `version`"
    );
    // Names are compared as they read, not as they are written.
    assert_eq!(
        unplaced(shape_error(&MINIMAL_WAVENET.replace(
            "\"version\": \"0.5.4\",",
            "\"version\": \"0.5.4\", \"\\u0076ersion\": \"0.5.4\","
        ))),
        "duplicate field `version`"
    );
    // An unknown name may stand there twice, and so may any name deeper down.
    let plain = NamModel::from_json_str(MINIMAL_WAVENET).unwrap();
    let twice = NamModel::from_json_str(
        &MINIMAL_WAVENET
            .replace("\"version\"", "\"x\": 1, \"x\": 2, \"version\"")
            .replace("\"channels\": 2", "\"channels\": 7, \"channels\": 2"),
    )
    .unwrap();
    assert_eq!(format!("{plain:?}"), format!("{twice:?}"));
}

#[test]
fn unknown_values_are_skipped_whatever_they_hold() {
    let plain = NamModel::from_json_str(MINIMAL_WAVENET).unwrap();
    let deep = format!("{}{}", "[".repeat(400), "]".repeat(400));
    for odd in ["1e999", &deep, "\"\\\"} ,\"", "{\"version\": 1}"] {
        let text = MINIMAL_WAVENET.replace("\"version\"", &format!("\"x\": {odd}, \"version\""));
        let model = NamModel::from_json_str(&text).unwrap();
        assert_eq!(format!("{plain:?}"), format!("{model:?}"));
        // Not so the value of a known name.
        let known = MINIMAL_WAVENET.replace("\"weights\"", &format!("\"metadata\": {odd}, \"weights\""));
        let read = NamModel::from_json_str(&known);
        if odd == "1e999" || odd.starts_with('[') {
            assert!(matches!(read, Err(Error::Json(JsonError::Syntax(_)))));
        } else {
            assert!(read.is_ok());
        }
    }
}

#[test]
fn known_values_may_nest_as_deep_as_a_document() {
    // 128 levels, of which the file itself is one.
    let with = |depth: usize| {
        let deep = format!("{}{}", "[".repeat(depth), "]".repeat(depth));
        MINIMAL_WAVENET.replace("\"weights\"", &format!("\"metadata\": {deep}, \"weights\""))
    };
    assert!(NamModel::from_json_str(&with(126)).is_ok());
    assert!(Json::parse(&with(126)).is_ok());
    assert!(NamModel::from_json_str(&with(127)).is_err());
    assert!(Json::parse(&with(127)).is_err());
}

#[test]
fn text_around_an_object_is_refused() {
    let bad = [
        format!("{MINIMAL_WAVENET} x"),
        format!("{MINIMAL_WAVENET}{MINIMAL_WAVENET}"),
        MINIMAL_WAVENET.replace("\"version\":", "\"version\""),
        MINIMAL_WAVENET.replace("\"version\"", "version"),
        MINIMAL_WAVENET.replace("\"version\"", ", \"version\""),
        "{,}".to_string(),
        "{\"version\": \"0\",}".to_string(),
        String::new(),
    ];
    for text in &bad {
        match NamModel::from_json_str(text) {
            Err(Error::Json(JsonError::Syntax(m))) => {
                assert_eq!(m, Json::parse(text).unwrap_err());
            }
            other => panic!("expected a syntax error, got {other:?}"),
        }
    }
    assert!(NamModel::from_json_str(&format!(" \n\t\r{MINIMAL_WAVENET}\r\n ")).is_ok());
}

#[test]
fn inconsistent_layer_arrays_are_named() {
    let with = |from: &str, to: &str| complaint(&MINIMAL_WAVENET.replace(from, to));
    assert_eq!(
        with("\"kernel_size\": 3,", "\"kernel_size\": 3, \"kernel_sizes\": [3, 3],"),
        "layer-array specifies both kernel_size and kernel_sizes"
    );
    assert_eq!(
        with("\"kernel_size\": 3,", ""),
        "layer-array specifies neither kernel_size nor kernel_sizes"
    );
    assert_eq!(
        with("\"kernel_size\": 3,", "\"kernel_sizes\": [3, 3, 3],"),
        "kernel_sizes length 3 != number of layers 2"
    );
    assert_eq!(with("[1, 2]", "[]"), "layer-array has no dilations");
    assert_eq!(
        with("\"Tanh\"", "[\"Tanh\"]"),
        "activation list length 1 != number of layers 2"
    );
    assert_eq!(
        with("\"head_size\": 1,", ""),
        "layer-array missing head_size (and no head object)"
    );
    assert_eq!(
        with("\"head_size\": 1,", "\"head\": {\"kernel_size\": 1},"),
        "layer head missing out_channels"
    );
    assert_eq!(
        with("\"head_size\": 1,", "\"head\": {\"out_channels\": 1},"),
        "layer head missing kernel_size"
    );
    assert_eq!(
        with("\"gated\": false", "\"gating_mode\": 3"),
        "gating_mode is neither a string nor a list"
    );
    assert_eq!(
        with("\"gated\": false", "\"gating_mode\": [\"gated\", 3]"),
        "gating_mode entry is not a string"
    );
    assert_eq!(
        with("\"gated\": false", "\"gating_mode\": [\"gated\"]"),
        "gating_mode list length 1 != number of layers 2"
    );
    assert_eq!(
        with("\"gated\": false", "\"gating_mode\": \"w\\\"at\""),
        "unknown gating_mode: \"w\\\"at\""
    );
    assert_eq!(
        with("\"gated\": false", "\"secondary_activation\": [null]"),
        "secondary_activation list length 1 != 2"
    );
}

#[test]
fn inconsistent_post_stack_heads_are_named() {
    let with = |head: &str| {
        complaint(&MINIMAL_WAVENET.replace("\"head\": null", &format!("\"head\": {head}")))
    };
    assert_eq!(with("{}"), "post-stack head missing channels");
    assert_eq!(
        with(r#"{"channels": 1}"#),
        "post-stack head missing out_channels"
    );
    assert_eq!(
        with(r#"{"channels": 1, "out_channels": 1}"#),
        "post-stack head missing kernel_sizes"
    );
    assert_eq!(
        with(r#"{"channels": 1, "out_channels": 1, "kernel_sizes": ["x"]}"#),
        "kernel_sizes entry not an int"
    );
}

#[test]
fn unknown_gating_mode_is_quoted() {
    assert_eq!(
        GatingMode::from_name("a\tb").unwrap_err(),
        "unknown gating_mode: \"a\\tb\""
    );
}

#[test]
fn error_messages_are_exact() {
    let err = NamModel::from_json_str(&MINIMAL_WAVENET.replace("\"WaveNet\"", "\"Transformer\""))
        .unwrap_err();
    assert_eq!(
        err.message(),
        "failed to parse .nam JSON: unsupported model architecture: \"Transformer\""
    );
    assert_eq!(
        NamModel::from_json_str("{}").unwrap_err().message(),
        "failed to parse .nam JSON: missing field `version` at line 1 column 2"
    );
    assert_eq!(
        Error::UnsupportedArchitecture("L\"".to_string()).message(),
        "unsupported model architecture: \"L\\\"\""
    );
    assert_eq!(
        Error::UnsupportedActivation("Softsign".to_string()).message(),
        "unsupported activation function: \"Softsign\""
    );
    assert_eq!(
        Error::UnsupportedFeature("x".to_string()).message(),
        "unsupported model feature: x"
    );
    assert_eq!(
        Error::WeightCountMismatch {
            expected: 1203,
            found: 0
        }
        .message(),
        "weight count mismatch: config implies 1203 weights, file has 0"
    );
    assert_eq!(
        Error::ConfigTooLarge.message(),
        "model config dimensions are too large to be valid"
    );
}

#[test]
fn unknown_members_are_ignored() {
    let plain = NamModel::from_json_str(MINIMAL_WAVENET).unwrap();
    let more = NamModel::from_json_str(
        &MINIMAL_WAVENET
            .replace("\"version\"", "\"future\": {\"a\": [1]}, \"version\"")
            .replace("\"head_size\"", "\"slimmable\": true, \"head_size\""),
    )
    .unwrap();
    assert_eq!(format!("{plain:?}"), format!("{more:?}"));
}

#[test]
fn metadata_fields_stand_alone() {
    // A junk value in one field leaves every other field as it was.
    let whole = NamModel::from_json_str(WITH_METADATA).unwrap().metadata_typed();
    let hurt = NamModel::from_json_str(
        &WITH_METADATA.replace("\"gain\": 0.824", "\"gain\": [1, 2]"),
    )
    .unwrap()
    .metadata_typed();
    assert_eq!(hurt.gain, None);
    assert_eq!(hurt.loudness, whole.loudness);
    assert_eq!(hurt.date, whole.date);
    assert_eq!(hurt.trainer, whole.trainer);
    assert_eq!(hurt.gear_model, whole.gear_model);
}
