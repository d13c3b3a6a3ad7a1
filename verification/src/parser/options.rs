//! Reading the small blocks of a layer: activations, gating modes, 1x1 convolutions and
//! FiLM.

use vstd::prelude::*;
use crate::json::{number_of, seen, Json, JsonNumber, JsonTree};
use crate::model::{
    ActivationChoice, ActivationSpec, FilmConfig, GatingMode, Head1x1Config, Layer1x1Config,
};
use crate::text::{debug_text, same, Text};

verus! {

// ---- Activations and gating ----

/// The activation that a value asks for: a bare name, or an object with a `type` and
/// an optional numeric `negative_slope`.
pub open spec fn activation_of(v: JsonTree) -> ActivationChoice {
    match v {
        JsonTree::String(s) => ActivationChoice::Named { name: s, negative_slope: None },
        JsonTree::Object(_) => match v.get("type"@) {
            Some(JsonTree::String(t)) => match v.get("negative_slope"@) {
                None => ActivationChoice::Named { name: t, negative_slope: None },
                Some(JsonTree::Null) => ActivationChoice::Named { name: t, negative_slope: None },
                Some(JsonTree::Number(n)) => ActivationChoice::Named {
                    name: t,
                    negative_slope: Some(n),
                },
                Some(_) => ActivationChoice::Unsupported(v),
            },
            _ => ActivationChoice::Unsupported(v),
        },
        _ => ActivationChoice::Unsupported(v),
    }
}

impl ActivationSpec {
    /// Read an activation. Never fails: a shape that is not modeled is kept as
    /// [`ActivationSpec::Unsupported`].
    pub fn from_json(v: &Json) -> (r: ActivationSpec)
        ensures
            r@ == activation_of(v@),
    {
        match v {
            Json::String(s) => ActivationSpec::Named { name: s.clone(), negative_slope: None },
            Json::Object(_) => match v.get("type") {
                Some(Json::String(t)) => match v.get("negative_slope") {
                    None => ActivationSpec::Named { name: t.clone(), negative_slope: None },
                    Some(Json::Null) => ActivationSpec::Named {
                        name: t.clone(),
                        negative_slope: None,
                    },
                    Some(Json::Number(n)) => ActivationSpec::Named {
                        name: t.clone(),
                        negative_slope: Some(number_of(n)),
                    },
                    Some(_) => ActivationSpec::Unsupported(v.clone()),
                },
                _ => ActivationSpec::Unsupported(v.clone()),
            },
            _ => ActivationSpec::Unsupported(v.clone()),
        }
    }

    /// A `Named{"Sigmoid"}` activation, the gating secondary default.
    pub(crate) fn default_sigmoid() -> (r: ActivationSpec)
        ensures
            r@ == sigmoid_choice(),
    {
        ActivationSpec::Named { name: "Sigmoid".to_owned(), negative_slope: None }
    }
}

/// The gating secondary default.
pub open spec fn sigmoid_choice() -> ActivationChoice {
    ActivationChoice::Named { name: "Sigmoid"@, negative_slope: None }
}

/// The complaint that a gating mode has no such name.
pub open spec fn gating_complaint(s: Seq<char>) -> Seq<char> {
    "unknown gating_mode: "@ + debug_text(s)
}

/// The gating mode of that name, or the complaint that there is none.
pub open spec fn gating_named(s: Seq<char>) -> Result<GatingMode, Seq<char>> {
    if s == "none"@ {
        Ok(GatingMode::Ungated)
    } else if s == "gated"@ {
        Ok(GatingMode::Gated)
    } else if s == "blended"@ {
        Ok(GatingMode::Blended)
    } else {
        Err(gating_complaint(s))
    }
}

/// The mathematical content of an outcome with a message.
pub open spec fn said<T>(r: Result<T, String>) -> Result<T, Seq<char>> {
    match r {
        Ok(v) => Ok(v),
        Err(m) => Err(m@),
    }
}

impl GatingMode {
    /// Parse a gating-mode name (`"none"`/`"gated"`/`"blended"`).
    pub fn from_name(s: &str) -> (r: Result<GatingMode, String>)
        ensures
            said(r) == gating_named(s@),
    {
        if same(s, "none") {
            Ok(GatingMode::Ungated)
        } else if same(s, "gated") {
            Ok(GatingMode::Gated)
        } else if same(s, "blended") {
            Ok(GatingMode::Blended)
        } else {
            let text = Text::new().and("unknown gating_mode: ").and_quoted(s);
            assert(text@ =~= gating_complaint(s@));
            Err(text.done())
        }
    }
}

// ---- 1x1 and FiLM blocks ----

/// A flag of an optional block, or `default` where it is not given as a boolean.
pub open spec fn flag(v: JsonTree, key: Seq<char>, default: bool) -> bool {
    match v.get(key) {
        Some(JsonTree::Bool(b)) => b,
        _ => default,
    }
}

/// A size of an optional block, where it is given as an integer from zero upwards.
pub open spec fn size(v: JsonTree, key: Seq<char>) -> Option<usize> {
    match v.get(key) {
        Some(JsonTree::Number(JsonNumber::PosInt(u))) => Some(u as usize),
        _ => None,
    }
}

/// A group count: one where it is not given.
pub open spec fn groups(v: JsonTree) -> usize {
    match size(v, "groups"@) {
        Some(n) => n,
        None => 1,
    }
}

pub(crate) fn read_flag(v: &Json, key: &str, default: bool) -> (r: bool)
    ensures
        r == flag(v@, key@, default),
{
    match v.get(key) {
        Some(Json::Bool(b)) => *b,
        _ => default,
    }
}

pub(crate) fn read_size(v: &Json, key: &str) -> (r: Option<usize>)
    ensures
        r == size(v@, key@),
{
    let n = match v.get(key) {
        Some(x) => x.as_u64(),
        None => None,
    };
    match n {
        Some(u) => Some(
            #[verifier::truncate]
            (u as usize),
        ),
        None => None,
    }
}

pub(crate) fn read_groups(v: &Json) -> (r: usize)
    ensures
        r == groups(v@),
{
    match read_size(v, "groups") {
        Some(n) => n,
        None => 1,
    }
}

/// A residual 1x1: active and dense where it is not given otherwise.
pub open spec fn layer1x1_of(v: Option<JsonTree>) -> Layer1x1Config {
    match v {
        None => Layer1x1Config { active: true, groups: 1 },
        Some(o) => Layer1x1Config { active: flag(o, "active"@, true), groups: groups(o) },
    }
}

/// A head 1x1: inactive where it is not given otherwise.
pub open spec fn head1x1_of(v: Option<JsonTree>) -> Head1x1Config {
    match v {
        None => Head1x1Config { active: false, out_channels: None, groups: 1 },
        Some(o) => Head1x1Config {
            active: flag(o, "active"@, false),
            out_channels: size(o, "out_channels"@),
            groups: groups(o),
        },
    }
}

/// The inactive FiLM block.
pub open spec fn film_inactive() -> FilmConfig {
    FilmConfig { active: false, shift: false, groups: 1 }
}

/// A FiLM block: inactive where it is absent or `false`.
pub open spec fn film_of(v: Option<JsonTree>) -> FilmConfig {
    match v {
        None => film_inactive(),
        Some(JsonTree::Bool(false)) => film_inactive(),
        Some(o) => FilmConfig {
            active: flag(o, "active"@, true),
            shift: flag(o, "shift"@, true),
            groups: groups(o),
        },
    }
}

impl Layer1x1Config {
    /// Read a residual 1x1: active and dense where it is not given otherwise.
    pub fn from_json(v: Option<&Json>) -> (r: Layer1x1Config)
        ensures
            r == layer1x1_of(seen(v)),
    {
        match v {
            None => Layer1x1Config { active: true, groups: 1 },
            Some(o) => Layer1x1Config {
                active: read_flag(o, "active", true),
                groups: read_groups(o),
            },
        }
    }
}

impl Head1x1Config {
    /// Read a head 1x1: inactive where it is not given otherwise.
    pub fn from_json(v: Option<&Json>) -> (r: Head1x1Config)
        ensures
            r == head1x1_of(seen(v)),
    {
        match v {
            None => Head1x1Config { active: false, out_channels: None, groups: 1 },
            Some(o) => Head1x1Config {
                active: read_flag(o, "active", false),
                out_channels: read_size(o, "out_channels"),
                groups: read_groups(o),
            },
        }
    }
}

impl FilmConfig {
    /// The inactive block (absent key or explicit `false`).
    pub fn inactive() -> (r: FilmConfig)
        ensures
            r == film_inactive(),
    {
        FilmConfig { active: false, shift: false, groups: 1 }
    }

    /// Read a FiLM block: inactive where it is absent or `false`.
    pub fn from_json(v: Option<&Json>) -> (r: FilmConfig)
        ensures
            r == film_of(seen(v)),
    {
        match v {
            None => FilmConfig::inactive(),
            Some(Json::Bool(false)) => FilmConfig::inactive(),
            Some(o) => FilmConfig {
                active: read_flag(o, "active", true),
                shift: read_flag(o, "shift", true),
                groups: read_groups(o),
            },
        }
    }
}

} // verus!
