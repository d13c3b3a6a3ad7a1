//! What can go wrong while a model is loaded or built.

use vstd::prelude::*;
use crate::text::{debug_text, decimal, Text};

verus! {

/// Why a text is not a `.nam` document.
#[derive(Debug)]
pub enum JsonError {
    /// The text is not JSON; the parser's complaint.
    Syntax(String),
    /// A field is missing, stands there twice, or holds a value of the wrong type; which,
    /// and what was expected.
    Shape(String),
    /// Every field has its type, but together they do not make sense.
    Content(String),
}

/// Errors produced when loading or building a NAM model.
#[derive(Debug)]
pub enum Error {
    /// The `.nam` JSON could not be parsed.
    Json(JsonError),
    /// The model's `architecture` field is not one this crate can run.
    UnsupportedArchitecture(String),
    /// A layer's `activation` field names a function this crate does not implement.
    UnsupportedActivation(String),
    /// A `.nam` config uses a feature this crate does not implement (e.g.
    /// multi-channel input, a post-stack head with more than one output channel,
    /// mixed gating modes within one layer array, or an empty container). Rejected
    /// explicitly rather than silently mis-run.
    UnsupportedFeature(String),
    /// The flat `weights` array did not contain the number of values the `config`
    /// implies (corrupt file, or a config/weights mismatch).
    WeightCountMismatch {
        /// Number of weights the `config` implies the file must contain.
        expected: usize,
        /// Number of weights actually present in the file's flat `weights` array.
        found: usize,
    },
    /// The `config`'s declared dimensions are so large that the model cannot be
    /// built. Indicates a corrupt or adversarial file rather than a real capture.
    ConfigTooLarge,
}

/// The mathematical content of a [`JsonError`].
pub enum JsonFailure {
    Syntax(Seq<char>),
    Shape(Seq<char>),
    Content(Seq<char>),
}

/// The mathematical content of an [`Error`].
pub enum Failure {
    Json(JsonFailure),
    UnsupportedArchitecture(Seq<char>),
    UnsupportedActivation(Seq<char>),
    UnsupportedFeature(Seq<char>),
    WeightCountMismatch { expected: nat, found: nat },
    ConfigTooLarge,
}

impl JsonError {
    pub open spec fn view(&self) -> JsonFailure {
        match self {
            JsonError::Syntax(s) => JsonFailure::Syntax(s@),
            JsonError::Shape(s) => JsonFailure::Shape(s@),
            JsonError::Content(s) => JsonFailure::Content(s@),
        }
    }
}

impl Error {
    pub open spec fn view(&self) -> Failure {
        match self {
            Error::Json(e) => Failure::Json(e@),
            Error::UnsupportedArchitecture(s) => Failure::UnsupportedArchitecture(s@),
            Error::UnsupportedActivation(s) => Failure::UnsupportedActivation(s@),
            Error::UnsupportedFeature(s) => Failure::UnsupportedFeature(s@),
            Error::WeightCountMismatch { expected, found } => Failure::WeightCountMismatch {
                expected: *expected as nat,
                found: *found as nat,
            },
            Error::ConfigTooLarge => Failure::ConfigTooLarge,
        }
    }
}

impl JsonFailure {
    /// What is wrong, in words.
    pub open spec fn message(self) -> Seq<char> {
        match self {
            JsonFailure::Syntax(s) => s,
            JsonFailure::Shape(s) => s,
            JsonFailure::Content(s) => s,
        }
    }
}

impl Failure {
    /// What is wrong, in words.
    pub open spec fn message(self) -> Seq<char> {
        match self {
            Failure::Json(e) => "failed to parse .nam JSON: "@ + e.message(),
            Failure::UnsupportedArchitecture(s) => "unsupported model architecture: "@
                + debug_text(s),
            Failure::UnsupportedActivation(s) => "unsupported activation function: "@
                + debug_text(s),
            Failure::UnsupportedFeature(s) => "unsupported model feature: "@ + s,
            Failure::WeightCountMismatch { expected, found } =>
            "weight count mismatch: config implies "@ + decimal(expected) + " weights, file has "@
                + decimal(found),
            Failure::ConfigTooLarge => "model config dimensions are too large to be valid"@,
        }
    }
}

impl JsonError {
    /// What is wrong, in words.
    pub fn message(&self) -> (r: String)
        ensures
            r@ == self@.message(),
    {
        match self {
            JsonError::Syntax(s) => s.clone(),
            JsonError::Shape(s) => s.clone(),
            JsonError::Content(s) => s.clone(),
        }
    }
}

impl Error {
    /// What is wrong, in words.
    pub fn message(&self) -> (r: String)
        ensures
            r@ == self@.message(),
    {
        let text = match self {
            Error::Json(e) => Text::new().and("failed to parse .nam JSON: ").and(
                e.message().as_str(),
            ),
            Error::UnsupportedArchitecture(s) => Text::new().and(
                "unsupported model architecture: ",
            ).and_quoted(s.as_str()),
            Error::UnsupportedActivation(s) => Text::new().and(
                "unsupported activation function: ",
            ).and_quoted(s.as_str()),
            Error::UnsupportedFeature(s) => Text::new().and("unsupported model feature: ").and(
                s.as_str(),
            ),
            Error::WeightCountMismatch { expected, found } => Text::new().and(
                "weight count mismatch: config implies ",
            ).and_number(*expected).and(" weights, file has ").and_number(*found),
            Error::ConfigTooLarge => Text::new().and(
                "model config dimensions are too large to be valid",
            ),
        };
        let r = text.done();
        assert(r@ =~= self@.message());
        r
    }
}

} // verus!
