//! Pointwise activation functions used by WaveNet layers and the gating module.

use vstd::prelude::*;
use crate::arith::{Arith, Expr, Scalar};
use crate::error::{Error, Failure};
use crate::json::{json_text, JsonNumber};
use crate::model::{ActivationChoice, ActivationSpec};
use crate::text::{same, Text};

verus! {

/// NAM's default LeakyReLU slope, one hundredth, as the bit pattern of a double.
pub const DEFAULT_SLOPE: u64 = 0x3F847AE147AE147B;

/// Pointwise activation applied after the dilated conv and mix-in.
#[derive(Debug, Clone, Copy, PartialEq, Eq, Structural)]
pub enum Activation {
    Tanh,
    Relu,
    Sigmoid,
    /// LeakyReLU with the given negative slope (`x > 0 ? x : slope*x`).
    LeakyRelu(JsonNumber),
}

/// The activation that a file asks for, or why it cannot be had.
pub open spec fn resolved(spec: ActivationChoice) -> Result<Activation, Failure> {
    match spec {
        ActivationChoice::Named { name, negative_slope } => if name == "Tanh"@ {
            Ok(Activation::Tanh)
        } else if name == "ReLU"@ {
            Ok(Activation::Relu)
        } else if name == "Sigmoid"@ {
            Ok(Activation::Sigmoid)
        } else if name == "LeakyReLU"@ {
            Ok(
                Activation::LeakyRelu(
                    match negative_slope {
                        Some(s) => s,
                        None => JsonNumber::Float(DEFAULT_SLOPE),
                    },
                ),
            )
        } else {
            Err(Failure::UnsupportedActivation(name))
        },
        ActivationChoice::Unsupported(v) => Err(
            Failure::UnsupportedFeature("activation: "@ + json_text(v.ordered())),
        ),
    }
}

impl Activation {
    /// What the activation makes of `x`.
    pub open spec fn of<N>(self, x: Expr<N>) -> Expr<N> {
        match self {
            Activation::Tanh => x.tanh(),
            Activation::Relu => x.relu(),
            Activation::Sigmoid => x.sigmoid(),
            Activation::LeakyRelu(slope) => x.leaky(Expr::Constant(slope)),
        }
    }

    /// Resolve the activation that a file asks for.
    pub fn from_spec(spec: &ActivationSpec) -> (r: Result<Activation, Error>)
        ensures
            match r {
                Ok(a) => resolved(spec@) == Ok::<Activation, Failure>(a),
                Err(e) => resolved(spec@) == Err::<Activation, Failure>(e@),
            },
    {
        match spec {
            ActivationSpec::Named { name, negative_slope } => {
                let n: &str = name.as_str();
                if same(n, "Tanh") {
                    Ok(Activation::Tanh)
                } else if same(n, "ReLU") {
                    Ok(Activation::Relu)
                } else if same(n, "Sigmoid") {
                    Ok(Activation::Sigmoid)
                } else if same(n, "LeakyReLU") {
                    match negative_slope {
                        Some(s) => Ok(Activation::LeakyRelu(*s)),
                        None => Ok(Activation::LeakyRelu(JsonNumber::Float(DEFAULT_SLOPE))),
                    }
                } else {
                    Err(Error::UnsupportedActivation(name.clone()))
                }
            },
            ActivationSpec::Unsupported(v) => {
                let text = Text::new().and("activation: ").and(v.to_text().as_str()).done();
                assert(text@ =~= "activation: "@ + json_text(v@.ordered()));
                Err(Error::UnsupportedFeature(text))
            },
        }
    }

    /// Apply the activation to one number.
    pub fn apply<A: Arith>(self, x: Scalar<A>) -> (r: Scalar<A>)
        ensures
            r@ == self.of(x@),
    {
        match self {
            Activation::Tanh => x.tanh(),
            Activation::Relu => x.relu(),
            Activation::Sigmoid => x.sigmoid(),
            Activation::LeakyRelu(slope) => x.leaky(Scalar::constant(slope)),
        }
    }
}

} // verus!
