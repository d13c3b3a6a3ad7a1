//! Inference for [Neural Amp Modeler] (NAM) `.nam` models, verified.
//!
//! The crate reads the JSON text of a `.nam` file and runs its neural-network forward
//! pass, a whole buffer at a time (a WaveNet uses a block kernel) or one sample at a
//! time.
//!
//! - [`json`] holds a JSON document as plain data, [`document`] takes the text of a file
//!   apart, [`parser`] reads a [`NamModel`] from it, and [`metadata`] its descriptive
//!   block.
//! - [`model`] is the file representation: the configuration and the flat weight blob.
//! - [`loading`] checks a configuration, deals out its weights and builds an engine.
//! - [`wavenet`], [`lstm`] and [`model_runtime`] are the engines. [`Model`] dispatches
//!   on the architecture that the file declares.
//! - [`engine`] is the mathematics of the engines: machines that take a sample, a state
//!   and give a sample, a state. [`signal`] says how such machines run over a stream.
//! - [`arith`] is the arithmetic that the engines are generic over. What an engine
//!   computes is stated as the tree of operations that leads from the samples and the
//!   weights to the result.
//! - [`laws`] states what holds of the crate as a whole, and [`laws::numbers`] what holds
//!   of the numbers that come out. [`laws::documents`], [`laws::readings`] and
//!   [`laws::configs`] tie what was read to the file it was read from; [`laws::builds`] and
//!   [`laws::dealing`] tie the network to what was read; [`laws::networks`] and
//!   [`laws::containers`] say what the network does with a sample, and
//!   [`laws::arithmetic`] what its operations are worth.
//!
//! # Warmup and state
//!
//! A WaveNet's first [`Model::receptive_field`] samples are a startup transient, while
//! the dilated stack fills against zero history: feed the model that many silent
//! samples first if the first real block has to be clean. LSTM models begin from the
//! initial state stored in the file, and their receptive field is `0`.
//! [`Model::reset`] clears a model's state back to that starting point; it leaves the
//! active selection of a [`Slimmable`] where it is.
//!
//! # Numbers
//!
//! A file's numbers are kept exactly as the file writes them, as [`json::JsonNumber`]s;
//! an [`arith::Arith`] decides how they are rounded when the engines use them.
//!
//! [Neural Amp Modeler]: https://www.neuralampmodeler.com/

pub mod arith;
pub mod document;
pub mod engine;
pub mod error;
pub mod json;
pub mod laws;
pub mod loading;
pub mod lstm;
pub mod metadata;
pub mod model;
pub mod model_runtime;
pub mod parser;
pub mod reader;
pub mod signal;
pub mod text;
pub mod wavenet;

pub use error::Error;
pub use lstm::Lstm;
pub use metadata::{Date, Metadata};
pub use model::{
    ActivationSpec, FilmConfig, GatingMode, Head1x1Config, Layer1x1Config, LayerArrayConfig,
    LstmConfig, ModelConfig, NamModel, PostStackHeadConfig, SlimmableConfig, SlimmableSubmodel,
    WaveNetConfig, DEFAULT_SAMPLE_RATE,
};
pub use model_runtime::{Model, Slimmable};
pub use wavenet::WaveNet;
