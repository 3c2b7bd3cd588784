//! Verified core of a small-GPU language-model engine.
//!
//! Models and sidecars are read from and written to bytes, text is turned into tokens
//! and back, weights are packed, and every piece of device work is planned as data. The
//! program around the library runs the plans, reads files and does the arithmetic in
//! floating point; numbers cross over as bit patterns.

pub mod adapter;
pub mod batch;
pub mod batched;
pub mod bench;
pub mod bytes;
pub mod calib;
pub mod channels;
pub mod checkpoint;
pub mod cli;
pub mod decode;
pub mod engine;
pub mod export;
pub mod floatbits;
pub mod gptq;
pub mod kernel;
pub mod launch;
pub mod layout;
pub mod marks;
pub mod matrix;
pub mod meaning;
pub mod model;
pub mod names;
pub mod nvcc;
pub mod opening;
pub mod order;
pub mod plans;
pub mod pretoken;
pub mod quant;
pub mod random;
pub mod reference;
pub mod replay;
pub mod sample;
pub mod setup;
pub mod smooth;
pub mod suite;
pub mod text;
pub mod tokenizer;
pub mod upload;
