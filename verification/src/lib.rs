//! Verified core of a transformer-style text classifier.
//!
//! The crate covers the parts of the pipeline whose behaviour is stated and
//! proved: tokenization and vocabulary construction, dataset decoding and
//! batching, the head split/concatenate bookkeeping of multi-head attention,
//! shape discipline for the encoder stack, and the integer counting kernels
//! behind evaluation metrics.  Floating-point arithmetic itself (matrix
//! products, softmax, layer statistics, optimizer updates) lives in the
//! unverified driver that instantiates the generic kernels at `f64`.

pub mod config;
pub mod dataset;
pub mod metrics;
pub mod optimizer;
pub mod tensor;
pub mod tokenizer;
pub mod vocab;
