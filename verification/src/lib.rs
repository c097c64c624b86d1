//! Verified core of a sentiment-counting service: a label/count document
//! codec, the pure aggregation step, and the dispatcher state machine that
//! drives one classification request through validate, classify, load,
//! increment, and save.

pub mod classifier;
pub mod codec;
pub mod dispatcher;
pub mod digits;
pub mod document;
pub mod errors;
pub mod label;
pub mod store;
