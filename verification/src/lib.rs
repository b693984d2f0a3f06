//! Arithmetic coding with adaptive frequency models and interval rescaling
//! (E1/E2/E3), and a bit-packing coder for boolean streams.
//!
//! The encoder and decoder are proved to follow the step-by-step
//! definitions in `coding`, and `roundtrip` proves that decoding what the
//! encoder wrote gives back the message.
pub mod bits;
pub mod model;
pub mod coding;
pub mod encoder;
pub mod decoder;
pub mod binary;
pub mod roundtrip;
pub mod size;

pub use encoder::ArithmeticEncoder;
pub use decoder::ArithmeticDecoder;
pub use model::FrequencyModel;
pub use binary::BinaryArithmeticCoder;
