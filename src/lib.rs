//! Decoding of one line of board telemetry (memory, swap, CPU cores,
//! accelerator engines and thermal sensors) into a structured snapshot.
pub mod text;
pub mod number;
pub mod telemetry;
pub mod decoder;
pub mod laws;

pub use decoder::decode;
pub use telemetry::{CpuCore, Engine, Ram, Swap, Telemetry, Thermal};
