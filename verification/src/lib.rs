//! Integer frequency tables for a range coder, quantized from sums of
//! probability density functions over the 256 byte symbols.
//!
//! Weights are handed over as IEEE 754 binary64 bit patterns, so that every
//! decision and every count is computed, and proved, in integer arithmetic:
//! [`weight`] splits a pattern into sign, significand and scale,
//! [`quantize`] turns 256 weights and their total into a
//! [`QuantizedPDFSet`], and [`table`] answers the queries a coder makes of
//! it. [`laws`] states what holds of every table.

pub mod error;
pub mod laws;
pub mod quantize;
pub mod table;
pub mod weight;

pub use error::ModelError;
pub use table::QuantizedPDFSet;
