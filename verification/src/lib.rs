//! Verified kernels of two small text utilities: a byte-stream decorator
//! (line numbering, end-of-line marking, blank-line squeezing) and a
//! printf-style floating-point format-string validator.

pub mod args;
pub mod decorate;
pub mod formats;
pub mod scan;
