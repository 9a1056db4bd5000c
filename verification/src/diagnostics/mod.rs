pub mod causal_gradient;
pub mod ffi_normalizer;
