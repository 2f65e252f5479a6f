//! Typed, strided tensors over shared byte buffers: import from and export to
//! raw bytes, slicing, reshaping and concatenation, each with a proved contract.

pub mod dtype;
pub mod error;
pub mod integer;
pub mod joining;
pub mod provider;
pub mod shape;
pub mod slicing;
pub mod tensor;

pub use crate::joining::concatenate;
pub use crate::provider::{is_cuda_available, register_cuda};
pub use crate::slicing::slice;
pub use crate::tensor::{from_binary, reshape, to_binary, Tensor};
