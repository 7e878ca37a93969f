//! Kernels of a transformer decoder layer on a tensor processor.
pub mod accuracy;
pub mod activation;
pub mod blocks;
pub mod calm;
pub mod diagnostics;
pub mod engine;
pub mod features;
pub mod footprint;
pub mod layout;
pub mod mlp;
pub mod numbers;
pub mod operands;
pub mod orders;
pub mod output;
pub mod places;
pub mod powers;
pub mod products;
pub mod projection;
pub mod quantize;
pub mod roundings;
pub mod signs;
pub mod tensor;
pub mod zeros;
