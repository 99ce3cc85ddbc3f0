//! A verified dataset-sampling, batching, and training-orchestration layer for
//! a fixed-size image-classification task (28x28 grayscale digits, 10 classes).
//!
//! The numeric compute engine (tensors, autodiff, optimizer steps) is an
//! external collaborator reached through narrow interfaces; this crate owns and
//! verifies the deterministic subsampling, shuffled batch production, metric
//! aggregation, early stopping, and configuration persistence around it.

pub mod batch;
pub mod config;
pub mod data;
pub mod item;
pub mod loader;
pub mod sample;
pub mod training;

pub use item::Item;
