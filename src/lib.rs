//! Loader and numeric building blocks for transformer checkpoints stored in
//! the GGUF container format.
//!
//! The library reads the container from bytes, decodes quantized tensor
//! payloads into a byte-per-element form with per-block scale factors, keeps a
//! lazily filled tensor cache, selects embedding rows, validates kernel shapes
//! and manages the attention key/value cache. Floating-point arithmetic is left
//! to the caller: values that are floats in the file are carried here as their
//! IEEE-754 bit patterns.
use vstd::prelude::*;

pub mod attention;
pub mod config;
pub mod cpu_features;
pub mod embeddings;
pub mod error;
pub mod io;
pub mod kernels;
pub mod parser;
pub mod store;
pub mod tensor_loader;
pub mod types;

