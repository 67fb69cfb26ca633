//! A verified runtime for note-sequence networks: a score in, a way of playing
//! it out.
//!
//! A model is a container of named tensors. Loading one checks every shape and
//! yields a [`PerformerRuntime`], which runs a gated recurrent network over a
//! sequence of notes, forwards and optionally backwards, and reads one linear
//! head per output off the result.
//!
//! The number type is a parameter. [`Arithmetic`] lists the operations the
//! network performs and promises nothing of them, so the contracts say which
//! operation is applied to which values and in what order, whatever the
//! operations round to.

// What only specifications use looks unused once they are erased.
#![allow(unused_imports)]

pub mod arithmetic;
pub mod container;
pub mod error;
pub mod generator_laws;
pub mod gru;
pub mod laws;
pub mod layout;
pub mod lcg;
pub mod loader;
pub mod loading_laws;
pub mod network_laws;
pub mod performer;
pub mod sum_laws;
pub mod text;
pub mod text_laws;
mod uniqueness;

pub use arithmetic::Arithmetic;
pub use container::{FbmxModel, PerformerHparams, Tensor, one};
pub use error::FbmxError;
pub use gru::{Direction, GATES};
pub use lcg::Lcg;
pub use performer::{ACCENT_MODEL_TYPE, PERFORMER_MODEL_TYPE, PerformerRuntime};
