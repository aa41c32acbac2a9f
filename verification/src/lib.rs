//! A per-author Markov-chain text model: normalization of raw chat text,
//! splitting into adjacent word pairs, a weighted transition store, and a
//! biased random-walk sentence sampler.

pub mod entities;
pub mod errors;
pub mod generate;
pub mod interface;
pub mod markov;
pub mod model;
mod rng;
pub mod textprocessing;
