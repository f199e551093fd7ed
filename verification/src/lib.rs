//! Memory-and-retrieval core of an emergent-narrative engine.
//!
//! A tagged, weighted associative graph stores durable facts; a
//! spreading-activation pass turns a small set of trigger tags into an
//! energy field over the tag space; a scoring stage turns that field into
//! a ranked fact subset, projected together with world and character
//! summaries into a compact context bundle.
//!
//! All scalar quantities (weights, importances, energies) are fixed-point
//! values in millionths, so every operation has an exact integer meaning.

pub mod entities;
pub mod events;
pub mod fact;
pub mod fixed;
pub mod graph;
pub mod mechanics;
pub mod activation;
pub mod assembler;
pub mod context;
pub mod ids;
pub mod strutil;
pub mod tag;
pub mod world;

pub use fixed::UNIT;
