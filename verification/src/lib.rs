//! Arranges tagged photographs into a slideshow.
//!
//! Vertical pictures are paired into composite slides, horizontal pictures
//! stand alone, and the slides are then ordered greedily so that consecutive
//! slides share tags in a balanced way.

pub mod emit;
pub mod ingest;
pub mod inputs;
pub mod model;
pub mod pairing;
pub mod rater;
pub mod scorer;
pub mod selection;
pub mod show;
pub mod tagset;
pub mod tour;
pub mod usage;
pub mod vocabulary;
