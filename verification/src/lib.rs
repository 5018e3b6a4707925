//! Scene synthesis for tile-based level-design projects.
//!
//! A project is a flat set of records that refer to each other by uid. This
//! library decides, cycle by cycle, which projects must be processed again,
//! which levels must be present, and what scene each level gives: layers in
//! z-order, chunked tile surfaces, integer-grid cells and entities.

pub mod model;
pub mod seqs;
pub mod tracker;
pub mod selector;
pub mod scene;
pub mod synth;
pub mod lifecycle;
pub mod laws;
pub mod validation;
pub mod cycle;
