//! A small spaced-repetition library: items carry a repetition count, an
//! ease factor and a review interval; a scheduler derives the next state
//! from a recall quality grade, and a session loop drives a batch of due
//! items through a caller-supplied judging step.

pub mod review;
pub mod words;
