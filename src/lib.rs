//! Sorting algorithms decomposed into single observable swaps, and a
//! playback controller that cycles through them on shuffled inputs.
pub mod sort;
pub mod playback;
