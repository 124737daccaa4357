//! Sorting algorithms that record every step they take, so that each step can
//! be shown to a learner, together with the bookkeeping (comparisons, swaps,
//! calls) that the visualizer displays.

pub mod data;
pub mod display;
pub mod order;
pub mod recorder;
pub mod sorter;
pub mod utils;
