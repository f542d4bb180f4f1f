//! Tag selection engine for a tiling window manager's tag model.
//!
//! A tag selection is a bitmask of up to 32 boolean tags. The engine computes
//! a new selection from the current one, a cycling direction, the number of
//! active tags, and the set of tags that currently contain windows.

pub mod bits;
pub mod client;
pub mod cycle;
pub mod options;
pub mod occupancy;
pub mod output;
