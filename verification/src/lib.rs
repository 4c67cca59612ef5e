//! Verified core of the bursts fireworks visualizer: the terminal grid, the
//! city skyline, the logo overlay, flare streaks and the integer rules of the
//! launch and burst cycle.

pub mod cell;
pub mod geometry;
pub mod logo;
pub mod skyline;
pub mod launch;
pub mod scene;
