//! Cellular automata and falling-sand physics on an unbounded grid, and the
//! simulator that runs them.
pub mod chance;
pub mod chunk;
pub mod life;
pub mod material;
pub mod pacing;
pub mod panel;
pub mod physics;
pub mod picture;
pub mod rule;
pub mod scatter;
pub mod scene;
pub mod simulator;
pub mod stack;
pub mod text;
pub mod theme;
pub mod tick;
pub mod world;
