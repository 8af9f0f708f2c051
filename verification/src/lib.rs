//! A point quadtree and a particle simulation over it, in fixed-point
//! arithmetic.
//!
//! Particles are circles that fall under gravity, are held by the walls of
//! a rectangle and push each other apart. Each frame the tree is emptied
//! and filled again with the particles' positions, and the collision
//! resolver asks it for the neighbours of each particle.
//!
//! Coordinates are signed fixed-point numbers with sixteen fractional bits
//! (see [`fixed::ONE`]); `y` grows upward, so the top edge of a rectangle is
//! its largest `y`. Results that leave the range of a coordinate saturate.
//!
//! * [`fixed`], [`vec2`], [`rect`]: numbers, vectors, rectangles.
//! * [`shape`]: the mathematical model of the tree; [`tree_laws`]: what
//!   holds of it.
//! * [`quadtree`]: the tree itself.
//! * [`point`]: particles and their store.
//! * [`motion`]: the Verlet step and the walls.
//! * [`collision`]: the collision resolver.
//! * [`spawn`]: placing new particles.
pub mod fixed;
pub mod vec2;
pub mod rect;
pub mod shape;
pub mod quadtree;
pub mod tree_laws;
pub mod point;
pub mod motion;
pub mod collision;
pub mod spawn;
