//! An animated wallpaper that draws harmonograph patterns.
//!
//! A harmonograph moves a pen by damped pendulums, two along each axis. The
//! points that the pen reaches are joined by a Catmull-Rom curve, and the curve
//! is thickened into triangle strips. When a pattern is finished, a new one with
//! random parameters begins in the next color.
//!
//! The library computes in exact integers and fractions. What is not rational
//! about a pattern, the sines and exponentials of the pendulums and the length
//! of a normal, is left to the program around it, and so is everything that
//! talks to a screen.
//!
//! - [`pendulum`] has the pendulums and the random draws that set them.
//! - [`harmonograph`] has the pattern as it is drawn.
//! - [`curve`] has the curve segments and their triangle strips.
//! - [`color`] has colors and how they are written.
//! - [`palette`] has the order in which the foreground colors follow each other.
//! - [`output`] has the outputs, their sizes and the scales for them.
//! - [`wallpaper`] puts these together, event by event and frame by frame.

pub mod color;
pub mod curve;
pub mod harmonograph;
pub mod output;
pub mod palette;
pub mod pendulum;
mod random;
pub mod wallpaper;
