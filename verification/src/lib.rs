//! A toroidal Game of Life engine: a rectangular grid of dead/alive cells
//! whose edges wrap around, advanced one generation at a time into a scratch
//! buffer that is then swapped with the primary buffer, so that a generation
//! step never allocates.

pub mod cell;
pub mod rules;
pub mod universe;
