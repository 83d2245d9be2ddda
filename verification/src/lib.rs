//! Conway's Game of Life on a toroidal grid.
//!
//! The core is the step from one generation to the next: [`addressing`] finds
//! the eight wrap-around neighbours of a cell, [`rule`] decides what becomes
//! of a cell, [`generation`] says what the next generation of a grid is,
//! [`partition`] divides the rows among workers, and [`engine`] computes a
//! generation block by block and puts it together again. [`game`] holds the
//! simulation that a front end drives.
//!
//! Around it stand the seed format and the naming of saves ([`save`]), the
//! validation of colours ([`hex`], [`colors`]), the start-up options
//! ([`options`]), and the text and character helpers they share ([`text`],
//! [`unicode`]).

pub mod addressing;
pub mod colors;
pub mod engine;
pub mod game;
pub mod generation;
pub mod hex;
pub mod options;
pub mod partition;
pub mod rule;
pub mod save;
pub mod text;
pub mod unicode;
