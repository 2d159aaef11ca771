//! A liquid-sort puzzle engine.
//!
//! A board holds a row of bottles; every bottle is a fixed-capacity stack of
//! colored units. A move pours the top run of one color from a source bottle
//! into a target bottle, subject to legality rules. The board is won when
//! every bottle is either empty or full of a single color, and lost when no
//! legal pour remains. A randomized generator builds fair starting boards.

pub mod bottle;
pub mod color;
pub mod game;
