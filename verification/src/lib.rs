//! A 3x3 combination puzzle, its move notation, and a table-driven
//! stage solver, all verified.
//!
//! The cube is twelve edge and eight corner pieces, each a pairing of a
//! fixed colour identity with an occupied slot; a face turn permutes
//! the occupied slots along the turned face's clockwise ring.  Move
//! sequences are parsed from standard notation, can be reversed and
//! simplified, and the cross stage is solved by looking reference-edge
//! positions up in a conditional table, trying every ordering of the
//! cross face's neighbours and keeping the shortest result.
//!
//! The central proved laws: opposing faces pair up involutively, every
//! projection frames its orientation, a quarter turn has order four,
//! an algorithm followed by its reversal restores the cube exactly,
//! simplification is idempotent, and moves keep every slot of the cube
//! occupied.

pub mod algorithm;
pub mod cube;
pub mod face;
pub mod piece;
pub mod position;
pub mod solving;
pub mod support;
pub mod tables;
