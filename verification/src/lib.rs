//! A 9x9 numeral-placement puzzle engine: grid model with row/column/box
//! constraint checking, a backtracking solver, a random puzzle generator,
//! and an edit-session state machine with undo, hints, and grading.

pub mod gameboard;
pub mod gameboard_controller;
pub mod generator;
pub mod solver;
