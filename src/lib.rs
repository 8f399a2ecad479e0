//! Verified solvers for small grid and text puzzles.
//!
//! The centrepiece is `coverage`: Manhattan-distance sensor coverage reduced to
//! per-row interval algebra (which positions of a row cannot hide an undetected
//! object, and the one uncovered point of a square), with `sensor_input` reading the
//! sensor records. The other modules solve smaller, independent puzzles.

pub mod coverage;
pub mod sensor_input;
pub mod text;

pub mod boat_race;
pub mod calibration;
pub mod calories;
pub mod cube_game;
pub mod hill;
pub mod monkey;
pub mod quartet;
pub mod rock_paper;
pub mod rope;
pub mod rucksack;
pub mod sand;
pub mod schematic;
pub mod scratchcards;
pub mod sections;
pub mod seed_map;
pub mod signal;
pub mod tree_grid;
pub mod unique_window;
pub mod crate_stacks;
pub mod folders;
