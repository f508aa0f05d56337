//! Queen-placement puzzles solved by graph search: frontier strategies,
//! board parsing and validation, and the search engines built on them.
pub mod assign;
pub mod board;
pub mod board_builder;
pub mod moves;
pub mod notation;
pub mod oracle;
pub mod render;
pub mod search;
pub mod solver;
pub mod text;
