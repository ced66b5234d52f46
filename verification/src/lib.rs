//! A document engine for a simplified Go-game-record text format.
//!
//! The crate parses free-form property/value text into a structured record of
//! board setup and a move sequence, reconstructs board state at any point in
//! that sequence by replay, offers a mutation and navigation interface over
//! the record, and serializes the record back to text after edits.

pub mod game;
pub mod round_trip;
pub mod sgf_parser;
pub mod side_channel;
pub mod text;
pub mod ui_mode_actions;
