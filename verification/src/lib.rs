//! Gloss: durable explanations attached to source edit hunks.

pub mod checks;
pub mod commands;
pub mod edit_id;
pub mod editor;
pub mod error;
pub mod format;
pub mod git;
pub mod harness;
pub mod paths;
pub mod round_trip;
pub mod setup;
pub mod state;
pub mod text;
pub mod time;
