use vstd::prelude::*;

pub mod client;
pub mod connection;
pub mod escapes;
pub mod game_logic;
pub mod high_scores;
pub mod ingame_ui;
pub mod ip_tracker;
pub mod lobby;
pub mod random;
pub mod render;
pub mod text;
pub mod views;

verus! {
} // verus!
