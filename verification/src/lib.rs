//! Card collection tracking for the Pokémon trading card game: the data
//! model of the card catalogue, the rules that turn catalogue files and API
//! answers into stored rows, and the collection view that the GUI shows.

pub mod api;
pub mod cards_database;
pub mod db;
pub mod gui;
pub mod json;
pub mod strmap;
pub mod text;
