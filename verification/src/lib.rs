pub mod algos;
pub mod board;
pub mod board_size;
pub mod candidates;
pub mod cards;
pub mod config;
pub mod db;
pub mod encoding;
pub mod eval_report;
pub mod fills;
pub mod game;
pub mod key_entry;
pub mod manual_input;
pub mod match_;
pub mod menu;
pub mod player;
pub mod progress;
pub mod rating;
pub mod render;
pub mod roster;
pub mod rng;
pub mod scoring;
pub mod search;
pub mod sorting;
pub mod text;
pub mod tournament;
pub mod training;
