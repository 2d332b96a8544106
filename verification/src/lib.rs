pub mod analysis;
pub mod app;
pub mod audio;
pub mod catalog;
pub mod cli;
pub mod download;
pub mod folding;
pub mod library;
pub mod paths;
pub mod player;
pub mod session;
pub mod sorting;
pub mod text;
pub mod ui;
