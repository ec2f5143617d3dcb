use vstd::prelude::*;

pub mod commands;
pub mod database;
pub mod engine;
pub mod forms;
pub mod listing;
pub mod structures;
pub mod wire;
