use vstd::prelude::*;

pub mod text;
pub mod vdf;
pub mod steam_cmd;
pub mod settings;
pub mod steam_api;
pub mod dialog;
pub mod run;
