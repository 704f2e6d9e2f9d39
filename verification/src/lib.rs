//! Verified core of the Raidhub companion: reading and writing WoW SavedVariables
//! (a restricted Lua subset), extracting Gargul GDKP ledgers, BiS list exchange,
//! and the decisions of the companion's commands.

pub mod text;
pub mod value;
pub mod lua_parser;
pub mod lua_writer;
pub mod laws;
pub mod reader_laws;
pub mod space_laws;
pub mod sorting;
pub mod gargul;
pub mod bis;
pub mod app_state;
pub mod api;
pub mod wow;
pub mod watcher;
pub mod commands;
