//! A directory of plain-text notes: the index of notes by name, the commands
//! that list, find, search and open them, and the text that each command
//! prints. Reading files, listing the directory and starting the editor are
//! left to the caller; everything decided from those results is here.

pub mod commands;
pub mod config;
pub mod index;
pub mod invoke;
pub mod order;
pub mod paths;
pub mod status;
pub mod style;
pub mod text;
