//! Core of a table-driven (shape-code) input method: code-table parsing and
//! lookup, the input state machine, configuration rules, the user word list,
//! and the pure parts of the Windows front end.
use vstd::prelude::*;
pub mod text;
pub mod sort;
pub mod order;
pub mod dictionary;
pub mod table_roundtrip;
pub mod config;
pub mod config_path;
pub mod state_machine;
pub mod user_dictionary;
pub mod front_end;
pub mod settings;
pub mod tip;

verus! {

/// Version of the library.
pub const VERSION: &'static str = "0.1.0";

} // verus!
