//! `fleets`: an inventory engine.
//!
//! Sources (YAML, JSON, TOML and INI files, the output of scripts, and configurations that
//! construct groups out of variables) are read into one inventory of hosts and groups, and
//! the inventory is shown as JSON, YAML or TOML.
//!
//! - `model` holds the inventory and its invariant, `graph` what its links reach, `depths`
//!   how deep groups lie, and `vars` which variables win.
//! - `parse`, `ini`, `script`, `constructed` and `vars_files` read sources; `hostrange`,
//!   `literal_eval`, `sanitize` and `expr` read what is in them.
//! - `pattern` selects hosts, `output` builds the trees, `serialize` writes them.
//! - `cli` puts a command line together, `enabled` and `telemetry` read settings.
//! - `value` and `documents` hold values and their texts; `assoc`, `nameset`, `text` and
//!   `regexes` are what everything else stands on.
//! - `growth`, `output_laws`, `read_back`, `tree_read_back` and `table_read_back` state what
//!   holds of reading and of the output as a whole; `shown_laws` and `vars_laws` what is shown
//!   of a host or a group and which variables it has.
//! - `document_laws`, `ini_laws`, `construct_laws` and `config_laws` state what each kind of
//!   source says, `source_laws` what settings and names are taken for, and `range_laws` and
//!   `literal_laws` what stands in a line; `expr` has laws of its own beside it.

pub use crate::cli::{run, Args};
pub use crate::error::Error;

pub mod assoc;
pub mod cli;
pub mod config_laws;
pub mod construct_laws;
pub mod constructed;
pub mod depths;
pub mod document_laws;
pub mod documents;
pub mod enabled;
pub mod error;
pub mod expr;
pub mod graph;
pub mod growth;
pub mod hostrange;
pub mod ini;
pub mod ini_laws;
pub mod literal_eval;
pub mod literal_laws;
pub mod model;
pub mod nameset;
pub mod output;
pub mod output_laws;
pub mod parse;
pub mod pattern;
pub mod range_laws;
pub mod read_back;
pub mod regexes;
pub mod sanitize;
pub mod script;
pub mod serialize;
pub mod shown_laws;
pub mod source_laws;
pub mod table_read_back;
pub mod telemetry;
pub mod text;
pub mod tree_read_back;
pub mod value;
pub mod vars;
pub mod vars_files;
pub mod vars_laws;
