//! The command language of the tool.
//!
//! These are plain data: the surrounding binary parses its command line
//! into them and dispatches. Every operation the tool offers is one
//! variant, with the values it needs.

use vstd::prelude::*;

verus! {

/// One invocation of the tool.
#[derive(Debug)]
pub struct Cli {
    pub command: Command,
}

/// The subcommands.
#[derive(Debug)]
pub enum Command {
    /// Initialize a new store in the current directory.
    Init,
    /// Add or update a secret under a key (the value is prompted).
    SetSecret { key: String },
    /// List the stored secret names, never the values.
    List,
    /// Delete a secret from the store.
    Delete { key: String },
    /// Resolve the `.env` template and run a subprocess with the
    /// resulting environment.
    Run { cmd: Vec<String> },
    /// Import a plaintext `.env` file: move its values into the store
    /// and rewrite the file as references.
    Import { file: String },
    /// Re-encrypt the store under a new password.
    Rotate,
}

} // verus!
