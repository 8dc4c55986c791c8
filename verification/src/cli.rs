//! The configuration subcommands, as plain data: the argument parser in
//! the binary maps its matches onto these.

use vstd::prelude::*;

verus! {

/// Managing user-defined aliases.
pub enum AliasCmd {
    /// List available aliases.
    List,
    /// Add a new alias.
    Add { name: String, aliases: Vec<String> },
    /// Remove an alias.
    Remove { name: String },
}

/// Managing user-defined templates.
pub enum TemplateCmd {
    /// List available templates.
    List,
    /// Add a new template; the created file is edited by the user.
    Add { name: String },
    /// Remove a template.
    Remove { name: String },
}

} // verus!
