//! Command-line surface: the argument shapes and the runtime context
//! derived from the global flags.  Argument parsing itself happens in the
//! binary around this library; these types carry the parsed values.

use vstd::prelude::*;

verus! {

/// The parsed command line.
pub struct Cli {
    pub query: Option<String>,
    pub quiet: bool,
    pub verbose: bool,
    pub no_tty: bool,
    pub learn: bool,
    pub command: Option<Commands>,
}

/// The subcommands.
pub enum Commands {
    Config { action: ConfigAction },
    Setup,
}

/// The configuration subcommands.  (`SetValue` is the `set` command;
/// a variant cannot be called `Set` here.)
pub enum ConfigAction {
    SetValue { key: String, value: String },
    Get { key: String },
    Show,
}

/// Runtime context for CLI flags and options.
#[derive(Debug, Clone)]
pub struct CliContext {
    pub quiet: bool,
    pub verbose: bool,
    pub no_tty: bool,
    pub learn: bool,
}

impl CliContext {
    pub fn new(quiet: bool, verbose: bool, no_tty: bool, learn: bool) -> (r: CliContext)
        ensures
            r.quiet == quiet,
            r.verbose == verbose,
            r.no_tty == no_tty,
            r.learn == learn,
    {
        CliContext { quiet, verbose, no_tty, learn }
    }

    /// Whether colors should be disabled.
    pub fn should_disable_colors(&self) -> (r: bool)
        ensures
            r == (self.no_tty || self.quiet),
    {
        self.no_tty || self.quiet
    }

    /// Whether banners and decorations should be shown.
    pub fn should_show_decorations(&self) -> (r: bool)
        ensures
            r == (!self.quiet && !self.no_tty),
    {
        !self.quiet && !self.no_tty
    }

    /// Whether progress messages should be shown.
    pub fn should_show_progress(&self) -> (r: bool)
        ensures
            r == !self.quiet,
    {
        !self.quiet
    }

    /// Whether verbose debug output should be shown.
    pub fn should_show_verbose(&self) -> (r: bool)
        ensures
            r == self.verbose,
    {
        self.verbose
    }
}

} // verus!
