//! The command line, as plain values: the path to analyse, the depth to
//! show, whether to recurse without limit, whether colours are off, and an
//! optional subcommand.  Parsing it is the program's part.
use vstd::prelude::*;
use std::path::PathBuf;
use clap_complete::aot::Shell;

verus! {

/// A path of the standard library, carried through unread.
#[verifier::external_type_specification]
#[verifier::external_body]
pub struct ExPathBuf(PathBuf);

/// A shell that `clap_complete` writes completions for, carried through
/// unread.
#[verifier::external_type_specification]
#[verifier::external_body]
pub struct ExShell(Shell);

/// The options of a run.
#[derive(Debug)]
pub struct Cli {
    /// Directory to analyze.
    pub path: PathBuf,
    /// Maximum depth to display.
    pub depth: usize,
    /// Recurse into all subdirectories without depth limit.
    pub recursive: bool,
    /// Disable colored output.
    pub no_color: bool,
    pub command: Option<Command>,
}

/// Subcommands.
#[derive(Debug)]
pub enum Command {
    /// Print shell completion script to stdout.
    Completions { shell: Shell },
}

impl Cli {
    /// The depth limit of the scan: none when recursing without limit, else
    /// the depth asked for.
    pub fn max_depth(&self) -> (m: Option<usize>)
        ensures
            m == if self.recursive { None } else { Some(self.depth) },
    {
        if self.recursive {
            None
        } else {
            Some(self.depth)
        }
    }
}

} // verus!
