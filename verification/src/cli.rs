//! The command line: commands, report options and their values.

pub mod args;
pub mod help;
pub mod values;
pub mod version;

use vstd::prelude::*;

use crate::error::CodeM8Error;
use crate::language::registry::{str_views, string_views};
use crate::text::{chars_equal, chars_of};

pub use args::{parse_args, DEFAULT_MAX_COGNITIVE_COMPLEXITY, DEFAULT_MAX_CYCLOMATIC_COMPLEXITY};
pub use help::help_text;
pub use version::codem8_version_from_cargo_lock;
pub use values::{parse_complexity_limit, parse_file_extensions, parse_file_list};


verus! {

/// The report that a run prints.
#[derive(Debug, Clone, Copy, PartialEq, Eq, Structural)]
pub enum ReportKind {
    Duplicate,
    Complexity,
}

/// A validated report configuration.
#[derive(Debug, Clone, PartialEq, Eq)]
pub struct CliConfig {
    pub report: ReportKind,
    pub verbose: bool,
    pub file_extensions: Vec<String>,
    pub files: Option<Vec<String>>,
    pub git_branch: bool,
    pub max_cognitive_complexity: u32,
    pub max_cyclomatic_complexity: u32,
}

/// A report configuration as the specification sees it.
pub struct ConfigView {
    pub report: ReportKind,
    pub verbose: bool,
    pub file_extensions: Seq<Seq<char>>,
    pub files: Option<Seq<Seq<char>>>,
    pub git_branch: bool,
    pub max_cognitive_complexity: u32,
    pub max_cyclomatic_complexity: u32,
}

pub open spec fn config_view(c: CliConfig) -> ConfigView {
    ConfigView {
        report: c.report,
        verbose: c.verbose,
        file_extensions: string_views(c.file_extensions@),
        files: match c.files {
            Some(f) => Some(string_views(f@)),
            None => None,
        },
        git_branch: c.git_branch,
        max_cognitive_complexity: c.max_cognitive_complexity,
        max_cyclomatic_complexity: c.max_cyclomatic_complexity,
    }
}

/// What the command line asks for.
#[derive(Debug, Clone, PartialEq, Eq)]
pub enum CliCommand {
    Help,
    Report(CliConfig),
    Version,
}

/// The single arguments that ask for help.
pub open spec fn is_help_argument(arg: Seq<char>) -> bool {
    arg == "help"@ || arg == "-h"@
}

/// Parses the command line: help for a lone `help` or `-h`, the version for
/// a lone `--version`, a report configuration otherwise.
pub fn parse_command(args: &[&str]) -> (r: Result<CliCommand, CodeM8Error>)
    ensures
        args@.len() == 1 && is_help_argument(args@[0]@) ==> r == Ok::<CliCommand, CodeM8Error>(CliCommand::Help),
        args@.len() == 1 && args@[0]@ == "--version"@ ==> r == Ok::<CliCommand, CodeM8Error>(CliCommand::Version),
        !(args@.len() == 1 && (is_help_argument(args@[0]@) || args@[0]@ == "--version"@)) ==> match args::parse_args_result(
            str_views(args@),
        ) {
            Ok(c) => r matches Ok(CliCommand::Report(config)) && config_view(config) == c,
            Err(e) => r matches Err(error) && error.message_view() == e.0 && error.shows_help() == e.1,
        },
{
    proof {
        reveal_strlit("help");
        reveal_strlit("-h");
        reveal_strlit("--version");
    }
    if args.len() == 1 {
        let arg = chars_of(args[0]);
        let help = chars_of("help");
        let short_help = chars_of("-h");
        let version = chars_of("--version");
        if chars_equal(arg.as_slice(), help.as_slice()) || chars_equal(arg.as_slice(), short_help.as_slice()) {
            return Ok(CliCommand::Help);
        }
        if chars_equal(arg.as_slice(), version.as_slice()) {
            return Ok(CliCommand::Version);
        }
    }
    match parse_args(args) {
        Ok(config) => Ok(CliCommand::Report(config)),
        Err(e) => Err(e),
    }
}

} // verus!
