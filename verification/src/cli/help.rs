//! The usage documentation.

use vstd::prelude::*;

use crate::text::push_str;

verus! {

/// The body of the usage documentation, after its title line.
pub const HELP_TEXT_BODY: &'static str = "\
USAGE:
  codem8 help
  codem8 -h
  codem8 --version
  codem8 --report-complexity [OPTIONS]
  codem8 --report-duplicate [OPTIONS]

COMMANDS:
  help
  -h
      Display this detailed documentation.

  --version
      Display the current CodeM8 version.

REQUIRED REPORT SWITCHES:
  --report-complexity
      Analyze supported source files and print a function complexity report.
      Cannot be combined with --report-duplicate.

  --report-duplicate
      Analyze source files and print a duplicate code report.
      Cannot be combined with --report-complexity.

OPTIONS:
  -file-extension=<extensions>
      Comma-separated source file extensions to analyze.
      Defaults to all extensions registered in LANGUAGE_PATTERNS.
      Examples: -file-extension=ts,tsx,js,jsx

  -files=<paths>
      Comma-separated explicit files to analyze instead of recursively
      discovering files from the current directory.
      Example: -files=\"src/a.ts,src/b.js\"

  -git-branch
      Search only in files changed on the current local Git
      branch. Cannot be combined with -files.

  -git-branch-strict
      Limit the report to lines changed on the current git branch.
      Cannot be combined with -files or -git-branch.

  -max-cognitive-complexity=<value>
      Maximum allowed cognitive complexity for --report-complexity.
      Defaults to 15.

  -max-cyclomatic-complexity=<value>
      Maximum allowed cyclomatic complexity for --report-complexity.
      Defaults to 10.

  -verbose
      Include analyzed files and timings in report output, plus duplicate block details.
      In -git-branch-strict mode, analyzed files include changed line ranges.

COMPLEXITY REPORT PURPOSE:
  The complexity report helps you find functions whose cognitive or cyclomatic
  complexity exceeds the configured limits. It lists each function with its
  location and both computed complexity values.

DUPLICATE REPORT PURPOSE:
  The duplicate report helps you find repeated code that may be worth
  refactoring, reviewing, or consolidating. It lists each duplicated block with
  the files and line ranges where it appears, making it easier to compare the
  repeated code and decide whether it should stay duplicated.

EXAMPLES:
  codem8 --report-complexity
  codem8 --report-complexity -file-extension=rs -max-cognitive-complexity=12
  codem8 --report-complexity -git-branch
  codem8 --report-complexity -git-branch-strict
  codem8 --report-duplicate
  codem8 --report-duplicate -file-extension=ts,tsx,js,jsx
  codem8 --report-duplicate -file-extension=ts,js -files=\"src/a.ts,src/b.js\"
  codem8 --report-duplicate -git-branch
  codem8 --report-duplicate -git-branch-strict
";

/// The usage documentation: a title line, an empty line and the body.
pub fn help_text() -> (r: String)
    ensures
        r@ == "CodeM8 - deterministic source code analysis reports.\n"@ + "\n"@ + HELP_TEXT_BODY@,
{
    let mut output = String::new();
    push_str(&mut output, "CodeM8 - deterministic source code analysis reports.\n");
    push_str(&mut output, "\n");
    push_str(&mut output, HELP_TEXT_BODY);
    output
}

} // verus!
