use codem8::cli::args::{parse_args, DEFAULT_MAX_COGNITIVE_COMPLEXITY, DEFAULT_MAX_CYCLOMATIC_COMPLEXITY};
use codem8::cli::help::help_text;
use codem8::cli::values::{parse_complexity_limit, parse_file_extensions, parse_file_list};
use codem8::cli::version::{cargo_lock_packages, codem8_version_from_cargo_lock};
use codem8::cli::{parse_command, CliCommand, ReportKind};
use codem8::language::registry::supported_file_extensions;

const LOCKFILE: &str = r#"
[[package]]
name = "dependency"
version = "1.2.3"

[[package]]
name = "codem8"
version = "0.4.2"
"#;

#[test]
fn cli_parses_help_command() {
    let command = parse_command(&["help"]).expect("help parses");
    assert_eq!(command, CliCommand::Help);
}

#[test]
fn cli_parses_short_help_option() {
    let command = parse_command(&["-h"]).expect("short help parses");
    assert_eq!(command, CliCommand::Help);
}

#[test]
fn cli_exposes_detailed_help_text() {
    let help = help_text();
    assert!(help.contains("USAGE:"));
    assert!(help.contains("--report-duplicate"));
    assert!(help.contains("-verbose"));
    assert!(help.contains("-file-extension=<extensions>"));
    assert!(help.contains("-files=<paths>"));
    assert!(help.contains("-git-branch"));
    assert!(!help.contains("--verbose"));
    assert!(!help.contains("--file-extension=<extensions>"));
    assert!(!help.contains("--files=<paths>"));
    assert!(!help.contains("--git-branch"));
    assert!(help.contains("helps you find repeated code"));
    assert!(!help.contains("Duplicate weight"));
}

#[test]
fn cli_extracts_package_versions_from_cargo_lock_sections() {
    let packages = cargo_lock_packages(LOCKFILE);
    let package = packages
        .iter()
        .find(|package| package.name == "codem8")
        .expect("package exists");
    assert_eq!(package.version, "0.4.2");
}

#[test]
fn cli_parses_default_duplicate_report_config() {
    let config = parse_args(&["--report-duplicate"]).expect("config parses");
    assert!(config.report == ReportKind::Duplicate);
    assert!(!config.verbose);
    assert_eq!(config.file_extensions, supported_file_extensions());
    assert_eq!(config.files, None);
    assert!(!config.git_branch);
}

#[test]
fn cli_parses_verbose_duplicate_report_config() {
    let config = parse_args(&["--report-duplicate", "-verbose"]).expect("config parses");
    assert!(config.report == ReportKind::Duplicate);
    assert!(config.verbose);
}

#[test]
fn cli_parses_git_branch_duplicate_report_config() {
    let config = parse_args(&["--report-duplicate", "-git-branch"]).expect("config parses");
    assert!(config.git_branch);
    assert_eq!(config.files, None);
}

#[test]
fn cli_parses_extensions_case_insensitively_and_trims_whitespace() {
    let extensions = parse_file_extensions(" ts, JS ,tsx,ts ").expect("extensions parse");
    assert_eq!(extensions, ["ts", "js", "tsx"]);
}

#[test]
fn cli_rejects_empty_extensions() {
    let error = parse_file_extensions("ts,,js").expect_err("empty extension fails");
    assert!(error.to_string().contains("must not be empty"));
}

#[test]
fn cli_rejects_extensions_with_leading_dot() {
    let error = parse_file_extensions(".ts").expect_err("dot-prefixed extension fails");
    assert!(error.to_string().contains("must not start with a dot"));
}

#[test]
fn cli_rejects_extensions_with_path_separators() {
    let error = parse_file_extensions("src/ts").expect_err("path-like extension fails");
    assert!(error.to_string().contains("must not contain path separators"));
}

#[test]
fn cli_rejects_missing_report_switch() {
    let error = parse_args(&["-file-extension=rs"]).expect_err("missing report fails");
    assert!(error.to_string().contains("no report switch provided"));
    assert!(error.should_show_help());
}

#[test]
fn cli_rejects_unknown_arguments() {
    let error = parse_args(&["--report-duplicate", "--unknown"]).expect_err("unknown arg fails");
    assert!(error.to_string().contains("unknown argument: --unknown"));
    assert!(!error.should_show_help());
}

#[test]
fn cli_rejects_double_dash_option_arguments() {
    for option in ["--help", "--verbose", "--file-extension=js", "--files=src/a.ts", "--git-branch"] {
        let error = parse_args(&["--report-duplicate", option]).expect_err("double-dash option fails");
        assert!(error.to_string().contains(&format!("unknown argument: {option}")));
    }
}

#[test]
fn cli_rejects_repeated_file_extension_arguments() {
    let error = parse_args(&["--report-duplicate", "-file-extension=ts", "-file-extension=js"])
        .expect_err("repeated extensions fail");
    assert!(error.to_string().contains("file extensions were provided more than once"));
}

#[test]
fn cli_rejects_repeated_explicit_file_arguments() {
    let error = parse_args(&["--report-duplicate", "-files=a.ts", "-files=b.ts"])
        .expect_err("repeated explicit files fail");
    assert!(error.to_string().contains("explicit files were provided more than once"));
}

#[test]
fn cli_rejects_repeated_git_branch_arguments() {
    let error = parse_args(&["--report-duplicate", "-git-branch", "-git-branch"])
        .expect_err("repeated git branch mode fails");
    assert!(error.to_string().contains("git branch mode was provided more than once"));
}

#[test]
fn cli_rejects_git_branch_with_explicit_files() {
    let error = parse_args(&["--report-duplicate", "-git-branch", "-files=a.ts"])
        .expect_err("exclusive file modes fail");
    assert!(error.to_string().contains("git branch mode cannot be combined with explicit files"));
}

#[test]
fn cli_parses_explicit_file_list() {
    let files = parse_file_list("src/a.ts, ./src/b.ts").expect("files parse");
    assert_eq!(files, ["src/a.ts", "./src/b.ts"]);
}

#[test]
fn cli_rejects_empty_explicit_file_paths() {
    let error = parse_file_list("src/a.ts, ").expect_err("empty explicit file fails");
    assert!(error.to_string().contains("file path values must not be empty"));
}

#[test]
fn args_parses_default_duplicate_report_config() {
    let config = parse_args(&["--report-duplicate"]).expect("config parses");
    assert_eq!(config.report, ReportKind::Duplicate);
    assert!(!config.verbose);
    assert_eq!(config.file_extensions, supported_file_extensions());
    assert_eq!(config.files, None);
    assert!(!config.git_branch);
    assert_eq!(config.max_cognitive_complexity, DEFAULT_MAX_COGNITIVE_COMPLEXITY);
    assert_eq!(config.max_cyclomatic_complexity, DEFAULT_MAX_CYCLOMATIC_COMPLEXITY);
}

#[test]
fn parses_default_complexity_report_config() {
    let config = parse_args(&["--report-complexity"]).expect("config parses");
    assert_eq!(config.report, ReportKind::Complexity);
    assert_eq!(config.max_cognitive_complexity, DEFAULT_MAX_COGNITIVE_COMPLEXITY);
    assert_eq!(config.max_cyclomatic_complexity, DEFAULT_MAX_CYCLOMATIC_COMPLEXITY);
}

#[test]
fn parses_custom_complexity_limits() {
    let config = parse_args(&[
        "--report-complexity",
        "-max-cognitive-complexity=20",
        "-max-cyclomatic-complexity=12",
    ])
    .expect("config parses");
    assert_eq!(config.max_cognitive_complexity, 20);
    assert_eq!(config.max_cyclomatic_complexity, 12);
}

#[test]
fn args_parses_verbose_duplicate_report_config() {
    let config = parse_args(&["--report-duplicate", "-verbose"]).expect("config parses");
    assert_eq!(config.report, ReportKind::Duplicate);
    assert!(config.verbose);
}

#[test]
fn args_parses_git_branch_duplicate_report_config() {
    let config = parse_args(&["--report-duplicate", "-git-branch"]).expect("config parses");
    assert!(config.git_branch);
    assert_eq!(config.files, None);
}

#[test]
fn args_parses_extensions_case_insensitively_and_trims_whitespace() {
    let extensions = parse_file_extensions(" ts, JS ,tsx,ts ").expect("extensions parse");
    assert_eq!(extensions, ["ts", "js", "tsx"]);
}

#[test]
fn args_rejects_empty_extensions() {
    let error = parse_file_extensions("ts,,js").expect_err("empty extension fails");
    assert!(error.to_string().contains("must not be empty"));
}

#[test]
fn args_rejects_extensions_with_leading_dot() {
    let error = parse_file_extensions(".ts").expect_err("dot-prefixed extension fails");
    assert!(error.to_string().contains("must not start with a dot"));
}

#[test]
fn args_rejects_extensions_with_path_separators() {
    let error = parse_file_extensions("src/ts").expect_err("path-like extension fails");
    assert!(error.to_string().contains("must not contain path separators"));
}

#[test]
fn args_rejects_missing_report_switch() {
    let error = parse_args(&["-file-extension=rs"]).expect_err("missing report fails");
    assert!(error.to_string().contains("no report switch provided"));
    assert!(error.should_show_help());
}

#[test]
fn args_rejects_unknown_arguments() {
    let error = parse_args(&["--report-duplicate", "--unknown"]).expect_err("unknown arg fails");
    assert!(error.to_string().contains("unknown argument: --unknown"));
    assert!(!error.should_show_help());
}

#[test]
fn args_rejects_double_dash_option_arguments() {
    for option in [
        "--help",
        "--verbose",
        "--file-extension=js",
        "--files=src/a.ts",
        "--git-branch",
        "--max-cognitive-complexity=20",
        "--max-cyclomatic-complexity=12",
    ] {
        let error = parse_args(&["--report-duplicate", option]).expect_err("double-dash option fails");
        assert!(error.to_string().contains(&format!("unknown argument: {option}")));
    }
}

#[test]
fn args_rejects_repeated_file_extension_arguments() {
    let error = parse_args(&["--report-duplicate", "-file-extension=ts", "-file-extension=js"])
        .expect_err("repeated extensions fail");
    assert!(error.to_string().contains("file extensions were provided more than once"));
}

#[test]
fn rejects_repeated_report_switches() {
    let error = parse_args(&["--report-duplicate", "--report-duplicate"])
        .expect_err("repeated report switch fails");
    assert!(error.to_string().contains("report switch was provided more than once"));
}

#[test]
fn rejects_multiple_report_kinds() {
    let error = parse_args(&["--report-duplicate", "--report-complexity"])
        .expect_err("exclusive reports fail");
    assert!(error.to_string().contains("mutually exclusive"));
}

#[test]
fn rejects_zero_complexity_limits() {
    let error = parse_args(&["--report-complexity", "-max-cognitive-complexity=0"])
        .expect_err("zero limit fails");
    assert!(error.to_string().contains("greater than zero"));
}

#[test]
fn rejects_complexity_limits_with_duplicate_report() {
    let error = parse_args(&["--report-duplicate", "-max-cognitive-complexity=15"])
        .expect_err("duplicate report complexity limit fails");
    assert!(error.to_string().contains("can only be used with --report-complexity"));
}

#[test]
fn args_rejects_repeated_explicit_file_arguments() {
    let error = parse_args(&["--report-duplicate", "-files=a.ts", "-files=b.ts"])
        .expect_err("repeated explicit files fail");
    assert!(error.to_string().contains("explicit files were provided more than once"));
}

#[test]
fn args_rejects_repeated_git_branch_arguments() {
    let error = parse_args(&["--report-duplicate", "-git-branch", "-git-branch"])
        .expect_err("repeated git branch mode fails");
    assert!(error.to_string().contains("git branch mode was provided more than once"));
}

#[test]
fn rejects_removed_git_branch_strict_argument() {
    let error = parse_args(&["--report-duplicate", "-git-branch-strict"])
        .expect_err("removed git branch mode fails");
    assert!(error.to_string().contains("unexpected argument"));
}

#[test]
fn args_rejects_git_branch_with_explicit_files() {
    let error = parse_args(&["--report-duplicate", "-git-branch", "-files=a.ts"])
        .expect_err("exclusive file modes fail");
    assert!(error.to_string().contains("git branch mode cannot be combined with explicit files"));
}

#[test]
fn args_parses_explicit_file_list() {
    let files = parse_file_list("src/a.ts, ./src/b.ts").expect("files parse");
    assert_eq!(files, ["src/a.ts", "./src/b.ts"]);
}

#[test]
fn rejoins_powershell_split_file_extensions() {
    let config = parse_args(&["--report-complexity", "-files=src/main", ".rs"]).expect("config parses");
    assert_eq!(config.files, Some(vec!["src/main.rs".to_string()]));
}

#[test]
fn rejoins_multiple_powershell_split_file_extensions() {
    let config = parse_args(&["--report-complexity", "-files=src/main", ".rs,src/lib", ".rs"])
        .expect("config parses");
    assert_eq!(
        config.files,
        Some(vec!["src/main.rs".to_string(), "src/lib.rs".to_string()])
    );
}

#[test]
fn args_rejects_empty_explicit_file_paths() {
    let error = parse_file_list("src/a.ts, ").expect_err("empty explicit file fails");
    assert!(error.to_string().contains("file path values must not be empty"));
}

#[test]
fn help_exposes_detailed_help_text() {
    let help = help_text();
    assert!(help.contains("USAGE:"));
    assert!(help.contains("codem8 -h"));
    assert!(help.contains("codem8 --version"));
    assert!(help.contains("  -h"));
    assert!(help.contains("  --version"));
    assert!(help.contains("--report-duplicate"));
    assert!(help.contains("--report-complexity"));
    assert!(help.contains("helps you find repeated code"));
    assert!(help.contains("helps you find functions"));
    assert!(!help.contains("Duplicate weight"));
    assert!(help.contains("-verbose"));
    assert!(help.contains("-file-extension=<extensions>"));
    assert!(help.contains("-files=<paths>"));
    assert!(help.contains("-git-branch"));
    assert!(help.contains("-git-branch-strict"));
    assert!(help.contains("-max-cognitive-complexity=<value>"));
    assert!(help.contains("-max-cyclomatic-complexity=<value>"));
    assert!(!help.contains("--verbose"));
    assert!(!help.contains("--file-extension=<extensions>"));
    assert!(!help.contains("--files=<paths>"));
    assert!(!help.contains("--git-branch"));
    assert!(!help.contains("--git-branch-strict"));
    assert!(!help.contains("--max-cognitive-complexity=<value>"));
    assert!(!help.contains("--max-cyclomatic-complexity=<value>"));
    assert!(
        help.find("codem8 --report-complexity [OPTIONS]").expect("complexity usage exists")
            < help.find("codem8 --report-duplicate [OPTIONS]").expect("duplicate usage exists")
    );
    assert!(
        help.find("COMPLEXITY REPORT PURPOSE:").expect("complexity purpose exists")
            < help.find("DUPLICATE REPORT PURPOSE:").expect("duplicate purpose exists")
    );
    assert!(
        help.find("codem8 --report-complexity\n").expect("complexity example exists")
            < help.find("codem8 --report-duplicate\n").expect("duplicate example exists")
    );
}

#[test]
fn help_text_header_excludes_version() {
    assert!(help_text().starts_with("CodeM8 - "));
    assert!(!help_text().starts_with("CodeM8 0."));
}

#[test]
fn mod_parses_help_command() {
    let command = parse_command(&["help"]).expect("help parses");
    assert_eq!(command, CliCommand::Help);
}

#[test]
fn mod_parses_short_help_option() {
    let command = parse_command(&["-h"]).expect("short help parses");
    assert_eq!(command, CliCommand::Help);
}

#[test]
fn parses_version_option() {
    let command = parse_command(&["--version"]).expect("version parses");
    assert_eq!(command, CliCommand::Version);
}

#[test]
fn version_extracts_package_versions_from_cargo_lock_sections() {
    let packages = cargo_lock_packages(LOCKFILE);
    let package = packages
        .iter()
        .find(|package| package.name == "codem8")
        .expect("package exists");
    assert_eq!(package.version, "0.4.2");
}

#[test]
fn version_of_codem8_is_read_from_its_package_section() {
    assert_eq!(codem8_version_from_cargo_lock(LOCKFILE), Some("0.4.2".to_string()));
    assert_eq!(codem8_version_from_cargo_lock("[[package]]\nname = \"other\"\nversion = \"1.0.0\"\n"), None);
}

#[test]
fn help_command_needs_the_argument_alone() {
    let error = parse_command(&["help", "--report-duplicate"]).expect_err("help with more arguments fails");
    assert!(error.to_string().contains("help"));
}

#[test]
fn complexity_limits_parse_positive_numbers_only() {
    assert_eq!(parse_complexity_limit("7").expect("limit parses"), 7);
    assert!(parse_complexity_limit("0").is_err());
    assert!(parse_complexity_limit("abc").is_err());
    assert!(parse_complexity_limit("99999999999").is_err());
}

#[test]
fn repeated_verbose_switch_is_accepted() {
    let config = parse_args(&["--report-duplicate", "-verbose", "-verbose"]).expect("repeated verbose parses");
    assert!(config.verbose);
}

#[test]
fn argument_errors_end_with_the_usage_line() {
    let error = parse_args(&["--report-duplicate", "-git-branch-strict"]).expect_err("unexpected flag fails");
    assert_eq!(error.to_string(), "error: unexpected argument '-g' found\n\nUsage: codem8 [OPTIONS]");
    let error = parse_args(&["--report-duplicate", "extra"]).expect_err("unexpected value fails");
    assert_eq!(error.to_string(), "error: unexpected argument 'extra' found\n\nUsage: codem8 [OPTIONS]");
    let error = parse_args(&[
        "--report-complexity",
        "-max-cognitive-complexity=3",
        "-max-cognitive-complexity=4",
    ])
    .expect_err("repeated limit fails");
    assert_eq!(
        error.to_string(),
        "error: the argument '--codem8-max-cognitive-complexity <MAX_COGNITIVE_COMPLEXITY>' cannot be used multiple times\n\nUsage: codem8 [OPTIONS]"
    );
    let error = parse_args(&["--report-duplicate", "-files="]).expect_err("empty file list fails");
    assert_eq!(
        error.to_string(),
        "error: invalid value '' for '--codem8-files <paths>': file path values must not be empty"
    );
}
