//! The grammar of report arguments.
//!
//! Switches are counted, options carry their value after `=`, and the file
//! list option may be followed by arguments that start with a dot, which a
//! shell split off and which are joined back. Options spelled with two
//! dashes are refused.

use vstd::prelude::*;

use super::values::{
    complexity_limit_result, file_extensions_result, file_list_result, parse_complexity_limit,
    parse_file_extensions, parse_file_list, plain_error, string_from_chars_literal,
};
use super::{config_view, CliConfig, ConfigView, ReportKind};
use crate::error::CodeM8Error;
use crate::language::registry::{
    first_appearances, registry_extensions, str_views, string_views, supported_file_extensions,
};
use crate::text::{char_views, chars_equal, chars_of, push_chars, push_str, slice_chars, starts_with_chars, string_from_chars};

verus! {

pub const DEFAULT_MAX_COGNITIVE_COMPLEXITY: u32 = 15;

pub const DEFAULT_MAX_CYCLOMATIC_COMPLEXITY: u32 = 10;

/// What one argument is.
#[derive(Debug, Clone, Copy, PartialEq, Eq, Structural)]
pub enum ArgKind {
    ReportDuplicate,
    ReportComplexity,
    Verbose,
    GitBranch,
    FileExtension,
    Files,
    MaxCognitive,
    MaxCyclomatic,
    Unknown,
    Unexpected,
}

pub open spec fn has_prefix(s: Seq<char>, prefix: Seq<char>) -> bool {
    prefix.len() <= s.len() && s.take(prefix.len() as int) == prefix
}

pub open spec fn arg_kind(arg: Seq<char>) -> ArgKind {
    if arg == "--report-duplicate"@ {
        ArgKind::ReportDuplicate
    } else if arg == "--report-complexity"@ {
        ArgKind::ReportComplexity
    } else if arg == "-verbose"@ {
        ArgKind::Verbose
    } else if arg == "-git-branch"@ {
        ArgKind::GitBranch
    } else if has_prefix(arg, "-file-extension="@) {
        ArgKind::FileExtension
    } else if has_prefix(arg, "-files="@) {
        ArgKind::Files
    } else if has_prefix(arg, "-max-cognitive-complexity="@) {
        ArgKind::MaxCognitive
    } else if has_prefix(arg, "-max-cyclomatic-complexity="@) {
        ArgKind::MaxCyclomatic
    } else if has_prefix(arg, "--"@) {
        ArgKind::Unknown
    } else {
        ArgKind::Unexpected
    }
}

/// The arguments with the pieces that a shell split off a file list joined
/// back to it: an argument that starts with a dot and follows a file list
/// argument belongs to it.
pub open spec fn joined_args(args: Seq<Seq<char>>) -> Seq<Seq<char>>
    decreases args.len(),
{
    if args.len() == 0 {
        Seq::empty()
    } else {
        let joined = joined_args(args.drop_last());
        let arg = args.last();
        if joined.len() > 0 && has_prefix(joined.last(), "-files="@) && arg.len() > 0 && arg[0] == '.' {
            joined.update(joined.len() - 1, joined.last() + arg)
        } else {
            joined.push(arg)
        }
    }
}

/// The first argument spelled with two dashes that no switch has.
pub open spec fn first_unknown(args: Seq<Seq<char>>) -> Option<Seq<char>>
    decreases args.len(),
{
    if args.len() == 0 {
        None
    } else {
        let earlier = first_unknown(args.drop_last());
        if earlier is Some {
            earlier
        } else if arg_kind(args.last()) == ArgKind::Unknown {
            Some(args.last())
        } else {
            None
        }
    }
}

/// What the arguments said so far: how often each switch came (counting
/// to two), the option values in order, and the limits.
pub struct TallyView {
    pub report_duplicate: nat,
    pub report_complexity: nat,
    pub verbose: nat,
    pub git_branch: nat,
    pub file_extensions: Seq<Seq<Seq<char>>>,
    pub files: Seq<Seq<Seq<char>>>,
    pub max_cognitive: Option<u32>,
    pub max_cyclomatic: Option<u32>,
}

pub open spec fn bump(n: nat) -> nat {
    if n < 2 {
        n + 1
    } else {
        2
    }
}

pub open spec fn invalid_value_message(option: Seq<char>, value: Seq<char>, inner: Seq<char>) -> Seq<char> {
    "error: invalid value '"@ + value + "' for '"@ + option + "': "@ + inner
}

/// The usage line that follows an error about the arguments themselves.
pub open spec fn usage_trailer() -> Seq<char> {
    "\n\nUsage: codem8 [OPTIONS]"@
}

pub open spec fn repeated_option_message(option: Seq<char>) -> Seq<char> {
    "error: the argument '"@ + option + "' cannot be used multiple times"@ + usage_trailer()
}

/// How an unexpected argument is named: an argument that starts with one
/// dash is read as a cluster of one-letter flags, and its first flag is the
/// unexpected one; any other argument is named whole.
pub open spec fn unexpected_name(arg: Seq<char>) -> Seq<char> {
    if arg.len() >= 2 && arg[0] == '-' {
        arg.take(2)
    } else {
        arg
    }
}

pub open spec fn unexpected_argument_message(arg: Seq<char>) -> Seq<char> {
    "error: unexpected argument '"@ + unexpected_name(arg) + "' found"@ + usage_trailer()
}

/// One more argument added to what was said.
pub open spec fn tally_step(t: TallyView, arg: Seq<char>) -> Result<TallyView, Seq<char>> {
    match arg_kind(arg) {
        ArgKind::ReportDuplicate => Ok(
            TallyView { report_duplicate: bump(t.report_duplicate), ..t },
        ),
        ArgKind::ReportComplexity => Ok(
            TallyView { report_complexity: bump(t.report_complexity), ..t },
        ),
        ArgKind::Verbose => Ok(TallyView { verbose: bump(t.verbose), ..t }),
        ArgKind::GitBranch => Ok(TallyView { git_branch: bump(t.git_branch), ..t }),
        ArgKind::FileExtension => {
            let v = arg.skip(16);
            match file_extensions_result(v) {
                Ok(list) => Ok(TallyView { file_extensions: t.file_extensions.push(list), ..t }),
                Err(m) => Err(invalid_value_message("--codem8-file-extension <extensions>"@, v, m)),
            }
        },
        ArgKind::Files => {
            let v = arg.skip(7);
            match file_list_result(v) {
                Ok(list) => Ok(TallyView { files: t.files.push(list), ..t }),
                Err(m) => Err(invalid_value_message("--codem8-files <paths>"@, v, m)),
            }
        },
        ArgKind::MaxCognitive => {
            let v = arg.skip(26);
            let option = "--codem8-max-cognitive-complexity <MAX_COGNITIVE_COMPLEXITY>"@;
            if t.max_cognitive is Some {
                Err(repeated_option_message(option))
            } else {
                match complexity_limit_result(v) {
                    Ok(n) => Ok(TallyView { max_cognitive: Some(n), ..t }),
                    Err(m) => Err(invalid_value_message(option, v, m)),
                }
            }
        },
        ArgKind::MaxCyclomatic => {
            let v = arg.skip(27);
            let option = "--codem8-max-cyclomatic-complexity <MAX_CYCLOMATIC_COMPLEXITY>"@;
            if t.max_cyclomatic is Some {
                Err(repeated_option_message(option))
            } else {
                match complexity_limit_result(v) {
                    Ok(n) => Ok(TallyView { max_cyclomatic: Some(n), ..t }),
                    Err(m) => Err(invalid_value_message(option, v, m)),
                }
            }
        },
        _ => Err(unexpected_argument_message(arg)),
    }
}

pub open spec fn empty_tally() -> TallyView {
    TallyView {
        report_duplicate: 0,
        report_complexity: 0,
        verbose: 0,
        git_branch: 0,
        file_extensions: Seq::empty(),
        files: Seq::empty(),
        max_cognitive: None,
        max_cyclomatic: None,
    }
}

/// What all arguments say, or the error of the first one that cannot be
/// read.
pub open spec fn tally_all(args: Seq<Seq<char>>) -> Result<TallyView, Seq<char>>
    decreases args.len(),
{
    if args.len() == 0 {
        Ok(empty_tally())
    } else {
        match tally_all(args.drop_last()) {
            Err(m) => Err(m),
            Ok(t) => tally_step(t, args.last()),
        }
    }
}

/// The selected report, or why none is.
pub open spec fn report_result(t: TallyView) -> Result<ReportKind, (Seq<char>, bool)> {
    if t.report_duplicate + t.report_complexity == 0 {
        Err(("no report switch provided; pass --report-duplicate or --report-complexity"@, true))
    } else if t.report_duplicate > 1 || t.report_complexity > 1 {
        Err(("report switch was provided more than once"@, false))
    } else if t.report_duplicate + t.report_complexity > 1 {
        Err(("--report-duplicate and --report-complexity are mutually exclusive"@, false))
    } else if t.report_duplicate != 0 {
        Ok(ReportKind::Duplicate)
    } else {
        Ok(ReportKind::Complexity)
    }
}

/// The configuration that the arguments give, or the error message and
/// whether usage help follows it.
pub open spec fn parse_args_result(args: Seq<Seq<char>>) -> Result<ConfigView, (Seq<char>, bool)> {
    let joined = joined_args(args);
    match first_unknown(joined) {
        Some(arg) => Err(("unknown argument: "@ + arg, false)),
        None => match tally_all(joined) {
            Err(m) => Err((m, false)),
            Ok(t) => match report_result(t) {
                Err(e) => Err(e),
                Ok(report) => if t.git_branch > 1 {
                    Err(("git branch mode was provided more than once"@, false))
                } else if t.file_extensions.len() > 1 {
                    Err(("file extensions were provided more than once"@, false))
                } else if t.files.len() > 1 {
                    Err(("explicit files were provided more than once"@, false))
                } else if t.git_branch != 0 && t.files.len() > 0 {
                    Err(("git branch mode cannot be combined with explicit files"@, false))
                } else if report == ReportKind::Duplicate && (t.max_cognitive is Some || t.max_cyclomatic is Some) {
                    Err(("complexity limits can only be used with --report-complexity"@, false))
                } else {
                    Ok(
                        ConfigView {
                            report,
                            verbose: t.verbose != 0,
                            file_extensions: if t.file_extensions.len() > 0 {
                                t.file_extensions[0]
                            } else {
                                first_appearances(registry_extensions())
                            },
                            files: if t.files.len() > 0 {
                                Some(t.files[0])
                            } else {
                                None
                            },
                            git_branch: t.git_branch != 0,
                            max_cognitive_complexity: match t.max_cognitive {
                                Some(n) => n,
                                None => 15,
                            },
                            max_cyclomatic_complexity: match t.max_cyclomatic {
                                Some(n) => n,
                                None => 10,
                            },
                        },
                    )
                },
            },
        },
    }
}

/// An extension list argument is never joined to a file list, so it stays
/// an argument of its own.
proof fn lemma_joined_keeps_extension_argument(args: Seq<Seq<char>>, j: int)
    requires
        0 <= j < args.len(),
        has_prefix(args[j], "-file-extension="@),
    ensures
        joined_args(args).contains(args[j]),
    decreases args.len(),
{
    reveal_strlit("-file-extension=");
    reveal_strlit("-files=");
    let a = args[j];
    assert(a[0] == '-' && a[5] == '-') by {
        assert(a.take(16)[0] == a[0] && a.take(16)[5] == a[5]);
    }
    let dl = args.drop_last();
    let joined = joined_args(dl);
    let last = args.last();
    if j == args.len() - 1 {
        assert(last == a);
        assert(joined_args(args) == joined.push(last));
        assert(joined.push(last)[joined.len() as int] == a);
    } else {
        assert(dl[j] == a);
        lemma_joined_keeps_extension_argument(dl, j);
        let q = choose|q: int| 0 <= q < joined.len() && joined[q] == a;
        if joined.len() > 0 && has_prefix(joined.last(), "-files="@) && last.len() > 0 && last[0] == '.' {
            if q == joined.len() - 1 {
                assert(joined.last().take(7)[5] == joined.last()[5]);
                assert(false);
            }
            assert(joined.update(joined.len() - 1, joined.last() + last)[q] == a);
        } else {
            assert(joined.push(last)[q] == a);
        }
    }
}

/// Adding an argument never forgets an extension list already given.
proof fn lemma_tally_step_keeps_extensions(t: TallyView, arg: Seq<char>, x: Seq<Seq<char>>)
    requires
        tally_step(t, arg) is Ok,
        t.file_extensions.contains(x),
    ensures
        tally_step(t, arg)->Ok_0.file_extensions.contains(x),
{
    let k = choose|k: int| 0 <= k < t.file_extensions.len() && t.file_extensions[k] == x;
    if arg_kind(arg) == ArgKind::FileExtension {
        let list = file_extensions_result(arg.skip(16))->Ok_0;
        assert(t.file_extensions.push(list)[k] == x);
    }
}

/// Every extension list argument that the arguments were read with is a
/// valid list and among the lists they gave.
proof fn lemma_tally_has_extension_argument(args: Seq<Seq<char>>, q: int)
    requires
        0 <= q < args.len(),
        arg_kind(args[q]) == ArgKind::FileExtension,
        tally_all(args) is Ok,
    ensures
        file_extensions_result(args[q].skip(16)) is Ok,
        tally_all(args)->Ok_0.file_extensions.contains(file_extensions_result(args[q].skip(16))->Ok_0),
    decreases args.len(),
{
    let dl = args.drop_last();
    let t0 = tally_all(dl)->Ok_0;
    if q == args.len() - 1 {
        let list = file_extensions_result(args[q].skip(16))->Ok_0;
        assert(t0.file_extensions.push(list)[t0.file_extensions.len() as int] == list);
    } else {
        assert(dl[q] == args[q]);
        lemma_tally_has_extension_argument(dl, q);
        lemma_tally_step_keeps_extensions(t0, args.last(), file_extensions_result(args[q].skip(16))->Ok_0);
    }
}

/// An argument with the extension list prefix is an extension list option.
proof fn lemma_extension_argument_kind(a: Seq<char>)
    requires
        has_prefix(a, "-file-extension="@),
    ensures
        arg_kind(a) == ArgKind::FileExtension,
{
    reveal_strlit("-file-extension=");
    reveal_strlit("--report-duplicate");
    reveal_strlit("--report-complexity");
    reveal_strlit("-verbose");
    reveal_strlit("-git-branch");
    assert(a[1] == 'f') by {
        assert(a.take(16)[1] == a[1]);
    }
    assert(a != "--report-duplicate"@ && a != "--report-complexity"@ && a != "-verbose"@ && a != "-git-branch"@) by {
        if a == "--report-duplicate"@ || a == "--report-complexity"@ {
            assert(a[1] == '-');
        }
        if a == "-verbose"@ {
            assert(a[1] == 'v');
        }
        if a == "-git-branch"@ {
            assert(a[1] == 'g');
        }
    }
}

/// A command line that parses and names an extension list analyzes exactly
/// the extensions of that list, read as a `-file-extension=` value is read.
pub proof fn lemma_given_extensions_are_analyzed(args: Seq<Seq<char>>, j: int)
    requires
        0 <= j < args.len(),
        has_prefix(args[j], "-file-extension="@),
        parse_args_result(args) is Ok,
    ensures
        file_extensions_result(args[j].skip(16)) == Ok::<Seq<Seq<char>>, Seq<char>>(
            parse_args_result(args)->Ok_0.file_extensions,
        ),
{
    let joined = joined_args(args);
    lemma_joined_keeps_extension_argument(args, j);
    let q = choose|q: int| 0 <= q < joined.len() && joined[q] == args[j];
    lemma_extension_argument_kind(args[j]);
    assert(first_unknown(joined) is None);
    assert(tally_all(joined) is Ok);
    lemma_tally_has_extension_argument(joined, q);
    let t = tally_all(joined)->Ok_0;
    let list = file_extensions_result(args[j].skip(16))->Ok_0;
    let k = choose|k: int| 0 <= k < t.file_extensions.len() && t.file_extensions[k] == list;
    assert(t.file_extensions.len() == 1);
    assert(t.file_extensions[0] == list);
}

/// The arguments with split-off file list pieces joined back.
fn join_split_file_extensions(args: &[&str]) -> (r: Vec<Vec<char>>)
    ensures
        char_views(r@) == joined_args(str_views(args@)),
{
    let ghost views = str_views(args@);
    let mut joined: Vec<Vec<char>> = Vec::new();
    let files_prefix = chars_of("-files=");
    let mut i: usize = 0;
    proof {
        assert(views.take(0) =~= Seq::<Seq<char>>::empty());
        assert(char_views(joined@) =~= Seq::<Seq<char>>::empty());
    }
    while i < args.len()
        invariant
            i <= args@.len(),
            views == str_views(args@),
            files_prefix@ == "-files="@,
            char_views(joined@) == joined_args(views.take(i as int)),
        decreases args.len() - i,
    {
        let mut arg = chars_of(args[i]);
        let ghost before = char_views(joined@);
        proof {
            assert(views.take(i + 1).drop_last() =~= views.take(i as int));
            assert(views.take(i + 1).last() == args@[i as int]@);
        }
        let n = joined.len();
        let joins = n > 0 && starts_with_chars(joined[n - 1].as_slice(), files_prefix.as_slice()) && arg.len() > 0
            && arg[0] == '.';
        if joins {
            let mut last = joined.pop().unwrap();
            let ghost last_view = last@;
            last.append(&mut arg);
            joined.push(last);
            proof {
                assert(char_views(joined@) =~= before.update(before.len() - 1, last_view + args@[i as int]@));
            }
        } else {
            joined.push(arg);
            proof {
                assert(char_views(joined@) =~= before.push(args@[i as int]@));
            }
        }
        i += 1;
    }
    proof {
        assert(views.take(i as int) =~= views);
    }
    joined
}

/// What one argument is.
fn classify_argument(arg: &[char]) -> (k: ArgKind)
    ensures
        k == arg_kind(arg@),
{
    if chars_equal(arg, chars_of("--report-duplicate").as_slice()) {
        ArgKind::ReportDuplicate
    } else if chars_equal(arg, chars_of("--report-complexity").as_slice()) {
        ArgKind::ReportComplexity
    } else if chars_equal(arg, chars_of("-verbose").as_slice()) {
        ArgKind::Verbose
    } else if chars_equal(arg, chars_of("-git-branch").as_slice()) {
        ArgKind::GitBranch
    } else if starts_with_chars(arg, chars_of("-file-extension=").as_slice()) {
        ArgKind::FileExtension
    } else if starts_with_chars(arg, chars_of("-files=").as_slice()) {
        ArgKind::Files
    } else if starts_with_chars(arg, chars_of("-max-cognitive-complexity=").as_slice()) {
        ArgKind::MaxCognitive
    } else if starts_with_chars(arg, chars_of("-max-cyclomatic-complexity=").as_slice()) {
        ArgKind::MaxCyclomatic
    } else if starts_with_chars(arg, chars_of("--").as_slice()) {
        ArgKind::Unknown
    } else {
        ArgKind::Unexpected
    }
}

/// What the arguments said so far.
struct ArgTally {
    report_duplicate: u8,
    report_complexity: u8,
    verbose: u8,
    git_branch: u8,
    file_extensions: Vec<Vec<String>>,
    files: Vec<Vec<String>>,
    max_cognitive: Option<u32>,
    max_cyclomatic: Option<u32>,
}

spec fn list_views(v: Seq<Vec<String>>) -> Seq<Seq<Seq<char>>> {
    v.map_values(|l: Vec<String>| string_views(l@))
}

spec fn tally_view(t: ArgTally) -> TallyView {
    TallyView {
        report_duplicate: t.report_duplicate as nat,
        report_complexity: t.report_complexity as nat,
        verbose: t.verbose as nat,
        git_branch: t.git_branch as nat,
        file_extensions: list_views(t.file_extensions@),
        files: list_views(t.files@),
        max_cognitive: t.max_cognitive,
        max_cyclomatic: t.max_cyclomatic,
    }
}

spec fn tally_counts_bounded(t: ArgTally) -> bool {
    t.report_duplicate <= 2 && t.report_complexity <= 2 && t.verbose <= 2 && t.git_branch <= 2
}

fn bump_count(n: u8) -> (r: u8)
    requires
        n <= 2,
    ensures
        r == bump(n as nat),
{
    if n < 2 {
        n + 1
    } else {
        2
    }
}

/// `error: invalid value '<value>' for '<option>': <inner>`.
fn invalid_value_error(option: &str, value: &[char], inner: CodeM8Error) -> (e: CodeM8Error)
    ensures
        e.message_view() == invalid_value_message(option@, value@, inner.message_view()),
        !e.shows_help(),
{
    let mut message = String::new();
    push_str(&mut message, "error: invalid value '");
    push_chars(&mut message, value);
    push_str(&mut message, "' for '");
    push_str(&mut message, option);
    push_str(&mut message, "': ");
    push_str(&mut message, inner.message());
    assert(message@ =~= invalid_value_message(option@, value@, inner.message_view()));
    CodeM8Error::new(message)
}

/// `error: the argument '<option>' cannot be used multiple times`.
fn repeated_option_error(option: &str) -> (e: CodeM8Error)
    ensures
        e.message_view() == repeated_option_message(option@),
        !e.shows_help(),
{
    let mut message = String::new();
    push_str(&mut message, "error: the argument '");
    push_str(&mut message, option);
    push_str(&mut message, "' cannot be used multiple times");
    push_str(&mut message, "\n\nUsage: codem8 [OPTIONS]");
    assert(message@ =~= repeated_option_message(option@));
    CodeM8Error::new(message)
}

/// The value of an option argument, after its prefix of `skip` characters.
fn option_value(arg: &[char], skip: usize) -> (v: String)
    requires
        skip <= arg@.len(),
    ensures
        v@ == arg@.skip(skip as int),
{
    let value = slice_chars(arg, skip, arg.len());
    assert(value@ =~= arg@.skip(skip as int));
    string_from_chars(value.as_slice())
}

/// Adds one argument to what the arguments said.
fn tally_argument(t: &mut ArgTally, arg: &[char]) -> (r: Result<(), CodeM8Error>)
    requires
        tally_counts_bounded(*old(t)),
    ensures
        tally_counts_bounded(*final(t)),
        match tally_step(tally_view(*old(t)), arg@) {
            Ok(t2) => r is Ok && tally_view(*final(t)) == t2,
            Err(m) => plain_error(r, m),
        },
{
    let ghost before = tally_view(*t);
    proof {
        reveal_strlit("-file-extension=");
        reveal_strlit("-files=");
        reveal_strlit("-max-cognitive-complexity=");
        reveal_strlit("-max-cyclomatic-complexity=");
    }
    match classify_argument(arg) {
        ArgKind::ReportDuplicate => {
            t.report_duplicate = bump_count(t.report_duplicate);
            Ok(())
        },
        ArgKind::ReportComplexity => {
            t.report_complexity = bump_count(t.report_complexity);
            Ok(())
        },
        ArgKind::Verbose => {
            t.verbose = bump_count(t.verbose);
            Ok(())
        },
        ArgKind::GitBranch => {
            t.git_branch = bump_count(t.git_branch);
            Ok(())
        },
        ArgKind::FileExtension => {
            let value = option_value(arg, 16);
            match parse_file_extensions(value.as_str()) {
                Ok(list) => {
                    t.file_extensions.push(list);
                    assert(list_views(t.file_extensions@) =~= before.file_extensions.push(
                        string_views(t.file_extensions@.last()@),
                    ));
                    Ok(())
                },
                Err(inner) => Err(invalid_value_error("--codem8-file-extension <extensions>", value_chars(&value).as_slice(), inner)),
            }
        },
        ArgKind::Files => {
            let value = option_value(arg, 7);
            match parse_file_list(value.as_str()) {
                Ok(list) => {
                    t.files.push(list);
                    assert(list_views(t.files@) =~= before.files.push(string_views(t.files@.last()@)));
                    Ok(())
                },
                Err(inner) => Err(invalid_value_error("--codem8-files <paths>", value_chars(&value).as_slice(), inner)),
            }
        },
        ArgKind::MaxCognitive => {
            let option = "--codem8-max-cognitive-complexity <MAX_COGNITIVE_COMPLEXITY>";
            if t.max_cognitive.is_some() {
                return Err(repeated_option_error(option));
            }
            let value = option_value(arg, 26);
            match parse_complexity_limit(value.as_str()) {
                Ok(limit) => {
                    t.max_cognitive = Some(limit);
                    Ok(())
                },
                Err(inner) => Err(invalid_value_error(option, value_chars(&value).as_slice(), inner)),
            }
        },
        ArgKind::MaxCyclomatic => {
            let option = "--codem8-max-cyclomatic-complexity <MAX_CYCLOMATIC_COMPLEXITY>";
            if t.max_cyclomatic.is_some() {
                return Err(repeated_option_error(option));
            }
            let value = option_value(arg, 27);
            match parse_complexity_limit(value.as_str()) {
                Ok(limit) => {
                    t.max_cyclomatic = Some(limit);
                    Ok(())
                },
                Err(inner) => Err(invalid_value_error(option, value_chars(&value).as_slice(), inner)),
            }
        },
        _ => {
            let mut message = String::new();
            push_str(&mut message, "error: unexpected argument '");
            if arg.len() >= 2 && arg[0] == '-' {
                let flag = slice_chars(arg, 0, 2);
                assert(flag@ =~= arg@.take(2));
                push_chars(&mut message, flag.as_slice());
            } else {
                push_chars(&mut message, arg);
            }
            push_str(&mut message, "' found");
            push_str(&mut message, "\n\nUsage: codem8 [OPTIONS]");
            assert(message@ =~= unexpected_argument_message(arg@));
            Err(CodeM8Error::new(message))
        },
    }
}

/// The characters of a string.
fn value_chars(s: &String) -> (c: Vec<char>)
    ensures
        c@ == s@,
{
    chars_of(s.as_str())
}

/// The error for the first unknown argument, if there is one.
fn check_unknown_arguments(args: &Vec<Vec<char>>) -> (r: Result<(), CodeM8Error>)
    ensures
        match first_unknown(char_views(args@)) {
            Some(arg) => plain_error(r, "unknown argument: "@ + arg),
            None => r is Ok,
        },
{
    let ghost views = char_views(args@);
    let mut i: usize = 0;
    proof {
        assert(views.take(0) =~= Seq::<Seq<char>>::empty());
    }
    while i < args.len()
        invariant
            i <= args@.len(),
            views == char_views(args@),
            first_unknown(views.take(i as int)) is None,
        decreases args.len() - i,
    {
        proof {
            assert(views.take(i + 1).drop_last() =~= views.take(i as int));
            assert(views.take(i + 1).last() == args@[i as int]@);
        }
        if classify_argument(args[i].as_slice()) == ArgKind::Unknown {
            let mut message = String::new();
            push_str(&mut message, "unknown argument: ");
            push_chars(&mut message, args[i].as_slice());
            proof {
                lemma_first_unknown_stays(views, i as int + 1);
                assert(views.take(views.len() as int) =~= views);
            }
            return Err(CodeM8Error::new(message));
        }
        i += 1;
    }
    proof {
        assert(views.take(i as int) =~= views);
    }
    Ok(())
}

/// A first unknown argument stays the first one when more arguments follow.
proof fn lemma_first_unknown_stays(args: Seq<Seq<char>>, i: int)
    requires
        0 < i <= args.len(),
        first_unknown(args.take(i)) is Some,
    ensures
        first_unknown(args) == first_unknown(args.take(i)),
    decreases args.len() - i,
{
    if i < args.len() {
        assert(args.take(i + 1).drop_last() =~= args.take(i));
        lemma_first_unknown_stays(args, i + 1);
    } else {
        assert(args.take(i) =~= args);
    }
}

/// Reads every argument in order.
fn tally_arguments(args: &Vec<Vec<char>>) -> (r: Result<ArgTally, CodeM8Error>)
    ensures
        match tally_all(char_views(args@)) {
            Ok(t) => r matches Ok(tally) && tally_view(tally) == t && tally_counts_bounded(tally),
            Err(m) => plain_error(r, m),
        },
{
    let ghost views = char_views(args@);
    let mut t = ArgTally {
        report_duplicate: 0,
        report_complexity: 0,
        verbose: 0,
        git_branch: 0,
        file_extensions: Vec::new(),
        files: Vec::new(),
        max_cognitive: None,
        max_cyclomatic: None,
    };
    let mut i: usize = 0;
    proof {
        assert(views.take(0) =~= Seq::<Seq<char>>::empty());
        assert(list_views(t.file_extensions@) =~= Seq::<Seq<Seq<char>>>::empty());
        assert(list_views(t.files@) =~= Seq::<Seq<Seq<char>>>::empty());
        assert(tally_view(t) == empty_tally());
    }
    while i < args.len()
        invariant
            i <= args@.len(),
            views == char_views(args@),
            tally_all(views.take(i as int)) == Ok::<TallyView, Seq<char>>(tally_view(t)),
            tally_counts_bounded(t),
        decreases args.len() - i,
    {
        proof {
            assert(views.take(i + 1).drop_last() =~= views.take(i as int));
            assert(views.take(i + 1).last() == args@[i as int]@);
        }
        let step = tally_argument(&mut t, args[i].as_slice());
        if let Err(e) = step {
            proof {
                lemma_tally_error_stays(views, i as int + 1);
                assert(views.take(views.len() as int) =~= views);
            }
            return Err(e);
        }
        i += 1;
    }
    proof {
        assert(views.take(i as int) =~= views);
    }
    Ok(t)
}

/// Once an argument cannot be read, the error stays.
proof fn lemma_tally_error_stays(args: Seq<Seq<char>>, i: int)
    requires
        0 < i <= args.len(),
        tally_all(args.take(i)) is Err,
    ensures
        tally_all(args) == tally_all(args.take(i)),
    decreases args.len() - i,
{
    if i < args.len() {
        assert(args.take(i + 1).drop_last() =~= args.take(i));
        lemma_tally_error_stays(args, i + 1);
    } else {
        assert(args.take(i) =~= args);
    }
}

/// Parses report arguments into a validated configuration.
pub fn parse_args(args: &[&str]) -> (r: Result<CliConfig, CodeM8Error>)
    ensures
        match parse_args_result(str_views(args@)) {
            Ok(c) => r matches Ok(config) && config_view(config) == c,
            Err(e) => r matches Err(error) && error.message_view() == e.0 && error.shows_help() == e.1,
        },
{
    let joined = join_split_file_extensions(args);
    if let Err(e) = check_unknown_arguments(&joined) {
        return Err(e);
    }
    let t = match tally_arguments(&joined) {
        Ok(t) => t,
        Err(e) => return Err(e),
    };
    let rd = t.report_duplicate;
    let rc = t.report_complexity;
    if rd as u32 + rc as u32 == 0 {
        return Err(
            CodeM8Error::with_help(
                string_from_chars_literal("no report switch provided; pass --report-duplicate or --report-complexity"),
            ),
        );
    }
    if rd > 1 || rc > 1 {
        return Err(CodeM8Error::new(string_from_chars_literal("report switch was provided more than once")));
    }
    if rd as u32 + rc as u32 > 1 {
        return Err(
            CodeM8Error::new(
                string_from_chars_literal("--report-duplicate and --report-complexity are mutually exclusive"),
            ),
        );
    }
    let report = if rd != 0 {
        ReportKind::Duplicate
    } else {
        ReportKind::Complexity
    };
    if t.git_branch > 1 {
        return Err(CodeM8Error::new(string_from_chars_literal("git branch mode was provided more than once")));
    }
    if t.file_extensions.len() > 1 {
        return Err(CodeM8Error::new(string_from_chars_literal("file extensions were provided more than once")));
    }
    if t.files.len() > 1 {
        return Err(CodeM8Error::new(string_from_chars_literal("explicit files were provided more than once")));
    }
    let git_branch = t.git_branch != 0;
    if git_branch && t.files.len() > 0 {
        return Err(
            CodeM8Error::new(string_from_chars_literal("git branch mode cannot be combined with explicit files")),
        );
    }
    if report == ReportKind::Duplicate && (t.max_cognitive.is_some() || t.max_cyclomatic.is_some()) {
        return Err(
            CodeM8Error::new(string_from_chars_literal("complexity limits can only be used with --report-complexity")),
        );
    }
    let ghost tv = tally_view(t);
    let ArgTally { report_duplicate: _, report_complexity: _, verbose, git_branch: _, file_extensions, files, max_cognitive, max_cyclomatic } = t;
    let mut file_extensions = file_extensions;
    let mut files = files;
    let selected_extensions = if file_extensions.len() > 0 {
        let first = file_extensions.swap_remove(0);
        assert(string_views(first@) == tv.file_extensions[0]);
        first
    } else {
        supported_file_extensions()
    };
    let selected_files = if files.len() > 0 {
        let first = files.swap_remove(0);
        assert(string_views(first@) == tv.files[0]);
        Some(first)
    } else {
        None
    };
    let config = CliConfig {
        report,
        verbose: verbose != 0,
        file_extensions: selected_extensions,
        files: selected_files,
        git_branch,
        max_cognitive_complexity: match max_cognitive {
            Some(n) => n,
            None => DEFAULT_MAX_COGNITIVE_COMPLEXITY,
        },
        max_cyclomatic_complexity: match max_cyclomatic {
            Some(n) => n,
            None => DEFAULT_MAX_CYCLOMATIC_COMPLEXITY,
        },
    };
    Ok(config)
}

} // verus!
