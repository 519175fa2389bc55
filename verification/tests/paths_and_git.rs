use codem8::git::{
    count_lines, diff_hunks_fit, ensure_git_success, ensure_named_branch, nul_paths, origin_base_ref,
    output_text, parse_changed_file_header, parse_changed_lines, parse_hunk_range, parse_quoted_diff_path,
    repo_root_from_output, sorted_unique_paths, whole_file_ranges, ChangedFileSet, ParsedChangedFileHeader,
};
use codem8::model::{ChangedFileLines, LineRange};
use codem8::paths::{compare_paths, format_path, join_path, normalize_display_path, strip_path_prefix};
use codem8::ranges::merged_ranges;
use codem8::text::Comparison3;

#[test]
fn formats_paths_with_forward_slashes() {
    assert_eq!(format_path("src\\nested\\a.ts"), "src/nested/a.ts");
}

#[test]
fn normalizes_display_paths_without_losing_parent_segments() {
    assert_eq!(normalize_display_path("./src/../a.ts"), "src/../a.ts");
}

#[test]
fn normalizes_empty_display_path_to_current_directory() {
    assert_eq!(normalize_display_path("."), ".");
}

#[test]
fn normalizing_drops_inner_current_directory_and_empty_components() {
    assert_eq!(normalize_display_path("src/./nested//a.ts"), "src/nested/a.ts");
    assert_eq!(normalize_display_path("/abs/./x"), "/abs/x");
    assert_eq!(normalize_display_path(""), ".");
}

#[test]
fn paths_compare_component_by_component() {
    assert_eq!(compare_paths("a/b", "a/b"), Comparison3::Equal);
    assert_eq!(compare_paths("a/b", "a//b/"), Comparison3::Equal);
    assert_eq!(compare_paths("a/b", "a-b"), Comparison3::Less);
    assert_eq!(compare_paths("b", "a/z"), Comparison3::Greater);
}

#[test]
fn prefixes_strip_by_whole_components() {
    assert_eq!(strip_path_prefix("/repo/src/a.ts", "/repo"), Some("src/a.ts".to_string()));
    assert_eq!(strip_path_prefix("/repository/a.ts", "/repo"), None);
    assert_eq!(join_path("/repo", "src/a.ts"), "/repo/src/a.ts");
    assert_eq!(join_path("/repo/", "/abs.ts"), "/abs.ts");
}

#[test]
fn parses_changed_lines_for_quoted_diff_paths() {
    let diff = "diff --git \"a/src/space file.ts\" \"b/src/space file.ts\"\n\
                --- \"a/src/space file.ts\"\n\
                +++ \"b/src/space file.ts\"\n\
                @@ -0,0 +1 @@\n";
    assert!(diff_hunks_fit(diff));
    let files = parse_changed_lines(diff).expect("parse quoted diff");
    assert_eq!(
        files,
        [ChangedFileLines {
            path: "src/space file.ts".to_string(),
            lines: vec![LineRange { start: 1, end: 1 }],
        }]
    );
}

#[test]
fn parses_changed_lines_for_non_ascii_quoted_diff_paths() {
    let diff = "diff --git \"a/src/caf\\303\\251.ts\" \"b/src/caf\\303\\251.ts\"\n\
                --- \"a/src/caf\\303\\251.ts\"\n\
                +++ \"b/src/caf\\303\\251.ts\"\n\
                @@ -0,0 +1 @@\n";
    let files = parse_changed_lines(diff).expect("parse non-ascii quoted diff");
    assert_eq!(
        files,
        [ChangedFileLines {
            path: "src/caf\u{00E9}.ts".to_string(),
            lines: vec![LineRange { start: 1, end: 1 }],
        }]
    );
}

#[test]
fn changed_lines_merge_per_file_and_come_in_path_order() {
    let diff = "+++ b/src/z.ts\n\
                @@ -1,0 +4,2 @@\n\
                @@ -9 +6 @@\n\
                +++ b/src/a.ts\n\
                @@ -3,2 +3,0 @@\n\
                @@ -10 +10,3 @@\n\
                +++ /dev/null\n";
    let files = parse_changed_lines(diff).expect("parse diff");
    assert_eq!(
        files,
        [
            ChangedFileLines { path: "src/a.ts".to_string(), lines: vec![LineRange { start: 10, end: 12 }] },
            ChangedFileLines { path: "src/z.ts".to_string(), lines: vec![LineRange { start: 4, end: 6 }] },
        ]
    );
}

#[test]
fn hunk_without_a_file_is_refused() {
    let error = parse_changed_lines("@@ -1 +1 @@\n").expect_err("missing file fails");
    assert_eq!(error.to_string(), "could not parse changed git lines: missing file");
}

#[test]
fn hunk_ranges_read_the_added_side() {
    assert_eq!(parse_hunk_range("@@ -1,2 +5,3 @@").expect("hunk parses"), Some((5, 7)));
    assert_eq!(parse_hunk_range("@@ -1,2 +5 @@").expect("hunk parses"), Some((5, 5)));
    assert_eq!(parse_hunk_range("@@ -1,2 +5,0 @@").expect("hunk parses"), None);
    let error = parse_hunk_range("@@ -1,2 @@").expect_err("missing added side fails");
    assert_eq!(error.to_string(), "could not parse changed git hunk: @@ -1,2 @@");
    let error = parse_hunk_range("@@ -1 +x,2 @@").expect_err("bad number fails");
    assert_eq!(error.to_string(), "could not parse changed git hunk: @@ -1 +x,2 @@");
}

#[test]
fn hunks_too_close_to_the_largest_line_number_are_detected() {
    let huge = format!("+++ b/a.ts\n@@ -1 +{},1 @@\n", usize::MAX);
    assert!(!diff_hunks_fit(&huge));
    let fitting = format!("+++ b/a.ts\n@@ -1 +{},1 @@\n", usize::MAX - 1);
    assert!(diff_hunks_fit(&fitting));
}

#[test]
fn headers_name_the_new_side() {
    assert_eq!(parse_changed_file_header("+++ b/src/a.ts").expect("header parses"), ParsedChangedFileHeader::Path("src/a.ts".to_string()));
    assert_eq!(parse_changed_file_header("+++ /dev/null").expect("header parses"), ParsedChangedFileHeader::DevNull);
    assert_eq!(parse_changed_file_header("--- a/src/a.ts").expect("header parses"), ParsedChangedFileHeader::NotHeader);
    let error = parse_changed_file_header("+++ c/src/a.ts").expect_err("bad header fails");
    assert_eq!(error.to_string(), "could not parse changed git header: +++ c/src/a.ts");
}

#[test]
fn quoted_paths_resolve_escapes() {
    assert_eq!(parse_quoted_diff_path("\"b/tab\\there\"").expect("quoted path parses"), "b/tab\there");
    assert_eq!(parse_quoted_diff_path("\"b/q\\\"\\\\\"").expect("quoted path parses"), "b/q\"\\");
    let error = parse_quoted_diff_path("\"b/bad\\q\"").expect_err("unknown escape fails");
    assert_eq!(error.to_string(), "could not parse changed git header: +++ \"b/bad\\q\"");
    assert!(parse_quoted_diff_path("\"b/\\377\"").is_err());
}

#[test]
fn merging_ranges_joins_overlapping_and_adjacent_lines() {
    let merged = merged_ranges(&vec![
        LineRange { start: 8, end: 9 },
        LineRange { start: 1, end: 3 },
        LineRange { start: 4, end: 4 },
        LineRange { start: 2, end: 2 },
        LineRange { start: 11, end: 12 },
    ]);
    assert_eq!(
        merged,
        [
            LineRange { start: 1, end: 4 },
            LineRange { start: 8, end: 9 },
            LineRange { start: 11, end: 12 },
        ]
    );
    assert!(merged_ranges(&Vec::new()).is_empty());
}

#[test]
fn changed_file_sets_keep_one_entry_per_path_in_order() {
    let mut set = ChangedFileSet::new();
    set.add("src/b.ts".to_string(), vec![LineRange { start: 5, end: 6 }]);
    set.add("src/a.ts".to_string(), vec![LineRange { start: 1, end: 1 }]);
    set.add_all(vec![ChangedFileLines {
        path: "src/b.ts".to_string(),
        lines: vec![LineRange { start: 7, end: 7 }, LineRange { start: 1, end: 2 }],
    }]);
    assert_eq!(
        set.into_files(),
        [
            ChangedFileLines { path: "src/a.ts".to_string(), lines: vec![LineRange { start: 1, end: 1 }] },
            ChangedFileLines {
                path: "src/b.ts".to_string(),
                lines: vec![LineRange { start: 1, end: 2 }, LineRange { start: 5, end: 7 }],
            },
        ]
    );
}

#[test]
fn nul_separated_paths_skip_empty_entries_and_read_invalid_bytes_lossily() {
    assert_eq!(nul_paths(b"src/a.ts\0\0src/b.ts\0"), ["src/a.ts", "src/b.ts"]);
    assert_eq!(nul_paths(b""), Vec::<String>::new());
    assert_eq!(nul_paths(b"a\xffb\0"), ["a\u{FFFD}b"]);
}

#[test]
fn paths_are_sorted_and_repeats_dropped() {
    let paths = sorted_unique_paths(vec!["b.ts".to_string(), "a.ts".to_string(), "b.ts".to_string()]);
    assert_eq!(paths, ["a.ts", "b.ts"]);
}

#[test]
fn lines_are_counted_like_split_inclusive() {
    assert_eq!(count_lines(b""), 0);
    assert_eq!(count_lines(b"a"), 1);
    assert_eq!(count_lines(b"a\n"), 1);
    assert_eq!(count_lines(b"a\nb"), 2);
    assert_eq!(count_lines(b"\n\n"), 2);
    assert_eq!(whole_file_ranges(0), Vec::<LineRange>::new());
    assert_eq!(whole_file_ranges(3), [LineRange { start: 1, end: 3 }]);
}

#[test]
fn detached_head_is_refused() {
    let error = ensure_named_branch("HEAD\n").expect_err("detached head fails");
    assert_eq!(error.to_string(), "git branch mode requires a named local branch, but HEAD is detached");
    assert!(ensure_named_branch("main\n").is_ok());
}

#[test]
fn git_output_is_read_as_text() {
    assert_eq!(output_text(b"abc".to_vec(), "read").expect("valid text"), "abc");
    let error = output_text(vec![0xff], "parse git repository root").expect_err("invalid text fails");
    assert!(error.to_string().starts_with("could not parse git repository root: "));
    assert!(error.to_string().len() > "could not parse git repository root: ".len());
}

#[test]
fn failed_git_commands_report_their_trimmed_error_output() {
    assert_eq!(ensure_git_success(true, b"out".to_vec(), b"err".to_vec(), "list").expect("success"), b"out");
    let error = ensure_git_success(false, Vec::new(), b"  fatal: no repo \n".to_vec(), "list changed git files")
        .expect_err("failure");
    assert_eq!(error.to_string(), "could not list changed git files: fatal: no repo");
}

#[test]
fn repository_roots_are_trimmed() {
    assert_eq!(repo_root_from_output(true, b"/work/repo\n".to_vec()).expect("root"), "/work/repo");
    let error = repo_root_from_output(false, Vec::new()).expect_err("not a repository");
    assert_eq!(error.to_string(), "git branch mode requires the current directory to be inside a git repository");
}

#[test]
fn the_first_resolved_origin_branch_is_the_base() {
    assert_eq!(origin_base_ref(&vec![false, true, true]).expect("base"), "origin/main");
    assert_eq!(origin_base_ref(&vec![true, false, false]).expect("base"), "origin/HEAD");
    assert_eq!(origin_base_ref(&vec![false, false, true]).expect("base"), "origin/master");
    let error = origin_base_ref(&vec![false, false, false]).expect_err("no base");
    assert_eq!(error.to_string(), "git branch mode could not resolve origin base branch");
}

#[test]
fn normalizing_a_display_path_twice_changes_nothing() {
    for path in ["./src/../a.ts", "/abs/./x/", "", ".", "./", "a//b", "..", "/"] {
        let once = normalize_display_path(path);
        assert!(!once.is_empty());
        assert_eq!(normalize_display_path(&once), once);
    }
    assert_eq!(normalize_display_path("/"), "/");
    assert_eq!(normalize_display_path("./"), ".");
}
