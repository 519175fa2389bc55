use codem8::cli::args::parse_args;
use codem8::discovery::{
    explicit_display_path, explicit_input_path, explicit_metadata_error, ignored_directory_names,
    selected_extension, should_walk_entry, sort_source_files, source_file_from_entry,
    validate_explicit_file_metadata, ExplicitFiles, FileKind, WalkEntry,
};
use codem8::error::CodeM8Error;
use codem8::model::{
    AnalyzedFile, ChangedFileLines, DuplicateBlock, DuplicateOccurrence, LineRange, ProcessedFile, SourceFile,
};
use codem8::text::Comparison3;
use codem8::workflow::{
    analyzed_file, build_duplicate_report, changed_branch_scope, changed_line_paths, changed_lines_for_path,
    compare_function_locations, complexity_timings, duplicate_discovery_files, duplicate_timings,
    filter_supported_extensions, filtered_duplicate_blocks, filtered_duplicate_blocks_for_scope,
    filtered_processed_files, filtered_strict_duplicate_blocks, location_applies_to_changed_lines,
    ranges_overlap_lines, RunStatus,
};

fn source(path: &str) -> SourceFile {
    SourceFile { path: path.to_string(), display_path: path.to_string(), extension: "ts".to_string() }
}

fn processed(path: &str) -> ProcessedFile {
    ProcessedFile { source: source(path), lines: Vec::new() }
}

fn block(name: &str, places: &[(&str, usize, usize)]) -> DuplicateBlock {
    DuplicateBlock {
        normalized_lines: vec![name.to_string()],
        occurrences: places
            .iter()
            .map(|(path, start_line, end_line)| DuplicateOccurrence {
                file_path: path.to_string(),
                start_line: *start_line,
                end_line: *end_line,
            })
            .collect(),
        weight: 1,
    }
}

fn changed(path: &str, lines: &[(usize, usize)]) -> ChangedFileLines {
    ChangedFileLines {
        path: path.to_string(),
        lines: lines.iter().map(|(start, end)| LineRange { start: *start, end: *end }).collect(),
    }
}

fn names(blocks: &[DuplicateBlock]) -> Vec<String> {
    blocks.iter().map(|block| block.normalized_lines[0].clone()).collect()
}

#[test]
fn run_status_follows_the_issue_count() {
    assert_eq!(RunStatus::from_issue_count(0), RunStatus::Success);
    assert_eq!(RunStatus::from_issue_count(3), RunStatus::IssuesFound);
    assert!(RunStatus::Success.is_success());
    assert!(!RunStatus::IssuesFound.is_success());
}

#[test]
fn timings_need_every_stage() {
    let timings = duplicate_timings(Some(1), Some(2), Some(3)).expect("all measured");
    assert_eq!((timings.discovery, timings.file_processing, timings.duplicate_detection), (1, 2, 3));
    assert!(duplicate_timings(Some(1), None, Some(3)).is_none());
    let timings = complexity_timings(Some(4), Some(5)).expect("all measured");
    assert_eq!((timings.discovery, timings.complexity_analysis), (4, 5));
    assert!(complexity_timings(None, Some(5)).is_none());
}

#[test]
fn processed_files_are_kept_by_display_form() {
    let files = vec![processed("src/a.ts"), processed("src/b.ts"), processed("src/c.ts")];
    let kept = filtered_processed_files(&files, &vec!["src\\c.ts".to_string(), "src/a.ts".to_string()]);
    let paths: Vec<&str> = kept.iter().map(|file| file.source.display_path.as_str()).collect();
    assert_eq!(paths, ["src/a.ts", "src/c.ts"]);
}

#[test]
fn blocks_are_kept_when_one_copy_is_in_a_selected_file() {
    let blocks = vec![
        block("one", &[("src/a.ts", 1, 2), ("src/b.ts", 1, 2)]),
        block("two", &[("src/c.ts", 1, 2), ("src/d.ts", 1, 2)]),
    ];
    let kept = filtered_duplicate_blocks(blocks, &vec!["src/b.ts".to_string()]);
    assert_eq!(names(&kept), ["one"]);
}

#[test]
fn changed_lines_are_looked_up_by_display_form() {
    let lines = vec![changed("src/a.ts", &[(2, 3)]), changed("src/b.ts", &[(7, 7)])];
    assert_eq!(changed_lines_for_path("src\\b.ts", &lines), Some(vec![LineRange { start: 7, end: 7 }]));
    assert_eq!(changed_lines_for_path("src/c.ts", &lines), None);
}

#[test]
fn overlaps_need_a_shared_line() {
    let ranges = vec![LineRange { start: 5, end: 8 }];
    assert!(ranges_overlap_lines(8, 10, &ranges));
    assert!(ranges_overlap_lines(1, 5, &ranges));
    assert!(!ranges_overlap_lines(9, 12, &ranges));
    assert!(!ranges_overlap_lines(1, 4, &ranges));
    assert!(!ranges_overlap_lines(1, 4, &Vec::new()));
}

#[test]
fn strict_scope_keeps_blocks_on_changed_lines() {
    let lines = vec![changed("src/a.ts", &[(10, 12)])];
    let blocks = vec![
        block("touching", &[("src/a.ts", 12, 14), ("src/b.ts", 1, 3)]),
        block("elsewhere", &[("src/a.ts", 1, 3), ("src/b.ts", 10, 12)]),
    ];
    let kept = filtered_strict_duplicate_blocks(blocks, &lines);
    assert_eq!(names(&kept), ["touching"]);
    assert!(location_applies_to_changed_lines("src/a.ts", 9, 10, &lines));
    assert!(!location_applies_to_changed_lines("src/b.ts", 9, 10, &lines));
}

#[test]
fn scopes_filter_by_files_then_lines() {
    let blocks = vec![
        block("in-file-on-lines", &[("src/a.ts", 2, 2), ("src/x.ts", 1, 1)]),
        block("in-file-off-lines", &[("src/a.ts", 9, 9), ("src/x.ts", 5, 5)]),
        block("outside", &[("src/y.ts", 2, 2), ("src/z.ts", 2, 2)]),
    ];
    let scope = changed_branch_scope(None, Some(vec![changed("src/a.ts", &[(1, 3)])]));
    assert_eq!(scope.strict_file_paths, Some(vec!["src/a.ts".to_string()]));
    let kept = filtered_duplicate_blocks_for_scope(blocks.clone(), &scope);
    assert_eq!(names(&kept), ["in-file-on-lines"]);
    let files_only = changed_branch_scope(Some(vec!["src/a.ts".to_string()]), None);
    let kept = filtered_duplicate_blocks_for_scope(blocks.clone(), &files_only);
    assert_eq!(names(&kept), ["in-file-on-lines", "in-file-off-lines"]);
    let everything = changed_branch_scope(None, None);
    assert_eq!(filtered_duplicate_blocks_for_scope(blocks, &everything).len(), 3);
}

#[test]
fn analyzed_files_carry_their_changed_ranges() {
    let lines = vec![changed("src/a.ts", &[(2, 3)])];
    assert_eq!(
        analyzed_file("src/a.ts", Some(&lines)),
        AnalyzedFile { path: "src/a.ts".to_string(), changed_lines: Some(vec![LineRange { start: 2, end: 3 }]) }
    );
    assert_eq!(
        analyzed_file("src/b.ts", Some(&lines)),
        AnalyzedFile { path: "src/b.ts".to_string(), changed_lines: None }
    );
    assert_eq!(analyzed_file("src/a.ts", None).changed_lines, None);
    assert_eq!(changed_line_paths(&lines), ["src/a.ts"]);
}

#[test]
fn duplicate_reports_cover_the_scope() {
    let config = parse_args(&["--report-duplicate", "-verbose"]).expect("config parses");
    let files = vec![processed("src/a.ts"), processed("src/b.ts")];
    let blocks = vec![block("one", &[("src/a.ts", 1, 1), ("src/b.ts", 1, 1)])];
    let scope = changed_branch_scope(Some(vec!["src/b.ts".to_string()]), None);
    let report = build_duplicate_report(&config, &files, blocks, &scope, None);
    assert_eq!(report.analyzed_files, 1);
    assert_eq!(report.analyzed_extensions, config.file_extensions);
    assert_eq!(
        report.analyzed_file_paths,
        Some(vec![AnalyzedFile { path: "src/b.ts".to_string(), changed_lines: None }])
    );
    assert_eq!(names(&report.duplicate_blocks), ["one"]);
    let quiet = parse_args(&["--report-duplicate"]).expect("config parses");
    let report = build_duplicate_report(&quiet, &files, Vec::new(), &changed_branch_scope(None, None), None);
    assert_eq!(report.analyzed_files, 2);
    assert_eq!(report.analyzed_file_paths, None);
}

#[test]
fn explicit_files_are_ignored_for_discovery_on_a_branch() {
    let config = parse_args(&["--report-duplicate", "-files=a.ts"]).expect("config parses");
    assert_eq!(duplicate_discovery_files(&config), Some(&vec!["a.ts".to_string()]));
    let branch = parse_args(&["--report-duplicate", "-git-branch"]).expect("config parses");
    assert_eq!(duplicate_discovery_files(&branch), None);
}

#[test]
fn functions_are_ordered_by_path_lines_and_name() {
    assert_eq!(compare_function_locations("a.rs", 5, 9, "f", "b.rs", 1, 1, "a"), Comparison3::Less);
    assert_eq!(compare_function_locations("a\\b.rs", 5, 9, "f", "a/b.rs", 5, 9, "f"), Comparison3::Equal);
    assert_eq!(compare_function_locations("a.rs", 5, 9, "f", "a.rs", 5, 8, "z"), Comparison3::Greater);
    assert_eq!(compare_function_locations("a.rs", 5, 9, "f", "a.rs", 5, 9, "g"), Comparison3::Less);
}

#[test]
fn supported_extensions_keep_their_order() {
    let extensions = vec!["rs".to_string(), "rb".to_string(), "ts".to_string()];
    assert_eq!(filter_supported_extensions(&extensions, &vec![true, false, true]), ["rs", "ts"]);
}

#[test]
fn walking_skips_ignored_directories_below_the_root() {
    let entry = |is_dir, depth, name: &str| WalkEntry { is_dir, depth, file_name: name.to_string() };
    assert!(!should_walk_entry(&entry(Some(true), 1, "node_modules")));
    assert!(!should_walk_entry(&entry(Some(true), 2, "Target")));
    assert!(should_walk_entry(&entry(Some(true), 0, "target")));
    assert!(should_walk_entry(&entry(Some(false), 1, "target")));
    assert!(should_walk_entry(&entry(None, 1, ".git")));
    assert!(should_walk_entry(&entry(Some(true), 1, "src")));
    assert_eq!(ignored_directory_names().len(), 11);
}

#[test]
fn walked_files_are_selected_by_extension_and_shown_below_the_root() {
    let extensions = vec!["ts".to_string()];
    let file = source_file_from_entry("/repo", &extensions, "/repo/src/./A.TS", true).expect("selected");
    assert_eq!(file.path, "/repo/src/./A.TS");
    assert_eq!(file.display_path, "src/A.TS");
    assert_eq!(file.extension, "ts");
    assert!(source_file_from_entry("/repo", &extensions, "/repo/src/a.rs", true).is_none());
    assert!(source_file_from_entry("/repo", &extensions, "/repo/src/a.ts", false).is_none());
    assert_eq!(selected_extension("src/b.Ts", &extensions), Some("ts".to_string()));
    assert_eq!(selected_extension(".ts", &extensions), None);
}

#[test]
fn explicit_files_are_checked_and_displayed() {
    assert_eq!(explicit_input_path("/work", "src/a.ts"), "/work/src/a.ts");
    assert!(validate_explicit_file_metadata("a.ts", FileKind::File).is_ok());
    let error = validate_explicit_file_metadata("src\\dir", FileKind::Directory).expect_err("directory");
    assert_eq!(error.to_string(), "explicit file is a directory: src/dir");
    let error = validate_explicit_file_metadata("link", FileKind::SymbolicLink).expect_err("link");
    assert_eq!(error.to_string(), "explicit file is a symbolic link and will not be followed: link");
    let error: CodeM8Error = explicit_metadata_error("gone.ts", "/work/gone.ts", true, "not found");
    assert_eq!(error.to_string(), "explicit file does not exist: gone.ts");
    let error = explicit_metadata_error("x.ts", "/work/x.ts", false, "denied");
    assert_eq!(error.to_string(), "could not read explicit file metadata /work/x.ts: denied");
    assert_eq!(explicit_display_path("/work/src/a.ts", "/work/src/a.ts", "/work"), "src/a.ts");
    assert_eq!(explicit_display_path("./src/a.ts", "/work/src/a.ts", "/work"), "src/a.ts");
}

#[test]
fn explicit_files_are_kept_once_and_sorted() {
    let mut files = ExplicitFiles::new();
    assert!(files.accept("b.ts", "/w/b.ts", "ts".to_string(), "/w"));
    assert!(files.accept("a.ts", "/w/a.ts", "ts".to_string(), "/w"));
    assert!(!files.accept("./b.ts", "/w/b.ts", "ts".to_string(), "/w"));
    let sorted = sort_source_files(files.into_files());
    let shown: Vec<&str> = sorted.iter().map(|file| file.display_path.as_str()).collect();
    assert_eq!(shown, ["a.ts", "b.ts"]);
}
