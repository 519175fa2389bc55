use codem8::model::{AnalyzedFile, DuplicateBlock, DuplicateOccurrence, LineRange};
use codem8::report::complexity_renderer::{
    render_complexity_summary, render_function_heading, ComplexityReportTimings, ComplexitySummary,
};
use codem8::report::duplicate_renderer::{render_duplicate_report, DuplicateReport, DuplicateReportTimings};
use codem8::report::format::decimal_chars;

fn occurrence(path: &str, start_line: usize, end_line: usize) -> DuplicateOccurrence {
    DuplicateOccurrence { file_path: path.to_string(), start_line, end_line }
}

fn summary() -> ComplexitySummary {
    ComplexitySummary {
        analyzed_files: 1,
        analyzed_extensions: vec!["rs".to_string()],
        analyzed_file_paths: None,
        max_cognitive_complexity: 15,
        max_cyclomatic_complexity: 10,
        timings: None,
        function_count: 0,
    }
}

#[test]
fn duplicate_renderer_renders_empty_report() {
    let report = DuplicateReport {
        analyzed_files: 0,
        analyzed_extensions: vec!["ts".to_string()],
        analyzed_file_paths: None,
        timings: None,
        duplicate_blocks: Vec::new(),
    };
    assert_eq!(
        render_duplicate_report(&report, false),
        "Duplicate Code Report\n\
         =====================\n\
         \n\
         Number of files analyzed: 0\n\
         Duplicate blocks found: 0\n"
    );
}

#[test]
fn duplicate_renderer_renders_duplicate_block_details() {
    let report = DuplicateReport {
        analyzed_files: 2,
        analyzed_extensions: vec!["ts".to_string(), "js".to_string()],
        analyzed_file_paths: None,
        timings: None,
        duplicate_blocks: vec![DuplicateBlock {
            normalized_lines: vec!["return value;".to_string()],
            occurrences: vec![occurrence("src/a.ts", 1, 1), occurrence("src/b.js", 5, 5)],
            weight: 13,
        }],
    };
    let output = render_duplicate_report(&report, false);
    assert!(output.contains("#1\n"));
    assert!(!output.contains("Weight: 13"));
    assert!(!output.contains("Lines: 1"));
    assert!(!output.contains("Occurrences: 2"));
    assert!(!output.contains("Characters:"));
    assert!(!output.contains("Code:"));
    assert!(!output.contains("Locations:"));
    assert!(output.contains("- src/a.ts:1-1"));
    assert!(!output.contains("  return value;"));
    assert!(output.contains("#1\n- src/a.ts:1-1\n- src/b.js:5-5\n"));
}

#[test]
fn renders_analyzed_extensions_alphabetically() {
    let report = DuplicateReport {
        analyzed_files: 0,
        analyzed_extensions: vec!["ts".to_string(), "js".to_string(), "rs".to_string()],
        analyzed_file_paths: None,
        timings: None,
        duplicate_blocks: Vec::new(),
    };
    let output = render_duplicate_report(&report, false);
    assert!(!output.contains("Analyzed extensions:"));
    let verbose_output = render_duplicate_report(&report, true);
    assert!(verbose_output.contains("Analyzed extensions: js, rs, ts\n"));
}

#[test]
fn renders_duplicate_block_metrics_in_verbose_mode() {
    let report = DuplicateReport {
        analyzed_files: 2,
        analyzed_extensions: vec!["ts".to_string()],
        analyzed_file_paths: None,
        timings: None,
        duplicate_blocks: vec![DuplicateBlock {
            normalized_lines: vec!["return value;".to_string()],
            occurrences: vec![occurrence("src/a.ts", 1, 1), occurrence("src/b.ts", 2, 2)],
            weight: 13,
        }],
    };
    let output = render_duplicate_report(&report, true);
    assert!(output.contains("Weight: 13"));
    assert!(output.contains("Lines: 1"));
    assert!(output.contains("Occurrences: 2"));
    assert!(!output.contains("Characters:"));
    assert!(output.contains("Code:"));
    assert!(output.contains("Locations:"));
    assert!(output.contains("  return value;"));
}

#[test]
fn renders_analyzed_file_list_only_in_verbose_mode() {
    let report = DuplicateReport {
        analyzed_files: 2,
        analyzed_extensions: vec!["ts".to_string()],
        analyzed_file_paths: Some(vec![
            AnalyzedFile { path: "src/a.ts".to_string(), changed_lines: None },
            AnalyzedFile { path: "src/nested/b.ts".to_string(), changed_lines: None },
        ]),
        timings: None,
        duplicate_blocks: Vec::new(),
    };
    let quiet_output = render_duplicate_report(&report, false);
    assert!(!quiet_output.contains("Files analyzed:"));
    let verbose_output = render_duplicate_report(&report, true);
    assert!(verbose_output.contains(
        "Number of files analyzed: 2\n\
         Files analyzed:\n\
         - src/a.ts\n\
         - src/nested/b.ts\n\
         Analyzed extensions: ts"
    ));
}

#[test]
fn renders_timings_only_in_verbose_mode() {
    let report = DuplicateReport {
        analyzed_files: 1,
        analyzed_extensions: vec!["ts".to_string()],
        analyzed_file_paths: None,
        timings: Some(DuplicateReportTimings {
            discovery: 1_234,
            file_processing: 12_345,
            duplicate_detection: 123_456,
        }),
        duplicate_blocks: Vec::new(),
    };
    let quiet_output = render_duplicate_report(&report, false);
    assert!(!quiet_output.contains("Timings:"));
    let verbose_output = render_duplicate_report(&report, true);
    assert!(verbose_output.contains(
        "Timings:\n\
         - Discovery: 1.234 ms\n\
         - File processing: 12.345 ms\n\
         - Duplicate detection: 123.456 ms\n"
    ));
}

#[test]
fn renders_the_whole_verbose_report() {
    let report = DuplicateReport {
        analyzed_files: 2,
        analyzed_extensions: vec!["ts".to_string()],
        analyzed_file_paths: Some(vec![AnalyzedFile {
            path: "src\\a.ts".to_string(),
            changed_lines: Some(vec![LineRange { start: 2, end: 3 }, LineRange { start: 7, end: 7 }]),
        }]),
        timings: Some(DuplicateReportTimings { discovery: 5, file_processing: 1_000, duplicate_detection: 0 }),
        duplicate_blocks: vec![
            DuplicateBlock {
                normalized_lines: vec!["a();".to_string(), "b();".to_string()],
                occurrences: vec![occurrence("src/a.ts", 2, 3), occurrence("src/b.ts", 8, 9)],
                weight: 16,
            },
            DuplicateBlock {
                normalized_lines: vec!["c();".to_string()],
                occurrences: vec![occurrence("src\\a.ts", 7, 7), occurrence("src/b.ts", 1, 1)],
                weight: 4,
            },
        ],
    };
    assert_eq!(
        render_duplicate_report(&report, true),
        "Duplicate Code Report\n\
         =====================\n\
         \n\
         Number of files analyzed: 2\n\
         Files analyzed:\n\
         - src/a.ts (2-3,7)\n\
         Analyzed extensions: ts\n\
         Duplicate blocks found: 2\n\
         Timings:\n\
         - Discovery: 0.005 ms\n\
         - File processing: 1.000 ms\n\
         - Duplicate detection: 0.000 ms\n\
         \n\
         #1\n\
         Weight: 16\n\
         Lines: 2\n\
         Occurrences: 2\n\
         \n\
         Code:\n  a();\n  b();\n\
         \n\
         Locations:\n\
         - src/a.ts:2-3\n\
         - src/b.ts:8-9\n\
         \n\
         #2\n\
         Weight: 4\n\
         Lines: 1\n\
         Occurrences: 2\n\
         \n\
         Code:\n  c();\n\
         \n\
         Locations:\n\
         - src/a.ts:7-7\n\
         - src/b.ts:1-1\n"
    );
}

#[test]
fn complexity_summary_of_an_empty_report() {
    let mut empty = summary();
    empty.analyzed_files = 0;
    assert_eq!(
        render_complexity_summary(&empty, false),
        "Complexity Report\n\
         =================\n\
         \n\
         Number of files analyzed: 0\n\
         Functions exceeding limits: 0\n"
    );
}

#[test]
fn complexity_summary_in_verbose_mode_lists_files_limits_and_timings() {
    let mut verbose = summary();
    verbose.analyzed_file_paths = Some(vec![AnalyzedFile {
        path: "src/lib.rs".to_string(),
        changed_lines: Some(vec![LineRange { start: 3, end: 17 }, LineRange { start: 21, end: 21 }]),
    }]);
    verbose.analyzed_extensions = vec!["ts".to_string(), "rs".to_string()];
    verbose.timings = Some(ComplexityReportTimings { discovery: 1_234, complexity_analysis: 12_345 });
    verbose.function_count = 1;
    assert_eq!(
        render_complexity_summary(&verbose, true),
        "Complexity Report\n\
         =================\n\
         \n\
         Number of files analyzed: 1\n\
         Files analyzed:\n\
         - src/lib.rs (3-17,21)\n\
         Analyzed extensions: rs, ts\n\
         Max cognitive complexity: 15\n\
         Max cyclomatic complexity: 10\n\
         Functions exceeding limits: 1\n\
         Timings:\n\
         - Discovery: 1.234 ms\n\
         - Complexity analysis: 12.345 ms\n"
    );
    assert!(!render_complexity_summary(&verbose, false).contains("Timings:"));
}

#[test]
fn function_headings_number_from_one() {
    assert_eq!(
        render_function_heading(0, "run", "src\\lib.rs", 10, 20),
        "\n#1\nFunction: run\nLocation: src/lib.rs:10-20\n"
    );
}

#[test]
fn numbers_are_written_in_decimal() {
    let text: String = decimal_chars(0).into_iter().collect();
    assert_eq!(text, "0");
    let text: String = decimal_chars(1_234_567_890_123).into_iter().collect();
    assert_eq!(text, "1234567890123");
}
