use codem8::duplicate::{detect_duplicate_blocks, try_detect_duplicate_blocks};
use codem8::language::classification::hash_normalized_line;
use codem8::line::{normalize_line, process_source_bytes, process_source_text};
use codem8::model::{DuplicateBlock, DuplicateOccurrence, LineEntry, LineStatus, ProcessedFile, SourceFile};

fn processed_file(path: &str, extension: &str, lines: &[(&str, LineStatus)]) -> ProcessedFile {
    let line_entries = lines
        .iter()
        .enumerate()
        .map(|(index, (text, status))| LineEntry {
            file_path: path.to_string(),
            line_number: index + 1,
            normalized_text: (*text).to_string(),
            hash: hash_normalized_line(text),
            status: *status,
        })
        .collect();
    ProcessedFile {
        source: SourceFile {
            path: path.to_string(),
            display_path: path.to_string(),
            extension: extension.to_string(),
        },
        lines: line_entries,
    }
}

fn source(path: &str, extension: &str) -> SourceFile {
    SourceFile {
        path: path.to_string(),
        display_path: path.to_string(),
        extension: extension.to_string(),
    }
}

#[test]
fn groups_three_occurrences_of_the_same_block() {
    let files = vec![
        processed_file(
            "a.ts",
            "ts",
            &[("const value = one;", LineStatus::Comparison), ("return value;", LineStatus::Comparison)],
        ),
        processed_file(
            "b.ts",
            "ts",
            &[("const value = one;", LineStatus::Comparison), ("return value;", LineStatus::Comparison)],
        ),
        processed_file(
            "c.ts",
            "ts",
            &[("const value = one;", LineStatus::Comparison), ("return value;", LineStatus::Comparison)],
        ),
    ];
    let blocks = detect_duplicate_blocks(&files);
    assert_eq!(blocks.len(), 1);
    assert_eq!(blocks[0].occurrences.len(), 3);
    assert_eq!(blocks[0].normalized_lines, ["const value = one;", "return value;"]);
}

#[test]
fn ignores_single_line_duplicates_that_are_only_block_only_lines() {
    let files = vec![
        processed_file("a.ts", "ts", &[("}", LineStatus::BlockOnly)]),
        processed_file("b.ts", "ts", &[("}", LineStatus::BlockOnly)]),
    ];
    let blocks = detect_duplicate_blocks(&files);
    assert!(blocks.is_empty());
}

#[test]
fn includes_block_only_lines_inside_larger_duplicate_blocks() {
    let files = vec![
        processed_file(
            "a.ts",
            "ts",
            &[
                ("if (ready) {", LineStatus::Comparison),
                ("}", LineStatus::BlockOnly),
                ("return value;", LineStatus::Comparison),
            ],
        ),
        processed_file(
            "b.ts",
            "ts",
            &[
                ("if (ready) {", LineStatus::Comparison),
                ("}", LineStatus::BlockOnly),
                ("return value;", LineStatus::Comparison),
            ],
        ),
    ];
    let blocks = detect_duplicate_blocks(&files);
    assert_eq!(blocks.len(), 1);
    assert_eq!(blocks[0].normalized_lines, ["if (ready) {", "}", "return value;"]);
}

#[test]
fn rejects_overlapping_duplicate_ranges_in_the_same_file() {
    let files = vec![processed_file(
        "a.ts",
        "ts",
        &[
            ("const value = one;", LineStatus::Comparison),
            ("const value = one;", LineStatus::Comparison),
            ("const value = one;", LineStatus::Comparison),
        ],
    )];
    let blocks = detect_duplicate_blocks(&files);
    assert!(!blocks.iter().any(|block| {
        block.normalized_lines == ["const value = one;", "const value = one;"]
            && block.occurrences.iter().any(|occurrence| occurrence.start_line == 1)
            && block.occurrences.iter().any(|occurrence| occurrence.start_line == 2)
    }));
}

#[test]
fn weight_counts_extra_copies_lines_and_characters() {
    let files = vec![
        processed_file("a.ts", "ts", &[("ab", LineStatus::Comparison), ("cde", LineStatus::Comparison)]),
        processed_file("b.ts", "ts", &[("ab", LineStatus::Comparison), ("cde", LineStatus::Comparison)]),
        processed_file("c.ts", "ts", &[("ab", LineStatus::Comparison), ("cde", LineStatus::Comparison)]),
    ];
    let blocks = detect_duplicate_blocks(&files);
    assert_eq!(blocks.len(), 1);
    assert_eq!(blocks[0].weight, 2 * 2 * 5);
    assert_eq!(blocks[0].line_count(), 2);
    assert_eq!(blocks[0].character_count(), 5);
    assert_eq!(
        blocks[0].occurrences,
        [
            DuplicateOccurrence { file_path: "a.ts".to_string(), start_line: 1, end_line: 2 },
            DuplicateOccurrence { file_path: "b.ts".to_string(), start_line: 1, end_line: 2 },
            DuplicateOccurrence { file_path: "c.ts".to_string(), start_line: 1, end_line: 2 },
        ]
    );
}

#[test]
fn heavier_blocks_come_first() {
    let files = vec![
        processed_file(
            "a.ts",
            "ts",
            &[
                ("short", LineStatus::Comparison),
                ("x", LineStatus::Comparison),
                ("a much longer line of code", LineStatus::Comparison),
            ],
        ),
        processed_file(
            "b.ts",
            "ts",
            &[
                ("short", LineStatus::Comparison),
                ("y", LineStatus::Comparison),
                ("a much longer line of code", LineStatus::Comparison),
            ],
        ),
    ];
    let blocks = detect_duplicate_blocks(&files);
    assert_eq!(blocks.len(), 2);
    assert_eq!(blocks[0].normalized_lines, ["a much longer line of code"]);
    assert_eq!(blocks[1].normalized_lines, ["short"]);
    assert!(blocks[0].weight >= blocks[1].weight);
}

#[test]
fn no_files_give_no_blocks() {
    let blocks: Vec<DuplicateBlock> = detect_duplicate_blocks(&[]);
    assert!(blocks.is_empty());
}

#[test]
fn trims_unicode_whitespace_and_skips_empty_lines() {
    assert_eq!(normalize_line("\t value \u{2003}"), Some("value".to_string()));
    assert_eq!(normalize_line(" \t "), None);
}

#[test]
fn processes_text_lines_with_original_line_numbers() {
    let processed = process_source_text(&source("sample.ts", "ts"), "  const value = 1;  \n\n   }\n");
    assert_eq!(processed.lines.len(), 2);
    assert_eq!(processed.lines[0].line_number, 1);
    assert_eq!(processed.lines[0].normalized_text, "const value = 1;");
    assert_eq!(processed.lines[0].status, LineStatus::Comparison);
    assert_eq!(processed.lines[0].hash, hash_normalized_line("const value = 1;"));
    assert_eq!(processed.lines[0].file_path, "sample.ts");
    assert_eq!(processed.lines[1].line_number, 3);
    assert_eq!(processed.lines[1].normalized_text, "}");
    assert_eq!(processed.lines[1].status, LineStatus::BlockOnly);
}

#[test]
fn processing_handles_carriage_returns_and_a_last_line_without_newline() {
    let processed = process_source_text(&source("win.rs", "rs"), "fn a() {\r\n  b();\r\n}");
    let texts: Vec<&str> = processed.lines.iter().map(|line| line.normalized_text.as_str()).collect();
    assert_eq!(texts, ["fn a() {", "b();", "}"]);
    assert_eq!(processed.lines[2].line_number, 3);
}

#[test]
fn invalid_utf8_bytes_give_a_clear_error() {
    let error = process_source_bytes(&source("src\\bad.ts", "ts"), vec![b'a', 0xff, b'\n'])
        .expect_err("invalid UTF-8 fails");
    assert_eq!(error.to_string(), "could not read src/bad.ts as UTF-8 text: stream did not contain valid UTF-8");
    let processed = process_source_bytes(&source("ok.ts", "ts"), b"x\n".to_vec()).expect("valid UTF-8");
    assert_eq!(processed.lines.len(), 1);
}

#[test]
fn checked_detection_gives_the_same_blocks_when_weights_fit() {
    let files = vec![
        processed_file("a.ts", "ts", &[("abc", LineStatus::Comparison), ("de", LineStatus::Comparison)]),
        processed_file("b.ts", "ts", &[("abc", LineStatus::Comparison), ("de", LineStatus::Comparison)]),
    ];
    let checked = try_detect_duplicate_blocks(&files).expect("weights fit");
    assert_eq!(checked, detect_duplicate_blocks(&files));
    assert_eq!(checked[0].weight, 10);
    assert_eq!(try_detect_duplicate_blocks(&[]), Some(Vec::new()));
}
