use std::collections::HashMap;

use codem8::language::classification::{classify_line, hash_normalized_line, matches_duplicate_mitigation_pattern};
use codem8::language::patterns::language_patterns;
use codem8::language::registry::{languages, supported_file_extensions};
use codem8::model::LineStatus;

fn status(extension: &str, line: &str) -> LineStatus {
    classify_line(extension, line, hash_normalized_line(line))
}

#[test]
fn language_empty_character_pattern_does_not_match() {
    assert!(!matches_duplicate_mitigation_pattern("}", &[]));
}

#[test]
fn classification_empty_character_pattern_does_not_match() {
    assert!(!matches_duplicate_mitigation_pattern("}", &[]));
}

#[test]
fn collects_supported_file_extensions_from_language_patterns() {
    let extensions = supported_file_extensions();
    for language in language_patterns() {
        for extension in language.language.extensions {
            assert!(extensions.iter().any(|selected| selected == extension));
        }
    }
}

#[test]
fn language_patterns_are_sorted_by_name() {
    let patterns = language_patterns();
    for pair in patterns.windows(2) {
        assert!(
            pair[0].language.language_name.to_ascii_lowercase()
                <= pair[1].language.language_name.to_ascii_lowercase()
        );
    }
}

#[test]
fn language_patterns_use_unique_extensions() {
    let mut languages_by_extension = HashMap::new();
    for language in language_patterns() {
        for extension in language.language.extensions {
            let previous = languages_by_extension.insert(extension, language.language.language_name);
            assert!(
                previous.is_none(),
                "{extension} belongs to both {} and {}",
                previous.unwrap_or_default(),
                language.language.language_name
            );
        }
    }
}

#[test]
fn language_patterns_are_sorted_by_language_name() {
    let patterns = language_patterns();
    for pair in patterns.windows(2) {
        assert!(
            pair[0].language.language_name.to_ascii_lowercase()
                <= pair[1].language.language_name.to_ascii_lowercase()
        );
    }
}

#[test]
fn collects_supported_file_extensions_from_language_registry() {
    let extensions = supported_file_extensions();
    for language in languages() {
        for extension in language.extensions {
            assert!(extensions.iter().any(|selected| selected == extension));
        }
    }
}

#[test]
fn languages_are_sorted_by_name() {
    let all = languages();
    for pair in all.windows(2) {
        assert!(pair[0].language_name.to_ascii_lowercase() <= pair[1].language_name.to_ascii_lowercase());
    }
}

#[test]
fn languages_use_unique_extensions() {
    let mut languages_by_extension = HashMap::new();
    for language in languages() {
        for extension in language.extensions {
            let previous = languages_by_extension.insert(extension, language.language_name);
            assert!(
                previous.is_none(),
                "{extension} belongs to both {} and {}",
                previous.unwrap_or_default(),
                language.language_name
            );
        }
    }
}

#[test]
fn language_assigns_block_only_status_from_extension_specific_line_registry() {
    assert_eq!(status("rs", ".into_iter()"), LineStatus::BlockOnly);
}

#[test]
fn language_assigns_comparison_status_for_meaningful_lines() {
    assert_eq!(status("ts", "const value = computeValue(input);"), LineStatus::Comparison);
}

#[test]
fn language_verifies_text_after_hash_lookup() {
    let hash = hash_normalized_line("}");
    assert_eq!(classify_line("ts", "not-a-brace", hash), LineStatus::Comparison);
}

#[test]
fn language_assigns_block_only_status_from_character_pattern() {
    assert_eq!(status("ts", "} \t);"), LineStatus::BlockOnly);
}

#[test]
fn language_assigns_block_only_status_from_regexps() {
    assert_eq!(status("rs", ".update()"), LineStatus::BlockOnly);
}

#[test]
fn language_regexps_must_match_the_full_line() {
    assert_eq!(status("rs", ".update()?.await"), LineStatus::Comparison);
}

#[test]
fn language_assigns_block_only_status_for_typescript_codegen_lines() {
    let lines = [
        "// @ts-nocheck",
        "/* eslint-disable */",
        "errors: DeleteViewsError[]",
        "__typename: 'DeleteViewsResponse'",
    ];
    for line in lines {
        assert_eq!(status("ts", line), LineStatus::BlockOnly);
    }
}

#[test]
fn language_assigns_block_only_status_for_yaml_lines() {
    assert_eq!(status("yaml", "jobs:"), LineStatus::BlockOnly);
}

#[test]
fn language_assigns_comparison_status_for_json_lines() {
    assert_eq!(status("json", "}"), LineStatus::Comparison);
}

#[test]
fn language_ignores_character_pattern_for_unknown_extensions() {
    assert_eq!(status("unknown", "});"), LineStatus::Comparison);
}

#[test]
fn classification_assigns_block_only_status_from_extension_specific_line_registry() {
    assert_eq!(status("rs", ".into_iter()"), LineStatus::BlockOnly);
}

#[test]
fn assigns_block_only_status_for_rust_assert_macro_openers() {
    for line in ["assert!(", "assert_eq!("] {
        assert_eq!(status("rs", line), LineStatus::BlockOnly);
    }
}

#[test]
fn classification_assigns_comparison_status_for_meaningful_lines() {
    assert_eq!(status("ts", "const value = computeValue(input);"), LineStatus::Comparison);
}

#[test]
fn classification_verifies_text_after_hash_lookup() {
    let hash = hash_normalized_line("}");
    assert_eq!(classify_line("ts", "not-a-brace", hash), LineStatus::Comparison);
}

#[test]
fn classification_assigns_block_only_status_from_character_pattern() {
    assert_eq!(status("ts", "} \t);"), LineStatus::BlockOnly);
}

#[test]
fn classification_assigns_block_only_status_from_regexps() {
    assert_eq!(status("rs", ".update()"), LineStatus::BlockOnly);
}

#[test]
fn classification_regexps_must_match_the_full_line() {
    assert_eq!(status("rs", ".update()?.await"), LineStatus::Comparison);
}

#[test]
fn classification_assigns_block_only_status_for_typescript_codegen_lines() {
    let lines = [
        "// @ts-nocheck",
        "/* eslint-disable */",
        "errors: DeleteViewsError[]",
        "__typename: 'DeleteViewsResponse'",
    ];
    for line in lines {
        assert_eq!(status("ts", line), LineStatus::BlockOnly);
    }
}

#[test]
fn classification_assigns_block_only_status_for_yaml_lines() {
    assert_eq!(status("yaml", "jobs:"), LineStatus::BlockOnly);
}

#[test]
fn classification_assigns_comparison_status_for_json_lines() {
    assert_eq!(status("json", "}"), LineStatus::Comparison);
}

#[test]
fn classification_ignores_character_pattern_for_unknown_extensions() {
    assert_eq!(status("unknown", "});"), LineStatus::Comparison);
}

#[test]
fn extensions_are_compared_without_ascii_case() {
    assert_eq!(status("RS", ".into_iter()"), LineStatus::BlockOnly);
}

#[test]
fn character_pattern_accepts_white_space_and_listed_characters_only() {
    assert!(matches_duplicate_mitigation_pattern(" } ) ", &['}', ')']));
    assert!(matches_duplicate_mitigation_pattern("", &['}']));
    assert!(!matches_duplicate_mitigation_pattern("}x", &['}']));
}

#[test]
fn hashing_differs_for_different_lines() {
    assert_ne!(hash_normalized_line("}"), hash_normalized_line("{"));
    assert_eq!(hash_normalized_line("}"), hash_normalized_line("}"));
    assert_eq!(hash_normalized_line(""), 0x99aa06d3014798d86001c324468d497f);
}

#[test]
fn supported_extensions_have_no_repeats() {
    let extensions = supported_file_extensions();
    for (index, extension) in extensions.iter().enumerate() {
        assert!(!extensions[..index].contains(extension));
    }
    assert!(extensions.iter().any(|extension| extension == "rs"));
    assert!(extensions.iter().any(|extension| extension == "ts"));
}

#[test]
fn classification_ignores_the_case_of_the_extension() {
    for line in [".into_iter()", "} \t);", ".update()", "const value = 1;"] {
        let hash = hash_normalized_line(line);
        assert_eq!(classify_line("rs", line, hash), classify_line("RS", line, hash));
        assert_eq!(classify_line("ts", line, hash), classify_line("Ts", line, hash));
    }
    assert_eq!(status("unsupported", "}"), LineStatus::Comparison);
}
