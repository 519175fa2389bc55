//! The lines of each language that may only appear inside a duplicate
//! block, never start one.

use vstd::prelude::*;

use super::registry::{
    language_view, str_views, Language, LanguageView, bash_language, bash_language_view, c_language, c_language_view, c_plus_plus_language, c_plus_plus_language_view, c_sharp_language, c_sharp_language_view, css_language, css_language_view, fish_language, fish_language_view, go_language, go_language_view, html_language, html_language_view, java_language, java_language_view, javascript_language, javascript_language_view, kotlin_language, kotlin_language_view, less_language, less_language_view, objective_c_language, objective_c_language_view, php_language, php_language_view, powershell_language, powershell_language_view, python_language, python_language_view, ruby_language, ruby_language_view, rust_language, rust_language_view, sass_language, sass_language_view, scala_language, scala_language_view, scss_language, scss_language_view, shell_language, shell_language_view, sql_language, sql_language_view, swift_language, swift_language_view, typescript_language, typescript_language_view, xml_language, xml_language_view, yaml_language, yaml_language_view, zsh_language, zsh_language_view,
};

verus! {

/// The lines of one language that alone are too common to count as a
/// duplicate: lines made only of some characters, given lines, and lines
/// that a regular expression matches in full.
pub struct LanguageLinePattern {
    pub language: Language,
    pub duplicate_mitigation_pattern: Vec<char>,
    pub duplicate_mitigation_lines: Vec<&'static str>,
    pub duplicate_mitigation_regexps: Vec<&'static str>,
}

/// A line pattern as the specification sees it: the language, the
/// characters, the lines and the regular expressions.
pub type LinePatternView = (LanguageView, Seq<char>, Seq<Seq<char>>, Seq<Seq<char>>);

pub open spec fn line_pattern_view(p: LanguageLinePattern) -> LinePatternView {
    (
        language_view(p.language),
        p.duplicate_mitigation_pattern@,
        str_views(p.duplicate_mitigation_lines@),
        str_views(p.duplicate_mitigation_regexps@),
    )
}

pub open spec fn bash_line_pattern_view() -> LinePatternView {
    (
        bash_language_view(),
        seq!['&', '(', ')', ';', '[', ']', '{', '|', '}'],
        seq!["do"@, "done"@, "else"@, "fi"@, "then"@],
        seq![],
    )
}

pub fn bash_line_pattern() -> (p: LanguageLinePattern)
    ensures
        line_pattern_view(p) == bash_line_pattern_view(),
{
    let p = LanguageLinePattern {
        language: bash_language(),
        duplicate_mitigation_pattern: vec!['&', '(', ')', ';', '[', ']', '{', '|', '}'],
        duplicate_mitigation_lines: vec!["do", "done", "else", "fi", "then"],
        duplicate_mitigation_regexps: vec![
        ],
    };
    assert(p.duplicate_mitigation_pattern@ =~= bash_line_pattern_view().1);
    assert(str_views(p.duplicate_mitigation_lines@) =~= bash_line_pattern_view().2);
    assert(str_views(p.duplicate_mitigation_regexps@) =~= bash_line_pattern_view().3);
    p
}

pub open spec fn c_line_pattern_view() -> LinePatternView {
    (
        c_language_view(),
        seq!['(', ')', ',', ':', ';', '<', '>', '?', '[', ']', '{', '}'],
        seq!["#else"@, "#endif"@],
        seq![],
    )
}

pub fn c_line_pattern() -> (p: LanguageLinePattern)
    ensures
        line_pattern_view(p) == c_line_pattern_view(),
{
    let p = LanguageLinePattern {
        language: c_language(),
        duplicate_mitigation_pattern: vec!['(', ')', ',', ':', ';', '<', '>', '?', '[', ']', '{', '}'],
        duplicate_mitigation_lines: vec!["#else", "#endif"],
        duplicate_mitigation_regexps: vec![
        ],
    };
    assert(p.duplicate_mitigation_pattern@ =~= c_line_pattern_view().1);
    assert(str_views(p.duplicate_mitigation_lines@) =~= c_line_pattern_view().2);
    assert(str_views(p.duplicate_mitigation_regexps@) =~= c_line_pattern_view().3);
    p
}

pub open spec fn c_sharp_line_pattern_view() -> LinePatternView {
    (
        c_sharp_language_view(),
        seq!['(', ')', ',', ':', ';', '<', '>', '?', '[', ']', '{', '}'],
        seq!["#else"@, "#endif"@, "#endregion"@],
        seq![],
    )
}

pub fn c_sharp_line_pattern() -> (p: LanguageLinePattern)
    ensures
        line_pattern_view(p) == c_sharp_line_pattern_view(),
{
    let p = LanguageLinePattern {
        language: c_sharp_language(),
        duplicate_mitigation_pattern: vec!['(', ')', ',', ':', ';', '<', '>', '?', '[', ']', '{', '}'],
        duplicate_mitigation_lines: vec!["#else", "#endif", "#endregion"],
        duplicate_mitigation_regexps: vec![
        ],
    };
    assert(p.duplicate_mitigation_pattern@ =~= c_sharp_line_pattern_view().1);
    assert(str_views(p.duplicate_mitigation_lines@) =~= c_sharp_line_pattern_view().2);
    assert(str_views(p.duplicate_mitigation_regexps@) =~= c_sharp_line_pattern_view().3);
    p
}

pub open spec fn c_plus_plus_line_pattern_view() -> LinePatternView {
    (
        c_plus_plus_language_view(),
        seq!['(', ')', ',', ':', ';', '<', '>', '?', '[', ']', '{', '}'],
        seq!["#else"@, "#endif"@],
        seq![],
    )
}

pub fn c_plus_plus_line_pattern() -> (p: LanguageLinePattern)
    ensures
        line_pattern_view(p) == c_plus_plus_line_pattern_view(),
{
    let p = LanguageLinePattern {
        language: c_plus_plus_language(),
        duplicate_mitigation_pattern: vec!['(', ')', ',', ':', ';', '<', '>', '?', '[', ']', '{', '}'],
        duplicate_mitigation_lines: vec!["#else", "#endif"],
        duplicate_mitigation_regexps: vec![
        ],
    };
    assert(p.duplicate_mitigation_pattern@ =~= c_plus_plus_line_pattern_view().1);
    assert(str_views(p.duplicate_mitigation_lines@) =~= c_plus_plus_line_pattern_view().2);
    assert(str_views(p.duplicate_mitigation_regexps@) =~= c_plus_plus_line_pattern_view().3);
    p
}

pub open spec fn css_line_pattern_view() -> LinePatternView {
    (
        css_language_view(),
        seq!['(', ')', ',', ':', ';', '[', ']', '{', '}'],
        seq![],
        seq![],
    )
}

pub fn css_line_pattern() -> (p: LanguageLinePattern)
    ensures
        line_pattern_view(p) == css_line_pattern_view(),
{
    let p = LanguageLinePattern {
        language: css_language(),
        duplicate_mitigation_pattern: vec!['(', ')', ',', ':', ';', '[', ']', '{', '}'],
        duplicate_mitigation_lines: vec![],
        duplicate_mitigation_regexps: vec![
        ],
    };
    assert(p.duplicate_mitigation_pattern@ =~= css_line_pattern_view().1);
    assert(str_views(p.duplicate_mitigation_lines@) =~= css_line_pattern_view().2);
    assert(str_views(p.duplicate_mitigation_regexps@) =~= css_line_pattern_view().3);
    p
}

pub open spec fn fish_line_pattern_view() -> LinePatternView {
    (
        fish_language_view(),
        seq!['&', '(', ')', ';', '[', ']', '{', '|', '}'],
        seq!["else"@, "end"@],
        seq![],
    )
}

pub fn fish_line_pattern() -> (p: LanguageLinePattern)
    ensures
        line_pattern_view(p) == fish_line_pattern_view(),
{
    let p = LanguageLinePattern {
        language: fish_language(),
        duplicate_mitigation_pattern: vec!['&', '(', ')', ';', '[', ']', '{', '|', '}'],
        duplicate_mitigation_lines: vec!["else", "end"],
        duplicate_mitigation_regexps: vec![
        ],
    };
    assert(p.duplicate_mitigation_pattern@ =~= fish_line_pattern_view().1);
    assert(str_views(p.duplicate_mitigation_lines@) =~= fish_line_pattern_view().2);
    assert(str_views(p.duplicate_mitigation_regexps@) =~= fish_line_pattern_view().3);
    p
}

pub open spec fn go_line_pattern_view() -> LinePatternView {
    (
        go_language_view(),
        seq!['(', ')', ',', ':', ';', '[', ']', '{', '}'],
        seq![],
        seq![],
    )
}

pub fn go_line_pattern() -> (p: LanguageLinePattern)
    ensures
        line_pattern_view(p) == go_line_pattern_view(),
{
    let p = LanguageLinePattern {
        language: go_language(),
        duplicate_mitigation_pattern: vec!['(', ')', ',', ':', ';', '[', ']', '{', '}'],
        duplicate_mitigation_lines: vec![],
        duplicate_mitigation_regexps: vec![
        ],
    };
    assert(p.duplicate_mitigation_pattern@ =~= go_line_pattern_view().1);
    assert(str_views(p.duplicate_mitigation_lines@) =~= go_line_pattern_view().2);
    assert(str_views(p.duplicate_mitigation_regexps@) =~= go_line_pattern_view().3);
    p
}

pub open spec fn html_line_pattern_view() -> LinePatternView {
    (
        html_language_view(),
        seq!['/', '<', '>'],
        seq!["</article>"@, "</body>"@, "</div>"@, "</html>"@, "</section>"@, "</span>"@],
        seq![],
    )
}

pub fn html_line_pattern() -> (p: LanguageLinePattern)
    ensures
        line_pattern_view(p) == html_line_pattern_view(),
{
    let p = LanguageLinePattern {
        language: html_language(),
        duplicate_mitigation_pattern: vec!['/', '<', '>'],
        duplicate_mitigation_lines: vec!["</article>", "</body>", "</div>", "</html>", "</section>", "</span>"],
        duplicate_mitigation_regexps: vec![
        ],
    };
    assert(p.duplicate_mitigation_pattern@ =~= html_line_pattern_view().1);
    assert(str_views(p.duplicate_mitigation_lines@) =~= html_line_pattern_view().2);
    assert(str_views(p.duplicate_mitigation_regexps@) =~= html_line_pattern_view().3);
    p
}

pub open spec fn java_line_pattern_view() -> LinePatternView {
    (
        java_language_view(),
        seq!['(', ')', ',', ':', ';', '<', '>', '?', '[', ']', '{', '}'],
        seq![],
        seq![],
    )
}

pub fn java_line_pattern() -> (p: LanguageLinePattern)
    ensures
        line_pattern_view(p) == java_line_pattern_view(),
{
    let p = LanguageLinePattern {
        language: java_language(),
        duplicate_mitigation_pattern: vec!['(', ')', ',', ':', ';', '<', '>', '?', '[', ']', '{', '}'],
        duplicate_mitigation_lines: vec![],
        duplicate_mitigation_regexps: vec![
        ],
    };
    assert(p.duplicate_mitigation_pattern@ =~= java_line_pattern_view().1);
    assert(str_views(p.duplicate_mitigation_lines@) =~= java_line_pattern_view().2);
    assert(str_views(p.duplicate_mitigation_regexps@) =~= java_line_pattern_view().3);
    p
}

pub open spec fn javascript_line_pattern_view() -> LinePatternView {
    (
        javascript_language_view(),
        seq!['&', '(', ')', ',', ':', ';', '<', '>', '?', '[', ']', '{', '|', '}'],
        seq!["// @ts-nocheck"@],
        seq![r"^/\*.*\*/$"@,
            r"^[A-Za-z_$][A-Za-z0-9_$]*\??:\s*(?:Scalars\['[A-Za-z]+'\]|[A-Z][A-Za-z0-9_$]*(?:\[\])?|[a-z]+(?:\[\])?|\([^)]*\))(?:\[\])?(?:\s*\|\s*(?:null|number|boolean|string))*[,]?$"@,
            r"^__typename:\s*'[A-Za-z_$][A-Za-z0-9_$]*'[,]?$"@],
    )
}

pub fn javascript_line_pattern() -> (p: LanguageLinePattern)
    ensures
        line_pattern_view(p) == javascript_line_pattern_view(),
{
    let p = LanguageLinePattern {
        language: javascript_language(),
        duplicate_mitigation_pattern: vec!['&', '(', ')', ',', ':', ';', '<', '>', '?', '[', ']', '{', '|', '}'],
        duplicate_mitigation_lines: vec!["// @ts-nocheck"],
        duplicate_mitigation_regexps: vec![
            // Excludes single-line block comments used by generated files and tooling. Example: /* eslint-disable */
            r"^/\*.*\*/$",
            // Excludes generated interface field declarations. Example: errors: InvalidInputError[]
            r"^[A-Za-z_$][A-Za-z0-9_$]*\??:\s*(?:Scalars\['[A-Za-z]+'\]|[A-Z][A-Za-z0-9_$]*(?:\[\])?|[a-z]+(?:\[\])?|\([^)]*\))(?:\[\])?(?:\s*\|\s*(?:null|number|boolean|string))*[,]?$",
            // Excludes generated GraphQL typename marker fields. Example: __typename: 'User'
            r"^__typename:\s*'[A-Za-z_$][A-Za-z0-9_$]*'[,]?$",
        ],
    };
    assert(p.duplicate_mitigation_pattern@ =~= javascript_line_pattern_view().1);
    assert(str_views(p.duplicate_mitigation_lines@) =~= javascript_line_pattern_view().2);
    assert(str_views(p.duplicate_mitigation_regexps@) =~= javascript_line_pattern_view().3);
    p
}

pub open spec fn kotlin_line_pattern_view() -> LinePatternView {
    (
        kotlin_language_view(),
        seq!['(', ')', ',', ':', ';', '<', '>', '?', '[', ']', '{', '}'],
        seq![],
        seq![],
    )
}

pub fn kotlin_line_pattern() -> (p: LanguageLinePattern)
    ensures
        line_pattern_view(p) == kotlin_line_pattern_view(),
{
    let p = LanguageLinePattern {
        language: kotlin_language(),
        duplicate_mitigation_pattern: vec!['(', ')', ',', ':', ';', '<', '>', '?', '[', ']', '{', '}'],
        duplicate_mitigation_lines: vec![],
        duplicate_mitigation_regexps: vec![
        ],
    };
    assert(p.duplicate_mitigation_pattern@ =~= kotlin_line_pattern_view().1);
    assert(str_views(p.duplicate_mitigation_lines@) =~= kotlin_line_pattern_view().2);
    assert(str_views(p.duplicate_mitigation_regexps@) =~= kotlin_line_pattern_view().3);
    p
}

pub open spec fn less_line_pattern_view() -> LinePatternView {
    (
        less_language_view(),
        seq!['(', ')', ',', ':', ';', '[', ']', '{', '}'],
        seq![],
        seq![],
    )
}

pub fn less_line_pattern() -> (p: LanguageLinePattern)
    ensures
        line_pattern_view(p) == less_line_pattern_view(),
{
    let p = LanguageLinePattern {
        language: less_language(),
        duplicate_mitigation_pattern: vec!['(', ')', ',', ':', ';', '[', ']', '{', '}'],
        duplicate_mitigation_lines: vec![],
        duplicate_mitigation_regexps: vec![
        ],
    };
    assert(p.duplicate_mitigation_pattern@ =~= less_line_pattern_view().1);
    assert(str_views(p.duplicate_mitigation_lines@) =~= less_line_pattern_view().2);
    assert(str_views(p.duplicate_mitigation_regexps@) =~= less_line_pattern_view().3);
    p
}

pub open spec fn objective_c_line_pattern_view() -> LinePatternView {
    (
        objective_c_language_view(),
        seq!['(', ')', ',', ':', ';', '<', '>', '?', '[', ']', '{', '}'],
        seq!["#else"@, "#endif"@],
        seq![],
    )
}

pub fn objective_c_line_pattern() -> (p: LanguageLinePattern)
    ensures
        line_pattern_view(p) == objective_c_line_pattern_view(),
{
    let p = LanguageLinePattern {
        language: objective_c_language(),
        duplicate_mitigation_pattern: vec!['(', ')', ',', ':', ';', '<', '>', '?', '[', ']', '{', '}'],
        duplicate_mitigation_lines: vec!["#else", "#endif"],
        duplicate_mitigation_regexps: vec![
        ],
    };
    assert(p.duplicate_mitigation_pattern@ =~= objective_c_line_pattern_view().1);
    assert(str_views(p.duplicate_mitigation_lines@) =~= objective_c_line_pattern_view().2);
    assert(str_views(p.duplicate_mitigation_regexps@) =~= objective_c_line_pattern_view().3);
    p
}

pub open spec fn php_line_pattern_view() -> LinePatternView {
    (
        php_language_view(),
        seq!['(', ')', ',', '/', ':', ';', '<', '>', '?', '[', ']', '{', '}'],
        seq![],
        seq![],
    )
}

pub fn php_line_pattern() -> (p: LanguageLinePattern)
    ensures
        line_pattern_view(p) == php_line_pattern_view(),
{
    let p = LanguageLinePattern {
        language: php_language(),
        duplicate_mitigation_pattern: vec!['(', ')', ',', '/', ':', ';', '<', '>', '?', '[', ']', '{', '}'],
        duplicate_mitigation_lines: vec![],
        duplicate_mitigation_regexps: vec![
        ],
    };
    assert(p.duplicate_mitigation_pattern@ =~= php_line_pattern_view().1);
    assert(str_views(p.duplicate_mitigation_lines@) =~= php_line_pattern_view().2);
    assert(str_views(p.duplicate_mitigation_regexps@) =~= php_line_pattern_view().3);
    p
}

pub open spec fn powershell_line_pattern_view() -> LinePatternView {
    (
        powershell_language_view(),
        seq!['(', ')', ',', ':', ';', '?', '[', ']', '{', '|', '}'],
        seq![],
        seq![],
    )
}

pub fn powershell_line_pattern() -> (p: LanguageLinePattern)
    ensures
        line_pattern_view(p) == powershell_line_pattern_view(),
{
    let p = LanguageLinePattern {
        language: powershell_language(),
        duplicate_mitigation_pattern: vec!['(', ')', ',', ':', ';', '?', '[', ']', '{', '|', '}'],
        duplicate_mitigation_lines: vec![],
        duplicate_mitigation_regexps: vec![
        ],
    };
    assert(p.duplicate_mitigation_pattern@ =~= powershell_line_pattern_view().1);
    assert(str_views(p.duplicate_mitigation_lines@) =~= powershell_line_pattern_view().2);
    assert(str_views(p.duplicate_mitigation_regexps@) =~= powershell_line_pattern_view().3);
    p
}

pub open spec fn python_line_pattern_view() -> LinePatternView {
    (
        python_language_view(),
        seq!['(', ')', ',', ':', ';', '[', ']', '{', '}'],
        seq![],
        seq![],
    )
}

pub fn python_line_pattern() -> (p: LanguageLinePattern)
    ensures
        line_pattern_view(p) == python_line_pattern_view(),
{
    let p = LanguageLinePattern {
        language: python_language(),
        duplicate_mitigation_pattern: vec!['(', ')', ',', ':', ';', '[', ']', '{', '}'],
        duplicate_mitigation_lines: vec![],
        duplicate_mitigation_regexps: vec![
        ],
    };
    assert(p.duplicate_mitigation_pattern@ =~= python_line_pattern_view().1);
    assert(str_views(p.duplicate_mitigation_lines@) =~= python_line_pattern_view().2);
    assert(str_views(p.duplicate_mitigation_regexps@) =~= python_line_pattern_view().3);
    p
}

pub open spec fn ruby_line_pattern_view() -> LinePatternView {
    (
        ruby_language_view(),
        seq!['(', ')', ',', ':', ';', '?', '[', ']', '{', '}'],
        seq!["end"@],
        seq![],
    )
}

pub fn ruby_line_pattern() -> (p: LanguageLinePattern)
    ensures
        line_pattern_view(p) == ruby_line_pattern_view(),
{
    let p = LanguageLinePattern {
        language: ruby_language(),
        duplicate_mitigation_pattern: vec!['(', ')', ',', ':', ';', '?', '[', ']', '{', '}'],
        duplicate_mitigation_lines: vec!["end"],
        duplicate_mitigation_regexps: vec![
        ],
    };
    assert(p.duplicate_mitigation_pattern@ =~= ruby_line_pattern_view().1);
    assert(str_views(p.duplicate_mitigation_lines@) =~= ruby_line_pattern_view().2);
    assert(str_views(p.duplicate_mitigation_regexps@) =~= ruby_line_pattern_view().3);
    p
}

pub open spec fn rust_line_pattern_view() -> LinePatternView {
    (
        rust_language_view(),
        seq!['(', ')', ',', ':', ';', '<', '>', '?', '[', ']', '{', '}'],
        seq!["///"@, "#[test]"@, "assert!("@, "assert_eq!("@],
        seq![r"^[A-Za-z0-9_]*::?\s*[A-Za-z0-9_]*[,]?$"@,
            r"^[A-Za-z0-9_]+\s*[.,]?$"@,
            r"^\.?\s*[A-Za-z0-9_]+(?:\(\s*\)?)?$"@,
            r"^let\s+(?:mut\s+)?[A-Za-z0-9_]+\s*=$"@,
            r"^pub\s+[A-Za-z0-9_]*\s*:\s*[A-Za-z0-9_]*[,]?$"@,
            r"^use\s+[A-Za-z_][A-Za-z0-9_]*(?:::[A-Za-z_][A-Za-z0-9_]*)*;$"@],
    )
}

pub fn rust_line_pattern() -> (p: LanguageLinePattern)
    ensures
        line_pattern_view(p) == rust_line_pattern_view(),
{
    let p = LanguageLinePattern {
        language: rust_language(),
        duplicate_mitigation_pattern: vec!['(', ')', ',', ':', ';', '<', '>', '?', '[', ']', '{', '}'],
        duplicate_mitigation_lines: vec!["///", "#[test]", "assert!(", "assert_eq!("],
        duplicate_mitigation_regexps: vec![
            // Excludes short path or enum variant fragments. Example: Self::Ready,
            r"^[A-Za-z0-9_]*::?\s*[A-Za-z0-9_]*[,]?$",
            // Excludes bare identifiers with optional punctuation. Example: value,
            r"^[A-Za-z0-9_]+\s*[.,]?$",
            // Excludes simple method or field access lines. Example: .clone()
            r"^\.?\s*[A-Za-z0-9_]+(?:\(\s*\)?)?$",
            // Excludes incomplete let bindings split across lines. Example: let value =
            r"^let\s+(?:mut\s+)?[A-Za-z0-9_]+\s*=$",
            // Excludes simple public struct field declarations. Example: pub name: String,
            r"^pub\s+[A-Za-z0-9_]*\s*:\s*[A-Za-z0-9_]*[,]?$",
            // Excludes single-path use imports. Example: use crate::module;
            r"^use\s+[A-Za-z_][A-Za-z0-9_]*(?:::[A-Za-z_][A-Za-z0-9_]*)*;$",
        ],
    };
    assert(p.duplicate_mitigation_pattern@ =~= rust_line_pattern_view().1);
    assert(str_views(p.duplicate_mitigation_lines@) =~= rust_line_pattern_view().2);
    assert(str_views(p.duplicate_mitigation_regexps@) =~= rust_line_pattern_view().3);
    p
}

pub open spec fn sass_line_pattern_view() -> LinePatternView {
    (
        sass_language_view(),
        seq!['(', ')', ',', ':', ';', '[', ']', '{', '}'],
        seq![],
        seq![],
    )
}

pub fn sass_line_pattern() -> (p: LanguageLinePattern)
    ensures
        line_pattern_view(p) == sass_line_pattern_view(),
{
    let p = LanguageLinePattern {
        language: sass_language(),
        duplicate_mitigation_pattern: vec!['(', ')', ',', ':', ';', '[', ']', '{', '}'],
        duplicate_mitigation_lines: vec![],
        duplicate_mitigation_regexps: vec![
        ],
    };
    assert(p.duplicate_mitigation_pattern@ =~= sass_line_pattern_view().1);
    assert(str_views(p.duplicate_mitigation_lines@) =~= sass_line_pattern_view().2);
    assert(str_views(p.duplicate_mitigation_regexps@) =~= sass_line_pattern_view().3);
    p
}

pub open spec fn scala_line_pattern_view() -> LinePatternView {
    (
        scala_language_view(),
        seq!['(', ')', ',', ':', ';', '<', '>', '?', '[', ']', '{', '}'],
        seq![],
        seq![],
    )
}

pub fn scala_line_pattern() -> (p: LanguageLinePattern)
    ensures
        line_pattern_view(p) == scala_line_pattern_view(),
{
    let p = LanguageLinePattern {
        language: scala_language(),
        duplicate_mitigation_pattern: vec!['(', ')', ',', ':', ';', '<', '>', '?', '[', ']', '{', '}'],
        duplicate_mitigation_lines: vec![],
        duplicate_mitigation_regexps: vec![
        ],
    };
    assert(p.duplicate_mitigation_pattern@ =~= scala_line_pattern_view().1);
    assert(str_views(p.duplicate_mitigation_lines@) =~= scala_line_pattern_view().2);
    assert(str_views(p.duplicate_mitigation_regexps@) =~= scala_line_pattern_view().3);
    p
}

pub open spec fn scss_line_pattern_view() -> LinePatternView {
    (
        scss_language_view(),
        seq!['(', ')', ',', ':', ';', '[', ']', '{', '}'],
        seq![],
        seq![],
    )
}

pub fn scss_line_pattern() -> (p: LanguageLinePattern)
    ensures
        line_pattern_view(p) == scss_line_pattern_view(),
{
    let p = LanguageLinePattern {
        language: scss_language(),
        duplicate_mitigation_pattern: vec!['(', ')', ',', ':', ';', '[', ']', '{', '}'],
        duplicate_mitigation_lines: vec![],
        duplicate_mitigation_regexps: vec![
        ],
    };
    assert(p.duplicate_mitigation_pattern@ =~= scss_line_pattern_view().1);
    assert(str_views(p.duplicate_mitigation_lines@) =~= scss_line_pattern_view().2);
    assert(str_views(p.duplicate_mitigation_regexps@) =~= scss_line_pattern_view().3);
    p
}

pub open spec fn shell_line_pattern_view() -> LinePatternView {
    (
        shell_language_view(),
        seq!['&', '(', ')', ';', '[', ']', '{', '|', '}'],
        seq!["do"@, "done"@, "else"@, "fi"@, "then"@],
        seq![],
    )
}

pub fn shell_line_pattern() -> (p: LanguageLinePattern)
    ensures
        line_pattern_view(p) == shell_line_pattern_view(),
{
    let p = LanguageLinePattern {
        language: shell_language(),
        duplicate_mitigation_pattern: vec!['&', '(', ')', ';', '[', ']', '{', '|', '}'],
        duplicate_mitigation_lines: vec!["do", "done", "else", "fi", "then"],
        duplicate_mitigation_regexps: vec![
        ],
    };
    assert(p.duplicate_mitigation_pattern@ =~= shell_line_pattern_view().1);
    assert(str_views(p.duplicate_mitigation_lines@) =~= shell_line_pattern_view().2);
    assert(str_views(p.duplicate_mitigation_regexps@) =~= shell_line_pattern_view().3);
    p
}

pub open spec fn sql_line_pattern_view() -> LinePatternView {
    (
        sql_language_view(),
        seq!['(', ')', ',', ':', ';'],
        seq!["BEGIN"@, "END"@],
        seq![],
    )
}

pub fn sql_line_pattern() -> (p: LanguageLinePattern)
    ensures
        line_pattern_view(p) == sql_line_pattern_view(),
{
    let p = LanguageLinePattern {
        language: sql_language(),
        duplicate_mitigation_pattern: vec!['(', ')', ',', ':', ';'],
        duplicate_mitigation_lines: vec!["BEGIN", "END"],
        duplicate_mitigation_regexps: vec![
        ],
    };
    assert(p.duplicate_mitigation_pattern@ =~= sql_line_pattern_view().1);
    assert(str_views(p.duplicate_mitigation_lines@) =~= sql_line_pattern_view().2);
    assert(str_views(p.duplicate_mitigation_regexps@) =~= sql_line_pattern_view().3);
    p
}

pub open spec fn swift_line_pattern_view() -> LinePatternView {
    (
        swift_language_view(),
        seq!['(', ')', ',', ':', ';', '<', '>', '?', '[', ']', '{', '}'],
        seq![],
        seq![],
    )
}

pub fn swift_line_pattern() -> (p: LanguageLinePattern)
    ensures
        line_pattern_view(p) == swift_line_pattern_view(),
{
    let p = LanguageLinePattern {
        language: swift_language(),
        duplicate_mitigation_pattern: vec!['(', ')', ',', ':', ';', '<', '>', '?', '[', ']', '{', '}'],
        duplicate_mitigation_lines: vec![],
        duplicate_mitigation_regexps: vec![
        ],
    };
    assert(p.duplicate_mitigation_pattern@ =~= swift_line_pattern_view().1);
    assert(str_views(p.duplicate_mitigation_lines@) =~= swift_line_pattern_view().2);
    assert(str_views(p.duplicate_mitigation_regexps@) =~= swift_line_pattern_view().3);
    p
}

pub open spec fn typescript_line_pattern_view() -> LinePatternView {
    (
        typescript_language_view(),
        seq!['&', '(', ')', ',', ':', ';', '<', '>', '?', '[', ']', '{', '|', '}'],
        seq!["// @ts-nocheck"@],
        seq![r"^/\*.*\*/$"@,
            r"^[A-Za-z_$][A-Za-z0-9_$]*\??:\s*(?:Scalars\['[A-Za-z]+'\]|[A-Z][A-Za-z0-9_$]*(?:\[\])?|[a-z]+(?:\[\])?|\([^)]*\))(?:\[\])?(?:\s*\|\s*(?:null|number|boolean|string))*[,]?$"@,
            r"^__typename:\s*'[A-Za-z_$][A-Za-z0-9_$]*'[,]?$"@],
    )
}

pub fn typescript_line_pattern() -> (p: LanguageLinePattern)
    ensures
        line_pattern_view(p) == typescript_line_pattern_view(),
{
    let p = LanguageLinePattern {
        language: typescript_language(),
        duplicate_mitigation_pattern: vec!['&', '(', ')', ',', ':', ';', '<', '>', '?', '[', ']', '{', '|', '}'],
        duplicate_mitigation_lines: vec!["// @ts-nocheck"],
        duplicate_mitigation_regexps: vec![
            // Excludes single-line block comments used by generated files and tooling. Example: /* eslint-disable */
            r"^/\*.*\*/$",
            // Excludes generated interface field declarations. Example: errors: InvalidInputError[]
            r"^[A-Za-z_$][A-Za-z0-9_$]*\??:\s*(?:Scalars\['[A-Za-z]+'\]|[A-Z][A-Za-z0-9_$]*(?:\[\])?|[a-z]+(?:\[\])?|\([^)]*\))(?:\[\])?(?:\s*\|\s*(?:null|number|boolean|string))*[,]?$",
            // Excludes generated GraphQL typename marker fields. Example: __typename: 'User'
            r"^__typename:\s*'[A-Za-z_$][A-Za-z0-9_$]*'[,]?$",
        ],
    };
    assert(p.duplicate_mitigation_pattern@ =~= typescript_line_pattern_view().1);
    assert(str_views(p.duplicate_mitigation_lines@) =~= typescript_line_pattern_view().2);
    assert(str_views(p.duplicate_mitigation_regexps@) =~= typescript_line_pattern_view().3);
    p
}

pub open spec fn xml_line_pattern_view() -> LinePatternView {
    (
        xml_language_view(),
        seq!['/', '<', '>'],
        seq!["</article>"@, "</body>"@, "</div>"@, "</html>"@, "</section>"@, "</span>"@],
        seq![],
    )
}

pub fn xml_line_pattern() -> (p: LanguageLinePattern)
    ensures
        line_pattern_view(p) == xml_line_pattern_view(),
{
    let p = LanguageLinePattern {
        language: xml_language(),
        duplicate_mitigation_pattern: vec!['/', '<', '>'],
        duplicate_mitigation_lines: vec!["</article>", "</body>", "</div>", "</html>", "</section>", "</span>"],
        duplicate_mitigation_regexps: vec![
        ],
    };
    assert(p.duplicate_mitigation_pattern@ =~= xml_line_pattern_view().1);
    assert(str_views(p.duplicate_mitigation_lines@) =~= xml_line_pattern_view().2);
    assert(str_views(p.duplicate_mitigation_regexps@) =~= xml_line_pattern_view().3);
    p
}

pub open spec fn yaml_line_pattern_view() -> LinePatternView {
    (
        yaml_language_view(),
        seq!['(', ')', ',', ':', ';', '<', '>', '?', '[', ']', '{', '}'],
        seq!["jobs:"@, "on:"@],
        seq![],
    )
}

pub fn yaml_line_pattern() -> (p: LanguageLinePattern)
    ensures
        line_pattern_view(p) == yaml_line_pattern_view(),
{
    let p = LanguageLinePattern {
        language: yaml_language(),
        duplicate_mitigation_pattern: vec!['(', ')', ',', ':', ';', '<', '>', '?', '[', ']', '{', '}'],
        duplicate_mitigation_lines: vec!["jobs:", "on:"],
        duplicate_mitigation_regexps: vec![
        ],
    };
    assert(p.duplicate_mitigation_pattern@ =~= yaml_line_pattern_view().1);
    assert(str_views(p.duplicate_mitigation_lines@) =~= yaml_line_pattern_view().2);
    assert(str_views(p.duplicate_mitigation_regexps@) =~= yaml_line_pattern_view().3);
    p
}

pub open spec fn zsh_line_pattern_view() -> LinePatternView {
    (
        zsh_language_view(),
        seq!['&', '(', ')', ';', '[', ']', '{', '|', '}'],
        seq!["do"@, "done"@, "else"@, "fi"@, "then"@],
        seq![],
    )
}

pub fn zsh_line_pattern() -> (p: LanguageLinePattern)
    ensures
        line_pattern_view(p) == zsh_line_pattern_view(),
{
    let p = LanguageLinePattern {
        language: zsh_language(),
        duplicate_mitigation_pattern: vec!['&', '(', ')', ';', '[', ']', '{', '|', '}'],
        duplicate_mitigation_lines: vec!["do", "done", "else", "fi", "then"],
        duplicate_mitigation_regexps: vec![
        ],
    };
    assert(p.duplicate_mitigation_pattern@ =~= zsh_line_pattern_view().1);
    assert(str_views(p.duplicate_mitigation_lines@) =~= zsh_line_pattern_view().2);
    assert(str_views(p.duplicate_mitigation_regexps@) =~= zsh_line_pattern_view().3);
    p
}

/// The line patterns of every language, in the order of the languages.
pub open spec fn pattern_registry() -> Seq<LinePatternView> {
    seq![
        bash_line_pattern_view(),
        c_line_pattern_view(),
        c_sharp_line_pattern_view(),
        c_plus_plus_line_pattern_view(),
        css_line_pattern_view(),
        fish_line_pattern_view(),
        go_line_pattern_view(),
        html_line_pattern_view(),
        java_line_pattern_view(),
        javascript_line_pattern_view(),
        kotlin_line_pattern_view(),
        less_line_pattern_view(),
        objective_c_line_pattern_view(),
        php_line_pattern_view(),
        powershell_line_pattern_view(),
        python_line_pattern_view(),
        ruby_line_pattern_view(),
        rust_line_pattern_view(),
        sass_line_pattern_view(),
        scala_line_pattern_view(),
        scss_line_pattern_view(),
        shell_line_pattern_view(),
        sql_line_pattern_view(),
        swift_line_pattern_view(),
        typescript_line_pattern_view(),
        xml_line_pattern_view(),
        yaml_line_pattern_view(),
        zsh_line_pattern_view(),
    ]
}

/// The line patterns of every language, in the order of the languages.
pub fn language_patterns() -> (r: Vec<LanguageLinePattern>)
    ensures
        r@.map_values(|p: LanguageLinePattern| line_pattern_view(p)) == pattern_registry(),
{
    let r = vec![
        bash_line_pattern(),
        c_line_pattern(),
        c_sharp_line_pattern(),
        c_plus_plus_line_pattern(),
        css_line_pattern(),
        fish_line_pattern(),
        go_line_pattern(),
        html_line_pattern(),
        java_line_pattern(),
        javascript_line_pattern(),
        kotlin_line_pattern(),
        less_line_pattern(),
        objective_c_line_pattern(),
        php_line_pattern(),
        powershell_line_pattern(),
        python_line_pattern(),
        ruby_line_pattern(),
        rust_line_pattern(),
        sass_line_pattern(),
        scala_line_pattern(),
        scss_line_pattern(),
        shell_line_pattern(),
        sql_line_pattern(),
        swift_line_pattern(),
        typescript_line_pattern(),
        xml_line_pattern(),
        yaml_line_pattern(),
        zsh_line_pattern(),
    ];
    assert(r@.map_values(|p: LanguageLinePattern| line_pattern_view(p)) =~= pattern_registry());
    r
}

} // verus!
