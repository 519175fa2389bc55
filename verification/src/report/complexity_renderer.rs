//! The text of the complexity report, all but the measured metrics: those
//! are fractional numbers, which the program formats itself.

use vstd::prelude::*;

use crate::language::registry::string_views;
use crate::model::AnalyzedFile;
use crate::paths::{format_path, path_key};
use crate::report::format::{
    analyzed_files_text, comma_joined, duration_text, push_analyzed_files, push_decimal,
    push_duration, push_sorted_extensions, sorted_texts,
};
use crate::text::{decimal, push_str};

verus! {

/// How long each stage of a complexity search took, in microseconds.
#[derive(Debug, Clone, Copy, PartialEq, Eq, Structural)]
pub struct ComplexityReportTimings {
    pub discovery: u128,
    pub complexity_analysis: u128,
}

/// What the complexity report shows above its list of functions.
#[derive(Debug, Clone, PartialEq, Eq)]
pub struct ComplexitySummary {
    pub analyzed_files: usize,
    pub analyzed_extensions: Vec<String>,
    pub analyzed_file_paths: Option<Vec<AnalyzedFile>>,
    pub max_cognitive_complexity: u32,
    pub max_cyclomatic_complexity: u32,
    pub timings: Option<ComplexityReportTimings>,
    pub function_count: usize,
}

/// The analyzed files, the extensions and the limits, shown in verbose mode.
pub open spec fn complexity_details_text(summary: ComplexitySummary) -> Seq<char> {
    (match summary.analyzed_file_paths {
        Some(files) => "Files analyzed:\n"@ + analyzed_files_text(files@),
        None => Seq::empty(),
    }) + "Analyzed extensions: "@ + comma_joined(
        sorted_texts(string_views(summary.analyzed_extensions@)),
    ) + "\n"@ + "Max cognitive complexity: "@ + decimal(summary.max_cognitive_complexity as nat)
        + "\n"@ + "Max cyclomatic complexity: "@ + decimal(summary.max_cyclomatic_complexity as nat)
        + "\n"@
}

/// The stage timings, shown in verbose mode when they were measured.
pub open spec fn complexity_timings_text(timings: Option<ComplexityReportTimings>) -> Seq<char> {
    match timings {
        Some(t) => "Timings:\n"@ + "- Discovery: "@ + duration_text(t.discovery as nat) + "\n"@
            + "- Complexity analysis: "@ + duration_text(t.complexity_analysis as nat) + "\n"@,
        None => Seq::empty(),
    }
}

/// The top of the complexity report.
pub open spec fn complexity_summary_text(summary: ComplexitySummary, verbose: bool) -> Seq<char> {
    "Complexity Report\n"@ + "=================\n\n"@ + "Number of files analyzed: "@ + decimal(
        summary.analyzed_files as nat,
    ) + "\n"@ + (if verbose {
        complexity_details_text(summary)
    } else {
        Seq::empty()
    }) + "Functions exceeding limits: "@ + decimal(summary.function_count as nat) + "\n"@ + (
    if verbose {
        complexity_timings_text(summary.timings)
    } else {
        Seq::empty()
    })
}

/// The number, name and location that open a function's entry.
pub open spec fn function_heading_text(
    number: nat,
    function_name: Seq<char>,
    file_path: Seq<char>,
    start_line: nat,
    end_line: nat,
) -> Seq<char> {
    "\n"@ + "#"@ + decimal(number) + "\n"@ + "Function: "@ + function_name + "\n"@ + "Location: "@
        + path_key(file_path) + ":"@ + decimal(start_line) + "-"@ + decimal(end_line) + "\n"@
}

/// The verbose summary states the limits in force, whatever they are,
/// right before the number of functions that exceed them.
pub proof fn lemma_verbose_summary_states_limits(summary: ComplexitySummary)
    ensures
        exists|head: Seq<char>, tail: Seq<char>|
            complexity_summary_text(summary, true) == head + "Max cognitive complexity: "@ + decimal(
                summary.max_cognitive_complexity as nat,
            ) + "\n"@ + "Max cyclomatic complexity: "@ + decimal(summary.max_cyclomatic_complexity as nat) + "\n"@
                + "Functions exceeding limits: "@ + decimal(summary.function_count as nat) + "\n"@ + tail,
{
    let head = "Complexity Report\n"@ + "=================\n\n"@ + "Number of files analyzed: "@ + decimal(
        summary.analyzed_files as nat,
    ) + "\n"@ + (match summary.analyzed_file_paths {
        Some(files) => "Files analyzed:\n"@ + analyzed_files_text(files@),
        None => Seq::empty(),
    }) + "Analyzed extensions: "@ + comma_joined(sorted_texts(string_views(summary.analyzed_extensions@)))
        + "\n"@;
    let tail = complexity_timings_text(summary.timings);
    assert(complexity_summary_text(summary, true) =~= head + "Max cognitive complexity: "@ + decimal(
        summary.max_cognitive_complexity as nat,
    ) + "\n"@ + "Max cyclomatic complexity: "@ + decimal(summary.max_cyclomatic_complexity as nat) + "\n"@
        + "Functions exceeding limits: "@ + decimal(summary.function_count as nat) + "\n"@ + tail);
}

/// Renders the top of the complexity report; in verbose mode with the
/// analyzed files, the extensions, the limits and the timings.
pub fn render_complexity_summary(summary: &ComplexitySummary, verbose: bool) -> (out: String)
    ensures
        out@ == complexity_summary_text(*summary, verbose),
{
    let mut output = String::new();
    push_str(&mut output, "Complexity Report\n");
    push_str(&mut output, "=================\n\n");
    push_str(&mut output, "Number of files analyzed: ");
    push_decimal(&mut output, summary.analyzed_files as u128);
    push_str(&mut output, "\n");
    let ghost after_count = output@;
    if verbose {
        render_complexity_details(&mut output, summary);
    }
    let ghost after_details = output@;
    assert(after_details == after_count + (if verbose {
        complexity_details_text(*summary)
    } else {
        Seq::<char>::empty()
    }));
    push_str(&mut output, "Functions exceeding limits: ");
    push_decimal(&mut output, summary.function_count as u128);
    push_str(&mut output, "\n");
    let ghost after_functions = output@;
    if verbose {
        render_complexity_timings(&mut output, summary.timings);
    }
    assert(output@ == after_functions + (if verbose {
        complexity_timings_text(summary.timings)
    } else {
        Seq::<char>::empty()
    }));
    assert(output@ =~= complexity_summary_text(*summary, verbose));
    output
}

fn render_complexity_details(output: &mut String, summary: &ComplexitySummary)
    ensures
        final(output)@ == old(output)@ + complexity_details_text(*summary),
{
    let ghost start = output@;
    match &summary.analyzed_file_paths {
        Some(files) => {
            push_str(output, "Files analyzed:\n");
            push_analyzed_files(output, files);
        },
        None => {},
    }
    let ghost after_files = output@;
    push_str(output, "Analyzed extensions: ");
    push_sorted_extensions(output, &summary.analyzed_extensions);
    push_str(output, "\n");
    push_str(output, "Max cognitive complexity: ");
    push_decimal(output, summary.max_cognitive_complexity as u128);
    push_str(output, "\n");
    push_str(output, "Max cyclomatic complexity: ");
    push_decimal(output, summary.max_cyclomatic_complexity as u128);
    push_str(output, "\n");
    assert(output@ =~= start + complexity_details_text(*summary));
}

fn render_complexity_timings(output: &mut String, timings: Option<ComplexityReportTimings>)
    ensures
        final(output)@ == old(output)@ + complexity_timings_text(timings),
{
    let ghost start = output@;
    match timings {
        Some(t) => {
            push_str(output, "Timings:\n");
            push_str(output, "- Discovery: ");
            push_duration(output, t.discovery);
            push_str(output, "\n");
            push_str(output, "- Complexity analysis: ");
            push_duration(output, t.complexity_analysis);
            push_str(output, "\n");
        },
        None => {},
    }
    assert(output@ =~= start + complexity_timings_text(timings));
}

/// Renders the lines that open the entry of the function at `index` in the
/// list: its number, counted from one, its name and its location.
pub fn render_function_heading(
    index: usize,
    function_name: &str,
    file_path: &str,
    start_line: usize,
    end_line: usize,
) -> (out: String)
    ensures
        out@ == function_heading_text(
            (index + 1) as nat,
            function_name@,
            file_path@,
            start_line as nat,
            end_line as nat,
        ),
{
    let mut output = String::new();
    push_str(&mut output, "\n");
    push_str(&mut output, "#");
    push_decimal(&mut output, index as u128 + 1);
    push_str(&mut output, "\n");
    push_str(&mut output, "Function: ");
    push_str(&mut output, function_name);
    push_str(&mut output, "\n");
    push_str(&mut output, "Location: ");
    let shown = format_path(file_path);
    push_str(&mut output, shown.as_str());
    push_str(&mut output, ":");
    push_decimal(&mut output, start_line as u128);
    push_str(&mut output, "-");
    push_decimal(&mut output, end_line as u128);
    push_str(&mut output, "\n");
    assert(output@ =~= function_heading_text(
        (index + 1) as nat,
        function_name@,
        file_path@,
        start_line as nat,
        end_line as nat,
    ));
    output
}

} // verus!
