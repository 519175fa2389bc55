//! The text report of duplicate blocks.

use vstd::prelude::*;

use crate::language::registry::string_views;
use crate::model::{texts, AnalyzedFile, DuplicateBlock, DuplicateOccurrence};
use crate::paths::{format_path, path_key};
use crate::report::format::{
    analyzed_files_text, comma_joined, duration_text, push_analyzed_files, push_decimal,
    push_duration, push_sorted_extensions, sorted_texts,
};
use crate::text::{decimal, push_str};

verus! {

/// How long each stage of a duplicate search took, in microseconds.
#[derive(Debug, Clone, Copy, PartialEq, Eq, Structural)]
pub struct DuplicateReportTimings {
    pub discovery: u128,
    pub file_processing: u128,
    pub duplicate_detection: u128,
}

/// Everything a duplicate report shows.
#[derive(Debug, Clone, PartialEq, Eq)]
pub struct DuplicateReport {
    pub analyzed_files: usize,
    pub analyzed_extensions: Vec<String>,
    pub analyzed_file_paths: Option<Vec<AnalyzedFile>>,
    pub timings: Option<DuplicateReportTimings>,
    pub duplicate_blocks: Vec<DuplicateBlock>,
}

/// The heading of the report.
pub open spec fn report_heading() -> Seq<char> {
    "Duplicate Code Report\n"@ + "=====================\n\n"@
}

/// The list of analyzed files, shown only in verbose mode and only when the
/// report carries it.
pub open spec fn file_list_text(report: DuplicateReport, verbose: bool) -> Seq<char> {
    match report.analyzed_file_paths {
        Some(files) => if verbose {
            "Files analyzed:\n"@ + analyzed_files_text(files@)
        } else {
            Seq::empty()
        },
        None => Seq::empty(),
    }
}

/// The analyzed extensions in ascending order, shown only in verbose mode.
pub open spec fn extensions_text(report: DuplicateReport, verbose: bool) -> Seq<char> {
    if verbose {
        "Analyzed extensions: "@ + comma_joined(sorted_texts(string_views(report.analyzed_extensions@)))
            + "\n"@
    } else {
        Seq::empty()
    }
}

/// The stage timings, shown only in verbose mode and only when measured.
pub open spec fn timings_text(timings: Option<DuplicateReportTimings>, verbose: bool) -> Seq<char> {
    match timings {
        Some(t) => if verbose {
            "Timings:\n"@ + "- Discovery: "@ + duration_text(t.discovery as nat) + "\n"@
                + "- File processing: "@ + duration_text(t.file_processing as nat) + "\n"@
                + "- Duplicate detection: "@ + duration_text(t.duplicate_detection as nat) + "\n"@
        } else {
            Seq::empty()
        },
        None => Seq::empty(),
    }
}

/// The summary at the top of the report.
pub open spec fn summary_text(report: DuplicateReport, verbose: bool) -> Seq<char> {
    report_heading() + "Number of files analyzed: "@ + decimal(report.analyzed_files as nat) + "\n"@
        + file_list_text(report, verbose) + extensions_text(report, verbose)
        + "Duplicate blocks found: "@ + decimal(report.duplicate_blocks@.len()) + "\n"@
        + timings_text(report.timings, verbose)
}

/// The lines of a block's code, each indented by two spaces.
pub open spec fn code_text(lines: Seq<Seq<char>>) -> Seq<char>
    decreases lines.len(),
{
    if lines.len() == 0 {
        Seq::empty()
    } else {
        code_text(lines.drop_last()) + "  "@ + lines.last() + "\n"@
    }
}

/// The metrics and code of a block, shown in verbose mode.
pub open spec fn block_details_text(block: DuplicateBlock) -> Seq<char> {
    "Weight: "@ + decimal(block.weight as nat) + "\n"@ + "Lines: "@ + decimal(
        block.normalized_lines@.len(),
    ) + "\n"@ + "Occurrences: "@ + decimal(block.occurrences@.len()) + "\n"@ + "\n"@ + "Code:\n"@
        + code_text(texts(block.normalized_lines@)) + "\nLocations:\n"@
}

/// One location of a block: display path, first and last line.
pub open spec fn location_text(o: DuplicateOccurrence) -> Seq<char> {
    "- "@ + path_key(o.file_path@) + ":"@ + decimal(o.start_line as nat) + "-"@ + decimal(
        o.end_line as nat,
    ) + "\n"@
}

/// The locations of a block, one per line.
pub open spec fn locations_text(os: Seq<DuplicateOccurrence>) -> Seq<char>
    decreases os.len(),
{
    if os.len() == 0 {
        Seq::empty()
    } else {
        locations_text(os.drop_last()) + location_text(os.last())
    }
}

/// One block, numbered from one.
pub open spec fn block_text(number: nat, block: DuplicateBlock, verbose: bool) -> Seq<char> {
    "\n"@ + "#"@ + decimal(number) + "\n"@ + (if verbose {
        block_details_text(block)
    } else {
        Seq::empty()
    }) + locations_text(block.occurrences@)
}

/// All blocks, in the order given, numbered from one.
pub open spec fn blocks_text(blocks: Seq<DuplicateBlock>, verbose: bool) -> Seq<char>
    decreases blocks.len(),
{
    if blocks.len() == 0 {
        Seq::empty()
    } else {
        blocks_text(blocks.drop_last(), verbose) + block_text(blocks.len(), blocks.last(), verbose)
    }
}

/// The whole duplicate report.
pub open spec fn duplicate_report_text(report: DuplicateReport, verbose: bool) -> Seq<char> {
    summary_text(report, verbose) + blocks_text(report.duplicate_blocks@, verbose)
}

/// Renders the report; in verbose mode with the analyzed files, the
/// extensions, the timings and each block's metrics and code.
pub fn render_duplicate_report(report: &DuplicateReport, verbose: bool) -> (out: String)
    ensures
        out@ == duplicate_report_text(*report, verbose),
{
    let mut output = String::new();
    render_report_summary(&mut output, report, verbose);
    render_duplicate_blocks(&mut output, &report.duplicate_blocks, verbose);
    output
}

fn render_report_summary(output: &mut String, report: &DuplicateReport, verbose: bool)
    ensures
        final(output)@ == old(output)@ + summary_text(*report, verbose),
{
    let ghost start = output@;
    push_str(output, "Duplicate Code Report\n");
    push_str(output, "=====================\n\n");
    push_str(output, "Number of files analyzed: ");
    push_decimal(output, report.analyzed_files as u128);
    push_str(output, "\n");
    let ghost after_count = output@;
    render_file_list(output, report, verbose);
    let ghost after_files = output@;
    if verbose {
        render_verbose_summary(output, report);
    }
    let ghost after_extensions = output@;
    assert(after_extensions == after_files + extensions_text(*report, verbose));
    push_str(output, "Duplicate blocks found: ");
    push_decimal(output, report.duplicate_blocks.len() as u128);
    push_str(output, "\n");
    let ghost after_blocks = output@;
    if verbose {
        render_timings(output, report.timings);
    }
    assert(output@ == after_blocks + timings_text(report.timings, verbose));
    assert(after_count =~= start + report_heading() + "Number of files analyzed: "@ + decimal(
        report.analyzed_files as nat,
    ) + "\n"@);
    assert(after_blocks =~= after_extensions + "Duplicate blocks found: "@ + decimal(
        report.duplicate_blocks@.len(),
    ) + "\n"@);
    assert(output@ =~= start + summary_text(*report, verbose));
}

fn render_file_list(output: &mut String, report: &DuplicateReport, verbose: bool)
    ensures
        final(output)@ == old(output)@ + file_list_text(*report, verbose),
{
    let ghost start = output@;
    if verbose {
        match &report.analyzed_file_paths {
            Some(files) => {
                push_str(output, "Files analyzed:\n");
                push_analyzed_files(output, files);
            },
            None => {},
        }
    }
    assert(output@ =~= start + file_list_text(*report, verbose));
}

fn render_verbose_summary(output: &mut String, report: &DuplicateReport)
    ensures
        final(output)@ == old(output)@ + extensions_text(*report, true),
{
    let ghost start = output@;
    push_str(output, "Analyzed extensions: ");
    push_sorted_extensions(output, &report.analyzed_extensions);
    push_str(output, "\n");
    assert(output@ =~= start + extensions_text(*report, true));
}

fn render_timings(output: &mut String, timings: Option<DuplicateReportTimings>)
    ensures
        final(output)@ == old(output)@ + timings_text(timings, true),
{
    let ghost start = output@;
    match timings {
        Some(t) => {
            push_str(output, "Timings:\n");
            push_str(output, "- Discovery: ");
            push_duration(output, t.discovery);
            push_str(output, "\n");
            push_str(output, "- File processing: ");
            push_duration(output, t.file_processing);
            push_str(output, "\n");
            push_str(output, "- Duplicate detection: ");
            push_duration(output, t.duplicate_detection);
            push_str(output, "\n");
        },
        None => {},
    }
    assert(output@ =~= start + timings_text(timings, true));
}

fn render_duplicate_blocks(output: &mut String, blocks: &Vec<DuplicateBlock>, verbose: bool)
    ensures
        final(output)@ == old(output)@ + blocks_text(blocks@, verbose),
{
    let ghost start = output@;
    let mut index: usize = 0;
    proof {
        assert(blocks@.take(0) =~= Seq::<DuplicateBlock>::empty());
        assert(output@ =~= start + blocks_text(blocks@.take(0), verbose));
    }
    while index < blocks.len()
        invariant
            index <= blocks@.len(),
            output@ == start + blocks_text(blocks@.take(index as int), verbose),
        decreases blocks.len() - index,
    {
        let ghost before = output@;
        proof {
            assert(blocks@.take(index + 1).drop_last() =~= blocks@.take(index as int));
            assert(blocks@.take(index + 1).last() == blocks@[index as int]);
        }
        let block = &blocks[index];
        push_str(output, "\n");
        push_str(output, "#");
        push_decimal(output, index as u128 + 1);
        push_str(output, "\n");
        let ghost after_number = output@;
        if verbose {
            render_verbose_block(output, block);
        }
        let ghost after_details = output@;
        render_block_locations(output, block);
        proof {
            assert(output@ =~= before + block_text((index + 1) as nat, *block, verbose));
        }
        index += 1;
    }
    assert(blocks@.take(index as int) =~= blocks@);
}

fn render_verbose_block(output: &mut String, block: &DuplicateBlock)
    ensures
        final(output)@ == old(output)@ + block_details_text(*block),
{
    let ghost start = output@;
    push_str(output, "Weight: ");
    push_decimal(output, block.weight as u128);
    push_str(output, "\n");
    push_str(output, "Lines: ");
    push_decimal(output, block.line_count() as u128);
    push_str(output, "\n");
    push_str(output, "Occurrences: ");
    push_decimal(output, block.occurrences.len() as u128);
    push_str(output, "\n");
    push_str(output, "\n");
    push_str(output, "Code:\n");
    let ghost code_start = output@;
    let ghost lines = texts(block.normalized_lines@);
    let mut i: usize = 0;
    proof {
        assert(lines.take(0) =~= Seq::<Seq<char>>::empty());
        assert(output@ =~= code_start + code_text(lines.take(0)));
    }
    while i < block.normalized_lines.len()
        invariant
            i <= block.normalized_lines@.len(),
            lines == texts(block.normalized_lines@),
            output@ == code_start + code_text(lines.take(i as int)),
        decreases block.normalized_lines.len() - i,
    {
        proof {
            assert(lines.take(i + 1).drop_last() =~= lines.take(i as int));
            assert(lines.take(i + 1).last() == block.normalized_lines@[i as int]@);
        }
        push_str(output, "  ");
        push_str(output, block.normalized_lines[i].as_str());
        push_str(output, "\n");
        i += 1;
    }
    assert(lines.take(i as int) =~= lines);
    push_str(output, "\nLocations:\n");
    assert(output@ =~= start + block_details_text(*block));
}

fn render_block_locations(output: &mut String, block: &DuplicateBlock)
    ensures
        final(output)@ == old(output)@ + locations_text(block.occurrences@),
{
    let ghost start = output@;
    let ghost os = block.occurrences@;
    let mut i: usize = 0;
    proof {
        assert(os.take(0) =~= Seq::<DuplicateOccurrence>::empty());
        assert(output@ =~= start + locations_text(os.take(0)));
    }
    while i < block.occurrences.len()
        invariant
            i <= os.len(),
            os == block.occurrences@,
            output@ == start + locations_text(os.take(i as int)),
        decreases block.occurrences.len() - i,
    {
        let ghost before = output@;
        proof {
            assert(os.take(i + 1).drop_last() =~= os.take(i as int));
            assert(os.take(i + 1).last() == os[i as int]);
        }
        let o = &block.occurrences[i];
        push_str(output, "- ");
        let shown = format_path(o.file_path.as_str());
        push_str(output, shown.as_str());
        push_str(output, ":");
        push_decimal(output, o.start_line as u128);
        push_str(output, "-");
        push_decimal(output, o.end_line as u128);
        push_str(output, "\n");
        assert(output@ =~= before + location_text(*o));
        i += 1;
    }
    assert(os.take(i as int) =~= os);
}

} // verus!
