//! The decisions of a run between its outside steps: which files a report
//! covers, which blocks and functions a changed-lines scope keeps, what the
//! report holds and what status the run ends with.

use vstd::prelude::*;

use crate::cli::CliConfig;
use crate::git::copy_ranges;
use crate::language::registry::{contains_string, string_views};
use crate::model::{
    AnalyzedFile, ChangedFileLines, DuplicateBlock, DuplicateOccurrence, LineEntry, LineRange,
    ProcessedFile, SourceFile,
};
use crate::paths::{format_path, path_key};
use crate::text::{chars_of, compare_chars, lemma_text_trichotomy, text_lt, Comparison3};
use crate::report::complexity_renderer::ComplexityReportTimings;
use crate::report::duplicate_renderer::{DuplicateReport, DuplicateReportTimings};

verus! {

/// How a run ends: cleanly, or with issues reported.
#[derive(Debug, Clone, Copy, PartialEq, Eq, Structural)]
pub enum RunStatus {
    Success,
    IssuesFound,
}

impl RunStatus {
    /// Success when nothing was reported.
    pub fn from_issue_count(issue_count: usize) -> (s: Self)
        ensures
            s == (if issue_count == 0 {
                RunStatus::Success
            } else {
                RunStatus::IssuesFound
            }),
    {
        if issue_count == 0 {
            RunStatus::Success
        } else {
            RunStatus::IssuesFound
        }
    }

    /// Whether the run ended cleanly.
    pub fn is_success(self) -> (b: bool)
        ensures
            b == (self == RunStatus::Success),
    {
        match self {
            RunStatus::Success => true,
            RunStatus::IssuesFound => false,
        }
    }
}

/// The stage timings of a duplicate search, when every stage was measured.
pub fn duplicate_timings(
    discovery: Option<u128>,
    file_processing: Option<u128>,
    duplicate_detection: Option<u128>,
) -> (t: Option<DuplicateReportTimings>)
    ensures
        t == (match (discovery, file_processing, duplicate_detection) {
            (Some(d), Some(f), Some(x)) => Some(
                DuplicateReportTimings { discovery: d, file_processing: f, duplicate_detection: x },
            ),
            _ => None,
        }),
{
    match (discovery, file_processing, duplicate_detection) {
        (Some(d), Some(f), Some(x)) => Some(
            DuplicateReportTimings { discovery: d, file_processing: f, duplicate_detection: x },
        ),
        _ => None,
    }
}

/// The stage timings of a complexity search, when every stage was measured.
pub fn complexity_timings(discovery: Option<u128>, complexity_analysis: Option<u128>) -> (t: Option<
    ComplexityReportTimings,
>)
    ensures
        t == (match (discovery, complexity_analysis) {
            (Some(d), Some(c)) => Some(
                ComplexityReportTimings { discovery: d, complexity_analysis: c },
            ),
            _ => None,
        }),
{
    match (discovery, complexity_analysis) {
        (Some(d), Some(c)) => Some(ComplexityReportTimings { discovery: d, complexity_analysis: c }),
        _ => None,
    }
}

/// The display forms of a list of paths.
pub open spec fn path_keys(paths: Seq<String>) -> Seq<Seq<char>> {
    paths.map_values(|p: String| path_key(p@))
}

/// Whether a path's display form is among `keys`.
pub open spec fn selected_path(keys: Seq<Seq<char>>, path: Seq<char>) -> bool {
    keys.contains(path_key(path))
}

/// The display forms of the selected paths.
fn selected_keys(selected_files: &Vec<String>) -> (keys: Vec<String>)
    ensures
        string_views(keys@) == path_keys(selected_files@),
{
    let mut keys: Vec<String> = Vec::new();
    let mut k: usize = 0;
    while k < selected_files.len()
        invariant
            k <= selected_files@.len(),
            keys@.len() == k,
            string_views(keys@) == path_keys(selected_files@.take(k as int)),
        decreases selected_files.len() - k,
    {
        let ghost before = keys@;
        keys.push(format_path(selected_files[k].as_str()));
        proof {
            let next = path_keys(selected_files@.take(k + 1));
            assert forall|i: int| 0 <= i < k + 1 implies string_views(keys@)[i] == next[i] by {
                if i < k {
                    assert(keys@[i] == before[i]);
                    assert(string_views(before)[i] == path_keys(selected_files@.take(k as int))[i]);
                }
            }
            assert(string_views(keys@) =~= next);
        }
        k += 1;
    }
    assert(selected_files@.take(k as int) =~= selected_files@);
    keys
}

/// The processed files whose display path is selected, in their order.
pub open spec fn selected_processed_files(files: Seq<ProcessedFile>, keys: Seq<Seq<char>>) -> Seq<
    ProcessedFile,
>
    decreases files.len(),
{
    if files.len() == 0 {
        Seq::empty()
    } else {
        let rest = selected_processed_files(files.drop_last(), keys);
        if selected_path(keys, files.last().source.display_path@) {
            rest.push(files.last())
        } else {
            rest
        }
    }
}

impl LineEntry {
    /// A copy of the line entry.
    pub fn cloned(&self) -> (r: Self)
        ensures
            r == *self,
    {
        LineEntry {
            file_path: self.file_path.clone(),
            line_number: self.line_number,
            normalized_text: self.normalized_text.clone(),
            hash: self.hash,
            status: self.status,
        }
    }
}

impl ProcessedFile {
    /// A copy of the processed file.
    pub fn cloned(&self) -> (r: Self)
        ensures
            r.source == self.source,
            r.lines@ == self.lines@,
    {
        let mut lines: Vec<LineEntry> = Vec::new();
        let mut k: usize = 0;
        while k < self.lines.len()
            invariant
                k <= self.lines@.len(),
                lines@ == self.lines@.take(k as int),
            decreases self.lines.len() - k,
        {
            lines.push(self.lines[k].cloned());
            assert(lines@ =~= self.lines@.take(k + 1));
            k += 1;
        }
        assert(self.lines@.take(k as int) =~= self.lines@);
        ProcessedFile { source: self.source.cloned(), lines }
    }
}

/// Two processed files with the same source and the same lines.
pub open spec fn same_processed_file(a: ProcessedFile, b: ProcessedFile) -> bool {
    a.source == b.source && a.lines@ == b.lines@
}

/// Two lists of processed files that hold the same files in the same order.
pub open spec fn same_processed_files(a: Seq<ProcessedFile>, b: Seq<ProcessedFile>) -> bool {
    a.len() == b.len() && forall|i: int| 0 <= i < a.len() ==> same_processed_file(#[trigger] a[i], b[i])
}

/// Keeps the processed files whose display path, in its display form, is
/// one of the selected files.
pub fn filtered_processed_files(processed_files: &Vec<ProcessedFile>, selected_files: &Vec<String>) -> (r:
    Vec<ProcessedFile>)
    ensures
        same_processed_files(r@, selected_processed_files(processed_files@, path_keys(selected_files@))),
{
    let keys = selected_keys(selected_files);
    let ghost key_views = path_keys(selected_files@);
    let mut r: Vec<ProcessedFile> = Vec::new();
    let mut k: usize = 0;
    while k < processed_files.len()
        invariant
            k <= processed_files@.len(),
            string_views(keys@) == key_views,
            same_processed_files(r@, selected_processed_files(processed_files@.take(k as int), key_views)),
        decreases processed_files.len() - k,
    {
        let ghost before = r@;
        proof {
            assert(processed_files@.take(k + 1).drop_last() =~= processed_files@.take(k as int));
            assert(processed_files@.take(k + 1).last() == processed_files@[k as int]);
        }
        let shown = format_path(processed_files[k].source.display_path.as_str());
        if contains_string(&keys, &shown) {
            r.push(processed_files[k].cloned());
            proof {
                let spec_r = selected_processed_files(processed_files@.take(k + 1), key_views);
                assert forall|i: int| 0 <= i < r@.len() implies same_processed_file(
                    #[trigger] r@[i],
                    spec_r[i],
                ) by {
                    if i < before.len() {
                        assert(r@[i] == before[i]);
                    }
                }
            }
        }
        k += 1;
    }
    assert(processed_files@.take(k as int) =~= processed_files@);
    r
}

/// Whether one of a block's occurrences lies in a selected file.
pub open spec fn block_in_selected_files(block: DuplicateBlock, keys: Seq<Seq<char>>) -> bool {
    exists|i: int|
        0 <= i < block.occurrences@.len() && selected_path(keys, #[trigger] block.occurrences@[i].file_path@)
}

/// The blocks for which `keep` holds, in their order.
pub open spec fn blocks_where(blocks: Seq<DuplicateBlock>, keep: spec_fn(DuplicateBlock) -> bool) -> Seq<
    DuplicateBlock,
>
    decreases blocks.len(),
{
    if blocks.len() == 0 {
        Seq::empty()
    } else {
        let rest = blocks_where(blocks.drop_last(), keep);
        if keep(blocks.last()) {
            rest.push(blocks.last())
        } else {
            rest
        }
    }
}

/// Filtering keeps exactly the blocks that pass, in their order: every kept
/// block passes and was given, every given block that passes is kept, and
/// no more are kept than were given.
pub proof fn lemma_blocks_where(blocks: Seq<DuplicateBlock>, keep: spec_fn(DuplicateBlock) -> bool)
    ensures
        blocks_where(blocks, keep).len() <= blocks.len(),
        forall|k: int|
            0 <= k < blocks_where(blocks, keep).len() ==> keep(#[trigger] blocks_where(blocks, keep)[k])
                && blocks.contains(blocks_where(blocks, keep)[k]),
        forall|i: int| 0 <= i < blocks.len() && keep(#[trigger] blocks[i]) ==> blocks_where(blocks, keep).contains(
            blocks[i],
        ),
    decreases blocks.len(),
{
    if blocks.len() > 0 {
        let rest = blocks.drop_last();
        lemma_blocks_where(rest, keep);
        let r = blocks_where(blocks, keep);
        let rr = blocks_where(rest, keep);
        assert forall|k: int| 0 <= k < r.len() implies keep(#[trigger] r[k]) && blocks.contains(r[k]) by {
            if k < rr.len() {
                assert(r[k] == rr[k]);
                let j = choose|j: int| 0 <= j < rest.len() && rest[j] == rr[k];
                assert(blocks[j] == rest[j]);
            } else {
                assert(r[k] == blocks.last());
                assert(blocks[blocks.len() - 1] == blocks.last());
            }
        }
        assert forall|i: int| 0 <= i < blocks.len() && keep(#[trigger] blocks[i]) implies r.contains(blocks[i]) by {
            if i < blocks.len() - 1 {
                assert(rest[i] == blocks[i]);
                let k = choose|k: int| 0 <= k < rr.len() && rr[k] == rest[i];
                assert(r[k] == rr[k]);
            } else {
                assert(r[r.len() - 1] == blocks[i]);
            }
        }
    }
}

/// Whether a block has an occurrence in a selected file.
fn block_touches_selected(block: &DuplicateBlock, keys: &Vec<String>) -> (r: bool)
    ensures
        r == block_in_selected_files(*block, string_views(keys@)),
{
    let mut k: usize = 0;
    while k < block.occurrences.len()
        invariant
            k <= block.occurrences@.len(),
            forall|i: int|
                0 <= i < k ==> !selected_path(string_views(keys@), #[trigger] block.occurrences@[i].file_path@),
        decreases block.occurrences.len() - k,
    {
        let shown = format_path(block.occurrences[k].file_path.as_str());
        if contains_string(keys, &shown) {
            assert(selected_path(string_views(keys@), block.occurrences@[k as int].file_path@));
            return true;
        }
        k += 1;
    }
    false
}

/// Keeps the blocks with an occurrence in one of the selected files.
pub fn filtered_duplicate_blocks(duplicate_blocks: Vec<DuplicateBlock>, selected_files: &Vec<String>) -> (r:
    Vec<DuplicateBlock>)
    ensures
        r@ == blocks_where(
            duplicate_blocks@,
            |b: DuplicateBlock| block_in_selected_files(b, path_keys(selected_files@)),
        ),
{
    let keys = selected_keys(selected_files);
    let ghost keep = |b: DuplicateBlock| block_in_selected_files(b, path_keys(selected_files@));
    let ghost all = duplicate_blocks@;
    let n = duplicate_blocks.len();
    let mut rest = duplicate_blocks;
    let mut r: Vec<DuplicateBlock> = Vec::new();
    let mut k: usize = 0;
    while k < n
        invariant
            k <= all.len(),
            all.len() == n,
            rest@ == all.skip(k as int),
            string_views(keys@) == path_keys(selected_files@),
            keep == (|b: DuplicateBlock| block_in_selected_files(b, path_keys(selected_files@))),
            r@ == blocks_where(all.take(k as int), keep),
        decreases n - k,
    {
        proof {
            assert(all.take(k + 1).drop_last() =~= all.take(k as int));
            assert(all.take(k + 1).last() == all[k as int]);
        }
        let block = rest.remove(0);
        assert(block == all[k as int]);
        if block_touches_selected(&block, &keys) {
            r.push(block);
        }
        k += 1;
        assert(rest@ =~= all.skip(k as int));
    }
    assert(all.take(k as int) =~= all);
    r
}

/// The changed ranges listed for a path: those of the first entry whose path
/// has the same display form.
pub open spec fn lines_for_path(changed: Seq<ChangedFileLines>, path: Seq<char>) -> Option<Seq<LineRange>>
    decreases changed.len(),
{
    if changed.len() == 0 {
        None
    } else {
        match lines_for_path(changed.drop_last(), path) {
            Some(lines) => Some(lines),
            None => if path_key(changed.last().path@) == path_key(path) {
                Some(changed.last().lines@)
            } else {
                None
            },
        }
    }
}

/// The changed ranges of the first entry whose path shows like `path`.
pub fn changed_lines_for_path(path: &str, changed_lines: &Vec<ChangedFileLines>) -> (r: Option<Vec<LineRange>>)
    ensures
        match lines_for_path(changed_lines@, path@) {
            Some(lines) => r matches Some(v) && v@ == lines,
            None => r is None,
        },
{
    let formatted_path = format_path(path);
    let mut k: usize = 0;
    while k < changed_lines.len()
        invariant
            k <= changed_lines@.len(),
            formatted_path@ == path_key(path@),
            lines_for_path(changed_lines@.take(k as int), path@) is None,
        decreases changed_lines.len() - k,
    {
        proof {
            assert(changed_lines@.take(k + 1).drop_last() =~= changed_lines@.take(k as int));
            assert(changed_lines@.take(k + 1).last() == changed_lines@[k as int]);
        }
        let shown = format_path(changed_lines[k].path.as_str());
        if shown == formatted_path {
            proof {
                lemma_lines_for_path_prefix(changed_lines@, path@, k + 1);
            }
            return Some(copy_ranges(&changed_lines[k].lines));
        }
        k += 1;
    }
    assert(changed_lines@.take(k as int) =~= changed_lines@);
    None
}

/// Once a prefix names the path, the whole list gives the prefix's ranges.
proof fn lemma_lines_for_path_prefix(changed: Seq<ChangedFileLines>, path: Seq<char>, n: int)
    requires
        0 <= n <= changed.len(),
        lines_for_path(changed.take(n), path) is Some,
    ensures
        lines_for_path(changed, path) == lines_for_path(changed.take(n), path),
    decreases changed.len() - n,
{
    if n < changed.len() {
        assert(changed.take(n + 1).drop_last() =~= changed.take(n));
        lemma_lines_for_path_prefix(changed, path, n + 1);
    } else {
        assert(changed.take(n) =~= changed);
    }
}

/// Whether the lines `start..=end` meet one of the ranges.
pub open spec fn overlaps_lines(start: int, end: int, lines: Seq<LineRange>) -> bool {
    exists|i: int| 0 <= i < lines.len() && start <= #[trigger] lines[i].end && end >= lines[i].start
}

/// Whether the lines `start..=end` meet one of the ranges.
pub fn ranges_overlap_lines(start: usize, end: usize, lines: &Vec<LineRange>) -> (r: bool)
    ensures
        r == overlaps_lines(start as int, end as int, lines@),
{
    let mut k: usize = 0;
    while k < lines.len()
        invariant
            k <= lines@.len(),
            forall|i: int| 0 <= i < k ==> !(start <= #[trigger] lines@[i].end && end >= lines@[i].start),
        decreases lines.len() - k,
    {
        if start <= lines[k].end && end >= lines[k].start {
            return true;
        }
        k += 1;
    }
    false
}

/// Whether the lines `start..=end` of a file meet the file's changed ranges.
pub open spec fn location_changed(
    changed: Seq<ChangedFileLines>,
    path: Seq<char>,
    start: int,
    end: int,
) -> bool {
    match lines_for_path(changed, path) {
        Some(lines) => overlaps_lines(start, end, lines),
        None => false,
    }
}

/// Whether the lines `start..=end` of the file at `file_path` meet its
/// changed ranges; a function's location is judged so too.
pub fn location_applies_to_changed_lines(
    file_path: &str,
    start_line: usize,
    end_line: usize,
    changed_lines: &Vec<ChangedFileLines>,
) -> (r: bool)
    ensures
        r == location_changed(changed_lines@, file_path@, start_line as int, end_line as int),
{
    match changed_lines_for_path(file_path, changed_lines) {
        Some(lines) => ranges_overlap_lines(start_line, end_line, &lines),
        None => false,
    }
}

/// Whether an occurrence meets the changed lines of its file.
pub fn occurrence_applies_to_changed_lines(
    occurrence: &DuplicateOccurrence,
    changed_lines: &Vec<ChangedFileLines>,
) -> (r: bool)
    ensures
        r == location_changed(
            changed_lines@,
            occurrence.file_path@,
            occurrence.start_line as int,
            occurrence.end_line as int,
        ),
{
    location_applies_to_changed_lines(
        occurrence.file_path.as_str(),
        occurrence.start_line,
        occurrence.end_line,
        changed_lines,
    )
}

/// Whether one of a block's occurrences meets changed lines.
pub open spec fn block_changed(block: DuplicateBlock, changed: Seq<ChangedFileLines>) -> bool {
    exists|i: int|
        0 <= i < block.occurrences@.len() && location_changed(
            changed,
            #[trigger] block.occurrences@[i].file_path@,
            block.occurrences@[i].start_line as int,
            block.occurrences@[i].end_line as int,
        )
}

/// Whether one of a block's occurrences meets changed lines.
pub fn duplicate_block_applies_to_changed_lines(
    duplicate_block: &DuplicateBlock,
    changed_lines: &Vec<ChangedFileLines>,
) -> (r: bool)
    ensures
        r == block_changed(*duplicate_block, changed_lines@),
{
    let mut k: usize = 0;
    while k < duplicate_block.occurrences.len()
        invariant
            k <= duplicate_block.occurrences@.len(),
            forall|i: int|
                0 <= i < k ==> !location_changed(
                    changed_lines@,
                    #[trigger] duplicate_block.occurrences@[i].file_path@,
                    duplicate_block.occurrences@[i].start_line as int,
                    duplicate_block.occurrences@[i].end_line as int,
                ),
        decreases duplicate_block.occurrences.len() - k,
    {
        if occurrence_applies_to_changed_lines(&duplicate_block.occurrences[k], changed_lines) {
            return true;
        }
        k += 1;
    }
    false
}

/// Entry `m` is the first of the changed files whose path shows like
/// `path`.
pub open spec fn first_entry_for(changed: Seq<ChangedFileLines>, m: int, path: Seq<char>) -> bool {
    &&& 0 <= m < changed.len()
    &&& path_key(changed[m].path@) == path_key(path)
    &&& forall|m2: int| 0 <= m2 < m ==> path_key((#[trigger] changed[m2]).path@) != path_key(path)
}

/// The lines of `o` share a line with a changed range of the first entry
/// for its file.
pub open spec fn occurrence_on_changed_lines(o: DuplicateOccurrence, changed: Seq<ChangedFileLines>) -> bool {
    exists|m: int, r: int|
        #![trigger first_entry_for(changed, m, o.file_path@), changed[m].lines@[r]]
        first_entry_for(changed, m, o.file_path@) && 0 <= r < changed[m].lines@.len() && o.start_line
            <= changed[m].lines@[r].end && o.end_line >= changed[m].lines@[r].start
}

/// The ranges listed for a path are those of the first entry for it, and
/// none when no entry is for it.
proof fn lemma_lines_for_path_first(changed: Seq<ChangedFileLines>, path: Seq<char>)
    ensures
        forall|m: int| #[trigger] first_entry_for(changed, m, path) ==> lines_for_path(changed, path) == Some(
            changed[m].lines@,
        ),
        (forall|m: int| 0 <= m < changed.len() ==> path_key((#[trigger] changed[m]).path@) != path_key(path))
            ==> lines_for_path(changed, path) is None,
    decreases changed.len(),
{
    if changed.len() > 0 {
        let dl = changed.drop_last();
        lemma_lines_for_path_first(dl, path);
        assert forall|m: int| #[trigger] first_entry_for(changed, m, path) implies lines_for_path(changed, path)
            == Some(changed[m].lines@) by {
            if m < changed.len() - 1 {
                assert(dl[m] == changed[m]);
                assert forall|m2: int| 0 <= m2 < m implies path_key((#[trigger] dl[m2]).path@) != path_key(path) by {
                    assert(dl[m2] == changed[m2]);
                }
                assert(first_entry_for(dl, m, path));
            } else {
                assert forall|m2: int| 0 <= m2 < dl.len() implies path_key((#[trigger] dl[m2]).path@) != path_key(
                    path,
                ) by {
                    assert(dl[m2] == changed[m2]);
                }
                assert(changed.last() == changed[m]);
            }
        }
        if forall|m: int| 0 <= m < changed.len() ==> path_key((#[trigger] changed[m]).path@) != path_key(path) {
            assert forall|m2: int| 0 <= m2 < dl.len() implies path_key((#[trigger] dl[m2]).path@) != path_key(path) by {
                assert(dl[m2] == changed[m2]);
            }
            assert(changed.last() == changed[changed.len() - 1]);
        }
    }
}

/// An occurrence is on changed lines exactly when it shares a line with a
/// changed range of the first entry for its file.
proof fn lemma_location_changed_first(o: DuplicateOccurrence, changed: Seq<ChangedFileLines>)
    ensures
        location_changed(changed, o.file_path@, o.start_line as int, o.end_line as int)
            <==> occurrence_on_changed_lines(o, changed),
{
    let path = o.file_path@;
    lemma_lines_for_path_first(changed, path);
    if exists|m: int| 0 <= m < changed.len() && path_key((#[trigger] changed[m]).path@) == path_key(path) {
        let m = lemma_first_match(changed, path);
        assert(first_entry_for(changed, m, path));
        assert(lines_for_path(changed, path) == Some(changed[m].lines@));
        if occurrence_on_changed_lines(o, changed) {
            let (m1, r) = choose|m1: int, r: int|
                #![trigger first_entry_for(changed, m1, o.file_path@), changed[m1].lines@[r]]
                first_entry_for(changed, m1, o.file_path@) && 0 <= r < changed[m1].lines@.len() && o.start_line
                    <= changed[m1].lines@[r].end && o.end_line >= changed[m1].lines@[r].start;
            assert(m1 == m) by {
                if m1 < m {
                    assert(path_key(changed[m1].path@) != path_key(path));
                } else if m < m1 {
                    assert(path_key(changed[m].path@) != path_key(path));
                }
            }
            assert(overlaps_lines(o.start_line as int, o.end_line as int, changed[m].lines@));
        }
        if location_changed(changed, path, o.start_line as int, o.end_line as int) {
            let r = choose|r: int|
                0 <= r < changed[m].lines@.len() && o.start_line <= #[trigger] changed[m].lines@[r].end && o.end_line
                    >= changed[m].lines@[r].start;
            assert(first_entry_for(changed, m, o.file_path@) && 0 <= r < changed[m].lines@.len());
        }
    } else {
        assert(lines_for_path(changed, path) is None);
        if occurrence_on_changed_lines(o, changed) {
            let (m1, r) = choose|m1: int, r: int|
                #![trigger first_entry_for(changed, m1, o.file_path@), changed[m1].lines@[r]]
                first_entry_for(changed, m1, o.file_path@) && 0 <= r < changed[m1].lines@.len() && o.start_line
                    <= changed[m1].lines@[r].end && o.end_line >= changed[m1].lines@[r].start;
            assert(path_key(changed[m1].path@) == path_key(path));
        }
    }
}

/// The index of the first entry whose path shows like `path`, when one does.
proof fn lemma_first_match(changed: Seq<ChangedFileLines>, path: Seq<char>) -> (m: int)
    requires
        exists|m: int| 0 <= m < changed.len() && path_key((#[trigger] changed[m]).path@) == path_key(path),
    ensures
        first_entry_for(changed, m, path),
    decreases changed.len(),
{
    let dl = changed.drop_last();
    if exists|m: int| 0 <= m < dl.len() && path_key((#[trigger] dl[m]).path@) == path_key(path) {
        let m = lemma_first_match(dl, path);
        assert forall|m2: int| 0 <= m2 < m implies path_key((#[trigger] changed[m2]).path@) != path_key(path) by {
            assert(dl[m2] == changed[m2]);
        }
        assert(dl[m] == changed[m]);
        m
    } else {
        let m = choose|m: int| 0 <= m < changed.len() && path_key((#[trigger] changed[m]).path@) == path_key(path);
        if m < changed.len() - 1 {
            assert(dl[m] == changed[m]);
        }
        assert forall|m2: int| 0 <= m2 < changed.len() - 1 implies path_key((#[trigger] changed[m2]).path@) != path_key(
            path,
        ) by {
            assert(dl[m2] == changed[m2]);
        }
        changed.len() - 1
    }
}

/// Limiting blocks to changed lines keeps a block exactly when one of its
/// occurrences, whichever, shares a line with a changed range of the first
/// entry for its file.
pub proof fn lemma_strict_scope_keeps_blocks_on_changed_lines(
    blocks: Seq<DuplicateBlock>,
    changed: Seq<ChangedFileLines>,
    k: int,
)
    requires
        0 <= k < blocks.len(),
    ensures
        blocks_where(blocks, |b: DuplicateBlock| block_changed(b, changed)).contains(blocks[k]) <==> exists|i: int|
            0 <= i < blocks[k].occurrences@.len() && occurrence_on_changed_lines(
                #[trigger] blocks[k].occurrences@[i],
                changed,
            ),
{
    let keep = |b: DuplicateBlock| block_changed(b, changed);
    lemma_blocks_where(blocks, keep);
    let b = blocks[k];
    assert forall|i: int| 0 <= i < b.occurrences@.len() implies (location_changed(
        changed,
        (#[trigger] b.occurrences@[i]).file_path@,
        b.occurrences@[i].start_line as int,
        b.occurrences@[i].end_line as int,
    ) <==> occurrence_on_changed_lines(b.occurrences@[i], changed)) by {
        lemma_location_changed_first(b.occurrences@[i], changed);
    }
    if blocks_where(blocks, keep).contains(b) {
        let j = choose|j: int| 0 <= j < blocks_where(blocks, keep).len() && blocks_where(blocks, keep)[j] == b;
        assert(keep(blocks_where(blocks, keep)[j]));
    }
}

/// Keeps the blocks with an occurrence on changed lines.
pub fn filtered_strict_duplicate_blocks(
    duplicate_blocks: Vec<DuplicateBlock>,
    changed_lines: &Vec<ChangedFileLines>,
) -> (r: Vec<DuplicateBlock>)
    ensures
        r@ == blocks_where(duplicate_blocks@, |b: DuplicateBlock| block_changed(b, changed_lines@)),
{
    let ghost keep = |b: DuplicateBlock| block_changed(b, changed_lines@);
    let ghost all = duplicate_blocks@;
    let n = duplicate_blocks.len();
    let mut rest = duplicate_blocks;
    let mut r: Vec<DuplicateBlock> = Vec::new();
    let mut k: usize = 0;
    while k < n
        invariant
            k <= all.len(),
            all.len() == n,
            rest@ == all.skip(k as int),
            keep == (|b: DuplicateBlock| block_changed(b, changed_lines@)),
            r@ == blocks_where(all.take(k as int), keep),
        decreases n - k,
    {
        proof {
            assert(all.take(k + 1).drop_last() =~= all.take(k as int));
            assert(all.take(k + 1).last() == all[k as int]);
        }
        let block = rest.remove(0);
        assert(block == all[k as int]);
        if duplicate_block_applies_to_changed_lines(&block, changed_lines) {
            r.push(block);
        }
        k += 1;
        assert(rest@ =~= all.skip(k as int));
    }
    assert(all.take(k as int) =~= all);
    r
}

/// A copy of a list of strings.
fn copy_strings(v: &Vec<String>) -> (r: Vec<String>)
    ensures
        r@ == v@,
{
    let mut r: Vec<String> = Vec::new();
    let mut k: usize = 0;
    while k < v.len()
        invariant
            k <= v@.len(),
            r@ == v@.take(k as int),
        decreases v.len() - k,
    {
        r.push(v[k].clone());
        assert(r@ =~= v@.take(k + 1));
        k += 1;
    }
    assert(v@.take(k as int) =~= v@);
    r
}

/// The paths of changed files, as listed.
pub open spec fn line_paths(changed: Seq<ChangedFileLines>) -> Seq<Seq<char>> {
    changed.map_values(|c: ChangedFileLines| c.path@)
}

/// The paths of the files with changed lines, in their order.
pub fn changed_line_paths(changed_lines: &Vec<ChangedFileLines>) -> (r: Vec<String>)
    ensures
        string_views(r@) == line_paths(changed_lines@),
{
    let mut r: Vec<String> = Vec::new();
    let mut k: usize = 0;
    while k < changed_lines.len()
        invariant
            k <= changed_lines@.len(),
            r@.len() == k,
            string_views(r@) == line_paths(changed_lines@.take(k as int)),
        decreases changed_lines.len() - k,
    {
        let ghost before = r@;
        r.push(changed_lines[k].path.clone());
        proof {
            let next = line_paths(changed_lines@.take(k + 1));
            assert forall|i: int| 0 <= i < k + 1 implies string_views(r@)[i] == next[i] by {
                if i < k {
                    assert(r@[i] == before[i]);
                    assert(string_views(before)[i] == line_paths(changed_lines@.take(k as int))[i]);
                }
            }
            assert(string_views(r@) =~= next);
        }
        k += 1;
    }
    assert(changed_lines@.take(k as int) =~= changed_lines@);
    r
}

/// What a run is limited to on a changed branch: the changed files, the
/// changed lines, and the files that hold changed lines.
pub struct BranchScope {
    pub files: Option<Vec<String>>,
    pub lines: Option<Vec<ChangedFileLines>>,
    pub strict_file_paths: Option<Vec<String>>,
}

/// The files a scope limits a run to: the changed files, else the files
/// with changed lines.
pub open spec fn scope_files(scope: BranchScope) -> Option<Seq<String>> {
    match scope.files {
        Some(f) => Some(f@),
        None => match scope.strict_file_paths {
            Some(p) => Some(p@),
            None => None,
        },
    }
}

/// The changed lines a scope limits a run to.
pub open spec fn scope_lines(scope: BranchScope) -> Option<Seq<ChangedFileLines>> {
    match scope.lines {
        Some(l) => Some(l@),
        None => None,
    }
}

/// A scope from the changed files and the changed lines of a branch, each
/// when asked for.
pub fn changed_branch_scope(files: Option<Vec<String>>, lines: Option<Vec<ChangedFileLines>>) -> (scope:
    BranchScope)
    ensures
        scope.files == files,
        scope.lines == lines,
        match lines {
            Some(l) => scope.strict_file_paths matches Some(p) && string_views(p@) == line_paths(l@),
            None => scope.strict_file_paths is None,
        },
{
    let strict_file_paths = match &lines {
        Some(l) => Some(changed_line_paths(l)),
        None => None,
    };
    BranchScope { files, lines, strict_file_paths }
}

impl BranchScope {
    /// The files the scope limits a run to.
    pub fn files(&self) -> (r: Option<&Vec<String>>)
        ensures
            match scope_files(*self) {
                Some(f) => r matches Some(v) && v@ == f,
                None => r is None,
            },
    {
        match &self.files {
            Some(f) => Some(f),
            None => match &self.strict_file_paths {
                Some(p) => Some(p),
                None => None,
            },
        }
    }

    /// The changed lines the scope limits a run to.
    pub fn lines(&self) -> (r: Option<&Vec<ChangedFileLines>>)
        ensures
            match scope_lines(*self) {
                Some(l) => r matches Some(v) && v@ == l,
                None => r is None,
            },
    {
        match &self.lines {
            Some(l) => Some(l),
            None => None,
        }
    }
}

/// The processed files a scope covers.
pub open spec fn scoped_processed_files(files: Seq<ProcessedFile>, scope: BranchScope) -> Seq<
    ProcessedFile,
> {
    match scope_files(scope) {
        Some(f) => selected_processed_files(files, path_keys(f)),
        None => files,
    }
}

/// Keeps the processed files that the scope covers; all of them when it
/// names no files.
pub fn filtered_processed_files_for_scope(processed_files: &Vec<ProcessedFile>, branch_scope: &BranchScope) -> (r:
    Vec<ProcessedFile>)
    ensures
        same_processed_files(r@, scoped_processed_files(processed_files@, *branch_scope)),
{
    match branch_scope.files() {
        Some(files) => filtered_processed_files(processed_files, files),
        None => {
            let mut r: Vec<ProcessedFile> = Vec::new();
            let mut k: usize = 0;
            while k < processed_files.len()
                invariant
                    k <= processed_files@.len(),
                    same_processed_files(r@, processed_files@.take(k as int)),
                decreases processed_files.len() - k,
            {
                let ghost before = r@;
                r.push(processed_files[k].cloned());
                proof {
                    assert forall|i: int| 0 <= i < r@.len() implies same_processed_file(
                        #[trigger] r@[i],
                        processed_files@.take(k + 1)[i],
                    ) by {
                        if i < k {
                            assert(r@[i] == before[i]);
                        }
                    }
                }
                k += 1;
            }
            assert(processed_files@.take(k as int) =~= processed_files@);
            r
        },
    }
}

/// The blocks a scope keeps: those in its files, then those on its changed
/// lines.
pub open spec fn scoped_blocks(blocks: Seq<DuplicateBlock>, scope: BranchScope) -> Seq<DuplicateBlock> {
    let in_files = match scope_files(scope) {
        Some(f) => blocks_where(blocks, |b: DuplicateBlock| block_in_selected_files(b, path_keys(f))),
        None => blocks,
    };
    match scope_lines(scope) {
        Some(l) => blocks_where(in_files, |b: DuplicateBlock| block_changed(b, l)),
        None => in_files,
    }
}

/// Keeps the blocks in the scope's files, then those on its changed lines.
pub fn filtered_duplicate_blocks_for_scope(duplicate_blocks: Vec<DuplicateBlock>, branch_scope: &BranchScope) -> (r:
    Vec<DuplicateBlock>)
    ensures
        r@ == scoped_blocks(duplicate_blocks@, *branch_scope),
{
    let duplicate_blocks = match branch_scope.files() {
        Some(files) => filtered_duplicate_blocks(duplicate_blocks, files),
        None => duplicate_blocks,
    };
    match branch_scope.lines() {
        Some(lines) => filtered_strict_duplicate_blocks(duplicate_blocks, lines),
        None => duplicate_blocks,
    }
}

/// The changed lines given to a report, as the specification sees them.
pub open spec fn changed_view(changed_lines: Option<&Vec<ChangedFileLines>>) -> Option<Seq<ChangedFileLines>> {
    match changed_lines {
        Some(c) => Some(c@),
        None => None,
    }
}

/// How a report lists a file: its path, and its changed ranges when the
/// report is limited to changed lines and the file has some.
pub open spec fn analyzed_view(path: Seq<char>, changed: Option<Seq<ChangedFileLines>>) -> (Seq<char>, Option<Seq<LineRange>>) {
    (path, match changed {
        Some(c) => lines_for_path(c, path),
        None => None,
    })
}

/// An analyzed file as the specification sees it.
pub open spec fn analyzed_file_view(f: AnalyzedFile) -> (Seq<char>, Option<Seq<LineRange>>) {
    (f.path@, match f.changed_lines {
        Some(l) => Some(l@),
        None => None,
    })
}

/// A file listed in a report, with its changed ranges when the report is
/// limited to changed lines.
pub fn analyzed_file(path: &str, changed_lines: Option<&Vec<ChangedFileLines>>) -> (r: AnalyzedFile)
    ensures
        analyzed_file_view(r) == analyzed_view(path@, changed_view(changed_lines)),
{
    let lines = match changed_lines {
        Some(c) => changed_lines_for_path(path, c),
        None => None,
    };
    AnalyzedFile { path: path.to_string(), changed_lines: lines }
}

/// The listed files of a report, one per processed file.
pub fn analyzed_processed_files(
    processed_files: &Vec<ProcessedFile>,
    changed_lines: Option<&Vec<ChangedFileLines>>,
) -> (r: Vec<AnalyzedFile>)
    ensures
        r@.len() == processed_files@.len(),
        forall|i: int|
            0 <= i < r@.len() ==> analyzed_file_view(#[trigger] r@[i]) == analyzed_view(
                processed_files@[i].source.display_path@,
                changed_view(changed_lines),
            ),
{
    let mut r: Vec<AnalyzedFile> = Vec::new();
    let mut k: usize = 0;
    while k < processed_files.len()
        invariant
            k <= processed_files@.len(),
            r@.len() == k,
            forall|i: int|
                0 <= i < k ==> analyzed_file_view(#[trigger] r@[i]) == analyzed_view(
                    processed_files@[i].source.display_path@,
                    changed_view(changed_lines),
                ),
        decreases processed_files.len() - k,
    {
        r.push(analyzed_file(processed_files[k].source.display_path.as_str(), changed_lines));
        k += 1;
    }
    r
}

/// The listed files of a report, one per source file.
pub fn analyzed_source_file_paths(
    source_files: &Vec<SourceFile>,
    changed_lines: Option<&Vec<ChangedFileLines>>,
) -> (r: Vec<AnalyzedFile>)
    ensures
        r@.len() == source_files@.len(),
        forall|i: int|
            0 <= i < r@.len() ==> analyzed_file_view(#[trigger] r@[i]) == analyzed_view(
                source_files@[i].display_path@,
                changed_view(changed_lines),
            ),
{
    let mut r: Vec<AnalyzedFile> = Vec::new();
    let mut k: usize = 0;
    while k < source_files.len()
        invariant
            k <= source_files@.len(),
            r@.len() == k,
            forall|i: int|
                0 <= i < k ==> analyzed_file_view(#[trigger] r@[i]) == analyzed_view(
                    source_files@[i].display_path@,
                    changed_view(changed_lines),
                ),
        decreases source_files.len() - k,
    {
        r.push(analyzed_file(source_files[k].display_path.as_str(), changed_lines));
        k += 1;
    }
    r
}

/// The explicit files a duplicate search starts from: none on a changed
/// branch, where every file is searched for copies of the changed ones.
pub fn duplicate_discovery_files(config: &CliConfig) -> (r: Option<&Vec<String>>)
    ensures
        config.git_branch ==> r is None,
        !config.git_branch ==> match config.files {
            Some(f) => r matches Some(v) && v@ == f@,
            None => r is None,
        },
{
    if config.git_branch {
        None
    } else {
        match &config.files {
            Some(f) => Some(f),
            None => None,
        }
    }
}

/// The duplicate report of a run: the files of the scope counted and, in
/// verbose mode, listed; the blocks that the scope keeps.
pub fn build_duplicate_report(
    config: &CliConfig,
    processed_files: &Vec<ProcessedFile>,
    duplicate_blocks: Vec<DuplicateBlock>,
    branch_scope: &BranchScope,
    timings: Option<DuplicateReportTimings>,
) -> (report: DuplicateReport)
    ensures
        report.analyzed_files == scoped_processed_files(processed_files@, *branch_scope).len(),
        report.analyzed_extensions@ == config.file_extensions@,
        config.verbose ==> (report.analyzed_file_paths matches Some(paths) && paths@.len()
            == report.analyzed_files && forall|i: int|
            0 <= i < paths@.len() ==> analyzed_file_view(#[trigger] paths@[i]) == analyzed_view(
                scoped_processed_files(processed_files@, *branch_scope)[i].source.display_path@,
                scope_lines(*branch_scope),
            )),
        !config.verbose ==> report.analyzed_file_paths is None,
        report.timings == timings,
        report.duplicate_blocks@ == scoped_blocks(duplicate_blocks@, *branch_scope),
{
    let analyzed_source_files = filtered_processed_files_for_scope(processed_files, branch_scope);
    let duplicate_blocks = filtered_duplicate_blocks_for_scope(duplicate_blocks, branch_scope);
    let analyzed_file_paths = if config.verbose {
        let lines = branch_scope.lines();
        let paths = analyzed_processed_files(&analyzed_source_files, lines);
        proof {
            assert(changed_view(lines) == scope_lines(*branch_scope));
            let scoped = scoped_processed_files(processed_files@, *branch_scope);
            assert forall|i: int| 0 <= i < paths@.len() implies analyzed_file_view(#[trigger] paths@[i])
                == analyzed_view(scoped[i].source.display_path@, scope_lines(*branch_scope)) by {
                assert(same_processed_file(analyzed_source_files@[i], scoped[i]));
            }
        }
        Some(paths)
    } else {
        None
    };
    DuplicateReport {
        analyzed_files: analyzed_source_files.len(),
        analyzed_extensions: copy_strings(&config.file_extensions),
        analyzed_file_paths,
        timings,
        duplicate_blocks,
    }
}

/// The extensions whose language the complexity analysis supports, in
/// their order; `supported[i]` says whether it supports `extensions[i]`.
pub fn filter_supported_extensions(extensions: &Vec<String>, supported: &Vec<bool>) -> (r: Vec<String>)
    requires
        supported@.len() == extensions@.len(),
    ensures
        r@ == supported_extensions(extensions@, supported@),
{
    let mut r: Vec<String> = Vec::new();
    let mut k: usize = 0;
    while k < extensions.len()
        invariant
            k <= extensions@.len(),
            supported@.len() == extensions@.len(),
            r@ == supported_extensions(extensions@.take(k as int), supported@.take(k as int)),
        decreases extensions.len() - k,
    {
        proof {
            assert(extensions@.take(k + 1).drop_last() =~= extensions@.take(k as int));
            assert(supported@.take(k + 1).drop_last() =~= supported@.take(k as int));
        }
        if supported[k] {
            r.push(extensions[k].clone());
        }
        k += 1;
    }
    assert(extensions@.take(k as int) =~= extensions@);
    assert(supported@.take(k as int) =~= supported@);
    r
}

/// The extensions marked as supported, in their order.
pub open spec fn supported_extensions(extensions: Seq<String>, supported: Seq<bool>) -> Seq<String>
    decreases extensions.len(),
{
    if extensions.len() == 0 || supported.len() == 0 {
        Seq::empty()
    } else {
        let rest = supported_extensions(extensions.drop_last(), supported.drop_last());
        if supported.last() {
            rest.push(extensions.last())
        } else {
            rest
        }
    }
}

/// Where a function stands in a complexity report: display path, first
/// line, last line and name.
pub open spec fn function_key(path: Seq<char>, start: int, end: int, name: Seq<char>) -> (Seq<char>, int, int, Seq<char>) {
    (path_key(path), start, end, name)
}

/// The order of functions in a complexity report: by display path, then
/// first line, last line and name.
pub open spec fn function_key_lt(a: (Seq<char>, int, int, Seq<char>), b: (Seq<char>, int, int, Seq<char>)) -> bool {
    ||| text_lt(a.0, b.0)
    ||| a.0 == b.0 && a.1 < b.1
    ||| a.0 == b.0 && a.1 == b.1 && a.2 < b.2
    ||| a.0 == b.0 && a.1 == b.1 && a.2 == b.2 && text_lt(a.3, b.3)
}

/// Compares two functions of a complexity report by display path, first
/// line, last line and name.
pub fn compare_function_locations(
    left_path: &str,
    left_start: usize,
    left_end: usize,
    left_name: &str,
    right_path: &str,
    right_start: usize,
    right_end: usize,
    right_name: &str,
) -> (r: Comparison3)
    ensures
        ({
            let a = function_key(left_path@, left_start as int, left_end as int, left_name@);
            let b = function_key(right_path@, right_start as int, right_end as int, right_name@);
            &&& r == Comparison3::Less <==> function_key_lt(a, b)
            &&& r == Comparison3::Equal <==> a == b
            &&& r == Comparison3::Greater <==> function_key_lt(b, a)
        }),
{
    let lp = chars_of(format_path(left_path).as_str());
    let rp = chars_of(format_path(right_path).as_str());
    proof {
        lemma_text_trichotomy(lp@, rp@);
        lemma_text_trichotomy(left_name@, right_name@);
    }
    match compare_chars(lp.as_slice(), rp.as_slice()) {
        Comparison3::Less => Comparison3::Less,
        Comparison3::Greater => Comparison3::Greater,
        Comparison3::Equal => {
            if left_start < right_start {
                Comparison3::Less
            } else if left_start > right_start {
                Comparison3::Greater
            } else if left_end < right_end {
                Comparison3::Less
            } else if left_end > right_end {
                Comparison3::Greater
            } else {
                let ln = chars_of(left_name);
                let rn = chars_of(right_name);
                compare_chars(ln.as_slice(), rn.as_slice())
            }
        },
    }
}

} // verus!
