//! The data that flows from discovery through line processing to reports.

use vstd::prelude::*;

use crate::text::char_count;

verus! {

/// Whether a line may start a duplicate match, or only appear inside one.
#[derive(Debug, Clone, Copy, PartialEq, Eq, Structural)]
pub enum LineStatus {
    Comparison,
    BlockOnly,
}

/// A file selected for analysis: where it is read from, how it is shown,
/// and its lower-case extension.
#[derive(Debug, Clone, PartialEq, Eq)]
pub struct SourceFile {
    pub path: String,
    pub display_path: String,
    pub extension: String,
}

impl SourceFile {
    /// A copy of the source file.
    pub fn cloned(&self) -> (r: Self)
        ensures
            r == *self,
    {
        SourceFile {
            path: self.path.clone(),
            display_path: self.display_path.clone(),
            extension: self.extension.clone(),
        }
    }
}

/// One non-empty, trimmed line of a source file.
#[derive(Debug, Clone, PartialEq, Eq)]
pub struct LineEntry {
    pub file_path: String,
    pub line_number: usize,
    pub normalized_text: String,
    pub hash: u128,
    pub status: LineStatus,
}

/// A source file with its normalized lines, in file order.
#[derive(Debug, Clone, PartialEq, Eq)]
pub struct ProcessedFile {
    pub source: SourceFile,
    pub lines: Vec<LineEntry>,
}

/// Where one copy of a duplicated block stands.
#[derive(Debug, Clone, PartialEq, Eq)]
pub struct DuplicateOccurrence {
    pub file_path: String,
    pub start_line: usize,
    pub end_line: usize,
}

/// A block of normalized lines that occurs in several places.
#[derive(Debug, Clone, PartialEq, Eq)]
pub struct DuplicateBlock {
    pub normalized_lines: Vec<String>,
    pub occurrences: Vec<DuplicateOccurrence>,
    pub weight: u64,
}

/// An inclusive range of line numbers.
#[derive(Debug, Clone, Copy, PartialEq, Eq, Structural)]
pub struct LineRange {
    pub start: usize,
    pub end: usize,
}

/// The changed line ranges of one file.
#[derive(Debug, Clone, PartialEq, Eq)]
pub struct ChangedFileLines {
    pub path: String,
    pub lines: Vec<LineRange>,
}

/// A file listed in a verbose report, with its changed ranges when the
/// report is limited to changed lines.
#[derive(Debug, Clone, PartialEq, Eq)]
pub struct AnalyzedFile {
    pub path: String,
    pub changed_lines: Option<Vec<LineRange>>,
}

/// The texts of a list of strings.
pub open spec fn texts(lines: Seq<String>) -> Seq<Seq<char>> {
    lines.map_values(|line: String| line@)
}

/// The total number of characters of a list of texts.
pub open spec fn total_chars(lines: Seq<Seq<char>>) -> nat
    decreases lines.len(),
{
    if lines.len() == 0 {
        0
    } else {
        total_chars(lines.drop_last()) + lines.last().len()
    }
}

/// The view of an occurrence: file path, first and last line number.
pub open spec fn occurrence_view(o: DuplicateOccurrence) -> (Seq<char>, int, int) {
    (o.file_path@, o.start_line as int, o.end_line as int)
}

impl DuplicateBlock {
    /// The texts of the block's lines.
    pub open spec fn lines_view(&self) -> Seq<Seq<char>> {
        texts(self.normalized_lines@)
    }

    /// The number of lines in the block.
    pub fn line_count(&self) -> (n: usize)
        ensures
            n == self.normalized_lines@.len(),
    {
        self.normalized_lines.len()
    }

    /// The number of characters over all lines of the block.
    pub fn character_count(&self) -> (n: u64)
        requires
            total_chars(self.lines_view()) <= u64::MAX,
        ensures
            n == total_chars(self.lines_view()),
    {
        let mut total: u64 = 0;
        let mut i: usize = 0;
        while i < self.normalized_lines.len()
            invariant
                i <= self.normalized_lines@.len(),
                total_chars(self.lines_view()) <= u64::MAX,
                total == total_chars(self.lines_view().take(i as int)),
            decreases self.normalized_lines.len() - i,
        {
            proof {
                assert(self.lines_view().take(i + 1).drop_last() =~= self.lines_view().take(
                    i as int,
                ));
                lemma_total_chars_prefix(self.lines_view(), i + 1);
            }
            let n = char_count(self.normalized_lines[i].as_str());
            total = total + n as u64;
            i += 1;
        }
        assert(self.lines_view().take(i as int) =~= self.lines_view());
        total
    }
}

/// Characters of a prefix never exceed those of the whole.
pub proof fn lemma_total_chars_prefix(lines: Seq<Seq<char>>, k: int)
    requires
        0 <= k <= lines.len(),
    ensures
        total_chars(lines.take(k)) <= total_chars(lines),
    decreases lines.len() - k,
{
    if k < lines.len() {
        lemma_total_chars_prefix(lines, k + 1);
        assert(lines.take(k + 1).drop_last() =~= lines.take(k));
    } else {
        assert(lines.take(k) =~= lines);
    }
}

} // verus!
