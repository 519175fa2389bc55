//! Splitting source text into normalized, hashed and classified lines.

use vstd::prelude::*;

use crate::language::classification::{
    block_only_line, hash_normalized_line, merged_patterns, xxh3_128_of, ExtensionPatterns,
};
use crate::language::patterns::pattern_registry;
use crate::model::{LineEntry, LineStatus, ProcessedFile, SourceFile};
use crate::text::{
    ascii_lowercase, char_views, chars_of, push_str, string_from_utf8, split_chars, split_on, string_from_chars, trim, trim_chars,
};
use vstd::utf8::{decode_utf8, encode_utf8, valid_utf8};

use crate::error::CodeM8Error;
use crate::paths::{format_path, path_key};

verus! {

/// A line without one trailing carriage return.
pub open spec fn without_carriage_return(line: Seq<char>) -> Seq<char> {
    if line.len() > 0 && line.last() == '\r' {
        line.drop_last()
    } else {
        line
    }
}

/// The lines of a text as `BufRead::lines` yields them: split at line
/// feeds, no empty line after a final line feed, and one trailing carriage
/// return removed from each line.
pub open spec fn text_lines(text: Seq<char>) -> Seq<Seq<char>> {
    let pieces = split_on(text, '\n');
    let kept = if pieces.last().len() == 0 {
        pieces.drop_last()
    } else {
        pieces
    };
    kept.map_values(|line: Seq<char>| without_carriage_return(line))
}

/// The numbered, normalized non-empty lines of `lines`: each with its line
/// number, counted from one.
pub open spec fn numbered_lines(lines: Seq<Seq<char>>) -> Seq<(int, Seq<char>)>
    decreases lines.len(),
{
    if lines.len() == 0 {
        Seq::empty()
    } else {
        let earlier = numbered_lines(lines.drop_last());
        let normalized = trim(lines.last());
        if normalized.len() == 0 {
            earlier
        } else {
            earlier.push((lines.len() as int, normalized))
        }
    }
}

/// The status of a normalized line of a file with `extension`.
pub open spec fn line_status(extension: Seq<char>, line: Seq<char>) -> LineStatus {
    if block_only_line(extension, line, xxh3_128_of(encode_utf8(line))) {
        LineStatus::BlockOnly
    } else {
        LineStatus::Comparison
    }
}

/// A line entry holds the numbered line `n` of a file.
pub open spec fn entry_for(e: LineEntry, source: SourceFile, n: (int, Seq<char>)) -> bool {
    &&& e.file_path@ == source.display_path@
    &&& e.line_number == n.0
    &&& e.normalized_text@ == n.1
    &&& e.hash == xxh3_128_of(encode_utf8(n.1))
    &&& e.status == line_status(source.extension@, n.1)
}

/// The line without leading and trailing white space; none when nothing is
/// left.
pub fn normalize_line(line: &str) -> (r: Option<String>)
    ensures
        trim(line@).len() == 0 ==> r is None,
        trim(line@).len() > 0 ==> (r matches Some(s) && s@ == trim(line@)),
{
    let chars = chars_of(line);
    let trimmed = trim_chars(chars.as_slice());
    if trimmed.len() == 0 {
        None
    } else {
        Some(string_from_chars(trimmed.as_slice()))
    }
}

/// The lines of a text, as `BufRead::lines` yields them.
pub fn split_text_lines(text: &str) -> (lines: Vec<Vec<char>>)
    ensures
        char_views(lines@) == text_lines(text@),
{
    let chars = chars_of(text);
    split_char_lines(chars.as_slice())
}

/// The lines of a text given as characters, as `BufRead::lines` yields
/// them.
pub fn split_char_lines(chars: &[char]) -> (lines: Vec<Vec<char>>)
    ensures
        char_views(lines@) == text_lines(chars@),
{
    let mut pieces = split_chars(chars, '\n');
    let ghost all = char_views(pieces@);
    proof {
        assert(all.len() > 0) by {
            crate::text::lemma_split_on_nonempty(chars@, '\n');
        }
    }
    let last_empty = pieces[pieces.len() - 1].len() == 0;
    if last_empty {
        pieces.pop();
        assert(char_views(pieces@) =~= all.drop_last());
    }
    let ghost kept = char_views(pieces@);
    let mut lines: Vec<Vec<char>> = Vec::new();
    let mut i: usize = 0;
    while i < pieces.len()
        invariant
            i <= pieces@.len(),
            kept == char_views(pieces@),
            char_views(lines@) == kept.take(i as int).map_values(|line: Seq<char>| without_carriage_return(line)),
        decreases pieces.len() - i,
    {
        let mut line = pieces[i].clone();
        proof {
            assert(line@ == kept[i as int]);
        }
        let ghost piece = line@;
        if line.len() > 0 && line[line.len() - 1] == '\r' {
            line.pop();
            assert(line@ =~= piece.drop_last());
        }
        let ghost before = char_views(lines@);
        lines.push(line);
        proof {
            assert(char_views(lines@) =~= before.push(without_carriage_return(piece)));
            assert(kept.take(i + 1).map_values(|line: Seq<char>| without_carriage_return(line)) =~= kept.take(
                i as int,
            ).map_values(|line: Seq<char>| without_carriage_return(line)).push(without_carriage_return(piece)));
        }
        i += 1;
    }
    proof {
        assert(kept.take(i as int) =~= kept);
    }
    lines
}

/// Normalizes, hashes and classifies the lines of a source file's text.
/// Lines that are empty after trimming are left out; the others keep their
/// line numbers.
pub fn process_source_text(source_file: &SourceFile, text: &str) -> (r: ProcessedFile)
    ensures
        r.source == *source_file,
        r.lines@.len() == numbered_lines(text_lines(text@)).len(),
        forall|k: int|
            0 <= k < r.lines@.len() ==> entry_for(
                #[trigger] r.lines@[k],
                *source_file,
                numbered_lines(text_lines(text@))[k],
            ),
{
    let lines = split_text_lines(text);
    let ghost views = char_views(lines@);
    let patterns = ExtensionPatterns::for_extension(source_file.extension.as_str());
    let ghost m = merged_patterns(pattern_registry(), ascii_lowercase(source_file.extension@));
    let mut entries: Vec<LineEntry> = Vec::new();
    let mut i: usize = 0;
    proof {
        assert(views.take(0) =~= Seq::<Seq<char>>::empty());
    }
    while i < lines.len()
        invariant
            i <= lines@.len(),
            views == char_views(lines@),
            patterns.holds(m),
            m == merged_patterns(pattern_registry(), ascii_lowercase(source_file.extension@)),
            entries@.len() == numbered_lines(views.take(i as int)).len(),
            forall|k: int|
                0 <= k < entries@.len() ==> entry_for(
                    #[trigger] entries@[k],
                    *source_file,
                    numbered_lines(views.take(i as int))[k],
                ),
        decreases lines.len() - i,
    {
        let ghost prefix = views.take(i + 1);
        proof {
            assert(prefix.drop_last() =~= views.take(i as int));
            assert(prefix.last() == lines@[i as int]@);
        }
        let text_line = string_from_chars(lines[i].as_slice());
        let normalized = normalize_line(text_line.as_str());
        if let Some(normalized_text) = normalized {
            let hash = hash_normalized_line(normalized_text.as_str());
            let status = patterns.classify(normalized_text.as_str(), hash, Ghost(m));
            let entry = LineEntry {
                file_path: source_file.display_path.clone(),
                line_number: i + 1,
                normalized_text,
                hash,
                status,
            };
            let ghost before = entries@;
            entries.push(entry);
            proof {
                assert forall|k: int| 0 <= k < entries@.len() implies entry_for(
                    #[trigger] entries@[k],
                    *source_file,
                    numbered_lines(prefix)[k],
                ) by {
                    if k < before.len() {
                        assert(entries@[k] == before[k]);
                    }
                }
            }
        }
        i += 1;
    }
    proof {
        assert(views.take(i as int) =~= views);
    }
    ProcessedFile { source: source_file.cloned(), lines: entries }
}

/// `p` holds the lines of `text` as processed for `source`.
pub open spec fn processes_text(p: ProcessedFile, source: SourceFile, text: Seq<char>) -> bool {
    &&& p.source == source
    &&& p.lines@.len() == numbered_lines(text_lines(text)).len()
    &&& forall|k: int|
        0 <= k < p.lines@.len() ==> entry_for(#[trigger] p.lines@[k], source, numbered_lines(text_lines(text))[k])
}

/// Processes the bytes of a source file, which must be UTF-8 text.
pub fn process_source_bytes(source_file: &SourceFile, bytes: Vec<u8>) -> (r: Result<ProcessedFile, CodeM8Error>)
    ensures
        valid_utf8(bytes@) ==> (r matches Ok(p) && processes_text(p, *source_file, decode_utf8(bytes@))),
        !valid_utf8(bytes@) ==> (r matches Err(e) && e.message_view() == "could not read "@ + path_key(
            source_file.display_path@,
        ) + " as UTF-8 text: stream did not contain valid UTF-8"@ && !e.shows_help()),
{
    match string_from_utf8(bytes) {
        Ok(text) => Ok(process_source_text(source_file, text.as_str())),
        Err(_) => {
            let mut message = String::new();
            push_str(&mut message, "could not read ");
            let shown = format_path(source_file.display_path.as_str());
            push_str(&mut message, shown.as_str());
            push_str(&mut message, " as UTF-8 text: stream did not contain valid UTF-8");
            Err(CodeM8Error::new(message))
        },
    }
}

} // verus!
