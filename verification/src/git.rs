//! Reading what `git` reports: changed line ranges from unified diffs,
//! quoted paths, path lists and branch names.

use vstd::prelude::*;

use crate::cli::args::has_prefix;
use crate::cli::values::{parse_usize, parsed_usize, string_from_chars_literal};
use crate::error::CodeM8Error;
use crate::line::{split_text_lines, text_lines};
use crate::model::{ChangedFileLines, LineRange};
use crate::paths::{compare_paths, lemma_components_lt_transitive, lemma_components_trichotomy, path_components, path_lt, same_path};
use crate::ranges::{covers, in_range, merged_ranges, ranges_valid, same_lines, separated};
use vstd::utf8::{decode_utf8, encode_utf8, valid_utf8};
use crate::text::{Comparison3, split_on, string_from_utf8,
    char_views, chars_of, is_white_space, is_white_space_char, push_chars, push_str, slice_chars,
    starts_with_chars, string_from_chars, trim, trim_chars,
};

verus! {

/// The words of a text, as `str::split_whitespace` yields them.
pub open spec fn whitespace_words(s: Seq<char>) -> Seq<Seq<char>>
    decreases s.len(),
{
    if s.len() == 0 {
        Seq::empty()
    } else {
        let words = whitespace_words(s.drop_last());
        let c = s.last();
        if is_white_space(c) {
            words
        } else if s.len() >= 2 && !is_white_space(s[s.len() - 2]) {
            words.update(words.len() - 1, words.last().push(c))
        } else {
            words.push(seq![c])
        }
    }
}

/// The first word that starts with `+`.
pub open spec fn first_plus_word(words: Seq<Seq<char>>) -> Option<Seq<char>>
    decreases words.len(),
{
    if words.len() == 0 {
        None
    } else {
        let earlier = first_plus_word(words.drop_last());
        if earlier is Some {
            earlier
        } else if words.last().len() > 0 && words.last()[0] == '+' {
            Some(words.last())
        } else {
            None
        }
    }
}

/// The text without all its leading `c`.
pub open spec fn strip_leading(s: Seq<char>, c: char) -> Seq<char>
    decreases s.len(),
{
    if s.len() > 0 && s[0] == c {
        strip_leading(s.drop_first(), c)
    } else {
        s
    }
}

/// The text before and after its first `c`, as `str::split_once` gives
/// them.
pub open spec fn split_once(s: Seq<char>, c: char) -> Option<(Seq<char>, Seq<char>)>
    decreases s.len(),
{
    if s.len() == 0 {
        None
    } else if s[0] == c {
        Some((Seq::empty(), s.drop_first()))
    } else {
        match split_once(s.drop_first(), c) {
            Some(parts) => Some((seq![s[0]] + parts.0, parts.1)),
            None => None,
        }
    }
}

/// The first line and the line count of a hunk header's new side:
/// `+start,count`, or `+start` for one line.
pub open spec fn hunk_numbers(line: Seq<char>) -> Option<(usize, usize)> {
    match first_plus_word(whitespace_words(line)) {
        None => None,
        Some(word) => {
            let added = strip_leading(word, '+');
            let parts = match split_once(added, ',') {
                Some(p) => p,
                None => (added, seq!['1']),
            };
            match (parsed_usize(parts.0), parsed_usize(parts.1)) {
                (Some(start), Some(count)) => Some((start, count)),
                _ => None,
            }
        },
    }
}

/// A hunk header whose last changed line is below the largest line number,
/// so that the line after it can still be counted when ranges are merged.
pub open spec fn hunk_fits(line: Seq<char>) -> bool {
    match hunk_numbers(line) {
        Some((start, count)) => count == 0 || start + count <= usize::MAX,
        None => true,
    }
}

/// The changed lines of a hunk header: none for an empty new side.
pub open spec fn hunk_range(line: Seq<char>) -> Result<Option<(usize, usize)>, Seq<char>> {
    match hunk_numbers(line) {
        None => Err("could not parse changed git hunk: "@ + line),
        Some((start, count)) => Ok(
            if count != 0 {
                Some((start, (start + count - 1) as usize))
            } else {
                None
            },
        ),
    }
}

/// `str::split_whitespace` on characters.
fn split_whitespace_chars(s: &[char]) -> (words: Vec<Vec<char>>)
    ensures
        char_views(words@) == whitespace_words(s@),
{
    let mut words: Vec<Vec<char>> = Vec::new();
    let mut i: usize = 0;
    proof {
        assert(s@.take(0) =~= Seq::<char>::empty());
        assert(char_views(words@) =~= Seq::<Seq<char>>::empty());
    }
    while i < s.len()
        invariant
            i <= s@.len(),
            char_views(words@) == whitespace_words(s@.take(i as int)),
            i > 0 && !is_white_space(s@[i - 1]) ==> words@.len() > 0,
        decreases s.len() - i,
    {
        let c = s[i];
        let ghost before = char_views(words@);
        proof {
            assert(s@.take(i + 1).drop_last() =~= s@.take(i as int));
            assert(s@.take(i + 1).last() == c);
            if i > 0 {
                assert(s@.take(i + 1)[i - 1] == s@[i - 1]);
            }
        }
        if is_white_space_char(c) {
        } else if i > 0 && !is_white_space_char(s[i - 1]) {
            let n = words.len();
            let mut last = words.pop().unwrap();
            let ghost last_view = last@;
            last.push(c);
            words.push(last);
            proof {
                assert(char_views(words@) =~= before.update(n - 1, last_view.push(c)));
            }
        } else {
            let mut word: Vec<char> = Vec::new();
            word.push(c);
            words.push(word);
            proof {
                assert(char_views(words@) =~= before.push(seq![c]));
            }
        }
        i += 1;
    }
    assert(s@.take(i as int) =~= s@);
    words
}

/// The first word that starts with `+`.
fn find_plus_word(words: &Vec<Vec<char>>) -> (r: Option<usize>)
    ensures
        match first_plus_word(char_views(words@)) {
            Some(w) => r matches Some(k) && k < words@.len() && words@[k as int]@ == w,
            None => r is None,
        },
{
    let ghost views = char_views(words@);
    let mut k: usize = 0;
    proof {
        assert(views.take(0) =~= Seq::<Seq<char>>::empty());
    }
    while k < words.len()
        invariant
            k <= words@.len(),
            views == char_views(words@),
            first_plus_word(views.take(k as int)) is None,
        decreases words.len() - k,
    {
        proof {
            assert(views.take(k + 1).drop_last() =~= views.take(k as int));
            assert(views.take(k + 1).last() == words@[k as int]@);
        }
        if words[k].len() > 0 && words[k][0] == '+' {
            proof {
                lemma_first_plus_stays(views, k as int + 1);
                assert(views.take(views.len() as int) =~= views);
            }
            return Some(k);
        }
        k += 1;
    }
    assert(views.take(k as int) =~= views);
    None
}

proof fn lemma_first_plus_stays(words: Seq<Seq<char>>, i: int)
    requires
        0 < i <= words.len(),
        first_plus_word(words.take(i)) is Some,
    ensures
        first_plus_word(words) == first_plus_word(words.take(i)),
    decreases words.len() - i,
{
    if i < words.len() {
        assert(words.take(i + 1).drop_last() =~= words.take(i));
        lemma_first_plus_stays(words, i + 1);
    } else {
        assert(words.take(i) =~= words);
    }
}

/// The text without all its leading `c`.
fn strip_leading_chars(s: &[char], c: char) -> (out: Vec<char>)
    ensures
        out@ == strip_leading(s@, c),
{
    let mut i: usize = 0;
    proof {
        assert(s@.skip(0) =~= s@);
    }
    while i < s.len() && s[i] == c
        invariant
            i <= s@.len(),
            strip_leading(s@, c) == strip_leading(s@.skip(i as int), c),
        decreases s.len() - i,
    {
        proof {
            assert(s@.skip(i as int).drop_first() =~= s@.skip(i + 1));
        }
        i += 1;
    }
    let out = slice_chars(s, i, s.len());
    assert(out@ =~= s@.skip(i as int));
    out
}

/// `str::split_once(c)` on characters.
fn split_once_chars(s: &[char], c: char) -> (r: Option<(Vec<char>, Vec<char>)>)
    ensures
        match split_once(s@, c) {
            Some(parts) => r matches Some(x) && x.0@ == parts.0 && x.1@ == parts.1,
            None => r is None,
        },
{
    let mut i: usize = 0;
    proof {
        assert(s@.skip(0) =~= s@);
        match split_once(s@, c) {
            Some(parts) => {
                assert(s@.take(0) + parts.0 =~= parts.0);
            },
            None => {},
        }
    }
    while i < s.len() && s[i] != c
        invariant
            i <= s@.len(),
            forall|k: int| 0 <= k < i ==> s@[k] != c,
            split_once(s@, c) == match split_once(s@.skip(i as int), c) {
                Some(parts) => Some((s@.take(i as int) + parts.0, parts.1)),
                None => None,
            },
        decreases s.len() - i,
    {
        proof {
            let rest = s@.skip(i as int);
            assert(rest.drop_first() =~= s@.skip(i + 1));
            assert(rest[0] == s@[i as int]);
            assert(s@.take(i + 1) =~= s@.take(i as int).push(s@[i as int]));
            match split_once(s@.skip(i + 1), c) {
                Some(parts) => {
                    assert(s@.take(i as int) + (seq![s@[i as int]] + parts.0) =~= s@.take(i + 1) + parts.0);
                },
                None => {},
            }
        }
        i += 1;
    }
    if i == s.len() {
        proof {
            assert(s@.skip(i as int).len() == 0);
        }
        return None;
    }
    let before = slice_chars(s, 0, i);
    let after = slice_chars(s, i + 1, s.len());
    proof {
        let rest = s@.skip(i as int);
        assert(rest[0] == c);
        assert(rest.drop_first() =~= after@);
        assert(before@ =~= s@.take(i as int));
        assert(s@.take(i as int) + Seq::<char>::empty() =~= before@);
    }
    Some((before, after))
}

/// The start and count of the added side of a hunk header.
fn read_hunk_numbers(line: &str) -> (numbers: Option<(usize, usize)>)
    ensures
        numbers == hunk_numbers(line@),
{
    let chars = chars_of(line);
    let words = split_whitespace_chars(chars.as_slice());
    let found = find_plus_word(&words);
    let numbers = match found {
        None => None,
        Some(k) => {
            let added = strip_leading_chars(words[k].as_slice(), '+');
            let (start_text, count_text) = match split_once_chars(added.as_slice(), ',') {
                Some(parts) => parts,
                None => {
                    let mut one: Vec<char> = Vec::new();
                    one.push('1');
                    assert(one@ =~= seq!['1']);
                    (added, one)
                },
            };
            match (parse_usize(start_text.as_slice()), parse_usize(count_text.as_slice())) {
                (Some(start), Some(count)) => Some((start, count)),
                _ => None,
            }
        },
    };
    numbers
}

/// The changed lines of a hunk header, as a first and a last line; none for
/// an empty new side.
pub fn parse_hunk_range(line: &str) -> (r: Result<Option<(usize, usize)>, CodeM8Error>)
    requires
        hunk_fits(line@),
    ensures
        match hunk_range(line@) {
            Ok(range) => r == Ok::<Option<(usize, usize)>, CodeM8Error>(range),
            Err(m) => r matches Err(e) && e.message_view() == m && !e.shows_help(),
        },
{
    let numbers = read_hunk_numbers(line);
    match numbers {
        None => {
            let mut message = String::new();
            push_str(&mut message, "could not parse changed git hunk: ");
            push_str(&mut message, line);
            Err(CodeM8Error::new(message))
        },
        Some((start, count)) => {
            if count != 0 {
                Ok(Some((start, start + (count - 1))))
            } else {
                Ok(None)
            }
        },
    }
}

/// The byte of a one-character escape of a quoted git path.
pub open spec fn simple_escape(c: char) -> Option<u8> {
    if c == '\\' {
        Some(92)
    } else if c == '"' {
        Some(34)
    } else if c == 'a' {
        Some(7)
    } else if c == 'b' {
        Some(8)
    } else if c == 'f' {
        Some(12)
    } else if c == 'n' {
        Some(10)
    } else if c == 'r' {
        Some(13)
    } else if c == 't' {
        Some(9)
    } else if c == 'v' {
        Some(11)
    } else {
        None
    }
}

pub open spec fn is_octal_digit(c: char) -> bool {
    '0' <= c && c <= '7'
}

/// How many octal digits an octal escape starting at `s[0]` takes: the
/// first and up to two more.
pub open spec fn octal_run(s: Seq<char>) -> int {
    if s.len() > 1 && is_octal_digit(s[1]) {
        if s.len() > 2 && is_octal_digit(s[2]) {
            3
        } else {
            2
        }
    } else {
        1
    }
}

/// The number that octal digits write.
pub open spec fn octal_value(d: Seq<char>) -> nat
    decreases d.len(),
{
    if d.len() == 0 {
        0
    } else {
        octal_value(d.drop_last()) * 8 + ((d.last() as u32) - 48) as nat
    }
}

/// The bytes of a quoted git path's inside, escapes resolved: the UTF-8
/// bytes of plain characters, the byte of a one-character escape, and the
/// byte of an octal escape of up to three digits.
pub open spec fn unescaped(s: Seq<char>) -> Option<Seq<u8>>
    decreases s.len(),
{
    if s.len() == 0 {
        Some(Seq::empty())
    } else if s[0] != '\\' {
        match unescaped(s.drop_first()) {
            Some(rest) => Some(encode_utf8(seq![s[0]]) + rest),
            None => None,
        }
    } else if s.len() < 2 {
        None
    } else {
        match simple_escape(s[1]) {
            Some(b) => match unescaped(s.skip(2)) {
                Some(rest) => Some(seq![b] + rest),
                None => None,
            },
            None => if is_octal_digit(s[1]) {
                let n = octal_run(s.skip(1));
                let v = octal_value(s.subrange(1, 1 + n));
                if v > 255 {
                    None
                } else {
                    match unescaped(s.skip(1 + n)) {
                        Some(rest) => Some(seq![v as u8] + rest),
                        None => None,
                    }
                }
            } else {
                None
            },
        }
    }
}

/// The text of a quoted git path: quotes taken off, escapes resolved, and
/// the bytes read as UTF-8.
pub open spec fn quoted_path(path: Seq<char>) -> Option<Seq<char>> {
    if path.len() >= 2 && path[0] == '"' && path.last() == '"' {
        match unescaped(path.subrange(1, path.len() - 1)) {
            Some(bytes) => if valid_utf8(bytes) {
                Some(decode_utf8(bytes))
            } else {
                None
            },
            None => None,
        }
    } else {
        None
    }
}

/// The bytes of `s` with escapes resolved.
fn unescape_chars(s: &[char]) -> (r: Option<Vec<u8>>)
    ensures
        match unescaped(s@) {
            Some(bytes) => r matches Some(b) && b@ == bytes,
            None => r is None,
        },
{
    let mut bytes: Vec<u8> = Vec::new();
    let mut i: usize = 0;
    proof {
        assert(s@.skip(0) =~= s@);
        match unescaped(s@) {
            Some(rest) => {
                assert(bytes@ + rest =~= rest);
            },
            None => {},
        }
    }
    while i < s.len()
        invariant
            i <= s@.len(),
            unescaped(s@) == match unescaped(s@.skip(i as int)) {
                Some(rest) => Some(bytes@ + rest),
                None => None,
            },
        decreases s.len() - i,
    {
        let ghost rest = s@.skip(i as int);
        let ghost before = bytes@;
        let c = s[i];
        proof {
            assert(rest[0] == c);
            assert(rest.drop_first() =~= s@.skip(i + 1));
        }
        if c != '\\' {
            let mut one = String::new();
            crate::text::push_char(&mut one, c);
            let encoded = one.as_str().as_bytes();
            let mut k: usize = 0;
            while k < encoded.len()
                invariant
                    k <= encoded@.len(),
                    bytes@ == before + encoded@.take(k as int),
                decreases encoded.len() - k,
            {
                bytes.push(encoded[k]);
                assert(encoded@.take(k + 1) =~= encoded@.take(k as int).push(encoded@[k as int]));
                k += 1;
            }
            proof {
                assert(encoded@.take(k as int) =~= encoded@);
                assert(one@ =~= seq![c]);
                match unescaped(s@.skip(i + 1)) {
                    Some(r2) => {
                        assert(before + (encode_utf8(seq![c]) + r2) =~= bytes@ + r2);
                    },
                    None => {},
                }
            }
            i += 1;
        } else {
            if i + 1 >= s.len() {
                return None;
            }
            let e = s[i + 1];
            proof {
                assert(rest[1] == e);
            }
            let simple: Option<u8> = if e == '\\' {
                Some(92u8)
            } else if e == '"' {
                Some(34u8)
            } else if e == 'a' {
                Some(7u8)
            } else if e == 'b' {
                Some(8u8)
            } else if e == 'f' {
                Some(12u8)
            } else if e == 'n' {
                Some(10u8)
            } else if e == 'r' {
                Some(13u8)
            } else if e == 't' {
                Some(9u8)
            } else if e == 'v' {
                Some(11u8)
            } else {
                None
            };
            assert(simple == simple_escape(e));
            match simple {
                Some(b) => {
                    bytes.push(b);
                    proof {
                        assert(rest.skip(2) =~= s@.skip(i + 2));
                        match unescaped(s@.skip(i + 2)) {
                            Some(r2) => {
                                assert(before + (seq![b] + r2) =~= bytes@ + r2);
                            },
                            None => {},
                        }
                    }
                    i += 2;
                },
                None => {
                    if !('0' <= e && e <= '7') {
                        return None;
                    }
                    let mut n: usize = 1;
                    if i + 2 < s.len() && '0' <= s[i + 2] && s[i + 2] <= '7' {
                        n = 2;
                        if i + 3 < s.len() && '0' <= s[i + 3] && s[i + 3] <= '7' {
                            n = 3;
                        }
                    }
                    proof {
                        let t = rest.skip(1);
                        assert(t.len() > 1 ==> t[1] == s@[i + 2]);
                        assert(t.len() > 2 ==> t[2] == s@[i + 3]);
                        assert(n == octal_run(t));
                    }
                    let mut value: u32 = 0;
                    let mut k: usize = 0;
                    let base = i + 1;
                    let slen = s.len();
                    let ghost digits = rest.subrange(1, 1 + n as int);
                    while k < n
                        invariant
                            k <= n <= 3,
                            1 <= n,
                            base == i + 1,
                            slen == s@.len(),
                            base + n <= s@.len(),
                            digits == s@.subrange(base as int, base + n),
                            forall|j: int| 0 <= j < n ==> is_octal_digit(#[trigger] digits[j]),
                            value == octal_value(digits.take(k as int)),
                            value < 512,
                        decreases n - k,
                    {
                        let d = s[base + k];
                        proof {
                            assert(digits[k as int] == d);
                            assert(digits.take(k + 1).drop_last() =~= digits.take(k as int));
                            lemma_octal_value_bound(digits, k + 1);
                            assert(pow8((k + 1) as nat) <= 512) by {
                                reveal_with_fuel(pow8, 4);
                            }
                        }
                        value = value * 8 + (d as u32 - 48);
                        k += 1;
                    }
                    proof {
                        assert(digits.take(n as int) =~= digits);
                        assert(rest.subrange(1, 1 + n as int) =~= digits);
                        assert(rest.skip(1 + n as int) =~= s@.skip(i + 1 + n));
                    }
                    if value > 255 {
                        return None;
                    }
                    let b = value as u8;
                    bytes.push(b);
                    proof {
                        match unescaped(s@.skip(i + 1 + n)) {
                            Some(r2) => {
                                assert(before + (seq![b] + r2) =~= bytes@ + r2);
                            },
                            None => {},
                        }
                    }
                    i += 1 + n;
                }
            }
        }
    }
    proof {
        assert(s@.skip(i as int).len() == 0);
        assert(bytes@ + Seq::<u8>::empty() =~= bytes@);
    }
    Some(bytes)
}

pub open spec fn pow8(k: nat) -> nat
    decreases k,
{
    if k == 0 {
        1
    } else {
        8 * pow8((k - 1) as nat)
    }
}

/// Octal digits write less than eight to the power of their count.
proof fn lemma_octal_value_bound(digits: Seq<char>, k: int)
    requires
        0 <= k <= digits.len(),
        forall|j: int| 0 <= j < digits.len() ==> is_octal_digit(#[trigger] digits[j]),
    ensures
        octal_value(digits.take(k)) < pow8(k as nat),
    decreases k,
{
    if k > 0 {
        lemma_octal_value_bound(digits, k - 1);
        assert(digits.take(k).drop_last() =~= digits.take(k - 1));
        assert(digits.take(k).last() == digits[k - 1]);
        assert(is_octal_digit(digits[k - 1]));
    } else {
        assert(digits.take(k).len() == 0);
    }
}

/// Reads a quoted git path: the quotes taken off and escapes resolved.
pub fn parse_quoted_diff_path(path: &str) -> (r: Result<String, CodeM8Error>)
    ensures
        match quoted_path(path@) {
            Some(p) => r matches Ok(s) && s@ == p,
            None => r matches Err(e) && e.message_view() == "could not parse changed git header: +++ "@ + path@
                && !e.shows_help(),
        },
{
    let chars = chars_of(path);
    let n = chars.len();
    let decoded = if n >= 2 && chars[0] == '"' && chars[n - 1] == '"' {
        let inner = slice_chars(chars.as_slice(), 1, n - 1);
        match unescape_chars(inner.as_slice()) {
            Some(bytes) => match string_from_utf8(bytes) {
                Ok(text) => Some(text),
                Err(_) => None,
            },
            None => None,
        }
    } else {
        None
    };
    match decoded {
        Some(s) => Ok(s),
        None => {
            let mut message = String::new();
            push_str(&mut message, "could not parse changed git header: +++ ");
            push_str(&mut message, path);
            Err(CodeM8Error::new(message))
        },
    }
}

/// What a line of a diff says about the file that follows.
pub enum HeaderView {
    NotHeader,
    DevNull,
    Path(Seq<char>),
}

/// Reads a `+++` line of a diff: the path of the new file side.
pub open spec fn header_result(line: Seq<char>) -> Result<HeaderView, Seq<char>> {
    if !has_prefix(line, "+++ "@) {
        Ok(HeaderView::NotHeader)
    } else {
        let path = line.skip(4);
        if path == "/dev/null"@ {
            Ok(HeaderView::DevNull)
        } else if has_prefix(path, "b/"@) {
            Ok(HeaderView::Path(path.skip(2)))
        } else if path.len() > 0 && path[0] == '"' {
            match quoted_path(path) {
                None => Err("could not parse changed git header: +++ "@ + path),
                Some(q) => if has_prefix(q, "b/"@) {
                    Ok(HeaderView::Path(q.skip(2)))
                } else {
                    Err("could not parse changed git header: "@ + line)
                },
            }
        } else {
            Err("could not parse changed git header: "@ + line)
        }
    }
}

/// What a line of a diff says about the file that follows.
#[derive(Debug, Clone, PartialEq, Eq)]
pub enum ParsedChangedFileHeader {
    NotHeader,
    DevNull,
    Path(String),
}

pub open spec fn header_view(h: ParsedChangedFileHeader) -> HeaderView {
    match h {
        ParsedChangedFileHeader::NotHeader => HeaderView::NotHeader,
        ParsedChangedFileHeader::DevNull => HeaderView::DevNull,
        ParsedChangedFileHeader::Path(p) => HeaderView::Path(p@),
    }
}

/// Reads a `+++` line of a diff.
pub fn parse_changed_file_header(line: &str) -> (r: Result<ParsedChangedFileHeader, CodeM8Error>)
    ensures
        match header_result(line@) {
            Ok(h) => r matches Ok(x) && header_view(x) == h,
            Err(m) => r matches Err(e) && e.message_view() == m && !e.shows_help(),
        },
{
    let chars = chars_of(line);
    proof {
        reveal_strlit("+++ ");
        reveal_strlit("b/");
    }
    if !starts_with_chars(chars.as_slice(), chars_of("+++ ").as_slice()) {
        return Ok(ParsedChangedFileHeader::NotHeader);
    }
    let path = slice_chars(chars.as_slice(), 4, chars.len());
    assert(path@ =~= line@.skip(4));
    if crate::text::chars_equal(path.as_slice(), chars_of("/dev/null").as_slice()) {
        return Ok(ParsedChangedFileHeader::DevNull);
    }
    if starts_with_chars(path.as_slice(), chars_of("b/").as_slice()) {
        let rest = slice_chars(path.as_slice(), 2, path.len());
        assert(rest@ =~= path@.skip(2));
        return Ok(ParsedChangedFileHeader::Path(string_from_chars(rest.as_slice())));
    }
    if path.len() > 0 && path[0] == '"' {
        let path_text = string_from_chars(path.as_slice());
        match parse_quoted_diff_path(path_text.as_str()) {
            Err(e) => return Err(e),
            Ok(q) => {
                let qc = chars_of(q.as_str());
                if starts_with_chars(qc.as_slice(), chars_of("b/").as_slice()) {
                    let rest = slice_chars(qc.as_slice(), 2, qc.len());
                    assert(rest@ =~= q@.skip(2));
                    return Ok(ParsedChangedFileHeader::Path(string_from_chars(rest.as_slice())));
                }
            },
        }
    }
    let mut message = String::new();
    push_str(&mut message, "could not parse changed git header: ");
    push_str(&mut message, line);
    Err(CodeM8Error::new(message))
}

/// A changed file as the specification sees it: its path and every range
/// reported for it, in order.
pub type ChangedView = (Seq<char>, Seq<LineRange>);

/// The first file with the same path.
pub open spec fn find_path(files: Seq<ChangedView>, path: Seq<char>) -> Option<int>
    decreases files.len(),
{
    if files.len() == 0 {
        None
    } else {
        let earlier = find_path(files.drop_last(), path);
        if earlier is Some {
            earlier
        } else if same_path(files.last().0, path) {
            Some(files.len() - 1)
        } else {
            None
        }
    }
}

/// Where a new path goes: before the first file whose path does not come
/// before it.
pub open spec fn insert_position(files: Seq<ChangedView>, path: Seq<char>) -> int
    decreases files.len(),
{
    if files.len() == 0 {
        0
    } else {
        let p = insert_position(files.drop_last(), path);
        if p < files.len() - 1 {
            p
        } else if path_lt(files.last().0, path) {
            files.len() as int
        } else {
            files.len() - 1
        }
    }
}

/// The files after ranges were reported for `path`: added to the file with
/// that path, or a new file placed in path order.
pub open spec fn merge_file(files: Seq<ChangedView>, path: Seq<char>, ranges: Seq<LineRange>) -> Seq<ChangedView> {
    match find_path(files, path) {
        Some(i) => files.update(i, (files[i].0, files[i].1 + ranges)),
        None => files.insert(insert_position(files, path), (path, ranges)),
    }
}

/// Files in strictly ascending path order.
pub open spec fn paths_sorted(files: Seq<ChangedView>) -> bool {
    forall|i: int, j: int| 0 <= i < j < files.len() ==> path_lt(#[trigger] files[i].0, #[trigger] files[j].0)
}

/// A changed file holds the path and, as separated ranges, the lines of a
/// file of the specification.
pub open spec fn file_matches(f: ChangedFileLines, v: ChangedView) -> bool {
    &&& f.path@ == v.0
    &&& ranges_valid(f.lines@)
    &&& separated(f.lines@)
    &&& same_lines(f.lines@, v.1)
}

pub open spec fn files_match(fs: Seq<ChangedFileLines>, vs: Seq<ChangedView>) -> bool {
    &&& fs.len() == vs.len()
    &&& forall|k: int| 0 <= k < fs.len() ==> file_matches(#[trigger] fs[k], vs[k])
}

proof fn lemma_covers_concat(a: Seq<LineRange>, b: Seq<LineRange>)
    ensures
        forall|n: int| covers(a + b, n) <==> covers(a, n) || covers(b, n),
{
    assert forall|n: int| covers(a + b, n) <==> covers(a, n) || covers(b, n) by {
        if covers(a + b, n) {
            let i = choose|i: int| 0 <= i < (a + b).len() && in_range(#[trigger] (a + b)[i], n);
            if i < a.len() {
                assert(a[i] == (a + b)[i]);
            } else {
                assert(b[i - a.len()] == (a + b)[i]);
            }
        }
        if covers(a, n) {
            let i = choose|i: int| 0 <= i < a.len() && in_range(#[trigger] a[i], n);
            assert((a + b)[i] == a[i]);
        }
        if covers(b, n) {
            let i = choose|i: int| 0 <= i < b.len() && in_range(#[trigger] b[i], n);
            assert((a + b)[i + a.len()] == b[i]);
        }
    }
}

proof fn lemma_find_path_stays(files: Seq<ChangedView>, path: Seq<char>, i: int)
    requires
        0 < i <= files.len(),
        find_path(files.take(i), path) is Some,
    ensures
        find_path(files, path) == find_path(files.take(i), path),
    decreases files.len() - i,
{
    if i < files.len() {
        assert(files.take(i + 1).drop_last() =~= files.take(i));
        lemma_find_path_stays(files, path, i + 1);
    } else {
        assert(files.take(i) =~= files);
    }
}

proof fn lemma_insert_position_stays(files: Seq<ChangedView>, path: Seq<char>, i: int)
    requires
        0 <= i < files.len(),
        insert_position(files.take(i + 1), path) == i,
    ensures
        insert_position(files, path) == i,
    decreases files.len() - i,
{
    if i + 1 < files.len() {
        assert(files.take(i + 2).drop_last() =~= files.take(i + 1));
        lemma_insert_position_stays_from(files, path, i, files.len() as int);
        assert(files.take(files.len() as int) =~= files);
    } else {
        assert(files.take(i + 1) =~= files);
    }
}

proof fn lemma_insert_position_stays_from(files: Seq<ChangedView>, path: Seq<char>, i: int, j: int)
    requires
        0 <= i < j <= files.len(),
        insert_position(files.take(i + 1), path) == i,
    ensures
        insert_position(files.take(j), path) == i,
    decreases j - i,
{
    if j > i + 1 {
        lemma_insert_position_stays_from(files, path, i, j - 1);
        assert(files.take(j).drop_last() =~= files.take(j - 1));
    }
}

/// Everything before the insertion position comes before the path, and the
/// file at it does not.
proof fn lemma_insert_position(files: Seq<ChangedView>, path: Seq<char>)
    ensures
        0 <= insert_position(files, path) <= files.len(),
        forall|k: int| 0 <= k < insert_position(files, path) ==> path_lt(#[trigger] files[k].0, path),
        insert_position(files, path) < files.len() ==> !path_lt(files[insert_position(files, path)].0, path),
    decreases files.len(),
{
    if files.len() > 0 {
        let prefix = files.drop_last();
        lemma_insert_position(prefix, path);
        assert forall|k: int| 0 <= k < prefix.len() implies prefix[k] == files[k] by {}
    }
}

/// A path not among the files, inserted at its position, keeps them in
/// order.
proof fn lemma_insert_keeps_sorted(files: Seq<ChangedView>, path: Seq<char>, ranges: Seq<LineRange>)
    requires
        paths_sorted(files),
        find_path(files, path) is None,
    ensures
        paths_sorted(files.insert(insert_position(files, path), (path, ranges))),
{
    let p = insert_position(files, path);
    lemma_insert_position(files, path);
    lemma_find_path_none(files, path);
    let out = files.insert(p, (path, ranges));
    assert forall|i: int, j: int| 0 <= i < j < out.len() implies path_lt(#[trigger] out[i].0, #[trigger] out[j].0) by {
        if j < p {
            assert(out[i] == files[i] && out[j] == files[j]);
        } else if j == p {
            assert(out[i] == files[i]);
        } else if i < p {
            assert(out[i] == files[i] && out[j] == files[j - 1]);
            assert(path_lt(files[i].0, path));
            lemma_components_trichotomy(path_components(files[p].0), path_components(path));
            assert(!same_path(files[p].0, path));
            assert(path_lt(path, files[p].0));
            if j - 1 > p {
                lemma_components_lt_transitive(path_components(path), path_components(files[p].0), path_components(files[j - 1].0));
            }
            lemma_components_lt_transitive(path_components(files[i].0), path_components(path), path_components(files[j - 1].0));
        } else if i == p {
            assert(out[j] == files[j - 1]);
            lemma_components_trichotomy(path_components(files[p].0), path_components(path));
            assert(!same_path(files[p].0, path));
            if j - 1 > p {
                lemma_components_lt_transitive(path_components(path), path_components(files[p].0), path_components(files[j - 1].0));
            }
        } else {
            assert(out[i] == files[i - 1] && out[j] == files[j - 1]);
        }
    }
}

proof fn lemma_find_path_none(files: Seq<ChangedView>, path: Seq<char>)
    requires
        find_path(files, path) is None,
    ensures
        forall|k: int| 0 <= k < files.len() ==> !same_path(#[trigger] files[k].0, path),
    decreases files.len(),
{
    if files.len() > 0 {
        let prefix = files.drop_last();
        lemma_find_path_none(prefix, path);
        assert forall|k: int| 0 <= k < prefix.len() implies prefix[k] == files[k] by {}
    }
}

/// A copy of a list of ranges.
pub(crate) fn copy_ranges(v: &Vec<LineRange>) -> (r: Vec<LineRange>)
    ensures
        r@ == v@,
{
    let mut r: Vec<LineRange> = Vec::new();
    let mut k: usize = 0;
    while k < v.len()
        invariant
            k <= v@.len(),
            r@ == v@.take(k as int),
        decreases v.len() - k,
    {
        r.push(v[k]);
        assert(r@ =~= v@.take(k + 1));
        k += 1;
    }
    assert(v@.take(k as int) =~= v@);
    r
}

/// Adds the changed ranges of one file.
pub fn merge_changed_file(
    files: &mut Vec<ChangedFileLines>,
    path: String,
    lines: Vec<LineRange>,
    Ghost(views): Ghost<Seq<ChangedView>>,
)
    requires
        files_match(old(files)@, views),
        paths_sorted(views),
        ranges_valid(lines@),
    ensures
        files_match(final(files)@, merge_file(views, path@, lines@)),
        paths_sorted(merge_file(views, path@, lines@)),
{
    let n = files.len();
    let mut i: usize = 0;
    proof {
        assert(views.take(0) =~= Seq::<ChangedView>::empty());
    }
    while i < n
        invariant
            n == files@.len(),
            i <= n,
            files_match(files@, views),
            *files == *old(files),
            ranges_valid(lines@),
            paths_sorted(views),
            find_path(views.take(i as int), path@) is None,
        decreases n - i,
    {
        proof {
            assert(views.take(i + 1).drop_last() =~= views.take(i as int));
            assert(views.take(i + 1).last() == views[i as int]);
            assert(file_matches(files@[i as int], views[i as int]));
        }
        if compare_paths(files[i].path.as_str(), path.as_str()) == Comparison3::Equal {
            proof {
                lemma_find_path_stays(views, path@, i + 1);
                assert(views.take(views.len() as int) =~= views);
            }
            let mut combined = copy_ranges(&files[i].lines);
            let mut added = lines;
            let ghost old_lines = combined@;
            let ghost added_view = added@;
            combined.append(&mut added);
            proof {
                assert(combined@ =~= old_lines + added_view);
                assert forall|k: int| 0 <= k < combined@.len() implies #[trigger] combined@[k].start <= combined@[k].end
                    && combined@[k].end < usize::MAX by {
                    if k < old_lines.len() {
                        assert(combined@[k] == old_lines[k]);
                    } else {
                        assert(combined@[k] == added_view[k - old_lines.len()]);
                    }
                }
            }
            let merged = merged_ranges(&combined);
            let ghost merged_view = merged@;
            let ghost before = files@;
            files[i].lines = merged;
            proof {
                lemma_covers_concat(old_lines, added_view);
                lemma_covers_concat(views[i as int].1, added_view);
                let target = merge_file(views, path@, added_view);
                assert(target == views.update(i as int, (views[i as int].0, views[i as int].1 + added_view)));
                assert(file_matches(before[i as int], views[i as int]));
                assert(old_lines == before[i as int].lines@);
                assert forall|x: int| covers(merged_view, x) <==> covers(views[i as int].1 + added_view, x) by {
                    assert(covers(merged_view, x) <==> covers(old_lines + added_view, x));
                    assert(covers(old_lines, x) <==> covers(views[i as int].1, x));
                }
                assert forall|k: int| 0 <= k < files@.len() implies file_matches(#[trigger] files@[k], target[k]) by {
                    if k != i {
                        assert(files@[k] == before[k]);
                    } else {
                        assert(files@[k].lines@ == merged_view);
                    }
                }
            }
            return;
        }
        i += 1;
    }
    proof {
        assert(views.take(i as int) =~= views);
        lemma_insert_keeps_sorted(views, path@, lines@);
    }
    let mut k: usize = 0;
    proof {
        assert(views.take(0) =~= Seq::<ChangedView>::empty());
    }
    while k < n && compare_paths(files[k].path.as_str(), path.as_str()) == Comparison3::Less
        invariant
            n == files@.len(),
            k <= n,
            files_match(files@, views),
            ranges_valid(lines@),
            insert_position(views.take(k as int), path@) == k,
        decreases n - k,
    {
        proof {
            assert(views.take(k + 1).drop_last() =~= views.take(k as int));
            assert(views.take(k + 1).last() == views[k as int]);
            assert(file_matches(files@[k as int], views[k as int]));
        }
        k += 1;
    }
    proof {
        if k < n {
            assert(views.take(k + 1).drop_last() =~= views.take(k as int));
            assert(views.take(k + 1).last() == views[k as int]);
            assert(file_matches(files@[k as int], views[k as int]));
            lemma_insert_position_stays(views, path@, k as int);
        } else {
            assert(views.take(k as int) =~= views);
        }
    }
    let merged = merged_ranges(&lines);
    let ghost before = files@;
    files.insert(k, ChangedFileLines { path, lines: merged });
    proof {
        let target = merge_file(views, path@, lines@);
        assert(target == views.insert(k as int, (path@, lines@)));
        assert forall|j: int| 0 <= j < files@.len() implies file_matches(#[trigger] files@[j], target[j]) by {
            if j < k {
                assert(files@[j] == before[j]);
            } else if j > k {
                assert(files@[j] == before[j - 1]);
            }
        }
    }
}

/// The files read so far and the path of the file being read.
pub type DiffState = (Seq<ChangedView>, Option<Seq<char>>);

/// One more line of a unified diff: a hunk header adds its ranges to the
/// current file, a `+++` line names the current file.
pub open spec fn diff_step(st: DiffState, line: Seq<char>) -> Result<DiffState, Seq<char>> {
    if has_prefix(line, "@@ "@) {
        match st.1 {
            None => Err("could not parse changed git lines: missing file"@),
            Some(path) => match hunk_range(line) {
                Err(m) => Err(m),
                Ok(None) => Ok(st),
                Ok(Some(range)) => Ok(
                    (merge_file(st.0, path, seq![LineRange { start: range.0, end: range.1 }]), st.1),
                ),
            },
        }
    } else {
        match header_result(line) {
            Err(m) => Err(m),
            Ok(HeaderView::NotHeader) => Ok(st),
            Ok(HeaderView::DevNull) => Ok((st.0, None)),
            Ok(HeaderView::Path(p)) => Ok((st.0, Some(p))),
        }
    }
}

pub open spec fn diff_all(lines: Seq<Seq<char>>) -> Result<DiffState, Seq<char>>
    decreases lines.len(),
{
    if lines.len() == 0 {
        Ok((Seq::empty(), None))
    } else {
        match diff_all(lines.drop_last()) {
            Err(m) => Err(m),
            Ok(st) => diff_step(st, lines.last()),
        }
    }
}

/// The changed files of a unified diff, in path order, or the error of the
/// first line that cannot be read.
pub open spec fn changed_lines_result(text: Seq<char>) -> Result<Seq<ChangedView>, Seq<char>> {
    match diff_all(text_lines(text)) {
        Ok(st) => Ok(st.0),
        Err(m) => Err(m),
    }
}

/// Every hunk header of the diff has numbers below the largest line number.
pub open spec fn hunks_fit(text: Seq<char>) -> bool {
    forall|k: int|
        0 <= k < text_lines(text).len() && has_prefix(#[trigger] text_lines(text)[k], "@@ "@) ==> hunk_fits(
            text_lines(text)[k],
        )
}

/// Whether every hunk header of a diff has numbers below the largest line
/// number, as `parse_changed_lines` needs.
pub fn diff_hunks_fit(text: &str) -> (r: bool)
    ensures
        r == hunks_fit(text@),
{
    let lines = split_text_lines(text);
    let ghost views = char_views(lines@);
    let marker = chars_of("@@ ");
    let mut k: usize = 0;
    while k < lines.len()
        invariant
            k <= lines@.len(),
            views == char_views(lines@),
            views == text_lines(text@),
            marker@ == "@@ "@,
            forall|j: int| 0 <= j < k && has_prefix(#[trigger] views[j], "@@ "@) ==> hunk_fits(views[j]),
        decreases lines.len() - k,
    {
        assert(views[k as int] == lines@[k as int]@);
        if starts_with_chars(lines[k].as_slice(), marker.as_slice()) {
            let line = string_from_chars(lines[k].as_slice());
            match read_hunk_numbers(line.as_str()) {
                Some((start, count)) => {
                    if count != 0 && start > usize::MAX - count {
                        assert(has_prefix(views[k as int], "@@ "@) && !hunk_fits(views[k as int]));
                        return false;
                    }
                },
                None => {},
            }
        }
        k += 1;
    }
    true
}

proof fn lemma_diff_error_stays(lines: Seq<Seq<char>>, i: int)
    requires
        0 < i <= lines.len(),
        diff_all(lines.take(i)) is Err,
    ensures
        diff_all(lines) == diff_all(lines.take(i)),
    decreases lines.len() - i,
{
    if i < lines.len() {
        assert(lines.take(i + 1).drop_last() =~= lines.take(i));
        lemma_diff_error_stays(lines, i + 1);
    } else {
        assert(lines.take(i) =~= lines);
    }
}

/// The changed lines of each file of a unified diff without context lines.
pub fn parse_changed_lines(text: &str) -> (r: Result<Vec<ChangedFileLines>, CodeM8Error>)
    requires
        hunks_fit(text@),
    ensures
        match changed_lines_result(text@) {
            Ok(files) => r matches Ok(v) && files_match(v@, files) && paths_sorted(files),
            Err(m) => r matches Err(e) && e.message_view() == m && !e.shows_help(),
        },
{
    let lines = split_text_lines(text);
    let ghost views = char_views(lines@);
    let mut files: Vec<ChangedFileLines> = Vec::new();
    let mut current: Option<String> = None;
    let ghost mut state: DiffState = (Seq::empty(), None);
    let mut i: usize = 0;
    proof {
        assert(views.take(0) =~= Seq::<Seq<char>>::empty());
        reveal_strlit("@@ ");
    }
    while i < lines.len()
        invariant
            i <= lines@.len(),
            views == char_views(lines@),
            views == text_lines(text@),
            hunks_fit(text@),
            diff_all(views.take(i as int)) == Ok::<DiffState, Seq<char>>(state),
            files_match(files@, state.0),
            paths_sorted(state.0),
            state.1 == match current {
                Some(c) => Some(c@),
                None => None::<Seq<char>>,
            },
        decreases lines.len() - i,
    {
        proof {
            assert(views.take(i + 1).drop_last() =~= views.take(i as int));
            assert(views.take(i + 1).last() == lines@[i as int]@);
            assert(views[i as int] == lines@[i as int]@);
        }
        let line = string_from_chars(lines[i].as_slice());
        if starts_with_chars(lines[i].as_slice(), chars_of("@@ ").as_slice()) {
            let path = match &current {
                None => {
                    proof {
                        lemma_diff_error_stays(views, i + 1);
                        assert(views.take(views.len() as int) =~= views);
                    }
                    return Err(CodeM8Error::new(string_from_chars_literal("could not parse changed git lines: missing file")));
                },
                Some(p) => p.clone(),
            };
            match parse_hunk_range(line.as_str()) {
                Err(e) => {
                    proof {
                        lemma_diff_error_stays(views, i + 1);
                        assert(views.take(views.len() as int) =~= views);
                    }
                    return Err(e);
                },
                Ok(None) => {},
                Ok(Some((start, end))) => {
                    let range = LineRange { start, end };
                    let mut ranges: Vec<LineRange> = Vec::new();
                    ranges.push(range);
                    proof {
                        assert(ranges@ =~= seq![range]);
                        assert(hunk_fits(views[i as int]));
                    }
                    merge_changed_file(&mut files, path, ranges, Ghost(state.0));
                    proof {
                        state = (merge_file(state.0, state.1->0, seq![range]), state.1);
                    }
                },
            }
        } else {
            match parse_changed_file_header(line.as_str()) {
                Err(e) => {
                    proof {
                        lemma_diff_error_stays(views, i + 1);
                        assert(views.take(views.len() as int) =~= views);
                    }
                    return Err(e);
                },
                Ok(ParsedChangedFileHeader::NotHeader) => {},
                Ok(ParsedChangedFileHeader::DevNull) => {
                    current = None;
                    proof {
                        state = (state.0, None);
                    }
                },
                Ok(ParsedChangedFileHeader::Path(p)) => {
                    proof {
                        state = (state.0, Some(p@));
                    }
                    current = Some(p);
                },
            }
        }
        i += 1;
    }
    proof {
        assert(views.take(i as int) =~= views);
    }
    Ok(files)
}

/// The files after adding each of `files` in order.
pub open spec fn merge_all(views: Seq<ChangedView>, files: Seq<ChangedFileLines>) -> Seq<ChangedView>
    decreases files.len(),
{
    if files.len() == 0 {
        views
    } else {
        merge_all(merge_file(views, files[0].path@, files[0].lines@), files.drop_first())
    }
}

/// Changed files collected from several sources, kept in path order with
/// one entry per path.
pub struct ChangedFileSet {
    files: Vec<ChangedFileLines>,
    views: Ghost<Seq<ChangedView>>,
}

impl ChangedFileSet {
    #[verifier::type_invariant]
    closed spec fn consistent(self) -> bool {
        files_match(self.files@, self.views@) && paths_sorted(self.views@)
    }

    /// The files, each with every range reported for it.
    pub closed spec fn view(&self) -> Seq<ChangedView> {
        self.views@
    }

    /// No changed file yet.
    pub fn new() -> (s: Self)
        ensures
            s.view() == Seq::<ChangedView>::empty(),
    {
        ChangedFileSet { files: Vec::new(), views: Ghost(Seq::empty()) }
    }

    /// Adds changed ranges of a file.
    pub fn add(&mut self, path: String, lines: Vec<LineRange>)
        requires
            ranges_valid(lines@),
        ensures
            final(self).view() == merge_file(old(self).view(), path@, lines@),
    {
        let mut current = ChangedFileSet::new();
        std::mem::swap(self, &mut current);
        proof {
            use_type_invariant(&current);
        }
        let ghost views = current.views@;
        let ghost target = merge_file(views, path@, lines@);
        let ChangedFileSet { files, views: _ } = current;
        let mut files = files;
        merge_changed_file(&mut files, path, lines, Ghost(views));
        *self = ChangedFileSet { files, views: Ghost(target) };
    }

    /// Adds the files of a parsed diff, in order.
    pub fn add_all(&mut self, files: Vec<ChangedFileLines>)
        requires
            forall|k: int| 0 <= k < files@.len() ==> ranges_valid(#[trigger] files@[k].lines@),
        ensures
            final(self).view() == merge_all(old(self).view(), files@),
    {
        let ghost start = self.view();
        let ghost all = files@;
        let mut files = files;
        while files.len() > 0
            invariant
                forall|k: int| 0 <= k < files@.len() ==> ranges_valid(#[trigger] files@[k].lines@),
                merge_all(start, all) == merge_all(self.view(), files@),
            decreases files@.len(),
        {
            let ghost before = files@;
            let file = files.remove(0);
            proof {
                assert(file == before[0]);
                assert(files@ =~= before.drop_first());
                assert forall|k: int| 0 <= k < files@.len() implies ranges_valid(#[trigger] files@[k].lines@) by {
                    assert(files@[k] == before[k + 1]);
                }
            }
            self.add(file.path, file.lines);
        }
    }

    /// The files, in path order, each with separated ranges.
    pub fn into_files(self) -> (r: Vec<ChangedFileLines>)
        ensures
            files_match(r@, self.view()),
            paths_sorted(self.view()),
    {
        proof {
            use_type_invariant(&self);
        }
        self.files
    }
}

/// Paths in strictly ascending path order.
pub open spec fn paths_ascending(ps: Seq<Seq<char>>) -> bool {
    forall|i: int, j: int| 0 <= i < j < ps.len() ==> path_lt(#[trigger] ps[i], #[trigger] ps[j])
}

/// `ps[j]` is the first of the paths equal to it as a path.
pub open spec fn first_of_its_path(ps: Seq<Seq<char>>, j: int) -> bool {
    forall|j2: int| 0 <= j2 < j ==> !same_path(#[trigger] ps[j2], ps[j])
}

/// Adds a path to paths in path order unless an equal path is there;
/// returns where it went.
fn add_unique_path(r: &mut Vec<String>, p: &String) -> (pos: Option<usize>)
    requires
        paths_ascending(crate::language::registry::string_views(old(r)@)),
    ensures
        paths_ascending(crate::language::registry::string_views(final(r)@)),
        pos is None ==> final(r)@ == old(r)@ && exists|t: int| 0 <= t < old(r)@.len() && same_path(#[trigger] old(r)@[t]@, p@),
        pos matches Some(k) ==> k <= old(r)@.len() && final(r)@ == old(r)@.insert(k as int, *p) && forall|t: int|
            0 <= t < old(r)@.len() ==> !same_path(#[trigger] old(r)@[t]@, p@),
{
    let ghost rv = crate::language::registry::string_views(r@);
    let mut k: usize = 0;
    while k < r.len() && compare_paths(r[k].as_str(), p.as_str()) == Comparison3::Less
        invariant
            k <= r@.len(),
            *r == *old(r),
            forall|t: int| 0 <= t < k ==> path_lt(#[trigger] r@[t]@, p@),
        decreases r.len() - k,
    {
        k += 1;
    }
    let same = k < r.len() && compare_paths(r[k].as_str(), p.as_str()) == Comparison3::Equal;
    if same {
        return None;
    }
    let ghost before = r@;
    proof {
        assert forall|t: int| 0 <= t < before.len() implies !same_path(#[trigger] before[t]@, p@) by {
            lemma_components_trichotomy(path_components(before[t]@), path_components(p@));
            if t > k {
                assert(!path_lt(before[k as int]@, p@));
                assert(rv[k as int] == before[k as int]@ && rv[t] == before[t]@);
                assert(path_lt(rv[k as int], rv[t]));
                if same_path(before[t]@, p@) {
                    lemma_components_trichotomy(path_components(before[k as int]@), path_components(p@));
                }
            }
        }
        if k < before.len() {
            lemma_components_trichotomy(path_components(before[k as int]@), path_components(p@));
            assert(path_lt(p@, before[k as int]@));
        }
    }
    r.insert(k, p.clone());
    proof {
        let rv2 = crate::language::registry::string_views(r@);
        assert(rv2 =~= rv.insert(k as int, p@));
        assert forall|a: int, b: int| 0 <= a < b < rv2.len() implies path_lt(#[trigger] rv2[a], #[trigger] rv2[b]) by {
            if b < k {
                assert(rv2[a] == rv[a] && rv2[b] == rv[b]);
            } else if b == k {
                assert(rv2[a] == rv[a]);
                assert(rv[a] == before[a]@);
            } else if a < k {
                assert(rv2[a] == rv[a] && rv2[b] == rv[b - 1]);
                assert(rv[a] == before[a]@ && rv[b - 1] == before[b - 1]@);
                if b - 1 > k {
                    assert(rv[k as int] == before[k as int]@);
                    lemma_components_lt_transitive(path_components(p@), path_components(before[k as int]@), path_components(before[b - 1]@));
                }
                lemma_components_lt_transitive(path_components(before[a]@), path_components(p@), path_components(before[b - 1]@));
            } else if a == k {
                assert(rv2[b] == rv[b - 1]);
                assert(rv[b - 1] == before[b - 1]@);
                if b - 1 > k {
                    assert(rv[k as int] == before[k as int]@);
                    lemma_components_lt_transitive(path_components(p@), path_components(before[k as int]@), path_components(before[b - 1]@));
                }
            } else {
                assert(rv2[a] == rv[a - 1] && rv2[b] == rv[b - 1]);
            }
        }
    }
    Some(k)
}

/// Each of the first `n` paths has an equal path among `r`.
#[verifier::opaque]
pub open spec fn all_represented(r: Seq<Seq<char>>, ps: Seq<Seq<char>>, n: int) -> bool {
    forall|j: int| #![trigger ps[j]] 0 <= j < n ==> exists|k: int| 0 <= k < r.len() && same_path(#[trigger] r[k], ps[j])
}

/// Each path of `r` is the first of its path among the first `n` paths.
#[verifier::opaque]
pub open spec fn all_first(r: Seq<Seq<char>>, ps: Seq<Seq<char>>, n: int) -> bool {
    forall|k: int|
        #![trigger r[k]]
        0 <= k < r.len() ==> exists|j: int| 0 <= j < n && #[trigger] ps[j] == r[k] && first_of_its_path(ps, j)
}

proof fn lemma_unique_step_kept(r: Seq<Seq<char>>, ps: Seq<Seq<char>>, i: int, t: int)
    requires
        0 <= i < ps.len(),
        all_represented(r, ps, i),
        all_first(r, ps, i),
        0 <= t < r.len(),
        same_path(r[t], ps[i]),
    ensures
        all_represented(r, ps, i + 1),
        all_first(r, ps, i + 1),
{
    assert(all_represented(r, ps, i + 1)) by {
        reveal(all_represented);
        assert forall|j: int| #![trigger ps[j]] 0 <= j < i + 1 implies exists|k: int|
            0 <= k < r.len() && same_path(#[trigger] r[k], ps[j]) by {
            if j == i {
                assert(same_path(r[t], ps[j]));
            }
        }
    }
    assert(all_first(r, ps, i + 1)) by {
        reveal(all_first);
    }
}

proof fn lemma_unique_step_inserted(r: Seq<Seq<char>>, ps: Seq<Seq<char>>, i: int, k: int)
    requires
        0 <= i < ps.len(),
        all_represented(r, ps, i),
        all_first(r, ps, i),
        0 <= k <= r.len(),
        forall|t: int| 0 <= t < r.len() ==> !same_path(#[trigger] r[t], ps[i]),
    ensures
        all_represented(r.insert(k, ps[i]), ps, i + 1),
        all_first(r.insert(k, ps[i]), ps, i + 1),
{
    let r2 = r.insert(k, ps[i]);
    assert(all_represented(r2, ps, i + 1)) by {
        reveal(all_represented);
        assert forall|j: int| #![trigger ps[j]] 0 <= j < i + 1 implies exists|t: int|
            0 <= t < r2.len() && same_path(#[trigger] r2[t], ps[j]) by {
            if j < i {
                let t = choose|t: int| 0 <= t < r.len() && same_path(#[trigger] r[t], ps[j]);
                if t < k {
                    assert(r2[t] == r[t]);
                } else {
                    assert(r2[t + 1] == r[t]);
                }
            } else {
                assert(r2[k] == ps[i]);
            }
        }
    }
    assert(first_of_its_path(ps, i)) by {
        reveal(all_represented);
        assert forall|j2: int| 0 <= j2 < i implies !same_path(#[trigger] ps[j2], ps[i]) by {
            assert(ps[j2] == ps[j2]);
            let t2 = choose|t2: int| 0 <= t2 < r.len() && same_path(#[trigger] r[t2], ps[j2]);
            assert(!same_path(r[t2], ps[i]));
        }
    }
    assert(all_first(r2, ps, i + 1)) by {
        reveal(all_first);
        assert forall|t: int| #![trigger r2[t]] 0 <= t < r2.len() implies exists|j: int|
            0 <= j < i + 1 && #[trigger] ps[j] == r2[t] && first_of_its_path(ps, j) by {
            if t < k {
                assert(r2[t] == r[t]);
            } else if t > k {
                assert(r2[t] == r[t - 1]);
            } else {
                assert(r2[t] == ps[i]);
            }
        }
    }
}

/// The paths in path order, one for each path among them (the first one
/// given), as a `BTreeSet<PathBuf>` collects them.
pub fn sorted_unique_paths(paths: Vec<String>) -> (r: Vec<String>)
    ensures
        paths_ascending(crate::language::registry::string_views(r@)),
        all_represented(
            crate::language::registry::string_views(r@),
            crate::language::registry::string_views(paths@),
            paths@.len() as int,
        ),
        all_first(
            crate::language::registry::string_views(r@),
            crate::language::registry::string_views(paths@),
            paths@.len() as int,
        ),
{
    let ghost pv = crate::language::registry::string_views(paths@);
    let mut r: Vec<String> = Vec::new();
    let mut i: usize = 0;
    proof {
        assert(crate::language::registry::string_views(r@) =~= Seq::<Seq<char>>::empty());
        reveal(all_represented);
        reveal(all_first);
    }
    while i < paths.len()
        invariant
            i <= paths@.len(),
            pv == crate::language::registry::string_views(paths@),
            paths_ascending(crate::language::registry::string_views(r@)),
            all_represented(crate::language::registry::string_views(r@), pv, i as int),
            all_first(crate::language::registry::string_views(r@), pv, i as int),
        decreases paths.len() - i,
    {
        let ghost before = crate::language::registry::string_views(r@);
        let ghost before_r = r@;
        let pos = add_unique_path(&mut r, &paths[i]);
        proof {
            assert(pv[i as int] == paths@[i as int]@);
            match pos {
                None => {
                    let t = choose|t: int| 0 <= t < before_r.len() && same_path(#[trigger] before_r[t]@, paths@[i as int]@);
                    assert(before[t] == before_r[t]@);
                    lemma_unique_step_kept(before, pv, i as int, t);
                },
                Some(k) => {
                    assert forall|t: int| 0 <= t < before.len() implies !same_path(#[trigger] before[t], pv[i as int]) by {
                        assert(before[t] == before_r[t]@);
                    }
                    lemma_unique_step_inserted(before, pv, i as int, k as int);
                    assert(crate::language::registry::string_views(r@) =~= before.insert(k as int, pv[i as int]));
                },
            }
        }
        i += 1;
    }
    r
}

/// The text `String::from_utf8_lossy` makes of bytes: invalid sequences
/// replaced by U+FFFD.
pub uninterp spec fn utf8_lossy(bytes: Seq<u8>) -> Seq<char>;

/// `String::from_utf8_lossy`. The contract claims that the text depends on
/// the bytes alone and, as its documentation states, is the decoded text
/// when the bytes are valid UTF-8; the replacement of invalid sequences is
/// left unsaid.
#[verifier::external_body]
fn lossy_text(bytes: &[u8]) -> (r: String)
    ensures
        r@ == utf8_lossy(bytes@),
        valid_utf8(bytes@) ==> r@ == decode_utf8(bytes@),
{
    String::from_utf8_lossy(bytes).into_owned()
}

/// The non-empty texts, in order.
pub open spec fn non_empty(pieces: Seq<Seq<char>>) -> Seq<Seq<char>>
    decreases pieces.len(),
{
    if pieces.len() == 0 {
        Seq::empty()
    } else if pieces.last().len() > 0 {
        non_empty(pieces.drop_last()).push(pieces.last())
    } else {
        non_empty(pieces.drop_last())
    }
}

/// The non-empty pieces between NUL characters.
pub open spec fn nul_separated(text: Seq<char>) -> Seq<Seq<char>> {
    non_empty(split_on(text, '\0'))
}

/// The paths of NUL-separated `git` output, read as UTF-8 with invalid
/// sequences replaced.
pub fn nul_paths(bytes: &[u8]) -> (r: Vec<String>)
    ensures
        crate::language::registry::string_views(r@) == nul_separated(utf8_lossy(bytes@)),
{
    let text = lossy_text(bytes);
    let chars = chars_of(text.as_str());
    let pieces = crate::text::split_chars(chars.as_slice(), '\0');
    let ghost views = char_views(pieces@);
    let mut paths: Vec<String> = Vec::new();
    let mut i: usize = 0;
    proof {
        assert(views.take(0) =~= Seq::<Seq<char>>::empty());
        assert(crate::language::registry::string_views(paths@) =~= Seq::<Seq<char>>::empty());
    }
    while i < pieces.len()
        invariant
            i <= pieces@.len(),
            views == char_views(pieces@),
            crate::language::registry::string_views(paths@) == non_empty(views.take(i as int)),
        decreases pieces.len() - i,
    {
        let ghost before = crate::language::registry::string_views(paths@);
        proof {
            assert(views.take(i + 1).drop_last() =~= views.take(i as int));
            assert(views.take(i + 1).last() == pieces@[i as int]@);
        }
        if pieces[i].len() > 0 {
            paths.push(string_from_chars(pieces[i].as_slice()));
            assert(crate::language::registry::string_views(paths@) =~= before.push(pieces@[i as int]@));
        }
        i += 1;
    }
    proof {
        assert(views.take(i as int) =~= views);
    }
    paths
}

/// The number of line feeds in the bytes.
pub open spec fn newline_count(bytes: Seq<u8>) -> nat
    decreases bytes.len(),
{
    if bytes.len() == 0 {
        0
    } else {
        newline_count(bytes.drop_last()) + if bytes.last() == 10 {
            1nat
        } else {
            0nat
        }
    }
}

proof fn lemma_newline_count_bound(bytes: Seq<u8>)
    ensures
        newline_count(bytes) <= bytes.len(),
    decreases bytes.len(),
{
    if bytes.len() > 0 {
        lemma_newline_count_bound(bytes.drop_last());
    }
}

/// The number of lines of a file's bytes: the pieces that end at a line
/// feed, and a last piece without one.
pub open spec fn line_count(bytes: Seq<u8>) -> nat {
    if bytes.len() == 0 {
        0
    } else if bytes.last() == 10 {
        newline_count(bytes)
    } else {
        newline_count(bytes) + 1
    }
}

/// The number of lines of a file's bytes.
pub fn count_lines(bytes: &[u8]) -> (n: usize)
    ensures
        n == line_count(bytes@),
{
    let mut count: usize = 0;
    let mut i: usize = 0;
    while i < bytes.len()
        invariant
            i <= bytes@.len(),
            count == newline_count(bytes@.take(i as int)),
            count <= i,
        decreases bytes.len() - i,
    {
        proof {
            assert(bytes@.take(i + 1).drop_last() =~= bytes@.take(i as int));
            assert(bytes@.take(i + 1).last() == bytes@[i as int]);
        }
        if bytes[i] == 10 {
            count += 1;
        }
        i += 1;
    }
    assert(bytes@.take(i as int) =~= bytes@);
    if bytes.len() == 0 || bytes[bytes.len() - 1] == 10 {
        count
    } else {
        proof {
            lemma_newline_count_bound(bytes@.drop_last());
        }
        count + 1
    }
}

/// The changed ranges of an untracked file: all its lines.
pub fn whole_file_ranges(line_count: usize) -> (r: Vec<LineRange>)
    ensures
        line_count == 0 ==> r@ == Seq::<LineRange>::empty(),
        line_count > 0 ==> r@ == seq![LineRange { start: 1, end: line_count }],
{
    let mut r: Vec<LineRange> = Vec::new();
    if line_count != 0 {
        r.push(LineRange { start: 1, end: line_count });
        assert(r@ =~= seq![LineRange { start: 1, end: line_count }]);
    }
    r
}

/// Refuses a detached head: the current branch, as `git rev-parse
/// --abbrev-ref HEAD` prints it, must be named.
pub fn ensure_named_branch(branch: &str) -> (r: Result<(), CodeM8Error>)
    ensures
        trim(branch@) == "HEAD"@ ==> (r matches Err(e) && e.message_view()
            == "git branch mode requires a named local branch, but HEAD is detached"@ && !e.shows_help()),
        trim(branch@) != "HEAD"@ ==> r is Ok,
{
    let chars = chars_of(branch);
    let trimmed = trim_chars(chars.as_slice());
    if crate::text::chars_equal(trimmed.as_slice(), chars_of("HEAD").as_slice()) {
        return Err(
            CodeM8Error::new(
                string_from_chars_literal("git branch mode requires a named local branch, but HEAD is detached"),
            ),
        );
    }
    Ok(())
}

/// The text of `git` output: the decoded bytes when they are valid UTF-8,
/// else an error `could not <action>: ` followed by the decoding error.
pub fn output_text(bytes: Vec<u8>, action: &str) -> (r: Result<String, CodeM8Error>)
    ensures
        valid_utf8(bytes@) ==> (r matches Ok(s) && s@ == decode_utf8(bytes@)),
        !valid_utf8(bytes@) ==> (r matches Err(e) && e.message_view().len() >= ("could not "@ + action@
            + ": "@).len() && e.message_view().take(("could not "@ + action@ + ": "@).len() as int)
            == "could not "@ + action@ + ": "@ && !e.shows_help()),
{
    match string_from_utf8(bytes) {
        Ok(text) => Ok(text),
        Err(error) => {
            let mut message = String::new();
            push_str(&mut message, "could not ");
            push_str(&mut message, action);
            push_str(&mut message, ": ");
            let ghost head = message@;
            push_str(&mut message, error.as_str());
            assert(message@.take(head.len() as int) =~= head);
            Err(CodeM8Error::new(message))
        },
    }
}

/// What a `git` command gives back: its standard output when it succeeded;
/// otherwise an error `could not <action>: ` followed by its trimmed error
/// output.
pub fn ensure_git_success(success: bool, stdout: Vec<u8>, stderr: Vec<u8>, action: &str) -> (r: Result<
    Vec<u8>,
    CodeM8Error,
>)
    ensures
        success ==> r == Ok::<Vec<u8>, CodeM8Error>(stdout),
        !success && valid_utf8(stderr@) ==> (r matches Err(e) && e.message_view() == "could not "@
            + action@ + ": "@ + trim(decode_utf8(stderr@)) && !e.shows_help()),
        !success && !valid_utf8(stderr@) ==> (r matches Err(e) && e.message_view().len() >= (
        "could not "@ + action@ + ": "@).len() && e.message_view().take(
            ("could not "@ + action@ + ": "@).len() as int,
        ) == "could not "@ + action@ + ": "@ && !e.shows_help()),
{
    if success {
        return Ok(stdout);
    }
    let text = match output_text(stderr, action) {
        Ok(text) => text,
        Err(e) => return Err(e),
    };
    let chars = chars_of(text.as_str());
    let trimmed = trim_chars(chars.as_slice());
    let mut message = String::new();
    push_str(&mut message, "could not ");
    push_str(&mut message, action);
    push_str(&mut message, ": ");
    push_chars(&mut message, trimmed.as_slice());
    Err(CodeM8Error::new(message))
}

/// The root of the repository from `git rev-parse --show-toplevel`: its
/// trimmed output when it succeeded; an error when the directory is not in
/// a repository.
pub fn repo_root_from_output(success: bool, stdout: Vec<u8>) -> (r: Result<String, CodeM8Error>)
    ensures
        !success ==> (r matches Err(e) && e.message_view()
            == "git branch mode requires the current directory to be inside a git repository"@
            && !e.shows_help()),
        success && valid_utf8(stdout@) ==> (r matches Ok(s) && s@ == trim(decode_utf8(stdout@))),
        success && !valid_utf8(stdout@) ==> r is Err,
{
    if !success {
        return Err(
            CodeM8Error::new(
                string_from_chars_literal(
                    "git branch mode requires the current directory to be inside a git repository",
                ),
            ),
        );
    }
    let text = match output_text(stdout, "parse git repository root") {
        Ok(text) => text,
        Err(e) => return Err(e),
    };
    let chars = chars_of(text.as_str());
    let trimmed = trim_chars(chars.as_slice());
    Ok(string_from_chars(trimmed.as_slice()))
}

/// The remote branches tried, in order, as the base of the current branch.
pub open spec fn origin_candidates() -> Seq<Seq<char>> {
    seq!["origin/HEAD"@, "origin/main"@, "origin/master"@]
}

/// The remote branches tried, in order, as the base of the current branch.
pub fn origin_base_candidates() -> (r: Vec<&'static str>)
    ensures
        r@.len() == 3,
        forall|i: int| 0 <= i < 3 ==> #[trigger] r@[i]@ == origin_candidates()[i],
{
    vec!["origin/HEAD", "origin/main", "origin/master"]
}

/// The index of the first candidate that `git` resolved, if any.
pub open spec fn first_resolved(resolved: Seq<bool>) -> Option<int>
    decreases resolved.len(),
{
    if resolved.len() == 0 {
        None
    } else {
        match first_resolved(resolved.drop_last()) {
            Some(i) => Some(i),
            None => if resolved.last() {
                Some(resolved.len() - 1)
            } else {
                None
            },
        }
    }
}

/// The base of the current branch: the first candidate that `git` resolved
/// to a commit, where `resolved[i]` tells whether candidate `i` was.
pub fn origin_base_ref(resolved: &Vec<bool>) -> (r: Result<String, CodeM8Error>)
    requires
        resolved@.len() == 3,
    ensures
        match first_resolved(resolved@) {
            Some(i) => r matches Ok(s) && s@ == origin_candidates()[i],
            None => r matches Err(e) && e.message_view() == "git branch mode could not resolve origin base branch"@
                && !e.shows_help(),
        },
{
    let candidates = origin_base_candidates();
    let mut k: usize = 0;
    while k < 3
        invariant
            k <= 3,
            resolved@.len() == 3,
            candidates@.len() == 3,
            forall|i: int| 0 <= i < 3 ==> #[trigger] candidates@[i]@ == origin_candidates()[i],
            first_resolved(resolved@.take(k as int)) is None,
        decreases 3 - k,
    {
        proof {
            assert(resolved@.take(k + 1).drop_last() =~= resolved@.take(k as int));
        }
        if resolved[k] {
            proof {
                lemma_first_resolved_prefix(resolved@, k + 1);
            }
            return Ok(string_from_chars_literal(candidates[k]));
        }
        k += 1;
    }
    assert(resolved@.take(3) =~= resolved@);
    Err(CodeM8Error::new(string_from_chars_literal("git branch mode could not resolve origin base branch")))
}

/// Once a prefix resolves a candidate, the whole list resolves the same one.
proof fn lemma_first_resolved_prefix(resolved: Seq<bool>, n: int)
    requires
        0 <= n <= resolved.len(),
        first_resolved(resolved.take(n)) is Some,
    ensures
        first_resolved(resolved) == first_resolved(resolved.take(n)),
    decreases resolved.len() - n,
{
    if n < resolved.len() {
        assert(resolved.take(n + 1).drop_last() =~= resolved.take(n));
        lemma_first_resolved_prefix(resolved, n + 1);
    } else {
        assert(resolved.take(n) =~= resolved);
    }
}

} // verus!
