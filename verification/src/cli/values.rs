//! The values of command-line options: extension lists, file lists and
//! complexity limits.

use vstd::prelude::*;

use crate::error::CodeM8Error;
use crate::language::registry::{contains_string, string_views};
use crate::text::{
    ascii_lowercase, ascii_lowercase_chars, char_views, chars_of, contains_char, push_chars, push_str,
    split_chars, split_on, string_from_chars, trim, trim_chars,
};

verus! {

/// The error message for one piece of an extension list, if it is not a
/// valid extension.
pub open spec fn extension_error(piece: Seq<char>) -> Option<Seq<char>> {
    let e = trim(piece);
    if e.len() == 0 {
        Some("file extension values must not be empty"@)
    } else if e[0] == '.' {
        Some("file extensions must not start with a dot: "@ + e)
    } else if e.contains('/') || e.contains('\\') {
        Some("file extensions must not contain path separators: "@ + e)
    } else {
        None
    }
}

/// The extensions of the pieces, trimmed, lower-cased and each kept once; or
/// the error of the first invalid piece.
pub open spec fn extension_list(pieces: Seq<Seq<char>>) -> Result<Seq<Seq<char>>, Seq<char>>
    decreases pieces.len(),
{
    if pieces.len() == 0 {
        Ok(Seq::empty())
    } else {
        match extension_list(pieces.drop_last()) {
            Err(m) => Err(m),
            Ok(list) => match extension_error(pieces.last()) {
                Some(m) => Err(m),
                None => {
                    let e = ascii_lowercase(trim(pieces.last()));
                    Ok(
                        if list.contains(e) {
                            list
                        } else {
                            list.push(e)
                        },
                    )
                },
            },
        }
    }
}

/// What a comma-separated list of extensions gives.
pub open spec fn file_extensions_result(value: Seq<char>) -> Result<Seq<Seq<char>>, Seq<char>> {
    match extension_list(split_on(value, ',')) {
        Ok(list) => if list.len() == 0 {
            Err("at least one file extension is required"@)
        } else {
            Ok(list)
        },
        Err(m) => Err(m),
    }
}

/// The trimmed paths of the pieces, or an error at the first empty one.
pub open spec fn file_list(pieces: Seq<Seq<char>>) -> Result<Seq<Seq<char>>, Seq<char>>
    decreases pieces.len(),
{
    if pieces.len() == 0 {
        Ok(Seq::empty())
    } else {
        match file_list(pieces.drop_last()) {
            Err(m) => Err(m),
            Ok(list) => if trim(pieces.last()).len() == 0 {
                Err("file path values must not be empty"@)
            } else {
                Ok(list.push(trim(pieces.last())))
            },
        }
    }
}

/// What a comma-separated list of paths gives.
pub open spec fn file_list_result(value: Seq<char>) -> Result<Seq<Seq<char>>, Seq<char>> {
    match file_list(split_on(value, ',')) {
        Ok(list) => if list.len() == 0 {
            Err("at least one explicit file is required"@)
        } else {
            Ok(list)
        },
        Err(m) => Err(m),
    }
}

pub open spec fn is_ascii_digit(c: char) -> bool {
    '0' <= c && c <= '9'
}

/// The number that a sequence of decimal digits writes.
pub open spec fn digits_value(s: Seq<char>) -> nat
    decreases s.len(),
{
    if s.len() == 0 {
        0
    } else {
        digits_value(s.drop_last()) * 10 + ((s.last() as u32) - 48) as nat
    }
}

/// The text without one leading `+`.
pub open spec fn unsigned_digits(s: Seq<char>) -> Seq<char> {
    if s.len() > 0 && s[0] == '+' {
        s.drop_first()
    } else {
        s
    }
}

pub open spec fn all_digits(d: Seq<char>) -> bool {
    forall|k: int| 0 <= k < d.len() ==> is_ascii_digit(#[trigger] d[k])
}

/// A `u32` as `str::parse::<u32>` reads it: an optional `+`, then at least
/// one decimal digit, and a value that fits.
pub open spec fn parsed_u32(s: Seq<char>) -> Option<u32> {
    let digits = unsigned_digits(s);
    if digits.len() > 0 && all_digits(digits) && digits_value(digits) <= u32::MAX {
        Some(digits_value(digits) as u32)
    } else {
        None
    }
}

/// What a complexity limit value gives.
pub open spec fn complexity_limit_result(value: Seq<char>) -> Result<u32, Seq<char>> {
    match parsed_u32(value) {
        None => Err("complexity limits must be positive integers: "@ + value),
        Some(n) => if n == 0 {
            Err("complexity limits must be greater than zero"@)
        } else {
            Ok(n)
        },
    }
}

/// A result that carries an error made with `CodeM8Error::new`.
pub open spec fn plain_error<T>(r: Result<T, CodeM8Error>, message: Seq<char>) -> bool {
    r matches Err(e) && e.message_view() == message && !e.shows_help()
}

/// Parses a comma-separated list of file extensions: each trimmed, not
/// empty, without a leading dot or a path separator, lower-cased, and kept
/// once.
pub fn parse_file_extensions(value: &str) -> (r: Result<Vec<String>, CodeM8Error>)
    ensures
        match file_extensions_result(value@) {
            Ok(list) => r matches Ok(v) && string_views(v@) == list,
            Err(m) => plain_error(r, m),
        },
{
    let chars = chars_of(value);
    let pieces = split_chars(chars.as_slice(), ',');
    let ghost views = char_views(pieces@);
    let mut extensions: Vec<String> = Vec::new();
    let mut i: usize = 0;
    proof {
        assert(views.take(0) =~= Seq::<Seq<char>>::empty());
        assert(string_views(extensions@) =~= Seq::<Seq<char>>::empty());
    }
    while i < pieces.len()
        invariant
            i <= pieces@.len(),
            views == char_views(pieces@),
            views == split_on(value@, ','),
            extension_list(views.take(i as int)) == Ok::<Seq<Seq<char>>, Seq<char>>(string_views(extensions@)),
        decreases pieces.len() - i,
    {
        proof {
            assert(views.take(i + 1).drop_last() =~= views.take(i as int));
            assert(views.take(i + 1).last() == pieces@[i as int]@);
            assert(views[i as int] == pieces@[i as int]@);
        }
        let extension = trim_chars(pieces[i].as_slice());
        if extension.len() == 0 {
            let r = Err(CodeM8Error::new(string_from_chars_literal("file extension values must not be empty")));
            proof {
                lemma_extension_list_error(views, i as int);
            }
            return r;
        }
        if extension[0] == '.' {
            let mut message = String::new();
            push_str(&mut message, "file extensions must not start with a dot: ");
            push_chars(&mut message, extension.as_slice());
            proof {
                lemma_extension_list_error(views, i as int);
            }
            return Err(CodeM8Error::new(message));
        }
        if contains_char(extension.as_slice(), '/') || contains_char(extension.as_slice(), '\\') {
            let mut message = String::new();
            push_str(&mut message, "file extensions must not contain path separators: ");
            push_chars(&mut message, extension.as_slice());
            proof {
                lemma_extension_list_error(views, i as int);
            }
            return Err(CodeM8Error::new(message));
        }
        let lower = string_from_chars(ascii_lowercase_chars(extension.as_slice()).as_slice());
        if !contains_string(&extensions, &lower) {
            let ghost before = string_views(extensions@);
            extensions.push(lower);
            assert(string_views(extensions@) =~= before.push(lower@));
        }
        i += 1;
    }
    proof {
        assert(views.take(i as int) =~= views);
    }
    if extensions.len() == 0 {
        return Err(CodeM8Error::new(string_from_chars_literal("at least one file extension is required")));
    }
    Ok(extensions)
}

/// Once a piece is invalid, the whole list is that piece's error.
proof fn lemma_extension_list_error(pieces: Seq<Seq<char>>, i: int)
    requires
        0 <= i < pieces.len(),
        extension_list(pieces.take(i)) is Ok,
        extension_error(pieces[i]) is Some,
    ensures
        extension_list(pieces) == Err::<Seq<Seq<char>>, Seq<char>>(extension_error(pieces[i])->0),
    decreases pieces.len() - i,
{
    lemma_extension_list_error_from(pieces, i, pieces.len() as int);
    assert(pieces.take(pieces.len() as int) =~= pieces);
}

proof fn lemma_extension_list_error_from(pieces: Seq<Seq<char>>, i: int, j: int)
    requires
        0 <= i < j <= pieces.len(),
        extension_list(pieces.take(i)) is Ok,
        extension_error(pieces[i]) is Some,
    ensures
        extension_list(pieces.take(j)) == Err::<Seq<Seq<char>>, Seq<char>>(extension_error(pieces[i])->0),
    decreases j - i,
{
    assert(pieces.take(j).drop_last() =~= pieces.take(j - 1));
    if j > i + 1 {
        lemma_extension_list_error_from(pieces, i, j - 1);
    } else {
        assert(pieces.take(j).last() == pieces[i]);
    }
}

/// A string with the characters of a literal.
pub fn string_from_chars_literal(text: &str) -> (s: String)
    ensures
        s@ == text@,
{
    let chars = chars_of(text);
    string_from_chars(chars.as_slice())
}

/// Parses a comma-separated list of explicit file paths, each trimmed and
/// not empty.
pub fn parse_file_list(value: &str) -> (r: Result<Vec<String>, CodeM8Error>)
    ensures
        match file_list_result(value@) {
            Ok(list) => r matches Ok(v) && string_views(v@) == list,
            Err(m) => plain_error(r, m),
        },
{
    let chars = chars_of(value);
    let pieces = split_chars(chars.as_slice(), ',');
    let ghost views = char_views(pieces@);
    let mut files: Vec<String> = Vec::new();
    let mut i: usize = 0;
    proof {
        assert(views.take(0) =~= Seq::<Seq<char>>::empty());
        assert(string_views(files@) =~= Seq::<Seq<char>>::empty());
    }
    while i < pieces.len()
        invariant
            i <= pieces@.len(),
            views == char_views(pieces@),
            views == split_on(value@, ','),
            file_list(views.take(i as int)) == Ok::<Seq<Seq<char>>, Seq<char>>(string_views(files@)),
        decreases pieces.len() - i,
    {
        proof {
            assert(views.take(i + 1).drop_last() =~= views.take(i as int));
            assert(views.take(i + 1).last() == pieces@[i as int]@);
            assert(views[i as int] == pieces@[i as int]@);
        }
        let file = trim_chars(pieces[i].as_slice());
        if file.len() == 0 {
            proof {
                lemma_file_list_error_from(views, i as int, views.len() as int);
                assert(views.take(views.len() as int) =~= views);
            }
            return Err(CodeM8Error::new(string_from_chars_literal("file path values must not be empty")));
        }
        let ghost before = string_views(files@);
        files.push(string_from_chars(file.as_slice()));
        assert(string_views(files@) =~= before.push(file@));
        i += 1;
    }
    proof {
        assert(views.take(i as int) =~= views);
    }
    if files.len() == 0 {
        return Err(CodeM8Error::new(string_from_chars_literal("at least one explicit file is required")));
    }
    Ok(files)
}

proof fn lemma_file_list_error_from(pieces: Seq<Seq<char>>, i: int, j: int)
    requires
        0 <= i < j <= pieces.len(),
        file_list(pieces.take(i)) is Ok,
        trim(pieces[i]).len() == 0,
    ensures
        file_list(pieces.take(j)) == Err::<Seq<Seq<char>>, Seq<char>>("file path values must not be empty"@),
    decreases j - i,
{
    assert(pieces.take(j).drop_last() =~= pieces.take(j - 1));
    if j > i + 1 {
        lemma_file_list_error_from(pieces, i, j - 1);
    } else {
        assert(pieces.take(j).last() == pieces[i]);
    }
}

/// A longer digit sequence never writes a smaller number.
proof fn lemma_digits_value_grows(s: Seq<char>, i: int)
    requires
        0 <= i <= s.len(),
        forall|k: int| 0 <= k < s.len() ==> is_ascii_digit(#[trigger] s[k]),
    ensures
        digits_value(s.take(i)) <= digits_value(s),
    decreases s.len() - i,
{
    if i < s.len() {
        lemma_digits_value_grows(s, i + 1);
        assert(s.take(i + 1).drop_last() =~= s.take(i));
    } else {
        assert(s.take(i) =~= s);
    }
}

/// `str::parse::<u32>`.
pub fn parse_u32(value: &str) -> (r: Option<u32>)
    ensures
        r == parsed_u32(value@),
{
    let chars = chars_of(value);
    let start: usize = if chars.len() > 0 && chars[0] == '+' { 1 } else { 0 };
    let ghost digits = unsigned_digits(value@);
    proof {
        assert(digits =~= value@.skip(start as int));
    }
    if start >= chars.len() {
        assert(digits.len() == 0);
        return None;
    }
    let mut total: u64 = 0;
    let mut i = start;
    while i < chars.len()
        invariant
            start <= i <= chars@.len(),
            chars@ == value@,
            digits =~= value@.skip(start as int),
            digits == unsigned_digits(value@),
            total == digits_value(digits.take(i - start)),
            total <= u32::MAX,
            forall|k: int| 0 <= k < i - start ==> is_ascii_digit(#[trigger] digits[k]),
        decreases chars.len() - i,
    {
        let c = chars[i];
        proof {
            assert(digits[i - start] == c);
            assert(digits.take(i - start + 1).drop_last() =~= digits.take(i - start));
        }
        if !('0' <= c && c <= '9') {
            assert(!is_ascii_digit(digits[i - start]));
            assert(!all_digits(digits));
            return None;
        }
        let d = (c as u32 - 48) as u64;
        total = total * 10 + d;
        if total > 4294967295u64 {
            proof {
                if all_digits(digits) {
                    lemma_digits_value_grows(digits, i - start + 1);
                }
            }
            return None;
        }
        i += 1;
    }
    proof {
        assert(digits.take(i - start) =~= digits);
    }
    Some(total as u32)
}

/// Parses a positive complexity limit.
pub fn parse_complexity_limit(value: &str) -> (r: Result<u32, CodeM8Error>)
    ensures
        match complexity_limit_result(value@) {
            Ok(n) => r == Ok::<u32, CodeM8Error>(n),
            Err(m) => plain_error(r, m),
        },
{
    match parse_u32(value) {
        None => {
            let mut message = String::new();
            push_str(&mut message, "complexity limits must be positive integers: ");
            push_str(&mut message, value);
            Err(CodeM8Error::new(message))
        },
        Some(limit) => {
            if limit == 0 {
                Err(CodeM8Error::new(string_from_chars_literal("complexity limits must be greater than zero")))
            } else {
                Ok(limit)
            }
        },
    }
}

/// A `usize` as `str::parse::<usize>` reads it.
pub open spec fn parsed_usize(s: Seq<char>) -> Option<usize> {
    let digits = unsigned_digits(s);
    if digits.len() > 0 && all_digits(digits) && digits_value(digits) <= usize::MAX {
        Some(digits_value(digits) as usize)
    } else {
        None
    }
}

/// `str::parse::<usize>` on characters.
pub fn parse_usize(chars: &[char]) -> (r: Option<usize>)
    ensures
        r == parsed_usize(chars@),
{
    let start: usize = if chars.len() > 0 && chars[0] == '+' { 1 } else { 0 };
    let ghost digits = unsigned_digits(chars@);
    proof {
        assert(digits =~= chars@.skip(start as int));
    }
    if start >= chars.len() {
        assert(digits.len() == 0);
        return None;
    }
    let mut total: usize = 0;
    let mut i = start;
    while i < chars.len()
        invariant
            start <= i <= chars@.len(),
            digits =~= chars@.skip(start as int),
            digits == unsigned_digits(chars@),
            total == digits_value(digits.take(i - start)),
            forall|k: int| 0 <= k < i - start ==> is_ascii_digit(#[trigger] digits[k]),
        decreases chars.len() - i,
    {
        let c = chars[i];
        proof {
            assert(digits[i - start] == c);
            assert(digits.take(i - start + 1).drop_last() =~= digits.take(i - start));
        }
        if !('0' <= c && c <= '9') {
            assert(!is_ascii_digit(digits[i - start]));
            assert(!all_digits(digits));
            return None;
        }
        let d = (c as u32 - 48) as usize;
        let next = match total.checked_mul(10) {
            Some(t) => t.checked_add(d),
            None => None,
        };
        match next {
            Some(t) => {
                total = t;
            },
            None => {
                proof {
                    if all_digits(digits) {
                        lemma_digits_value_grows(digits, i - start + 1);
                    }
                }
                return None;
            },
        }
        i += 1;
    }
    proof {
        assert(digits.take(i - start) =~= digits);
    }
    Some(total)
}

} // verus!
