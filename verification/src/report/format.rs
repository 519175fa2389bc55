//! Text pieces shared by the reports: numbers, durations, line ranges,
//! analyzed files and extension lists.

use vstd::prelude::*;

use crate::language::registry::string_views;
use crate::model::{AnalyzedFile, LineRange};
use crate::paths::{format_path, path_key};
use crate::text::{
    char_from_u32_ascii, chars_of, compare_chars, decimal, digit_char, lemma_text_trichotomy, push_chars, push_str,
    text_le, Comparison3,
};

verus! {

/// The decimal digits of `n`.
pub fn decimal_chars(n: u128) -> (out: Vec<char>)
    ensures
        out@ == decimal(n as nat),
    decreases n,
{
    let d = (n % 10) as u32;
    let c = char_from_u32_ascii(d + 48);
    assert(c == digit_char((n % 10) as nat));
    if n < 10 {
        let mut out: Vec<char> = Vec::new();
        out.push(c);
        assert(out@ =~= seq![c]);
        out
    } else {
        let mut out = decimal_chars(n / 10);
        out.push(c);
        out
    }
}

/// Appends the decimal digits of `n`.
pub fn push_decimal(s: &mut String, n: u128)
    ensures
        final(s)@ == old(s)@ + decimal(n as nat),
{
    let digits = decimal_chars(n);
    push_chars(s, digits.as_slice());
}

/// A number below a thousand with three digits, zeros in front.
pub open spec fn three_digits(n: nat) -> Seq<char> {
    if n < 10 {
        seq!['0', '0'] + decimal(n)
    } else if n < 100 {
        seq!['0'] + decimal(n)
    } else {
        decimal(n)
    }
}

/// A duration given in microseconds, as milliseconds with three decimals.
pub open spec fn duration_text(micros: nat) -> Seq<char> {
    decimal(micros / 1000) + "."@ + three_digits(micros % 1000) + " ms"@
}

/// Appends a duration given in microseconds.
pub fn push_duration(s: &mut String, micros: u128)
    ensures
        final(s)@ == old(s)@ + duration_text(micros as nat),
{
    let ghost start = s@;
    push_decimal(s, micros / 1000);
    push_str(s, ".");
    let frac = micros % 1000;
    if frac < 10 {
        push_str(s, "00");
        proof {
            reveal_strlit("00");
        }
    } else if frac < 100 {
        push_str(s, "0");
        proof {
            reveal_strlit("0");
        }
    }
    let ghost mid = s@;
    push_decimal(s, frac);
    push_str(s, " ms");
    proof {
        assert(s@ =~= start + duration_text(micros as nat));
    }
}

/// A range of lines: one number for one line, otherwise first and last.
pub open spec fn range_text(r: LineRange) -> Seq<char> {
    if r.start == r.end {
        decimal(r.start as nat)
    } else {
        decimal(r.start as nat) + "-"@ + decimal(r.end as nat)
    }
}

/// Ranges of lines, separated by commas.
pub open spec fn ranges_text(rs: Seq<LineRange>) -> Seq<char>
    decreases rs.len(),
{
    if rs.len() == 0 {
        Seq::empty()
    } else if rs.len() == 1 {
        range_text(rs[0])
    } else {
        ranges_text(rs.drop_last()) + ","@ + range_text(rs.last())
    }
}

/// Appends ranges of lines, separated by commas.
pub fn push_line_ranges(s: &mut String, rs: &Vec<LineRange>)
    ensures
        final(s)@ == old(s)@ + ranges_text(rs@),
{
    let ghost start = s@;
    let mut i: usize = 0;
    proof {
        assert(rs@.take(0) =~= Seq::<LineRange>::empty());
        assert(s@ =~= start + ranges_text(rs@.take(0)));
    }
    while i < rs.len()
        invariant
            i <= rs@.len(),
            s@ == start + ranges_text(rs@.take(i as int)),
        decreases rs.len() - i,
    {
        let ghost before = s@;
        proof {
            assert(rs@.take(i + 1).drop_last() =~= rs@.take(i as int));
            assert(rs@.take(i + 1).last() == rs@[i as int]);
        }
        if i > 0 {
            push_str(s, ",");
        }
        let r = rs[i];
        push_decimal(s, r.start as u128);
        if r.start != r.end {
            push_str(s, "-");
            push_decimal(s, r.end as u128);
        }
        proof {
            if i == 0 {
                assert(s@ =~= start + range_text(rs@[0]));
                assert(rs@.take(1)[0] == rs@[0]);
            } else {
                assert(s@ =~= before + ","@ + range_text(r));
            }
        }
        i += 1;
    }
    assert(rs@.take(i as int) =~= rs@);
}

/// The line of a verbose report for an analyzed file: its display path,
/// and its changed ranges in brackets when there are any.
pub open spec fn analyzed_file_text(f: AnalyzedFile) -> Seq<char> {
    match f.changed_lines {
        Some(lines) => if lines@.len() > 0 {
            "- "@ + path_key(f.path@) + " ("@ + ranges_text(lines@) + ")"@ + "\n"@
        } else {
            "- "@ + path_key(f.path@) + "\n"@
        },
        None => "- "@ + path_key(f.path@) + "\n"@,
    }
}

/// The lines for analyzed files, one after the other.
pub open spec fn analyzed_files_text(fs: Seq<AnalyzedFile>) -> Seq<char>
    decreases fs.len(),
{
    if fs.len() == 0 {
        Seq::empty()
    } else {
        analyzed_files_text(fs.drop_last()) + analyzed_file_text(fs.last())
    }
}

/// Appends the lines for analyzed files.
pub fn push_analyzed_files(s: &mut String, fs: &Vec<AnalyzedFile>)
    ensures
        final(s)@ == old(s)@ + analyzed_files_text(fs@),
{
    let ghost start = s@;
    let mut i: usize = 0;
    proof {
        assert(fs@.take(0) =~= Seq::<AnalyzedFile>::empty());
        assert(s@ =~= start + analyzed_files_text(fs@.take(0)));
    }
    while i < fs.len()
        invariant
            i <= fs@.len(),
            s@ == start + analyzed_files_text(fs@.take(i as int)),
        decreases fs.len() - i,
    {
        let ghost before = s@;
        proof {
            assert(fs@.take(i + 1).drop_last() =~= fs@.take(i as int));
            assert(fs@.take(i + 1).last() == fs@[i as int]);
        }
        let f = &fs[i];
        push_str(s, "- ");
        let shown = format_path(f.path.as_str());
        push_str(s, shown.as_str());
        match &f.changed_lines {
            Some(lines) => {
                if lines.len() > 0 {
                    push_str(s, " (");
                    push_line_ranges(s, lines);
                    push_str(s, ")");
                }
            },
            None => {},
        }
        push_str(s, "\n");
        proof {
            assert(s@ =~= before + analyzed_file_text(fs@[i as int]));
        }
        i += 1;
    }
    assert(fs@.take(i as int) =~= fs@);
}

/// Texts put in ascending order, each inserted after those not above it.
pub open spec fn insert_sorted_text(sorted: Seq<Seq<char>>, x: Seq<char>) -> Seq<Seq<char>>
    decreases sorted.len(),
{
    if sorted.len() == 0 {
        seq![x]
    } else if text_le(sorted.last(), x) {
        sorted.push(x)
    } else {
        insert_sorted_text(sorted.drop_last(), x).push(sorted.last())
    }
}

/// The texts in ascending order.
pub open spec fn sorted_texts(s: Seq<Seq<char>>) -> Seq<Seq<char>>
    decreases s.len(),
{
    if s.len() == 0 {
        Seq::empty()
    } else {
        insert_sorted_text(sorted_texts(s.drop_last()), s.last())
    }
}

/// Texts joined with `", "`.
pub open spec fn comma_joined(s: Seq<Seq<char>>) -> Seq<char>
    decreases s.len(),
{
    if s.len() == 0 {
        Seq::empty()
    } else if s.len() == 1 {
        s[0]
    } else {
        comma_joined(s.drop_last()) + ", "@ + s.last()
    }
}

/// Inserts a text into texts kept in ascending order, after every text not
/// above it.
fn insert_text_sorted(sorted: &mut Vec<Vec<char>>, x: Vec<char>)
    ensures
        crate::text::char_views(final(sorted)@) == insert_sorted_text(crate::text::char_views(old(sorted)@), x@),
    decreases old(sorted)@.len(),
{
    let n = sorted.len();
    if n == 0 {
        sorted.push(x);
        assert(crate::text::char_views(sorted@) =~= seq![x@]);
        return;
    }
    let ghost before = crate::text::char_views(sorted@);
    proof {
        lemma_text_trichotomy(sorted@[n - 1]@, x@);
        assert(before.last() == sorted@[n - 1]@);
    }
    if compare_chars(sorted[n - 1].as_slice(), x.as_slice()) != Comparison3::Greater {
        sorted.push(x);
        assert(crate::text::char_views(sorted@) =~= before.push(x@));
    } else {
        let last = sorted.pop().unwrap();
        assert(crate::text::char_views(sorted@) =~= before.drop_last());
        insert_text_sorted(sorted, x);
        let ghost mid = crate::text::char_views(sorted@);
        sorted.push(last);
        assert(crate::text::char_views(sorted@) =~= mid.push(before.last()));
    }
}

/// Appends the extensions in ascending order, separated by `", "`.
pub fn push_sorted_extensions(s: &mut String, extensions: &Vec<String>)
    ensures
        final(s)@ == old(s)@ + comma_joined(sorted_texts(string_views(extensions@))),
{
    let ghost views = string_views(extensions@);
    let mut sorted: Vec<Vec<char>> = Vec::new();
    let mut i: usize = 0;
    proof {
        assert(views.take(0) =~= Seq::<Seq<char>>::empty());
        assert(crate::text::char_views(sorted@) =~= Seq::<Seq<char>>::empty());
    }
    while i < extensions.len()
        invariant
            i <= extensions@.len(),
            views == string_views(extensions@),
            crate::text::char_views(sorted@) == sorted_texts(views.take(i as int)),
        decreases extensions.len() - i,
    {
        proof {
            assert(views.take(i + 1).drop_last() =~= views.take(i as int));
            assert(views.take(i + 1).last() == extensions@[i as int]@);
        }
        insert_text_sorted(&mut sorted, chars_of(extensions[i].as_str()));
        i += 1;
    }
    assert(views.take(i as int) =~= views);
    let ghost start = s@;
    let ghost texts = crate::text::char_views(sorted@);
    let mut k: usize = 0;
    proof {
        assert(texts.take(0) =~= Seq::<Seq<char>>::empty());
        assert(s@ =~= start + comma_joined(texts.take(0)));
    }
    while k < sorted.len()
        invariant
            k <= sorted@.len(),
            texts == crate::text::char_views(sorted@),
            s@ == start + comma_joined(texts.take(k as int)),
        decreases sorted.len() - k,
    {
        let ghost before = s@;
        proof {
            assert(texts.take(k + 1).drop_last() =~= texts.take(k as int));
            assert(texts.take(k + 1).last() == sorted@[k as int]@);
        }
        if k > 0 {
            push_str(s, ", ");
        }
        push_chars(s, sorted[k].as_slice());
        proof {
            if k == 0 {
                assert(texts.take(1)[0] == sorted@[0]@);
                assert(s@ =~= start + texts.take(1)[0]);
            } else {
                assert(s@ =~= before + ", "@ + sorted@[k as int]@);
            }
        }
        k += 1;
    }
    assert(texts.take(k as int) =~= texts);
}

} // verus!
