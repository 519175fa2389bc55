//! Hashing and classification of normalized lines.

use vstd::prelude::*;

use crate::model::LineStatus;
use crate::text::{
    ascii_lowercase, ascii_lowercase_chars, chars_equal, chars_of, contains_char, is_white_space,
    is_white_space_char,
};
use vstd::utf8::encode_utf8;

use super::patterns::{language_patterns, line_pattern_view, pattern_registry, LanguageLinePattern, LinePatternView};
use super::regexp::{compile_regexp, find_first, regex_compiles, regex_first_match, CompiledRegexp};
use super::registry::{concat_all, first_appearances, language_registry, registry_extensions, str_views, LanguageView};

verus! {

/// The 128-bit XXH3 hash of `bytes`, as `xxhash_rust::xxh3::xxh3_128`
/// computes it.
pub uninterp spec fn xxh3_128_of(bytes: Seq<u8>) -> u128;

/// `xxhash_rust::xxh3::xxh3_128`. The contract claims only that the hash
/// is a function of the bytes.
#[verifier::external_body]
fn xxh3_128_bytes(bytes: &[u8]) -> (h: u128)
    ensures
        h == xxh3_128_of(bytes@),
{
    xxhash_rust::xxh3::xxh3_128(bytes)
}

/// The hash of a normalized line: XXH3-128 of its UTF-8 bytes.
pub fn hash_normalized_line(line: &str) -> (h: u128)
    ensures
        h == xxh3_128_of(encode_utf8(line@)),
{
    xxh3_128_bytes(line.as_bytes())
}

/// The lines, characters and regular expressions of the languages that
/// own `extension`, one language after the other.
pub type MergedPatterns = (Seq<Seq<char>>, Seq<char>, Seq<Seq<char>>);

pub open spec fn merged_patterns(ps: Seq<LinePatternView>, extension: Seq<char>) -> MergedPatterns
    decreases ps.len(),
{
    if ps.len() == 0 {
        (Seq::empty(), Seq::empty(), Seq::empty())
    } else {
        let m = merged_patterns(ps.drop_last(), extension);
        let p = ps.last();
        if p.0.1.contains(extension) {
            (m.0 + p.2, m.1 + p.1, m.2 + p.3)
        } else {
            m
        }
    }
}

/// The line is made of white space and the given characters only, and some
/// characters are given.
pub open spec fn character_line(chars: Seq<char>, line: Seq<char>) -> bool {
    &&& chars.len() > 0
    &&& forall|k: int| 0 <= k < line.len() ==> is_white_space(#[trigger] line[k]) || chars.contains(line[k])
}

/// The regular expression compiles and its first match covers the whole
/// line.
pub open spec fn full_match(pattern: Seq<char>, line: Seq<char>) -> bool {
    &&& regex_compiles(pattern)
    &&& regex_first_match(pattern, line) == Some((0usize, encode_utf8(line).len() as usize))
}

/// A line that may only stand inside a duplicate block: a registered line of
/// the extension's language (with its hash), a line of its characters only,
/// or a line that one of its regular expressions matches in full.
pub open spec fn block_only_line(extension: Seq<char>, line: Seq<char>, hash: u128) -> bool {
    let m = merged_patterns(pattern_registry(), ascii_lowercase(extension));
    ||| m.0.contains(line) && hash == xxh3_128_of(encode_utf8(line))
    ||| character_line(m.1, line)
    ||| exists|k: int| 0 <= k < m.2.len() && full_match(#[trigger] m.2[k], line)
}

/// The patterns of one extension, ready to classify its lines.
pub struct ExtensionPatterns {
    lines: Vec<(u128, Vec<char>)>,
    characters: Vec<char>,
    regexps: Vec<CompiledRegexp>,
}

impl ExtensionPatterns {
    pub closed spec fn line_texts(&self) -> Seq<Seq<char>> {
        self.lines@.map_values(|l: (u128, Vec<char>)| l.1@)
    }

    /// The patterns hold exactly what `m` gives.
    pub closed spec fn holds(&self, m: MergedPatterns) -> bool {
        &&& self.line_texts() == m.0
        &&& forall|i: int| 0 <= i < self.lines@.len() ==> #[trigger] self.lines@[i].0 == xxh3_128_of(encode_utf8(self.lines@[i].1@))
        &&& forall|c: char| self.characters@.contains(c) <==> m.1.contains(c)
        &&& forall|i: int| 0 <= i < self.regexps@.len() ==> m.2.contains(#[trigger] self.regexps@[i].pattern_view())
            && regex_compiles(self.regexps@[i].pattern_view())
        &&& forall|k: int|
            0 <= k < m.2.len() && regex_compiles(#[trigger] m.2[k]) ==> exists|i: int|
                0 <= i < self.regexps@.len() && #[trigger] self.regexps@[i].pattern_view() == m.2[k]
    }

    /// The patterns of the languages that own `extension`, compared without
    /// regard to ASCII case.
    pub fn for_extension(extension: &str) -> (p: Self)
        ensures
            p.holds(merged_patterns(pattern_registry(), ascii_lowercase(extension@))),
    {
        let chars = chars_of(extension);
        let lower = ascii_lowercase_chars(chars.as_slice());
        let languages = language_patterns();
        let mut p = ExtensionPatterns { lines: Vec::new(), characters: Vec::new(), regexps: Vec::new() };
        let ghost reg = pattern_registry();
        proof {
            assert(reg.take(0) =~= Seq::<LinePatternView>::empty());
            assert(p.line_texts() =~= Seq::<Seq<char>>::empty());
        }
        let mut i: usize = 0;
        while i < languages.len()
            invariant
                i <= languages@.len(),
                languages@.len() == reg.len(),
                reg == pattern_registry(),
                forall|k: int| 0 <= k < reg.len() ==> #[trigger] reg[k] == line_pattern_view(languages@[k]),
                p.holds(merged_patterns(reg.take(i as int), lower@)),
            decreases languages.len() - i,
        {
            let ghost m = merged_patterns(reg.take(i as int), lower@);
            proof {
                assert(reg.take(i + 1).drop_last() =~= reg.take(i as int));
                assert(reg.take(i + 1).last() == reg[i as int]);
            }
            if has_extension(&languages[i].language.extensions, lower.as_slice()) {
                p.add_language(&languages[i], Ghost(m));
            }
            i += 1;
        }
        proof {
            assert(reg.take(i as int) =~= reg);
        }
        p
    }

    /// Adds the patterns of one more language.
    fn add_language(&mut self, language: &LanguageLinePattern, Ghost(m): Ghost<MergedPatterns>)
        requires
            old(self).holds(m),
        ensures
            final(self).holds(
                (
                    m.0 + line_pattern_view(*language).2,
                    m.1 + line_pattern_view(*language).1,
                    m.2 + line_pattern_view(*language).3,
                ),
            ),
    {
        let ghost v = line_pattern_view(*language);
        let ghost m2 = (m.0 + v.2, m.1 + v.1, m.2 + v.3);
        let lines = &language.duplicate_mitigation_lines;
        let mut j: usize = 0;
        while j < lines.len()
            invariant
                j <= lines@.len(),
                v.2 == str_views(lines@),
                self.line_texts() == m.0 + v.2.take(j as int),
                forall|i: int| 0 <= i < self.lines@.len() ==> #[trigger] self.lines@[i].0 == xxh3_128_of(encode_utf8(self.lines@[i].1@)),
                forall|c: char| self.characters@.contains(c) <==> m.1.contains(c),
                self.characters == old(self).characters,
                self.regexps == old(self).regexps,
            decreases lines.len() - j,
        {
            let text = lines[j];
            let hash = hash_normalized_line(text);
            let ghost before = self.line_texts();
            self.lines.push((hash, chars_of(text)));
            proof {
                assert(self.line_texts() =~= before.push(text@));
                assert(v.2.take(j + 1) =~= v.2.take(j as int).push(text@));
            }
            j += 1;
        }
        proof {
            assert(v.2.take(j as int) =~= v.2);
        }
        let ghost lines_after = self.lines;
        let chars = &language.duplicate_mitigation_pattern;
        let mut k: usize = 0;
        while k < chars.len()
            invariant
                k <= chars@.len(),
                v.1 == chars@,
                forall|c: char| self.characters@.contains(c) <==> (m.1 + v.1.take(k as int)).contains(c),
                self.lines == lines_after,
                self.regexps == old(self).regexps,
            decreases chars.len() - k,
        {
            let c = chars[k];
            let ghost before = self.characters@;
            proof {
                assert(m.1 + v.1.take(k + 1) =~= (m.1 + v.1.take(k as int)).push(c));
            }
            if !contains_char(self.characters.as_slice(), c) {
                self.characters.push(c);
                assert(self.characters@ =~= before.push(c));
                assert(self.characters@[before.len() as int] == c);
            }
            proof {
                assert(self.characters@.contains(c));
                assert forall|x: char| before.contains(x) implies self.characters@.contains(x) by {
                    let t = choose|t: int| 0 <= t < before.len() && before[t] == x;
                    assert(self.characters@[t] == x);
                }
                assert forall|x: char| self.characters@.contains(x) implies before.contains(x) || x == c by {
                    let t = choose|t: int| 0 <= t < self.characters@.len() && self.characters@[t] == x;
                    if t < before.len() {
                        assert(before[t] == x);
                    }
                }
                let after = m.1 + v.1.take(k + 1);
                let prev = m.1 + v.1.take(k as int);
                assert(after =~= prev.push(c));
                assert forall|x: char| after.contains(x) implies prev.contains(x) || x == c by {
                    let t = choose|t: int| 0 <= t < after.len() && after[t] == x;
                    if t < prev.len() {
                        assert(prev[t] == x);
                    }
                }
                assert forall|x: char| prev.contains(x) implies after.contains(x) by {
                    let t = choose|t: int| 0 <= t < prev.len() && prev[t] == x;
                    assert(after[t] == x);
                }
                assert(after[prev.len() as int] == c);
                assert forall|x: char| self.characters@.contains(x) <==> after.contains(x) by {
                    if before.contains(x) {
                        assert(prev.contains(x));
                    }
                    if prev.contains(x) {
                        assert(before.contains(x));
                    }
                }
            }
            k += 1;
        }
        assert(v.1.take(k as int) =~= v.1);
        assert(v.3.take(0) =~= Seq::<Seq<char>>::empty());
        assert(m.2 + v.3.take(0) =~= m.2);
        let patterns = &language.duplicate_mitigation_regexps;
        let mut r: usize = 0;
        while r < patterns.len()
            invariant
                r <= patterns@.len(),
                v.3 == str_views(patterns@),
                self.lines == lines_after,
                forall|c: char| self.characters@.contains(c) <==> (m.1 + v.1).contains(c),
                forall|i: int| 0 <= i < self.regexps@.len() ==> (m.2 + v.3.take(r as int)).contains(
                    #[trigger] self.regexps@[i].pattern_view(),
                ) && regex_compiles(self.regexps@[i].pattern_view()),
                forall|t: int|
                    0 <= t < (m.2 + v.3.take(r as int)).len() && regex_compiles(#[trigger] (m.2 + v.3.take(r as int))[t])
                        ==> exists|i: int|
                        0 <= i < self.regexps@.len() && #[trigger] self.regexps@[i].pattern_view() == (m.2
                            + v.3.take(r as int))[t],
            decreases patterns.len() - r,
        {
            let pattern = patterns[r];
            let ghost prev = m.2 + v.3.take(r as int);
            let ghost after = m.2 + v.3.take(r + 1);
            proof {
                assert(after =~= prev.push(pattern@));
            }
            let ghost old_regexps = self.regexps@;
            let present = self.has_regexp(pattern);
            if !present {
                if let Some(compiled) = compile_regexp(pattern) {
                    self.regexps.push(compiled);
                }
            }
            proof {
                assert forall|i: int| 0 <= i < self.regexps@.len() implies after.contains(
                    #[trigger] self.regexps@[i].pattern_view(),
                ) && regex_compiles(self.regexps@[i].pattern_view()) by {
                    let q = self.regexps@[i].pattern_view();
                    if q == pattern@ {
                        assert(after[prev.len() as int] == q);
                    } else {
                        assert(self.regexps@[i] == old_regexps[i]);
                        let t = choose|t: int| 0 <= t < prev.len() && prev[t] == q;
                        assert(after[t] == q);
                    }
                }
                assert forall|t: int| 0 <= t < after.len() && regex_compiles(#[trigger] after[t]) implies exists|i: int|
                    0 <= i < self.regexps@.len() && #[trigger] self.regexps@[i].pattern_view() == after[t] by {
                    if t < prev.len() {
                        assert(after[t] == prev[t]);
                        let i = choose|i: int|
                            0 <= i < old_regexps.len() && #[trigger] old_regexps[i].pattern_view() == prev[t];
                        assert(self.regexps@[i] == old_regexps[i]);
                    } else {
                        assert(after[t] == pattern@);
                        if present {
                            let i = choose|i: int|
                                0 <= i < old_regexps.len() && #[trigger] old_regexps[i].pattern_view() == pattern@;
                            assert(self.regexps@[i] == old_regexps[i]);
                        } else {
                            assert(self.regexps@[old_regexps.len() as int].pattern_view() == pattern@);
                        }
                    }
                }
            }
            r += 1;
        }
        assert(v.3.take(r as int) =~= v.3);
    }

    /// Whether the line may only stand inside a duplicate block, by the
    /// patterns `m` that these hold.
    pub fn matches_line(&self, line: &str, hash: u128, Ghost(m): Ghost<MergedPatterns>) -> (r: bool)
        requires
            self.holds(m),
        ensures
            r == (m.0.contains(line@) && hash == xxh3_128_of(encode_utf8(line@)) || character_line(m.1, line@)
                || exists|k: int| 0 <= k < m.2.len() && full_match(#[trigger] m.2[k], line@)),
    {
        let chars = chars_of(line);
        let registered = self.matches_registered_line(chars.as_slice(), hash, Ghost(m));
        let by_characters = self.matches_characters(line, Ghost(m));
        let by_regexps = self.matches_regexps(line, Ghost(m));
        registered || by_characters || by_regexps
    }

    fn matches_registered_line(&self, line: &[char], hash: u128, Ghost(m): Ghost<MergedPatterns>) -> (r: bool)
        requires
            self.holds(m),
        ensures
            r == (m.0.contains(line@) && hash == xxh3_128_of(encode_utf8(line@))),
    {
        let mut i: usize = 0;
        while i < self.lines.len()
            invariant
                i <= self.lines@.len(),
                self.holds(m),
                forall|k: int| 0 <= k < i ==> !(#[trigger] self.lines@[k].0 == hash && self.lines@[k].1@ == line@),
            decreases self.lines.len() - i,
        {
            if self.lines[i].0 == hash && chars_equal(self.lines[i].1.as_slice(), line) {
                proof {
                    assert(self.line_texts()[i as int] == line@);
                }
                return true;
            }
            i += 1;
        }
        proof {
            if m.0.contains(line@) && hash == xxh3_128_of(encode_utf8(line@)) {
                let k = choose|k: int| 0 <= k < m.0.len() && m.0[k] == line@;
                assert(self.line_texts()[k] == line@);
                assert(self.lines@[k].0 == hash);
            }
        }
        false
    }

    fn matches_characters(&self, line: &str, Ghost(m): Ghost<MergedPatterns>) -> (r: bool)
        requires
            self.holds(m),
        ensures
            r == character_line(m.1, line@),
    {
        proof {
            if m.1.len() > 0 {
                assert(m.1.contains(m.1[0]));
                assert(self.characters@.contains(m.1[0]));
            }
            if self.characters@.len() > 0 {
                assert(self.characters@.contains(self.characters@[0]));
                assert(m.1.contains(self.characters@[0]));
            }
        }
        let r = matches_duplicate_mitigation_pattern(line, self.characters.as_slice());
        proof {
            if r != character_line(m.1, line@) {
                if r {
                    assert forall|k: int| 0 <= k < line@.len() implies is_white_space(#[trigger] line@[k])
                        || m.1.contains(line@[k]) by {
                        assert(is_white_space(line@[k]) || self.characters@.contains(line@[k]));
                    }
                } else {
                    assert forall|k: int| 0 <= k < line@.len() implies is_white_space(#[trigger] line@[k])
                        || self.characters@.contains(line@[k]) by {
                        assert(is_white_space(line@[k]) || m.1.contains(line@[k]));
                    }
                }
            }
        }
        r
    }

    fn matches_regexps(&self, line: &str, Ghost(m): Ghost<MergedPatterns>) -> (r: bool)
        requires
            self.holds(m),
        ensures
            r == exists|k: int| 0 <= k < m.2.len() && full_match(#[trigger] m.2[k], line@),
    {
        let length = line.len();
        let mut i: usize = 0;
        while i < self.regexps.len()
            invariant
                i <= self.regexps@.len(),
                self.holds(m),
                length == encode_utf8(line@).len() as usize,
                forall|k: int|
                    0 <= k < i ==> regex_first_match(#[trigger] self.regexps@[k].pattern_view(), line@) != Some(
                        (0usize, length),
                    ),
            decreases self.regexps.len() - i,
        {
            let found = find_first(&self.regexps[i], line);
            if found == Some((0usize, length)) {
                proof {
                    let p = self.regexps@[i as int].pattern_view();
                    assert(m.2.contains(p));
                    let k = choose|k: int| 0 <= k < m.2.len() && m.2[k] == p;
                    assert(full_match(m.2[k], line@));
                }
                return true;
            }
            i += 1;
        }
        proof {
            assert forall|k: int| 0 <= k < m.2.len() implies !full_match(#[trigger] m.2[k], line@) by {
                if full_match(m.2[k], line@) {
                    let j = choose|j: int| 0 <= j < self.regexps@.len() && #[trigger] self.regexps@[j].pattern_view() == m.2[k];
                    assert(regex_first_match(self.regexps@[j].pattern_view(), line@) != Some((0usize, length)));
                }
            }
        }
        false
    }

    /// Classifies a normalized line by these patterns.
    pub fn classify(&self, line: &str, hash: u128, Ghost(m): Ghost<MergedPatterns>) -> (s: LineStatus)
        requires
            self.holds(m),
        ensures
            (s == LineStatus::BlockOnly) == (m.0.contains(line@) && hash == xxh3_128_of(encode_utf8(line@))
                || character_line(m.1, line@) || exists|k: int| 0 <= k < m.2.len() && full_match(#[trigger] m.2[k], line@)),
    {
        if self.matches_line(line, hash, Ghost(m)) {
            LineStatus::BlockOnly
        } else {
            LineStatus::Comparison
        }
    }

    /// Whether a regular expression with this pattern was compiled already.
    fn has_regexp(&self, pattern: &str) -> (r: bool)
        ensures
            r == exists|i: int| 0 <= i < self.regexps@.len() && #[trigger] self.regexps@[i].pattern_view() == pattern@,
    {
        let wanted = chars_of(pattern);
        let mut i: usize = 0;
        while i < self.regexps.len()
            invariant
                i <= self.regexps@.len(),
                wanted@ == pattern@,
                forall|k: int| 0 <= k < i ==> #[trigger] self.regexps@[k].pattern_view() != pattern@,
            decreases self.regexps.len() - i,
        {
            let have = chars_of(self.regexps[i].pattern());
            if chars_equal(have.as_slice(), wanted.as_slice()) {
                return true;
            }
            i += 1;
        }
        false
    }
}

/// Whether one of the extensions is `extension`.
fn has_extension(extensions: &Vec<&'static str>, extension: &[char]) -> (r: bool)
    ensures
        r == str_views(extensions@).contains(extension@),
{
    let mut i: usize = 0;
    while i < extensions.len()
        invariant
            i <= extensions@.len(),
            forall|k: int| 0 <= k < i ==> #[trigger] str_views(extensions@)[k] != extension@,
        decreases extensions.len() - i,
    {
        let chars = chars_of(extensions[i]);
        if chars_equal(chars.as_slice(), extension) {
            assert(str_views(extensions@)[i as int] == extension@);
            return true;
        }
        i += 1;
    }
    false
}

/// Classifies a normalized line of a file with `extension`: `BlockOnly`
/// when the line may only stand inside a duplicate block, `Comparison`
/// otherwise.
pub fn classify_line(extension: &str, normalized_line: &str, hash: u128) -> (s: LineStatus)
    ensures
        (s == LineStatus::BlockOnly) == block_only_line(extension@, normalized_line@, hash),
{
    let patterns = ExtensionPatterns::for_extension(extension);
    patterns.classify(normalized_line, hash, Ghost(merged_patterns(pattern_registry(), ascii_lowercase(extension@))))
}

/// Whether the line is made of white space and the given characters only,
/// with some characters given.
pub fn matches_duplicate_mitigation_pattern(line: &str, character_pattern: &[char]) -> (r: bool)
    ensures
        r == character_line(character_pattern@, line@),
{
    if character_pattern.len() == 0 {
        return false;
    }
    let chars = chars_of(line);
    let mut i: usize = 0;
    while i < chars.len()
        invariant
            i <= chars@.len(),
            chars@ == line@,
            forall|k: int| 0 <= k < i ==> is_white_space(#[trigger] chars@[k]) || character_pattern@.contains(chars@[k]),
        decreases chars.len() - i,
    {
        let c = chars[i];
        if !is_white_space_char(c) && !contains_char(character_pattern, c) {
            assert(!(is_white_space(chars@[i as int]) || character_pattern@.contains(chars@[i as int])));
            return false;
        }
        i += 1;
    }
    true
}

/// Classification depends on the extension only through its ASCII lower
/// case: two extensions that differ in ASCII case classify every line alike.
pub proof fn lemma_classification_ignores_extension_case(e1: Seq<char>, e2: Seq<char>, line: Seq<char>, hash: u128)
    requires
        ascii_lowercase(e1) == ascii_lowercase(e2),
    ensures
        block_only_line(e1, line, hash) == block_only_line(e2, line, hash),
{
}

/// A hash alone never makes a line block-only: a line that is block-only
/// with some hash is block-only with its own hash.
pub proof fn lemma_block_only_needs_no_hash_match(extension: Seq<char>, line: Seq<char>, hash: u128)
    requires
        block_only_line(extension, line, hash),
    ensures
        block_only_line(extension, line, xxh3_128_of(encode_utf8(line))),
{
}

/// The languages of the line patterns are those of the registry, in order.
proof fn lemma_pattern_languages()
    ensures
        pattern_registry().len() == language_registry().len(),
        forall|i: int| 0 <= i < pattern_registry().len() ==> #[trigger] pattern_registry()[i].0 == language_registry()[i],
{
    assert(pattern_registry().map_values(|p: LinePatternView| p.0) =~= language_registry());
    assert forall|i: int| 0 <= i < pattern_registry().len() implies #[trigger] pattern_registry()[i].0 == language_registry()[i] by {
        assert(pattern_registry().map_values(|p: LinePatternView| p.0)[i] == pattern_registry()[i].0);
    }
}

/// Patterns of languages that do not own an extension give it nothing.
proof fn lemma_merged_patterns_unowned(ps: Seq<LinePatternView>, extension: Seq<char>)
    requires
        forall|i: int| 0 <= i < ps.len() ==> !(#[trigger] ps[i]).0.1.contains(extension),
    ensures
        merged_patterns(ps, extension) == (Seq::<Seq<char>>::empty(), Seq::<char>::empty(), Seq::<Seq<char>>::empty()),
    decreases ps.len(),
{
    if ps.len() > 0 {
        assert(ps.last() == ps[ps.len() - 1]);
        lemma_merged_patterns_unowned(ps.drop_last(), extension);
    }
}

/// Every text of the list is among its first appearances.
proof fn lemma_first_appearances_contains(s: Seq<Seq<char>>, x: Seq<char>)
    requires
        s.contains(x),
    ensures
        first_appearances(s).contains(x),
    decreases s.len(),
{
    let k = choose|k: int| 0 <= k < s.len() && s[k] == x;
    if k < s.len() - 1 {
        assert(s.drop_last()[k] == x);
        lemma_first_appearances_contains(s.drop_last(), x);
        let r = first_appearances(s.drop_last());
        let j = choose|j: int| 0 <= j < r.len() && r[j] == x;
        if !r.contains(s.last()) {
            assert(r.push(s.last())[j] == x);
        }
    } else {
        let r = first_appearances(s.drop_last());
        if !r.contains(s.last()) {
            assert(r.push(s.last())[r.len() as int] == x);
        }
    }
}

/// A line of a file whose lower-cased extension no language has is always
/// a comparison line.
pub proof fn lemma_unsupported_extension_compares(extension: Seq<char>, line: Seq<char>, hash: u128)
    requires
        !first_appearances(registry_extensions()).contains(ascii_lowercase(extension)),
    ensures
        !block_only_line(extension, line, hash),
{
    let lower = ascii_lowercase(extension);
    let langs = language_registry().map_values(|l: LanguageView| l.1);
    lemma_pattern_languages();
    assert forall|i: int| 0 <= i < pattern_registry().len() implies !(#[trigger] pattern_registry()[i]).0.1.contains(
        lower,
    ) by {
        if pattern_registry()[i].0.1.contains(lower) {
            assert(langs[i] == language_registry()[i].1);
            let k = choose|k: int| 0 <= k < langs[i].len() && langs[i][k] == lower;
            let before = concat_all(langs.take(i));
            assert(langs.take(i + 1).drop_last() =~= langs.take(i));
            assert(concat_all(langs.take(i + 1))[before.len() + k] == lower);
            lemma_concat_prefix_contains(langs, i + 1, lower);
            lemma_first_appearances_contains(registry_extensions(), lower);
        }
    }
    lemma_merged_patterns_unowned(pattern_registry(), lower);
}

/// What the lists of a prefix hold, all the lists hold.
proof fn lemma_concat_prefix_contains(s: Seq<Seq<Seq<char>>>, n: int, x: Seq<char>)
    requires
        0 <= n <= s.len(),
        concat_all(s.take(n)).contains(x),
    ensures
        concat_all(s).contains(x),
    decreases s.len() - n,
{
    if n < s.len() {
        assert(s.take(n + 1).drop_last() =~= s.take(n));
        let k = choose|k: int| 0 <= k < concat_all(s.take(n)).len() && concat_all(s.take(n))[k] == x;
        assert(concat_all(s.take(n + 1))[k] == x);
        lemma_concat_prefix_contains(s, n + 1, x);
    } else {
        assert(s.take(n) =~= s);
    }
}

} // verus!
