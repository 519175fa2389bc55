//! The version of the tool, read from its lock file.

use vstd::prelude::*;

use super::args::has_prefix;
use crate::line::{split_char_lines, text_lines};
use crate::text::{char_views, chars_equal, chars_of, slice_chars, starts_with_chars, string_from_chars, trim, trim_chars};

verus! {

/// The pieces of `s` between occurrences of the non-empty text `sep`, as
/// `str::split` yields them, matches taken from the left.
pub open spec fn split_text(s: Seq<char>, sep: Seq<char>) -> Seq<Seq<char>>
    decreases s.len(),
{
    if sep.len() == 0 || s.len() < sep.len() {
        seq![s]
    } else if s.take(sep.len() as int) == sep {
        seq![Seq::<char>::empty()] + split_text(s.skip(sep.len() as int), sep)
    } else {
        let rest = split_text(s.drop_first(), sep);
        rest.update(0, seq![s[0]] + rest[0])
    }
}

/// `pieces` with `c` in front of its first piece.
pub open spec fn prepend_first(c: Seq<char>, pieces: Seq<Seq<char>>) -> Seq<Seq<char>> {
    pieces.update(0, c + pieces[0])
}

proof fn lemma_split_text_nonempty(s: Seq<char>, sep: Seq<char>)
    ensures
        split_text(s, sep).len() > 0,
    decreases s.len(),
{
    if sep.len() == 0 || s.len() < sep.len() {
    } else if s.take(sep.len() as int) == sep {
        lemma_split_text_nonempty(s.skip(sep.len() as int), sep);
    } else {
        lemma_split_text_nonempty(s.drop_first(), sep);
    }
}

/// `str::split` with a non-empty text pattern, on characters.
pub fn split_chars_on_text(s: &[char], sep: &[char]) -> (out: Vec<Vec<char>>)
    requires
        sep@.len() > 0,
    ensures
        char_views(out@) == split_text(s@, sep@),
{
    let mut pieces: Vec<Vec<char>> = Vec::new();
    let mut current: Vec<char> = Vec::new();
    let mut i: usize = 0;
    proof {
        assert(s@.skip(0) =~= s@);
        lemma_split_text_nonempty(s@, sep@);
        assert(prepend_first(current@, split_text(s@, sep@)) =~= split_text(s@, sep@));
        assert(char_views(pieces@) + split_text(s@, sep@) =~= split_text(s@, sep@));
    }
    while i < s.len() && s.len() - i >= sep.len()
        invariant
            i <= s@.len(),
            sep@.len() > 0,
            split_text(s@, sep@) == char_views(pieces@) + prepend_first(current@, split_text(s@.skip(i as int), sep@)),
        decreases s.len() - i,
    {
        let ghost rest = s@.skip(i as int);
        let matched = starts_with_chars(slice_chars(s, i, s.len()).as_slice(), sep);
        proof {
            assert(slice_chars_view(s@, i as int) =~= rest);
            lemma_split_text_nonempty(rest.drop_first(), sep@);
            lemma_split_text_nonempty(rest.skip(sep@.len() as int), sep@);
        }
        if matched {
            let ghost before = char_views(pieces@);
            let done = current;
            pieces.push(done);
            current = Vec::new();
            proof {
                let tail = split_text(rest.skip(sep@.len() as int), sep@);
                assert(rest.skip(sep@.len() as int) =~= s@.skip(i + sep@.len()));
                assert(split_text(rest, sep@) == seq![Seq::<char>::empty()] + tail);
                assert(prepend_first(done@, split_text(rest, sep@)) =~= seq![done@] + tail);
                assert(char_views(pieces@) =~= before.push(done@));
                assert(prepend_first(current@, tail) =~= tail);
                assert(char_views(pieces@) + prepend_first(current@, tail) =~= before + (seq![done@] + tail));
            }
            i += sep.len();
        } else {
            let ghost before = current@;
            current.push(s[i]);
            proof {
                let tail = split_text(rest.drop_first(), sep@);
                assert(rest.drop_first() =~= s@.skip(i + 1));
                assert(rest[0] == s@[i as int]);
                assert(split_text(rest, sep@) == prepend_first(seq![rest[0]], tail));
                assert(current@ =~= before.push(rest[0]));
                assert(before + (seq![rest[0]] + tail[0]) =~= current@ + tail[0]);
                assert(prepend_first(before, prepend_first(seq![rest[0]], tail)) =~= prepend_first(current@, tail));
            }
            i += 1;
        }
    }
    let mut tail = slice_chars(s, i, s.len());
    let ghost current_before = current@;
    let ghost tail_view = tail@;
    proof {
        assert(tail_view =~= s@.skip(i as int));
        assert(split_text(s@.skip(i as int), sep@) == seq![tail_view]);
        assert(prepend_first(current_before, seq![tail_view]) =~= seq![current_before + tail_view]);
    }
    current.append(&mut tail);
    let ghost before = char_views(pieces@);
    pieces.push(current);
    proof {
        assert(char_views(pieces@) =~= before + seq![current_before + tail_view]);
    }
    pieces
}

spec fn slice_chars_view(s: Seq<char>, i: int) -> Seq<char> {
    s.subrange(i, s.len() as int)
}

/// The value of `key` on one line of a lock file section: the line trimmed,
/// then `<key> = "` in front and `"` at the end taken off.
pub open spec fn line_value(line: Seq<char>, key: Seq<char>) -> Option<Seq<char>> {
    let t = trim(line);
    let prefix = key + " = \""@;
    if has_prefix(t, prefix) && t.len() > prefix.len() && t.last() == '"' {
        Some(t.subrange(prefix.len() as int, t.len() - 1))
    } else {
        None
    }
}

/// The value of `key` on the first line that has one.
pub open spec fn first_line_value(lines: Seq<Seq<char>>, key: Seq<char>) -> Option<Seq<char>>
    decreases lines.len(),
{
    if lines.len() == 0 {
        None
    } else {
        let earlier = first_line_value(lines.drop_last(), key);
        if earlier is Some {
            earlier
        } else {
            line_value(lines.last(), key)
        }
    }
}

/// The name and version of a lock file section, when it has both.
pub open spec fn section_package(section: Seq<char>) -> Option<(Seq<char>, Seq<char>)> {
    let lines = text_lines(section);
    match (first_line_value(lines, "name"@), first_line_value(lines, "version"@)) {
        (Some(name), Some(version)) => Some((name, version)),
        _ => None,
    }
}

/// The packages of the sections that have a name and a version, in order.
pub open spec fn section_packages(sections: Seq<Seq<char>>) -> Seq<(Seq<char>, Seq<char>)>
    decreases sections.len(),
{
    if sections.len() == 0 {
        Seq::empty()
    } else {
        let earlier = section_packages(sections.drop_last());
        match section_package(sections.last()) {
            Some(p) => earlier.push(p),
            None => earlier,
        }
    }
}

/// The packages of a lock file: its text split at `[[package]]`, each piece
/// with a name and a version.
pub open spec fn lock_packages(lockfile: Seq<char>) -> Seq<(Seq<char>, Seq<char>)> {
    section_packages(split_text(lockfile, "[[package]]"@))
}

/// The version of the first package named `name`.
pub open spec fn package_version(packages: Seq<(Seq<char>, Seq<char>)>, name: Seq<char>) -> Option<Seq<char>>
    decreases packages.len(),
{
    if packages.len() == 0 {
        None
    } else {
        let earlier = package_version(packages.drop_last(), name);
        if earlier is Some {
            earlier
        } else if packages.last().0 == name {
            Some(packages.last().1)
        } else {
            None
        }
    }
}

/// A package of a lock file.
#[derive(Debug, Clone, PartialEq, Eq)]
pub struct CargoLockPackage {
    pub name: String,
    pub version: String,
}

/// The value of `key` on the first line of `lines` that has one.
fn cargo_lock_value(lines: &Vec<Vec<char>>, key: &str) -> (r: Option<Vec<char>>)
    ensures
        match first_line_value(char_views(lines@), key@) {
            Some(v) => r matches Some(x) && x@ == v,
            None => r is None,
        },
{
    let ghost views = char_views(lines@);
    let mut prefix = chars_of(key);
    let mut suffix = chars_of(" = \"");
    prefix.append(&mut suffix);
    proof {
        reveal_strlit(" = \"");
    }
    let mut i: usize = 0;
    proof {
        assert(views.take(0) =~= Seq::<Seq<char>>::empty());
    }
    while i < lines.len()
        invariant
            i <= lines@.len(),
            views == char_views(lines@),
            prefix@ == key@ + " = \""@,
            first_line_value(views.take(i as int), key@) is None,
        decreases lines.len() - i,
    {
        proof {
            assert(views.take(i + 1).drop_last() =~= views.take(i as int));
            assert(views.take(i + 1).last() == lines@[i as int]@);
        }
        let t = trim_chars(lines[i].as_slice());
        if starts_with_chars(t.as_slice(), prefix.as_slice()) && t.len() > prefix.len() && t[t.len() - 1] == '"' {
            let value = slice_chars(t.as_slice(), prefix.len(), t.len() - 1);
            proof {
                lemma_first_value_stays(views, key@, i as int + 1);
                assert(views.take(views.len() as int) =~= views);
            }
            return Some(value);
        }
        i += 1;
    }
    proof {
        assert(views.take(i as int) =~= views);
    }
    None
}

proof fn lemma_first_value_stays(lines: Seq<Seq<char>>, key: Seq<char>, i: int)
    requires
        0 < i <= lines.len(),
        first_line_value(lines.take(i), key) is Some,
    ensures
        first_line_value(lines, key) == first_line_value(lines.take(i), key),
    decreases lines.len() - i,
{
    if i < lines.len() {
        assert(lines.take(i + 1).drop_last() =~= lines.take(i));
        lemma_first_value_stays(lines, key, i + 1);
    } else {
        assert(lines.take(i) =~= lines);
    }
}

/// The packages of a lock file, each with a name and a version.
pub fn cargo_lock_packages(lockfile: &str) -> (r: Vec<CargoLockPackage>)
    ensures
        r@.map_values(|p: CargoLockPackage| (p.name@, p.version@)) == lock_packages(lockfile@),
{
    let text = chars_of(lockfile);
    let separator = chars_of("[[package]]");
    proof {
        reveal_strlit("[[package]]");
    }
    let sections = split_chars_on_text(text.as_slice(), separator.as_slice());
    let ghost views = char_views(sections@);
    let mut packages: Vec<CargoLockPackage> = Vec::new();
    let mut i: usize = 0;
    proof {
        assert(views.take(0) =~= Seq::<Seq<char>>::empty());
        assert(packages@.map_values(|p: CargoLockPackage| (p.name@, p.version@)) =~= Seq::<(Seq<char>, Seq<char>)>::empty());
    }
    while i < sections.len()
        invariant
            i <= sections@.len(),
            views == char_views(sections@),
            views == split_text(lockfile@, "[[package]]"@),
            packages@.map_values(|p: CargoLockPackage| (p.name@, p.version@)) == section_packages(views.take(i as int)),
        decreases sections.len() - i,
    {
        proof {
            assert(views.take(i + 1).drop_last() =~= views.take(i as int));
            assert(views.take(i + 1).last() == sections@[i as int]@);
        }
        let lines = split_char_lines(sections[i].as_slice());
        let name = cargo_lock_value(&lines, "name");
        let version = cargo_lock_value(&lines, "version");
        if let (Some(name), Some(version)) = (name, version) {
            let ghost before = packages@.map_values(|p: CargoLockPackage| (p.name@, p.version@));
            packages.push(CargoLockPackage { name: string_from_chars(name.as_slice()), version: string_from_chars(version.as_slice()) });
            assert(packages@.map_values(|p: CargoLockPackage| (p.name@, p.version@)) =~= before.push((name@, version@)));
        }
        i += 1;
    }
    proof {
        assert(views.take(i as int) =~= views);
    }
    packages
}

/// The version of the `codem8` package in a lock file.
pub fn codem8_version_from_cargo_lock(lockfile: &str) -> (r: Option<String>)
    ensures
        match package_version(lock_packages(lockfile@), "codem8"@) {
            Some(v) => r matches Some(x) && x@ == v,
            None => r is None,
        },
{
    let packages = cargo_lock_packages(lockfile);
    let ghost views = packages@.map_values(|p: CargoLockPackage| (p.name@, p.version@));
    let wanted = chars_of("codem8");
    let mut i: usize = 0;
    proof {
        assert(views.take(0) =~= Seq::<(Seq<char>, Seq<char>)>::empty());
    }
    while i < packages.len()
        invariant
            i <= packages@.len(),
            views == packages@.map_values(|p: CargoLockPackage| (p.name@, p.version@)),
            views == lock_packages(lockfile@),
            wanted@ == "codem8"@,
            package_version(views.take(i as int), "codem8"@) is None,
        decreases packages.len() - i,
    {
        proof {
            assert(views.take(i + 1).drop_last() =~= views.take(i as int));
            assert(views.take(i + 1).last() == views[i as int]);
        }
        let name = chars_of(packages[i].name.as_str());
        if chars_equal(name.as_slice(), wanted.as_slice()) {
            proof {
                lemma_package_version_stays(views, i as int + 1);
                assert(views.take(views.len() as int) =~= views);
            }
            return Some(packages[i].version.clone());
        }
        i += 1;
    }
    proof {
        assert(views.take(i as int) =~= views);
    }
    None
}

proof fn lemma_package_version_stays(packages: Seq<(Seq<char>, Seq<char>)>, i: int)
    requires
        0 < i <= packages.len(),
        package_version(packages.take(i), "codem8"@) is Some,
    ensures
        package_version(packages, "codem8"@) == package_version(packages.take(i), "codem8"@),
    decreases packages.len() - i,
{
    if i < packages.len() {
        assert(packages.take(i + 1).drop_last() =~= packages.take(i));
        lemma_package_version_stays(packages, i + 1);
    } else {
        assert(packages.take(i) =~= packages);
    }
}

} // verus!
