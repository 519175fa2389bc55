//! Choosing source files: by extension, by directory name, explicitly
//! named, and in display order.

use vstd::prelude::*;

use crate::error::CodeM8Error;
use crate::language::registry::string_views;
use crate::model::SourceFile;
use crate::paths::{
    components_of, component_views, format_path, is_absolute, join_path, joined_path, normalize_display_path,
    normalized_display, path_components, path_key, path_key_chars, strip_path_prefix, stripped_path,
};
use crate::text::{
    ascii_lowercase, ascii_lowercase_chars, chars_equal, chars_of, compare_chars, push_str, string_from_chars,
    text_le, text_lt, Comparison3,
};

verus! {

/// The last component of a path when it is a name.
pub open spec fn file_name(p: Seq<char>) -> Option<Seq<char>> {
    let cs = path_components(p);
    if cs.len() > 0 && cs.last().0 == 3 {
        Some(cs.last().1)
    } else {
        None
    }
}

/// The position of the last `.` in a text.
pub open spec fn last_dot(s: Seq<char>) -> Option<int>
    decreases s.len(),
{
    if s.len() == 0 {
        None
    } else if s.last() == '.' {
        Some(s.len() - 1)
    } else {
        last_dot(s.drop_last())
    }
}

/// The extension of a path, as `Path::extension` gives it: what follows the
/// last dot of the file name, unless that dot starts the name.
pub open spec fn path_extension(p: Seq<char>) -> Option<Seq<char>> {
    match file_name(p) {
        None => None,
        Some(name) => match last_dot(name) {
            Some(i) => if i > 0 {
                Some(name.skip(i + 1))
            } else {
                None
            },
            None => None,
        },
    }
}

/// The lower-cased extension of a path, when one of the selected extensions
/// equals it without regard to ASCII case.
pub open spec fn selected_extension_of(p: Seq<char>, extensions: Seq<Seq<char>>) -> Option<Seq<char>> {
    match path_extension(p) {
        None => None,
        Some(e) => if exists|k: int|
            0 <= k < extensions.len() && ascii_lowercase(#[trigger] extensions[k]) == ascii_lowercase(e) {
            Some(ascii_lowercase(e))
        } else {
            None
        },
    }
}

/// The position of the last `.`.
fn find_last_dot(s: &[char]) -> (r: Option<usize>)
    ensures
        r matches Some(i) ==> last_dot(s@) == Some(i as int) && i < s@.len(),
        r is None ==> last_dot(s@) is None,
{
    let mut i = s.len();
    assert(s@.take(i as int) =~= s@);
    while i > 0
        invariant
            i <= s@.len(),
            last_dot(s@) == last_dot(s@.take(i as int)),
        decreases i,
    {
        proof {
            assert(s@.take(i as int).drop_last() =~= s@.take(i - 1));
            assert(s@.take(i as int).last() == s@[i - 1]);
        }
        if s[i - 1] == '.' {
            return Some(i - 1);
        }
        i -= 1;
    }
    assert(s@.take(0) =~= Seq::<char>::empty());
    None
}

/// The extension of a path (`Path::extension`).
pub fn extension_of(path: &str) -> (r: Option<Vec<char>>)
    ensures
        match path_extension(path@) {
            Some(e) => r matches Some(x) && x@ == e,
            None => r is None,
        },
{
    let cs = components_of(chars_of(path).as_slice());
    let n = cs.len();
    if n == 0 || cs[n - 1].0 != 3 {
        return None;
    }
    let name = &cs[n - 1].1;
    proof {
        assert(component_views(cs@).len() == n);
        assert(component_views(cs@)[n - 1] == (cs@[n - 1].0 as int, name@));
        assert(path_components(path@).last() == (cs@[n - 1].0 as int, name@));
    }
    let len = name.len();
    match find_last_dot(name.as_slice()) {
        Some(i) => {
            if i > 0 {
                let ext = crate::text::slice_chars(name.as_slice(), i + 1, len);
                assert(ext@ =~= name@.skip(i + 1));
                Some(ext)
            } else {
                None
            }
        },
        None => None,
    }
}

/// The lower-cased extension of a path when it is one of the selected
/// extensions, compared without regard to ASCII case.
pub fn selected_extension(path: &str, extensions: &[String]) -> (r: Option<String>)
    ensures
        match selected_extension_of(path@, string_views(extensions@)) {
            Some(e) => r matches Some(x) && x@ == e,
            None => r is None,
        },
{
    let ext = match extension_of(path) {
        Some(e) => e,
        None => return None,
    };
    let lower = ascii_lowercase_chars(ext.as_slice());
    let ghost views = string_views(extensions@);
    let mut k: usize = 0;
    while k < extensions.len()
        invariant
            k <= extensions@.len(),
            views == string_views(extensions@),
            lower@ == ascii_lowercase(ext@),
            path_extension(path@) == Some(ext@),
            forall|j: int| 0 <= j < k ==> ascii_lowercase(#[trigger] views[j]) != lower@,
        decreases extensions.len() - k,
    {
        let candidate = ascii_lowercase_chars(chars_of(extensions[k].as_str()).as_slice());
        proof {
            assert(views[k as int] == extensions@[k as int]@);
        }
        if chars_equal(candidate.as_slice(), lower.as_slice()) {
            assert(ascii_lowercase(views[k as int]) == ascii_lowercase(ext@));
            return Some(string_from_chars(lower.as_slice()));
        }
        k += 1;
    }
    None
}

/// The names of directories that recursive discovery does not enter.
pub open spec fn ignored_directories() -> Seq<Seq<char>> {
    seq![
        ".git"@,
        "node_modules"@,
        "target"@,
        "dist"@,
        "build"@,
        "coverage"@,
        ".next"@,
        ".nuxt"@,
        ".svelte-kit"@,
        ".idea"@,
        ".vscode"@,
    ]
}

/// The names of directories that recursive discovery does not enter.
pub fn ignored_directory_names() -> (r: Vec<&'static str>)
    ensures
        crate::language::registry::str_views(r@) == ignored_directories(),
{
    let r = vec![
        ".git",
        "node_modules",
        "target",
        "dist",
        "build",
        "coverage",
        ".next",
        ".nuxt",
        ".svelte-kit",
        ".idea",
        ".vscode",
    ];
    assert(crate::language::registry::str_views(r@) =~= ignored_directories());
    r
}

/// What recursive discovery knows of a directory entry.
pub struct WalkEntry {
    pub is_dir: Option<bool>,
    pub depth: usize,
    pub file_name: String,
}

/// Whether recursive discovery walks into an entry: anything but a directory
/// below the root whose lower-cased name is an ignored one.
pub open spec fn walks_entry(e: WalkEntry) -> bool {
    match e.is_dir {
        None => true,
        Some(dir) => !dir || e.depth == 0 || !ignored_directories().contains(ascii_lowercase(e.file_name@)),
    }
}

/// Recursive discovery walks into every entry but a directory below the
/// root whose ASCII lower-cased name is one of the ignored names; other
/// directories, hidden ones such as `.github` among them, are walked.
pub proof fn lemma_walked_entries(e: WalkEntry)
    ensures
        walks_entry(e) <==> !(e.is_dir == Some(true) && e.depth > 0 && ignored_directories().contains(
            ascii_lowercase(e.file_name@),
        )),
{
}

/// Whether recursive discovery walks into an entry.
pub fn should_walk_entry(entry: &WalkEntry) -> (r: bool)
    ensures
        r == walks_entry(*entry),
{
    match entry.is_dir {
        None => true,
        Some(dir) => {
            if !dir || entry.depth == 0 {
                return true;
            }
            let name = ascii_lowercase_chars(chars_of(entry.file_name.as_str()).as_slice());
            let ignored = ignored_directory_names();
            let ghost views = crate::language::registry::str_views(ignored@);
            let mut k: usize = 0;
            while k < ignored.len()
                invariant
                    k <= ignored@.len(),
                    views == crate::language::registry::str_views(ignored@),
                    views == ignored_directories(),
                    name@ == ascii_lowercase(entry.file_name@),
                    entry.is_dir == Some(true),
                    entry.depth != 0,
                    forall|j: int| 0 <= j < k ==> #[trigger] views[j] != name@,
                decreases ignored.len() - k,
            {
                proof {
                    assert(views[k as int] == ignored@[k as int]@);
                }
                if chars_equal(chars_of(ignored[k]).as_slice(), name.as_slice()) {
                    assert(views[k as int] == name@);
                    assert(ignored_directories().contains(ascii_lowercase(entry.file_name@)));
                    return false;
                }
                k += 1;
            }
            proof {
                if views.contains(name@) {
                    let j = choose|j: int| 0 <= j < views.len() && views[j] == name@;
                    assert(views[j] != name@);
                }
            }
            true
        },
    }
}

/// The display path of a file found under `root`: its path below the root,
/// or its whole path, made a display path.
pub open spec fn walked_display_path(root: Seq<char>, path: Seq<char>) -> Seq<char> {
    match stripped_path(path, root) {
        Some(rest) => normalized_display(rest),
        None => normalized_display(path),
    }
}

/// The source file for a file that recursive discovery found, when its
/// extension is selected.
pub fn source_file_from_entry(root: &str, extensions: &[String], path: &str, is_file: bool) -> (r: Option<SourceFile>)
    ensures
        !is_file ==> r is None,
        is_file ==> match selected_extension_of(path@, string_views(extensions@)) {
            None => r is None,
            Some(e) => r matches Some(f) && f.path@ == path@ && f.extension@ == e && f.display_path@
                == walked_display_path(root@, path@),
        },
{
    if !is_file {
        return None;
    }
    let extension = match selected_extension(path, extensions) {
        Some(e) => e,
        None => return None,
    };
    let display_path = match strip_path_prefix(path, root) {
        Some(rest) => normalize_display_path(rest.as_str()),
        None => normalize_display_path(path),
    };
    let mut owned = String::new();
    push_str(&mut owned, path);
    Some(SourceFile { path: owned, display_path, extension })
}

/// The path an explicitly named file is read from: the name itself when it
/// is absolute, otherwise below the current directory.
pub fn explicit_input_path(current_dir: &str, file: &str) -> (p: String)
    ensures
        p@ == joined_path(current_dir@, file@),
{
    join_path(current_dir, file)
}

/// What the metadata of an explicitly named path says it is.
#[derive(Debug, Clone, Copy, PartialEq, Eq, Structural)]
pub enum FileKind {
    SymbolicLink,
    Directory,
    File,
    Other,
}

/// Accepts a regular file; refuses a symbolic link, a directory or anything
/// else that is not a file, naming the path as given.
pub fn validate_explicit_file_metadata(file: &str, kind: FileKind) -> (r: Result<(), CodeM8Error>)
    ensures
        kind == FileKind::File ==> r is Ok,
        kind == FileKind::SymbolicLink ==> (r matches Err(e) && e.message_view()
            == "explicit file is a symbolic link and will not be followed: "@ + path_key(file@)),
        kind == FileKind::Directory ==> (r matches Err(e) && e.message_view() == "explicit file is a directory: "@
            + path_key(file@)),
        kind == FileKind::Other ==> (r matches Err(e) && e.message_view() == "explicit path is not a file: "@
            + path_key(file@)),
        r matches Err(e) ==> !e.shows_help(),
{
    let shown = format_path(file);
    let prefix = match kind {
        FileKind::File => return Ok(()),
        FileKind::SymbolicLink => "explicit file is a symbolic link and will not be followed: ",
        FileKind::Directory => "explicit file is a directory: ",
        FileKind::Other => "explicit path is not a file: ",
    };
    let mut message = String::new();
    push_str(&mut message, prefix);
    push_str(&mut message, shown.as_str());
    Err(CodeM8Error::new(message))
}

/// The error when the metadata of an explicitly named path cannot be read:
/// a missing path is named as given, other failures as read.
pub fn explicit_metadata_error(file: &str, path: &str, not_found: bool, error: &str) -> (e: CodeM8Error)
    ensures
        not_found ==> e.message_view() == "explicit file does not exist: "@ + path_key(file@),
        !not_found ==> e.message_view() == "could not "@ + "read explicit file metadata"@ + " "@ + path_key(path@)
            + ": "@ + error@,
        !e.shows_help(),
{
    if not_found {
        let shown = format_path(file);
        let mut message = String::new();
        push_str(&mut message, "explicit file does not exist: ");
        push_str(&mut message, shown.as_str());
        CodeM8Error::new(message)
    } else {
        CodeM8Error::io(path, "read explicit file metadata", error)
    }
}

/// How an explicitly named file is displayed: an absolute name below the
/// current directory relative to it, otherwise the name as given, each made
/// a display path.
pub open spec fn explicit_display(file: Seq<char>, canonical_path: Seq<char>, canonical_current_dir: Seq<char>) -> Seq<char> {
    if is_absolute(file) {
        match stripped_path(canonical_path, canonical_current_dir) {
            Some(rest) => normalized_display(rest),
            None => normalized_display(file),
        }
    } else {
        normalized_display(file)
    }
}

/// How an explicitly named file is displayed.
pub fn explicit_display_path(file: &str, canonical_path: &str, canonical_current_dir: &str) -> (p: String)
    ensures
        p@ == explicit_display(file@, canonical_path@, canonical_current_dir@),
{
    let chars = chars_of(file);
    if chars.len() > 0 && chars[0] == '/' {
        match strip_path_prefix(canonical_path, canonical_current_dir) {
            Some(rest) => normalize_display_path(rest.as_str()),
            None => normalize_display_path(file),
        }
    } else {
        normalize_display_path(file)
    }
}

/// Explicitly named source files, each kept once by its resolved path.
pub struct ExplicitFiles {
    seen: Vec<String>,
    files: Vec<SourceFile>,
}

impl ExplicitFiles {
    /// The resolved paths of the files kept so far.
    pub closed spec fn seen_view(&self) -> Seq<Seq<char>> {
        string_views(self.seen@)
    }

    /// The files kept so far.
    pub closed spec fn files_view(&self) -> Seq<SourceFile> {
        self.files@
    }

    /// No file yet.
    pub fn new() -> (s: Self)
        ensures
            s.seen_view() == Seq::<Seq<char>>::empty(),
            s.files_view() == Seq::<SourceFile>::empty(),
    {
        let s = ExplicitFiles { seen: Vec::new(), files: Vec::new() };
        assert(string_views(s.seen@) =~= Seq::<Seq<char>>::empty());
        s
    }

    /// Keeps an explicitly named file with a selected extension unless a
    /// file with the same resolved path was kept; returns whether it was.
    pub fn accept(&mut self, file: &str, canonical_path: &str, extension: String, canonical_current_dir: &str) -> (kept: bool)
        ensures
            kept == !(exists|k: int| 0 <= k < old(self).seen_view().len() && crate::paths::same_path(
                #[trigger] old(self).seen_view()[k],
                canonical_path@,
            )),
            kept ==> final(self).seen_view() == old(self).seen_view().push(canonical_path@),
            kept ==> final(self).files_view() == old(self).files_view().push(
                SourceFile {
                    path: final(self).files_view().last().path,
                    display_path: final(self).files_view().last().display_path,
                    extension,
                },
            ),
            kept ==> final(self).files_view().last().path@ == canonical_path@,
            kept ==> final(self).files_view().last().display_path@ == explicit_display(
                file@,
                canonical_path@,
                canonical_current_dir@,
            ),
            !kept ==> *final(self) == *old(self),
    {
        let ghost views = string_views(self.seen@);
        let mut k: usize = 0;
        while k < self.seen.len()
            invariant
                k <= self.seen@.len(),
                *self == *old(self),
                views == string_views(self.seen@),
                forall|j: int| 0 <= j < k ==> !crate::paths::same_path(#[trigger] views[j], canonical_path@),
            decreases self.seen.len() - k,
        {
            if crate::paths::compare_paths(self.seen[k].as_str(), canonical_path) == Comparison3::Equal {
                assert(views[k as int] == self.seen@[k as int]@);
                assert(old(self).seen_view() == views);
                assert(crate::paths::same_path(old(self).seen_view()[k as int], canonical_path@));
                return false;
            }
            k += 1;
        }
        let display_path = explicit_display_path(file, canonical_path, canonical_current_dir);
        let mut seen_path = String::new();
        push_str(&mut seen_path, canonical_path);
        let mut path = String::new();
        push_str(&mut path, canonical_path);
        let ghost before = string_views(self.seen@);
        self.seen.push(seen_path);
        assert(string_views(self.seen@) =~= before.push(canonical_path@));
        self.files.push(SourceFile { path, display_path, extension });
        true
    }

    /// The files kept, in the order they were named.
    pub fn into_files(self) -> (r: Vec<SourceFile>)
        ensures
            r@ == self.files_view(),
    {
        self.files
    }
}

/// The source files in ascending order of their display keys.
pub fn sort_source_files(files: Vec<SourceFile>) -> (r: Vec<SourceFile>)
    ensures
        r@.to_multiset() == files@.to_multiset(),
        forall|i: int, j: int|
            0 <= i < j < r@.len() ==> text_le(path_key(#[trigger] r@[i].display_path@), path_key(#[trigger] r@[j].display_path@)),
{
    let mut sorted: Vec<SourceFile> = Vec::new();
    let mut keys: Vec<Vec<char>> = Vec::new();
    let mut rest = files;
    let ghost all = rest@;
    let ghost mut taken: Seq<SourceFile> = Seq::empty();
    proof {
        assert(all =~= taken + rest@);
    }
    while rest.len() > 0
        invariant
            all == taken + rest@,
            sorted@.to_multiset() == taken.to_multiset(),
            keys@.len() == sorted@.len(),
            forall|k: int| 0 <= k < keys@.len() ==> #[trigger] keys@[k]@ == path_key(sorted@[k].display_path@),
            forall|i: int, j: int|
                0 <= i < j < sorted@.len() ==> text_le(path_key(#[trigger] sorted@[i].display_path@), path_key(#[trigger] sorted@[j].display_path@)),
        decreases rest@.len(),
    {
        let ghost before_rest = rest@;
        let file = rest.remove(0);
        proof {
            assert(file == before_rest[0]);
            assert(taken.push(file) + rest@ =~= taken + before_rest);
        }
        let key = path_key_chars(chars_of(file.display_path.as_str()).as_slice());
        let mut j: usize = 0;
        while j < sorted.len() && compare_chars(keys[j].as_slice(), key.as_slice()) != Comparison3::Greater
            invariant
                j <= sorted@.len(),
                keys@.len() == sorted@.len(),
                forall|k: int| 0 <= k < keys@.len() ==> #[trigger] keys@[k]@ == path_key(sorted@[k].display_path@),
                forall|t: int| 0 <= t < j ==> !text_lt(key@, #[trigger] keys@[t]@),
            decreases sorted.len() - j,
        {
            proof {
                crate::text::lemma_text_trichotomy(keys@[j as int]@, key@);
            }
            j += 1;
        }
        let ghost before = sorted@;
        let ghost before_keys = keys@;
        proof {
            if j < sorted.len() {
                assert(text_lt(key@, keys@[j as int]@));
            }
        }
        sorted.insert(j, file);
        keys.insert(j, key);
        proof {
            lemma_insert_to_multiset(before, j as int, file);
            let old_taken = taken;
            old_taken.to_multiset_ensures();
            taken = taken.push(file);
            assert(taken.to_multiset() =~= old_taken.to_multiset().insert(file));
            assert(sorted@ == before.insert(j as int, file));
            assert forall|k: int| 0 <= k < keys@.len() implies #[trigger] keys@[k]@ == path_key(sorted@[k].display_path@) by {
                if k < j {
                    assert(keys@[k] == before_keys[k] && sorted@[k] == before[k]);
                } else if k > j {
                    assert(keys@[k] == before_keys[k - 1] && sorted@[k] == before[k - 1]);
                }
            }
            assert forall|a: int, b: int| 0 <= a < b < sorted@.len() implies text_le(
                path_key(#[trigger] sorted@[a].display_path@),
                path_key(#[trigger] sorted@[b].display_path@),
            ) by {
                let ka = path_key(sorted@[a].display_path@);
                let kb = path_key(sorted@[b].display_path@);
                crate::text::lemma_text_trichotomy(ka, kb);
                if b < j {
                    assert(sorted@[a] == before[a] && sorted@[b] == before[b]);
                } else if b == j {
                    assert(sorted@[a] == before[a]);
                    assert(keys@[a] == before_keys[a]);
                    crate::text::lemma_text_trichotomy(key@, before_keys[a]@);
                } else if a < j {
                    assert(sorted@[a] == before[a] && sorted@[b] == before[b - 1]);
                } else if a == j {
                    assert(sorted@[b] == before[b - 1]);
                    assert(keys@[b] == before_keys[b - 1]);
                    crate::text::lemma_text_trichotomy(key@, before_keys[j as int]@);
                    crate::text::lemma_text_trichotomy(before_keys[j as int]@, before_keys[b - 1]@);
                    if b - 1 > j {
                        assert(text_le(path_key(before[j as int].display_path@), path_key(before[b - 1].display_path@)));
                        if text_lt(before_keys[j as int]@, before_keys[b - 1]@) {
                            crate::text::lemma_text_lt_transitive(key@, before_keys[j as int]@, before_keys[b - 1]@);
                        }
                    }
                } else {
                    assert(sorted@[a] == before[a - 1] && sorted@[b] == before[b - 1]);
                }
            }
        }
    }
    proof {
        assert(taken =~= all);
    }
    sorted
}

/// Inserting an element adds it to the multiset of a sequence.
pub proof fn lemma_insert_to_multiset<A>(s: Seq<A>, j: int, x: A)
    requires
        0 <= j <= s.len(),
    ensures
        s.insert(j, x).to_multiset() =~= s.to_multiset().insert(x),
{
    let t = s.insert(j, x);
    t.to_multiset_ensures();
    s.to_multiset_ensures();
    assert(t.remove(j) =~= s);
    assert(t[j] == x);
    assert(t.contains(x));
    assert(t.to_multiset().count(x) > 0);
    assert forall|y: A| #[trigger] t.to_multiset().count(y) == s.to_multiset().insert(x).count(y) by {
        assert(s.to_multiset() == t.to_multiset().remove(x));
    }
}

} // verus!
