//! Path text handling: display keys and component normalization.

use vstd::prelude::*;

use crate::text::{chars_of, compare_chars, Comparison3, lemma_split_on_nonempty, lemma_text_lt_transitive, lemma_text_trichotomy, split_on, string_from_chars, text_lt};

verus! {

/// The display form of a path: back slashes shown as forward slashes.
pub open spec fn path_key(path: Seq<char>) -> Seq<char> {
    path.map_values(|c: char| if c == '\\' { '/' } else { c })
}

/// Formats a path for output and comparison, with `/` as the separator.
pub fn format_path(path: &str) -> (out: String)
    ensures
        out@ == path_key(path@),
{
    let chars = chars_of(path);
    let key = path_key_chars(chars.as_slice());
    string_from_chars(key.as_slice())
}

/// `path_key` on a character sequence.
pub fn path_key_chars(path: &[char]) -> (out: Vec<char>)
    ensures
        out@ == path_key(path@),
{
    let mut out: Vec<char> = Vec::new();
    let mut i: usize = 0;
    while i < path.len()
        invariant
            i <= path.len(),
            out@ == path_key(path@.take(i as int)),
        decreases path.len() - i,
    {
        let c = path[i];
        if c == '\\' {
            out.push('/');
        } else {
            out.push(c);
        }
        i += 1;
        assert(path_key(path@.take(i as int)) =~= path_key(path@.take(i - 1)).push(
            if path@[i - 1] == '\\' { '/' } else { path@[i - 1] },
        ));
    }
    assert(path@.take(path.len() as int) =~= path@);
    out
}

} // verus!

verus! {

/// A path component: its rank in `Path` order (root, current directory,
/// parent directory, name) and its text.
pub type ComponentView = (int, Seq<char>);

/// The component that a piece between slashes makes, if any: empty pieces
/// and `.` pieces vanish, except a `.` that starts a relative path.
pub open spec fn component_of(piece: Seq<char>, first: bool, absolute: bool) -> Option<ComponentView> {
    if piece.len() == 0 {
        None
    } else if piece == seq!['.'] {
        if first && !absolute {
            Some((1, piece))
        } else {
            None
        }
    } else if piece == seq!['.', '.'] {
        Some((2, piece))
    } else {
        Some((3, piece))
    }
}

pub open spec fn pieces_components(pieces: Seq<Seq<char>>, absolute: bool) -> Seq<ComponentView>
    decreases pieces.len(),
{
    if pieces.len() == 0 {
        Seq::empty()
    } else {
        let earlier = pieces_components(pieces.drop_last(), absolute);
        match component_of(pieces.last(), pieces.len() == 1, absolute) {
            Some(c) => earlier.push(c),
            None => earlier,
        }
    }
}

/// Whether a path starts at the root.
pub open spec fn is_absolute(p: Seq<char>) -> bool {
    p.len() > 0 && p[0] == '/'
}

/// The components of a path, as `Path::components` yields them.
#[verifier::opaque]
pub open spec fn path_components(p: Seq<char>) -> Seq<ComponentView> {
    let root = if is_absolute(p) {
        seq![(0int, seq!['/'])]
    } else {
        Seq::empty()
    };
    root + pieces_components(split_on(p, '/'), is_absolute(p))
}

/// The order of components: by rank, names by text.
pub open spec fn component_lt(a: ComponentView, b: ComponentView) -> bool {
    a.0 < b.0 || (a.0 == b.0 && text_lt(a.1, b.1))
}

/// The lexicographic order of component sequences.
pub open spec fn components_lt(a: Seq<ComponentView>, b: Seq<ComponentView>) -> bool
    decreases a.len(),
{
    if a.len() == 0 {
        b.len() > 0
    } else if b.len() == 0 {
        false
    } else if a[0] != b[0] {
        component_lt(a[0], b[0])
    } else {
        components_lt(a.drop_first(), b.drop_first())
    }
}

/// The order of paths, as `Path` orders them.
pub open spec fn path_lt(a: Seq<char>, b: Seq<char>) -> bool {
    components_lt(path_components(a), path_components(b))
}

/// Two paths are equal as `Path`s.
pub open spec fn same_path(a: Seq<char>, b: Seq<char>) -> bool {
    path_components(a) == path_components(b)
}

proof fn lemma_component_trichotomy(a: ComponentView, b: ComponentView)
    ensures
        component_lt(a, b) || a == b || component_lt(b, a),
        !(component_lt(a, b) && component_lt(b, a)),
        !(component_lt(a, b) && a == b),
{
    lemma_text_trichotomy(a.1, b.1);
}

/// Exactly one of `a < b`, `a == b`, `b < a` holds for component sequences.
pub proof fn lemma_components_trichotomy(a: Seq<ComponentView>, b: Seq<ComponentView>)
    ensures
        components_lt(a, b) || a == b || components_lt(b, a),
        !(components_lt(a, b) && components_lt(b, a)),
        !(components_lt(a, b) && a == b),
    decreases a.len(),
{
    if a.len() > 0 && b.len() > 0 {
        lemma_component_trichotomy(a[0], b[0]);
        if a[0] == b[0] {
            lemma_components_trichotomy(a.drop_first(), b.drop_first());
            if a.drop_first() == b.drop_first() {
                assert(a =~= seq![a[0]] + a.drop_first());
                assert(b =~= seq![b[0]] + b.drop_first());
            }
        }
    }
}

/// The order of component sequences is transitive.
pub proof fn lemma_components_lt_transitive(a: Seq<ComponentView>, b: Seq<ComponentView>, c: Seq<ComponentView>)
    requires
        components_lt(a, b),
        components_lt(b, c),
    ensures
        components_lt(a, c),
    decreases a.len(),
{
    if a.len() > 0 && b.len() > 0 && c.len() > 0 {
        lemma_component_trichotomy(a[0], b[0]);
        lemma_component_trichotomy(b[0], c[0]);
        lemma_component_trichotomy(a[0], c[0]);
        if a[0] == b[0] && b[0] == c[0] {
            lemma_components_lt_transitive(a.drop_first(), b.drop_first(), c.drop_first());
        } else if component_lt(a[0], b[0]) && component_lt(b[0], c[0]) {
            if a[0].0 == b[0].0 && b[0].0 == c[0].0 {
                lemma_text_lt_transitive(a[0].1, b[0].1, c[0].1);
            }
        }
    }
}

} // verus!

verus! {

/// The texts joined with `sep` between them.
pub open spec fn join_with(texts: Seq<Seq<char>>, sep: char) -> Seq<char>
    decreases texts.len(),
{
    if texts.len() == 0 {
        Seq::empty()
    } else if texts.len() == 1 {
        texts[0]
    } else {
        join_with(texts.drop_last(), sep).push(sep) + texts.last()
    }
}

pub open spec fn component_texts(cs: Seq<ComponentView>) -> Seq<Seq<char>> {
    cs.map_values(|c: ComponentView| c.1)
}

/// The components written out: a root as a leading slash, the others
/// joined with slashes.
pub open spec fn components_text(cs: Seq<ComponentView>) -> Seq<char> {
    if cs.len() > 0 && cs[0].0 == 0 {
        seq!['/'] + join_with(component_texts(cs.drop_first()), '/')
    } else {
        join_with(component_texts(cs), '/')
    }
}

/// A display path: the components without a leading `.`, written out, or
/// `.` when nothing is left.
pub open spec fn normalized_display(p: Seq<char>) -> Seq<char> {
    let cs = path_components(p);
    let kept = if cs.len() > 0 && cs[0].0 == 1 {
        cs.drop_first()
    } else {
        cs
    };
    let text = components_text(kept);
    if text.len() == 0 {
        seq!['.']
    } else {
        text
    }
}

/// The rest of `path` after the components of `base`, written out, when
/// `base` is a prefix of it component by component.
pub open spec fn stripped_path(path: Seq<char>, base: Seq<char>) -> Option<Seq<char>> {
    let cp = path_components(path);
    let cb = path_components(base);
    if cb.len() <= cp.len() && cp.take(cb.len() as int) == cb {
        Some(components_text(cp.skip(cb.len() as int)))
    } else {
        None
    }
}

/// A component as the program holds it: rank and text.
pub type Component = (u8, Vec<char>);

pub open spec fn component_views(cs: Seq<Component>) -> Seq<ComponentView> {
    cs.map_values(|c: Component| (c.0 as int, c.1@))
}

/// The components of a path (`Path::components`).
pub fn components_of(p: &[char]) -> (cs: Vec<Component>)
    ensures
        component_views(cs@) == path_components(p@),
{
    proof {
        reveal(path_components);
    }
    let absolute = p.len() > 0 && p[0] == '/';
    let pieces = crate::text::split_chars(p, '/');
    let ghost views = crate::text::char_views(pieces@);
    let mut cs: Vec<Component> = Vec::new();
    if absolute {
        let mut slash: Vec<char> = Vec::new();
        slash.push('/');
        assert(slash@ =~= seq!['/']);
        cs.push((0u8, slash));
        assert(component_views(cs@) =~= seq![(0int, seq!['/'])]);
    } else {
        assert(component_views(cs@) =~= Seq::<ComponentView>::empty());
    }
    let ghost root = component_views(cs@);
    proof {
        assert(root =~= (if is_absolute(p@) { seq![(0int, seq!['/'])] } else { Seq::<ComponentView>::empty() }));
        assert(views.take(0) =~= Seq::<Seq<char>>::empty());
        assert(component_views(cs@) =~= root + pieces_components(views.take(0), absolute));
    }
    let mut i: usize = 0;
    while i < pieces.len()
        invariant
            i <= pieces@.len(),
            views == crate::text::char_views(pieces@),
            views == split_on(p@, '/'),
            absolute == is_absolute(p@),
            component_views(cs@) == root + pieces_components(views.take(i as int), absolute),
        decreases pieces.len() - i,
    {
        proof {
            assert(views.take(i + 1).drop_last() =~= views.take(i as int));
            assert(views.take(i + 1).last() == pieces@[i as int]@);
        }
        let piece = &pieces[i];
        let ghost before = component_views(cs@);
        if piece.len() == 0 {
        } else if piece.len() == 1 && piece[0] == '.' {
            assert(piece@ =~= seq!['.']);
            if i == 0 && !absolute {
                cs.push((1u8, piece.clone()));
                assert(component_views(cs@) =~= before.push((1int, piece@)));
            }
        } else if piece.len() == 2 && piece[0] == '.' && piece[1] == '.' {
            assert(piece@ =~= seq!['.', '.']);
            cs.push((2u8, piece.clone()));
            assert(component_views(cs@) =~= before.push((2int, piece@)));
        } else {
            assert(piece@ != seq!['.'] && piece@ != seq!['.', '.']);
            cs.push((3u8, piece.clone()));
            assert(component_views(cs@) =~= before.push((3int, piece@)));
        }
        i += 1;
    }
    proof {
        assert(views.take(i as int) =~= views);
    }
    cs
}

} // verus!

verus! {

/// Compares two component sequences in `Path` order.
pub fn compare_components(a: &Vec<Component>, b: &Vec<Component>) -> (r: Comparison3)
    ensures
        r == Comparison3::Less <==> components_lt(component_views(a@), component_views(b@)),
        r == Comparison3::Equal <==> component_views(a@) == component_views(b@),
        r == Comparison3::Greater <==> components_lt(component_views(b@), component_views(a@)),
{
    let ghost va = component_views(a@);
    let ghost vb = component_views(b@);
    proof {
        lemma_components_trichotomy(va, vb);
        assert(va.skip(0) =~= va);
        assert(vb.skip(0) =~= vb);
    }
    let mut i: usize = 0;
    while i < a.len() && i < b.len()
        invariant
            i <= a@.len(),
            i <= b@.len(),
            va == component_views(a@),
            vb == component_views(b@),
            va.take(i as int) == vb.take(i as int),
            components_lt(va, vb) == components_lt(va.skip(i as int), vb.skip(i as int)),
            components_lt(vb, va) == components_lt(vb.skip(i as int), va.skip(i as int)),
        decreases a.len() - i,
    {
        let ra = a[i].0;
        let rb = b[i].0;
        let c = if ra < rb {
            Comparison3::Less
        } else if ra > rb {
            Comparison3::Greater
        } else {
            compare_chars(a[i].1.as_slice(), b[i].1.as_slice())
        };
        proof {
            assert(va.skip(i as int)[0] == va[i as int]);
            assert(vb.skip(i as int)[0] == vb[i as int]);
            lemma_component_trichotomy(va[i as int], vb[i as int]);
            lemma_components_trichotomy(va, vb);
        }
        match c {
            Comparison3::Less => {
                proof {
                    if va == vb {
                        assert(va[i as int] == vb[i as int]);
                    }
                }
                return Comparison3::Less;
            },
            Comparison3::Greater => {
                proof {
                    if va == vb {
                        assert(va[i as int] == vb[i as int]);
                    }
                }
                return Comparison3::Greater;
            },
            Comparison3::Equal => {},
        }
        proof {
            assert(va[i as int] == vb[i as int]);
            assert(va.skip(i as int).drop_first() =~= va.skip(i + 1));
            assert(vb.skip(i as int).drop_first() =~= vb.skip(i + 1));
            assert(va.take(i + 1) =~= va.take(i as int).push(va[i as int]));
            assert(vb.take(i + 1) =~= vb.take(i as int).push(vb[i as int]));
        }
        i += 1;
    }
    proof {
        lemma_components_trichotomy(va, vb);
    }
    if a.len() == b.len() {
        assert(va =~= va.take(i as int));
        assert(vb =~= vb.take(i as int));
        Comparison3::Equal
    } else if a.len() < b.len() {
        assert(va.skip(i as int).len() == 0);
        assert(va != vb) by {
            assert(va.len() != vb.len());
        }
        Comparison3::Less
    } else {
        assert(vb.skip(i as int).len() == 0);
        assert(va != vb) by {
            assert(va.len() != vb.len());
        }
        Comparison3::Greater
    }
}

/// Compares two paths in `Path` order.
pub fn compare_paths(a: &str, b: &str) -> (r: Comparison3)
    ensures
        r == Comparison3::Less <==> path_lt(a@, b@),
        r == Comparison3::Equal <==> same_path(a@, b@),
        r == Comparison3::Greater <==> path_lt(b@, a@),
{
    let ca = components_of(chars_of(a).as_slice());
    let cb = components_of(chars_of(b).as_slice());
    compare_components(&ca, &cb)
}

/// The texts of components joined with slashes.
fn join_component_texts(cs: &Vec<Component>, start: usize) -> (out: Vec<char>)
    requires
        start <= cs@.len(),
    ensures
        out@ == join_with(component_texts(component_views(cs@).skip(start as int)), '/'),
{
    let ghost texts = component_texts(component_views(cs@).skip(start as int));
    let mut out: Vec<char> = Vec::new();
    let mut i = start;
    proof {
        assert(texts.take(0) =~= Seq::<Seq<char>>::empty());
    }
    while i < cs.len()
        invariant
            start <= i <= cs@.len(),
            texts == component_texts(component_views(cs@).skip(start as int)),
            texts.len() == cs@.len() - start,
            out@ == join_with(texts.take(i - start), '/'),
        decreases cs.len() - i,
    {
        let ghost before = out@;
        proof {
            assert(texts.take(i - start + 1).drop_last() =~= texts.take(i - start));
            assert(texts.take(i - start + 1).last() == cs@[i as int].1@);
        }
        if i > start {
            out.push('/');
        }
        let mut piece = cs[i].1.clone();
        out.append(&mut piece);
        proof {
            if i == start {
                assert(out@ =~= texts.take(1)[0]);
            } else {
                assert(out@ =~= before.push('/') + cs@[i as int].1@);
            }
        }
        i += 1;
    }
    proof {
        assert(texts.take(i - start) =~= texts);
    }
    out
}

/// The components written out.
fn components_text_of(cs: &Vec<Component>, start: usize) -> (out: Vec<char>)
    requires
        start <= cs@.len(),
    ensures
        out@ == components_text(component_views(cs@).skip(start as int)),
{
    let ghost rest = component_views(cs@).skip(start as int);
    if start < cs.len() && cs[start].0 == 0 {
        let mut out: Vec<char> = Vec::new();
        out.push('/');
        let mut tail = join_component_texts(cs, start + 1);
        proof {
            assert(rest.drop_first() =~= component_views(cs@).skip(start + 1));
        }
        out.append(&mut tail);
        out
    } else {
        join_component_texts(cs, start)
    }
}

/// A path for display: `.` components after the start dropped, empty
/// components dropped, a leading `./` dropped, and `.` for nothing.
pub fn normalize_display_path(path: &str) -> (out: String)
    ensures
        out@ == normalized_display(path@),
{
    let cs = components_of(chars_of(path).as_slice());
    let start: usize = if cs.len() > 0 && cs[0].0 == 1 { 1 } else { 0 };
    proof {
        assert(component_views(cs@).skip(0) =~= component_views(cs@));
    }
    let text = components_text_of(&cs, start);
    if text.len() == 0 {
        let mut dot: Vec<char> = Vec::new();
        dot.push('.');
        assert(dot@ =~= seq!['.']);
        string_from_chars(dot.as_slice())
    } else {
        string_from_chars(text.as_slice())
    }
}

/// `Path::strip_prefix`: the rest of `path` after `base`, when `base` is a
/// prefix of it component by component.
pub fn strip_path_prefix(path: &str, base: &str) -> (r: Option<String>)
    ensures
        match stripped_path(path@, base@) {
            Some(rest) => r matches Some(s) && s@ == rest,
            None => r is None,
        },
{
    let cp = components_of(chars_of(path).as_slice());
    let cb = components_of(chars_of(base).as_slice());
    let ghost vp = component_views(cp@);
    let ghost vb = component_views(cb@);
    if cb.len() > cp.len() {
        return None;
    }
    let mut i: usize = 0;
    while i < cb.len()
        invariant
            i <= cb@.len() <= cp@.len(),
            vp == component_views(cp@),
            vb == component_views(cb@),
            vp == path_components(path@),
            vb == path_components(base@),
            vp.take(i as int) == vb.take(i as int),
        decreases cb.len() - i,
    {
        if cp[i].0 != cb[i].0 || !crate::text::chars_equal(cp[i].1.as_slice(), cb[i].1.as_slice()) {
            proof {
                assert(vp[i as int] != vb[i as int]);
                assert(vp.take(vb.len() as int)[i as int] == vp[i as int]);
                assert(vp.take(vb.len() as int) != vb);
            }
            return None;
        }
        proof {
            assert(vp.take(i + 1) =~= vp.take(i as int).push(vp[i as int]));
            assert(vb.take(i + 1) =~= vb.take(i as int).push(vb[i as int]));
        }
        i += 1;
    }
    assert(vb.take(i as int) =~= vb);
    let text = components_text_of(&cp, cb.len());
    Some(string_from_chars(text.as_slice()))
}

/// `Path::join`: `file` itself when it is absolute, otherwise `base`, a
/// slash unless `base` is empty or ends with one, and `file`.
pub open spec fn joined_path(base: Seq<char>, file: Seq<char>) -> Seq<char> {
    if is_absolute(file) {
        file
    } else if base.len() == 0 || base.last() == '/' {
        base + file
    } else {
        base.push('/') + file
    }
}

/// `Path::join`.
pub fn join_path(base: &str, file: &str) -> (out: String)
    ensures
        out@ == joined_path(base@, file@),
{
    let f = chars_of(file);
    if f.len() > 0 && f[0] == '/' {
        return string_from_chars(f.as_slice());
    }
    let mut out = chars_of(base);
    if out.len() > 0 && out[out.len() - 1] != '/' {
        out.push('/');
    }
    let mut tail = f;
    out.append(&mut tail);
    string_from_chars(out.as_slice())
}

} // verus!

verus! {

/// A component that names a file or directory, or goes up one level.
pub open spec fn name_component(c: ComponentView) -> bool {
    ||| c.0 == 2 && c.1 == seq!['.', '.']
    ||| c.0 == 3 && c.1.len() > 0 && c.1 != seq!['.'] && c.1 != seq!['.', '.'] && !c.1.contains('/')
}

/// The components that a display path keeps: all but a leading `.`.
pub open spec fn display_components(p: Seq<char>) -> Seq<ComponentView> {
    let cs = path_components(p);
    if cs.len() > 0 && cs[0].0 == 1 {
        cs.drop_first()
    } else {
        cs
    }
}

/// No piece of a split holds the separator.
proof fn lemma_split_pieces_free(s: Seq<char>, sep: char)
    ensures
        forall|i: int| 0 <= i < split_on(s, sep).len() ==> !(#[trigger] split_on(s, sep)[i]).contains(sep),
    decreases s.len(),
{
    lemma_split_on_nonempty(s, sep);
    if s.len() > 0 {
        let rest = split_on(s.drop_last(), sep);
        lemma_split_pieces_free(s.drop_last(), sep);
        lemma_split_on_nonempty(s.drop_last(), sep);
        if s.last() != sep {
            let last = rest.last().push(s.last());
            assert forall|k: int| 0 <= k < last.len() implies last[k] != sep by {
                if k < rest.last().len() {
                    assert(last[k] == rest.last()[k]);
                    assert(rest[rest.len() - 1] == rest.last());
                }
            }
        }
    }
}

/// Appending text without separators extends the last piece.
proof fn lemma_split_append(a: Seq<char>, b: Seq<char>, sep: char)
    requires
        !b.contains(sep),
    ensures
        split_on(a + b, sep) == split_on(a, sep).update(
            split_on(a, sep).len() - 1,
            split_on(a, sep).last() + b,
        ),
    decreases b.len(),
{
    lemma_split_on_nonempty(a, sep);
    if b.len() == 0 {
        assert(a + b =~= a);
        assert(split_on(a, sep).last() + b =~= split_on(a, sep).last());
        assert(split_on(a, sep).update(split_on(a, sep).len() - 1, split_on(a, sep).last()) =~= split_on(a, sep));
    } else {
        let c = b.last();
        assert(b.drop_last().len() < b.len());
        assert(!b.drop_last().contains(sep)) by {
            if b.drop_last().contains(sep) {
                let k = choose|k: int| 0 <= k < b.drop_last().len() && b.drop_last()[k] == sep;
                assert(b[k] == sep);
            }
        }
        lemma_split_append(a, b.drop_last(), sep);
        assert((a + b).drop_last() =~= a + b.drop_last());
        assert((a + b).last() == c);
        assert(c != sep) by {
            assert(b[b.len() - 1] == c);
        }
        assert((split_on(a, sep).last() + b.drop_last()).push(c) =~= split_on(a, sep).last() + b);
        assert(split_on(a + b, sep) =~= split_on(a, sep).update(split_on(a, sep).len() - 1, split_on(a, sep).last() + b));
    }
}

/// A separator and then text without separators adds one piece.
proof fn lemma_split_sep_then(x: Seq<char>, b: Seq<char>, sep: char)
    requires
        !b.contains(sep),
    ensures
        split_on(x.push(sep) + b, sep) == split_on(x, sep).push(b),
{
    lemma_split_append(x.push(sep), b, sep);
    assert(x.push(sep).drop_last() =~= x);
    let pieces = split_on(x.push(sep), sep);
    assert(pieces == split_on(x, sep).push(Seq::<char>::empty()));
    assert(pieces.last() + b =~= b);
    assert(pieces.update(pieces.len() - 1, b) =~= split_on(x, sep).push(b));
}

/// Texts without separators, joined and split again.
proof fn lemma_split_join(texts: Seq<Seq<char>>, sep: char)
    requires
        texts.len() >= 1,
        forall|i: int| 0 <= i < texts.len() ==> !(#[trigger] texts[i]).contains(sep),
    ensures
        split_on(join_with(texts, sep), sep) == texts,
        split_on(seq![sep] + join_with(texts, sep), sep) == seq![Seq::<char>::empty()] + texts,
    decreases texts.len(),
{
    let e = Seq::<char>::empty();
    if texts.len() == 1 {
        lemma_split_append(e, texts[0], sep);
        assert(e + texts[0] =~= texts[0]);
        assert(split_on(e, sep) == seq![e]);
        assert(seq![e].update(0, e + texts[0]) =~= texts);
        lemma_split_sep_then(e, texts[0], sep);
        assert(e.push(sep) + texts[0] =~= seq![sep] + join_with(texts, sep));
        assert(seq![e].push(texts[0]) =~= seq![e] + texts);
    } else {
        let dl = texts.drop_last();
        assert forall|i: int| 0 <= i < dl.len() implies !(#[trigger] dl[i]).contains(sep) by {
            assert(dl[i] == texts[i]);
        }
        lemma_split_join(dl, sep);
        assert(texts[texts.len() - 1] == texts.last());
        lemma_split_sep_then(join_with(dl, sep), texts.last(), sep);
        assert(dl.push(texts.last()) =~= texts);
        lemma_split_sep_then(seq![sep] + join_with(dl, sep), texts.last(), sep);
        assert((seq![sep] + join_with(dl, sep)).push(sep) + texts.last() =~= seq![sep] + join_with(texts, sep));
        assert((seq![e] + dl).push(texts.last()) =~= seq![e] + texts);
    }
}

/// Joined texts start with the first character of the first text.
proof fn lemma_join_first(texts: Seq<Seq<char>>, sep: char)
    requires
        texts.len() >= 1,
        texts[0].len() > 0,
    ensures
        join_with(texts, sep).len() > 0,
        join_with(texts, sep)[0] == texts[0][0],
    decreases texts.len(),
{
    if texts.len() > 1 {
        lemma_join_first(texts.drop_last(), sep);
    }
}

/// The components of name texts are the names again.
proof fn lemma_pieces_of_names(names: Seq<ComponentView>, absolute: bool)
    requires
        forall|i: int| 0 <= i < names.len() ==> name_component(#[trigger] names[i]),
    ensures
        pieces_components(component_texts(names), absolute) == names,
    decreases names.len(),
{
    if names.len() > 0 {
        let dl = names.drop_last();
        assert forall|i: int| 0 <= i < dl.len() implies name_component(#[trigger] dl[i]) by {
            assert(dl[i] == names[i]);
        }
        lemma_pieces_of_names(dl, absolute);
        assert(component_texts(names).drop_last() =~= component_texts(dl));
        assert(names[names.len() - 1] == names.last());
        assert(component_texts(names).last() == names.last().1);
        assert(dl.push(names.last()) =~= names);
    }
}

/// The components of name texts after an empty piece are the names again.
proof fn lemma_pieces_after_empty(names: Seq<ComponentView>)
    requires
        forall|i: int| 0 <= i < names.len() ==> name_component(#[trigger] names[i]),
    ensures
        pieces_components(seq![Seq::<char>::empty()] + component_texts(names), true) == names,
    decreases names.len(),
{
    let e = Seq::<char>::empty();
    if names.len() == 0 {
        assert(seq![e] + component_texts(names) =~= seq![e]);
        assert(seq![e].drop_last() =~= Seq::<Seq<char>>::empty());
        assert(component_of(e, true, true) is None);
        assert(pieces_components(seq![e], true) == pieces_components(Seq::<Seq<char>>::empty(), true));
    } else {
        let dl = names.drop_last();
        assert forall|i: int| 0 <= i < dl.len() implies name_component(#[trigger] dl[i]) by {
            assert(dl[i] == names[i]);
        }
        lemma_pieces_after_empty(dl);
        assert((seq![e] + component_texts(names)).drop_last() =~= seq![e] + component_texts(dl));
        assert(names[names.len() - 1] == names.last());
        assert((seq![e] + component_texts(names)).last() == names.last().1);
        assert(name_component(names.last()));
        assert(component_of(names.last().1, false, true) == Some(names.last()));
        assert(dl.push(names.last()) =~= names);
    }
}

/// The components of pieces without slashes: names, and perhaps a leading
/// `.` of a relative path.
proof fn lemma_pieces_shape(pieces: Seq<Seq<char>>, absolute: bool)
    requires
        forall|i: int| 0 <= i < pieces.len() ==> !(#[trigger] pieces[i]).contains('/'),
    ensures
        forall|i: int|
            0 <= i < pieces_components(pieces, absolute).len() ==> name_component(
                #[trigger] pieces_components(pieces, absolute)[i],
            ) || (i == 0 && !absolute && pieces_components(pieces, absolute)[i] == (1int, seq!['.'])),
    decreases pieces.len(),
{
    if pieces.len() > 0 {
        let dl = pieces.drop_last();
        assert forall|i: int| 0 <= i < dl.len() implies !(#[trigger] dl[i]).contains('/') by {
            assert(dl[i] == pieces[i]);
        }
        lemma_pieces_shape(dl, absolute);
        assert(pieces[pieces.len() - 1] == pieces.last());
        let earlier = pieces_components(dl, absolute);
        let last = pieces.last();
        if pieces.len() == 1 {
            assert(dl =~= Seq::<Seq<char>>::empty());
        }
        match component_of(last, pieces.len() == 1, absolute) {
            Some(c) => {
                assert(pieces_components(pieces, absolute) == earlier.push(c));
                if c.0 != 1 {
                    assert(name_component(c)) by {
                        if c.0 == 3 {
                            assert(!last.contains('/'));
                        }
                    }
                }
                assert forall|i: int| 0 <= i < earlier.push(c).len() implies name_component(
                    #[trigger] earlier.push(c)[i],
                ) || (i == 0 && !absolute && earlier.push(c)[i] == (1int, seq!['.'])) by {
                    if i < earlier.len() {
                        assert(earlier.push(c)[i] == earlier[i]);
                    }
                }
            },
            None => {},
        }
    }
}

/// A display path is never empty and normalizing it again keeps it; its
/// components are those of the path without a leading `.`, none of them a
/// current-directory component, and it is `.` when no component is left.
pub proof fn lemma_normalized_display(p: Seq<char>)
    ensures
        normalized_display(p).len() > 0,
        forall|i: int| 0 <= i < display_components(p).len() ==> (#[trigger] display_components(p)[i]).0 != 1,
        normalized_display(p) != seq!['.'] ==> forall|i: int|
            0 <= i < path_components(normalized_display(p)).len() ==> (#[trigger] path_components(
                normalized_display(p),
            )[i]).0 != 1,
        normalized_display(normalized_display(p)) == normalized_display(p),
        display_components(p).len() > 0 ==> path_components(normalized_display(p)) == display_components(p),
        display_components(p).len() == 0 ==> normalized_display(p) == seq!['.'],
{
    reveal(path_components);
    let e = Seq::<char>::empty();
    let pieces = split_on(p, '/');
    lemma_split_pieces_free(p, '/');
    lemma_pieces_shape(pieces, is_absolute(p));
    let pc = pieces_components(pieces, is_absolute(p));
    let d = display_components(p);
    let dot = seq!['.'];
    // The components of `.`: a single current-directory component.
    assert(split_on(dot, '/') == seq![dot]) by {
        assert(dot.drop_last() =~= e);
        assert(split_on(e, '/') == seq![e]);
        assert(e.push('.') =~= dot);
        assert(seq![e].update(0, e.push('.')) =~= seq![dot]);
    }
    assert(component_of(dot, true, false) == Some((1int, dot)));
    assert(seq![dot].drop_last() =~= Seq::<Seq<char>>::empty());
    assert(!is_absolute(dot));
    assert(seq![dot].last() == dot);
    assert(seq![dot].drop_last() =~= Seq::<Seq<char>>::empty());
    assert(pieces_components(Seq::<Seq<char>>::empty(), false) =~= Seq::<ComponentView>::empty());
    assert(pieces_components(seq![dot], false) =~= seq![(1int, dot)]);
    assert(path_components(dot) =~= seq![(1int, dot)]);
    if is_absolute(p) {
        let root = (0int, seq!['/']);
        assert(path_components(p) == seq![root] + pc);
        assert(d == seq![root] + pc);
        assert(d.drop_first() =~= pc);
        let text = seq!['/'] + join_with(component_texts(pc), '/');
        assert(components_text(d) == text);
        assert forall|i: int| 0 <= i < pc.len() implies name_component(#[trigger] pc[i]) by {}
        if pc.len() == 0 {
            assert(text =~= seq!['/']);
            assert(split_on(text, '/') =~= seq![e, e]) by {
                assert(text.drop_last() =~= e);
                assert(text.last() == '/');
                assert(split_on(e, '/') == seq![e]);
                assert(seq![e].push(e) =~= seq![e, e]);
            }
            assert(seq![e, e].drop_last() =~= seq![e]);
            assert(seq![e].drop_last() =~= Seq::<Seq<char>>::empty());
            assert(pieces_components(Seq::<Seq<char>>::empty(), true) =~= Seq::<ComponentView>::empty());
            assert(component_of(e, true, true) is None);
            assert(component_of(e, false, true) is None);
            assert(pieces_components(seq![e], true) =~= Seq::<ComponentView>::empty());
            assert(pieces_components(seq![e, e], true) =~= Seq::<ComponentView>::empty());
            assert(path_components(text) =~= seq![root]);
        } else {
            let texts = component_texts(pc);
            assert forall|i: int| 0 <= i < texts.len() implies !(#[trigger] texts[i]).contains('/') by {
                assert(name_component(pc[i]));
            }
            lemma_split_join(texts, '/');
            lemma_pieces_after_empty(pc);
            assert(path_components(text) == seq![root] + pc);
        }
        assert(path_components(text) == d);
        assert forall|i: int| 0 <= i < d.len() implies (#[trigger] d[i]).0 != 1 by {
            if i > 0 {
                assert(d[i] == pc[i - 1]);
                assert(name_component(pc[i - 1]));
            }
        }
    } else {
        assert(path_components(p) == pc);
        assert forall|i: int| 0 <= i < d.len() implies name_component(#[trigger] d[i]) by {
            if pc.len() > 0 && pc[0].0 == 1 {
                assert(d[i] == pc[i + 1]);
            }
        }
        if d.len() > 0 {
            let texts = component_texts(d);
            assert forall|i: int| 0 <= i < texts.len() implies !(#[trigger] texts[i]).contains('/') by {
                assert(name_component(d[i]));
            }
            assert(name_component(d[0]));
            assert(d[0].0 != 0);
            let text = join_with(texts, '/');
            assert(components_text(d) == text);
            lemma_join_first(texts, '/');
            assert(texts[0] == d[0].1);
            assert(text[0] != '/') by {
                assert(d[0].1[0] == text[0]);
                if text[0] == '/' {
                    assert(d[0].1.contains('/'));
                }
            }
            lemma_split_join(texts, '/');
            lemma_pieces_of_names(d, false);
            assert(path_components(text) == d);
        } else {
            assert(components_text(d) =~= e);
        }
    }
}

} // verus!
