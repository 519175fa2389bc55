//! Detection of duplicated line blocks across processed files.

use vstd::prelude::*;

use crate::block_order::{block_key, block_precedes, block_sort_key, insert_sorted, keys_sorted, BlockKey, BlockKeyView};
use crate::model::{
    occurrence_view, texts, total_chars, DuplicateBlock, DuplicateOccurrence, LineEntry,
    LineStatus, ProcessedFile,
};
use crate::paths::{path_key, path_key_chars};
use crate::text::{char_count, compare_chars, lemma_text_trichotomy, text_lt, Comparison3};

verus! {

/// An occurrence as the specification sees it: display path, first and last
/// line number.
pub type OccurrenceView = (Seq<char>, int, int);

/// A candidate block found from one matching pair of lines: its texts and
/// the two places where it stands.
pub type CandidateView = (Seq<Seq<char>>, OccurrenceView, OccurrenceView);

pub open spec fn entry(files: Seq<ProcessedFile>, f: int, i: int) -> LineEntry {
    files[f].lines@[i]
}

pub open spec fn line_text(files: Seq<ProcessedFile>, f: int, i: int) -> Seq<char> {
    entry(files, f, i).normalized_text@
}

pub open spec fn valid_ref(files: Seq<ProcessedFile>, f: int, i: int) -> bool {
    0 <= f < files.len() && 0 <= i < files[f].lines@.len()
}

/// Two lines that may seed a duplicate block: the first comes before the
/// second, both have the same hash and text, and both are comparison lines.
pub open spec fn matching_pair(files: Seq<ProcessedFile>, f1: int, i1: int, f2: int, i2: int) -> bool {
    &&& valid_ref(files, f1, i1)
    &&& valid_ref(files, f2, i2)
    &&& (f1 < f2 || (f1 == f2 && i1 < i2))
    &&& entry(files, f1, i1).hash == entry(files, f2, i2).hash
    &&& line_text(files, f1, i1) == line_text(files, f2, i2)
    &&& entry(files, f1, i1).status == LineStatus::Comparison
    &&& entry(files, f2, i2).status == LineStatus::Comparison
}

/// How many equal lines directly precede both lines.
pub open spec fn back_len(files: Seq<ProcessedFile>, f1: int, i1: int, f2: int, i2: int) -> nat
    decreases i1,
{
    if i1 > 0 && i2 > 0 && line_text(files, f1, i1 - 1) == line_text(files, f2, i2 - 1) {
        1 + back_len(files, f1, i1 - 1, f2, i2 - 1)
    } else {
        0
    }
}

/// How many equal lines directly follow both lines.
pub open spec fn fwd_len(files: Seq<ProcessedFile>, f1: int, i1: int, f2: int, i2: int) -> nat
    decreases files[f1].lines@.len() - i1,
{
    if 0 <= i1 && i1 + 1 < files[f1].lines@.len() && i2 + 1 < files[f2].lines@.len() && line_text(
        files,
        f1,
        i1 + 1,
    ) == line_text(files, f2, i2 + 1) {
        1 + fwd_len(files, f1, i1 + 1, f2, i2 + 1)
    } else {
        0
    }
}

/// The occurrence covering lines `s..=e` of file `f`.
pub open spec fn occurrence_at(files: Seq<ProcessedFile>, f: int, s: int, e: int) -> OccurrenceView {
    (
        files[f].source.display_path@,
        files[f].lines@[s].line_number as int,
        files[f].lines@[e].line_number as int,
    )
}

/// The texts of lines `s..=e` of file `f`.
pub open spec fn block_text(files: Seq<ProcessedFile>, f: int, s: int, e: int) -> Seq<Seq<char>> {
    Seq::new((e - s + 1) as nat, |k: int| line_text(files, f, s + k))
}

/// The block obtained by extending a matching pair as far as the lines stay
/// equal in both directions; none when both copies overlap in one file.
pub open spec fn pair_candidate(files: Seq<ProcessedFile>, f1: int, i1: int, f2: int, i2: int) -> Option<
    CandidateView,
> {
    let b = back_len(files, f1, i1, f2, i2) as int;
    let w = fwd_len(files, f1, i1, f2, i2) as int;
    if f1 == f2 && i1 - b <= i2 + w && i2 - b <= i1 + w {
        None
    } else {
        Some(
            (
                block_text(files, f1, i1 - b, i1 + w),
                occurrence_at(files, f1, i1 - b, i1 + w),
                occurrence_at(files, f2, i2 - b, i2 + w),
            ),
        )
    }
}

/// `o` is one of the places of a block with texts `lines` found from some
/// matching pair.
pub open spec fn produces(files: Seq<ProcessedFile>, lines: Seq<Seq<char>>, o: OccurrenceView) -> bool {
    exists|f1: int, i1: int, f2: int, i2: int|
        #![trigger pair_candidate(files, f1, i1, f2, i2)]
        matching_pair(files, f1, i1, f2, i2) && candidate_places(
            pair_candidate(files, f1, i1, f2, i2),
            lines,
            o,
        )
}

/// The candidate has texts `lines` and `o` is one of its two places.
pub open spec fn candidate_places(cand: Option<CandidateView>, lines: Seq<Seq<char>>, o: OccurrenceView) -> bool {
    match cand {
        Some(c) => c.0 == lines && (c.1 == o || c.2 == o),
        None => false,
    }
}

/// The order key of an occurrence: display key, first and last line.
pub open spec fn occurrence_key(o: OccurrenceView) -> (Seq<char>, int, int) {
    (path_key(o.0), o.1, o.2)
}

/// Strict order of occurrences by their keys.
pub open spec fn occurrence_lt(a: OccurrenceView, b: OccurrenceView) -> bool {
    let ka = occurrence_key(a);
    let kb = occurrence_key(b);
    ||| text_lt(ka.0, kb.0)
    ||| ka.0 == kb.0 && ka.1 < kb.1
    ||| ka.0 == kb.0 && ka.1 == kb.1 && ka.2 < kb.2
}

/// The occurrence order is a strict total order on keys.
pub proof fn lemma_occurrence_trichotomy(a: OccurrenceView, b: OccurrenceView)
    ensures
        occurrence_lt(a, b) || occurrence_key(a) == occurrence_key(b) || occurrence_lt(b, a),
        !(occurrence_lt(a, b) && occurrence_lt(b, a)),
        !(occurrence_lt(a, b) && occurrence_key(a) == occurrence_key(b)),
{
    lemma_text_trichotomy(path_key(a.0), path_key(b.0));
}

} // verus!

verus! {

/// A block found from one matching pair, with its two places.
struct Candidate {
    lines: Vec<String>,
    left: DuplicateOccurrence,
    right: DuplicateOccurrence,
}

spec fn candidate_view(c: Candidate) -> CandidateView {
    (texts(c.lines@), occurrence_view(c.left), occurrence_view(c.right))
}

/// The occurrence covering lines `s..=e` of file `f`.
fn occurrence_for(files: &[ProcessedFile], f: usize, s: usize, e: usize) -> (o: DuplicateOccurrence)
    requires
        valid_ref(files@, f as int, s as int),
        valid_ref(files@, f as int, e as int),
    ensures
        occurrence_view(o) == occurrence_at(files@, f as int, s as int, e as int),
{
    DuplicateOccurrence {
        file_path: files[f].source.display_path.clone(),
        start_line: files[f].lines[s].line_number,
        end_line: files[f].lines[e].line_number,
    }
}

/// Extends a pair of equal lines to the largest block of equal lines around
/// them; `None` when both copies overlap in the same file.
fn expand_pair(files: &[ProcessedFile], f1: usize, i1: usize, f2: usize, i2: usize) -> (r: Option<Candidate>)
    requires
        valid_ref(files@, f1 as int, i1 as int),
        valid_ref(files@, f2 as int, i2 as int),
    ensures
        match pair_candidate(files@, f1 as int, i1 as int, f2 as int, i2 as int) {
            None => r is None,
            Some(c) => r matches Some(x) && candidate_view(x) == c,
        },
{
    let mut ls = i1;
    let mut rs = i2;
    while ls > 0 && rs > 0 && files[f1].lines[ls - 1].normalized_text
        == files[f2].lines[rs - 1].normalized_text
        invariant
            ls <= i1,
            rs <= i2,
            i1 - ls == i2 - rs,
            valid_ref(files@, f1 as int, i1 as int),
            valid_ref(files@, f2 as int, i2 as int),
            back_len(files@, f1 as int, i1 as int, f2 as int, i2 as int) == (i1 - ls) + back_len(
                files@,
                f1 as int,
                ls as int,
                f2 as int,
                rs as int,
            ),
        decreases ls,
    {
        ls -= 1;
        rs -= 1;
    }
    let mut le = i1;
    let mut re = i2;
    let n1 = files[f1].lines.len();
    let n2 = files[f2].lines.len();
    while le < n1 - 1 && re < n2 - 1 && files[f1].lines[le + 1].normalized_text
        == files[f2].lines[re + 1].normalized_text
        invariant
            n1 == files@[f1 as int].lines@.len(),
            n2 == files@[f2 as int].lines@.len(),
            i1 <= le < files@[f1 as int].lines@.len(),
            i2 <= re < files@[f2 as int].lines@.len(),
            le - i1 == re - i2,
            valid_ref(files@, f1 as int, i1 as int),
            valid_ref(files@, f2 as int, i2 as int),
            fwd_len(files@, f1 as int, i1 as int, f2 as int, i2 as int) == (le - i1) + fwd_len(
                files@,
                f1 as int,
                le as int,
                f2 as int,
                re as int,
            ),
        decreases files@[f1 as int].lines@.len() - le,
    {
        le += 1;
        re += 1;
    }
    if f1 == f2 && ls <= re && rs <= le {
        return None;
    }
    let mut lines: Vec<String> = Vec::new();
    let mut k = ls;
    while k <= le
        invariant
            n1 == files@[f1 as int].lines@.len(),
            ls <= k <= le + 1,
            le < files@[f1 as int].lines@.len(),
            valid_ref(files@, f1 as int, i1 as int),
            texts(lines@) =~= Seq::new((k - ls) as nat, |j: int| line_text(files@, f1 as int, ls + j)),
        decreases le + 1 - k,
    {
        let text = files[f1].lines[k].normalized_text.clone();
        let ghost before = lines@;
        lines.push(text);
        assert(texts(lines@) =~= texts(before).push(text@));
        k += 1;
    }
    let left = occurrence_for(files, f1, ls, le);
    let right = occurrence_for(files, f2, rs, re);
    Some(Candidate { lines, left, right })
}

} // verus!

verus! {

/// The occurrence order is transitive.
pub proof fn lemma_occurrence_lt_transitive(a: OccurrenceView, b: OccurrenceView, c: OccurrenceView)
    requires
        occurrence_lt(a, b),
        occurrence_lt(b, c),
    ensures
        occurrence_lt(a, c),
{
    let (ka, kb, kc) = (path_key(a.0), path_key(b.0), path_key(c.0));
    lemma_text_trichotomy(ka, kb);
    lemma_text_trichotomy(kb, kc);
    lemma_text_trichotomy(ka, kc);
    if text_lt(ka, kb) && text_lt(kb, kc) {
        crate::text::lemma_text_lt_transitive(ka, kb, kc);
    }
}

/// A block being gathered: its texts and its places, kept sorted by key
/// and without two places of the same key.
struct PendingBlock {
    lines: Vec<String>,
    keys: Vec<Vec<char>>,
    occurrences: Vec<DuplicateOccurrence>,
}

spec fn places(b: PendingBlock) -> Seq<OccurrenceView> {
    b.occurrences@.map_values(|o: DuplicateOccurrence| occurrence_view(o))
}

#[verifier::opaque]
spec fn pending_wf(b: PendingBlock) -> bool {
    &&& b.keys@.len() == b.occurrences@.len()
    &&& forall|j: int| 0 <= j < b.keys@.len() ==> #[trigger] b.keys@[j]@ == path_key(b.occurrences@[j].file_path@)
    &&& forall|j1: int, j2: int|
        0 <= j1 < j2 < places(b).len() ==> occurrence_lt(#[trigger] places(b)[j1], #[trigger] places(b)[j2])
}

/// Compares two occurrences by key, given their display keys.
fn compare_occurrences(ka: &Vec<char>, a: &DuplicateOccurrence, kb: &Vec<char>, b: &DuplicateOccurrence) -> (r: Comparison3)
    requires
        ka@ == path_key(a.file_path@),
        kb@ == path_key(b.file_path@),
    ensures
        r == Comparison3::Less <==> occurrence_lt(occurrence_view(*a), occurrence_view(*b)),
        r == Comparison3::Equal <==> occurrence_key(occurrence_view(*a)) == occurrence_key(occurrence_view(*b)),
        r == Comparison3::Greater <==> occurrence_lt(occurrence_view(*b), occurrence_view(*a)),
{
    proof {
        lemma_occurrence_trichotomy(occurrence_view(*a), occurrence_view(*b));
    }
    match compare_chars(ka.as_slice(), kb.as_slice()) {
        Comparison3::Less => Comparison3::Less,
        Comparison3::Greater => Comparison3::Greater,
        Comparison3::Equal => {
            if a.start_line < b.start_line {
                Comparison3::Less
            } else if a.start_line > b.start_line {
                Comparison3::Greater
            } else if a.end_line < b.end_line {
                Comparison3::Less
            } else if a.end_line > b.end_line {
                Comparison3::Greater
            } else {
                Comparison3::Equal
            }
        },
    }
}

/// Adds a place to a block unless a place with the same key is there.
fn insert_occurrence(block: &mut PendingBlock, occ: DuplicateOccurrence)
    requires
        pending_wf(*old(block)),
    ensures
        pending_wf(*final(block)),
        final(block).lines == old(block).lines,
        exists|j: int|
            0 <= j < places(*final(block)).len() && occurrence_key(#[trigger] places(*final(block))[j])
                == occurrence_key(occurrence_view(occ)),
        forall|j: int|
            0 <= j < places(*final(block)).len() ==> #[trigger] places(*final(block))[j]
                == occurrence_view(occ) || places(*old(block)).contains(places(*final(block))[j]),
        forall|j: int|
            0 <= j < places(*old(block)).len() ==> places(*final(block)).contains(
                #[trigger] places(*old(block))[j],
            ),
{
    reveal(pending_wf);
    let path = crate::text::chars_of(occ.file_path.as_str());
    let key = path_key_chars(path.as_slice());
    let n = block.occurrences.len();
    let mut j: usize = 0;
    while j < n
        invariant
            n == block.occurrences@.len(),
            j <= n,
            *block == *old(block),
            pending_wf(*block),
            key@ == path_key(occ.file_path@),
            forall|i: int| 0 <= i < j ==> occurrence_lt(#[trigger] places(*block)[i], occurrence_view(occ)),
        decreases n - j,
    {
        proof {
            reveal(pending_wf);
        }
        let c = compare_occurrences(&key, &occ, &block.keys[j], &block.occurrences[j]);
        assert(places(*block)[j as int] == occurrence_view(block.occurrences@[j as int]));
        match c {
            Comparison3::Equal => {
                return;
            },
            Comparison3::Less => {
                let ghost old_places = places(*block);
                block.keys.insert(j, key);
                block.occurrences.insert(j, occ);
                proof {
                    assert(places(*block) =~= old_places.insert(j as int, occurrence_view(occ)));
                    assert forall|j1: int, j2: int|
                        0 <= j1 < j2 < places(*block).len() implies occurrence_lt(
                        #[trigger] places(*block)[j1],
                        #[trigger] places(*block)[j2],
                    ) by {
                        if j2 < j {
                        } else if j2 == j {
                        } else if j1 < j {
                            if j2 > j + 1 {
                                lemma_occurrence_lt_transitive(
                                    occurrence_view(occ),
                                    old_places[j as int],
                                    old_places[j2 - 1],
                                );
                            }
                            lemma_occurrence_lt_transitive(
                                places(*block)[j1],
                                occurrence_view(occ),
                                places(*block)[j2],
                            );
                        } else if j1 == j {
                            if j2 > j + 1 {
                                lemma_occurrence_lt_transitive(
                                    occurrence_view(occ),
                                    old_places[j as int],
                                    old_places[j2 - 1],
                                );
                            }
                        } else {
                        }
                    }
                    assert forall|i: int| 0 <= i < old_places.len() implies places(*block).contains(
                        #[trigger] old_places[i],
                    ) by {
                        if i < j {
                            assert(places(*block)[i] == old_places[i]);
                        } else {
                            assert(places(*block)[i + 1] == old_places[i]);
                        }
                    }
                    assert(places(*block)[j as int] == occurrence_view(occ));
                    assert forall|i: int| 0 <= i < places(*block).len() implies #[trigger] places(*block)[i]
                        == occurrence_view(occ) || old_places.contains(places(*block)[i]) by {
                        if i < j {
                            assert(places(*block)[i] == old_places[i]);
                        } else if i > j {
                            assert(places(*block)[i] == old_places[i - 1]);
                        }
                    }
                }
                return;
            },
            Comparison3::Greater => {},
        }
        j += 1;
    }
    proof {
        reveal(pending_wf);
    }
    let ghost old_places = places(*block);
    block.keys.push(key);
    block.occurrences.push(occ);
    proof {
        assert(places(*block) =~= old_places.push(occurrence_view(occ)));
        assert forall|i: int| 0 <= i < old_places.len() implies places(*block).contains(
            #[trigger] old_places[i],
        ) by {
            assert(places(*block)[i] == old_places[i]);
        }
        assert(places(*block)[n as int] == occurrence_view(occ));
        assert forall|i: int| 0 <= i < places(*block).len() implies #[trigger] places(*block)[i]
            == occurrence_view(occ) || old_places.contains(places(*block)[i]) by {
            if i < n {
                assert(places(*block)[i] == old_places[i]);
            }
        }
    }
}

} // verus!

verus! {

spec fn block_lines(b: PendingBlock) -> Seq<Seq<char>> {
    texts(b.lines@)
}

/// Some gathered block has texts `lines`.
#[verifier::opaque]
spec fn has_block_for(acc: Seq<PendingBlock>, lines: Seq<Seq<char>>) -> bool {
    exists|e: int| 0 <= e < acc.len() && #[trigger] block_lines(acc[e]) == lines
}

/// Some candidate with texts `lines` stands at `o`.
#[verifier::opaque]
spec fn candidate_with_place(cands: Seq<CandidateView>, lines: Seq<Seq<char>>, o: OccurrenceView) -> bool {
    exists|c: int|
        0 <= c < cands.len() && #[trigger] cands[c].0 == lines && (cands[c].1 == o || cands[c].2 == o)
}

/// Some place has the key of `o`.
#[verifier::opaque]
spec fn has_key(ps: Seq<OccurrenceView>, o: OccurrenceView) -> bool {
    exists|j: int| 0 <= j < ps.len() && occurrence_key(#[trigger] ps[j]) == occurrence_key(o)
}

/// The gathered blocks are exactly the candidates grouped by texts.
spec fn accumulated(acc: Seq<PendingBlock>, cands: Seq<CandidateView>) -> bool {
    &&& forall|e: int| 0 <= e < acc.len() ==> pending_wf(#[trigger] acc[e])
    &&& forall|e: int| 0 <= e < acc.len() ==> #[trigger] places(acc[e]).len() > 0
    &&& forall|c: int| 0 <= c < cands.len() ==> has_block_for(acc, #[trigger] cands[c].0)
    &&& forall|e1: int, e2: int|
        0 <= e1 < acc.len() && 0 <= e2 < acc.len() && e1 != e2 ==> #[trigger] block_lines(acc[e1])
            != #[trigger] block_lines(acc[e2])
    &&& forall|e: int, j: int|
        0 <= e < acc.len() && 0 <= j < places(acc[e]).len() ==> candidate_with_place(
            cands,
            block_lines(acc[e]),
            #[trigger] places(acc[e])[j],
        )
    &&& forall|e: int, c: int|
        0 <= e < acc.len() && 0 <= c < cands.len() && #[trigger] cands[c].0 == #[trigger] block_lines(
            acc[e],
        ) ==> has_key(places(acc[e]), cands[c].1) && has_key(places(acc[e]), cands[c].2)
}

proof fn lemma_candidate_with_place_push(
    cands: Seq<CandidateView>,
    x: CandidateView,
    lines: Seq<Seq<char>>,
    o: OccurrenceView,
)
    requires
        candidate_with_place(cands, lines, o),
    ensures
        candidate_with_place(cands.push(x), lines, o),
{
    reveal(candidate_with_place);
    let c = choose|c: int|
        0 <= c < cands.len() && #[trigger] cands[c].0 == lines && (cands[c].1 == o || cands[c].2 == o);
    assert(cands.push(x)[c] == cands[c]);
}

proof fn lemma_has_key_grows(ps: Seq<OccurrenceView>, qs: Seq<OccurrenceView>, o: OccurrenceView)
    requires
        has_key(ps, o),
        forall|j: int| 0 <= j < ps.len() ==> qs.contains(#[trigger] ps[j]),
    ensures
        has_key(qs, o),
{
    reveal(has_key);
    let j = choose|j: int| 0 <= j < ps.len() && occurrence_key(#[trigger] ps[j]) == occurrence_key(o);
    assert(qs.contains(ps[j]));
    let i = choose|i: int| 0 <= i < qs.len() && qs[i] == ps[j];
    assert(occurrence_key(qs[i]) == occurrence_key(o));
}

/// Placing both places of a candidate into the block of its texts keeps the
/// grouping exact.
proof fn lemma_accumulate_into_existing(
    before: Seq<PendingBlock>,
    e: int,
    new_block: PendingBlock,
    cands: Seq<CandidateView>,
    x: CandidateView,
)
    requires
        accumulated(before, cands),
        0 <= e < before.len(),
        block_lines(before[e]) == x.0,
        block_lines(new_block) == x.0,
        pending_wf(new_block),
        has_key(places(new_block), x.1),
        has_key(places(new_block), x.2),
        forall|j: int| 0 <= j < places(before[e]).len() ==> places(new_block).contains(
            #[trigger] places(before[e])[j],
        ),
        forall|j: int|
            0 <= j < places(new_block).len() ==> #[trigger] places(new_block)[j] == x.1 || places(
                new_block,
            )[j] == x.2 || places(before[e]).contains(places(new_block)[j]),
    ensures
        accumulated(before.update(e, new_block), cands.push(x)),
{
    let acc = before.update(e, new_block);
    let cands2 = cands.push(x);
    let old_block = before[e];
    assert(places(new_block).len() > 0) by {
        reveal(has_key);
    }
    assert forall|k: int| 0 <= k < acc.len() implies #[trigger] block_lines(acc[k]) == block_lines(
        before[k],
    ) by {}
    assert forall|c: int| 0 <= c < cands2.len() implies has_block_for(acc, #[trigger] cands2[c].0) by {
        reveal(has_block_for);
        if c < cands.len() {
            assert(has_block_for(before, cands[c].0));
            let k = choose|k: int| 0 <= k < before.len() && #[trigger] block_lines(before[k]) == cands[c].0;
            assert(block_lines(acc[k]) == cands2[c].0);
        } else {
            assert(block_lines(acc[e]) == cands2[c].0);
        }
    }
    assert forall|k: int, j: int|
        0 <= k < acc.len() && 0 <= j < places(acc[k]).len() implies candidate_with_place(
        cands2,
        block_lines(acc[k]),
        #[trigger] places(acc[k])[j],
    ) by {
        if k == e {
            let p = places(new_block)[j];
            if p == x.1 || p == x.2 {
                reveal(candidate_with_place);
                assert(cands2[cands.len() as int] == x);
            } else {
                let i2 = choose|i2: int| 0 <= i2 < places(old_block).len() && places(old_block)[i2] == p;
                assert(candidate_with_place(cands, block_lines(before[k]), places(before[k])[i2]));
                lemma_candidate_with_place_push(cands, x, block_lines(before[k]), p);
            }
        } else {
            assert(candidate_with_place(cands, block_lines(before[k]), places(before[k])[j]));
            lemma_candidate_with_place_push(cands, x, block_lines(before[k]), places(before[k])[j]);
        }
    }
    assert forall|k: int, c: int|
        0 <= k < acc.len() && 0 <= c < cands2.len() && #[trigger] cands2[c].0 == #[trigger] block_lines(
            acc[k],
        ) implies has_key(places(acc[k]), cands2[c].1) && has_key(places(acc[k]), cands2[c].2) by {
        if c == cands.len() {
            if k != e {
                assert(block_lines(before[k]) != block_lines(before[e]));
            }
        } else if k == e {
            assert(cands[c].0 == block_lines(before[k]));
            lemma_has_key_grows(places(old_block), places(new_block), cands[c].1);
            lemma_has_key_grows(places(old_block), places(new_block), cands[c].2);
        } else {
            assert(cands[c].0 == block_lines(before[k]));
        }
    }
}

/// A candidate whose texts no block has yet starts a block of its own.
proof fn lemma_accumulate_new(before: Seq<PendingBlock>, block: PendingBlock, cands: Seq<CandidateView>, x: CandidateView)
    requires
        accumulated(before, cands),
        forall|k: int| 0 <= k < before.len() ==> #[trigger] block_lines(before[k]) != x.0,
        block_lines(block) == x.0,
        pending_wf(block),
        has_key(places(block), x.1),
        has_key(places(block), x.2),
        forall|j: int| 0 <= j < places(block).len() ==> #[trigger] places(block)[j] == x.1 || places(block)[j] == x.2,
    ensures
        accumulated(before.push(block), cands.push(x)),
{
    let acc = before.push(block);
    let cands2 = cands.push(x);
    let n = before.len() as int;
    assert(places(block).len() > 0) by {
        reveal(has_key);
    }
    assert forall|c: int| 0 <= c < cands2.len() implies has_block_for(acc, #[trigger] cands2[c].0) by {
        reveal(has_block_for);
        if c < cands.len() {
            assert(has_block_for(before, cands[c].0));
            let k = choose|k: int| 0 <= k < before.len() && #[trigger] block_lines(before[k]) == cands[c].0;
            assert(block_lines(acc[k]) == cands2[c].0);
        } else {
            assert(block_lines(acc[n]) == cands2[c].0);
        }
    }
    assert forall|k: int, j: int|
        0 <= k < acc.len() && 0 <= j < places(acc[k]).len() implies candidate_with_place(
        cands2,
        block_lines(acc[k]),
        #[trigger] places(acc[k])[j],
    ) by {
        if k == n {
            reveal(candidate_with_place);
            assert(cands2[cands.len() as int] == x);
        } else {
            assert(candidate_with_place(cands, block_lines(before[k]), places(before[k])[j]));
            lemma_candidate_with_place_push(cands, x, block_lines(before[k]), places(before[k])[j]);
        }
    }
    assert forall|k: int, c: int|
        0 <= k < acc.len() && 0 <= c < cands2.len() && #[trigger] cands2[c].0 == #[trigger] block_lines(
            acc[k],
        ) implies has_key(places(acc[k]), cands2[c].1) && has_key(places(acc[k]), cands2[c].2) by {
        if k == n && c < cands.len() {
            reveal(has_block_for);
            assert(has_block_for(before, cands[c].0));
            let k2 = choose|k2: int| 0 <= k2 < before.len() && #[trigger] block_lines(before[k2]) == cands[c].0;
            assert(block_lines(before[k2]) != x.0);
        } else if k == n {
        } else if c == cands.len() {
            assert(block_lines(before[k]) != x.0);
        } else {
            assert(cands[c].0 == block_lines(before[k]));
        }
    }
}

/// Whether two lists of strings hold the same texts.
fn lines_equal(a: &Vec<String>, b: &Vec<String>) -> (r: bool)
    ensures
        r == (texts(a@) == texts(b@)),
{
    if a.len() != b.len() {
        assert(texts(a@).len() != texts(b@).len());
        return false;
    }
    let mut i: usize = 0;
    while i < a.len()
        invariant
            a.len() == b.len(),
            i <= a.len(),
            forall|k: int| 0 <= k < i ==> #[trigger] texts(a@)[k] == texts(b@)[k],
        decreases a.len() - i,
    {
        if a[i] != b[i] {
            assert(texts(a@)[i as int] != texts(b@)[i as int]);
            return false;
        }
        i += 1;
    }
    assert(texts(a@) =~= texts(b@));
    true
}

/// The position of the gathered block with texts `lines`, if any.
fn find_block(acc: &Vec<PendingBlock>, lines: &Vec<String>) -> (r: Option<usize>)
    ensures
        match r {
            Some(e) => e < acc@.len() && block_lines(acc@[e as int]) == texts(lines@),
            None => forall|k: int| 0 <= k < acc@.len() ==> #[trigger] block_lines(acc@[k]) != texts(lines@),
        },
{
    let n = acc.len();
    let mut e: usize = 0;
    while e < n
        invariant
            n == acc@.len(),
            e <= n,
            forall|k: int| 0 <= k < e ==> #[trigger] block_lines(acc@[k]) != texts(lines@),
        decreases n - e,
    {
        if lines_equal(&acc[e].lines, lines) {
            return Some(e);
        }
        e += 1;
    }
    None
}

/// Places a new place into a block and reports how the places grew.
fn add_place(block: &mut PendingBlock, occ: DuplicateOccurrence, Ghost(base): Ghost<PendingBlock>, Ghost(other): Ghost<OccurrenceView>)
    requires
        pending_wf(*old(block)),
        forall|j: int| 0 <= j < places(base).len() ==> places(*old(block)).contains(#[trigger] places(base)[j]),
        forall|j: int|
            0 <= j < places(*old(block)).len() ==> #[trigger] places(*old(block))[j] == other || places(
                base,
            ).contains(places(*old(block))[j]),
    ensures
        pending_wf(*final(block)),
        final(block).lines == old(block).lines,
        has_key(places(*final(block)), occurrence_view(occ)),
        forall|o: OccurrenceView| has_key(places(*old(block)), o) ==> has_key(places(*final(block)), o),
        forall|j: int| 0 <= j < places(base).len() ==> places(*final(block)).contains(#[trigger] places(base)[j]),
        forall|j: int|
            0 <= j < places(*final(block)).len() ==> #[trigger] places(*final(block))[j] == other
                || places(*final(block))[j] == occurrence_view(occ) || places(base).contains(
                places(*final(block))[j],
            ),
{
    let ghost b0 = *block;
    insert_occurrence(block, occ);
    proof {
        reveal(has_key);
        assert forall|o: OccurrenceView| has_key(places(b0), o) implies has_key(places(*block), o) by {
            let j = choose|j: int| 0 <= j < places(b0).len() && occurrence_key(#[trigger] places(b0)[j]) == occurrence_key(o);
            assert(places(*block).contains(places(b0)[j]));
            let i = choose|i: int| 0 <= i < places(*block).len() && places(*block)[i] == places(b0)[j];
            assert(occurrence_key(places(*block)[i]) == occurrence_key(o));
        }
        assert forall|j: int| 0 <= j < places(base).len() implies places(*block).contains(#[trigger] places(base)[j]) by {
            assert(places(b0).contains(places(base)[j]));
            let i = choose|i: int| 0 <= i < places(b0).len() && places(b0)[i] == places(base)[j];
            assert(places(*block).contains(places(b0)[i]));
        }
        assert forall|j: int| 0 <= j < places(*block).len() implies #[trigger] places(*block)[j] == other
            || places(*block)[j] == occurrence_view(occ) || places(base).contains(places(*block)[j]) by {
            if places(*block)[j] != occurrence_view(occ) {
                assert(places(b0).contains(places(*block)[j]));
                let i = choose|i: int| 0 <= i < places(b0).len() && places(b0)[i] == places(*block)[j];
                assert(places(b0)[i] == other || places(base).contains(places(b0)[i]));
            }
        }
    }
}

/// Groups one more candidate into the gathered blocks.
fn add_candidate(acc: &mut Vec<PendingBlock>, cand: Candidate, Ghost(cands): Ghost<Seq<CandidateView>>)
    requires
        accumulated(old(acc)@, cands),
    ensures
        accumulated(final(acc)@, cands.push(candidate_view(cand))),
{
    let ghost x = candidate_view(cand);
    let found = find_block(acc, &cand.lines);
    let Candidate { lines, left, right } = cand;
    match found {
        Some(e) => {
            let ghost before = acc@;
            let ghost old_block = acc@[e as int];
            proof {
                assert(pending_wf(old_block));
                assert(forall|j: int| 0 <= j < places(old_block).len() ==> places(old_block).contains(#[trigger] places(old_block)[j]));
            }
            add_place(&mut acc[e], left, Ghost(old_block), Ghost(x.1));
            add_place(&mut acc[e], right, Ghost(old_block), Ghost(x.1));
            proof {
                lemma_accumulate_into_existing(before, e as int, acc@[e as int], cands, x);
                assert(acc@ =~= before.update(e as int, acc@[e as int]));
            }
        },
        None => {
            let mut block = PendingBlock { lines, keys: Vec::new(), occurrences: Vec::new() };
            let ghost b0 = block;
            proof {
                assert(places(block) =~= Seq::<OccurrenceView>::empty());
                reveal(pending_wf);
            }
            add_place(&mut block, left, Ghost(b0), Ghost(x.1));
            add_place(&mut block, right, Ghost(b0), Ghost(x.1));
            proof {
                lemma_accumulate_new(acc@, block, cands, x);
            }
            acc.push(block);
        },
    }
}

} // verus!

verus! {

/// A line of the input: its hash, file index and line index.
pub type LineKey = (u128, usize, usize);

/// Ascending order of line keys, component by component.
pub open spec fn line_key_le(a: LineKey, b: LineKey) -> bool {
    ||| a.0 < b.0
    ||| a.0 == b.0 && a.1 < b.1
    ||| a.0 == b.0 && a.1 == b.1 && a.2 <= b.2
}

/// Sorts line keys in ascending order (`slice::sort_unstable`, whose tuple
/// order is lexicographic).
#[verifier::external_body]
fn sort_line_keys(keys: &mut Vec<LineKey>)
    ensures
        final(keys)@.to_multiset() == old(keys)@.to_multiset(),
        forall|i: int, j: int|
            0 <= i < j < final(keys)@.len() ==> line_key_le(final(keys)@[i], final(keys)@[j]),
{
    keys.sort_unstable();
}

/// Every key names a line of the input and carries that line's hash.
spec fn keys_valid(files: Seq<ProcessedFile>, keys: Seq<LineKey>) -> bool {
    forall|k: int|
        0 <= k < keys.len() ==> valid_ref(files, #[trigger] keys[k].1 as int, keys[k].2 as int)
            && keys[k].0 == entry(files, keys[k].1 as int, keys[k].2 as int).hash
}

/// Every line of the input has its key.
spec fn keys_complete(files: Seq<ProcessedFile>, keys: Seq<LineKey>) -> bool {
    forall|f: int, i: int|
        valid_ref(files, f, i) ==> #[trigger] keys.contains(
            (entry(files, f, i).hash, f as usize, i as usize),
        )
}

/// The keys of all lines of the input, in ascending order.
fn sorted_line_keys(files: &[ProcessedFile]) -> (keys: Vec<LineKey>)
    ensures
        keys_valid(files@, keys@),
        keys_complete(files@, keys@),
        forall|i: int, j: int| 0 <= i < j < keys@.len() ==> line_key_le(keys@[i], keys@[j]),
{
    let mut keys: Vec<LineKey> = Vec::new();
    let mut f: usize = 0;
    while f < files.len()
        invariant
            f <= files@.len(),
            keys_valid(files@, keys@),
            forall|g: int, i: int|
                0 <= g < f && valid_ref(files@, g, i) ==> #[trigger] keys@.contains(
                    (entry(files@, g, i).hash, g as usize, i as usize),
                ),
        decreases files@.len() - f,
    {
        let mut i: usize = 0;
        while i < files[f].lines.len()
            invariant
                f < files@.len(),
                i <= files@[f as int].lines@.len(),
                keys_valid(files@, keys@),
                forall|g: int, i2: int|
                    0 <= g < f && valid_ref(files@, g, i2) ==> #[trigger] keys@.contains(
                        (entry(files@, g, i2).hash, g as usize, i2 as usize),
                    ),
                forall|i2: int|
                    0 <= i2 < i ==> #[trigger] keys@.contains(
                        (entry(files@, f as int, i2).hash, f, i2 as usize),
                    ),
            decreases files@[f as int].lines@.len() - i,
        {
            let ghost before = keys@;
            keys.push((files[f].lines[i].hash, f, i));
            proof {
                assert(keys@[before.len() as int] == (entry(files@, f as int, i as int).hash, f, i));
                assert forall|x: LineKey| before.contains(x) implies keys@.contains(x) by {
                    let k = choose|k: int| 0 <= k < before.len() && before[k] == x;
                    assert(keys@[k] == x);
                }
                assert forall|g: int, i2: int|
                    0 <= g < f && valid_ref(files@, g, i2) implies #[trigger] keys@.contains(
                        (entry(files@, g, i2).hash, g as usize, i2 as usize),
                    ) by {
                    assert(before.contains((entry(files@, g, i2).hash, g as usize, i2 as usize)));
                }
                assert forall|i2: int| 0 <= i2 < i + 1 implies #[trigger] keys@.contains(
                    (entry(files@, f as int, i2).hash, f, i2 as usize),
                ) by {
                    if i2 < i {
                        assert(before.contains((entry(files@, f as int, i2).hash, f, i2 as usize)));
                    } else {
                        assert(keys@[before.len() as int] == (entry(files@, f as int, i2).hash, f, i2 as usize));
                    }
                }
            }
            i += 1;
        }
        proof {
            assert forall|g: int, i2: int|
                0 <= g < f + 1 && valid_ref(files@, g, i2) implies #[trigger] keys@.contains(
                    (entry(files@, g, i2).hash, g as usize, i2 as usize),
                ) by {
                if g == f {
                    assert(keys@.contains((entry(files@, f as int, i2).hash, f, i2 as usize)));
                }
            }
        }
        f += 1;
    }
    let ghost unsorted = keys@;
    sort_line_keys(&mut keys);
    proof {
        unsorted.to_multiset_ensures();
        keys@.to_multiset_ensures();
        assert forall|k: int| 0 <= k < keys@.len() implies valid_ref(
            files@,
            #[trigger] keys@[k].1 as int,
            keys@[k].2 as int,
        ) && keys@[k].0 == entry(files@, keys@[k].1 as int, keys@[k].2 as int).hash by {
            assert(keys@.to_multiset().count(keys@[k]) > 0);
            assert(unsorted.contains(keys@[k]));
            let j = choose|j: int| 0 <= j < unsorted.len() && unsorted[j] == keys@[k];
            assert(unsorted[j] == keys@[k]);
        }
        assert forall|g: int, i: int| valid_ref(files@, g, i) implies #[trigger] keys@.contains(
            (entry(files@, g, i).hash, g as usize, i as usize),
        ) by {
            let x = (entry(files@, g, i).hash, g as usize, i as usize);
            assert(unsorted.contains(x));
            assert(unsorted.to_multiset().count(x) > 0);
        }
    }
    keys
}

} // verus!

verus! {

/// The candidate found from the lines at key positions `p` and `q`.
spec fn key_candidate(files: Seq<ProcessedFile>, keys: Seq<LineKey>, p: int, q: int) -> Option<CandidateView> {
    let a = keys[p];
    let b = keys[q];
    if matching_pair(files, a.1 as int, a.2 as int, b.1 as int, b.2 as int) {
        pair_candidate(files, a.1 as int, a.2 as int, b.1 as int, b.2 as int)
    } else {
        None
    }
}

/// Pair `(p2, q2)` of key positions comes before pair `(p, q)`.
spec fn processed(n: int, p: int, q: int, p2: int, q2: int) -> bool {
    0 <= p2 < q2 < n && (p2 < p || (p2 == p && q2 < q))
}

/// `cands` holds exactly the candidates of the pairs before `(p, q)`;
/// `pos` gives the pair that each one was found from.
#[verifier::opaque]
spec fn candidates_before(
    files: Seq<ProcessedFile>,
    keys: Seq<LineKey>,
    p: int,
    q: int,
    cands: Seq<CandidateView>,
    pos: Seq<(int, int)>,
) -> bool {
    &&& pos.len() == cands.len()
    &&& forall|c: int|
        0 <= c < cands.len() ==> processed(keys.len() as int, p, q, #[trigger] pos[c].0, pos[c].1)
            && key_candidate(files, keys, pos[c].0, pos[c].1) == Some(cands[c])
    &&& forall|p2: int, q2: int|
        processed(keys.len() as int, p, q, p2, q2) && #[trigger] key_candidate(files, keys, p2, q2) is Some
            ==> cands.contains(key_candidate(files, keys, p2, q2)->0)
}

proof fn lemma_candidates_step(
    files: Seq<ProcessedFile>,
    keys: Seq<LineKey>,
    p: int,
    q: int,
    cands: Seq<CandidateView>,
    pos: Seq<(int, int)>,
)
    requires
        candidates_before(files, keys, p, q, cands, pos),
        0 <= p < q < keys.len(),
    ensures
        key_candidate(files, keys, p, q) matches Some(x) ==> candidates_before(
            files,
            keys,
            p,
            q + 1,
            cands.push(x),
            pos.push((p, q)),
        ),
        key_candidate(files, keys, p, q) is None ==> candidates_before(files, keys, p, q + 1, cands, pos),
{
    reveal(candidates_before);
    let n = keys.len() as int;
    if let Some(x) = key_candidate(files, keys, p, q) {
        let cands2 = cands.push(x);
        let pos2 = pos.push((p, q));
        assert forall|c: int| 0 <= c < cands2.len() implies processed(n, p, q + 1, #[trigger] pos2[c].0, pos2[c].1)
            && key_candidate(files, keys, pos2[c].0, pos2[c].1) == Some(cands2[c]) by {
            if c < cands.len() {
                assert(pos2[c] == pos[c]);
                assert(processed(n, p, q, pos[c].0, pos[c].1));
            }
        }
        assert forall|p2: int, q2: int|
            processed(n, p, q + 1, p2, q2) && #[trigger] key_candidate(files, keys, p2, q2) is Some
                implies cands2.contains(key_candidate(files, keys, p2, q2)->0) by {
            if p2 == p && q2 == q {
                assert(cands2[cands.len() as int] == x);
            } else {
                assert(processed(n, p, q, p2, q2));
                let y = key_candidate(files, keys, p2, q2)->0;
                assert(cands.contains(y));
                let c = choose|c: int| 0 <= c < cands.len() && cands[c] == y;
                assert(cands2[c] == y);
            }
        }
    } else {
        assert forall|c: int| 0 <= c < cands.len() implies processed(n, p, q + 1, #[trigger] pos[c].0, pos[c].1)
            && key_candidate(files, keys, pos[c].0, pos[c].1) == Some(cands[c]) by {
            assert(processed(n, p, q, pos[c].0, pos[c].1));
        }
        assert forall|p2: int, q2: int|
            processed(n, p, q + 1, p2, q2) && #[trigger] key_candidate(files, keys, p2, q2) is Some
                implies cands.contains(key_candidate(files, keys, p2, q2)->0) by {
            if !(p2 == p && q2 == q) {
                assert(processed(n, p, q, p2, q2));
            }
        }
    }
}

proof fn lemma_candidates_next_row(
    files: Seq<ProcessedFile>,
    keys: Seq<LineKey>,
    p: int,
    q: int,
    cands: Seq<CandidateView>,
    pos: Seq<(int, int)>,
)
    requires
        candidates_before(files, keys, p, q, cands, pos),
        0 <= p < keys.len(),
        p < q <= keys.len(),
        forall|q2: int| q <= q2 < keys.len() ==> #[trigger] key_candidate(files, keys, p, q2) is None,
    ensures
        candidates_before(files, keys, p + 1, p + 2, cands, pos),
{
    reveal(candidates_before);
    let n = keys.len() as int;
    assert forall|c: int| 0 <= c < cands.len() implies processed(n, p + 1, p + 2, #[trigger] pos[c].0, pos[c].1)
        && key_candidate(files, keys, pos[c].0, pos[c].1) == Some(cands[c]) by {
        assert(processed(n, p, q, pos[c].0, pos[c].1));
    }
    assert forall|p2: int, q2: int|
        processed(n, p + 1, p + 2, p2, q2) && #[trigger] key_candidate(files, keys, p2, q2) is Some
            implies cands.contains(key_candidate(files, keys, p2, q2)->0) by {
        if p2 == p + 1 {
        } else if p2 == p && q2 >= q {
            assert(key_candidate(files, keys, p, q2) is None);
        } else {
            assert(processed(n, p, q, p2, q2));
        }
    }
}

/// A block candidate found from some matching pair of lines.
pub open spec fn is_pair_candidate(files: Seq<ProcessedFile>, x: CandidateView) -> bool {
    exists|f1: int, i1: int, f2: int, i2: int|
        #![trigger pair_candidate(files, f1, i1, f2, i2)]
        matching_pair(files, f1, i1, f2, i2) && pair_candidate(files, f1, i1, f2, i2) == Some(x)
}

/// The candidates of all lines of the input.
fn gather_blocks(files: &[ProcessedFile]) -> (r: (Vec<PendingBlock>, Ghost<Seq<CandidateView>>))
    ensures
        accumulated(r.0@, r.1@),
        forall|c: int| 0 <= c < r.1@.len() ==> is_pair_candidate(files@, #[trigger] r.1@[c]),
        forall|f1: int, i1: int, f2: int, i2: int|
            #![trigger pair_candidate(files@, f1, i1, f2, i2)]
            matching_pair(files@, f1, i1, f2, i2) && pair_candidate(files@, f1, i1, f2, i2) is Some
                ==> r.1@.contains(pair_candidate(files@, f1, i1, f2, i2)->0),
{
    let keys = sorted_line_keys(files);
    let nf = files.len();
    let n = keys.len();
    let mut acc: Vec<PendingBlock> = Vec::new();
    let ghost mut cands: Seq<CandidateView> = Seq::empty();
    let ghost mut pos: Seq<(int, int)> = Seq::empty();
    proof {
        reveal(candidates_before);
        reveal(has_block_for);
    }
    let mut p: usize = 0;
    while p < n
        invariant
            n == keys@.len(),
            p <= n,
            keys_valid(files@, keys@),
            forall|i: int, j: int| 0 <= i < j < keys@.len() ==> line_key_le(keys@[i], keys@[j]),
            accumulated(acc@, cands),
            candidates_before(files@, keys@, p as int, p + 1, cands, pos),
        decreases n - p,
    {
        let (h, f1, i1) = keys[p];
        let mut q: usize = p + 1;
        while q < n && keys[q].0 == h
            invariant
                n == keys@.len(),
                p < n,
                p < q <= n,
                keys@[p as int] == (h, f1, i1),
                keys_valid(files@, keys@),
                forall|i: int, j: int| 0 <= i < j < keys@.len() ==> line_key_le(keys@[i], keys@[j]),
                accumulated(acc@, cands),
                candidates_before(files@, keys@, p as int, q as int, cands, pos),
            decreases n - q,
        {
            let (h2, f2, i2) = keys[q];
            proof {
                lemma_candidates_step(files@, keys@, p as int, q as int, cands, pos);
                assert(valid_ref(files@, keys@[p as int].1 as int, keys@[p as int].2 as int));
                assert(valid_ref(files@, keys@[q as int].1 as int, keys@[q as int].2 as int));
            }
            let ordered = f1 < f2 || (f1 == f2 && i1 < i2);
            if ordered && files[f1].lines[i1].status == LineStatus::Comparison
                && files[f2].lines[i2].status == LineStatus::Comparison
                && files[f1].lines[i1].normalized_text == files[f2].lines[i2].normalized_text {
                if let Some(cand) = expand_pair(files, f1, i1, f2, i2) {
                    let ghost x = candidate_view(cand);
                    add_candidate(&mut acc, cand, Ghost(cands));
                    proof {
                        cands = cands.push(x);
                        pos = pos.push((p as int, q as int));
                    }
                }
            }
            q += 1;
        }
        proof {
            assert forall|q2: int| q <= q2 < keys@.len() implies #[trigger] key_candidate(
                files@,
                keys@,
                p as int,
                q2,
            ) is None by {
                assert(line_key_le(keys@[p as int], keys@[q2]));
                assert(q < keys@.len());
                assert(keys@[q as int].0 != h);
                assert(line_key_le(keys@[p as int], keys@[q as int]));
                if q < q2 {
                    assert(line_key_le(keys@[q as int], keys@[q2]));
                }
                assert(keys@[q2].0 > h);
                assert(valid_ref(files@, keys@[q2].1 as int, keys@[q2].2 as int));
                assert(keys@[q2].0 == entry(files@, keys@[q2].1 as int, keys@[q2].2 as int).hash);
                assert(keys@[p as int].0 == entry(files@, keys@[p as int].1 as int, keys@[p as int].2 as int).hash);
            }
            lemma_candidates_next_row(files@, keys@, p as int, q as int, cands, pos);
        }
        p += 1;
    }
    proof {
        reveal(candidates_before);
        assert forall|c: int| 0 <= c < cands.len() implies is_pair_candidate(files@, #[trigger] cands[c]) by {
            let (p2, q2) = pos[c];
            assert(processed(n as int, p as int, p + 1, p2, q2));
            let a = keys@[p2];
            let b = keys@[q2];
            assert(pair_candidate(files@, a.1 as int, a.2 as int, b.1 as int, b.2 as int) == Some(cands[c]));
        }
        assert forall|f1: int, i1: int, f2: int, i2: int|
            #![trigger pair_candidate(files@, f1, i1, f2, i2)]
            matching_pair(files@, f1, i1, f2, i2) && pair_candidate(files@, f1, i1, f2, i2) is Some
                implies cands.contains(pair_candidate(files@, f1, i1, f2, i2)->0) by {
            assert(files@[f1].lines.len() == files@[f1].lines@.len());
            assert(files@[f2].lines.len() == files@[f2].lines@.len());
            let ka = (entry(files@, f1, i1).hash, f1 as usize, i1 as usize);
            let kb = (entry(files@, f2, i2).hash, f2 as usize, i2 as usize);
            let pa = choose|k: int| 0 <= k < keys@.len() && keys@[k] == ka;
            let pb = choose|k: int| 0 <= k < keys@.len() && keys@[k] == kb;
            assert(keys@.contains(ka));
            assert(keys@.contains(kb));
            assert(keys@[pa] == ka);
            assert(keys@[pb] == kb);
            if pb <= pa {
                if pb < pa {
                    assert(line_key_le(keys@[pb], keys@[pa]));
                }
                assert(false);
            }
            assert(processed(n as int, p as int, p + 1, pa, pb));
            assert(key_candidate(files@, keys@, pa, pb) == pair_candidate(files@, f1, i1, f2, i2));
        }
    }
    (acc, Ghost(cands))
}

} // verus!

verus! {

/// The places of a block, as the specification sees them.
pub open spec fn block_places(b: DuplicateBlock) -> Seq<OccurrenceView> {
    b.occurrences@.map_values(|o: DuplicateOccurrence| occurrence_view(o))
}

/// The weight of a block: places past the first, times lines, times
/// characters.
pub open spec fn block_weight(places: Seq<OccurrenceView>, lines: Seq<Seq<char>>) -> int {
    (places.len() - 1) * lines.len() * total_chars(lines)
}

/// Places in strictly ascending key order.
pub open spec fn places_sorted(ps: Seq<OccurrenceView>) -> bool {
    forall|j1: int, j2: int| 0 <= j1 < j2 < ps.len() ==> occurrence_lt(#[trigger] ps[j1], #[trigger] ps[j2])
}

/// Every place of `ps` is a place of a block with texts `lines`.
pub open spec fn all_produced(files: Seq<ProcessedFile>, lines: Seq<Seq<char>>, ps: Seq<OccurrenceView>) -> bool {
    forall|j: int| 0 <= j < ps.len() ==> produces(files, lines, #[trigger] ps[j])
}

/// The weight of every block the input can give fits in `u64`, and so does
/// its first product.
pub open spec fn weights_fit(files: Seq<ProcessedFile>) -> bool {
    forall|lines: Seq<Seq<char>>, ps: Seq<OccurrenceView>|
        #[trigger] all_produced(files, lines, ps) && places_sorted(ps) ==> (ps.len() - 1) * lines.len()
            <= u64::MAX && block_weight(ps, lines) <= u64::MAX
}

/// A block as it is reported for `files`: non-empty texts, at least two
/// places in ascending key order, each one a place of these texts, a place
/// for every key these texts stand at, and its weight.
pub open spec fn reported_block(files: Seq<ProcessedFile>, b: DuplicateBlock) -> bool {
    let lines = b.lines_view();
    let ps = block_places(b);
    &&& lines.len() > 0
    &&& ps.len() >= 2
    &&& places_sorted(ps)
    &&& all_produced(files, lines, ps)
    &&& forall|o: OccurrenceView|
        produces(files, lines, o) ==> exists|j: int|
            0 <= j < ps.len() && occurrence_key(#[trigger] ps[j]) == occurrence_key(o)
    &&& b.weight == block_weight(ps, lines)
}

/// Texts that stand at two places with different keys.
pub open spec fn duplicated_text(files: Seq<ProcessedFile>, lines: Seq<Seq<char>>) -> bool {
    exists|o1: OccurrenceView, o2: OccurrenceView|
        #![trigger produces(files, lines, o1), produces(files, lines, o2)]
        produces(files, lines, o1) && produces(files, lines, o2) && occurrence_key(o1) != occurrence_key(o2)
}

/// Every candidate of the input is a pair candidate, and every pair
/// candidate is among them.
spec fn candidates_exact(files: Seq<ProcessedFile>, cands: Seq<CandidateView>) -> bool {
    &&& forall|c: int| 0 <= c < cands.len() ==> is_pair_candidate(files, #[trigger] cands[c])
    &&& forall|f1: int, i1: int, f2: int, i2: int|
        #![trigger pair_candidate(files, f1, i1, f2, i2)]
        matching_pair(files, f1, i1, f2, i2) && pair_candidate(files, f1, i1, f2, i2) is Some
            ==> cands.contains(pair_candidate(files, f1, i1, f2, i2)->0)
}

proof fn lemma_place_produced(
    files: Seq<ProcessedFile>,
    cands: Seq<CandidateView>,
    lines: Seq<Seq<char>>,
    o: OccurrenceView,
)
    requires
        candidates_exact(files, cands),
        candidate_with_place(cands, lines, o),
    ensures
        produces(files, lines, o),
{
    reveal(candidate_with_place);
    let c = choose|c: int|
        0 <= c < cands.len() && #[trigger] cands[c].0 == lines && (cands[c].1 == o || cands[c].2 == o);
    let x = cands[c];
    assert(is_pair_candidate(files, x));
    let (f1, i1, f2, i2) = choose|f1: int, i1: int, f2: int, i2: int|
        #![trigger pair_candidate(files, f1, i1, f2, i2)]
        matching_pair(files, f1, i1, f2, i2) && pair_candidate(files, f1, i1, f2, i2) == Some(x);
    assert(candidate_places(pair_candidate(files, f1, i1, f2, i2), lines, o));
}

/// A produced place has the key of some place of the gathered block of its
/// texts.
proof fn lemma_produced_place_kept(
    files: Seq<ProcessedFile>,
    acc: Seq<PendingBlock>,
    cands: Seq<CandidateView>,
    lines: Seq<Seq<char>>,
    o: OccurrenceView,
)
    requires
        accumulated(acc, cands),
        candidates_exact(files, cands),
        produces(files, lines, o),
    ensures
        lines.len() > 0,
        has_block_for(acc, lines),
        forall|e: int| 0 <= e < acc.len() && #[trigger] block_lines(acc[e]) == lines ==> has_key(places(acc[e]), o),
{
    let (f1, i1, f2, i2) = choose|f1: int, i1: int, f2: int, i2: int|
        #![trigger pair_candidate(files, f1, i1, f2, i2)]
        matching_pair(files, f1, i1, f2, i2) && candidate_places(pair_candidate(files, f1, i1, f2, i2), lines, o);
    let y = pair_candidate(files, f1, i1, f2, i2)->0;
    assert(cands.contains(y));
    let c = choose|c: int| 0 <= c < cands.len() && cands[c] == y;
    assert(has_block_for(acc, cands[c].0));
    assert forall|e: int| 0 <= e < acc.len() && #[trigger] block_lines(acc[e]) == lines implies has_key(
        places(acc[e]),
        o,
    ) by {
        assert(cands[c].0 == block_lines(acc[e]));
    }
}

/// Two different keys among the places of a sorted list make it at least
/// two long.
proof fn lemma_two_keys(ps: Seq<OccurrenceView>, o1: OccurrenceView, o2: OccurrenceView)
    requires
        has_key(ps, o1),
        has_key(ps, o2),
        occurrence_key(o1) != occurrence_key(o2),
    ensures
        ps.len() >= 2,
{
    reveal(has_key);
    let j1 = choose|j: int| 0 <= j < ps.len() && occurrence_key(#[trigger] ps[j]) == occurrence_key(o1);
    let j2 = choose|j: int| 0 <= j < ps.len() && occurrence_key(#[trigger] ps[j]) == occurrence_key(o2);
    assert(j1 != j2);
}

} // verus!

verus! {

/// The reported block of one gathered block, with its sort key; none when
/// it has fewer than two places.
fn finish_block(
    files: &[ProcessedFile],
    block: PendingBlock,
    Ghost(cands): Ghost<Seq<CandidateView>>,
) -> (r: Option<(BlockKey, DuplicateBlock)>)
    requires
        pending_wf(block),
        candidates_exact(files@, cands),
        weights_fit(files@),
        forall|j: int|
            0 <= j < places(block).len() ==> candidate_with_place(
                cands,
                block_lines(block),
                #[trigger] places(block)[j],
            ),
        forall|o: OccurrenceView| #[trigger] produces(files@, block_lines(block), o) ==> has_key(places(block), o),
    ensures
        places(block).len() >= 2 ==> r is Some,
        r matches Some(x) ==> reported_block(files@, x.1) && x.1.lines_view() == block_lines(block)
            && x.0.view_key() == block_key(x.1),
{
    let ghost b = block;
    let PendingBlock { lines, keys: _, occurrences } = block;
    let ghost lv = texts(lines@);
    let ghost ps = places(b);
    if lines.len() == 0 || occurrences.len() < 2 {
        proof {
            if ps.len() >= 2 {
                lemma_place_produced(files@, cands, lv, ps[0]);
                reveal(candidate_with_place);
                lemma_produced_nonempty(files@, lv, ps[0]);
            }
        }
        return None;
    }
    let n = occurrences.len();
    let line_count = lines.len();
    proof {
        reveal(pending_wf);
        assert(places_sorted(ps));
        assert forall|j: int| 0 <= j < ps.len() implies produces(files@, lv, #[trigger] ps[j]) by {
            lemma_place_produced(files@, cands, lv, ps[j]);
        }
        assert(all_produced(files@, lv, ps));
        assert(ps.len() == n && lv.len() == line_count);
        let c = total_chars(lv);
        assert(c <= u64::MAX) by (nonlinear_arith)
            requires
                (n - 1) * line_count * c <= u64::MAX,
                n >= 2,
                line_count >= 1,
        ;
    }
    let unweighted = DuplicateBlock { normalized_lines: lines, occurrences, weight: 0 };
    let chars = unweighted.character_count();
    proof {
        assert((n - 1) * line_count <= u64::MAX);
        assert(block_weight(ps, lv) == (n - 1) * line_count * chars);
    }
    let weight = (n as u64 - 1) * line_count as u64 * chars;
    let DuplicateBlock { normalized_lines, occurrences, weight: _ } = unweighted;
    let reported = DuplicateBlock { normalized_lines, occurrences, weight };
    proof {
        assert(block_places(reported) =~= ps);
        assert forall|o: OccurrenceView| produces(files@, lv, o) implies exists|j: int|
            0 <= j < ps.len() && occurrence_key(#[trigger] ps[j]) == occurrence_key(o) by {
            assert(has_key(ps, o));
            reveal(has_key);
        }
    }
    let key = block_sort_key(&reported, chars);
    Some((key, reported))
}

/// A produced place stands for non-empty texts.
proof fn lemma_produced_nonempty(files: Seq<ProcessedFile>, lines: Seq<Seq<char>>, o: OccurrenceView)
    requires
        produces(files, lines, o),
    ensures
        lines.len() > 0,
{
}

/// Turns the gathered blocks with at least two places into reported blocks,
/// in report order.
fn finish_blocks(
    files: &[ProcessedFile],
    acc: Vec<PendingBlock>,
    Ghost(cands): Ghost<Seq<CandidateView>>,
) -> (r: Vec<DuplicateBlock>)
    requires
        accumulated(acc@, cands),
        candidates_exact(files@, cands),
        weights_fit(files@),
    ensures
        forall|k: int| 0 <= k < r@.len() ==> reported_block(files@, #[trigger] r@[k]),
        forall|k1: int, k2: int|
            0 <= k1 < r@.len() && 0 <= k2 < r@.len() && k1 != k2 ==> #[trigger] r@[k1].lines_view()
                != #[trigger] r@[k2].lines_view(),
        forall|e: int|
            0 <= e < acc@.len() && places(#[trigger] acc@[e]).len() >= 2 ==> exists|k: int|
                0 <= k < r@.len() && #[trigger] r@[k].lines_view() == block_lines(acc@[e]),
        keys_sorted(r@.map_values(|b: DuplicateBlock| block_key(b))),
{
    let ghost all = acc@;
    let mut acc = acc;
    let mut keys: Vec<BlockKey> = Vec::new();
    let mut out: Vec<DuplicateBlock> = Vec::new();
    let ghost mut origin: Seq<int> = Seq::empty();
    proof {
        assert(out@.map_values(|b: DuplicateBlock| block_key(b)) =~= Seq::<BlockKeyView>::empty());
    }
    while acc.len() > 0
        invariant
            acc@ == all.take(acc@.len() as int),
            acc@.len() <= all.len(),
            accumulated(all, cands),
            candidates_exact(files@, cands),
            weights_fit(files@),
            origin.len() == out@.len(),
            keys@.len() == out@.len(),
            forall|i: int| 0 <= i < keys@.len() ==> #[trigger] keys@[i].view_key() == block_key(out@[i]),
            keys_sorted(out@.map_values(|b: DuplicateBlock| block_key(b))),
            forall|k: int| 0 <= k < out@.len() ==> reported_block(files@, #[trigger] out@[k]),
            forall|k: int|
                0 <= k < out@.len() ==> acc@.len() <= #[trigger] origin[k] < all.len()
                    && out@[k].lines_view() == block_lines(all[origin[k]]),
            forall|k1: int, k2: int|
                0 <= k1 < out@.len() && 0 <= k2 < out@.len() && k1 != k2 ==> #[trigger] origin[k1]
                    != #[trigger] origin[k2],
            forall|e: int|
                acc@.len() <= e < all.len() && places(#[trigger] all[e]).len() >= 2 ==> exists|k: int|
                    0 <= k < out@.len() && #[trigger] out@[k].lines_view() == block_lines(all[e]),
        decreases acc@.len(),
    {
        let block = acc.pop().unwrap();
        let ghost e = acc@.len() as int;
        proof {
            assert(all[e] == block);
            assert(acc@ =~= all.take(e));
            assert forall|o: OccurrenceView| #[trigger] produces(files@, block_lines(block), o) implies has_key(
                places(block),
                o,
            ) by {
                lemma_produced_place_kept(files@, all, cands, block_lines(block), o);
            }
        }
        let ghost places_count = places(block).len();
        let finished = finish_block(files, block, Ghost(cands));
        if let Some((key, reported)) = finished {
            let ghost old_out = out@;
            let ghost old_origin = origin;
            let j = insert_sorted(&mut keys, &mut out, key, reported);
            proof {
                origin = origin.insert(j as int, e);
                assert forall|k: int| 0 <= k < out@.len() implies reported_block(files@, #[trigger] out@[k]) by {
                    if k < j {
                        assert(out@[k] == old_out[k]);
                    } else if k > j {
                        assert(out@[k] == old_out[k - 1]);
                    }
                }
                assert forall|k: int|
                    0 <= k < out@.len() implies acc@.len() <= #[trigger] origin[k] < all.len()
                        && out@[k].lines_view() == block_lines(all[origin[k]]) by {
                    if k < j {
                        assert(out@[k] == old_out[k] && origin[k] == old_origin[k]);
                    } else if k > j {
                        assert(out@[k] == old_out[k - 1] && origin[k] == old_origin[k - 1]);
                    }
                }
                assert forall|k1: int, k2: int|
                    0 <= k1 < out@.len() && 0 <= k2 < out@.len() && k1 != k2 implies #[trigger] origin[k1]
                        != #[trigger] origin[k2] by {
                    if k1 != j && k2 != j {
                        let a = if k1 < j { k1 } else { k1 - 1 };
                        let c = if k2 < j { k2 } else { k2 - 1 };
                        assert(origin[k1] == old_origin[a] && origin[k2] == old_origin[c]);
                    } else if k1 == j {
                        let c = if k2 < j { k2 } else { k2 - 1 };
                        assert(origin[k2] == old_origin[c]);
                    } else {
                        let a = if k1 < j { k1 } else { k1 - 1 };
                        assert(origin[k1] == old_origin[a]);
                    }
                }
                assert forall|e2: int|
                    acc@.len() <= e2 < all.len() && places(#[trigger] all[e2]).len() >= 2 implies exists|k: int|
                        0 <= k < out@.len() && #[trigger] out@[k].lines_view() == block_lines(all[e2]) by {
                    if e2 == e {
                        assert(out@[j as int].lines_view() == block_lines(all[e2]));
                    } else {
                        let k = choose|k: int|
                            0 <= k < old_out.len() && #[trigger] old_out[k].lines_view() == block_lines(all[e2]);
                        if k < j {
                            assert(out@[k] == old_out[k]);
                        } else {
                            assert(out@[k + 1] == old_out[k]);
                        }
                    }
                }
            }
        }
    }
    proof {
        assert forall|k1: int, k2: int|
            0 <= k1 < out@.len() && 0 <= k2 < out@.len() && k1 != k2 implies #[trigger] out@[k1].lines_view()
                != #[trigger] out@[k2].lines_view() by {
            assert(origin[k1] != origin[k2]);
        }
    }
    out
}

} // verus!

verus! {

/// What a duplicate search reports for `files`: only blocks that are
/// reported correctly, no two with the same texts, every duplicated text,
/// and in report order.
pub open spec fn detected_blocks(files: Seq<ProcessedFile>, r: Seq<DuplicateBlock>) -> bool {
    &&& forall|k: int| 0 <= k < r.len() ==> reported_block(files, #[trigger] r[k])
    &&& forall|k1: int, k2: int|
        0 <= k1 < r.len() && 0 <= k2 < r.len() && k1 != k2 ==> #[trigger] r[k1].lines_view()
            != #[trigger] r[k2].lines_view()
    &&& forall|lines: Seq<Seq<char>>|
        #[trigger] duplicated_text(files, lines) ==> exists|k: int|
            0 <= k < r.len() && #[trigger] r[k].lines_view() == lines
    &&& forall|i: int, k: int| 0 <= i < k < r.len() ==> !block_precedes(#[trigger] r[k], #[trigger] r[i])
}

/// Finds the blocks of lines that stand in more than one place.
///
/// A block grows from every pair of equal comparison lines as far as the
/// lines around them stay equal; copies that overlap within one file are
/// dropped. Blocks with the same texts are merged, each place kept once by
/// its display key. The blocks come heaviest first.
pub fn detect_duplicate_blocks(files: &[ProcessedFile]) -> (r: Vec<DuplicateBlock>)
    requires
        weights_fit(files@),
    ensures
        detected_blocks(files@, r@),
{
    let (acc, Ghost(cands)) = gather_blocks(files);
    report_gathered_blocks(files, acc, Ghost(cands))
}

/// Finds the blocks of lines that stand in more than one place, as
/// `detect_duplicate_blocks` does, when the weight of every block fits in
/// 64 bits; none exactly when some weight does not.
pub fn try_detect_duplicate_blocks(files: &[ProcessedFile]) -> (r: Option<Vec<DuplicateBlock>>)
    ensures
        r is Some <==> weights_fit(files@),
        r matches Some(v) ==> detected_blocks(files@, v@),
{
    let (acc, Ghost(cands)) = gather_blocks(files);
    if !gathered_weights_fit(files, &acc, Ghost(cands)) {
        return None;
    }
    Some(report_gathered_blocks(files, acc, Ghost(cands)))
}

/// The weight of a gathered block fits, and so does its first product.
spec fn block_fits(b: PendingBlock) -> bool {
    &&& (places(b).len() - 1) * block_lines(b).len() <= u64::MAX
    &&& block_weight(places(b), block_lines(b)) <= u64::MAX
}

/// The places of a gathered block are places of its texts, in ascending
/// key order.
proof fn lemma_gathered_block_produced(
    files: Seq<ProcessedFile>,
    acc: Seq<PendingBlock>,
    cands: Seq<CandidateView>,
    e: int,
)
    requires
        accumulated(acc, cands),
        candidates_exact(files, cands),
        0 <= e < acc.len(),
    ensures
        all_produced(files, block_lines(acc[e]), places(acc[e])),
        places_sorted(places(acc[e])),
{
    let b = acc[e];
    assert(pending_wf(b));
    reveal(pending_wf);
    assert forall|j: int| 0 <= j < places(b).len() implies produces(files, block_lines(b), #[trigger] places(b)[j]) by {
        lemma_place_produced(files, cands, block_lines(b), places(b)[j]);
    }
}

/// Places with distinct keys, each with a key among `qs`, are no more than
/// `qs`.
proof fn lemma_keys_within(ps: Seq<OccurrenceView>, qs: Seq<OccurrenceView>)
    requires
        places_sorted(ps),
        forall|j: int| 0 <= j < ps.len() ==> has_key(qs, #[trigger] ps[j]),
    ensures
        ps.len() <= qs.len(),
{
    reveal(has_key);
    let g = Seq::new(
        ps.len(),
        |j: int| choose|k: int| 0 <= k < qs.len() && occurrence_key(#[trigger] qs[k]) == occurrence_key(ps[j]),
    );
    assert forall|j: int| 0 <= j < ps.len() implies 0 <= #[trigger] g[j] < qs.len() && occurrence_key(qs[g[j]])
        == occurrence_key(ps[j]) by {
        assert(has_key(qs, ps[j]));
    }
    assert forall|j1: int, j2: int| 0 <= j1 < g.len() && 0 <= j2 < g.len() && j1 != j2 implies g[j1] != g[j2] by {
        if g[j1] == g[j2] {
            lemma_occurrence_trichotomy(ps[j1], ps[j2]);
            if j1 < j2 {
                assert(occurrence_lt(ps[j1], ps[j2]));
            } else {
                assert(occurrence_lt(ps[j2], ps[j1]));
            }
        }
    }
    assert(g.no_duplicates());
    g.unique_seq_to_set();
    let range = Seq::new(qs.len(), |k: int| k);
    assert forall|k: int| g.to_set().contains(k) implies range.to_set().contains(k) by {
        let j = choose|j: int| 0 <= j < g.len() && g[j] == k;
        assert(range[k] == k);
    }
    vstd::seq_lib::seq_to_set_is_finite(range);
    vstd::set_lib::lemma_len_subset(g.to_set(), range.to_set());
    range.lemma_cardinality_of_set();
}

/// When every gathered block's weight fits, so does the weight of every
/// block the input can give.
proof fn lemma_fitting_blocks(files: Seq<ProcessedFile>, acc: Seq<PendingBlock>, cands: Seq<CandidateView>)
    requires
        accumulated(acc, cands),
        candidates_exact(files, cands),
        forall|e: int| 0 <= e < acc.len() ==> block_fits(#[trigger] acc[e]),
    ensures
        weights_fit(files),
{
    assert forall|lines: Seq<Seq<char>>, ps: Seq<OccurrenceView>|
        #[trigger] all_produced(files, lines, ps) && places_sorted(ps) implies (ps.len() - 1) * lines.len()
        <= u64::MAX && block_weight(ps, lines) <= u64::MAX by {
        let l = lines.len() as int;
        let t = total_chars(lines) as int;
        if ps.len() == 0 {
            assert((ps.len() - 1) * l * t <= 0) by (nonlinear_arith)
                requires
                    ps.len() == 0,
                    0 <= l,
                    0 <= t,
            ;
        } else {
            lemma_produced_place_kept(files, acc, cands, lines, ps[0]);
            reveal(has_block_for);
            let e = choose|e: int| 0 <= e < acc.len() && #[trigger] block_lines(acc[e]) == lines;
            assert forall|j: int| 0 <= j < ps.len() implies has_key(places(acc[e]), #[trigger] ps[j]) by {
                lemma_produced_place_kept(files, acc, cands, lines, ps[j]);
            }
            lemma_keys_within(ps, places(acc[e]));
            assert(block_fits(acc[e]));
            let a = ps.len() - 1;
            let p = places(acc[e]).len() - 1;
            assert(a * l <= p * l) by (nonlinear_arith)
                requires
                    0 <= a <= p,
                    0 <= l,
            ;
            assert(a * l * t <= p * l * t) by (nonlinear_arith)
                requires
                    0 <= a <= p,
                    0 <= l,
                    0 <= t,
            ;
        }
    }
}

/// The number of characters of a gathered block's lines, or none when it
/// does not fit in 128 bits.
fn block_chars(block: &PendingBlock) -> (r: Option<u128>)
    ensures
        match r {
            Some(c) => c == total_chars(block_lines(*block)),
            None => total_chars(block_lines(*block)) > u128::MAX,
        },
{
    let ghost lines = block_lines(*block);
    let mut total: u128 = 0;
    let mut j: usize = 0;
    while j < block.lines.len()
        invariant
            j <= block.lines@.len(),
            lines == block_lines(*block),
            total == total_chars(lines.take(j as int)),
        decreases block.lines.len() - j,
    {
        proof {
            assert(lines.take(j + 1).drop_last() =~= lines.take(j as int));
            assert(lines.take(j + 1).last() == block.lines@[j as int]@);
        }
        let n = char_count(block.lines[j].as_str());
        match total.checked_add(n as u128) {
            Some(t) => total = t,
            None => {
                proof {
                    crate::model::lemma_total_chars_prefix(lines, j + 1);
                }
                return None;
            },
        }
        j += 1;
    }
    assert(lines.take(j as int) =~= lines);
    Some(total)
}

/// Whether the weight of every gathered block fits, which decides whether
/// the weights of all blocks the input can give fit.
fn gathered_weights_fit(files: &[ProcessedFile], acc: &Vec<PendingBlock>, Ghost(cands): Ghost<Seq<CandidateView>>) -> (r: bool)
    requires
        accumulated(acc@, cands),
        candidates_exact(files@, cands),
    ensures
        r == weights_fit(files@),
{
    let mut e: usize = 0;
    while e < acc.len()
        invariant
            e <= acc@.len(),
            accumulated(acc@, cands),
            candidates_exact(files@, cands),
            forall|k: int| 0 <= k < e ==> block_fits(#[trigger] acc@[k]),
        decreases acc.len() - e,
    {
        let block = &acc[e];
        let ghost ps = places(*block);
        let ghost lines = block_lines(*block);
        proof {
            lemma_gathered_block_produced(files@, acc@, cands, e as int);
        }
        let n = block.occurrences.len();
        let line_count = block.lines.len();
        assert(ps.len() == n && lines.len() == line_count);
        if n >= 2 {
            let first = (n - 1) as u128;
            let lc = line_count as u128;
            assert(first * lc <= u128::MAX) by (nonlinear_arith)
                requires
                    first <= usize::MAX,
                    lc <= usize::MAX,
                    usize::MAX < 0x1_0000_0000_0000_0000,
            ;
            let product = first * lc;
            if product > u64::MAX as u128 {
                return false;
            }
            match block_chars(block) {
                None => {
                    proof {
                        if line_count == 0 {
                            assert(lines =~= Seq::<Seq<char>>::empty());
                        }
                        assert(product >= 1) by (nonlinear_arith)
                            requires
                                first >= 1,
                                lc >= 1,
                                product == first * lc,
                        ;
                        assert(product * total_chars(lines) >= total_chars(lines)) by (nonlinear_arith)
                            requires
                                product >= 1,
                        ;
                    }
                    return false;
                },
                Some(chars) => {
                    match product.checked_mul(chars) {
                        None => {
                            return false;
                        },
                        Some(w) => {
                            if w > u64::MAX as u128 {
                                return false;
                            }
                        },
                    }
                },
            }
        }
        proof {
            if n < 2 {
                let t = total_chars(lines) as int;
                let l = line_count as int;
                assert((ps.len() - 1) * l * t <= 0) by (nonlinear_arith)
                    requires
                        ps.len() <= 1,
                        0 <= l,
                        0 <= t,
                ;
                assert((ps.len() - 1) * l <= 0) by (nonlinear_arith)
                    requires
                        ps.len() <= 1,
                        0 <= l,
                ;
            }
        }
        e += 1;
    }
    proof {
        lemma_fitting_blocks(files@, acc@, cands);
    }
    true
}

/// The reported blocks of the gathered blocks.
fn report_gathered_blocks(files: &[ProcessedFile], acc: Vec<PendingBlock>, Ghost(cands): Ghost<Seq<CandidateView>>) -> (r: Vec<DuplicateBlock>)
    requires
        accumulated(acc@, cands),
        candidates_exact(files@, cands),
        weights_fit(files@),
    ensures
        detected_blocks(files@, r@),
{
    let ghost all = acc@;
    let r = finish_blocks(files, acc, Ghost(cands));
    proof {
        assert forall|lines: Seq<Seq<char>>| #[trigger] duplicated_text(files@, lines) implies exists|k: int|
            0 <= k < r@.len() && #[trigger] r@[k].lines_view() == lines by {
            let (o1, o2) = choose|o1: OccurrenceView, o2: OccurrenceView|
                #![trigger produces(files@, lines, o1), produces(files@, lines, o2)]
                produces(files@, lines, o1) && produces(files@, lines, o2) && occurrence_key(o1)
                    != occurrence_key(o2);
            lemma_produced_place_kept(files@, all, cands, lines, o1);
            lemma_produced_place_kept(files@, all, cands, lines, o2);
            reveal(has_block_for);
            let e = choose|e: int| 0 <= e < all.len() && #[trigger] block_lines(all[e]) == lines;
            lemma_two_keys(places(all[e]), o1, o2);
        }
        let ks = r@.map_values(|b: DuplicateBlock| block_key(b));
        assert forall|i: int, k: int| 0 <= i < k < r@.len() implies !block_precedes(
            #[trigger] r@[k],
            #[trigger] r@[i],
        ) by {
            assert(ks[k] == block_key(r@[k]) && ks[i] == block_key(r@[i]));
        }
    }
    r
}

} // verus!

verus! {

/// Two runs of `n` equal lines of file `f`, at `s1` and `s2`, stay equal for
/// the rest of a run that starts `k` lines in.
proof fn lemma_run_forward(files: Seq<ProcessedFile>, f: int, s1: int, s2: int, n: int, k: int)
    requires
        0 <= f < files.len(),
        0 <= s1,
        n >= 1,
        s1 + n <= s2,
        s2 + n <= files[f].lines@.len(),
        0 <= k < n,
        forall|i: int| 0 <= i < n ==> line_text(files, f, s1 + i) == #[trigger] line_text(files, f, s2 + i),
        s2 + n == files[f].lines@.len() || line_text(files, f, s1 + n) != line_text(files, f, s2 + n),
    ensures
        fwd_len(files, f, s1 + k, f, s2 + k) == n - 1 - k,
    decreases n - k,
{
    if k + 1 < n {
        lemma_run_forward(files, f, s1, s2, n, k + 1);
        assert(line_text(files, f, s1 + (k + 1)) == line_text(files, f, s2 + (k + 1)));
    }
}

/// Two equal copies of a block of lines in one file, apart from each other,
/// are reported together.
///
/// Where lines `s1..s1+n` and `s2..s2+n` of file `f` hold the same texts,
/// the second copy starts after the first one ends, both runs are as long
/// as the lines around them allow (the lines just before, and just after,
/// the two copies differ or do not exist), and the first line of each copy
/// is a comparison line with the same hash, the search reports a block with
/// exactly these texts that lists a place with the key of each copy.
pub proof fn lemma_same_file_copies_reported(
    files: Seq<ProcessedFile>,
    r: Seq<DuplicateBlock>,
    f: int,
    s1: int,
    s2: int,
    n: int,
)
    requires
        detected_blocks(files, r),
        0 <= f < files.len(),
        forall|a: int, b: int|
            0 <= a < b < files[f].lines@.len() ==> files[f].lines@[a].line_number
                < files[f].lines@[b].line_number,
        0 <= s1,
        n >= 1,
        s1 + n <= s2,
        s2 + n <= files[f].lines@.len(),
        forall|i: int| 0 <= i < n ==> line_text(files, f, s1 + i) == #[trigger] line_text(files, f, s2 + i),
        s1 == 0 || line_text(files, f, s1 - 1) != line_text(files, f, s2 - 1),
        s2 + n == files[f].lines@.len() || line_text(files, f, s1 + n) != line_text(files, f, s2 + n),
        entry(files, f, s1).status == LineStatus::Comparison,
        entry(files, f, s2).status == LineStatus::Comparison,
        entry(files, f, s1).hash == entry(files, f, s2).hash,
    ensures
        exists|k: int|
            0 <= k < r.len() && #[trigger] r[k].lines_view() == block_text(files, f, s1, s1 + n - 1)
                && (exists|j: int|
                0 <= j < block_places(r[k]).len() && occurrence_key(#[trigger] block_places(r[k])[j])
                    == occurrence_key(occurrence_at(files, f, s1, s1 + n - 1)))
                && (exists|j: int|
                0 <= j < block_places(r[k]).len() && occurrence_key(#[trigger] block_places(r[k])[j])
                    == occurrence_key(occurrence_at(files, f, s2, s2 + n - 1))),
{
    let lines = block_text(files, f, s1, s1 + n - 1);
    let o1 = occurrence_at(files, f, s1, s1 + n - 1);
    let o2 = occurrence_at(files, f, s2, s2 + n - 1);
    assert(line_text(files, f, s1 + 0) == line_text(files, f, s2 + 0));
    assert(back_len(files, f, s1, f, s2) == 0);
    lemma_run_forward(files, f, s1, s2, n, 0);
    assert(matching_pair(files, f, s1, f, s2));
    assert(pair_candidate(files, f, s1, f, s2) == Some((lines, o1, o2)));
    assert(produces(files, lines, o1));
    assert(produces(files, lines, o2));
    assert(occurrence_key(o1) != occurrence_key(o2));
    assert(duplicated_text(files, lines));
    let k = choose|k: int| 0 <= k < r.len() && #[trigger] r[k].lines_view() == lines;
    assert(reported_block(files, r[k]));
}

} // verus!
