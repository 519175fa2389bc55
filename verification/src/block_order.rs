//! The order in which duplicate blocks are reported.

use vstd::prelude::*;

use crate::model::{texts, total_chars, DuplicateBlock};
use crate::paths::{path_key, path_key_chars};
use crate::text::{chars_of, compare_chars, lemma_text_lt_transitive, lemma_text_trichotomy, text_lt, Comparison3};

verus! {

/// The lines of a block joined with a line feed between them.
pub open spec fn joined(lines: Seq<Seq<char>>) -> Seq<char>
    decreases lines.len(),
{
    if lines.len() == 0 {
        Seq::empty()
    } else if lines.len() == 1 {
        lines[0]
    } else {
        joined(lines.drop_last()) + seq!['\n'] + lines.last()
    }
}

/// The display key of a block's first place; empty for a block without
/// places.
pub open spec fn first_key(b: DuplicateBlock) -> Seq<char> {
    if b.occurrences@.len() > 0 {
        path_key(b.occurrences@[0].file_path@)
    } else {
        Seq::empty()
    }
}

/// The first line of a block's first place; zero for a block without places.
pub open spec fn first_start(b: DuplicateBlock) -> int {
    if b.occurrences@.len() > 0 {
        b.occurrences@[0].start_line as int
    } else {
        0
    }
}

/// What blocks are ordered by: weight, line count, character count, first
/// display key, first line and joined text.
pub type BlockKeyView = (int, int, int, Seq<char>, int, Seq<char>);

pub open spec fn block_key(b: DuplicateBlock) -> BlockKeyView {
    (
        b.weight as int,
        b.normalized_lines@.len() as int,
        total_chars(b.lines_view()) as int,
        first_key(b),
        first_start(b),
        joined(b.lines_view()),
    )
}

/// Strict order of keys: heavier, longer and larger blocks first, then by
/// place and text.
pub open spec fn key_lt(a: BlockKeyView, b: BlockKeyView) -> bool {
    ||| a.0 > b.0
    ||| a.0 == b.0 && a.1 > b.1
    ||| a.0 == b.0 && a.1 == b.1 && a.2 > b.2
    ||| a.0 == b.0 && a.1 == b.1 && a.2 == b.2 && text_lt(a.3, b.3)
    ||| a.0 == b.0 && a.1 == b.1 && a.2 == b.2 && a.3 == b.3 && a.4 < b.4
    ||| a.0 == b.0 && a.1 == b.1 && a.2 == b.2 && a.3 == b.3 && a.4 == b.4 && text_lt(a.5, b.5)
}

/// Block `a` is reported before block `b`.
pub open spec fn block_precedes(a: DuplicateBlock, b: DuplicateBlock) -> bool {
    key_lt(block_key(a), block_key(b))
}

/// No key comes before itself.
pub proof fn lemma_key_lt_irreflexive(a: BlockKeyView)
    ensures
        !key_lt(a, a),
{
    lemma_text_trichotomy(a.3, a.3);
    lemma_text_trichotomy(a.5, a.5);
}

/// The key order is transitive.
pub proof fn lemma_key_lt_transitive(a: BlockKeyView, b: BlockKeyView, c: BlockKeyView)
    requires
        key_lt(a, b),
        key_lt(b, c),
    ensures
        key_lt(a, c),
{
    lemma_text_trichotomy(a.3, b.3);
    lemma_text_trichotomy(b.3, c.3);
    lemma_text_trichotomy(a.3, c.3);
    lemma_text_trichotomy(a.5, b.5);
    lemma_text_trichotomy(b.5, c.5);
    lemma_text_trichotomy(a.5, c.5);
    if text_lt(a.3, b.3) && text_lt(b.3, c.3) {
        lemma_text_lt_transitive(a.3, b.3, c.3);
    }
    if text_lt(a.5, b.5) && text_lt(b.5, c.5) {
        lemma_text_lt_transitive(a.5, b.5, c.5);
    }
}

/// Keys in report order: no key comes before an earlier one.
pub open spec fn keys_sorted(ks: Seq<BlockKeyView>) -> bool {
    forall|i: int, k: int| 0 <= i < k < ks.len() ==> !key_lt(#[trigger] ks[k], #[trigger] ks[i])
}

/// The sort key of a block, computed once.
pub struct BlockKey {
    pub weight: u64,
    pub lines: usize,
    pub chars: u64,
    pub first_key: Vec<char>,
    pub first_start: usize,
    pub text: Vec<char>,
}

impl BlockKey {
    pub open spec fn view_key(&self) -> BlockKeyView {
        (
            self.weight as int,
            self.lines as int,
            self.chars as int,
            self.first_key@,
            self.first_start as int,
            self.text@,
        )
    }
}

/// Joins the lines of a block with a line feed between them.
pub fn join_lines(lines: &Vec<String>) -> (out: Vec<char>)
    ensures
        out@ == joined(texts(lines@)),
{
    let mut out: Vec<char> = Vec::new();
    let mut i: usize = 0;
    while i < lines.len()
        invariant
            i <= lines@.len(),
            out@ == joined(texts(lines@).take(i as int)),
        decreases lines.len() - i,
    {
        let mut chars = chars_of(lines[i].as_str());
        let ghost before = out@;
        if i > 0 {
            out.push('\n');
        }
        out.append(&mut chars);
        proof {
            let t = texts(lines@).take(i + 1);
            assert(t.drop_last() =~= texts(lines@).take(i as int));
            assert(t.last() == lines@[i as int]@);
            if i == 0 {
                assert(out@ =~= t[0]);
            } else {
                assert(out@ =~= before + seq!['\n'] + t.last());
            }
        }
        i += 1;
    }
    assert(texts(lines@).take(i as int) =~= texts(lines@));
    out
}

/// The sort key of a block whose character count is `chars`.
pub fn block_sort_key(b: &DuplicateBlock, chars: u64) -> (k: BlockKey)
    requires
        chars == total_chars(b.lines_view()),
    ensures
        k.view_key() == block_key(*b),
{
    let (key_chars, start) = if b.occurrences.len() > 0 {
        let path = chars_of(b.occurrences[0].file_path.as_str());
        (path_key_chars(path.as_slice()), b.occurrences[0].start_line)
    } else {
        (Vec::new(), 0)
    };
    let text = join_lines(&b.normalized_lines);
    let k = BlockKey {
        weight: b.weight,
        lines: b.normalized_lines.len(),
        chars,
        first_key: key_chars,
        first_start: start,
        text,
    };
    assert(k.first_key@ =~= first_key(*b));
    k
}

/// Whether key `a` comes before key `b`.
pub fn key_precedes(a: &BlockKey, b: &BlockKey) -> (r: bool)
    ensures
        r == key_lt(a.view_key(), b.view_key()),
{
    if a.weight != b.weight {
        return a.weight > b.weight;
    }
    if a.lines != b.lines {
        return a.lines > b.lines;
    }
    if a.chars != b.chars {
        return a.chars > b.chars;
    }
    proof {
        lemma_text_trichotomy(a.first_key@, b.first_key@);
        lemma_text_trichotomy(a.text@, b.text@);
    }
    match compare_chars(a.first_key.as_slice(), b.first_key.as_slice()) {
        Comparison3::Less => true,
        Comparison3::Greater => false,
        Comparison3::Equal => {
            if a.first_start != b.first_start {
                a.first_start < b.first_start
            } else {
                compare_chars(a.text.as_slice(), b.text.as_slice()) == Comparison3::Less
            }
        },
    }
}

/// Inserts a block and its key into blocks kept in report order, after every
/// block that does not come after it; returns where it went.
pub fn insert_sorted(
    keys: &mut Vec<BlockKey>,
    blocks: &mut Vec<DuplicateBlock>,
    key: BlockKey,
    block: DuplicateBlock,
) -> (j: usize)
    requires
        old(keys)@.len() == old(blocks)@.len(),
        forall|i: int| 0 <= i < old(keys)@.len() ==> #[trigger] old(keys)@[i].view_key() == block_key(old(blocks)@[i]),
        keys_sorted(old(blocks)@.map_values(|b: DuplicateBlock| block_key(b))),
        key.view_key() == block_key(block),
    ensures
        j <= old(blocks)@.len(),
        final(blocks)@ == old(blocks)@.insert(j as int, block),
        final(keys)@.len() == final(blocks)@.len(),
        forall|i: int| 0 <= i < final(keys)@.len() ==> #[trigger] final(keys)@[i].view_key() == block_key(final(blocks)@[i]),
        keys_sorted(final(blocks)@.map_values(|b: DuplicateBlock| block_key(b))),
{
    let ghost ks = blocks@.map_values(|b: DuplicateBlock| block_key(b));
    let n = keys.len();
    let mut j: usize = 0;
    while j < n
        invariant
            n == keys@.len(),
            n == blocks@.len(),
            j <= n,
            *keys == *old(keys),
            *blocks == *old(blocks),
            forall|i: int| 0 <= i < keys@.len() ==> #[trigger] keys@[i].view_key() == block_key(blocks@[i]),
            forall|i: int| 0 <= i < j ==> !key_lt(key.view_key(), #[trigger] ks[i]),
            ks == blocks@.map_values(|b: DuplicateBlock| block_key(b)),
        ensures
            j <= n,
            *keys == *old(keys),
            *blocks == *old(blocks),
            forall|i: int| 0 <= i < j ==> !key_lt(key.view_key(), #[trigger] ks[i]),
            j < n ==> key_lt(key.view_key(), ks[j as int]),
        decreases n - j,
    {
        assert(ks[j as int] == block_key(blocks@[j as int]));
        assert(keys@[j as int].view_key() == ks[j as int]);
        if key_precedes(&key, &keys[j]) {
            break;
        }
        j += 1;
    }
    let ghost kv = key.view_key();
    keys.insert(j, key);
    blocks.insert(j, block);
    proof {
        let ks2 = blocks@.map_values(|b: DuplicateBlock| block_key(b));
        assert(ks2 =~= ks.insert(j as int, kv));
        assert forall|i: int, k: int| 0 <= i < k < ks2.len() implies !key_lt(#[trigger] ks2[k], #[trigger] ks2[i]) by {
            if k < j {
                assert(ks2[k] == ks[k] && ks2[i] == ks[i]);
            } else if k == j {
                assert(ks2[i] == ks[i]);
            } else if i < j {
                assert(ks2[k] == ks[k - 1] && ks2[i] == ks[i]);
            } else if i == j {
                assert(ks2[k] == ks[k - 1]);
                if key_lt(ks[k - 1], kv) {
                    lemma_key_lt_transitive(ks[k - 1], kv, ks[j as int]);
                    if k - 1 == j {
                        lemma_key_lt_irreflexive(ks[j as int]);
                    }
                }
            } else {
                assert(ks2[k] == ks[k - 1] && ks2[i] == ks[i - 1]);
            }
        }
        assert forall|i: int| 0 <= i < keys@.len() implies #[trigger] keys@[i].view_key() == block_key(blocks@[i]) by {
            if i < j {
            } else if i == j {
            } else {
                assert(keys@[i] == old(keys)@[i - 1]);
            }
        }
    }
    j
}

} // verus!
