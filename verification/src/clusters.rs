//! Grapheme clusters as the framing sees them: a text cut into runs of bytes,
//! each run one user-perceived character.

use unicode_segmentation::UnicodeSegmentation;
use vstd::prelude::*;
use vstd::string::StringSliceAdditionalSpecFns;
use vstd::utf8::is_char_boundary;

verus! {

/// The byte lengths of the grapheme clusters of `text`, in the order of the
/// text, as `UnicodeSegmentation::graphemes` cuts them; `is_extended` chooses
/// between extended and legacy clusters.
pub uninterp spec fn grapheme_lengths(text: Seq<char>, is_extended: bool) -> Seq<usize>;

/// The offset at which cluster `i` begins: the lengths before it, added up.
/// With `i` the number of clusters, the offset at which the last one ends.
pub open spec fn boundary(lens: Seq<usize>, i: int) -> int
    decreases i,
{
    if i <= 0 {
        0
    } else {
        boundary(lens, i - 1) + lens[i - 1]
    }
}

/// `lens` cuts a text of `total` bytes into clusters: none is empty, and
/// together they cover the text.
pub open spec fn is_segmentation(lens: Seq<usize>, total: int) -> bool {
    &&& forall|i: int| 0 <= i < lens.len() ==> #[trigger] lens[i] >= 1
    &&& boundary(lens, lens.len() as int) == total
}

/// Every cut of `lens` falls between two characters of `bytes`.
pub open spec fn cuts_between_chars(lens: Seq<usize>, bytes: Seq<u8>) -> bool {
    forall|i: int| 0 <= i <= lens.len() ==> is_char_boundary(bytes, #[trigger] boundary(lens, i))
}

/// The cluster that holds the byte at offset `pos`.
pub open spec fn cluster_at(lens: Seq<usize>, pos: int) -> int {
    choose|i: int|
        0 <= i < lens.len() && #[trigger] boundary(lens, i) <= pos < boundary(lens, i + 1)
}

/// How many bytes lie between offset `pos` and the end of the cluster that
/// holds the byte at `pos`, that byte included.
pub open spec fn owed_from(lens: Seq<usize>, pos: int) -> int {
    boundary(lens, cluster_at(lens, pos) + 1) - pos
}

/// Calls `UnicodeSegmentation::graphemes` on `text` and hands out the byte
/// length of each cluster, in order. Believed of the outside iterator: what it
/// yields depends on the text and the flag alone; every item is a non-empty
/// `&str` cut from `text`; the first starts at offset zero, each next one where
/// the one before ended, and the last ends where the text ends.
#[verifier::external_body]
pub(crate) fn grapheme_byte_lengths(text: &str, is_extended: bool) -> (lens: Vec<usize>)
    ensures
        lens@ == grapheme_lengths(text@, is_extended),
        is_segmentation(lens@, text.spec_bytes().len() as int),
        cuts_between_chars(lens@, text.spec_bytes()),
{
    text.graphemes(is_extended).map(|g| g.len()).collect()
}

/// The offset at which cluster `index` begins, or at which the last cluster
/// ends where `index` is their number.
pub fn cluster_offset(cluster_lens: &[usize], index: usize) -> (offset: usize)
    requires
        index <= cluster_lens@.len(),
        boundary(cluster_lens@, cluster_lens@.len() as int) <= usize::MAX,
    ensures
        offset == boundary(cluster_lens@, index as int),
{
    let mut offset: usize = 0;
    let mut i: usize = 0;
    while i < index
        invariant
            i <= index <= cluster_lens@.len(),
            offset == boundary(cluster_lens@, i as int),
            boundary(cluster_lens@, cluster_lens@.len() as int) <= usize::MAX,
        decreases index - i,
    {
        proof {
            lemma_boundary_monotone(cluster_lens@, i + 1, cluster_lens@.len() as int);
        }
        offset = offset + cluster_lens[i];
        i = i + 1;
    }
    offset
}

/// The byte range of each cluster: where it begins and where it ends.
pub fn cluster_ranges(cluster_lens: &[usize]) -> (ranges: Vec<(usize, usize)>)
    requires
        boundary(cluster_lens@, cluster_lens@.len() as int) <= usize::MAX,
    ensures
        ranges@.len() == cluster_lens@.len(),
        forall|i: int|
            0 <= i < ranges@.len() ==> (#[trigger] ranges@[i]).0 == boundary(cluster_lens@, i)
                && ranges@[i].1 == boundary(cluster_lens@, i + 1),
{
    let mut ranges: Vec<(usize, usize)> = Vec::new();
    let mut byte_pos: usize = 0;
    let mut i: usize = 0;
    while i < cluster_lens.len()
        invariant
            i <= cluster_lens@.len(),
            ranges@.len() == i,
            byte_pos == boundary(cluster_lens@, i as int),
            boundary(cluster_lens@, cluster_lens@.len() as int) <= usize::MAX,
            forall|j: int|
                0 <= j < i ==> (#[trigger] ranges@[j]).0 == boundary(cluster_lens@, j)
                    && ranges@[j].1 == boundary(cluster_lens@, j + 1),
        decreases cluster_lens@.len() - i,
    {
        proof {
            lemma_boundary_monotone(cluster_lens@, i + 1, cluster_lens@.len() as int);
        }
        let end_pos: usize = byte_pos + cluster_lens[i];
        ranges.push((byte_pos, end_pos));
        byte_pos = end_pos;
        i = i + 1;
    }
    ranges
}

/// The byte range of each grapheme cluster of `s`, in order.
pub fn grapheme_ranges(s: &str) -> (ranges: Vec<(usize, usize)>)
    ensures
        ranges@.len() == grapheme_lengths(s@, true).len(),
        forall|i: int|
            0 <= i < ranges@.len() ==> (#[trigger] ranges@[i]).0 == boundary(
                grapheme_lengths(s@, true),
                i,
            ) && ranges@[i].1 == boundary(grapheme_lengths(s@, true), i + 1),
{
    let lens = grapheme_byte_lengths(s, true);
    let bytes = s.as_bytes();
    // A slice's length fits `usize`, and so does every offset into the text.
    assert(bytes@.len() == bytes.len());
    cluster_ranges(lens.as_slice())
}

/// Cuts `s` in two in front of the cluster with the given index: `None` where
/// `s` has fewer clusters than that, else the clusters before the cut and
/// those from it on.
pub fn split_at_grapheme(s: &str, grapheme_index: usize) -> (parts: Option<(&str, &str)>)
    ensures
        parts is Some <==> grapheme_index <= grapheme_lengths(s@, true).len(),
        parts matches Some((left, right)) ==> {
            let cut = boundary(grapheme_lengths(s@, true), grapheme_index as int);
            &&& left.spec_bytes() == s.spec_bytes().subrange(0, cut)
            &&& right.spec_bytes() == s.spec_bytes().subrange(cut, s.spec_bytes().len() as int)
            &&& left@ + right@ == s@
        },
{
    let lens = grapheme_byte_lengths(s, true);
    if grapheme_index > lens.len() {
        return None;
    }
    let bytes = s.as_bytes();
    // A slice's length fits `usize`, and so does every offset into the text.
    assert(bytes@.len() == bytes.len());
    let byte_index = cluster_offset(lens.as_slice(), grapheme_index);
    proof {
        vstd::utf8::encode_utf8_valid_utf8(s@);
        assert(is_char_boundary(s.spec_bytes(), boundary(lens@, grapheme_index as int)));
    }
    let (left, right) = s.split_at(byte_index);
    proof {
        vstd::utf8::encode_utf8_decode_utf8(s@);
        vstd::utf8::encode_utf8_decode_utf8(left@);
        vstd::utf8::encode_utf8_decode_utf8(right@);
        vstd::utf8::decode_utf8_split(s.spec_bytes(), byte_index as int);
        assert(left@ + right@ =~= s@);
    }
    Some((left, right))
}

/// A later boundary is not in front of an earlier one.
pub proof fn lemma_boundary_monotone(lens: Seq<usize>, i: int, j: int)
    requires
        0 <= i <= j <= lens.len(),
    ensures
        0 <= boundary(lens, i) <= boundary(lens, j),
    decreases j,
{
    if i < j {
        lemma_boundary_monotone(lens, i, j - 1);
    } else if i > 0 {
        lemma_boundary_monotone(lens, i - 1, j - 1);
    }
}

/// One more cluster moves the boundary by that cluster's length.
pub proof fn lemma_boundary_step(lens: Seq<usize>, i: int)
    requires
        0 <= i < lens.len(),
    ensures
        boundary(lens, i + 1) == boundary(lens, i) + lens[i],
{
}

/// Between two cuts lie at least as many bytes as clusters.
pub proof fn lemma_boundary_grows(lens: Seq<usize>, i: int, j: int)
    requires
        forall|k: int| 0 <= k < lens.len() ==> #[trigger] lens[k] >= 1,
        0 <= i <= j <= lens.len(),
    ensures
        boundary(lens, j) - boundary(lens, i) >= j - i,
    decreases j - i,
{
    if i < j {
        lemma_boundary_grows(lens, i, j - 1);
        assert(lens[j - 1] >= 1);
    }
}

/// Every byte of the text lies in some cluster.
pub proof fn lemma_cluster_exists(lens: Seq<usize>, total: int, pos: int)
    requires
        is_segmentation(lens, total),
        0 <= pos < total,
    ensures
        0 <= cluster_at(lens, pos) < lens.len(),
        boundary(lens, cluster_at(lens, pos)) <= pos < boundary(lens, cluster_at(lens, pos) + 1),
        1 <= owed_from(lens, pos) <= total - pos,
{
    let i = lemma_find_cluster(lens, lens.len() as int, pos);
    assert(0 <= i < lens.len() && boundary(lens, i) <= pos < boundary(lens, i + 1));
    let c = cluster_at(lens, pos);
    lemma_boundary_grows(lens, c + 1, lens.len() as int);
}

/// Below a boundary that lies behind `pos`, some cluster holds the byte at `pos`.
proof fn lemma_find_cluster(lens: Seq<usize>, upto: int, pos: int) -> (i: int)
    requires
        0 <= upto <= lens.len(),
        0 <= pos < boundary(lens, upto),
    ensures
        0 <= i < upto,
        boundary(lens, i) <= pos < boundary(lens, i + 1),
    decreases upto,
{
    if boundary(lens, upto - 1) <= pos {
        upto - 1
    } else {
        lemma_find_cluster(lens, upto - 1, pos)
    }
}

/// A byte lies in one cluster only.
pub proof fn lemma_cluster_at(lens: Seq<usize>, pos: int, i: int)
    requires
        forall|k: int| 0 <= k < lens.len() ==> #[trigger] lens[k] >= 1,
        0 <= i < lens.len(),
        boundary(lens, i) <= pos < boundary(lens, i + 1),
    ensures
        cluster_at(lens, pos) == i,
        owed_from(lens, pos) == boundary(lens, i + 1) - pos,
{
    let c = cluster_at(lens, pos);
    if c < i {
        lemma_boundary_grows(lens, c + 1, i);
    } else if i < c {
        lemma_boundary_grows(lens, i + 1, c);
    }
}

} // verus!
