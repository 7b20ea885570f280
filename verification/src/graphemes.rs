use unicode_segmentation::UnicodeSegmentation;
use vstd::prelude::*;

use crate::text::{byte_len, char_boundary};

verus! {

/// The byte offsets, in the order produced, at which
/// `UnicodeSegmentation::grapheme_indices(text, true)` of the
/// `unicode-segmentation` crate starts each extended grapheme cluster of `text`.
pub uninterp spec fn grapheme_starts(text: Seq<char>) -> Seq<usize>;

/// What the crate's source shows of every segmentation: the clusters tile the
/// text from its start, so the offsets begin at 0 (and are absent exactly for
/// empty text), strictly increase, and each lies inside the text on a
/// character boundary.
pub open spec fn tiles(text: Seq<char>, starts: Seq<usize>) -> bool {
    &&& (starts.len() == 0 <==> text.len() == 0)
    &&& (starts.len() > 0 ==> starts[0] == 0)
    &&& forall|i: int, j: int| 0 <= i < j < starts.len() ==> starts[i] < starts[j]
    &&& forall|i: int|
        0 <= i < starts.len() ==> starts[i] < byte_len(text) && char_boundary(
            text,
            #[trigger] starts[i] as int,
        )
}

/// Calls `UnicodeSegmentation::grapheme_indices(text, true)` and keeps the
/// start offset of each cluster. Trusted: the offsets are `grapheme_starts`
/// of the text, and they tile the text as `tiles` states (the iterator slices
/// `text[start..next]` between successive cursor boundaries, beginning at 0).
/// Which offsets are cluster boundaries (the UAX #29 rules) is not stated.
#[verifier::external_body]
pub(crate) fn grapheme_offsets(text: &str) -> (offsets: Vec<usize>)
    ensures
        offsets@ == grapheme_starts(text@),
        tiles(text@, offsets@),
{
    text.grapheme_indices(true).map(|(start, _)| start).collect()
}

} // verus!
