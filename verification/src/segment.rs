//! Segmentation of decoded characters into user-perceived character clusters
//! (extended grapheme clusters). The segmentation itself is the outside
//! crate's; its result is named by the uninterpreted function `clusters_of`,
//! and the properties the streaming pipeline relies on are stated on the
//! wrapper below.

use vstd::prelude::*;

use unicode_segmentation::UnicodeSegmentation;

verus! {

/// The extended grapheme cluster segmentation (UAX #29) of a character
/// sequence: the list of clusters, in order. A function of the characters
/// alone.
pub uninterp spec fn clusters_of(s: Seq<char>) -> Seq<Seq<char>>;

/// Relies on unicode_segmentation::UnicodeSegmentation::graphemes with
/// extended grapheme clusters (UAX #29). The stated properties are those the
/// crate documents and its incremental GraphemeCursor interface is built on:
/// the clusters concatenate back to the input and are nonempty; segmentation
/// is computed left to right, so appending text moves no boundary strictly
/// inside the input — re-segmenting from the last cluster's start onward
/// yields the same clusters as segmenting the whole.
#[verifier::external_body]
pub fn segment_clusters(chars: &Vec<char>) -> (r: Vec<Vec<char>>)
    requires
        chars@.len() > 0,
    ensures
        r.deep_view() == clusters_of(chars@),
        r.deep_view().flatten() == chars@,
        r.deep_view().len() > 0,
        forall|i: int| 0 <= i < r.deep_view().len() ==> r.deep_view()[i].len() > 0,
        clusters_of(r.deep_view().last()) == seq![r.deep_view().last()],
        forall|t: Seq<char>|
            #[trigger] clusters_of(chars@ + t) == r.deep_view().drop_last() + clusters_of(
                r.deep_view().last() + t,
            ),
{
    let s: String = chars.iter().collect();
    s.as_str().graphemes(true).map(|g| g.chars().collect::<Vec<char>>()).collect()
}

} // verus!
