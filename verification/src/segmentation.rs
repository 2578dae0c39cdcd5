//! Unicode text segmentation, as far as the line editor needs it.
//!
//! The segmentation itself is the work of the `unicode-segmentation` crate.
//! Nothing here proves what a grapheme cluster or a word break is: the two
//! spec functions without a body stand for what that crate returns, and the
//! two functions marked `external_body` are believed, not verified.

use unicode_segmentation::UnicodeSegmentation;
use crate::text::{any_clear, chars_of, is_white_space, white_marks};
use vstd::prelude::*;
use vstd::string::*;

verus! {

/// The extended grapheme clusters of `text`, first to last, each with the
/// byte offset at which it starts.
pub uninterp spec fn grapheme_indices_of(text: Seq<char>) -> Seq<(int, Seq<char>)>;

/// The byte offsets at which the pieces of `text` start when it is split at
/// every word boundary.
pub uninterp spec fn word_bound_indices_of(text: Seq<char>) -> Seq<int>;

/// A cluster table as plain values.
pub open spec fn table_view(table: Seq<(usize, String)>) -> Seq<(int, Seq<char>)> {
    Seq::new(table.len(), |i: int| (table[i].0 as int, table[i].1@))
}

/// A list of offsets as plain values.
pub open spec fn bounds_view(bounds: Seq<usize>) -> Seq<int> {
    Seq::new(bounds.len(), |i: int| bounds[i] as int)
}

/// The text of each entry of a cluster table.
pub open spec fn texts(table: Seq<(int, Seq<char>)>) -> Seq<Seq<char>> {
    Seq::new(table.len(), |i: int| table[i].1)
}

/// The clusters of `text` without their offsets.
pub open spec fn clusters_of(text: Seq<char>) -> Seq<Seq<char>> {
    texts(grapheme_indices_of(text))
}

/// The pieces laid end to end.
pub open spec fn concat(parts: Seq<Seq<char>>) -> Seq<char>
    decreases parts.len(),
{
    if parts.len() == 0 {
        Seq::empty()
    } else {
        concat(parts.drop_last()) + parts.last()
    }
}

/// A cluster of white space: it holds nothing but white space.
pub open spec fn is_blank(cluster: Seq<char>) -> bool {
    cluster.len() > 0 && forall|i: int|
        0 <= i < cluster.len() ==> is_white_space(#[trigger] cluster[i])
}

/// Calls `UnicodeSegmentation::grapheme_indices` with extended clusters and
/// copies each cluster out.
///
/// Believed of that call: the table it yields is a function of the text
/// alone; its clusters are consecutive slices that cover the whole text, so
/// laid end to end they give the text back; and no cluster is empty.
#[verifier::external_body]
pub(crate) fn grapheme_indices(s: &str) -> (table: Vec<(usize, String)>)
    ensures
        table_view(table@) == grapheme_indices_of(s@),
        concat(texts(table_view(table@))) == s@,
        forall|i: int| 0 <= i < table@.len() ==> (#[trigger] table@[i]).1@.len() > 0,
{
    s.grapheme_indices(true).map(|(at, g)| (at, g.to_string())).collect()
}

/// Calls `UnicodeSegmentation::split_word_bound_indices` and keeps the
/// offset of each piece.
///
/// Believed of that call: the offsets it yields are a function of the text
/// alone.
#[verifier::external_body]
pub(crate) fn word_bound_indices(s: &str) -> (starts: Vec<usize>)
    ensures
        bounds_view(starts@) == word_bound_indices_of(s@),
{
    s.split_word_bound_indices().map(|(at, _)| at).collect()
}

/// Is this a cluster of white space?
pub fn is_space(s: &str) -> (r: bool)
    ensures
        r == is_blank(s@),
{
    let chars = chars_of(s);
    let white = white_marks(&chars);
    let r = chars.len() > 0 && !any_clear(&white);
    proof {
        if r {
            assert forall|i: int| 0 <= i < s@.len() implies is_white_space(#[trigger] s@[i]) by {
                assert(white@[i]);
            }
        } else if chars.len() > 0 {
            let i = choose|i: int| 0 <= i < white@.len() && !#[trigger] white@[i];
            assert(!is_white_space(s@[i]));
        }
    }
    r
}

/// `concat` of a list with one more piece at its end.
pub proof fn lemma_concat_push(parts: Seq<Seq<char>>, piece: Seq<char>)
    ensures
        concat(parts.push(piece)) == concat(parts) + piece,
{
    assert(parts.push(piece).drop_last() =~= parts);
}

} // verus!
