//! A string that holds a bounded number of grapheme clusters and ends in
//! three dots once more were offered.

use crate::command_input::{join_without, least};
use crate::segmentation::{clusters_of, concat, grapheme_indices, table_view, texts};
use vstd::prelude::*;
use vstd::string::*;

verus! {

#[derive(Debug)]
pub struct FixedLengthGraphemeString {
    pub string: String,
    pub max_grapheme_length: u16,
    /// The clusters taken in so far; one more than the maximum once the
    /// string has been cut.
    pub len: usize,
}

/// The mark that stands for what was cut off.
pub open spec fn ellipsis() -> Seq<char> {
    seq!['.', '.', '.']
}

/// The number of clusters that stay in front of the mark.
pub open spec fn kept_before_mark(max: int) -> int {
    if max >= 3 {
        max - 3
    } else {
        0
    }
}

/// `text` cut for a string of at most `max` clusters: its first clusters,
/// as many as leave room for the mark, and the mark behind them.
pub open spec fn cut(text: Seq<char>, max: int) -> Seq<char> {
    concat(
        clusters_of(text).take(least(clusters_of(text).len() as int, kept_before_mark(max))),
    ) + ellipsis()
}

/// What a string of `len` clusters with room for `max` becomes when `s` is
/// offered to it: its text and its count.
pub open spec fn pushed(string: Seq<char>, len: int, max: int, s: Seq<char>) -> (Seq<char>, int) {
    if len > max {
        (string, len)
    } else if clusters_of(s).len() <= max - len {
        (string + s, len + clusters_of(s).len())
    } else {
        (cut(string + concat(clusters_of(s).take(max - len)), max), max + 1)
    }
}

impl FixedLengthGraphemeString {
    pub fn empty(max_grapheme_length: u16) -> (out: FixedLengthGraphemeString)
        ensures
            out.string@ == Seq::<char>::empty(),
            out.max_grapheme_length == max_grapheme_length,
            out.len == 0,
    {
        FixedLengthGraphemeString { string: String::new(), max_grapheme_length, len: 0 }
    }

    pub fn new(s: &str, max_grapheme_length: u16) -> (out: FixedLengthGraphemeString)
        ensures
            out.max_grapheme_length == max_grapheme_length,
            out.string@ == pushed(Seq::empty(), 0, max_grapheme_length as int, s@).0,
            out.len as int == pushed(Seq::empty(), 0, max_grapheme_length as int, s@).1,
    {
        let mut out = FixedLengthGraphemeString::empty(max_grapheme_length);
        out.push_grapheme_str(s);
        out
    }

    /// Appends the clusters of `s` as long as there is room. Once a cluster
    /// finds no room the string is cut: it keeps its first clusters, three
    /// fewer than the maximum, ends in the mark, and takes nothing more.
    pub fn push_grapheme_str(&mut self, s: &str)
        ensures
            final(self).max_grapheme_length == old(self).max_grapheme_length,
            final(self).string@ == pushed(
                old(self).string@,
                old(self).len as int,
                old(self).max_grapheme_length as int,
                s@,
            ).0,
            final(self).len as int == pushed(
                old(self).string@,
                old(self).len as int,
                old(self).max_grapheme_length as int,
                s@,
            ).1,
    {
        let max = self.max_grapheme_length as usize;
        if self.len > max {
            return ;
        }
        let table = grapheme_indices(s);
        let room = max - self.len;
        let ghost parts = texts(table_view(table@));
        if table.len() <= room {
            self.string.append(s);
            self.len = self.len + table.len();
        } else {
            let head = join_without(&table, room, table.len());
            proof {
                assert(parts.take(room as int) + parts.skip(table.len() as int) =~= parts.take(
                    room as int,
                ));
            }
            self.string.append(head.as_str());
            self.len = max + 1;
            let whole = grapheme_indices(self.string.as_str());
            let keep = if max >= 3 {
                max - 3
            } else {
                0
            };
            let ghost all = texts(table_view(whole@));
            let mut cut_text = join_without(&whole, keep, whole.len());
            proof {
                let k = least(all.len() as int, keep as int);
                assert(all.take(k) + all.skip(all.len() as int) =~= all.take(k));
                reveal_strlit("...");
                assert("..."@ =~= ellipsis());
            }
            cut_text.append("...");
            self.string = cut_text;
        }
    }

    /// Appends `s` as it is, without counting its clusters.
    pub fn push_str(&mut self, s: &str)
        ensures
            final(self).string@ == old(self).string@ + s@,
            final(self).max_grapheme_length == old(self).max_grapheme_length,
            final(self).len == old(self).len,
    {
        self.string.append(s);
    }
}

} // verus!
