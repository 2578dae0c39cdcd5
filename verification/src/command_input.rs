//! The line editor of the search prompt.
//!
//! Cursor and length count grapheme clusters, not bytes. The editor keeps at
//! most `cap` clusters: after every change the text is segmented again and
//! cut to its first `cap` clusters.

use crate::segmentation::{
    bounds_view, clusters_of, concat, grapheme_indices, grapheme_indices_of, is_blank, is_space,
    lemma_concat_push, table_view, texts, word_bound_indices, word_bound_indices_of,
};
use crate::text::push_char;
use vstd::prelude::*;
use vstd::string::*;

verus! {

/// One request to the editor.
#[derive(Clone, Copy, Debug)]
pub enum InputCommand {
    Insert(char),
    Backspace,
    Delete,
    Move(Move),
}

/// A motion of the cursor, or the span that a deletion removes.
#[derive(Clone, Copy, Debug)]
pub enum Move {
    BOL,
    EOL,
    BackwardWord,
    ForwardWord,
    Backward,
    Forward,
    Exact(usize),
}

pub struct CommandInput {
    pub command: String,
    pub cursor: usize,
    pub len: usize,
    pub cap: usize,
}

/// `value` brought into `0..=top`.
pub open spec fn clamp(value: int, top: int) -> int {
    if value < 0 {
        0
    } else if value > top {
        top
    } else {
        value
    }
}

/// The smaller of two numbers.
pub open spec fn least(a: int, b: int) -> int {
    if a <= b {
        a
    } else {
        b
    }
}

/// `parts` without the entries `lo..hi`; both ends are brought into range.
pub open spec fn without(parts: Seq<Seq<char>>, lo: int, hi: int) -> Seq<Seq<char>> {
    let a = clamp(lo, parts.len() as int);
    let b = if clamp(hi, parts.len() as int) < a {
        a
    } else {
        clamp(hi, parts.len() as int)
    };
    parts.take(a) + parts.skip(b)
}

/// The text that `parts` spell with `c` put in front of entry `at`, or at
/// the end if there is no such entry.
pub open spec fn with_inserted(parts: Seq<Seq<char>>, at: int, c: char) -> Seq<char> {
    let a = clamp(at, parts.len() as int);
    concat(parts.take(a)) + seq![c] + concat(parts.skip(a))
}

/// Index of the first cluster at or after `from` that is not white space, or
/// the number of clusters if there is none.
pub open spec fn first_word_from(table: Seq<(int, Seq<char>)>, from: int) -> int
    decreases table.len() - from,
{
    if from >= table.len() {
        table.len() as int
    } else if from >= 0 && !is_blank(table[from].1) {
        from
    } else {
        first_word_from(table, from + 1)
    }
}

/// The first of `bounds[k..]` that is greater than `offset`.
pub open spec fn first_bound_above(bounds: Seq<int>, offset: int, k: int) -> Option<int>
    decreases bounds.len() - k,
{
    if k < 0 || k >= bounds.len() {
        None
    } else if bounds[k] > offset {
        Some(bounds[k])
    } else {
        first_bound_above(bounds, offset, k + 1)
    }
}

/// Index of the first cluster at or after `from` that starts at `offset`, or
/// the number of clusters if there is none.
pub open spec fn first_cluster_at(table: Seq<(int, Seq<char>)>, offset: int, from: int) -> int
    decreases table.len() - from,
{
    if from >= table.len() {
        table.len() as int
    } else if from >= 0 && table[from].0 == offset {
        from
    } else {
        first_cluster_at(table, offset, from + 1)
    }
}

/// Where a word motion to the right ends.
///
/// White space at and after the cursor is passed over. The first cluster
/// that is not white space marks the word; the motion ends at the cluster that starts at
/// the first word break behind the start of that cluster. Where there is no
/// such cluster, it ends at `len`.
pub open spec fn boundary_after(
    table: Seq<(int, Seq<char>)>,
    bounds: Seq<int>,
    cursor: int,
    len: int,
) -> int {
    let word = first_word_from(table, cursor);
    if word >= table.len() {
        len
    } else {
        match first_bound_above(bounds, table[word].0, 0) {
            None => len,
            Some(b) => {
                let at = first_cluster_at(table, b, word + 1);
                if at < table.len() {
                    at
                } else {
                    len
                }
            },
        }
    }
}

/// Index of the last cluster before `before` that is not white space, or -1.
pub open spec fn last_word_before(table: Seq<(int, Seq<char>)>, before: int) -> int
    decreases before,
{
    if before <= 0 {
        -1
    } else if before <= table.len() && !is_blank(table[before - 1].1) {
        before - 1
    } else {
        last_word_before(table, before - 1)
    }
}

/// The last of `bounds[..k]` that is less than `offset`.
pub open spec fn last_bound_below(bounds: Seq<int>, offset: int, k: int) -> Option<int>
    decreases k,
{
    if k <= 0 {
        None
    } else if k <= bounds.len() && bounds[k - 1] < offset {
        Some(bounds[k - 1])
    } else {
        last_bound_below(bounds, offset, k - 1)
    }
}

/// Index of the last cluster before `before` that starts at `offset`, or -1.
pub open spec fn last_cluster_at(table: Seq<(int, Seq<char>)>, offset: int, before: int) -> int
    decreases before,
{
    if before <= 0 {
        -1
    } else if before <= table.len() && table[before - 1].0 == offset {
        before - 1
    } else {
        last_cluster_at(table, offset, before - 1)
    }
}

/// Where a word motion to the left ends: the mirror image of
/// `boundary_after`.
///
/// White space before the cursor is passed over. The first cluster that is
/// not white space marks the word; the motion ends at the cluster that starts at the
/// last word break in front of the start of that cluster. Where there is no
/// such cluster, it ends at 0.
pub open spec fn boundary_before(table: Seq<(int, Seq<char>)>, bounds: Seq<int>, cursor: int) -> int {
    let word = last_word_before(table, least(cursor, table.len() as int));
    if word < 0 {
        0
    } else {
        match last_bound_below(bounds, table[word].0, bounds.len() as int) {
            None => 0,
            Some(b) => {
                let at = last_cluster_at(table, b, word);
                if at >= 0 {
                    at
                } else {
                    0
                }
            },
        }
    }
}

/// Where a word motion to the right ends, for a given segmentation.
pub fn word_boundary_after(
    table: &Vec<(usize, String)>,
    bounds: &Vec<usize>,
    cursor: usize,
    len: usize,
) -> (at: usize)
    ensures
        at as int == boundary_after(
            table_view(table@),
            bounds_view(bounds@),
            cursor as int,
            len as int,
        ),
{
    let ghost tv = table_view(table@);
    let ghost bv = bounds_view(bounds@);
    let n = table.len();
    let mut word: usize = cursor;
    while word < n && is_space(table[word].1.as_str())
        invariant
            n == table.len(),
            tv == table_view(table@),
            cursor <= word,
            first_word_from(tv, cursor as int) == first_word_from(tv, word as int),
        decreases n - word,
    {
        word += 1;
    }
    if word >= n {
        return len;
    }
    let offset = table[word].0;
    let mut k: usize = 0;
    while k < bounds.len() && bounds[k] <= offset
        invariant
            bv == bounds_view(bounds@),
            k <= bounds.len(),
            first_bound_above(bv, offset as int, 0) == first_bound_above(bv, offset as int, k as int),
        decreases bounds.len() - k,
    {
        k += 1;
    }
    if k >= bounds.len() {
        return len;
    }
    let target = bounds[k];
    let mut at: usize = word + 1;
    while at < n && table[at].0 != target
        invariant
            n == table.len(),
            tv == table_view(table@),
            word < at <= n,
            first_cluster_at(tv, target as int, word + 1) == first_cluster_at(
                tv,
                target as int,
                at as int,
            ),
        decreases n - at,
    {
        at += 1;
    }
    if at < n {
        at
    } else {
        len
    }
}

/// Where a word motion to the left ends, for a given segmentation.
pub fn word_boundary_before(table: &Vec<(usize, String)>, bounds: &Vec<usize>, cursor: usize) -> (at:
    usize)
    ensures
        at as int == boundary_before(table_view(table@), bounds_view(bounds@), cursor as int),
{
    let ghost tv = table_view(table@);
    let ghost bv = bounds_view(bounds@);
    let n = table.len();
    let start = if cursor < n {
        cursor
    } else {
        n
    };
    let mut before: usize = start;
    while before > 0 && is_space(table[before - 1].1.as_str())
        invariant
            n == table.len(),
            tv == table_view(table@),
            before <= start <= n,
            last_word_before(tv, start as int) == last_word_before(tv, before as int),
        decreases before,
    {
        before -= 1;
    }
    if before == 0 {
        return 0;
    }
    let word = before - 1;
    let offset = table[word].0;
    let mut k: usize = bounds.len();
    while k > 0 && bounds[k - 1] >= offset
        invariant
            bv == bounds_view(bounds@),
            k <= bounds.len(),
            last_bound_below(bv, offset as int, bounds.len() as int) == last_bound_below(
                bv,
                offset as int,
                k as int,
            ),
        decreases k,
    {
        k -= 1;
    }
    if k == 0 {
        return 0;
    }
    let target = bounds[k - 1];
    let mut at: usize = word;
    while at > 0 && table[at - 1].0 != target
        invariant
            n == table.len(),
            tv == table_view(table@),
            at <= word < n,
            last_cluster_at(tv, target as int, word as int) == last_cluster_at(
                tv,
                target as int,
                at as int,
            ),
        decreases at,
    {
        at -= 1;
    }
    if at > 0 {
        at - 1
    } else {
        0
    }
}

/// The text of the table without the entries `lo..hi`.
pub fn join_without(table: &Vec<(usize, String)>, lo: usize, hi: usize) -> (out: String)
    ensures
        out@ == concat(without(texts(table_view(table@)), lo as int, hi as int)),
{
    let ghost parts = texts(table_view(table@));
    let n = table.len();
    let a = if lo < n {
        lo
    } else {
        n
    };
    let b = if hi < a {
        a
    } else if hi < n {
        hi
    } else {
        n
    };
    let mut out = String::new();
    let mut i: usize = 0;
    while i < a
        invariant
            n == table.len(),
            parts == texts(table_view(table@)),
            i <= a <= n,
            out@ == concat(parts.take(i as int)),
        decreases a - i,
    {
        out.append(table[i].1.as_str());
        proof {
            assert(parts.take(i + 1) =~= parts.take(i as int).push(parts[i as int]));
            lemma_concat_push(parts.take(i as int), parts[i as int]);
        }
        i += 1;
    }
    let mut j: usize = b;
    proof {
        assert(parts.take(a as int) + parts.subrange(b as int, b as int) =~= parts.take(a as int));
    }
    while j < n
        invariant
            n == table.len(),
            parts == texts(table_view(table@)),
            a <= b <= j <= n,
            out@ == concat(parts.take(a as int) + parts.subrange(b as int, j as int)),
        decreases n - j,
    {
        out.append(table[j].1.as_str());
        proof {
            let before = parts.take(a as int) + parts.subrange(b as int, j as int);
            assert(parts.take(a as int) + parts.subrange(b as int, j + 1) =~= before.push(
                parts[j as int],
            ));
            lemma_concat_push(before, parts[j as int]);
        }
        j += 1;
    }
    proof {
        assert(parts.subrange(b as int, n as int) =~= parts.skip(b as int));
    }
    out
}

/// The text of the table with `c` put in front of entry `at`, or at the end
/// if there is no such entry.
pub fn join_with(table: &Vec<(usize, String)>, at: usize, c: char) -> (out: String)
    ensures
        out@ == with_inserted(texts(table_view(table@)), at as int, c),
{
    let ghost parts = texts(table_view(table@));
    let n = table.len();
    let a = if at < n {
        at
    } else {
        n
    };
    let mut out = String::new();
    let mut i: usize = 0;
    while i < a
        invariant
            n == table.len(),
            parts == texts(table_view(table@)),
            i <= a <= n,
            out@ == concat(parts.take(i as int)),
        decreases a - i,
    {
        out.append(table[i].1.as_str());
        proof {
            assert(parts.take(i + 1) =~= parts.take(i as int).push(parts[i as int]));
            lemma_concat_push(parts.take(i as int), parts[i as int]);
        }
        i += 1;
    }
    push_char(&mut out, c);
    let ghost head = out@;
    let mut j: usize = a;
    proof {
        assert(parts.subrange(a as int, a as int) =~= Seq::<Seq<char>>::empty());
        assert(head + concat(parts.subrange(a as int, a as int)) =~= head);
    }
    while j < n
        invariant
            n == table.len(),
            parts == texts(table_view(table@)),
            a <= j <= n,
            head == concat(parts.take(a as int)) + seq![c],
            out@ == head + concat(parts.subrange(a as int, j as int)),
        decreases n - j,
    {
        out.append(table[j].1.as_str());
        proof {
            let before = parts.subrange(a as int, j as int);
            assert(parts.subrange(a as int, j + 1) =~= before.push(parts[j as int]));
            lemma_concat_push(before, parts[j as int]);
            assert(out@ =~= head + concat(parts.subrange(a as int, j + 1)));
        }
        j += 1;
    }
    proof {
        assert(parts.subrange(a as int, n as int) =~= parts.skip(a as int));
    }
    out
}

impl CommandInput {
    /// The editor shows `text`: its first `cap` clusters, or all of them if
    /// they are fewer, and `len` counts them.
    pub open spec fn shows(&self, text: Seq<char>) -> bool {
        &&& self.len as int == least(self.cap as int, clusters_of(text).len() as int)
        &&& self.command@ == concat(clusters_of(text).take(self.len as int))
    }

    /// The editor shows the whole of `text`, and `len` is the number of
    /// clusters of the line itself.
    pub open spec fn shows_whole(&self, text: Seq<char>) -> bool {
        &&& self.command@ == text
        &&& self.len == clusters_of(self.command@).len()
    }

    /// The editor shows `text`, and the whole of it if it has no more
    /// clusters than the editor keeps.
    pub open spec fn shows_all_that_fits(&self, text: Seq<char>) -> bool {
        &&& self.shows(text)
        &&& clusters_of(text).len() <= self.cap ==> self.shows_whole(text)
    }

    /// The invariant of the editor: the cursor is inside the line, the line
    /// inside the capacity, and the line is what some text leaves when it is
    /// cut to the capacity.
    pub open spec fn wf(&self) -> bool {
        &&& self.cursor <= self.len
        &&& self.len <= self.cap
        &&& exists|text: Seq<char>| #[trigger] self.shows(text)
    }

    /// The cluster table of the line.
    pub open spec fn table(&self) -> Seq<(int, Seq<char>)> {
        grapheme_indices_of(self.command@)
    }

    /// Where `ForwardWord` leads.
    pub open spec fn next_word_boundary_spec(&self) -> int {
        boundary_after(
            self.table(),
            word_bound_indices_of(self.command@),
            self.cursor as int,
            self.len as int,
        )
    }

    /// Where `BackwardWord` leads.
    pub open spec fn previous_word_boundary_spec(&self) -> int {
        boundary_before(self.table(), word_bound_indices_of(self.command@), self.cursor as int)
    }

    /// Where a motion aims before it is brought into the line.
    pub open spec fn target(&self, direction: Move) -> int {
        match direction {
            Move::Backward => self.cursor - 1,
            Move::Exact(i) => i as int,
            Move::Forward => self.cursor + 1,
            Move::BOL => 0,
            Move::EOL => self.len as int,
            Move::ForwardWord => self.next_word_boundary_spec(),
            Move::BackwardWord => self.previous_word_boundary_spec(),
        }
    }

    /// The clusters `lo..hi` that a deletion removes.
    pub open spec fn delete_span(&self, motion: Move) -> (int, int) {
        match motion {
            Move::Backward => (self.cursor - 1, self.cursor as int),
            Move::Forward => (self.cursor as int, self.cursor + 1),
            Move::BOL => (0, self.cursor as int),
            Move::EOL => (self.cursor as int, self.table().len() as int),
            Move::ForwardWord => (self.cursor as int, self.next_word_boundary_spec()),
            Move::BackwardWord => (self.previous_word_boundary_spec(), self.cursor as int),
            Move::Exact(_) => (0, 0),
        }
    }

    /// A deletion that has nothing to remove: to the left at the start of
    /// the line, to the right at its end.
    pub open spec fn delete_is_noop(&self, motion: Move) -> bool {
        match motion {
            Move::Backward | Move::BOL | Move::BackwardWord => self.cursor == 0,
            Move::Forward | Move::EOL | Move::ForwardWord => self.cursor == self.len,
            Move::Exact(_) => true,
        }
    }

    /// The clusters of the line that a deletion leaves.
    pub open spec fn clusters_after_delete(&self, motion: Move) -> Seq<Seq<char>> {
        without(
            clusters_of(self.command@),
            self.delete_span(motion).0,
            self.delete_span(motion).1,
        )
    }

    /// The text that a deletion leaves, before it is cut to the capacity.
    pub open spec fn text_after_delete(&self, motion: Move) -> Seq<char> {
        concat(self.clusters_after_delete(motion))
    }

    /// Where the cursor stands after a deletion that left `new_len`
    /// clusters.
    pub open spec fn cursor_after_delete(&self, motion: Move, new_len: int) -> int {
        let aim = match motion {
            Move::Backward => self.cursor - 1,
            Move::Forward | Move::ForwardWord => self.cursor as int,
            Move::BOL => 0,
            Move::EOL => new_len,
            Move::BackwardWord => self.cursor - (clusters_of(self.command@).len()
                - self.clusters_after_delete(motion).len()),
            Move::Exact(_) => self.cursor as int,
        };
        clamp(aim, new_len)
    }

    /// The text that inserting `c` leaves, before it is cut to the capacity.
    pub open spec fn text_after_insert(&self, c: char) -> Seq<char> {
        with_inserted(clusters_of(self.command@), self.cursor as int, c)
    }

    /// `self` is what `before` becomes when its cursor moves.
    pub open spec fn is_move_of(&self, before: &CommandInput, direction: Move) -> bool {
        &&& self.command == before.command
        &&& self.len == before.len
        &&& self.cap == before.cap
        &&& self.cursor as int == clamp(before.target(direction), before.len as int)
    }

    /// `self` is what `before` becomes when the span that `motion` names is
    /// removed from it.
    pub open spec fn is_delete_of(&self, before: &CommandInput, motion: Move) -> bool {
        &&& self.cap == before.cap
        &&& before.delete_is_noop(motion) ==> *self == *before
        &&& !before.delete_is_noop(motion) ==> self.shows_all_that_fits(
            before.text_after_delete(motion),
        )
        &&& !before.delete_is_noop(motion) ==> self.cursor as int == before.cursor_after_delete(
            motion,
            self.len as int,
        )
        &&& !(motion is EOL) ==> self.cursor <= before.cursor
    }

    /// `self` is what `before` becomes when `c` is typed into it.
    pub open spec fn is_insert_of(&self, before: &CommandInput, c: char) -> bool {
        &&& self.cap == before.cap
        &&& before.cursor == before.cap ==> *self == *before
        &&& before.cursor != before.cap ==> self.shows_all_that_fits(before.text_after_insert(c))
        &&& before.cursor != before.cap ==> self.cursor as int == least(
            before.cursor + 1,
            self.len as int,
        )
    }

    /// `self` is what `before` becomes when it is given room for `width`
    /// clusters: the line is cut to its first `width` clusters if it has
    /// more, and the cursor stays inside it.
    pub open spec fn is_resize_of(&self, before: &CommandInput, width: u16) -> bool {
        &&& self.cap == width
        &&& self.shows_all_that_fits(before.command@)
        &&& self.cursor as int == least(before.cursor as int, self.len as int)
        &&& width < clusters_of(before.command@).len() ==> {
            &&& self.len == width
            &&& self.command@ == concat(clusters_of(before.command@).take(width as int))
            &&& self.cursor as int == least(before.cursor as int, width as int)
        }
    }

    /// An editor that shows `s`, with room for `width` clusters, and the
    /// cursor at the end of the line.
    pub fn from(s: &str, width: u16) -> (input: CommandInput)
        ensures
            input.wf(),
            input.cap == width,
            input.shows_all_that_fits(s@),
            input.cursor == input.len,
    {
        let mut input = CommandInput {
            command: s.to_owned(),
            cursor: 0,
            len: 0,
            cap: width as usize,
        };
        input.recompute_caches();
        input.cursor = input.len;
        assert(input.shows(s@));
        input
    }

    /// Empties the line.
    pub fn clear(&mut self)
        ensures
            final(self).wf(),
            final(self).cap == old(self).cap,
            final(self).command@ == Seq::<char>::empty(),
            final(self).len == 0,
            final(self).cursor == 0,
    {
        self.command = String::new();
        self.recompute_caches();
        self.cursor = 0;
        assert(self.shows(Seq::<char>::empty()));
    }

    /// Replaces the line by `text`, cut to the capacity. The cursor stays
    /// where it was, or goes to the end of the line if that is nearer.
    pub fn set(&mut self, text: &str)
        ensures
            final(self).wf(),
            final(self).cap == old(self).cap,
            final(self).shows_all_that_fits(text@),
            final(self).cursor as int == least(old(self).cursor as int, final(self).len as int),
    {
        self.command = text.to_owned();
        self.recompute_caches();
        if self.cursor > self.len {
            self.cursor = self.len;
        }
        assert(self.shows(text@));
    }

    /// Gives the editor room for `width` clusters and cuts the line to it.
    pub fn update_cap(&mut self, width: u16)
        requires
            old(self).wf(),
        ensures
            final(self).wf(),
            final(self).is_resize_of(old(self), width),
    {
        self.cap = width as usize;
        self.recompute_caches();
        if self.cursor >= self.len {
            self.cursor = self.len;
        }
        assert(self.shows(old(self).command@));
    }

    /// Moves the cursor; it stays inside the line.
    pub fn move_cursor(&mut self, direction: Move)
        requires
            old(self).wf(),
        ensures
            final(self).wf(),
            final(self).is_move_of(old(self), direction),
    {
        let ghost shown = choose|text: Seq<char>| #[trigger] self.shows(text);
        let aim: usize = match direction {
            Move::Backward => if self.cursor > 0 {
                self.cursor - 1
            } else {
                0
            },
            Move::Exact(i) => i,
            Move::Forward => if self.cursor < self.len {
                self.cursor + 1
            } else {
                self.len
            },
            Move::BOL => 0,
            Move::EOL => self.len,
            Move::ForwardWord => self.next_word_boundary(),
            Move::BackwardWord => self.previous_word_boundary(),
        };
        self.cursor = if aim > self.len {
            self.len
        } else {
            aim
        };
        assert(self.shows(shown));
    }

    /// Removes the span that `motion` names. `Exact` names no span.
    pub fn delete(&mut self, motion: Move)
        requires
            old(self).wf(),
            !(motion is Exact),
        ensures
            final(self).wf(),
            final(self).is_delete_of(old(self), motion),
    {
        let at_start = self.cursor == 0;
        let at_end = self.cursor == self.len;
        let nothing = match motion {
            Move::Backward | Move::BOL | Move::BackwardWord => at_start,
            _ => at_end,
        };
        if nothing {
            return ;
        }
        let table = grapheme_indices(self.command.as_str());
        let n = table.len();
        let cursor = self.cursor;
        let (lo, hi): (usize, usize) = match motion {
            Move::Backward => (cursor - 1, cursor),
            Move::Forward => (cursor, cursor + 1),
            Move::BOL => (0, cursor),
            Move::EOL => (cursor, n),
            Move::ForwardWord => {
                let bounds = word_bound_indices(self.command.as_str());
                (cursor, word_boundary_after(&table, &bounds, cursor, self.len))
            },
            _ => {
                let bounds = word_bound_indices(self.command.as_str());
                (word_boundary_before(&table, &bounds, cursor), cursor)
            },
        };
        let removed = removed_count(n, lo, hi);
        self.command = join_without(&table, lo, hi);
        self.recompute_caches();
        let aim: usize = match motion {
            Move::Backward => cursor - 1,
            Move::BOL => 0,
            Move::EOL => self.len,
            Move::BackwardWord => if removed <= cursor {
                cursor - removed
            } else {
                0
            },
            _ => cursor,
        };
        self.cursor = if aim > self.len {
            self.len
        } else {
            aim
        };
        assert(self.shows(old(self).text_after_delete(motion)));
    }

    /// Puts `c` in front of the cluster under the cursor and moves the cursor
    /// one to the right. A full line whose cursor is at its end stays as it
    /// is.
    pub fn insert(&mut self, c: char)
        requires
            old(self).wf(),
        ensures
            final(self).wf(),
            final(self).is_insert_of(old(self), c),
    {
        if self.cursor == self.cap {
            return ;
        }
        let table = grapheme_indices(self.command.as_str());
        let cursor = self.cursor;
        self.command = join_with(&table, cursor, c);
        self.recompute_caches();
        self.cursor = if cursor < self.len {
            cursor + 1
        } else {
            self.len
        };
        assert(self.shows(old(self).text_after_insert(c)));
    }

    /// Segments the line again and cuts it to the capacity.
    fn recompute_caches(&mut self)
        ensures
            final(self).shows_all_that_fits(old(self).command@),
            final(self).cap == old(self).cap,
            final(self).cursor == old(self).cursor,
            final(self).len <= final(self).cap,
            old(self).command@.len() == 0 ==> final(self).len == 0,
    {
        let table = grapheme_indices(self.command.as_str());
        let n = table.len();
        let ghost parts = texts(table_view(table@));
        proof {
            if n > 0 {
                assert(parts.last() == table@[n - 1].1@);
                assert(concat(parts).len() > 0);
            }
        }
        if n > self.cap {
            self.command = join_without(&table, self.cap, n);
            self.len = self.cap;
            proof {
                assert(without(parts, self.cap as int, n as int) =~= parts.take(self.cap as int));
            }
        } else {
            self.len = n;
            proof {
                assert(parts.take(n as int) =~= parts);
            }
        }
    }

    /// The cluster at which the word after the cursor ends.
    pub fn next_word_boundary(&self) -> (at: usize)
        ensures
            at as int == self.next_word_boundary_spec(),
    {
        let table = grapheme_indices(self.command.as_str());
        let bounds = word_bound_indices(self.command.as_str());
        word_boundary_after(&table, &bounds, self.cursor, self.len)
    }

    /// The cluster at which the word before the cursor starts.
    pub fn previous_word_boundary(&self) -> (at: usize)
        ensures
            at as int == self.previous_word_boundary_spec(),
    {
        let table = grapheme_indices(self.command.as_str());
        let bounds = word_bound_indices(self.command.as_str());
        word_boundary_before(&table, &bounds, self.cursor)
    }
}

/// How many of `n` entries the span `lo..hi` covers.
fn removed_count(n: usize, lo: usize, hi: usize) -> (removed: usize)
    ensures
        forall|parts: Seq<Seq<char>>|
            parts.len() == n ==> removed == parts.len() - (#[trigger] without(
                parts,
                lo as int,
                hi as int,
            )).len(),
{
    let a = if lo < n {
        lo
    } else {
        n
    };
    let b = if hi < a {
        a
    } else if hi < n {
        hi
    } else {
        n
    };
    b - a
}

} // verus!
