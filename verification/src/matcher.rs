//! The matcher: the commands of the current context that hold a pattern.

use crate::history::{
    context_view, matches_view, Command, CommandView, ContextView, ContextualCommand, History,
};
use crate::text::{
    anywhere_pattern, bounds_of, chars_of, is_place, lemma_occurrences, like, like_anywhere,
    match_bounds, occurrences,
};
use vstd::prelude::*;
use vstd::string::*;
use vstd::utf8::encode_utf8;

verus! {

/// The number by which the rows are ordered.
pub open spec fn key(row: ContextView, by_rank: bool) -> int {
    if by_rank {
        row.rank
    } else {
        row.last_run
    }
}

/// The rows whose command is `LIKE` the pattern with `%` on both sides, in
/// their order.
pub open spec fn liked(rows: Seq<ContextView>, pattern: Seq<char>) -> Seq<ContextView>
    decreases rows.len(),
{
    if rows.len() == 0 {
        rows
    } else if like(anywhere_pattern(pattern), rows.last().cmd) {
        liked(rows.drop_last(), pattern).push(rows.last())
    } else {
        liked(rows.drop_last(), pattern)
    }
}

/// Index of the first row among `rows[..upto]` that has the largest key.
pub open spec fn best(rows: Seq<ContextView>, by_rank: bool, upto: int) -> int
    decreases upto,
{
    if upto <= 1 {
        0
    } else {
        let rest = best(rows, by_rank, upto - 1);
        if key(rows[upto - 1], by_rank) > key(rows[rest], by_rank) {
            upto - 1
        } else {
            rest
        }
    }
}

/// The first `k` rows when the rows are put in the order of their keys, the
/// largest first; rows with the same key stay in the order of the table.
pub open spec fn top(rows: Seq<ContextView>, by_rank: bool, k: int) -> Seq<ContextView>
    decreases k,
{
    if k <= 0 || rows.len() == 0 {
        Seq::empty()
    } else {
        let first = best(rows, by_rank, rows.len() as int);
        seq![rows[first]] + top(rows.remove(first), by_rank, k - 1)
    }
}

/// How many rows a limit lets through: a negative limit is none.
pub open spec fn cap(num: int, len: int) -> int {
    if num < 0 {
        len
    } else {
        num
    }
}

/// The row with the places where the pattern stands in it.
pub open spec fn hit(row: ContextView, pattern: Seq<char>) -> CommandView {
    CommandView {
        cmd: row.cmd,
        last_run: row.last_run,
        match_bounds: occurrences(encode_utf8(row.cmd), encode_utf8(pattern), 0),
    }
}

/// The rows in which the pattern stands somewhere, in their order.
pub open spec fn hits(rows: Seq<ContextView>, pattern: Seq<char>) -> Seq<CommandView>
    decreases rows.len(),
{
    if rows.len() == 0 {
        Seq::empty()
    } else if hit(rows.last(), pattern).match_bounds.len() > 0 {
        hits(rows.drop_last(), pattern).push(hit(rows.last(), pattern))
    } else {
        hits(rows.drop_last(), pattern)
    }
}

/// What a search for `pattern` gives: of the rows that are `LIKE` it the
/// first `num` in the asked order, and of these the rows in which it stands.
pub open spec fn search(
    rows: Seq<ContextView>,
    pattern: Seq<char>,
    num: int,
    by_rank: bool,
) -> Seq<CommandView> {
    hits(
        top(liked(rows, pattern), by_rank, cap(num, liked(rows, pattern).len() as int)),
        pattern,
    )
}

/// The rows of the table at the given indices.
pub open spec fn rows_at(rows: Seq<ContextView>, indices: Seq<usize>) -> Seq<ContextView> {
    Seq::new(indices.len(), |j: int| rows[indices[j] as int])
}

/// No limit asks for more rows than there are.
pub proof fn lemma_top_all(rows: Seq<ContextView>, by_rank: bool, k: int)
    requires
        k >= rows.len(),
    ensures
        top(rows, by_rank, k) == top(rows, by_rank, rows.len() as int),
    decreases rows.len(),
{
    if rows.len() == 0 {
    } else {
        let first = best(rows, by_rank, rows.len() as int);
        lemma_best(rows, by_rank, rows.len() as int);
        lemma_top_all(rows.remove(first), by_rank, k - 1);
    }
}

/// The best row is a row of the table, and no row has a larger key.
pub proof fn lemma_best(rows: Seq<ContextView>, by_rank: bool, upto: int)
    requires
        1 <= upto <= rows.len(),
    ensures
        0 <= best(rows, by_rank, upto) < upto,
        forall|i: int|
            0 <= i < upto ==> key(#[trigger] rows[i], by_rank) <= key(
                rows[best(rows, by_rank, upto)],
                by_rank,
            ),
    decreases upto,
{
    if upto > 1 {
        lemma_best(rows, by_rank, upto - 1);
    }
}

/// Every match of a search holds the pattern at each of its places, has at
/// least one place, and its places follow one another without overlap.
pub proof fn lemma_hits(rows: Seq<ContextView>, pattern: Seq<char>)
    ensures
        hits(rows, pattern).len() <= rows.len(),
        forall|i: int|
            0 <= i < hits(rows, pattern).len() ==> well_matched(
                #[trigger] hits(rows, pattern)[i],
                pattern,
            ),
    decreases rows.len(),
{
    if rows.len() > 0 {
        let out = hits(rows, pattern);
        let rest = hits(rows.drop_last(), pattern);
        lemma_hits(rows.drop_last(), pattern);
        let last = hit(rows.last(), pattern);
        lemma_occurrences(encode_utf8(rows.last().cmd), encode_utf8(pattern), 0);
        assert forall|i: int| 0 <= i < out.len() implies well_matched(#[trigger] out[i], pattern) by {
            if i < rest.len() {
                assert(out[i] == rest[i]);
            } else {
                assert(out[i] == last);
            }
        }
    }
}

/// The match has at least one place; the pattern stands at each of its
/// places, inside the command; and the places follow one another without
/// overlap.
pub open spec fn well_matched(found: CommandView, pattern: Seq<char>) -> bool {
    &&& found.match_bounds.len() > 0
    &&& forall|k: int|
        0 <= k < found.match_bounds.len() ==> is_place(
            encode_utf8(found.cmd),
            encode_utf8(pattern),
            0,
            #[trigger] found.match_bounds[k],
        )
    &&& forall|j: int, k: int|
        0 <= j < k < found.match_bounds.len() ==> (#[trigger] found.match_bounds[j]).1 <= (
        #[trigger] found.match_bounds[k]).0
}

impl History {
    /// The commands of the current context in which `cmd` stands, at most
    /// `num` of those that are `LIKE` it, ordered by rank or by the time of
    /// their last execution.
    pub fn find_matches(&self, cmd: &str, num: i16, rank: bool) -> (found: Vec<Command>)
        ensures
            matches_view(found@) == search(self.context(), cmd@, num as int, rank),
            found@.len() <= self.context().len(),
            forall|i: int|
                0 <= i < found@.len() ==> well_matched(#[trigger] matches_view(found@)[i], cmd@),
    {
        let ghost table = self.context();
        let pattern = chars_of(cmd);
        let n = self.contextual_commands.len();
        // The rows that are like the pattern.
        let mut pool: Vec<usize> = Vec::new();
        let mut i: usize = 0;
        proof {
            assert(table.take(0) =~= Seq::<ContextView>::empty());
            assert(rows_at(table, pool@) =~= liked(table.take(0), cmd@));
        }
        while i < n
            invariant
                i <= n,
                n == self.contextual_commands.len(),
                table == self.context(),
                pattern@ == cmd@,
                pool.len() <= i,
                forall|j: int| 0 <= j < pool.len() ==> (#[trigger] pool@[j]) < n,
                rows_at(table, pool@) == liked(table.take(i as int), cmd@),
            decreases n - i,
        {
            let text = chars_of(self.contextual_commands[i].cmd.as_str());
            proof {
                assert(table.take(i + 1).drop_last() =~= table.take(i as int));
            }
            if like_anywhere(&pattern, &text) {
                let ghost before = rows_at(table, pool@);
                pool.push(i);
                proof {
                    assert(rows_at(table, pool@) =~= before.push(table[i as int]));
                }
            }
            i += 1;
        }
        proof {
            assert(table.take(n as int) =~= table);
        }
        let ghost candidates = liked(table, cmd@);
        let limit: usize = if num < 0 || num as usize > pool.len() {
            pool.len()
        } else {
            num as usize
        };
        proof {
            if num >= 0 && num > pool.len() {
                lemma_top_all(candidates, rank, num as int);
            }
        }
        // The first of them in the asked order.
        let mut picked: Vec<usize> = Vec::new();
        let mut left: usize = limit;
        proof {
            assert(rows_at(table, picked@) + top(rows_at(table, pool@), rank, left as int) =~= top(
                candidates,
                rank,
                limit as int,
            ));
        }
        while left > 0 && pool.len() > 0
            invariant
                n == self.contextual_commands.len(),
                table == self.context(),
                left <= limit,
                picked.len() + left == limit,
                picked.len() + pool.len() <= n,
                forall|j: int| 0 <= j < pool.len() ==> (#[trigger] pool@[j]) < n,
                forall|j: int| 0 <= j < picked.len() ==> (#[trigger] picked@[j]) < n,
                rows_at(table, picked@) + top(rows_at(table, pool@), rank, left as int) == top(
                    candidates,
                    rank,
                    limit as int,
                ),
            decreases left,
        {
            let ghost rest = rows_at(table, pool@);
            let mut first: usize = 0;
            let mut j: usize = 1;
            while j < pool.len()
                invariant
                    1 <= j <= pool.len(),
                    first < j,
                    n == self.contextual_commands.len(),
                    table == self.context(),
                    rest == rows_at(table, pool@),
                    forall|k: int| 0 <= k < pool.len() ==> (#[trigger] pool@[k]) < n,
                    first == best(rest, rank, j as int),
                decreases pool.len() - j,
            {
                let here = &self.contextual_commands[pool[j]];
                let there = &self.contextual_commands[pool[first]];
                let larger = if rank {
                    here.rank > there.rank
                } else {
                    here.last_run > there.last_run
                };
                if larger {
                    first = j;
                }
                j += 1;
            }
            let ghost so_far = rows_at(table, picked@);
            picked.push(pool[first]);
            pool.remove(first);
            left -= 1;
            proof {
                assert(rows_at(table, pool@) =~= rest.remove(first as int));
                assert(rows_at(table, picked@) =~= so_far.push(rest[first as int]));
                assert(so_far + (seq![rest[first as int]] + top(
                    rest.remove(first as int),
                    rank,
                    left as int,
                )) =~= so_far.push(rest[first as int]) + top(
                    rest.remove(first as int),
                    rank,
                    left as int,
                ));
            }
        }
        proof {
            assert(top(rows_at(table, pool@), rank, left as int) =~= Seq::<ContextView>::empty());
            assert(rows_at(table, picked@) =~= top(candidates, rank, limit as int));
        }
        // Of these, the rows in which the pattern stands.
        let ghost chosen = rows_at(table, picked@);
        let wanted = cmd.as_bytes();
        let mut found: Vec<Command> = Vec::new();
        let mut k: usize = 0;
        proof {
            assert(chosen.take(0) =~= Seq::<ContextView>::empty());
            assert(matches_view(found@) =~= hits(chosen.take(0), cmd@));
        }
        while k < picked.len()
            invariant
                k <= picked.len(),
                n == self.contextual_commands.len(),
                table == self.context(),
                chosen == rows_at(table, picked@),
                wanted@ == encode_utf8(cmd@),
                forall|j: int| 0 <= j < picked.len() ==> (#[trigger] picked@[j]) < n,
                matches_view(found@) == hits(chosen.take(k as int), cmd@),
            decreases picked.len() - k,
        {
            let row = &self.contextual_commands[picked[k]];
            let bounds = match_bounds(row.cmd.as_str().as_bytes(), wanted);
            proof {
                assert(chosen.take(k + 1).drop_last() =~= chosen.take(k as int));
                assert(chosen.take(k + 1).last() == table[picked@[k as int] as int]);
            }
            if bounds.len() > 0 {
                let ghost before = matches_view(found@);
                found.push(Command { cmd: row.cmd.clone(), last_run: row.last_run, match_bounds: bounds });
                proof {
                    assert(matches_view(found@) =~= before.push(hit(chosen[k as int], cmd@)));
                }
            }
            k += 1;
        }
        proof {
            assert(chosen.take(picked.len() as int) =~= chosen);
            lemma_hits(chosen, cmd@);
        }
        found
    }
}

} // verus!
