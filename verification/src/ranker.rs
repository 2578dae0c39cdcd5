//! The ranker: what the store knows of each command in the current context.
//!
//! `contextual_commands` holds one row for each command that was executed in
//! the current directory, or anywhere if the screen asks for that. Each row
//! carries factors between 0 and 1, kept as fractions of whole numbers. The
//! score that orders the rows is computed from them elsewhere and comes back
//! as a whole number for each row.

use crate::history::{
    commands_ok, context_ok, context_view, features_ok, limit, rows_view, row_ok, same_dir,
    total_cnt, CommandRow, ContextView, ContextualCommand, Features, History, Ratio, RowView,
};
use crate::text::{chars_of, like, like_match};
use vstd::prelude::*;
use vstd::string::*;

verus! {

/// A column of `commands` that can be summed up.
#[derive(Clone, Copy, Debug)]
pub enum Column {
    /// `cnt`.
    Count,
    /// `selected`.
    Selected,
    /// `exit_code * cnt`: the executions of a row whose last one succeeded.
    Success,
}

/// Which rows a sum is taken over, and of which column.
pub struct Query {
    pub column: Column,
    /// Only rows of this command.
    pub cmd: Option<Seq<char>>,
    /// Only rows whose directory is `LIKE` this one.
    pub scope: Option<Seq<char>>,
    /// Only rows of exactly this directory.
    pub here: Option<Seq<char>>,
}

/// The directory filter of the context: none if commands from anywhere are
/// asked for.
pub open spec fn scope_of(dir: Seq<char>, anywhere: bool) -> Option<Seq<char>> {
    if anywhere {
        None
    } else {
        Some(dir)
    }
}

/// Does the row pass the directory filter? A row without a directory passes
/// only if there is no filter.
pub open spec fn in_scope(row: RowView, scope: Option<Seq<char>>) -> bool {
    match scope {
        None => true,
        Some(d) => match row.dir {
            Some(rd) => like(d, rd),
            None => false,
        },
    }
}

/// Is the row one of those that the query sums over?
pub open spec fn admits(q: Query, row: RowView) -> bool {
    &&& match q.cmd {
        Some(c) => row.cmd == c,
        None => true,
    }
    &&& in_scope(row, q.scope)
    &&& match q.here {
        Some(d) => row.dir == Some(d),
        None => true,
    }
}

/// What the row holds in the column.
pub open spec fn value(column: Column, row: RowView) -> nat {
    match column {
        Column::Count => row.cnt,
        Column::Selected => row.selected,
        Column::Success => if row.exit_code == 0 {
            0
        } else {
            row.cnt
        },
    }
}

/// What the row adds to the sum.
pub open spec fn worth(q: Query, row: RowView) -> nat {
    if admits(q, row) {
        value(q.column, row)
    } else {
        0
    }
}

/// The sum that the query asks for.
pub open spec fn tally(rows: Seq<RowView>, q: Query) -> nat
    decreases rows.len(),
{
    if rows.len() == 0 {
        0
    } else {
        tally(rows.drop_last(), q) + worth(q, rows.last())
    }
}

/// The rows of one command in the context.
pub open spec fn group(column: Column, cmd: Seq<char>, scope: Option<Seq<char>>) -> Query {
    Query { column, cmd: Some(cmd), scope, here: None }
}

/// The rows of one command in the context that are of the directory `dir`.
pub open spec fn group_here(
    column: Column,
    cmd: Seq<char>,
    scope: Option<Seq<char>>,
    dir: Seq<char>,
) -> Query {
    Query { column, cmd: Some(cmd), scope, here: Some(dir) }
}

/// All rows of one command.
pub open spec fn by_cmd(column: Column, cmd: Seq<char>) -> Query {
    Query { column, cmd: Some(cmd), scope: None, here: None }
}

/// The largest sum that any command of `rows[..upto]` has in the column over
/// the whole table, and at least 1.
pub open spec fn peak(rows: Seq<RowView>, column: Column, upto: int) -> nat
    decreases upto,
{
    if upto <= 0 {
        1
    } else {
        let rest = peak(rows, column, upto - 1);
        let own = tally(rows, by_cmd(column, rows[upto - 1].cmd));
        if own > rest {
            own
        } else {
            rest
        }
    }
}

/// The length of the longest command of `rows[..upto]`, and at least 1.
pub open spec fn longest(rows: Seq<RowView>, upto: int) -> nat
    decreases upto,
{
    if upto <= 0 {
        1
    } else {
        let rest = longest(rows, upto - 1);
        if rows[upto - 1].cmd.len() > rest {
            rows[upto - 1].cmd.len()
        } else {
            rest
        }
    }
}

/// The latest execution among the rows of `rows[..upto]` that pass the
/// directory filter and are of `cmd`, if one is given; 0 if there is none.
pub open spec fn latest(
    rows: Seq<RowView>,
    cmd: Option<Seq<char>>,
    scope: Option<Seq<char>>,
    upto: int,
) -> int
    decreases upto,
{
    if upto <= 0 {
        0
    } else {
        let rest = latest(rows, cmd, scope, upto - 1);
        let row = rows[upto - 1];
        if admits(Query { column: Column::Count, cmd, scope, here: None }, row) && row.when_run
            > rest {
            row.when_run
        } else {
            rest
        }
    }
}

/// The latest execution in the table; 0 if it is empty.
pub open spec fn newest(rows: Seq<RowView>) -> int {
    latest(rows, None, None, rows.len() as int)
}

/// The earliest execution among `rows[..upto]`; 0 if there is none.
pub open spec fn oldest(rows: Seq<RowView>, upto: int) -> int
    decreases upto,
{
    if upto <= 0 {
        0
    } else if upto == 1 {
        rows[0].when_run
    } else {
        let rest = oldest(rows, upto - 1);
        if rows[upto - 1].when_run < rest {
            rows[upto - 1].when_run
        } else {
            rest
        }
    }
}

/// The time that the history spans, and at least one second.
pub open spec fn span(rows: Seq<RowView>) -> int {
    if newest(rows) == oldest(rows, rows.len() as int) {
        1
    } else {
        newest(rows) - oldest(rows, rows.len() as int)
    }
}

/// The seconds after a failure in which it counts as recent.
pub const RECENT: i64 = 120;

/// Did the last execution of the row fail less than two minutes before
/// `now`?
pub open spec fn failed_lately(row: RowView, now: int) -> bool {
    row.exit_code == 0 && now - row.when_failed < RECENT
}

/// Is there such a row among those of `rows[..upto]` that are of `cmd` and
/// pass the directory filter?
pub open spec fn any_failed_lately(
    rows: Seq<RowView>,
    cmd: Seq<char>,
    scope: Option<Seq<char>>,
    now: int,
    upto: int,
) -> bool {
    exists|i: int|
        0 <= i < upto && admits(group(Column::Count, cmd, scope), #[trigger] rows[i])
            && failed_lately(rows[i], now)
}

/// The factors of the command `cmd` in the context of the directory `dir`.
pub open spec fn features_of(
    rows: Seq<RowView>,
    cmd: Seq<char>,
    dir: Seq<char>,
    anywhere: bool,
    now: int,
) -> Features {
    let scope = scope_of(dir, anywhere);
    let n = rows.len() as int;
    Features {
        age_factor: Ratio {
            num: (newest(rows) - latest(rows, Some(cmd), scope, n)) as u64,
            den: span(rows) as u64,
        },
        length_factor: Ratio { num: cmd.len() as u64, den: longest(rows, n) as u64 },
        exit_factor: Ratio {
            num: tally(rows, group(Column::Success, cmd, scope)) as u64,
            den: tally(rows, group(Column::Count, cmd, scope)) as u64,
        },
        recent_failure_factor: Ratio {
            num: if any_failed_lately(rows, cmd, scope, now, n) {
                1
            } else {
                0
            },
            den: 1,
        },
        selected_dir_factor: Ratio {
            num: tally(rows, group_here(Column::Selected, cmd, scope, dir)) as u64,
            den: (tally(rows, group(Column::Selected, cmd, scope)) + 1) as u64,
        },
        dir_factor: Ratio {
            num: tally(rows, group_here(Column::Count, cmd, scope, dir)) as u64,
            den: tally(rows, group(Column::Count, cmd, scope)) as u64,
        },
        overlap_factor: Ratio { num: 0, den: 1 },
        immediate_overlap_factor: Ratio { num: 0, den: 1 },
        selected_occurrences_factor: Ratio {
            num: tally(rows, group(Column::Selected, cmd, scope)) as u64,
            den: peak(rows, Column::Selected, n) as u64,
        },
        occurrences_factor: Ratio {
            num: tally(rows, group(Column::Count, cmd, scope)) as u64,
            den: peak(rows, Column::Count, n) as u64,
        },
    }
}

/// The row of `contextual_commands` for the command `cmd`, before it has a
/// rank.
pub open spec fn context_row(
    rows: Seq<RowView>,
    cmd: Seq<char>,
    dir: Seq<char>,
    anywhere: bool,
    now: int,
) -> ContextView {
    ContextView {
        cmd,
        last_run: latest(rows, Some(cmd), scope_of(dir, anywhere), rows.len() as int),
        rank: 0,
        features: features_of(rows, cmd, dir, anywhere, now),
    }
}

/// The row `at` passes the directory filter, and no later row of the same
/// command does: it is the one that brings its command into the context.
pub open spec fn leads(rows: Seq<RowView>, at: int, scope: Option<Seq<char>>) -> bool {
    &&& in_scope(rows[at], scope)
    &&& forall|j: int|
        at < j < rows.len() ==> !(in_scope(#[trigger] rows[j], scope) && rows[j].cmd
            == rows[at].cmd)
}

/// The table `contextual_commands` for the rows `rows[from..]`: one row for
/// each command in the context, the command that was written last first.
pub open spec fn context_rows(
    rows: Seq<RowView>,
    dir: Seq<char>,
    anywhere: bool,
    now: int,
    from: int,
) -> Seq<ContextView>
    decreases rows.len() - from,
{
    if from < 0 || from >= rows.len() {
        Seq::empty()
    } else {
        let rest = context_rows(rows, dir, anywhere, now, from + 1);
        if leads(rows, from, scope_of(dir, anywhere)) {
            rest.push(context_row(rows, rows[from].cmd, dir, anywhere, now))
        } else {
            rest
        }
    }
}

/// A sum over the first rows is no more than the sum over all.
pub proof fn lemma_tally_prefix(rows: Seq<RowView>, q: Query, upto: int)
    requires
        0 <= upto <= rows.len(),
    ensures
        tally(rows.take(upto), q) <= tally(rows, q),
    decreases rows.len(),
{
    if upto < rows.len() {
        lemma_tally_prefix(rows.drop_last(), q, upto);
        assert(rows.drop_last().take(upto) =~= rows.take(upto));
    } else {
        assert(rows.take(upto) =~= rows);
    }
}

/// A sum grows by what the next row is worth.
pub proof fn lemma_tally_step(rows: Seq<RowView>, q: Query, at: int)
    requires
        0 <= at < rows.len(),
    ensures
        tally(rows.take(at + 1), q) == tally(rows.take(at), q) + worth(q, rows[at]),
{
    assert(rows.take(at + 1).drop_last() =~= rows.take(at));
}

/// Where every row is worth no more to one query than to another, the first
/// sum is no more than the second.
pub proof fn lemma_tally_le(rows: Seq<RowView>, a: Query, b: Query)
    requires
        forall|i: int| 0 <= i < rows.len() ==> worth(a, #[trigger] rows[i]) <= worth(b, rows[i]),
    ensures
        tally(rows, a) <= tally(rows, b),
    decreases rows.len(),
{
    if rows.len() > 0 {
        assert forall|i: int| 0 <= i < rows.drop_last().len() implies worth(
            a,
            #[trigger] rows.drop_last()[i],
        ) <= worth(b, rows.drop_last()[i]) by {
            assert(rows.drop_last()[i] == rows[i]);
        }
        lemma_tally_le(rows.drop_last(), a, b);
        assert(rows.last() == rows[rows.len() - 1]);
    }
}

/// No sum is more than the executions that the table has counted.
pub proof fn lemma_tally_total(rows: Seq<RowView>, q: Query)
    requires
        forall|i: int| 0 <= i < rows.len() ==> row_ok(#[trigger] rows[i]),
    ensures
        tally(rows, q) <= total_cnt(rows),
    decreases rows.len(),
{
    if rows.len() > 0 {
        assert forall|i: int| 0 <= i < rows.drop_last().len() implies row_ok(
            #[trigger] rows.drop_last()[i],
        ) by {
            assert(rows.drop_last()[i] == rows[i]);
        }
        lemma_tally_total(rows.drop_last(), q);
        assert(row_ok(rows[rows.len() - 1]));
    }
}

/// A sum that one row is part of is at least what that row is worth.
pub proof fn lemma_tally_holds(rows: Seq<RowView>, q: Query, at: int)
    requires
        0 <= at < rows.len(),
    ensures
        worth(q, rows[at]) <= tally(rows, q),
    decreases rows.len(),
{
    if at < rows.len() - 1 {
        lemma_tally_holds(rows.drop_last(), q, at);
    }
}

/// The peak is at least 1, at least the sum of each command looked at, and
/// no more than the executions counted, if there are any.
pub proof fn lemma_peak(rows: Seq<RowView>, column: Column, upto: int)
    requires
        0 <= upto <= rows.len(),
        forall|i: int| 0 <= i < rows.len() ==> row_ok(#[trigger] rows[i]),
    ensures
        peak(rows, column, upto) >= 1,
        peak(rows, column, upto) <= total_cnt(rows) || peak(rows, column, upto) == 1,
        forall|i: int|
            0 <= i < upto ==> tally(rows, by_cmd(column, (#[trigger] rows[i]).cmd)) <= peak(
                rows,
                column,
                upto,
            ),
    decreases upto,
{
    if upto > 0 {
        lemma_peak(rows, column, upto - 1);
        lemma_tally_total(rows, by_cmd(column, rows[upto - 1].cmd));
    }
}

/// The longest length is at least 1 and at least the length of each command
/// looked at.
pub proof fn lemma_longest(rows: Seq<RowView>, upto: int)
    requires
        0 <= upto <= rows.len(),
    ensures
        longest(rows, upto) >= 1,
        forall|i: int| 0 <= i < upto ==> (#[trigger] rows[i]).cmd.len() <= longest(rows, upto),
    decreases upto,
{
    if upto > 0 {
        lemma_longest(rows, upto - 1);
    }
}

/// The earliest execution is not before the epoch and not after any row
/// looked at.
pub proof fn lemma_oldest(rows: Seq<RowView>, upto: int)
    requires
        0 <= upto <= rows.len(),
        forall|i: int| 0 <= i < rows.len() ==> row_ok(#[trigger] rows[i]),
    ensures
        oldest(rows, upto) >= 0,
        forall|i: int| 0 <= i < upto ==> oldest(rows, upto) <= (#[trigger] rows[i]).when_run,
    decreases upto,
{
    if upto > 1 {
        lemma_oldest(rows, upto - 1);
    } else if upto == 1 {
        assert(row_ok(rows[0]));
    }
}

/// The latest execution of a group is not before the epoch, not before any
/// row of the group looked at, and either 0 or the time of such a row.
pub proof fn lemma_latest(
    rows: Seq<RowView>,
    cmd: Option<Seq<char>>,
    scope: Option<Seq<char>>,
    upto: int,
)
    requires
        0 <= upto <= rows.len(),
        forall|i: int| 0 <= i < rows.len() ==> row_ok(#[trigger] rows[i]),
    ensures
        latest(rows, cmd, scope, upto) >= 0,
        forall|i: int|
            0 <= i < upto && admits(
                Query { column: Column::Count, cmd, scope, here: None },
                #[trigger] rows[i],
            ) ==> rows[i].when_run <= latest(rows, cmd, scope, upto),
        latest(rows, cmd, scope, upto) == 0 || exists|i: int|
            0 <= i < upto && (#[trigger] rows[i]).when_run == latest(rows, cmd, scope, upto),
    decreases upto,
{
    if upto > 0 {
        lemma_latest(rows, cmd, scope, upto - 1);
        let rest = latest(rows, cmd, scope, upto - 1);
        let row = rows[upto - 1];
        assert(row_ok(row));
        if admits(Query { column: Column::Count, cmd, scope, here: None }, row) && row.when_run
            > rest {
        } else if rest != 0 {
            let i = choose|i: int| 0 <= i < upto - 1 && (#[trigger] rows[i]).when_run == rest;
            assert(rows[i].when_run == latest(rows, cmd, scope, upto));
        }
    }
}

/// The latest execution of a group is not after the latest of the table.
pub proof fn lemma_latest_le_newest(
    rows: Seq<RowView>,
    cmd: Option<Seq<char>>,
    scope: Option<Seq<char>>,
    upto: int,
)
    requires
        0 <= upto <= rows.len(),
        forall|i: int| 0 <= i < rows.len() ==> row_ok(#[trigger] rows[i]),
    ensures
        latest(rows, cmd, scope, upto) <= newest(rows),
{
    lemma_latest(rows, cmd, scope, upto);
    lemma_latest(rows, None, None, rows.len() as int);
    let value = latest(rows, cmd, scope, upto);
    if value != 0 {
        let i = choose|i: int| 0 <= i < upto && (#[trigger] rows[i]).when_run == value;
        assert(admits(Query { column: Column::Count, cmd: None, scope: None, here: None }, rows[i]));
    }
}

/// The factors of a command that has a row in the context are numbers
/// between 0 and 1, and the share of its selections in the current directory
/// is less than 1. None of them is too large for the fields that hold it.
pub proof fn lemma_features_ok(
    rows: Seq<RowView>,
    dir: Seq<char>,
    anywhere: bool,
    now: int,
    at: int,
)
    requires
        commands_ok(rows),
        0 <= at < rows.len(),
        in_scope(rows[at], scope_of(dir, anywhere)),
        longest(rows, rows.len() as int) <= u64::MAX,
    ensures
        features_ok(features_of(rows, rows[at].cmd, dir, anywhere, now)),
        0 <= latest(rows, Some(rows[at].cmd), scope_of(dir, anywhere), rows.len() as int)
            <= newest(rows),
        0 <= newest(rows) - latest(
            rows,
            Some(rows[at].cmd),
            scope_of(dir, anywhere),
            rows.len() as int,
        ) <= span(rows),
        1 <= longest(rows, rows.len() as int),
        rows[at].cmd.len() <= longest(rows, rows.len() as int),
        1 <= peak(rows, Column::Count, rows.len() as int) <= limit(),
        1 <= peak(rows, Column::Selected, rows.len() as int) <= limit(),
        1 <= tally(rows, group(Column::Count, rows[at].cmd, scope_of(dir, anywhere))) <= limit(),
        tally(rows, group(Column::Selected, rows[at].cmd, scope_of(dir, anywhere))) <= limit(),
{
    let cmd = rows[at].cmd;
    let scope = scope_of(dir, anywhere);
    let n = rows.len() as int;
    let count = group(Column::Count, cmd, scope);
    let chosen = group(Column::Selected, cmd, scope);
    let good = group(Column::Success, cmd, scope);
    let count_here = group_here(Column::Count, cmd, scope, dir);
    let chosen_here = group_here(Column::Selected, cmd, scope, dir);
    assert(row_ok(rows[at]));
    // sums
    lemma_tally_total(rows, count);
    lemma_tally_holds(rows, count, at);
    assert forall|i: int| 0 <= i < rows.len() implies worth(good, #[trigger] rows[i]) <= worth(
        count,
        rows[i],
    ) by {}
    lemma_tally_le(rows, good, count);
    assert forall|i: int| 0 <= i < rows.len() implies worth(count_here, #[trigger] rows[i])
        <= worth(count, rows[i]) by {}
    lemma_tally_le(rows, count_here, count);
    assert forall|i: int| 0 <= i < rows.len() implies worth(chosen_here, #[trigger] rows[i])
        <= worth(chosen, rows[i]) by {}
    lemma_tally_le(rows, chosen_here, chosen);
    assert forall|i: int| 0 <= i < rows.len() implies worth(chosen, #[trigger] rows[i]) <= worth(
        count,
        rows[i],
    ) by {
        assert(row_ok(rows[i]));
    }
    lemma_tally_le(rows, chosen, count);
    // peaks
    lemma_peak(rows, Column::Count, n);
    lemma_peak(rows, Column::Selected, n);
    assert forall|i: int| 0 <= i < rows.len() implies worth(count, #[trigger] rows[i]) <= worth(
        by_cmd(Column::Count, cmd),
        rows[i],
    ) by {}
    lemma_tally_le(rows, count, by_cmd(Column::Count, cmd));
    assert forall|i: int| 0 <= i < rows.len() implies worth(chosen, #[trigger] rows[i]) <= worth(
        by_cmd(Column::Selected, cmd),
        rows[i],
    ) by {}
    lemma_tally_le(rows, chosen, by_cmd(Column::Selected, cmd));
    assert(tally(rows, by_cmd(Column::Count, rows[at].cmd)) <= peak(rows, Column::Count, n));
    assert(tally(rows, by_cmd(Column::Selected, rows[at].cmd)) <= peak(rows, Column::Selected, n));
    // The selections are fewer than the limit: the row `at` was executed at
    // least once more than it was selected, or as often, and the limit is
    // the most that all executions come to.
    lemma_tally_total(rows, chosen);
    // length
    lemma_longest(rows, n);
    // age
    lemma_latest(rows, Some(cmd), scope, n);
    lemma_latest_le_newest(rows, Some(cmd), scope, n);
    lemma_oldest(rows, n);
    lemma_latest(rows, None, None, n);
    assert(admits(count, rows[at]));
    assert(rows[at].when_run <= latest(rows, Some(cmd), scope, n));
    assert(oldest(rows, n) <= rows[at].when_run);
    assert(newest(rows) <= limit()) by {
        let top = newest(rows);
        if top != 0 {
            let i = choose|i: int| 0 <= i < n && (#[trigger] rows[i]).when_run == top;
            assert(row_ok(rows[i]));
        }
    }
}

/// Does the row at `at` pass the directory filter?
fn row_in_scope(row: &CommandRow, dir: &Vec<char>, anywhere: bool) -> (r: bool)
    ensures
        r == in_scope(row@, scope_of(dir@, anywhere)),
{
    if anywhere {
        return true;
    }
    match &row.dir {
        Some(d) => {
            let text = chars_of(d.as_str());
            like_match(dir, &text)
        },
        None => false,
    }
}

/// What one pass over the table finds out of a group.
struct GroupSums {
    count: u64,
    count_here: u64,
    chosen: u64,
    chosen_here: u64,
    good: u64,
    last_run: i64,
    failed_lately: bool,
}

/// The sums over the rows of the command of row `at` that pass the filter.
fn group_sums(
    rows: &Vec<CommandRow>,
    flags: &Vec<bool>,
    at: usize,
    dir: &str,
    anywhere: bool,
    now: i64,
) -> (sums: GroupSums)
    requires
        commands_ok(rows_view(rows@)),
        at < rows.len(),
        flags.len() == rows.len(),
        forall|i: int|
            0 <= i < rows.len() ==> flags@[i] == in_scope(
                #[trigger] rows_view(rows@)[i],
                scope_of(dir@, anywhere),
            ),
        now >= 0,
    ensures
        ({
            let table = rows_view(rows@);
            let cmd = table[at as int].cmd;
            let scope = scope_of(dir@, anywhere);
            &&& sums.count == tally(table, group(Column::Count, cmd, scope))
            &&& sums.count_here == tally(table, group_here(Column::Count, cmd, scope, dir@))
            &&& sums.chosen == tally(table, group(Column::Selected, cmd, scope))
            &&& sums.chosen_here == tally(table, group_here(Column::Selected, cmd, scope, dir@))
            &&& sums.good == tally(table, group(Column::Success, cmd, scope))
            &&& sums.last_run == latest(table, Some(cmd), scope, table.len() as int)
            &&& sums.failed_lately == any_failed_lately(
                table,
                cmd,
                scope,
                now as int,
                table.len() as int,
            )
        }),
{
    let ghost table = rows_view(rows@);
    let ghost cmd = table[at as int].cmd;
    let ghost scope = scope_of(dir@, anywhere);
    let ghost count_q = group(Column::Count, cmd, scope);
    let ghost count_here_q = group_here(Column::Count, cmd, scope, dir@);
    let ghost chosen_q = group(Column::Selected, cmd, scope);
    let ghost chosen_here_q = group_here(Column::Selected, cmd, scope, dir@);
    let ghost good_q = group(Column::Success, cmd, scope);
    let here: Option<String> = Some(dir.to_owned());
    let mut sums = GroupSums {
        count: 0,
        count_here: 0,
        chosen: 0,
        chosen_here: 0,
        good: 0,
        last_run: 0,
        failed_lately: false,
    };
    let mut i: usize = 0;
    proof {
        assert(table.take(0) =~= Seq::<RowView>::empty());
    }
    while i < rows.len()
        invariant
            i <= rows.len(),
            at < rows.len(),
            flags.len() == rows.len(),
            table == rows_view(rows@),
            commands_ok(table),
            now >= 0,
            cmd == table[at as int].cmd,
            scope == scope_of(dir@, anywhere),
            count_q == group(Column::Count, cmd, scope),
            count_here_q == group_here(Column::Count, cmd, scope, dir@),
            chosen_q == group(Column::Selected, cmd, scope),
            chosen_here_q == group_here(Column::Selected, cmd, scope, dir@),
            good_q == group(Column::Success, cmd, scope),
            dir_view_of(here) == Some(dir@),
            forall|k: int| 0 <= k < rows.len() ==> flags@[k] == in_scope(#[trigger] table[k], scope),
            sums.count == tally(table.take(i as int), count_q),
            sums.count_here == tally(table.take(i as int), count_here_q),
            sums.chosen == tally(table.take(i as int), chosen_q),
            sums.chosen_here == tally(table.take(i as int), chosen_here_q),
            sums.good == tally(table.take(i as int), good_q),
            sums.last_run == latest(table, Some(cmd), scope, i as int),
            sums.failed_lately == any_failed_lately(table, cmd, scope, now as int, i as int),
        decreases rows.len() - i,
    {
        let row = &rows[i];
        proof {
            assert(row_ok(table[i as int]));
            lemma_tally_step(table, count_q, i as int);
            lemma_tally_step(table, count_here_q, i as int);
            lemma_tally_step(table, chosen_q, i as int);
            lemma_tally_step(table, chosen_here_q, i as int);
            lemma_tally_step(table, good_q, i as int);
            lemma_tally_prefix(table, count_q, i + 1);
            lemma_tally_prefix(table, count_here_q, i + 1);
            lemma_tally_prefix(table, chosen_q, i + 1);
            lemma_tally_prefix(table, chosen_here_q, i + 1);
            lemma_tally_prefix(table, good_q, i + 1);
            lemma_tally_total(table, count_q);
            lemma_tally_total(table, count_here_q);
            lemma_tally_total(table, chosen_q);
            lemma_tally_total(table, chosen_here_q);
            lemma_tally_total(table, good_q);
        }
        let member = flags[i] && row.cmd == rows[at].cmd;
        let ghost was = sums.failed_lately;
        if member {
            let at_home = same_dir(&row.dir, &here);
            sums.count = sums.count + row.cnt;
            sums.chosen = sums.chosen + row.selected;
            if row.exit_code != 0 {
                sums.good = sums.good + row.cnt;
            }
            if at_home {
                sums.count_here = sums.count_here + row.cnt;
                sums.chosen_here = sums.chosen_here + row.selected;
            }
            if row.when_run > sums.last_run {
                sums.last_run = row.when_run;
            }
            if row.exit_code == 0 && now - row.when_failed < RECENT {
                sums.failed_lately = true;
            }
        }
        proof {
            let lately = member && failed_lately(table[i as int], now as int);
            if lately {
                assert(admits(group(Column::Count, cmd, scope), table[i as int]));
            } else if was {
                let k = choose|k: int|
                    0 <= k < i && admits(group(Column::Count, cmd, scope), #[trigger] table[k])
                        && failed_lately(table[k], now as int);
                assert(0 <= k < i + 1);
            } else {
                assert forall|k: int| 0 <= k < i + 1 implies !(admits(
                    group(Column::Count, cmd, scope),
                    #[trigger] table[k],
                ) && failed_lately(table[k], now as int)) by {}
            }
        }
        i += 1;
    }
    proof {
        assert(table.take(rows.len() as int) =~= table);
    }
    sums
}

/// The directory as plain values.
pub open spec fn dir_view_of(dir: Option<String>) -> Option<Seq<char>> {
    crate::history::dir_view(dir)
}

/// The sum of the column over all rows of the command of row `at`.
fn command_sum(rows: &Vec<CommandRow>, at: usize, column: Column) -> (sum: u64)
    requires
        commands_ok(rows_view(rows@)),
        at < rows.len(),
        !(column is Success),
    ensures
        sum == tally(rows_view(rows@), by_cmd(column, rows_view(rows@)[at as int].cmd)),
{
    let ghost table = rows_view(rows@);
    let ghost q = by_cmd(column, table[at as int].cmd);
    let mut sum: u64 = 0;
    let mut i: usize = 0;
    proof {
        assert(table.take(0) =~= Seq::<RowView>::empty());
    }
    while i < rows.len()
        invariant
            i <= rows.len(),
            at < rows.len(),
            table == rows_view(rows@),
            commands_ok(table),
            q == by_cmd(column, table[at as int].cmd),
            !(column is Success),
            sum == tally(table.take(i as int), q),
        decreases rows.len() - i,
    {
        proof {
            assert(row_ok(table[i as int]));
            lemma_tally_step(table, q, i as int);
            lemma_tally_prefix(table, q, i + 1);
            lemma_tally_total(table, q);
        }
        if rows[i].cmd == rows[at].cmd {
            let add = match column {
                Column::Count => rows[i].cnt,
                _ => rows[i].selected,
            };
            sum = sum + add;
        }
        i += 1;
    }
    proof {
        assert(table.take(rows.len() as int) =~= table);
    }
    sum
}

/// The largest sum of the column that any command has, and at least 1.
fn column_peak(rows: &Vec<CommandRow>, column: Column) -> (top: u64)
    requires
        commands_ok(rows_view(rows@)),
        !(column is Success),
    ensures
        top == peak(rows_view(rows@), column, rows@.len() as int),
{
    let ghost table = rows_view(rows@);
    let mut top: u64 = 1;
    let mut i: usize = 0;
    while i < rows.len()
        invariant
            i <= rows.len(),
            table == rows_view(rows@),
            commands_ok(table),
            !(column is Success),
            top == peak(table, column, i as int),
        decreases rows.len() - i,
    {
        let own = command_sum(rows, i, column);
        if own > top {
            top = own;
        }
        i += 1;
    }
    top
}

impl History {
    /// Builds `contextual_commands` anew for the directory `dir`: one row
    /// for each command that has a row in the context, with its factors and
    /// the rank 0.
    pub fn build_cache_table(&mut self, dir: &str, anywhere: bool, now: i64)
        requires
            old(self).wf(),
            now >= 0,
        ensures
            final(self).wf(),
            final(self).commands == old(self).commands,
            final(self).selected_commands == old(self).selected_commands,
            final(self).context() == context_rows(old(self).rows(), dir@, anywhere, now as int, 0),
    {
        let ghost table = self.rows();
        let ghost scope = scope_of(dir@, anywhere);
        let n = self.commands.len();
        let dir_chars = chars_of(dir);
        // Which rows pass the directory filter, the longest command, and the
        // earliest and the latest execution.
        let mut flags: Vec<bool> = Vec::new();
        let mut max_length: u64 = 1;
        let mut when_run_max: i64 = 0;
        let mut when_run_min: i64 = 0;
        let mut i: usize = 0;
        while i < n
            invariant
                i <= n,
                n == self.commands.len(),
                table == self.rows(),
                commands_ok(table),
                dir_chars@ == dir@,
                scope == scope_of(dir@, anywhere),
                flags.len() == i,
                forall|k: int| 0 <= k < i ==> flags@[k] == in_scope(#[trigger] table[k], scope),
                max_length == longest(table, i as int),
                when_run_max == latest(table, None, None, i as int),
                when_run_min == oldest(table, i as int),
            decreases n - i,
        {
            let row = &self.commands[i];
            proof {
                assert(row_ok(table[i as int]));
            }
            flags.push(row_in_scope(row, &dir_chars, anywhere));
            let length = row.cmd.as_str().unicode_len() as u64;
            if length > max_length {
                max_length = length;
            }
            if row.when_run > when_run_max {
                when_run_max = row.when_run;
            }
            if i == 0 || row.when_run < when_run_min {
                when_run_min = row.when_run;
            }
            i += 1;
        }
        let duration: u64 = if when_run_max == when_run_min {
            1
        } else {
            proof {
                lemma_oldest(table, n as int);
                lemma_latest(table, None, None, n as int);
                if n > 0 {
                    assert(admits(
                        Query { column: Column::Count, cmd: None, scope: None, here: None },
                        table[0],
                    ));
                }
            }
            (when_run_max - when_run_min) as u64
        };
        let max_occurrences = column_peak(&self.commands, Column::Count);
        let max_selected_occurrences = column_peak(&self.commands, Column::Selected);
        let mut out: Vec<ContextualCommand> = Vec::new();
        let mut at: usize = n;
        proof {
            assert(context_view(out@) =~= context_rows(table, dir@, anywhere, now as int, n as int));
        }
        while at > 0
            invariant
                at <= n,
                n == self.commands.len(),
                table == self.rows(),
                commands_ok(table),
                now >= 0,
                scope == scope_of(dir@, anywhere),
                flags.len() == n,
                forall|k: int| 0 <= k < n ==> flags@[k] == in_scope(#[trigger] table[k], scope),
                max_length == longest(table, n as int),
                when_run_max == newest(table),
                duration == span(table),
                max_occurrences == peak(table, Column::Count, n as int),
                max_selected_occurrences == peak(table, Column::Selected, n as int),
                context_view(out@) == context_rows(table, dir@, anywhere, now as int, at as int),
                context_ok(context_view(out@)),
            decreases at,
        {
            at -= 1;
            let mut first = flags[at];
            let mut j: usize = at + 1;
            while first && j < n
                invariant
                    at < j <= n,
                    n == self.commands.len(),
                    table == self.rows(),
                    flags.len() == n,
                    forall|k: int|
                        0 <= k < n ==> flags@[k] == in_scope(#[trigger] table[k], scope),
                    first ==> flags@[at as int],
                    first ==> forall|k: int|
                        at < k < j ==> !(in_scope(#[trigger] table[k], scope) && table[k].cmd
                            == table[at as int].cmd),
                    !first ==> !leads(table, at as int, scope),
                decreases n - j + (if first { 1int } else { 0int }),
            {
                if flags[j] && self.commands[j].cmd == self.commands[at].cmd {
                    first = false;
                    proof {
                        assert(in_scope(table[j as int], scope) && table[j as int].cmd
                            == table[at as int].cmd);
                    }
                } else {
                    j += 1;
                }
            }
            if first {
                let sums = group_sums(&self.commands, &flags, at, dir, anywhere, now);
                let row = &self.commands[at];
                let length = row.cmd.as_str().unicode_len() as u64;
                proof {
                    lemma_features_ok(table, dir@, anywhere, now as int, at as int);
                }
                let features = Features {
                    age_factor: Ratio { num: (when_run_max - sums.last_run) as u64, den: duration },
                    length_factor: Ratio { num: length, den: max_length },
                    exit_factor: Ratio { num: sums.good, den: sums.count },
                    recent_failure_factor: Ratio {
                        num: if sums.failed_lately {
                            1
                        } else {
                            0
                        },
                        den: 1,
                    },
                    selected_dir_factor: Ratio { num: sums.chosen_here, den: sums.chosen + 1 },
                    dir_factor: Ratio { num: sums.count_here, den: sums.count },
                    overlap_factor: Ratio { num: 0, den: 1 },
                    immediate_overlap_factor: Ratio { num: 0, den: 1 },
                    selected_occurrences_factor: Ratio {
                        num: sums.chosen,
                        den: max_selected_occurrences,
                    },
                    occurrences_factor: Ratio { num: sums.count, den: max_occurrences },
                };
                let ghost before = context_view(out@);
                out.push(
                    ContextualCommand {
                        cmd: row.cmd.clone(),
                        last_run: sums.last_run,
                        rank: 0,
                        features,
                    },
                );
                proof {
                    assert(features == features_of(
                        table,
                        table[at as int].cmd,
                        dir@,
                        anywhere,
                        now as int,
                    ));
                    assert(context_view(out@) =~= before.push(
                        context_row(table, table[at as int].cmd, dir@, anywhere, now as int),
                    ));
                    assert(leads(table, at as int, scope));
                }
            }
        }
        self.contextual_commands = out;
    }
}

/// What gives a row its rank. The larger the number, the better the row.
pub trait Scorer {
    fn score(&self, features: &Features) -> i64;
}

/// The rows with their ranks taken away.
pub open spec fn unranked(rows: Seq<ContextView>) -> Seq<ContextView> {
    Seq::new(rows.len(), |i: int| ContextView { rank: 0, ..rows[i] })
}

/// Each row has a rank that the scorer gives for the factors of the row.
pub open spec fn ranked_by<S: Scorer>(rows: Seq<ContextualCommand>, scorer: &S) -> bool {
    forall|i: int|
        0 <= i < rows.len() ==> call_ensures(
            S::score,
            (scorer, &(#[trigger] rows[i]).features),
            rows[i].rank,
        )
}

impl History {
    /// Gives each row of `contextual_commands` the rank that the scorer
    /// gives its factors. Nothing but the ranks changes.
    pub fn rank_rows<S: Scorer>(&mut self, scorer: &S)
        requires
            old(self).wf(),
        ensures
            final(self).wf(),
            final(self).commands == old(self).commands,
            final(self).selected_commands == old(self).selected_commands,
            unranked(final(self).context()) == unranked(old(self).context()),
            final(self).contextual_commands@.len() == old(self).contextual_commands@.len(),
            ranked_by(final(self).contextual_commands@, scorer),
    {
        let ghost before = self.context();
        let mut out: Vec<ContextualCommand> = Vec::new();
        let mut i: usize = 0;
        while i < self.contextual_commands.len()
            invariant
                i <= self.contextual_commands.len(),
                before == self.context(),
                context_ok(before),
                out.len() == i,
                forall|k: int|
                    0 <= k < i ==> (ContextView { rank: 0, ..#[trigger] context_view(out@)[k] })
                        == (ContextView { rank: 0, ..before[k] }),
                ranked_by(out@, scorer),
            decreases self.contextual_commands.len() - i,
        {
            let row = &self.contextual_commands[i];
            let rank = scorer.score(&row.features);
            let ghost so_far = context_view(out@);
            out.push(
                ContextualCommand {
                    cmd: row.cmd.clone(),
                    last_run: row.last_run,
                    rank,
                    features: row.features,
                },
            );
            proof {
                assert(context_view(out@) =~= so_far.push(
                    ContextView { rank: rank as int, ..before[i as int] },
                ));
            }
            i += 1;
        }
        proof {
            assert forall|k: int| 0 <= k < out.len() implies features_ok(
                (#[trigger] context_view(out@)[k]).features,
            ) by {
                assert(features_ok(before[k].features));
                assert((ContextView { rank: 0, ..context_view(out@)[k] }) == (ContextView {
                    rank: 0,
                    ..before[k]
                }));
            }
            assert(unranked(context_view(out@)) =~= unranked(before)) by {
                assert forall|k: int| 0 <= k < out.len() implies unranked(context_view(out@))[k]
                    == unranked(before)[k] by {
                    assert((ContextView { rank: 0, ..context_view(out@)[k] }) == (ContextView {
                        rank: 0,
                        ..before[k]
                    }));
                }
            }
        }
        self.contextual_commands = out;
    }
}

} // verus!
