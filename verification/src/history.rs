//! The command store.
//!
//! `commands` holds one row for each pair of command text and directory,
//! oldest change first: a row that is written again moves to the end.
//! `selected_commands` holds the selections that the search screen made and
//! that no recorded execution has claimed yet.

use crate::text::{
    begins_with, bounds_of, chars_of, same_chars, starts_with, strings_view,
};
use vstd::prelude::*;
use vstd::string::*;

verus! {

/// One row of `commands`.
pub struct CommandRow {
    pub cmd: String,
    /// Times executed.
    pub cnt: u64,
    /// Epoch seconds of the last execution.
    pub when_run: i64,
    /// Epoch seconds of the last execution if it failed, else 0.
    pub when_failed: i64,
    /// 1 if the last execution succeeded, else 0.
    pub exit_code: u64,
    /// Times chosen on the search screen.
    pub selected: u64,
    /// The working directory; none for a row that was imported.
    pub dir: Option<String>,
}

/// A row of `commands` as plain values.
pub struct RowView {
    pub cmd: Seq<char>,
    pub cnt: nat,
    pub when_run: int,
    pub when_failed: int,
    pub exit_code: nat,
    pub selected: nat,
    pub dir: Option<Seq<char>>,
}

/// One row of `selected_commands`.
pub struct SelectedCommand {
    pub cmd: String,
    pub session_id: String,
    pub dir: String,
}

/// A row of `selected_commands` as plain values.
pub struct SelectedView {
    pub cmd: Seq<char>,
    pub session_id: Seq<char>,
    pub dir: Seq<char>,
}

/// A directory as plain values.
pub open spec fn dir_view(dir: Option<String>) -> Option<Seq<char>> {
    match dir {
        Some(d) => Some(d@),
        None => None,
    }
}

impl View for CommandRow {
    type V = RowView;

    open spec fn view(&self) -> RowView {
        RowView {
            cmd: self.cmd@,
            cnt: self.cnt as nat,
            when_run: self.when_run as int,
            when_failed: self.when_failed as int,
            exit_code: self.exit_code as nat,
            selected: self.selected as nat,
            dir: dir_view(self.dir),
        }
    }
}

impl View for SelectedCommand {
    type V = SelectedView;

    open spec fn view(&self) -> SelectedView {
        SelectedView { cmd: self.cmd@, session_id: self.session_id@, dir: self.dir@ }
    }
}

/// The rows of a table as plain values.
pub open spec fn rows_view(rows: Seq<CommandRow>) -> Seq<RowView> {
    Seq::new(rows.len(), |i: int| rows[i]@)
}

/// The rows of a table as plain values.
pub open spec fn selections_view(rows: Seq<SelectedCommand>) -> Seq<SelectedView> {
    Seq::new(rows.len(), |i: int| rows[i]@)
}

/// What a row may hold: it was executed at least once, not chosen more
/// often than executed, and its times are not before the epoch.
pub open spec fn row_ok(row: RowView) -> bool {
    &&& row.cnt >= 1
    &&& row.exit_code <= 1
    &&& row.selected <= row.cnt
    &&& 0 <= row.when_run <= limit()
    &&& 0 <= row.when_failed <= limit()
}

/// No two rows have the same command text and the same directory.
pub open spec fn unique(rows: Seq<RowView>) -> bool {
    forall|i: int, j: int|
        0 <= i < j < rows.len() ==> !((#[trigger] rows[i]).cmd == (#[trigger] rows[j]).cmd
            && rows[i].dir == rows[j].dir)
}

/// The executions that the table has counted.
pub open spec fn total_cnt(rows: Seq<RowView>) -> nat
    decreases rows.len(),
{
    if rows.len() == 0 {
        0
    } else {
        total_cnt(rows.drop_last()) + rows.last().cnt
    }
}

/// The most executions that a table counts: the largest number that a
/// column of whole numbers holds.
pub open spec fn limit() -> nat {
    0x7fff_ffff_ffff_ffff
}

/// What the table `commands` may hold.
pub open spec fn commands_ok(rows: Seq<RowView>) -> bool {
    &&& unique(rows)
    &&& forall|i: int| 0 <= i < rows.len() ==> row_ok(#[trigger] rows[i])
    &&& total_cnt(rows) <= limit()
}

/// Index of the row for this text and directory, if there is one.
pub open spec fn position(rows: Seq<RowView>, cmd: Seq<char>, dir: Option<Seq<char>>) -> Option<
    int,
> {
    if exists|i: int| 0 <= i < rows.len() && (#[trigger] rows[i]).cmd == cmd && rows[i].dir == dir {
        Some(choose|i: int| 0 <= i < rows.len() && (#[trigger] rows[i]).cmd == cmd && rows[i].dir == dir)
    } else {
        None
    }
}

/// The time of the last failure and the success flag that are stored for an
/// exit status.
pub open spec fn stored_status(exit_code: int, now: int) -> (int, nat) {
    if exit_code == 0 {
        (0, 1)
    } else {
        (now, 0)
    }
}

/// The row that one more execution leaves, `before` being the row for the
/// same text and directory if there was one.
pub open spec fn written(
    before: Option<RowView>,
    cmd: Seq<char>,
    dir: Option<Seq<char>>,
    status: (int, nat),
    credit: nat,
    now: int,
) -> RowView {
    RowView {
        cmd: cmd,
        cnt: match before {
            Some(row) => row.cnt + 1,
            None => 1,
        },
        when_run: now,
        when_failed: status.0,
        exit_code: status.1,
        selected: match before {
            Some(row) => row.selected + credit,
            None => credit,
        },
        dir: dir,
    }
}

/// The table after one more execution: the row for this text and directory
/// is brought up to date and moved to the end, or a new row is added.
pub open spec fn upserted(
    rows: Seq<RowView>,
    cmd: Seq<char>,
    dir: Option<Seq<char>>,
    status: (int, nat),
    credit: nat,
    now: int,
) -> Seq<RowView> {
    match position(rows, cmd, dir) {
        Some(i) => rows.remove(i).push(written(Some(rows[i]), cmd, dir, status, credit, now)),
        None => rows.push(written(None, cmd, dir, status, credit, now)),
    }
}

/// The table after one more imported line: a line has no directory and
/// carries no sign of success.
pub open spec fn seeded(rows: Seq<RowView>, cmd: Seq<char>, now: int) -> Seq<RowView> {
    upserted(rows, cmd, None, (0, 0), 0, now)
}

/// The table after the lines `lines[..upto]` were imported in turn. Lines
/// that are never recorded are passed over.
pub open spec fn seeded_all(lines: Seq<Seq<char>>, upto: int, now: int) -> Seq<RowView>
    decreases upto,
{
    if upto <= 0 {
        Seq::empty()
    } else if is_ignored(lines[upto - 1]) {
        seeded_all(lines, upto - 1, now)
    } else {
        seeded(seeded_all(lines, upto - 1, now), lines[upto - 1], now)
    }
}

/// A command that is never recorded: nothing at all, one that begins with a
/// space, one of a few that say nothing, or a call of this tool.
pub open spec fn is_ignored(command: Seq<char>) -> bool {
    ||| command.len() == 0
    ||| command[0] == ' '
    ||| command == "pwd"@
    ||| command == "ls"@
    ||| command == "cd"@
    ||| command == "cd .."@
    ||| command == "clear"@
    ||| command == "history"@
    ||| begins_with(command, "rhis"@)
}

/// Is there a pending selection of this command, session and directory?
pub open spec fn is_pending(
    rows: Seq<SelectedView>,
    cmd: Seq<char>,
    session_id: Seq<char>,
    dir: Seq<char>,
) -> bool {
    exists|i: int|
        0 <= i < rows.len() && #[trigger] rows[i] == (SelectedView {
            cmd: cmd,
            session_id: session_id,
            dir: dir,
        })
}

/// The selections of other sessions, in their order.
pub open spec fn other_sessions(rows: Seq<SelectedView>, session_id: Seq<char>) -> Seq<
    SelectedView,
>
    decreases rows.len(),
{
    if rows.len() == 0 {
        rows
    } else if rows.last().session_id == session_id {
        other_sessions(rows.drop_last(), session_id)
    } else {
        other_sessions(rows.drop_last(), session_id).push(rows.last())
    }
}

/// The rows of other commands, in their order.
pub open spec fn other_commands(rows: Seq<RowView>, cmd: Seq<char>) -> Seq<RowView>
    decreases rows.len(),
{
    if rows.len() == 0 {
        rows
    } else if rows.last().cmd == cmd {
        other_commands(rows.drop_last(), cmd)
    } else {
        other_commands(rows.drop_last(), cmd).push(rows.last())
    }
}

/// A row counts no more than the whole table.
pub proof fn lemma_row_within_total(rows: Seq<RowView>, i: int)
    requires
        0 <= i < rows.len(),
    ensures
        rows[i].cnt <= total_cnt(rows),
    decreases rows.len(),
{
    if i < rows.len() - 1 {
        lemma_row_within_total(rows.drop_last(), i);
    }
}

/// Taking a row out takes its executions out of the count.
pub proof fn lemma_total_remove(rows: Seq<RowView>, i: int)
    requires
        0 <= i < rows.len(),
    ensures
        total_cnt(rows.remove(i)) + rows[i].cnt == total_cnt(rows),
    decreases rows.len(),
{
    if i == rows.len() - 1 {
        assert(rows.remove(i) =~= rows.drop_last());
    } else {
        lemma_total_remove(rows.drop_last(), i);
        assert(rows.remove(i).drop_last() =~= rows.drop_last().remove(i));
        assert(rows.remove(i).last() == rows.last());
    }
}

/// Adding a row adds its executions to the count.
pub proof fn lemma_total_push(rows: Seq<RowView>, row: RowView)
    ensures
        total_cnt(rows.push(row)) == total_cnt(rows) + row.cnt,
{
    assert(rows.push(row).drop_last() =~= rows);
}

/// What is left when the rows of one command are taken out: rows of the
/// table, in their order, none of that command, and no more executions than
/// before.
pub proof fn lemma_other_commands(rows: Seq<RowView>, cmd: Seq<char>)
    ensures
        other_commands(rows, cmd).len() <= rows.len(),
        total_cnt(other_commands(rows, cmd)) <= total_cnt(rows),
        forall|k: int|
            0 <= k < other_commands(rows, cmd).len() ==> (#[trigger] other_commands(
                rows,
                cmd,
            )[k]).cmd != cmd,
        forall|k: int|
            0 <= k < other_commands(rows, cmd).len() ==> exists|i: int|
                k <= i < rows.len() && rows[i] == #[trigger] other_commands(rows, cmd)[k],
        forall|j: int, k: int|
            0 <= j < k < other_commands(rows, cmd).len() ==> exists|a: int, b: int|
                0 <= a < b < rows.len() && rows[a] == #[trigger] other_commands(rows, cmd)[j]
                    && rows[b] == #[trigger] other_commands(rows, cmd)[k],
    decreases rows.len(),
{
    let out = other_commands(rows, cmd);
    if rows.len() == 0 {
    } else {
        let head = rows.drop_last();
        let rest = other_commands(head, cmd);
        lemma_other_commands(head, cmd);
        if rows.last().cmd == cmd {
            assert forall|k: int| 0 <= k < out.len() implies exists|i: int|
                k <= i < rows.len() && rows[i] == #[trigger] out[k] by {
                let i = choose|i: int| k <= i < head.len() && head[i] == rest[k];
                assert(rows[i] == out[k]);
            }
            assert forall|j: int, k: int| 0 <= j < k < out.len() implies exists|a: int, b: int|
                0 <= a < b < rows.len() && rows[a] == #[trigger] out[j] && rows[b] == #[trigger] out[k] by {
                let (a, b) = choose|a: int, b: int|
                    0 <= a < b < head.len() && head[a] == rest[j] && head[b] == rest[k];
                assert(rows[a] == out[j] && rows[b] == out[k]);
            }
        } else {
            lemma_total_push(rest, rows.last());
            assert forall|k: int| 0 <= k < out.len() implies exists|i: int|
                k <= i < rows.len() && rows[i] == #[trigger] out[k] by {
                if k < rest.len() {
                    let i = choose|i: int| k <= i < head.len() && head[i] == rest[k];
                    assert(rows[i] == out[k]);
                } else {
                    assert(rows[rows.len() - 1] == out[k]);
                }
            }
            assert forall|j: int, k: int| 0 <= j < k < out.len() implies exists|a: int, b: int|
                0 <= a < b < rows.len() && rows[a] == #[trigger] out[j] && rows[b] == #[trigger] out[k] by {
                if k < rest.len() {
                    let (a, b) = choose|a: int, b: int|
                        0 <= a < b < head.len() && head[a] == rest[j] && head[b] == rest[k];
                    assert(rows[a] == out[j] && rows[b] == out[k]);
                } else {
                    let a = choose|i: int| j <= i < head.len() && head[i] == rest[j];
                    assert(rows[a] == out[j] && rows[rows.len() - 1] == out[k]);
                }
            }
        }
    }
}

/// Taking the rows of one command out leaves a table that is in order.
pub proof fn lemma_other_commands_ok(rows: Seq<RowView>, cmd: Seq<char>)
    requires
        commands_ok(rows),
    ensures
        commands_ok(other_commands(rows, cmd)),
{
    let out = other_commands(rows, cmd);
    lemma_other_commands(rows, cmd);
    assert forall|k: int| 0 <= k < out.len() implies row_ok(#[trigger] out[k]) by {
        let i = choose|i: int| k <= i < rows.len() && rows[i] == out[k];
        assert(row_ok(rows[i]));
    }
    assert forall|j: int, k: int| 0 <= j < k < out.len() implies !((#[trigger] out[j]).cmd == (
    #[trigger] out[k]).cmd && out[j].dir == out[k].dir) by {
        let (a, b) = choose|a: int, b: int|
            0 <= a < b < rows.len() && rows[a] == out[j] && rows[b] == out[k];
        assert(!(rows[a].cmd == rows[b].cmd && rows[a].dir == rows[b].dir));
    }
}

/// No selection of the session is left among those of other sessions.
pub proof fn lemma_other_sessions(rows: Seq<SelectedView>, session_id: Seq<char>)
    ensures
        forall|k: int|
            0 <= k < other_sessions(rows, session_id).len() ==> (#[trigger] other_sessions(
                rows,
                session_id,
            )[k]).session_id != session_id,
    decreases rows.len(),
{
    if rows.len() > 0 {
        let out = other_sessions(rows, session_id);
        let rest = other_sessions(rows.drop_last(), session_id);
        lemma_other_sessions(rows.drop_last(), session_id);
        assert forall|k: int| 0 <= k < out.len() implies (#[trigger] out[k]).session_id
            != session_id by {
            if k < rest.len() {
                assert(out[k] == rest[k]);
            }
        }
    }
}

/// One more execution leaves a table that is in order, with one execution
/// more.
pub proof fn lemma_upserted_ok(
    rows: Seq<RowView>,
    cmd: Seq<char>,
    dir: Option<Seq<char>>,
    status: (int, nat),
    credit: nat,
    now: int,
)
    requires
        commands_ok(rows),
        total_cnt(rows) < limit(),
        credit <= 1,
        0 <= now <= limit(),
        0 <= status.0 <= limit(),
        status.1 <= 1,
    ensures
        commands_ok(upserted(rows, cmd, dir, status, credit, now)),
        total_cnt(upserted(rows, cmd, dir, status, credit, now)) == total_cnt(rows) + 1,
{
    let out = upserted(rows, cmd, dir, status, credit, now);
    match position(rows, cmd, dir) {
        Some(i) => {
            let row = written(Some(rows[i]), cmd, dir, status, credit, now);
            let rest = rows.remove(i);
            lemma_total_remove(rows, i);
            lemma_total_push(rest, row);
            assert(row_ok(rows[i]));
            assert forall|k: int| 0 <= k < rest.len() implies row_ok(#[trigger] rest[k]) && !(
            rest[k].cmd == cmd && rest[k].dir == dir) by {
                let at = if k < i {
                    k
                } else {
                    k + 1
                };
                assert(rest[k] == rows[at]);
                assert(row_ok(rows[at]));
                if k < i {
                    assert(!(rows[k].cmd == rows[i].cmd && rows[k].dir == rows[i].dir));
                } else {
                    assert(!(rows[i].cmd == rows[k + 1].cmd && rows[i].dir == rows[k + 1].dir));
                }
            }
            assert forall|j: int, k: int| 0 <= j < k < out.len() implies !((#[trigger] out[j]).cmd
                == (#[trigger] out[k]).cmd && out[j].dir == out[k].dir) by {
                if k < rest.len() {
                    let a = if j < i {
                        j
                    } else {
                        j + 1
                    };
                    let b = if k < i {
                        k
                    } else {
                        k + 1
                    };
                    assert(out[j] == rows[a] && out[k] == rows[b]);
                } else {
                    assert(out[j] == rest[j]);
                }
            }
            assert forall|k: int| 0 <= k < out.len() implies row_ok(#[trigger] out[k]) by {
                if k < rest.len() {
                    assert(out[k] == rest[k]);
                }
            }
        },
        None => {
            let row = written(None, cmd, dir, status, credit, now);
            lemma_total_push(rows, row);
            assert forall|j: int, k: int| 0 <= j < k < out.len() implies !((#[trigger] out[j]).cmd
                == (#[trigger] out[k]).cmd && out[j].dir == out[k].dir) by {
                if k < rows.len() {
                    assert(out[j] == rows[j] && out[k] == rows[k]);
                } else {
                    assert(out[j] == rows[j]);
                }
            }
            assert forall|k: int| 0 <= k < out.len() implies row_ok(#[trigger] out[k]) by {
                if k < rows.len() {
                    assert(out[k] == rows[k]);
                }
            }
        },
    }
}

/// Importing lines leaves a table that is in order and counts no more
/// executions than lines.
pub proof fn lemma_seeded_all_ok(lines: Seq<Seq<char>>, upto: int, now: int)
    requires
        0 <= upto <= lines.len(),
        upto <= limit(),
        0 <= now <= limit(),
    ensures
        commands_ok(seeded_all(lines, upto, now)),
        total_cnt(seeded_all(lines, upto, now)) <= upto,
    decreases upto,
{
    if upto > 0 {
        lemma_seeded_all_ok(lines, upto - 1, now);
        if !is_ignored(lines[upto - 1]) {
            lemma_upserted_ok(seeded_all(lines, upto - 1, now), lines[upto - 1], None, (0, 0), 0, now);
        }
    }
}

/// Is this command never recorded?
pub fn ignored(command: &str) -> (r: bool)
    ensures
        r == is_ignored(command@),
{
    let c = chars_of(command);
    if c.len() == 0 {
        return true;
    }
    if c[0] == ' ' {
        return true;
    }
    same_chars(&c, &chars_of("pwd")) || same_chars(&c, &chars_of("ls")) || same_chars(
        &c,
        &chars_of("cd"),
    ) || same_chars(&c, &chars_of("cd ..")) || same_chars(&c, &chars_of("clear")) || same_chars(
        &c,
        &chars_of("history"),
    ) || starts_with(&c, &chars_of("rhis"))
}

/// Are the two directories the same?
pub fn same_dir(a: &Option<String>, b: &Option<String>) -> (r: bool)
    ensures
        r == (dir_view(*a) == dir_view(*b)),
{
    match a {
        Some(x) => match b {
            Some(y) => *x == *y,
            None => false,
        },
        None => match b {
            Some(_) => false,
            None => true,
        },
    }
}

impl CommandRow {
    /// A copy of the row.
    pub fn duplicate(&self) -> (row: CommandRow)
        ensures
            row@ == self@,
    {
        CommandRow {
            cmd: self.cmd.clone(),
            cnt: self.cnt,
            when_run: self.when_run,
            when_failed: self.when_failed,
            exit_code: self.exit_code,
            selected: self.selected,
            dir: match &self.dir {
                Some(d) => Some(d.clone()),
                None => None,
            },
        }
    }

    /// Does the row hold what a row may hold?
    pub fn is_ok(&self) -> (r: bool)
        ensures
            r == row_ok(self@),
    {
        self.cnt >= 1 && self.exit_code <= 1 && self.selected <= self.cnt && self.when_run >= 0
            && self.when_failed >= 0
    }
}

impl SelectedCommand {
    /// A copy of the row.
    pub fn duplicate(&self) -> (row: SelectedCommand)
        ensures
            row@ == self@,
    {
        SelectedCommand {
            cmd: self.cmd.clone(),
            session_id: self.session_id.clone(),
            dir: self.dir.clone(),
        }
    }
}

/// Index of the row for this text and directory, if there is one.
pub fn find_row(rows: &Vec<CommandRow>, cmd: &String, dir: &Option<String>) -> (found: Option<usize>)
    requires
        unique(rows_view(rows@)),
    ensures
        match found {
            Some(i) => position(rows_view(rows@), cmd@, dir_view(*dir)) == Some(i as int) && i
                < rows.len(),
            None => position(rows_view(rows@), cmd@, dir_view(*dir)) is None,
        },
{
    let ghost table = rows_view(rows@);
    let mut i: usize = 0;
    while i < rows.len()
        invariant
            i <= rows.len(),
            table == rows_view(rows@),
            unique(table),
            forall|k: int|
                0 <= k < i ==> !((#[trigger] table[k]).cmd == cmd@ && table[k].dir == dir_view(
                    *dir,
                )),
        decreases rows.len() - i,
    {
        if rows[i].cmd == *cmd && same_dir(&rows[i].dir, dir) {
            proof {
                assert(table[i as int].cmd == cmd@ && table[i as int].dir == dir_view(*dir));
                let at = choose|k: int|
                    0 <= k < table.len() && (#[trigger] table[k]).cmd == cmd@ && table[k].dir
                        == dir_view(*dir);
                assert(position(table, cmd@, dir_view(*dir)) == Some(at));
                if at != i {
                    if at < i {
                        assert(!(table[at].cmd == table[i as int].cmd && table[at].dir == table[i as int].dir));
                    } else {
                        assert(!(table[i as int].cmd == table[at].cmd && table[i as int].dir == table[at].dir));
                    }
                }
            }
            return Some(i);
        }
        i += 1;
    }
    None
}

/// A number between 0 and 1, as a fraction.
#[derive(Clone, Copy, Debug, PartialEq, Eq, Structural)]
pub struct Ratio {
    pub num: u64,
    pub den: u64,
}

/// The fraction is a number between 0 and 1.
pub open spec fn in_unit(r: Ratio) -> bool {
    r.den > 0 && r.num <= r.den
}

/// What the ranker knows of one command.
#[derive(Clone, Copy, Debug)]
pub struct Features {
    pub age_factor: Ratio,
    pub length_factor: Ratio,
    pub exit_factor: Ratio,
    pub recent_failure_factor: Ratio,
    pub selected_dir_factor: Ratio,
    pub dir_factor: Ratio,
    pub overlap_factor: Ratio,
    pub immediate_overlap_factor: Ratio,
    pub selected_occurrences_factor: Ratio,
    pub occurrences_factor: Ratio,
}

/// Every factor is a number between 0 and 1, and the share of selections in
/// the current directory is less than 1.
pub open spec fn features_ok(f: Features) -> bool {
    &&& in_unit(f.age_factor)
    &&& in_unit(f.length_factor)
    &&& in_unit(f.exit_factor)
    &&& in_unit(f.recent_failure_factor)
    &&& in_unit(f.selected_dir_factor)
    &&& f.selected_dir_factor.num < f.selected_dir_factor.den
    &&& in_unit(f.dir_factor)
    &&& in_unit(f.overlap_factor)
    &&& in_unit(f.immediate_overlap_factor)
    &&& in_unit(f.selected_occurrences_factor)
    &&& in_unit(f.occurrences_factor)
}

/// One row of `contextual_commands`: a command in the current context.
pub struct ContextualCommand {
    pub cmd: String,
    pub last_run: i64,
    /// The key by which the rows are ordered when they are ordered by rank.
    pub rank: i64,
    pub features: Features,
}

/// A row of `contextual_commands` as plain values.
pub struct ContextView {
    pub cmd: Seq<char>,
    pub last_run: int,
    pub rank: int,
    pub features: Features,
}

impl View for ContextualCommand {
    type V = ContextView;

    open spec fn view(&self) -> ContextView {
        ContextView {
            cmd: self.cmd@,
            last_run: self.last_run as int,
            rank: self.rank as int,
            features: self.features,
        }
    }
}

impl ContextualCommand {
    /// A copy of the row.
    pub fn duplicate(&self) -> (row: ContextualCommand)
        ensures
            row@ == self@,
    {
        ContextualCommand {
            cmd: self.cmd.clone(),
            last_run: self.last_run,
            rank: self.rank,
            features: self.features,
        }
    }
}

/// The rows of a table as plain values.
pub open spec fn context_view(rows: Seq<ContextualCommand>) -> Seq<ContextView> {
    Seq::new(rows.len(), |i: int| rows[i]@)
}

/// The rows of other commands, in their order.
pub open spec fn context_without(rows: Seq<ContextView>, cmd: Seq<char>) -> Seq<ContextView>
    decreases rows.len(),
{
    if rows.len() == 0 {
        rows
    } else if rows.last().cmd == cmd {
        context_without(rows.drop_last(), cmd)
    } else {
        context_without(rows.drop_last(), cmd).push(rows.last())
    }
}

/// A command that holds the pattern, with the places where it holds it.
pub struct Command {
    pub cmd: String,
    pub last_run: i64,
    /// Where the pattern stands in `cmd`: for each place the offset of its
    /// first byte and the offset behind its last.
    pub match_bounds: Vec<(usize, usize)>,
}

/// A match as plain values.
pub struct CommandView {
    pub cmd: Seq<char>,
    pub last_run: int,
    pub match_bounds: Seq<(int, int)>,
}

impl View for Command {
    type V = CommandView;

    open spec fn view(&self) -> CommandView {
        CommandView {
            cmd: self.cmd@,
            last_run: self.last_run as int,
            match_bounds: bounds_of(self.match_bounds@),
        }
    }
}

/// The matches as plain values.
pub open spec fn matches_view(found: Seq<Command>) -> Seq<CommandView> {
    Seq::new(found.len(), |i: int| found[i]@)
}

/// What the table `contextual_commands` may hold.
pub open spec fn context_ok(rows: Seq<ContextView>) -> bool {
    forall|i: int| 0 <= i < rows.len() ==> features_ok((#[trigger] rows[i]).features)
}

/// Taking the rows of one command out leaves a table that is in order.
pub proof fn lemma_context_without_ok(rows: Seq<ContextView>, cmd: Seq<char>)
    requires
        context_ok(rows),
    ensures
        context_ok(context_without(rows, cmd)),
        forall|k: int|
            0 <= k < context_without(rows, cmd).len() ==> (#[trigger] context_without(
                rows,
                cmd,
            )[k]).cmd != cmd,
    decreases rows.len(),
{
    if rows.len() > 0 {
        let out = context_without(rows, cmd);
        let rest = context_without(rows.drop_last(), cmd);
        assert(context_ok(rows.drop_last())) by {
            assert forall|i: int| 0 <= i < rows.drop_last().len() implies features_ok(
                (#[trigger] rows.drop_last()[i]).features,
            ) by {
                assert(rows.drop_last()[i] == rows[i]);
            }
        }
        lemma_context_without_ok(rows.drop_last(), cmd);
        assert forall|k: int| 0 <= k < out.len() implies features_ok((#[trigger] out[k]).features)
            && out[k].cmd != cmd by {
            if k < rest.len() {
                assert(out[k] == rest[k]);
            } else {
                assert(out[k] == rows[rows.len() - 1]);
            }
        }
    }
}

/// The exit status that the shell gives when it finds no such command.
pub const NOT_FOUND: i32 = 127;

/// The store.
pub struct History {
    pub commands: Vec<CommandRow>,
    pub selected_commands: Vec<SelectedCommand>,
    pub contextual_commands: Vec<ContextualCommand>,
}

impl History {
    /// The table `commands` as plain values.
    pub open spec fn rows(&self) -> Seq<RowView> {
        rows_view(self.commands@)
    }

    /// The table `selected_commands` as plain values.
    pub open spec fn selections(&self) -> Seq<SelectedView> {
        selections_view(self.selected_commands@)
    }

    /// The table `contextual_commands` as plain values.
    pub open spec fn context(&self) -> Seq<ContextView> {
        context_view(self.contextual_commands@)
    }

    /// The invariant of the store.
    pub open spec fn wf(&self) -> bool {
        &&& commands_ok(self.rows())
        &&& context_ok(self.context())
    }

    /// The store has counted fewer executions than it can count.
    pub open spec fn has_room(&self) -> bool {
        total_cnt(self.rows()) < limit()
    }

    /// An execution that is passed over: the shell found no such command,
    /// and the caller found none either.
    pub open spec fn is_passed_over(exit_code: i32, runnable: bool) -> bool {
        exit_code == NOT_FOUND && !runnable
    }

    /// The credit that an execution gets for a selection on the search
    /// screen: 1 if a selection of this command, session and directory is
    /// pending, else 0.
    pub open spec fn credit(&self, cmd: Seq<char>, session_id: Seq<char>, dir: Seq<char>) -> nat {
        if is_pending(self.selections(), cmd, session_id, dir) {
            1
        } else {
            0
        }
    }

    /// Has the store counted fewer executions than it can count?
    pub fn room(&self) -> (r: bool)
        requires
            self.wf(),
        ensures
            r == self.has_room(),
    {
        let ghost table = self.rows();
        let mut total: u64 = 0;
        let mut i: usize = 0;
        while i < self.commands.len()
            invariant
                i <= self.commands.len(),
                table == self.rows(),
                total_cnt(table) <= limit(),
                total == total_cnt(table.take(i as int)),
            decreases self.commands.len() - i,
        {
            proof {
                assert(table.take(i + 1).drop_last() =~= table.take(i as int));
                lemma_total_prefix(table, i + 1);
            }
            total = total + self.commands[i].cnt;
            i += 1;
        }
        proof {
            assert(table.take(self.commands.len() as int) =~= table);
        }
        total < 0x7fff_ffff_ffff_ffff
    }

    /// An empty store.
    pub fn new() -> (history: History)
        ensures
            history.wf(),
            history.rows() == Seq::<RowView>::empty(),
            history.selections() == Seq::<SelectedView>::empty(),
            history.context() == Seq::<ContextView>::empty(),
    {
        let history = History {
            commands: Vec::new(),
            selected_commands: Vec::new(),
            contextual_commands: Vec::new(),
        };
        proof {
            assert(history.rows() =~= Seq::<RowView>::empty());
            assert(history.selections() =~= Seq::<SelectedView>::empty());
            assert(history.context() =~= Seq::<ContextView>::empty());
        }
        history
    }

    /// A store with these two tables, if `commands` may hold these rows.
    pub fn load(commands: Vec<CommandRow>, selected_commands: Vec<SelectedCommand>) -> (loaded:
        Option<History>)
        ensures
            loaded is Some <==> commands_ok(rows_view(commands@)),
            loaded matches Some(history) ==> {
                &&& history.wf()
                &&& history.commands == commands
                &&& history.selected_commands == selected_commands
                &&& history.context() == Seq::<ContextView>::empty()
            },
    {
        let ghost table = rows_view(commands@);
        let mut total: u64 = 0;
        let mut i: usize = 0;
        while i < commands.len()
            invariant
                i <= commands.len(),
                table == rows_view(commands@),
                total == total_cnt(table.take(i as int)),
                total <= limit(),
                unique(table.take(i as int)),
                forall|k: int| 0 <= k < i ==> row_ok(#[trigger] table[k]),
            decreases commands.len() - i,
        {
            proof {
                assert(table.take(i + 1).drop_last() =~= table.take(i as int));
                lemma_total_prefix(table, i + 1);
            }
            if !commands[i].is_ok() {
                return None;
            }
            let mut j: usize = 0;
            while j < i
                invariant
                    j <= i < commands.len(),
                    table == rows_view(commands@),
                    forall|k: int|
                        0 <= k < j ==> !((#[trigger] table[k]).cmd == table[i as int].cmd
                            && table[k].dir == table[i as int].dir),
                decreases i - j,
            {
                if commands[j].cmd == commands[i].cmd && same_dir(
                    &commands[j].dir,
                    &commands[i].dir,
                ) {
                    proof {
                        assert(table[j as int].cmd == table[i as int].cmd && table[j as int].dir
                            == table[i as int].dir);
                    }
                    return None;
                }
                j += 1;
            }
            if commands[i].cnt > 0x7fff_ffff_ffff_ffff - total {
                return None;
            }
            total = total + commands[i].cnt;
            proof {
                let wider = table.take(i + 1);
                assert forall|a: int, b: int| 0 <= a < b < wider.len() implies !((
                #[trigger] wider[a]).cmd == (#[trigger] wider[b]).cmd && wider[a].dir
                    == wider[b].dir) by {
                    if b < i {
                        assert(table.take(i as int)[a] == wider[a]);
                        assert(table.take(i as int)[b] == wider[b]);
                    } else {
                        assert(wider[a] == table[a]);
                    }
                }
            }
            i += 1;
        }
        proof {
            assert(table.take(commands.len() as int) =~= table);
        }
        let history = History {
            commands,
            selected_commands,
            contextual_commands: Vec::new(),
        };
        proof {
            assert(history.context() =~= Seq::<ContextView>::empty());
        }
        Some(history)
    }

    /// A store that holds the lines of a shell history, recorded in turn at
    /// `now`.
    pub fn from_shell_history(lines: &Vec<String>, now: i64) -> (history: History)
        requires
            now >= 0,
            lines@.len() <= limit(),
        ensures
            history.wf(),
            history.rows() == seeded_all(strings_view(lines@), lines@.len() as int, now as int),
            history.selections() == Seq::<SelectedView>::empty(),
            history.context() == Seq::<ContextView>::empty(),
    {
        let mut history = History::new();
        let ghost all = strings_view(lines@);
        let mut i: usize = 0;
        while i < lines.len()
            invariant
                i <= lines.len(),
                now >= 0,
                lines@.len() <= limit(),
                all == strings_view(lines@),
                history.wf(),
                history.rows() == seeded_all(all, i as int, now as int),
                history.selections() == Seq::<SelectedView>::empty(),
                history.context() == Seq::<ContextView>::empty(),
            decreases lines.len() - i,
        {
            proof {
                lemma_seeded_all_ok(all, i as int, now as int);
            }
            if !ignored(lines[i].as_str()) {
                history.add_new_cmd(None, lines[i].as_str(), 0, 0, 0, now);
            }
            i += 1;
        }
        history
    }

    /// Writes one more execution into `commands`.
    fn add_new_cmd(
        &mut self,
        dir: Option<&str>,
        command: &str,
        when_failed: i64,
        exit_code: u64,
        selected: u64,
        now: i64,
    )
        requires
            old(self).wf(),
            old(self).has_room(),
            now >= 0,
            when_failed >= 0,
            exit_code <= 1,
            selected <= 1,
        ensures
            final(self).wf(),
            final(self).rows() == upserted(
                old(self).rows(),
                command@,
                match dir {
                    Some(d) => Some(d@),
                    None => None,
                },
                (when_failed as int, exit_code as nat),
                selected as nat,
                now as int,
            ),
            final(self).selected_commands == old(self).selected_commands,
            final(self).contextual_commands == old(self).contextual_commands,
    {
        let owned_dir: Option<String> = match dir {
            Some(d) => Some(d.to_owned()),
            None => None,
        };
        let owned_cmd = command.to_owned();
        let ghost before = self.rows();
        let ghost key_dir = dir_view(owned_dir);
        proof {
            lemma_upserted_ok(
                before,
                command@,
                key_dir,
                (when_failed as int, exit_code as nat),
                selected as nat,
                now as int,
            );
        }
        match find_row(&self.commands, &owned_cmd, &owned_dir) {
            Some(i) => {
                proof {
                    lemma_row_within_total(before, i as int);
                    assert(row_ok(before[i as int]));
                }
                let row = self.commands.remove(i);
                let updated = CommandRow {
                    cmd: owned_cmd,
                    cnt: row.cnt + 1,
                    when_run: now,
                    when_failed,
                    exit_code,
                    selected: row.selected + selected,
                    dir: owned_dir,
                };
                self.commands.push(updated);
                proof {
                    assert(self.rows() =~= before.remove(i as int).push(
                        written(
                            Some(before[i as int]),
                            command@,
                            key_dir,
                            (when_failed as int, exit_code as nat),
                            selected as nat,
                            now as int,
                        ),
                    ));
                }
            },
            None => {
                let fresh = CommandRow {
                    cmd: owned_cmd,
                    cnt: 1,
                    when_run: now,
                    when_failed,
                    exit_code,
                    selected,
                    dir: owned_dir,
                };
                self.commands.push(fresh);
                proof {
                    assert(self.rows() =~= before.push(
                        written(
                            None,
                            command@,
                            key_dir,
                            (when_failed as int, exit_code as nat),
                            selected as nat,
                            now as int,
                        ),
                    ));
                }
            },
        }
    }

    /// Claims the selection that the search screen made of this command, if
    /// there is one, and drops every selection of the session.
    fn execute_by_me(&mut self, command: &str, session_id: &str, dir: &str) -> (claimed: bool)
        ensures
            claimed == is_pending(old(self).selections(), command@, session_id@, dir@),
            final(self).selections() == other_sessions(old(self).selections(), session_id@),
            final(self).commands == old(self).commands,
            final(self).contextual_commands == old(self).contextual_commands,
    {
        let ghost before = self.selections();
        let cmd_chars = chars_of(command);
        let sid_chars = chars_of(session_id);
        let dir_chars = chars_of(dir);
        let mut claimed = false;
        let mut kept: Vec<SelectedCommand> = Vec::new();
        let mut i: usize = 0;
        while i < self.selected_commands.len()
            invariant
                i <= self.selected_commands.len(),
                before == self.selections(),
                cmd_chars@ == command@,
                sid_chars@ == session_id@,
                dir_chars@ == dir@,
                claimed == is_pending(before.take(i as int), command@, session_id@, dir@),
                selections_view(kept@) == other_sessions(before.take(i as int), session_id@),
            decreases self.selected_commands.len() - i,
        {
            let row = &self.selected_commands[i];
            let same_session = same_chars(&chars_of(row.session_id.as_str()), &sid_chars);
            let hit = same_session && same_chars(&chars_of(row.cmd.as_str()), &cmd_chars)
                && same_chars(&chars_of(row.dir.as_str()), &dir_chars);
            let ghost wider = before.take(i + 1);
            let ghost wanted = SelectedView { cmd: command@, session_id: session_id@, dir: dir@ };
            proof {
                assert(wider.drop_last() =~= before.take(i as int));
                assert(wider.last() == before[i as int]);
                if hit {
                    assert(wider[i as int] == wanted);
                } else if claimed {
                    let k = choose|k: int|
                        0 <= k < before.take(i as int).len() && #[trigger] before.take(i as int)[k]
                            == wanted;
                    assert(wider[k] == wanted);
                } else {
                    assert forall|k: int| 0 <= k < wider.len() implies #[trigger] wider[k]
                        != wanted by {
                        if k < i {
                            assert(before.take(i as int)[k] == wider[k]);
                        }
                    }
                }
            }
            if hit {
                claimed = true;
            }
            if !same_session {
                let ghost kept_before = selections_view(kept@);
                kept.push(row.duplicate());
                proof {
                    assert(selections_view(kept@) =~= kept_before.push(before[i as int]));
                }
            }
            i += 1;
        }
        proof {
            assert(before.take(self.selected_commands.len() as int) =~= before);
        }
        self.selected_commands = kept;
        claimed
    }

    /// Records one execution of `command` in `dir` at `now`.
    ///
    /// Whatever is recorded, no selection of the session is pending
    /// afterwards. `runnable` says whether the caller found the program that
    /// the command names; it is asked only where the shell found none.
    pub fn add(
        &mut self,
        command: &str,
        session_id: &str,
        dir: &str,
        exit_code: i32,
        now: i64,
        runnable: bool,
    )
        requires
            old(self).wf(),
            old(self).has_room(),
            now >= 0,
        ensures
            final(self).wf(),
            final(self).contextual_commands == old(self).contextual_commands,
            final(self).selections() == other_sessions(old(self).selections(), session_id@),
            forall|i: int|
                0 <= i < final(self).selections().len() ==> (#[trigger] final(self).selections()[i]).session_id != session_id@,
            Self::is_passed_over(exit_code, runnable) || is_ignored(command@) ==> final(self).commands == old(self).commands,
            !Self::is_passed_over(exit_code, runnable) && !is_ignored(command@) ==> final(self).rows() == upserted(
                old(self).rows(),
                command@,
                Some(dir@),
                stored_status(exit_code as int, now as int),
                old(self).credit(command@, session_id@, dir@),
                now as int,
            ),
    {
        proof {
            lemma_other_sessions(self.selections(), session_id@);
        }
        let claimed = self.execute_by_me(command, session_id, dir);
        if exit_code == NOT_FOUND && !runnable {
            return ;
        }
        if ignored(command) {
            return ;
        }
        let credit: u64 = if claimed {
            1
        } else {
            0
        };
        if exit_code == 0 {
            self.add_new_cmd(Some(dir), command, 0, 1, credit, now);
        } else {
            self.add_new_cmd(Some(dir), command, now, 0, credit, now);
        }
    }

    /// Notes that the search screen gave out `command`.
    pub fn record_selected_from_ui(&mut self, command: &str, session_id: &str, dir: &str)
        ensures
            final(self).selections() == old(self).selections().push(
                SelectedView { cmd: command@, session_id: session_id@, dir: dir@ },
            ),
            final(self).commands == old(self).commands,
            final(self).contextual_commands == old(self).contextual_commands,
    {
        let ghost before = self.selections();
        self.selected_commands.push(
            SelectedCommand {
                cmd: command.to_owned(),
                session_id: session_id.to_owned(),
                dir: dir.to_owned(),
            },
        );
        proof {
            assert(self.selections() =~= before.push(
                SelectedView { cmd: command@, session_id: session_id@, dir: dir@ },
            ));
        }
    }

    /// Forgets `command`: its rows in every directory, and its row in the
    /// current context.
    pub fn delete_command(&mut self, command: &str)
        requires
            old(self).wf(),
        ensures
            final(self).wf(),
            final(self).rows() == other_commands(old(self).rows(), command@),
            final(self).context() == context_without(old(self).context(), command@),
            final(self).selected_commands == old(self).selected_commands,
            forall|i: int|
                0 <= i < final(self).rows().len() ==> (#[trigger] final(self).rows()[i]).cmd
                    != command@,
    {
        let ghost rows = self.rows();
        let ghost context = self.context();
        let wanted = chars_of(command);
        let mut kept: Vec<CommandRow> = Vec::new();
        let mut i: usize = 0;
        while i < self.commands.len()
            invariant
                i <= self.commands.len(),
                rows == self.rows(),
                wanted@ == command@,
                rows_view(kept@) == other_commands(rows.take(i as int), command@),
            decreases self.commands.len() - i,
        {
            let row = &self.commands[i];
            proof {
                assert(rows.take(i + 1).drop_last() =~= rows.take(i as int));
            }
            if !same_chars(&chars_of(row.cmd.as_str()), &wanted) {
                let ghost kept_before = rows_view(kept@);
                kept.push(row.duplicate());
                proof {
                    assert(rows_view(kept@) =~= kept_before.push(rows[i as int]));
                }
            }
            i += 1;
        }
        let mut kept_context: Vec<ContextualCommand> = Vec::new();
        let mut j: usize = 0;
        while j < self.contextual_commands.len()
            invariant
                j <= self.contextual_commands.len(),
                context == self.context(),
                wanted@ == command@,
                context_view(kept_context@) == context_without(context.take(j as int), command@),
            decreases self.contextual_commands.len() - j,
        {
            let row = &self.contextual_commands[j];
            proof {
                assert(context.take(j + 1).drop_last() =~= context.take(j as int));
            }
            if !same_chars(&chars_of(row.cmd.as_str()), &wanted) {
                let ghost kept_before = context_view(kept_context@);
                kept_context.push(row.duplicate());
                proof {
                    assert(context_view(kept_context@) =~= kept_before.push(context[j as int]));
                }
            }
            j += 1;
        }
        proof {
            assert(rows.take(self.commands.len() as int) =~= rows);
            assert(context.take(self.contextual_commands.len() as int) =~= context);
            lemma_other_commands_ok(rows, command@);
            lemma_other_commands(rows, command@);
            lemma_context_without_ok(context, command@);
        }
        self.commands = kept;
        self.contextual_commands = kept_context;
    }
}

/// The executions that the first rows have counted are among those of the
/// whole table.
pub proof fn lemma_total_prefix(rows: Seq<RowView>, upto: int)
    requires
        0 <= upto <= rows.len(),
    ensures
        total_cnt(rows.take(upto)) <= total_cnt(rows),
    decreases rows.len(),
{
    if upto < rows.len() {
        lemma_total_prefix(rows.drop_last(), upto);
        assert(rows.drop_last().take(upto) =~= rows.take(upto));
    } else {
        assert(rows.take(upto) =~= rows);
    }
}

/// Why the store refused a change.
#[derive(Clone, Copy, Debug, PartialEq, Eq, Structural)]
pub enum StoreError {
    /// The change would leave two rows with the same command text and the
    /// same directory.
    Conflict,
}

/// The directory is `old`, or lies under it.
pub open spec fn is_under(dir: Seq<char>, old: Seq<char>) -> bool {
    dir == old || begins_with(dir, old.push('/'))
}

/// The directory after `old` was renamed to `new`.
pub open spec fn moved_dir(dir: Option<Seq<char>>, old: Seq<char>, new: Seq<char>) -> Option<
    Seq<char>,
> {
    match dir {
        Some(d) => if is_under(d, old) {
            Some(new + d.skip(old.len() as int))
        } else {
            Some(d)
        },
        None => None,
    }
}

/// The table after `old` was renamed to `new`.
pub open spec fn moved(rows: Seq<RowView>, old: Seq<char>, new: Seq<char>) -> Seq<RowView> {
    Seq::new(rows.len(), |i: int| RowView { dir: moved_dir(rows[i].dir, old, new), ..rows[i] })
}

/// Renaming a directory leaves the executions as they were counted.
pub proof fn lemma_moved_total(rows: Seq<RowView>, old: Seq<char>, new: Seq<char>)
    ensures
        total_cnt(moved(rows, old, new)) == total_cnt(rows),
    decreases rows.len(),
{
    if rows.len() > 0 {
        lemma_moved_total(rows.drop_last(), old, new);
        assert(moved(rows, old, new).drop_last() =~= moved(rows.drop_last(), old, new));
    }
}

/// Does no pair of text and directory occur twice?
pub fn is_unique(rows: &Vec<CommandRow>) -> (r: bool)
    ensures
        r == unique(rows_view(rows@)),
{
    let ghost table = rows_view(rows@);
    let mut i: usize = 0;
    while i < rows.len()
        invariant
            i <= rows.len(),
            table == rows_view(rows@),
            forall|a: int, b: int|
                0 <= a < b < i ==> !((#[trigger] table[a]).cmd == (#[trigger] table[b]).cmd
                    && table[a].dir == table[b].dir),
        decreases rows.len() - i,
    {
        let mut j: usize = 0;
        while j < i
            invariant
                j <= i < rows.len(),
                table == rows_view(rows@),
                forall|a: int|
                    0 <= a < j ==> !((#[trigger] table[a]).cmd == table[i as int].cmd
                        && table[a].dir == table[i as int].dir),
            decreases i - j,
        {
            if rows[j].cmd == rows[i].cmd && same_dir(&rows[j].dir, &rows[i].dir) {
                proof {
                    assert(table[j as int].cmd == table[i as int].cmd && table[j as int].dir
                        == table[i as int].dir);
                }
                return false;
            }
            j += 1;
        }
        i += 1;
    }
    true
}

impl History {
    /// Renames the directory `old_path` to `new_path` in every row that is
    /// of it or of a directory under it. A renaming that would leave two
    /// rows with the same text and directory is refused, and nothing
    /// changes.
    pub fn update_paths(&mut self, old_path: &str, new_path: &str) -> (done: Result<
        (),
        StoreError,
    >)
        requires
            old(self).wf(),
        ensures
            final(self).wf(),
            final(self).selected_commands == old(self).selected_commands,
            final(self).contextual_commands == old(self).contextual_commands,
            done is Ok <==> unique(moved(old(self).rows(), old_path@, new_path@)),
            done is Ok ==> final(self).rows() == moved(old(self).rows(), old_path@, new_path@),
            done is Err ==> final(self).commands == old(self).commands,
    {
        let ghost rows = self.rows();
        let old_chars = chars_of(old_path);
        let mut under = chars_of(old_path);
        under.push('/');
        let mut out: Vec<CommandRow> = Vec::new();
        let mut i: usize = 0;
        while i < self.commands.len()
            invariant
                i <= self.commands.len(),
                rows == self.rows(),
                old_chars@ == old_path@,
                under@ == old_path@.push('/'),
                rows_view(out@) == moved(rows, old_path@, new_path@).take(i as int),
            decreases self.commands.len() - i,
        {
            let row = &self.commands[i];
            let dir: Option<String> = match &row.dir {
                Some(d) => {
                    let chars = chars_of(d.as_str());
                    if same_chars(&chars, &old_chars) || starts_with(&chars, &under) {
                        let mut renamed = new_path.to_owned();
                        let rest = crate::text::string_of(&chars, old_chars.len());
                        renamed.append(rest.as_str());
                        Some(renamed)
                    } else {
                        Some(d.clone())
                    }
                },
                None => None,
            };
            let ghost before = rows_view(out@);
            out.push(
                CommandRow {
                    cmd: row.cmd.clone(),
                    cnt: row.cnt,
                    when_run: row.when_run,
                    when_failed: row.when_failed,
                    exit_code: row.exit_code,
                    selected: row.selected,
                    dir,
                },
            );
            proof {
                assert(rows_view(out@) =~= before.push(moved(rows, old_path@, new_path@)[i as int]));
                assert(moved(rows, old_path@, new_path@).take(i + 1) =~= moved(
                    rows,
                    old_path@,
                    new_path@,
                ).take(i as int).push(moved(rows, old_path@, new_path@)[i as int]));
            }
            i += 1;
        }
        proof {
            let after = moved(rows, old_path@, new_path@);
            assert(after.take(self.commands.len() as int) =~= after);
            lemma_moved_total(rows, old_path@, new_path@);
            assert forall|k: int| 0 <= k < after.len() implies row_ok(#[trigger] after[k]) by {
                assert(row_ok(rows[k]));
            }
        }
        if is_unique(&out) {
            self.commands = out;
            Ok(())
        } else {
            Err(StoreError::Conflict)
        }
    }
}

} // verus!
