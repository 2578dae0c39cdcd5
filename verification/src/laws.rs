//! What holds of the store across several of its operations.

use crate::history::{
    commands_ok, is_ignored, is_pending, limit, other_sessions, position, stored_status,
    total_cnt, upserted, written, CommandView, ContextView, RowView, SelectedView,
    lemma_upserted_ok, lemma_other_sessions,
};
use crate::matcher::{best, cap, hit, hits, key, lemma_best, liked, search, top};
use crate::ranker::{context_row, context_rows, in_scope, leads, scope_of};
use crate::text::{
    anywhere_pattern, lemma_like_contains, lemma_like_self, lemma_occurrence_found,
    lemma_prefix_occurs, like,
};
use vstd::prelude::*;
use vstd::utf8::encode_utf8;

verus! {

/// How often the command was chosen on the search screen in the directory;
/// 0 if it has no row there.
pub open spec fn selected_of(rows: Seq<RowView>, cmd: Seq<char>, dir: Option<Seq<char>>) -> nat {
    match position(rows, cmd, dir) {
        Some(i) => rows[i].selected,
        None => 0,
    }
}

/// A selection that is noted and then executed is credited once.
///
/// When the search screen gives out a command and the same session then
/// records its execution in the same directory, the row of the command there
/// has been chosen once more than before, and no selection of the session is
/// pending any more. This holds of every command that is recorded at all.
pub proof fn law_selection_is_credited(
    rows: Seq<RowView>,
    selections: Seq<SelectedView>,
    cmd: Seq<char>,
    session_id: Seq<char>,
    dir: Seq<char>,
    exit_code: int,
    now: int,
)
    requires
        commands_ok(rows),
        total_cnt(rows) < limit(),
        0 <= now <= limit(),
        !is_ignored(cmd),
    ensures
        ({
            let noted = selections.push(SelectedView { cmd, session_id, dir });
            let after = upserted(rows, cmd, Some(dir), stored_status(exit_code, now), 1, now);
            &&& is_pending(noted, cmd, session_id, dir)
            &&& selected_of(after, cmd, Some(dir)) == selected_of(rows, cmd, Some(dir)) + 1
            &&& forall|i: int|
                0 <= i < other_sessions(noted, session_id).len() ==> (#[trigger] other_sessions(
                    noted,
                    session_id,
                )[i]).session_id != session_id
        }),
{
    let noted = selections.push(SelectedView { cmd, session_id, dir });
    let status = stored_status(exit_code, now);
    let after = upserted(rows, cmd, Some(dir), status, 1, now);
    assert(noted[noted.len() - 1] == SelectedView { cmd, session_id, dir });
    lemma_other_sessions(noted, session_id);
    lemma_upserted_ok(rows, cmd, Some(dir), status, 1, now);
    let last = after.len() - 1;
    let before = position(rows, cmd, Some(dir));
    let row = match before {
        Some(i) => written(Some(rows[i]), cmd, Some(dir), status, 1, now),
        None => written(None, cmd, Some(dir), status, 1, now),
    };
    assert(after[last] == row);
    assert(after[last].cmd == cmd && after[last].dir == Some(dir));
    let found = position(after, cmd, Some(dir))->0;
    assert(0 <= found < after.len() && after[found].cmd == cmd && after[found].dir == Some(dir));
    if found != last {
        assert(!(after[found].cmd == after[last].cmd && after[found].dir == after[last].dir));
    }
}

/// A store that has recorded nothing finds nothing.
pub proof fn law_empty_store_finds_nothing(
    dir: Seq<char>,
    anywhere: bool,
    now: int,
    pattern: Seq<char>,
    num: int,
    by_rank: bool,
)
    ensures
        context_rows(Seq::<RowView>::empty(), dir, anywhere, now, 0) == Seq::<ContextView>::empty(),
        search(Seq::<ContextView>::empty(), pattern, num, by_rank) == Seq::<CommandView>::empty(),
{
    let none = Seq::<ContextView>::empty();
    assert(liked(none, pattern) =~= none);
    assert(top(none, by_rank, cap(num, 0)) =~= none);
    assert(hits(none, pattern) =~= Seq::<CommandView>::empty());
}

/// A search in a context of one command finds it by any beginning of it.
pub proof fn law_single_command_is_found(
    context: Seq<ContextView>,
    k: int,
    num: int,
    by_rank: bool,
)
    requires
        context.len() == 1,
        1 <= k <= context[0].cmd.len(),
        num != 0,
    ensures
        search(context, context[0].cmd.take(k), num, by_rank) == seq![
            hit(context[0], context[0].cmd.take(k)),
        ],
{
    let cmd = context[0].cmd;
    let pattern = cmd.take(k);
    assert(cmd.subrange(0, 0 + pattern.len() as int) =~= pattern);
    lemma_like_contains(pattern, cmd, 0);
    assert(context.drop_last() =~= Seq::<ContextView>::empty());
    assert(liked(context.drop_last(), pattern) =~= Seq::<ContextView>::empty());
    assert(liked(context, pattern) =~= context);
    let limit = cap(num, 1);
    assert(best(context, by_rank, 1) == 0);
    assert(context.remove(0) =~= Seq::<ContextView>::empty());
    assert(top(context.remove(0), by_rank, limit - 1) =~= Seq::<ContextView>::empty());
    assert(top(context, by_rank, limit) =~= context);
    lemma_prefix_occurs(cmd, k);
    lemma_occurrence_found(encode_utf8(cmd), encode_utf8(pattern), 0, 0);
    assert(hits(context.drop_last(), pattern) =~= Seq::<CommandView>::empty());
    assert(hits(context, pattern) =~= seq![hit(context[0], pattern)]);
}

/// A command that was recorded is found by any beginning of it.
///
/// When a store that held nothing records one execution of a command and
/// then builds its context for the same directory, or for all directories,
/// a search for the first characters of the command, one or more, with room
/// for one result or more, gives that command and nothing else. This holds
/// of every command that is recorded at all.
pub proof fn law_recorded_command_is_found(
    cmd: Seq<char>,
    dir: Seq<char>,
    exit_code: int,
    credit: nat,
    recorded_at: int,
    current_dir: Seq<char>,
    anywhere: bool,
    now: int,
    k: int,
    num: int,
    by_rank: bool,
)
    requires
        !is_ignored(cmd),
        anywhere || current_dir == dir,
        1 <= k <= cmd.len(),
        num != 0,
    ensures
        ({
            let rows = upserted(
                Seq::<RowView>::empty(),
                cmd,
                Some(dir),
                stored_status(exit_code, recorded_at),
                credit,
                recorded_at,
            );
            let context = context_rows(rows, current_dir, anywhere, now, 0);
            let found = search(context, cmd.take(k), num, by_rank);
            &&& found.len() == 1
            &&& found[0].cmd == cmd
            &&& found[0].match_bounds.len() > 0
        }),
{
    let none = Seq::<RowView>::empty();
    let status = stored_status(exit_code, recorded_at);
    let rows = upserted(none, cmd, Some(dir), status, credit, recorded_at);
    assert(position(none, cmd, Some(dir)) is None);
    let row = written(None, cmd, Some(dir), status, credit, recorded_at);
    assert(rows =~= seq![row]);
    let scope = scope_of(current_dir, anywhere);
    if !anywhere {
        lemma_like_self(dir);
    }
    assert(in_scope(rows[0], scope));
    assert(leads(rows, 0, scope));
    assert(context_rows(rows, current_dir, anywhere, now, 1) =~= Seq::<ContextView>::empty());
    let context = context_rows(rows, current_dir, anywhere, now, 0);
    assert(context =~= seq![context_row(rows, cmd, current_dir, anywhere, now)]);
    law_single_command_is_found(context, k, num, by_rank);
    lemma_prefix_occurs(cmd, k);
    lemma_occurrence_found(encode_utf8(cmd), encode_utf8(cmd.take(k)), 0, 0);
}

/// The row `at` of the table is in scope and is of the command `cmd`.
pub open spec fn is_scoped_row_of(
    rows: Seq<RowView>,
    at: int,
    scope: Option<Seq<char>>,
    cmd: Seq<char>,
) -> bool {
    in_scope(rows[at], scope) && rows[at].cmd == cmd
}

/// One of the rows `rows[from..]` is in scope and is of the command `cmd`.
pub open spec fn has_scoped_row(
    rows: Seq<RowView>,
    from: int,
    scope: Option<Seq<char>>,
    cmd: Seq<char>,
) -> bool {
    exists|i: int| from <= i < rows.len() && #[trigger] is_scoped_row_of(rows, i, scope, cmd)
}

/// One of the rows is of the command `cmd`.
pub open spec fn holds_command(out: Seq<ContextView>, cmd: Seq<char>) -> bool {
    exists|k: int| 0 <= k < out.len() && (#[trigger] out[k]).cmd == cmd
}

/// The context holds each command once.
///
/// Every row of the context holds what the ranker knows of its command, and
/// its command has a row in scope; every command that has a row in scope has
/// a row in the context; and no two rows of the context are of the same
/// command.
pub proof fn law_context_holds_each_command_once(
    rows: Seq<RowView>,
    dir: Seq<char>,
    anywhere: bool,
    now: int,
    from: int,
)
    requires
        0 <= from,
    ensures
        forall|k: int|
            0 <= k < context_rows(rows, dir, anywhere, now, from).len() ==> {
                let row = #[trigger] context_rows(rows, dir, anywhere, now, from)[k];
                row == context_row(rows, row.cmd, dir, anywhere, now)
            },
        forall|k: int|
            0 <= k < context_rows(rows, dir, anywhere, now, from).len() ==> has_scoped_row(
                rows,
                from,
                scope_of(dir, anywhere),
                (#[trigger] context_rows(rows, dir, anywhere, now, from)[k]).cmd,
            ),
        forall|i: int|
            from <= i < rows.len() && in_scope(#[trigger] rows[i], scope_of(dir, anywhere))
                ==> holds_command(context_rows(rows, dir, anywhere, now, from), rows[i].cmd),
        forall|j: int, k: int|
            0 <= j < k < context_rows(rows, dir, anywhere, now, from).len() ==> (
            #[trigger] context_rows(rows, dir, anywhere, now, from)[j]).cmd != (
            #[trigger] context_rows(rows, dir, anywhere, now, from)[k]).cmd,
    decreases rows.len() - from,
{
    let scope = scope_of(dir, anywhere);
    let out = context_rows(rows, dir, anywhere, now, from);
    if from < rows.len() {
        let rest = context_rows(rows, dir, anywhere, now, from + 1);
        law_context_holds_each_command_once(rows, dir, anywhere, now, from + 1);
        let own = context_row(rows, rows[from].cmd, dir, anywhere, now);
        assert(own.cmd == rows[from].cmd);
        if leads(rows, from, scope) {
            assert(out == rest.push(own));
            assert forall|k: int| 0 <= k < out.len() implies {
                let row = #[trigger] out[k];
                row == context_row(rows, row.cmd, dir, anywhere, now)
            } by {
                if k < rest.len() {
                    assert(out[k] == rest[k]);
                }
            }
            assert forall|k: int| 0 <= k < out.len() implies has_scoped_row(
                rows,
                from,
                scope,
                (#[trigger] out[k]).cmd,
            ) by {
                if k < rest.len() {
                    assert(out[k] == rest[k]);
                    assert(has_scoped_row(rows, from + 1, scope, rest[k].cmd));
                    let i = choose|i: int|
                        from + 1 <= i < rows.len() && #[trigger] is_scoped_row_of(
                            rows,
                            i,
                            scope,
                            rest[k].cmd,
                        );
                    assert(is_scoped_row_of(rows, i, scope, out[k].cmd));
                } else {
                    assert(is_scoped_row_of(rows, from, scope, out[k].cmd));
                }
            }
            assert forall|i: int|
                from <= i < rows.len() && in_scope(#[trigger] rows[i], scope) implies holds_command(
                out,
                rows[i].cmd,
            ) by {
                if i > from {
                    assert(holds_command(rest, rows[i].cmd));
                    let k = choose|k: int|
                        0 <= k < rest.len() && (#[trigger] rest[k]).cmd == rows[i].cmd;
                    assert(out[k] == rest[k]);
                } else {
                    assert(out[out.len() - 1].cmd == rows[i].cmd);
                }
            }
            assert forall|j: int, k: int| 0 <= j < k < out.len() implies (#[trigger] out[j]).cmd
                != (#[trigger] out[k]).cmd by {
                assert(out[j] == rest[j]);
                if k < rest.len() {
                    assert(out[k] == rest[k]);
                } else {
                    assert(has_scoped_row(rows, from + 1, scope, rest[j].cmd));
                    let i = choose|i: int|
                        from + 1 <= i < rows.len() && #[trigger] is_scoped_row_of(
                            rows,
                            i,
                            scope,
                            rest[j].cmd,
                        );
                    assert(in_scope(rows[i], scope) && rows[i].cmd == rest[j].cmd);
                }
            }
        } else {
            assert(out == rest);
            assert forall|k: int| 0 <= k < out.len() implies has_scoped_row(
                rows,
                from,
                scope,
                (#[trigger] out[k]).cmd,
            ) by {
                assert(has_scoped_row(rows, from + 1, scope, rest[k].cmd));
                let i = choose|i: int|
                    from + 1 <= i < rows.len() && #[trigger] is_scoped_row_of(
                        rows,
                        i,
                        scope,
                        rest[k].cmd,
                    );
                assert(is_scoped_row_of(rows, i, scope, out[k].cmd));
            }
            assert forall|i: int|
                from <= i < rows.len() && in_scope(#[trigger] rows[i], scope) implies holds_command(
                out,
                rows[i].cmd,
            ) by {
                if i == from {
                    let j = choose|j: int|
                        from < j < rows.len() && in_scope(#[trigger] rows[j], scope) && rows[j].cmd
                            == rows[from].cmd;
                    assert(holds_command(rest, rows[j].cmd));
                }
            }
        }
    }
}

/// The rows that a search lets through are in the asked order.
///
/// They are as many as the limit allows and as there are, each is a row of
/// the table, and none has a larger key than a row in front of it.
pub proof fn law_top_is_ordered(rows: Seq<ContextView>, by_rank: bool, k: int)
    ensures
        top(rows, by_rank, k).len() == if k <= 0 {
            0
        } else if k <= rows.len() {
            k
        } else {
            rows.len() as int
        },
        forall|i: int|
            0 <= i < top(rows, by_rank, k).len() ==> exists|j: int|
                0 <= j < rows.len() && rows[j] == #[trigger] top(rows, by_rank, k)[i],
        forall|i: int, j: int|
            0 <= i < j < top(rows, by_rank, k).len() ==> key(
                #[trigger] top(rows, by_rank, k)[i],
                by_rank,
            ) >= key(#[trigger] top(rows, by_rank, k)[j], by_rank),
    decreases k,
{
    let out = top(rows, by_rank, k);
    if k > 0 && rows.len() > 0 {
        let first = best(rows, by_rank, rows.len() as int);
        lemma_best(rows, by_rank, rows.len() as int);
        let others = rows.remove(first);
        let rest = top(others, by_rank, k - 1);
        law_top_is_ordered(others, by_rank, k - 1);
        assert(out =~= seq![rows[first]] + rest);
        assert forall|i: int| 0 <= i < out.len() implies exists|j: int|
            0 <= j < rows.len() && rows[j] == #[trigger] out[i] by {
            if i == 0 {
                assert(rows[first] == out[0]);
            } else {
                assert(out[i] == rest[i - 1]);
                let j = choose|j: int| 0 <= j < others.len() && others[j] == rest[i - 1];
                let at = if j < first {
                    j
                } else {
                    j + 1
                };
                assert(rows[at] == out[i]);
            }
        }
        assert forall|i: int, j: int| 0 <= i < j < out.len() implies key(#[trigger] out[i], by_rank)
            >= key(#[trigger] out[j], by_rank) by {
            assert(out[j] == rest[j - 1]);
            if i == 0 {
                let m = choose|m: int| 0 <= m < others.len() && others[m] == rest[j - 1];
                let at = if m < first {
                    m
                } else {
                    m + 1
                };
                assert(rows[at] == out[j]);
                assert(key(rows[at], by_rank) <= key(rows[first], by_rank));
            } else {
                assert(out[i] == rest[i - 1]);
            }
        }
    }
}

} // verus!
