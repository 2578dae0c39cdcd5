use rhis::command_input::{word_boundary_after, word_boundary_before, CommandInput, Move};

fn state(input: &CommandInput) -> (&str, usize, usize) {
    (input.command.as_str(), input.cursor, input.len)
}

#[test]
fn from_counts_clusters_and_puts_the_cursor_at_the_end() {
    let input = CommandInput::from("abc", 10);
    assert_eq!(state(&input), ("abc", 3, 3));
    assert_eq!(input.cap, 10);
}

#[test]
fn from_cuts_to_the_capacity() {
    let input = CommandInput::from("abcdef", 4);
    assert_eq!(state(&input), ("abcd", 4, 4));
}

#[test]
fn from_counts_a_letter_with_its_accent_once() {
    let input = CommandInput::from("e\u{301}x", 10);
    assert_eq!(input.len, 2);
    assert_eq!(input.cursor, 2);
    assert_eq!(input.command, "e\u{301}x");
}

#[test]
fn from_cuts_between_clusters_not_inside_them() {
    let input = CommandInput::from("e\u{301}x", 1);
    assert_eq!(state(&input), ("e\u{301}", 1, 1));
}

#[test]
fn from_with_no_room_keeps_nothing() {
    let input = CommandInput::from("abc", 0);
    assert_eq!(state(&input), ("", 0, 0));
}

#[test]
fn input_editor_words() {
    let mut input = CommandInput::from("git  commit -m foo", 50);
    assert_eq!(input.cursor, 18);
    input.delete(Move::BackwardWord);
    assert_eq!(state(&input), ("git  commit -m ", 15, 15));
    input.delete(Move::BackwardWord);
    assert_eq!(state(&input), ("git  commit ", 12, 12));
    input.delete(Move::BackwardWord);
    assert_eq!(state(&input), ("git  ", 5, 5));
    input.delete(Move::BackwardWord);
    assert_eq!(state(&input), ("", 0, 0));
}

#[test]
fn insert_puts_the_character_at_the_cursor() {
    let mut input = CommandInput::from("ac", 10);
    input.move_cursor(Move::Exact(1));
    input.insert('b');
    assert_eq!(state(&input), ("abc", 2, 3));
}

#[test]
fn insert_at_the_end_appends() {
    let mut input = CommandInput::from("ab", 10);
    input.insert('c');
    assert_eq!(state(&input), ("abc", 3, 3));
}

#[test]
fn insert_into_a_full_line_at_its_end_changes_nothing() {
    let mut input = CommandInput::from("abc", 3);
    input.insert('d');
    assert_eq!(state(&input), ("abc", 3, 3));
}

#[test]
fn insert_into_a_full_line_pushes_the_last_cluster_out() {
    let mut input = CommandInput::from("abc", 3);
    input.move_cursor(Move::BOL);
    input.insert('x');
    assert_eq!(state(&input), ("xab", 1, 3));
}

#[test]
fn insert_an_accent_joins_the_cluster_before_it() {
    let mut input = CommandInput::from("e", 10);
    input.insert('\u{301}');
    assert_eq!(input.command, "e\u{301}");
    assert_eq!(input.len, 1);
    assert_eq!(input.cursor, 1);
}

#[test]
fn delete_backward_removes_the_cluster_before_the_cursor() {
    let mut input = CommandInput::from("abc", 10);
    input.delete(Move::Backward);
    assert_eq!(state(&input), ("ab", 2, 2));
    input.move_cursor(Move::Exact(1));
    input.delete(Move::Backward);
    assert_eq!(state(&input), ("b", 0, 1));
    input.delete(Move::Backward);
    assert_eq!(state(&input), ("b", 0, 1));
}

#[test]
fn delete_backward_removes_a_whole_cluster() {
    let mut input = CommandInput::from("xe\u{301}", 10);
    input.delete(Move::Backward);
    assert_eq!(state(&input), ("x", 1, 1));
}

#[test]
fn delete_forward_removes_the_cluster_at_the_cursor() {
    let mut input = CommandInput::from("abc", 10);
    input.delete(Move::Forward);
    assert_eq!(state(&input), ("abc", 3, 3));
    input.move_cursor(Move::Exact(1));
    input.delete(Move::Forward);
    assert_eq!(state(&input), ("ac", 1, 2));
}

#[test]
fn delete_to_the_start_of_the_line() {
    let mut input = CommandInput::from("hello world", 20);
    input.move_cursor(Move::Exact(6));
    input.delete(Move::BOL);
    assert_eq!(state(&input), ("world", 0, 5));
    input.delete(Move::BOL);
    assert_eq!(state(&input), ("world", 0, 5));
}

#[test]
fn delete_to_the_end_of_the_line() {
    let mut input = CommandInput::from("hello world", 20);
    input.move_cursor(Move::Exact(5));
    input.delete(Move::EOL);
    assert_eq!(state(&input), ("hello", 5, 5));
    input.delete(Move::EOL);
    assert_eq!(state(&input), ("hello", 5, 5));
}

#[test]
fn delete_forward_word_removes_up_to_the_next_word_break() {
    let mut input = CommandInput::from("foo bar baz", 20);
    input.move_cursor(Move::BOL);
    input.delete(Move::ForwardWord);
    assert_eq!(state(&input), (" bar baz", 0, 8));
    input.delete(Move::ForwardWord);
    assert_eq!(state(&input), (" baz", 0, 4));
    input.delete(Move::ForwardWord);
    assert_eq!(state(&input), ("", 0, 0));
}

#[test]
fn move_cursor_stays_inside_the_line() {
    let mut input = CommandInput::from("abc", 10);
    input.move_cursor(Move::Forward);
    assert_eq!(input.cursor, 3);
    input.move_cursor(Move::Exact(100));
    assert_eq!(input.cursor, 3);
    input.move_cursor(Move::BOL);
    assert_eq!(input.cursor, 0);
    input.move_cursor(Move::Backward);
    assert_eq!(input.cursor, 0);
    input.move_cursor(Move::Forward);
    assert_eq!(input.cursor, 1);
    input.move_cursor(Move::EOL);
    assert_eq!(input.cursor, 3);
    input.move_cursor(Move::Backward);
    assert_eq!(input.cursor, 2);
    input.move_cursor(Move::Exact(1));
    assert_eq!(input.cursor, 1);
    assert_eq!(input.command, "abc");
}

#[test]
fn move_by_words_passes_over_spaces() {
    let mut input = CommandInput::from("git  commit -m foo", 50);
    input.move_cursor(Move::BOL);
    input.move_cursor(Move::ForwardWord);
    assert_eq!(input.cursor, 3);
    input.move_cursor(Move::ForwardWord);
    assert_eq!(input.cursor, 11);
    input.move_cursor(Move::BackwardWord);
    assert_eq!(input.cursor, 5);
    input.move_cursor(Move::BackwardWord);
    assert_eq!(input.cursor, 0);
    input.move_cursor(Move::EOL);
    input.move_cursor(Move::ForwardWord);
    assert_eq!(input.cursor, 18);
    input.move_cursor(Move::BackwardWord);
    assert_eq!(input.cursor, 15);
}

#[test]
fn word_boundaries_for_a_given_segmentation() {
    let table: Vec<(usize, String)> = "ab  cd"
        .chars()
        .enumerate()
        .map(|(i, c)| (i, c.to_string()))
        .collect();
    let bounds: Vec<usize> = vec![0, 2, 4];
    assert_eq!(word_boundary_after(&table, &bounds, 0, 6), 2);
    assert_eq!(word_boundary_after(&table, &bounds, 2, 6), 6);
    assert_eq!(word_boundary_after(&table, &bounds, 6, 6), 6);
    assert_eq!(word_boundary_after(&table, &bounds, 4, 9), 9);
    assert_eq!(word_boundary_before(&table, &bounds, 6), 4);
    assert_eq!(word_boundary_before(&table, &bounds, 4), 0);
    assert_eq!(word_boundary_before(&table, &bounds, 1), 0);
    assert_eq!(word_boundary_before(&table, &bounds, 0), 0);
    assert_eq!(word_boundary_before(&table, &bounds, 100), 4);
}

#[test]
fn update_cap_below_the_length_keeps_the_first_clusters() {
    let mut input = CommandInput::from("e\u{301}bcdef", 10);
    assert_eq!(input.len, 6);
    input.move_cursor(Move::Exact(5));
    input.update_cap(3);
    assert_eq!(state(&input), ("e\u{301}bc", 3, 3));
    assert_eq!(input.cap, 3);
}

#[test]
fn update_cap_below_the_length_leaves_a_cursor_that_is_inside() {
    let mut input = CommandInput::from("abcdef", 10);
    input.move_cursor(Move::Exact(2));
    input.update_cap(4);
    assert_eq!(state(&input), ("abcd", 2, 4));
}

#[test]
fn update_cap_above_the_length_changes_nothing_but_the_room() {
    let mut input = CommandInput::from("abc", 3);
    input.update_cap(8);
    assert_eq!(state(&input), ("abc", 3, 3));
    input.insert('d');
    assert_eq!(state(&input), ("abcd", 4, 4));
}

#[test]
fn clear_empties_the_line() {
    let mut input = CommandInput::from("abc", 10);
    input.clear();
    assert_eq!(state(&input), ("", 0, 0));
    assert_eq!(input.cap, 10);
}

#[test]
fn set_replaces_the_line_and_cuts_it() {
    let mut input = CommandInput::from("abcdef", 6);
    input.set("xy");
    assert_eq!(state(&input), ("xy", 2, 2));
    input.set("0123456789");
    assert_eq!(state(&input), ("012345", 2, 6));
}

#[test]
fn the_cursor_stays_inside_the_line_and_the_line_inside_the_room() {
    let mut input = CommandInput::from("one two three", 8);
    let moves = [
        Move::Backward,
        Move::BackwardWord,
        Move::Forward,
        Move::ForwardWord,
        Move::BOL,
        Move::EOL,
    ];
    for round in 0..4 {
        for motion in moves.iter() {
            input.move_cursor(*motion);
            assert!(input.cursor <= input.len && input.len <= input.cap);
            input.insert('z');
            assert!(input.cursor <= input.len && input.len <= input.cap);
            if round % 2 == 0 {
                input.delete(*motion);
            }
            assert!(input.cursor <= input.len && input.len <= input.cap);
            assert_eq!(input.command.chars().count(), input.len);
        }
    }
}

#[test]
fn a_word_motion_to_the_left_from_behind_the_first_letter_of_a_word() {
    // The cluster left of the cursor is the `b`, which begins its word: the
    // motion goes to the last word break in front of it.
    let mut input = CommandInput::from("foo bar", 20);
    input.move_cursor(Move::Exact(5));
    input.move_cursor(Move::BackwardWord);
    assert_eq!(input.cursor, 3);
    let mut cut = CommandInput::from("foo bar", 20);
    cut.move_cursor(Move::Exact(5));
    cut.delete(Move::BackwardWord);
    assert_eq!(state(&cut), ("fooar", 3, 5));
}

#[test]
fn word_motions_pass_over_every_kind_of_white_space() {
    let mut input = CommandInput::from("ab\t\u{a0} cd", 20);
    input.move_cursor(Move::Exact(2));
    input.move_cursor(Move::ForwardWord);
    assert_eq!(input.cursor, 7);
    input.move_cursor(Move::Exact(5));
    input.move_cursor(Move::BackwardWord);
    assert_eq!(input.cursor, 0);
}
