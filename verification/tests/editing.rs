use editor_core::layout::{LineInfo, LineLayout};
use editor_core::state::{EscapeOutcome, InputState};
use editor_core::ByteRange;

fn state_with(text: &str) -> InputState {
    let mut s = InputState::new();
    assert!(s.set_value(text.as_bytes()));
    s
}

#[test]
fn utf16_round_trip_all_boundaries() {
    // "a" is 1 UTF-16 unit, the accented e 1, the heart emoji 2
    let s = state_with("a\u{e9}\u{1f49d}");
    let text = s.value().clone();
    assert_eq!(text.len(), 7);
    for o in [0usize, 1, 3, 7] {
        let u = s.offset_to_utf16(o);
        assert_eq!(s.offset_from_utf16(u), o);
    }
    assert_eq!(s.offset_to_utf16(7), 4);
    assert_eq!(s.offset_to_utf16(1), 1);
    assert_eq!(s.offset_to_utf16(3), 2);
}

#[test]
fn utf16_offset_past_end_clamps() {
    let s = state_with("ab");
    assert_eq!(s.offset_from_utf16(99), 2);
}

#[test]
fn next_boundary_always_advances() {
    // a + combining ring, e + combining acute: two clusters of three bytes
    let s = state_with("a\u{310}e\u{301}");
    assert_eq!(s.value().len(), 6);
    assert_eq!(s.next_boundary(0), 3);
    assert_eq!(s.next_boundary(1), 3);
    assert_eq!(s.next_boundary(2), 3);
    assert_eq!(s.next_boundary(3), 6);
    assert_eq!(s.next_boundary(6), 6);
    assert_eq!(s.previous_boundary(6), 3);
    assert_eq!(s.previous_boundary(3), 0);
    assert_eq!(s.previous_boundary(0), 0);
    // applying next_boundary to any boundary short of the end advances
    let mut o = 0usize;
    while o < s.value().len() {
        let n = s.next_boundary(o);
        assert!(n > o);
        o = n;
    }
}

#[test]
fn undo_then_redo_restores_text_and_selection() {
    let mut s = InputState::new();
    // three separate groups, far apart in time
    assert!(s.insert(b"ab", 0));
    assert!(s.insert(b"cd", 5_000));
    assert!(s.insert(b"ef", 10_000));
    assert_eq!(s.value().as_slice(), b"abcdef");
    let sel_after = s.selected_range;
    s.undo();
    s.undo();
    s.undo();
    assert_eq!(s.value().as_slice(), b"");
    s.redo();
    s.redo();
    s.redo();
    assert_eq!(s.value().as_slice(), b"abcdef");
    assert_eq!(s.selected_range, sel_after);
}

#[test]
fn edits_in_the_grouping_interval_undo_as_one() {
    let mut s = InputState::new();
    assert!(s.insert(b"a", 0));
    assert!(s.insert(b"b", 300));
    assert!(s.insert(b"c", 600));
    s.undo();
    assert_eq!(s.value().as_slice(), b"");
    s.redo();
    assert_eq!(s.value().as_slice(), b"abc");
}

#[test]
fn selection_invariant_under_arbitrary_moves() {
    let mut s = state_with("hello world");
    let steps: [(bool, usize); 9] = [
        (true, 3),
        (false, 8),
        (false, 1),
        (true, 10),
        (false, 0),
        (false, 999),
        (true, 999),
        (false, 4),
        (false, 2),
    ];
    for (mv, o) in steps {
        if mv {
            s.move_to(o);
        } else {
            s.select_to(o);
        }
        assert!(s.selected_range.start <= s.selected_range.end);
        assert!(s.selected_range.end <= s.value().len());
    }
}

#[test]
fn insert_hello_into_empty_single_line() {
    let mut s = InputState::new();
    assert!(s.insert(b"hello", 0));
    assert_eq!(s.value().as_slice(), b"hello");
    assert_eq!(s.selected_range, ByteRange { start: 5, end: 5 });
}

#[test]
fn select_word_selects_hello() {
    let mut s = state_with("hello world");
    s.select_word(0);
    assert_eq!(s.selected_range, ByteRange { start: 0, end: 5 });
    assert_eq!(s.selected_text().as_slice(), b"hello");
}

#[test]
fn select_word_in_the_middle_and_underscores() {
    let mut s = state_with("foo bar_baz qux");
    s.select_word(6);
    assert_eq!(s.selected_text().as_slice(), b"bar_baz");
    // on the space just after a word, the run behind it is selected
    let mut t = state_with("ab cd");
    t.move_to(0);
    t.select_word(2);
    assert_eq!(t.selected_range, ByteRange { start: 0, end: 2 });
    // between two non-word characters nothing is selected
    let mut u = state_with("= =");
    u.move_to(0);
    u.select_word(1);
    assert_eq!(u.selected_range, ByteRange { start: 0, end: 0 });
}

#[test]
fn word_selection_anchors_drag_extension() {
    let mut s = state_with("hello world");
    s.select_word(1);
    assert_eq!(s.selected_range, ByteRange { start: 0, end: 5 });
    // dragging inside the word cannot shrink below it
    s.select_to(2);
    assert_eq!(s.selected_range, ByteRange { start: 0, end: 5 });
    // dragging past it extends
    s.select_to(8);
    assert_eq!(s.selected_range, ByteRange { start: 0, end: 8 });
}

#[test]
fn typing_into_phone_mask_inserts_literals() {
    let mut s = InputState::new().mask_pattern(b"(999)999-9999");
    let mut now = 0u64;
    for d in [b'5', b'5', b'5', b'1', b'2', b'3', b'4', b'5', b'6', b'7'] {
        assert!(s.insert(&[d], now));
        now += 5_000;
    }
    assert_eq!(s.value().as_slice(), b"(555)123-4567");
    assert_eq!(s.unmask_value().as_slice(), b"5551234567");
    // the caret always landed after the typed digit
    assert_eq!(s.selected_range.start, s.value().len());
}

#[test]
fn mask_rejects_wrong_class_and_overflow() {
    let mut s = InputState::new().mask_pattern(b"999");
    assert!(!s.insert(b"x", 0));
    assert_eq!(s.value().as_slice(), b"");
    assert!(s.insert(b"123", 0));
    assert_eq!(s.value().as_slice(), b"123");
    // a fourth digit outruns the pattern
    assert!(!s.insert(b"4", 0));
    assert_eq!(s.value().as_slice(), b"123");
    // deletion is always allowed
    s.backspace(1_u64);
    assert_eq!(s.value().as_slice(), b"12");
}

#[test]
fn undo_after_insert_at_end_restores_text_and_caret() {
    let mut s = InputState::new();
    assert!(s.insert(b"ab", 0));
    assert!(s.replace_text_in_range(Some(ByteRange { start: 2, end: 2 }), b"c", 5_000));
    assert_eq!(s.value().as_slice(), b"abc");
    s.undo();
    assert_eq!(s.value().as_slice(), b"ab");
    assert_eq!(s.selected_range, ByteRange { start: 2, end: 2 });
    s.redo();
    assert_eq!(s.value().as_slice(), b"abc");
    assert_eq!(s.selected_range, ByteRange { start: 3, end: 3 });
}

#[test]
fn ime_composition_marks_then_commit_clears() {
    let mut s = InputState::new();
    // begin composition replacing 0..0 with a marked hiragana character
    let a = "\u{3042}";
    assert!(s.replace_and_mark_text_in_range(
        Some(ByteRange { start: 0, end: 0 }),
        a.as_bytes(),
        None,
        0,
    ));
    assert_eq!(s.value().as_slice(), a.as_bytes());
    assert_eq!(s.marked_text_range(), Some(ByteRange { start: 0, end: 1 }));
    // commit: the replacement resolves to the marked range
    assert!(s.replace_text_in_range(None, a.as_bytes(), 100));
    assert!(s.marked_text_range().is_none());
    // the byte length of the committed character is 3, so the caret is 3..3
    assert_eq!(s.selected_range, ByteRange { start: 3, end: 3 });
    assert_eq!(s.value().as_slice(), a.as_bytes());
}

#[test]
fn ime_abandon_restores_collapsed_selection() {
    let mut s = state_with("xy");
    s.move_to(1);
    assert!(s.replace_and_mark_text_in_range(None, "\u{3042}".as_bytes(), None, 0));
    assert!(s.marked_text_range().is_some());
    // an empty update abandons the composition
    assert!(s.replace_and_mark_text_in_range(None, b"", None, 10));
    assert!(s.marked_text_range().is_none());
    assert_eq!(s.value().as_slice(), b"xy");
    assert_eq!(s.selected_range, ByteRange { start: 1, end: 1 });
}

#[test]
fn backspace_removes_whole_grapheme_cluster() {
    // family emoji: four scalars joined by zero-width joiners, one cluster
    let fam = "a\u{1F469}\u{200D}\u{1F469}\u{200D}\u{1F467}";
    let mut s = state_with(fam);
    s.move_to_end();
    s.backspace(0);
    assert_eq!(s.value().as_slice(), b"a");
    s.backspace(10);
    assert_eq!(s.value().as_slice(), b"");
}

#[test]
fn delete_removes_cluster_after_caret() {
    let mut s = state_with("a\u{e9}b");
    s.move_to(1);
    s.delete(0);
    assert_eq!(s.value().as_slice(), b"ab");
}

#[test]
fn left_right_follow_grapheme_boundaries() {
    let mut s = state_with("a\u{310}b");
    s.move_to_end();
    s.left();
    assert_eq!(s.selected_range.start, 3);
    s.left();
    assert_eq!(s.selected_range.start, 0);
    s.right();
    assert_eq!(s.selected_range.start, 3);
    // with a selection, left collapses to its start
    s.select_to(4);
    s.left();
    assert_eq!(s.selected_range, ByteRange { start: 3, end: 3 });
}

#[test]
fn home_end_work_on_logical_lines() {
    let mut s = InputState::new().multi_line();
    assert!(s.set_value(b"foo\nbar\nbaz"));
    s.move_to(5);
    s.home(None);
    assert_eq!(s.selected_range.start, 4);
    s.move_to(5);
    s.end(None);
    assert_eq!(s.selected_range.start, 7);
}

#[test]
fn home_end_follow_visual_rows_when_layout_is_given() {
    let mut s = InputState::new().multi_line();
    // one logical line "abcdef", wrapped after 3 bytes into two rows
    assert!(s.set_value(b"abcdef"));
    let layout = LineLayout { lines: vec![LineInfo { len: 6, wrap_starts: vec![3] }] };
    s.move_to(5);
    s.home(Some(&layout));
    assert_eq!(s.selected_range.start, 3);
    s.end(Some(&layout));
    assert_eq!(s.selected_range.start, 6);
    s.move_to(1);
    s.end(Some(&layout));
    assert_eq!(s.selected_range.start, 3);
    // without a layout the logical line is used
    s.move_to(5);
    s.home(None);
    assert_eq!(s.selected_range.start, 0);
}

#[test]
fn ime_composition_is_shown_raw_under_a_mask() {
    let mut s = InputState::new().mask_pattern(b"(99");
    // composing a digit is accepted and shown unformatted while marked
    assert!(s.replace_and_mark_text_in_range(
        Some(ByteRange { start: 0, end: 0 }),
        b"5",
        None,
        0,
    ));
    assert_eq!(s.value().as_slice(), b"5");
    assert!(s.marked_text_range().is_some());
    // committing resolves the marked range and the mask formats
    assert!(s.replace_text_in_range(None, b"5", 100));
    assert_eq!(s.value().as_slice(), b"(5");
    assert!(s.marked_text_range().is_none());
    // a composition the mask cannot accept is still rejected
    let mut t = InputState::new().mask_pattern(b"(99");
    assert!(!t.replace_and_mark_text_in_range(
        Some(ByteRange { start: 0, end: 0 }),
        b"x",
        None,
        0,
    ));
    assert_eq!(t.value().as_slice(), b"");
}

#[test]
fn unmark_under_a_mask_reformats_the_composition() {
    let mut s = InputState::new().mask_pattern(b"(99");
    assert!(s.replace_and_mark_text_in_range(
        Some(ByteRange { start: 0, end: 0 }),
        b"5",
        None,
        0,
    ));
    assert_eq!(s.value().as_slice(), b"5");
    s.unmark_text();
    assert!(s.marked_text_range().is_none());
    assert_eq!(s.value().as_slice(), b"(5");
}

#[test]
fn abandoning_a_masked_composition_reformats_the_rest() {
    let mut s = InputState::new().mask_pattern(b"(99");
    assert!(s.replace_and_mark_text_in_range(
        Some(ByteRange { start: 0, end: 0 }),
        b"5",
        None,
        0,
    ));
    // the empty update removes the marked text; nothing is left to format
    assert!(s.replace_and_mark_text_in_range(None, b"", None, 10));
    assert!(s.marked_text_range().is_none());
    assert_eq!(s.value().as_slice(), b"");
}

#[test]
fn delete_to_line_edges() {
    let mut s = InputState::new().multi_line();
    assert!(s.set_value(b"foo\nbar"));
    s.move_to(6);
    s.delete_to_beginning_of_line(0);
    assert_eq!(s.value().as_slice(), b"foo\nr");
    let mut t = InputState::new().multi_line();
    assert!(t.set_value(b"foo\nbar"));
    t.move_to(1);
    t.delete_to_end_of_line(0);
    assert_eq!(t.value().as_slice(), b"f\nbar");
    // at the line end the newline itself goes
    t.delete_to_end_of_line(10);
    assert_eq!(t.value().as_slice(), b"fbar");
}

#[test]
fn word_movement_and_deletion() {
    let mut s = state_with("hello world");
    s.move_to(0);
    s.move_to_next_word();
    assert_eq!(s.selected_range.start, 5);
    s.move_to_end();
    s.move_to_previous_word();
    assert_eq!(s.selected_range.start, 6);
    s.move_to_end();
    s.delete_previous_word(0);
    assert_eq!(s.value().as_slice(), b"hello ");
    let mut t = state_with("hello world");
    t.move_to(0);
    t.delete_next_word(0);
    assert_eq!(t.value().as_slice(), b" world");
}

#[test]
fn cut_copy_queries() {
    let mut s = state_with("hello world");
    s.move_to(0);
    s.select_to(5);
    assert_eq!(s.selected_text().as_slice(), b"hello");
    s.delete_selection(0);
    assert_eq!(s.value().as_slice(), b" world");
}

#[test]
fn indent_and_outdent_selected_block() {
    let mut s = InputState::new().multi_line();
    assert!(s.set_value(b"aa\nbb"));
    s.move_to(0);
    s.select_to(5);
    s.indent(0);
    assert_eq!(s.value().as_slice(), b"  aa\n  bb");
    assert_eq!(s.selected_range.start, 0);
    s.outdent(5_000);
    assert_eq!(s.value().as_slice(), b"aa\nbb");
}

#[test]
fn indent_without_selection_inserts_one_tab_stop() {
    let mut s = InputState::new().multi_line();
    assert!(s.set_value(b"xy"));
    s.move_to(1);
    s.indent(0);
    assert_eq!(s.value().as_slice(), b"x  y");
    assert_eq!(s.selected_range, ByteRange { start: 3, end: 3 });
    s.outdent(5_000);
    assert_eq!(s.value().as_slice(), b"x  y");
}

#[test]
fn outdent_without_selection_removes_leading_tab_stop() {
    let mut s = InputState::new().multi_line();
    assert!(s.set_value(b"  xy"));
    s.move_to(4);
    s.outdent(0);
    assert_eq!(s.value().as_slice(), b"xy");
    assert_eq!(s.selected_range, ByteRange { start: 2, end: 2 });
}

#[test]
fn enter_inserts_newline_and_carries_indent_in_code_editor() {
    let mut s = InputState::new().code_editor();
    assert!(s.set_value(b"  x"));
    s.move_to_end();
    s.enter(false, 0);
    assert_eq!(s.value().as_slice(), b"  x\n  ");
    // the secondary modifier suppresses the newline
    let mut t = InputState::new().multi_line();
    assert!(t.set_value(b"x"));
    t.move_to_end();
    t.enter(true, 0);
    assert_eq!(t.value().as_slice(), b"x");
    // single-line fields never take a newline
    let mut u = state_with("x");
    u.enter(false, 0);
    assert_eq!(u.value().as_slice(), b"x");
}

#[test]
fn escape_collapses_selection_then_signals() {
    let mut s = state_with("hello");
    s.move_to(0);
    s.select_to(5);
    assert!(matches!(s.escape(), EscapeOutcome::Unselected));
    assert!(s.selected_range.start == s.selected_range.end);
    assert!(matches!(s.escape(), EscapeOutcome::Signal));
    let mut t = state_with("hello").clean_on_escape();
    t.move_to(2);
    assert!(matches!(t.escape(), EscapeOutcome::Cleaned));
    assert_eq!(t.value().as_slice(), b"");
}

#[test]
fn disabled_field_ignores_every_edit() {
    let mut s = state_with("keep");
    s.set_disabled(true);
    assert!(s.is_disabled());
    assert!(!s.insert(b"x", 0));
    s.backspace(0);
    s.undo();
    assert_eq!(s.value().as_slice(), b"keep");
    s.set_disabled(false);
    assert!(s.insert(b"!", 0));
}

#[test]
fn set_value_resets_history_and_places_caret() {
    let mut s = InputState::new();
    assert!(s.insert(b"typed", 0));
    assert!(s.set_value(b"fresh"));
    s.undo();
    assert_eq!(s.value().as_slice(), b"fresh");
    // single line: caret at the end
    assert_eq!(s.selected_range.start, 5);
    let mut m = InputState::new().multi_line();
    assert!(m.set_value(b"a\nb"));
    assert_eq!(m.selected_range, ByteRange { start: 0, end: 0 });
}

#[test]
fn pending_text_lets_a_host_validator_look_ahead() {
    let mut s = state_with("19");
    s.move_to(1);
    let pending = s.pending_text_in_range(None, b"0");
    assert_eq!(pending.as_slice(), b"109");
    // the host found it acceptable and commits the same edit
    assert!(s.replace_text_in_range(None, b"0", 0));
    assert_eq!(s.value().as_slice(), b"109");
}

#[test]
fn up_signals_recall_only_when_empty() {
    let mut s = InputState::new();
    assert!(s.up());
    assert!(s.insert(b"x", 0));
    assert!(!s.up());
}

#[test]
fn previous_boundary_is_not_idempotent() {
    let s = state_with("abc");
    let once = s.previous_boundary(3);
    assert_eq!(once, 2);
    assert_eq!(s.previous_boundary(once), 1);
}

#[test]
fn select_all_and_unselect() {
    let mut s = state_with("abc");
    s.select_all();
    assert_eq!(s.selected_range, ByteRange { start: 0, end: 3 });
    s.unselect();
    assert!(s.selected_range.start == s.selected_range.end);
}

#[test]
fn vertical_selection_walks_lines() {
    let mut s = InputState::new().multi_line();
    assert!(s.set_value(b"ab\ncd\nef"));
    s.move_to(4);
    s.select_up();
    assert!(s.selected_range.start < 4);
    s.move_to(4);
    s.select_down();
    assert!(s.selected_range.end > 4);
}
