use editor_core::chat::{ChatState, Role};
use editor_core::layout::{LineInfo, LineLayout, VerticalMove};
use editor_core::mask::MaskPattern;
use editor_core::theme::ThemeMode;
use editor_core::focus::EnterFocusEvent;

#[test]
fn mask_is_idempotent_on_samples() {
    let p = MaskPattern::parse(b"(999)999-9999");
    for x in [
        b"5551234567".as_slice(),
        b"555".as_slice(),
        b"(555)12".as_slice(),
        b"".as_slice(),
        b"abc".as_slice(),
    ] {
        let once = p.mask(x);
        let twice = p.mask(once.as_slice());
        assert_eq!(once, twice);
    }
}

#[test]
fn unmask_sees_through_mask() {
    let p = MaskPattern::parse(b"(999)999-9999");
    for x in [b"5551234567".as_slice(), b"555".as_slice(), b"".as_slice()] {
        let masked = p.mask(x);
        assert_eq!(p.unmask(masked.as_slice()), p.unmask(x));
    }
    assert_eq!(p.unmask(b"(555)123-4567"), b"5551234567".to_vec());
}

#[test]
fn mask_classes_letter_and_any() {
    let p = MaskPattern::parse(b"A9*");
    assert!(p.is_valid(b"x1!"));
    assert!(p.is_valid(b"x1"));
    assert!(p.is_valid(b"x"));
    assert!(p.is_valid(b""));
    assert!(!p.is_valid(b"1x"));
    // the digit slot also takes a dot
    assert!(p.is_valid(b"x."));
    // a non-ASCII letter fills the letter slot
    assert!(p.is_valid("\u{e9}1".as_bytes()));
    assert!(!p.is_valid("\u{2603}".as_bytes()));
}

#[test]
fn empty_pattern_constrains_nothing() {
    let p = MaskPattern::empty();
    assert!(p.is_valid(b"anything at all"));
    assert_eq!(p.mask(b"abc"), b"abc".to_vec());
    assert_eq!(p.unmask(b"abc"), b"abc".to_vec());
    assert!(p.placeholder().is_none());
}

#[test]
fn placeholder_is_the_template() {
    let p = MaskPattern::parse(b"(999)999-9999");
    assert_eq!(p.placeholder().unwrap(), b"(999)999-9999".to_vec());
}

#[test]
fn layout_locates_offsets_and_plans_moves() {
    // "abcd\nefghij" with the second line wrapped after 3 bytes
    let layout = LineLayout {
        lines: vec![
            LineInfo { len: 4, wrap_starts: vec![] },
            LineInfo { len: 6, wrap_starts: vec![3] },
        ],
    };
    assert_eq!(layout.locate(2), (0, 2));
    assert_eq!(layout.locate(5), (1, 0));
    assert_eq!(layout.locate(11), (1, 6));
    assert_eq!(layout.locate(99), (1, 6));
    assert_eq!(layout.line_offset(1), 5);
    assert_eq!(layout.sub_index(1, 2), 0);
    assert_eq!(layout.sub_index(1, 3), 1);
    assert_eq!(layout.sub_line_range(1, 0), (0, 3));
    assert_eq!(layout.sub_line_range(1, 1), (3, 6));
    // up from the very first row goes to the buffer start
    assert!(matches!(layout.plan_vertical(2, true), VerticalMove::ToStart));
    // down from the first line lands on the second line's first row
    match layout.plan_vertical(2, false) {
        VerticalMove::To { line, sub_line, line_offset } => {
            assert_eq!((line, sub_line, line_offset), (1, 0, 5));
        }
        _ => panic!("expected a move"),
    }
    // down within a wrapped line moves one visual row
    match layout.plan_vertical(5, false) {
        VerticalMove::To { line, sub_line, line_offset } => {
            assert_eq!((line, sub_line, line_offset), (1, 1, 5));
        }
        _ => panic!("expected a move"),
    }
    // down from the last row stays put
    assert!(matches!(layout.plan_vertical(9, false), VerticalMove::Stay));
    // up from the wrapped row stays on the same line
    match layout.plan_vertical(9, true) {
        VerticalMove::To { line, sub_line, .. } => assert_eq!((line, sub_line), (1, 0)),
        _ => panic!("expected a move"),
    }
}

#[test]
fn vertical_move_through_layout_keeps_the_column() {
    let mut s = editor_core::state::InputState::new().multi_line();
    assert!(s.set_value(b"ab\ncdef"));
    s.move_to(1);
    let layout = LineLayout {
        lines: vec![
            LineInfo { len: 2, wrap_starts: vec![] },
            LineInfo { len: 4, wrap_starts: vec![] },
        ],
    };
    let offset = s.cursor_offset();
    let (_, column) = layout.locate(offset);
    match layout.plan_vertical(offset, false) {
        VerticalMove::To { line, sub_line, line_offset } => {
            let (lo, hi) = layout.sub_line_range(line, sub_line);
            let col = column.min(hi - lo);
            s.move_to(line_offset + lo + col);
        }
        _ => panic!("expected a move"),
    }
    assert_eq!(s.selected_range.start, 4);
    // moving back up returns to the first line
    let offset = s.cursor_offset();
    match layout.plan_vertical(offset, true) {
        VerticalMove::To { line, sub_line, line_offset } => {
            let (lo, hi) = layout.sub_line_range(line, sub_line);
            let col = 1usize.min(hi - lo);
            s.move_to(line_offset + lo + col);
        }
        _ => panic!("expected a move"),
    }
    assert_eq!(s.selected_range.start, 1);
}

#[test]
fn auto_grow_rows_follow_content_between_bounds() {
    let mut s = editor_core::state::InputState::new().auto_grow(2, 5);
    assert!(s.is_auto_grow());
    s.update_auto_grow(1);
    s.update_auto_grow(7);
    s.update_auto_grow(3);
    assert!(s.set_value(b"x"));
}

#[test]
fn chat_navigation_hands_focus_between_list_and_input() {
    let mut c = ChatState::new();
    c.up();
    assert!(c.focused_message_idx.is_none());
    let a = c.add_message(Role::User, b"hi".to_vec(), 1);
    let b = c.add_message(Role::Assistant, b"hello".to_vec(), 2);
    assert!(a < b);
    // up from the input focuses the last message, then walks to the first
    c.up();
    assert_eq!(c.focused_message_idx, Some(1));
    c.up();
    assert_eq!(c.focused_message_idx, Some(0));
    c.up();
    assert_eq!(c.focused_message_idx, Some(0));
    // down walks back and finally returns focus to the input
    c.down();
    assert_eq!(c.focused_message_idx, Some(1));
    c.down();
    assert!(c.focused_message_idx.is_none());
    assert!(c.fake_focused_textarea);
    // another down stays with the input
    c.down();
    assert!(c.focused_message_idx.is_none());
}

#[test]
fn chat_edit_message_replaces_only_that_body() {
    let mut c = ChatState::new();
    let a = c.add_message(Role::User, b"one".to_vec(), 1);
    let b = c.add_message(Role::User, b"two".to_vec(), 2);
    c.edit_message(a, b"uno".to_vec());
    assert_eq!(c.messages[0].text, b"uno".to_vec());
    assert_eq!(c.messages[1].text, b"two".to_vec());
    c.edit_message(usize::MAX, b"nope".to_vec());
    assert_eq!(c.messages[0].text, b"uno".to_vec());
    assert!(b > a);
}

#[test]
fn theme_mode_names_and_darkness() {
    assert!(ThemeMode::Dark.is_dark());
    assert!(!ThemeMode::Light.is_dark());
    assert_eq!(ThemeMode::Dark.name(), "dark");
    assert_eq!(ThemeMode::Light.name(), "light");
    assert!(ThemeMode::default().is_dark());
}

#[test]
fn focus_event_is_plain_data() {
    let e = EnterFocusEvent {};
    let _copy = e;
    let _again = e;
}

#[test]
fn setting_a_mask_reformats_and_sets_placeholder() {
    let mut s = editor_core::state::InputState::new();
    assert!(s.insert(b"12", 0));
    s.set_mask_pattern(b"(99)");
    assert_eq!(s.value().as_slice(), b"(12");
    // history restarted: undo keeps the reformatted value
    s.undo();
    assert_eq!(s.value().as_slice(), b"(12");
}
