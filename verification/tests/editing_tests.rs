use sen::editing::{handle_copy_key, handle_cut_key, handle_enter_key, handle_tab_key, is_comment_line, is_whitespace, toggle_comment_lines};
use sen::text::{byte_to_char_idx, char_to_byte_idx, cursor_line, editor_line_count, get_lines_in_selection, selection_range};

#[test]
fn char_and_byte_positions() {
    let s = "aé€😀b";
    assert_eq!(char_to_byte_idx(s, 0), 0);
    assert_eq!(char_to_byte_idx(s, 1), 1);
    assert_eq!(char_to_byte_idx(s, 2), 3);
    assert_eq!(char_to_byte_idx(s, 3), 6);
    assert_eq!(char_to_byte_idx(s, 4), 10);
    assert_eq!(char_to_byte_idx(s, 5), 11);
    assert_eq!(char_to_byte_idx(s, 99), 11);
    assert_eq!(byte_to_char_idx(s, 3), 2);
    assert_eq!(byte_to_char_idx(s, 10), 4);
    assert_eq!(byte_to_char_idx(s, 11), 5);
    assert_eq!(byte_to_char_idx(s, 2), 5);
    assert_eq!(byte_to_char_idx(s, 50), 5);
}

#[test]
fn lines_in_selection() {
    let text = "one\ntwo\nthree";
    assert_eq!(get_lines_in_selection(text, Some((0, 2)), None), vec![0]);
    assert_eq!(get_lines_in_selection(text, Some((2, 6)), None), vec![0, 1]);
    assert_eq!(get_lines_in_selection(text, Some((0, 13)), None), vec![0, 1, 2]);
    assert_eq!(get_lines_in_selection(text, None, Some(3)), vec![2]);
    assert_eq!(get_lines_in_selection(text, None, Some(0)), vec![0]);
    assert_eq!(get_lines_in_selection(text, None, None), vec![0]);
    // Positions count characters, not bytes.
    let wide = "éé\nb\nc";
    assert_eq!(get_lines_in_selection(wide, Some((2, 2)), None), vec![0]);
    assert_eq!(get_lines_in_selection(wide, Some((3, 3)), None), vec![1]);
    assert_eq!(get_lines_in_selection(wide, Some((5, 5)), None), vec![2]);
}

#[test]
fn comment_and_uncomment() {
    let (text, shift) = toggle_comment_lines("a\n  b\nc", &[0, 1], "//").unwrap();
    assert_eq!(text, "// a\n  // b\nc");
    assert_eq!(shift, 0);
    let (back, _) = toggle_comment_lines(&text, &[0, 1], "//").unwrap();
    assert_eq!(back, "a\n  b\nc");
    let (mixed, _) = toggle_comment_lines("// a\nb", &[0, 1], "//").unwrap();
    assert_eq!(mixed, "// a\n// b");
    let (empty_line, shift) = toggle_comment_lines("x\n\ny", &[1], "#").unwrap();
    assert_eq!(empty_line, "x\n# \ny");
    assert_eq!(shift, 2);
    let (tight, _) = toggle_comment_lines("//a", &[0], "//").unwrap();
    assert_eq!(tight, "a");
    assert!(toggle_comment_lines("x", &[], "//").is_none());
}

#[test]
fn comment_indent_counts_bytes() {
    let (text, _) = toggle_comment_lines("\tx", &[0], "//").unwrap();
    assert_eq!(text, " // x");
    let (nbsp, _) = toggle_comment_lines("\u{a0}y", &[0], "//").unwrap();
    assert_eq!(nbsp, "  // y");
}

#[test]
fn tab_inserts_indentation() {
    assert_eq!(handle_tab_key("ab", 1, 1, false, true, 4), Some(("a    b".to_string(), 5)));
    assert_eq!(handle_tab_key("ab", 1, 1, false, false, 4), Some(("a\tb".to_string(), 2)));
    assert_eq!(handle_tab_key("ab", 9, 9, false, false, 4), Some(("ab\t".to_string(), 10)));
    assert_eq!(handle_tab_key("ab", 0, 2, false, true, 4), None);
}

#[test]
fn shift_tab_removes_indentation() {
    assert_eq!(handle_tab_key("x\n      y", 8, 8, true, true, 4), Some(("x\n  y".to_string(), 4)));
    assert_eq!(handle_tab_key("x\n  y", 5, 5, true, true, 4), Some(("x\ny".to_string(), 3)));
    assert_eq!(handle_tab_key("x\n  y", 3, 3, true, true, 4), Some(("x\ny".to_string(), 2)));
    assert_eq!(handle_tab_key("\ty", 2, 2, true, false, 4), Some(("y".to_string(), 1)));
    assert_eq!(handle_tab_key("  y", 3, 3, true, false, 4), Some(("y".to_string(), 1)));
    assert_eq!(handle_tab_key("y", 1, 1, true, true, 4), None);
    assert_eq!(handle_tab_key("  y", 0, 3, true, true, 4), None);
}

#[test]
fn enter_keeps_indentation() {
    assert_eq!(handle_enter_key("  ab", 3, 3), ("  a\n  b".to_string(), 6));
    assert_eq!(handle_enter_key("\tx", 2, 2), ("\tx\n\t".to_string(), 4));
    assert_eq!(handle_enter_key("ab\ncd", 4, 4), ("ab\nc\nd".to_string(), 5));
    assert_eq!(handle_enter_key("  abc", 5, 2), ("  \n  ".to_string(), 5));
    assert_eq!(handle_enter_key("a", 7, 7), ("a\n".to_string(), 8));
}

#[test]
fn cut_and_copy() {
    assert_eq!(handle_copy_key("héllo", 1, 3), Some("él".to_string()));
    assert_eq!(handle_copy_key("héllo", 3, 1), Some("él".to_string()));
    assert_eq!(handle_copy_key("héllo", 2, 2), None);
    assert_eq!(handle_copy_key("hi", 5, 9), None);
    let (cut, rest, caret) = handle_cut_key("héllo", 4, 1).unwrap();
    assert_eq!(cut, "éll");
    assert_eq!(rest, "ho");
    assert_eq!(caret, 1);
    assert!(handle_cut_key("abc", 1, 1).is_none());
    let (cut, rest, _) = handle_cut_key("abc", 1, 99).unwrap();
    assert_eq!(format!("{}{}{}", &rest[..1], cut, &rest[1..]), "abc");
}

#[test]
fn white_space_classes() {
    assert!(is_whitespace(' '));
    assert!(is_whitespace('\t'));
    assert!(is_whitespace('\u{3000}'));
    assert!(!is_whitespace('x'));
    for c in ['\u{85}', '\u{a0}', '\u{2028}', 'a', '\u{200b}'] {
        assert_eq!(is_whitespace(c), c.is_whitespace());
    }
}

#[test]
fn tab_then_shift_tab_restores() {
    let (once, caret) = handle_tab_key("x\n  ab", 3, 3, false, true, 4).unwrap();
    assert_eq!(once, "x\n      ab");
    assert_eq!(caret, 7);
    let (back, caret) = handle_tab_key(&once, caret, caret, true, true, 4).unwrap();
    assert_eq!(back, "x\n  ab");
    assert_eq!(caret, 3);
}

#[test]
fn editor_lines_and_caret_line() {
    for text in ["", "a", "a\n", "a\nb", "\n\n", "x\r\ny"] {
        let expected = if text.is_empty() { 1 } else { text.lines().count() + if text.ends_with('\n') { 1 } else { 0 } };
        assert_eq!(editor_line_count(text), expected);
    }
    assert_eq!(cursor_line("a\nb\nc", 4), 3);
    assert_eq!(cursor_line("a\nb\nc", 1), 1);
    assert_eq!(cursor_line("a\nb\nc", 2), 2);
    assert_eq!(cursor_line("a\nb", 99), 2);
    assert_eq!(selection_range(3, 1), (1, 3));
    assert_eq!(selection_range(0, 9), (0, 9));
    assert_eq!(selection_range(1, 0), (0, 1));
}

#[test]
fn comment_lines_are_recognised() {
    assert!(is_comment_line("// note"));
    assert!(is_comment_line("  \t// indented"));
    assert!(is_comment_line("//"));
    assert!(!is_comment_line("code // trailing"));
    assert!(!is_comment_line("/ not"));
    assert!(!is_comment_line(""));
    assert!(!is_comment_line("   "));
}
