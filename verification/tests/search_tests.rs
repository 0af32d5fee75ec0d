use sen::search::{find_matches, line_segments, replace_matches, SearchState};

fn state(query: &str, case_sensitive: bool) -> SearchState {
    let mut s = SearchState::new();
    s.search_query = query.to_string();
    s.search_case_sensitive = case_sensitive;
    s
}

#[test]
fn matches_are_leftmost_and_disjoint() {
    assert_eq!(find_matches("aaaa", "aa"), vec![0, 2]);
    assert_eq!(find_matches("abcabc", "bc"), vec![1, 4]);
    assert_eq!(find_matches("éaé", "é"), vec![0, 3]);
    assert_eq!(find_matches("abc", "x"), Vec::<usize>::new());
    assert_eq!(find_matches("ab", ""), vec![0, 1, 2]);
    assert_eq!(find_matches("", ""), vec![0]);
    let text = "one two one";
    let std: Vec<usize> = text.match_indices("one").map(|(i, _)| i).collect();
    assert_eq!(find_matches(text, "one"), std);
}

#[test]
fn search_with_and_without_case() {
    let mut s = state("ab", true);
    s.perform_search("Ab ab AB");
    assert_eq!(s.search_matches, vec![3]);
    assert_eq!(s.current_match_index, Some(0));

    let mut s = state("ab", false);
    s.perform_search("Ab ab AB");
    assert_eq!(s.search_matches, vec![0, 3, 6]);

    let mut s = state("", false);
    s.search_matches = vec![1];
    s.current_match_index = Some(0);
    s.perform_search("abc");
    assert!(s.search_matches.is_empty());
    assert_eq!(s.current_match_index, None);

    let mut s = state("zz", true);
    s.perform_search("abc");
    assert!(s.search_matches.is_empty());
    assert_eq!(s.current_match_index, None);
}

#[test]
fn next_and_previous_cycle() {
    let mut s = state("a", true);
    s.perform_search("a a a");
    assert_eq!(s.find_next(), Some(1));
    assert_eq!(s.find_next(), Some(2));
    assert_eq!(s.find_next(), Some(0));
    assert_eq!(s.find_prev(), Some(2));
    assert_eq!(s.find_prev(), Some(1));
    s.current_match_index = None;
    assert_eq!(s.find_prev(), Some(2));
    s.current_match_index = None;
    assert_eq!(s.find_next(), Some(0));

    let mut empty = state("q", true);
    empty.perform_search("abc");
    assert_eq!(empty.find_next(), None);
    assert_eq!(empty.find_prev(), None);
    assert_eq!(empty.current_match_index, None);
}

#[test]
fn next_then_previous_returns() {
    let mut s = state("x", true);
    s.perform_search("x.x.x.x");
    for start in 0..4 {
        s.current_match_index = Some(start);
        s.find_next();
        s.find_prev();
        assert_eq!(s.current_match_index, Some(start));
    }
}

#[test]
fn selected_match_range_and_line() {
    let text = "first\nsecond find\nfind";
    let mut s = state("find", true);
    s.perform_search(text);
    assert_eq!(s.search_matches, vec![13, 18]);
    assert_eq!(s.select_match(text, 0), Some((13, 17, 2)));
    assert_eq!(s.select_match(text, 1), Some((18, 22, 2)));
    assert_eq!(s.select_match(text, 2), None);
    let mut at_start = state("fi", true);
    at_start.perform_search(text);
    assert_eq!(at_start.select_match(text, 0), Some((0, 2, 1)));
}

#[test]
fn replace_one_match() {
    let mut text = "cat hat cat".to_string();
    let mut s = state("cat", true);
    s.replace_query = "dog".to_string();
    s.perform_search(&text);
    s.find_next();
    assert!(s.replace_current(&mut text));
    assert_eq!(text, "cat hat dog");
    assert_eq!(s.search_matches, vec![0]);
    assert_eq!(s.current_match_index, Some(0));

    let mut none = state("cat", true);
    let mut t = "cat".to_string();
    assert!(!none.replace_current(&mut t));
    assert_eq!(t, "cat");
    none.current_match_index = Some(0);
    none.search_matches = vec![1];
    assert!(!none.replace_current(&mut t));
}

#[test]
fn replace_every_match() {
    let mut text = "a-b-c".to_string();
    let mut s = state("-", true);
    s.replace_query = "+=".to_string();
    assert!(s.replace_all(&mut text));
    assert_eq!(text, "a+=b+=c");
    assert!(s.search_matches.is_empty());

    let mut same = state("b", true);
    same.replace_query = "b".to_string();
    let mut t = "abc".to_string();
    assert!(!same.replace_all(&mut t));
    assert_eq!(t, "abc");

    let mut empty = state("", true);
    let mut t = "abc".to_string();
    assert!(!empty.replace_all(&mut t));

    assert_eq!(replace_matches("aaa", "aa", "b"), "ba");
    assert_eq!(replace_matches("xyz", "q", "r"), "xyz");
    assert_eq!(replace_matches("abcabc", "bc", ""), "aa");
    assert_eq!(replace_matches("ab", "", "-"), "ab");
}

#[test]
fn line_pieces_highlight_matches() {
    // Text "ab cab\nxab": matches of "ab" at bytes 0, 4 and 8.
    let matches = vec![0usize, 4, 8];
    // First line, bytes 0..6.
    assert_eq!(
        line_segments(0, 6, &matches, 2, true),
        vec![(0, 2, true), (2, 4, false), (4, 6, true)]
    );
    // Second line, bytes 7..10.
    assert_eq!(line_segments(7, 3, &matches, 2, true), vec![(0, 1, false), (1, 3, true)]);
    // No search: the whole line, plain.
    assert_eq!(line_segments(7, 3, &matches, 2, false), vec![(0, 3, false)]);
    // An empty line stays one plain empty piece.
    assert_eq!(line_segments(6, 0, &matches, 2, true), vec![(0, 0, false)]);
    // A match running past the end of the line is cut at the line's end.
    assert_eq!(line_segments(0, 3, &[2usize], 4, true), vec![(0, 2, false), (2, 3, true)]);
    // A match that began on the line before highlights the start of this one.
    assert_eq!(line_segments(4, 4, &[2usize], 4, true), vec![(0, 2, true), (2, 4, false)]);
}
