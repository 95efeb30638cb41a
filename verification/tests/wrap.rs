use pumpkin_tui::wrap::{find_matches, ranges_of, split_keeping_spaces, wrap};

#[test]
fn wraps_on_word_boundaries() {
    assert_eq!(wrap("the quick brown fox", 10), ["the quick ", "brown fox"]);
}

#[test]
fn splits_words_that_cannot_fit() {
    assert_eq!(wrap("abcdefghij", 4), ["abcd", "efgh", "ij"]);
}

#[test]
fn empty_text_is_one_empty_line() {
    assert_eq!(wrap("", 10), [""]);
    assert_eq!(wrap("hi", 0), [""]);
}

#[test]
fn accounts_for_wide_characters() {
    assert_eq!(wrap("日本語テスト", 4), ["日本", "語テ", "スト"]);
}

#[test]
fn finds_matches_case_insensitively() {
    assert_eq!(find_matches("Player Steve joined", "steve"), [(7, 12)]);
    assert_eq!(find_matches("aaa", "a"), [(0, 1), (1, 2), (2, 3)]);
    assert!(find_matches("abc", "").is_empty());
}

#[test]
fn a_space_on_the_edge_is_dropped() {
    assert_eq!(wrap("abcd efgh", 4), ["abcd", "efgh"]);
    assert_eq!(wrap("ab  cd", 3), ["ab", "cd"]);
}

#[test]
fn wrapping_keeps_every_visible_character() {
    let text = "Notch  joined the game at spawn with a verylongwordthatwillnotfit";
    let lines = wrap(text, 7);
    let joined: String = lines.concat();
    let visible = |s: &str| s.chars().filter(|c| !c.is_whitespace()).collect::<String>();
    assert_eq!(visible(&joined), visible(text));
    assert!(lines.len() > 1);
}

#[test]
fn matches_do_not_overlap() {
    assert_eq!(find_matches("aaaa", "aa"), [(0, 2), (2, 4)]);
    assert_eq!(find_matches("abc", "zz"), []);
}

#[test]
fn matches_are_byte_ranges_past_multibyte_text() {
    assert_eq!(find_matches("Grüße Steve", "STEVE"), [(8, 13)]);
}

#[test]
fn a_character_wider_than_the_pane_gets_a_line_of_its_own() {
    assert_eq!(wrap("日本", 1), ["", "日", "本"]);
    for line in wrap("ab 日本語 cd", 3) {
        let columns: usize = line.chars().map(|c| if c.is_ascii() { 1 } else { 2 }).sum();
        assert!(columns <= 3 || line.chars().count() == 1);
    }
}

#[test]
fn matches_take_the_leftmost_occurrence_first() {
    assert_eq!(find_matches("aaaaa", "aa"), vec![(0, 2), (2, 4)]);
    assert_eq!(find_matches("xAbAbx", "aba"), vec![(1, 4)]);
    assert_eq!(find_matches("abc", "d"), vec![]);
}

#[test]
fn wrapping_drops_only_whole_whitespace_runs() {
    let lines = wrap("alpha  beta gamma", 11);
    assert_eq!(lines, vec!["alpha  beta", "gamma"]);
    let joined: String = lines.concat();
    assert_eq!(joined, "alpha  betagamma");
}

#[test]
fn ascii_matching_ignores_case() {
    assert_eq!(find_matches("Notch joined", "notch"), vec![(0, 5)]);
    assert_eq!(find_matches("say NOTCH, notch", "Notch"), vec![(4, 9), (11, 16)]);
}

#[test]
fn runs_alternate_and_join_back() {
    let text: Vec<char> = "a  bc d".chars().collect();
    let parts: Vec<String> =
        split_keeping_spaces(&text).iter().map(|p| p.iter().collect()).collect();
    assert_eq!(parts, vec!["a", "  ", "bc", " ", "d"]);
    assert_eq!(parts.concat(), "a  bc d");
    assert!(split_keeping_spaces(&Vec::new()).is_empty());
}

#[test]
fn ranges_are_byte_offsets_of_exact_occurrences() {
    let hay: Vec<char> = "éaba aba".chars().collect();
    let pin: Vec<char> = "aba".chars().collect();
    assert_eq!(ranges_of(&hay, &pin), vec![(2, 5), (6, 9)]);
}
