use pumpkin_tui::history::History;

#[test]
fn browses_and_restores_the_draft() {
    let mut history = History::new(16);
    history.push("stop");
    history.push("say hello");

    assert_eq!(history.older("tim"), Some("say hello"));
    assert_eq!(history.older("tim"), Some("stop"));
    assert_eq!(history.older("tim"), Some("stop"));
    assert_eq!(history.newer(), Some("say hello"));
    assert_eq!(history.newer(), Some("tim"));
    assert_eq!(history.newer(), None);
}

#[test]
fn skips_blank_and_repeated_entries() {
    let mut history = History::new(16);
    history.push("stop");
    history.push("stop");
    history.push("   ");
    assert_eq!(history.entries(), ["stop"]);
}

#[test]
fn honours_the_limit() {
    let mut history = History::new(2);
    history.push("a");
    history.push("b");
    history.push("c");
    assert_eq!(history.entries(), ["b", "c"]);
}

#[test]
fn a_zero_limit_keeps_one_entry() {
    let mut history = History::new(0);
    history.push("a");
    history.push("b");
    assert_eq!(history.entries(), ["b"]);
}

#[test]
fn older_on_an_empty_history_is_none() {
    let mut history = History::new(4);
    assert_eq!(history.older("draft"), None);
    assert_eq!(history.newer(), None);
}

#[test]
fn pushing_stops_browsing() {
    let mut history = History::new(8);
    history.push("a");
    history.push("b");
    assert_eq!(history.older(""), Some("b"));
    history.push("c");
    assert_eq!(history.newer(), None);
    assert_eq!(history.older("x"), Some("c"));
    history.reset();
    assert_eq!(history.newer(), None);
}

#[test]
fn loads_trimmed_non_empty_lines() {
    let mut history = History::new(2);
    history.load_contents("stop  \n\n   \nsay hi\r\nlist\n");
    assert_eq!(history.entries(), ["say hi", "list"]);
}

#[test]
fn saved_contents_load_back() {
    let mut history = History::new(8);
    history.push("stop");
    history.push("say hello world");
    let saved = history.file_contents();
    assert_eq!(saved, "stop\nsay hello world");
    let mut again = History::new(8);
    again.load_contents(&saved);
    assert_eq!(again.entries(), history.entries());
    assert_eq!(History::new(3).file_contents(), "");
}

#[test]
fn walking_up_then_down_comes_back_to_the_draft() {
    let mut h = History::new(10);
    h.push("one");
    h.push("two");
    h.push("three");
    assert_eq!(h.older("dra"), Some("three"));
    assert_eq!(h.older("three"), Some("two"));
    assert_eq!(h.older("two"), Some("one"));
    assert_eq!(h.newer(), Some("two"));
    assert_eq!(h.newer(), Some("three"));
    assert_eq!(h.newer(), Some("dra"));
    assert_eq!(h.newer(), None);
    assert_eq!(h.entries().len(), 3);
}

#[test]
fn loading_keeps_a_position_that_still_names_an_entry() {
    let mut h = History::new(10);
    h.push("a");
    h.push("b");
    h.push("c");
    assert_eq!(h.older(""), Some("c"));
    assert_eq!(h.older("c"), Some("b"));
    h.load_contents("x\ny\nz\n");
    // Still browsing at the second entry: Down shows the third.
    assert_eq!(h.newer(), Some("z"));
    assert!(h.state_ok());
    h.load_contents("only\n");
    assert_eq!(h.newer(), None);
}
