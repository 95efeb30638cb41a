use pumpkin_tui::backend::{Level, LogRecord};
use pumpkin_tui::completion::{Completion, CompletionKind};
use pumpkin_tui::layout::{
    centered, chart_samples, highlight_segments, log_view, log_window, popup_anchor, popup_area,
    popup_content, popup_content_checked, popup_window, prompt_cursor_x, record_layout,
};

#[test]
fn the_tail_fills_the_pane_from_the_bottom() {
    // Three records of 1, 2 and 1 lines in a pane four lines tall.
    let w = log_window(&[1, 2, 1], 0, 4);
    assert_eq!((w.records, w.lines, w.scroll, w.start, w.end, w.pad), (3, 4, 0, 0, 4, 0));
    // Only two lines exist: they sit at the bottom under two blank lines.
    let w = log_window(&[2], 0, 4);
    assert_eq!((w.lines, w.start, w.end, w.pad), (2, 0, 2, 2));
}

#[test]
fn only_the_newest_records_needed_are_rendered() {
    let w = log_window(&[5, 5, 5, 5], 0, 3);
    assert_eq!(w.records, 1);
    assert_eq!((w.lines, w.start, w.end), (5, 2, 5));
    let w = log_window(&[5, 5, 5, 5], 4, 3);
    assert_eq!(w.records, 2);
    assert_eq!((w.lines, w.scroll, w.start, w.end), (10, 4, 3, 6));
}

#[test]
fn scrolling_past_the_oldest_line_pins_to_it() {
    let w = log_window(&[3, 3], 10_000, 4);
    assert_eq!(w.scroll, 2);
    assert_eq!((w.start, w.end, w.pad), (0, 4, 0));
    let empty = log_window(&[], 7, 4);
    assert_eq!((empty.records, empty.lines, empty.scroll, empty.pad), (0, 0, 0, 4));
}

#[test]
fn the_popup_keeps_the_selection_in_view() {
    assert_eq!(popup_window(3, 2), (3, 0, 0));
    assert_eq!(popup_window(20, 0), (8, 0, 12));
    assert_eq!(popup_window(20, 10), (8, 3, 12));
    assert_eq!(popup_window(20, 19), (8, 12, 12));
    assert_eq!(popup_window(0, 0), (0, 0, 0));
}

#[test]
fn popup_width_covers_values_and_details() {
    let items = vec![
        Completion::new("gamemode", CompletionKind::Command).with_detail("Change mode"),
        Completion::new("stop", CompletionKind::Command),
    ];
    assert_eq!(popup_content(&items), 8 + 11 + 2 + 2);
    let plain = vec![Completion::new("日本", CompletionKind::Argument)];
    assert_eq!(popup_content(&plain), 4 + 2);
    assert_eq!(popup_content(&vec![]), 2);
}

#[test]
fn boxes_are_centred_and_clipped() {
    assert_eq!(centered(0, 0, 100, 30, 52, 5), (24, 12, 52, 5));
    assert_eq!(centered(2, 1, 10, 4, 52, 5), (2, 1, 10, 4));
}

#[test]
fn the_chart_takes_the_newest_samples() {
    let samples = vec![1, 2, 3, 4, 5];
    assert_eq!(chart_samples(&samples, 3), [3, 4, 5]);
    assert_eq!(chart_samples(&samples, 10), [1, 2, 3, 4, 5]);
    assert!(chart_samples(&samples, 0).is_empty());
}

#[test]
fn highlight_marks_the_matches() {
    assert_eq!(
        highlight_segments("Player Steve joined", "steve"),
        [(0, 7, false), (7, 12, true), (12, 19, false)]
    );
    assert_eq!(highlight_segments("aa", "a"), [(0, 1, true), (1, 2, true)]);
    assert_eq!(highlight_segments("abc", ""), [(0, 3, false)]);
    assert_eq!(highlight_segments("", "x"), [(0, 0, false)]);
}

#[test]
fn records_get_a_gutter_and_a_wrapped_body() {
    let r = LogRecord::new(Level::Info, "Notch joined the game")
        .with_time("12:03:41")
        .with_target("net");
    let layout = record_layout(&r, 50);
    assert_eq!(layout.gutter, 15);
    assert_eq!(layout.lines, ["net: Notch joined the game"]);
    assert_eq!(layout.prefix, 5);

    let plain = LogRecord::new(Level::Warn, "the quick brown fox");
    let narrow = record_layout(&plain, 16);
    assert_eq!(narrow.gutter, 6);
    assert_eq!(narrow.lines, ["the quick ", "brown fox"]);
    assert_eq!(narrow.prefix, 0);

    // A pane narrower than the gutter still wraps to eight columns.
    let tiny = record_layout(&plain, 3);
    assert_eq!(tiny.lines, ["the ", "quick ", "brown ", "fox"]);
}

#[test]
fn highlight_pieces_cover_the_line() {
    let text = "Steve met steve and STEVE";
    let pieces = highlight_segments(text, "steve");
    assert_eq!(pieces.first().map(|p| p.0), Some(0));
    assert_eq!(pieces.last().map(|p| p.1), Some(text.len()));
    for pair in pieces.windows(2) {
        assert_eq!(pair[0].1, pair[1].0);
    }
    assert_eq!(pieces.iter().filter(|p| p.2).count(), 3);
}

#[test]
fn the_log_view_lays_out_only_what_the_window_needs() {
    let a = LogRecord::new(Level::Info, "first");
    let b = LogRecord::new(Level::Info, "the quick brown fox");
    let c = LogRecord::new(Level::Warn, "last");
    let records = vec![&a, &b, &c];
    // 16 columns leave 10 for the text: "the quick brown fox" takes two lines.
    let view = log_view(&records, 16, 0, 2).expect("fits");
    assert_eq!(view.layouts.len(), 2);
    assert_eq!(view.layouts[0].lines, ["last"]);
    assert_eq!(view.layouts[1].lines, ["the quick ", "brown fox"]);
    let w = view.window;
    assert_eq!((w.records, w.lines, w.scroll, w.start, w.end, w.pad), (2, 3, 0, 1, 3, 0));

    let all = log_view(&records, 16, 100, 2).expect("fits");
    assert_eq!(all.layouts.len(), 3);
    assert_eq!((all.window.scroll, all.window.start, all.window.end), (2, 0, 2));
}

#[test]
fn popup_sits_above_the_prompt_at_the_anchor() {
    // Prompt row at y = 20, columns 0..80; the typed word starts at column 12.
    assert_eq!(popup_area(0, 20, 80, 12, 20, 3), (12, 15, 22, 5));
    // Too far right: pulled left so it ends at the prompt's right edge.
    assert_eq!(popup_area(0, 20, 80, 70, 20, 3), (58, 15, 22, 5));
    // Wider than the prompt: clipped to its width, starting at its left edge.
    assert_eq!(popup_area(0, 20, 10, 4, 20, 3), (0, 15, 10, 5));
    // Near the top of the screen: clipped at row 0.
    assert_eq!(popup_area(0, 2, 80, 12, 20, 3), (12, 0, 22, 5));
    // An anchor past `u16::MAX` falls back to the prompt's left edge.
    assert_eq!(popup_area(3, 20, 80, 70_000, 20, 3), (3, 15, 22, 5));
}

fn notch_joined() -> LogRecord {
    LogRecord::new(Level::Info, "Notch joined the game").with_time("12:03:41").with_target("net")
}

#[test]
fn clamps_scroll_past_the_oldest_record() {
    let r = notch_joined();
    let records = vec![&r];
    let view = log_view(&records, 80, 10_000, 20).expect("fits");
    assert_eq!(view.window.scroll, 0, "scrolling past the top pins to the oldest line");
}

#[test]
fn the_newest_line_sits_at_the_bottom_of_the_pane() {
    let r = notch_joined();
    let records = vec![&r];
    let view = log_view(&records, 60, 0, 5).expect("fits");
    let w = view.window;
    // Four blank lines, then the one rendered line at the bottom.
    assert_eq!(w.pad + (w.end - w.start), 5);
    assert_eq!(w.pad, 4);
    assert_eq!(w.start, 0);
    assert_eq!(view.layouts.len(), 1);
    assert!(view.layouts[0].lines[0].contains("Notch joined the game"));
}

#[test]
fn checked_content_width_matches_the_plain_one() {
    let items = vec![
        Completion::new("survival", CompletionKind::Argument),
        Completion::new("creative", CompletionKind::Argument).with_detail("build freely"),
    ];
    assert_eq!(popup_content_checked(&items), Some(popup_content(&items)));
    assert_eq!(popup_content_checked(&items), Some(8 + 2 + 12 + 2));
}

#[test]
fn the_popup_anchor_follows_the_prompt_and_the_typed_part() {
    // Border, "> ", a space, then "gamemode " before the word.
    assert_eq!(popup_anchor(0, ">", "gamemode cr", 9), Some(1 + 1 + 1 + 9));
    // A start past the line's end is clamped to it.
    assert_eq!(popup_anchor(4, ">", "ab", 100), Some(4 + 1 + 1 + 1 + 2));
    assert_eq!(popup_anchor(0, "", "é", 2), Some(3));
}

#[test]
fn the_cursor_follows_the_marker_and_the_column() {
    // Prompt area at x = 1, 40 columns wide; marker "> " and four columns typed.
    assert_eq!(prompt_cursor_x(1, 40, "> ", 4), 7);
    // Never past the last column of the area.
    assert_eq!(prompt_cursor_x(1, 40, "> ", 100), 40);
    assert_eq!(prompt_cursor_x(0, 0, "/", 3), 0);
}
