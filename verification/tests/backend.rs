use pumpkin_tui::backend::{Level, LogRecord};
use pumpkin_tui::text::is_whitespace;

#[test]
fn levels_run_quietest_first_and_wrap_around() {
    let all = Level::all();
    assert_eq!(all, [Level::Trace, Level::Debug, Level::Info, Level::Warn, Level::Error]);
    assert_eq!(Level::Error.next(), Level::Trace);
    assert_eq!(Level::Info.next(), Level::Warn);
    assert!(Level::Warn > Level::Info);
    assert_eq!(Level::Error.severity(), 4);
}

#[test]
fn labels_are_five_columns() {
    for level in Level::all() {
        assert_eq!(level.label().len(), 5);
    }
    assert_eq!(Level::Info.label(), "INFO ");
}

#[test]
fn searchable_text_joins_target_and_message() {
    let r = LogRecord::new(Level::Info, "joined").with_target("net");
    assert_eq!(r.searchable(), "net joined");
    assert_eq!(LogRecord::new(Level::Info, "x").searchable(), "x");
}

#[test]
fn whitespace_is_the_unicode_property() {
    for c in [' ', '\t', '\n', '\u{a0}', '\u{3000}', '\u{2028}'] {
        assert!(is_whitespace(c));
        assert!(c.is_whitespace());
    }
    for c in ['a', '/', '\u{200b}'] {
        assert!(!is_whitespace(c));
        assert_eq!(is_whitespace(c), c.is_whitespace());
    }
}
