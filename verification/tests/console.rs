use pumpkin_tui::backend::Level;
use pumpkin_tui::completion::{
    CommandTree, Completer, CompletionKind, CompletionRequest,
};
use pumpkin_tui::console::{
    command_list_completions, dispatcher_query, format_uptime, init_command_tree, reply_records,
    strip_ansi, suggestion_completions, tellraw_arguments, total_chunks, CommandError,
    DispatcherQuery,
};

#[test]
fn strips_colour_escapes_from_chat_components() {
    assert_eq!(strip_ansi("\u{1b}[38;2;255;170;0mNotch\u{1b}[0m joined"), "Notch joined");
    assert_eq!(strip_ansi("plain text"), "plain text");
    assert_eq!(strip_ansi("a\u{1b}"), "a");
}

#[test]
fn strip_keeps_a_lone_escape_without_bracket_out() {
    assert_eq!(strip_ansi("x\u{1b}y"), "x");
    assert_eq!(strip_ansi("\u{1b}[1;31"), "");
}

#[test]
fn replies_become_one_record_per_line() {
    let records = reply_records("\u{1b}[32mfirst\u{1b}[0m\r\nsecond", "12:00:00");
    assert_eq!(records.len(), 2);
    assert_eq!(records[0].message, "first");
    assert_eq!(records[1].message, "second");
    assert_eq!(records[0].time, "12:00:00");
    assert_eq!(records[0].level, Level::Info);
    assert!(reply_records("", "t").is_empty());
}

#[test]
fn uptime_is_hours_minutes_seconds() {
    assert_eq!(format_uptime(3_725), "01:02:05");
    assert_eq!(format_uptime(0), "00:00:00");
    assert_eq!(format_uptime(360_000), "100:00:00");
}

#[test]
fn chunk_counts_add_up() {
    assert_eq!(total_chunks(&[3, 4, 5]), 12);
    assert_eq!(total_chunks(&[]), 0);
}

#[test]
fn blank_lines_list_every_command() {
    match dispatcher_query(CompletionRequest { line: "/", cursor: 1 }) {
        DispatcherQuery::ListCommands { start } => assert_eq!(start, 1),
        DispatcherQuery::Suggest { .. } => panic!("expected a command list"),
    }
    let c = command_list_completions(
        1,
        &vec![("stop".to_owned(), "Stop the server".to_owned())],
    );
    assert_eq!(c.start, 1);
    assert_eq!(c.items[0].value, "stop");
    assert_eq!(c.items[0].kind, CompletionKind::Command);
    assert_eq!(c.items[0].detail.as_deref(), Some("Stop the server"));
}

#[test]
fn typed_lines_are_parsed_without_the_slash() {
    match dispatcher_query(CompletionRequest { line: "/gamemode cr", cursor: 12 }) {
        DispatcherQuery::Suggest { typed, cursor, slash } => {
            assert_eq!(typed, "gamemode cr");
            assert_eq!(cursor, 11);
            assert!(slash);
        }
        DispatcherQuery::ListCommands { .. } => panic!("expected a suggestion query"),
    }
}

#[test]
fn suggestions_mark_online_players() {
    let c = suggestion_completions(
        9,
        true,
        &vec!["Notch".to_owned(), "creative".to_owned()],
        &vec!["Notch".to_owned()],
    );
    assert_eq!(c.start, 10);
    assert_eq!(c.items[0].kind, CompletionKind::Player);
    assert_eq!(c.items[1].kind, CompletionKind::Argument);
    let none = suggestion_completions(9, false, &vec![], &vec![]);
    assert_eq!(none.start, 0);
    assert!(none.is_empty());
}

#[test]
fn tellraw_tree_walks_to_its_arguments() {
    let tree: CommandTree = init_command_tree();
    let c = tree.complete(CompletionRequest { line: "tell", cursor: 4 });
    assert_eq!(c.items[0].value, "tellraw");
    assert_eq!(c.items[0].detail.as_deref(), Some("Send a raw message to a player."));
    let t = tree.complete(CompletionRequest { line: "tellraw ", cursor: 8 });
    assert_eq!(t.items[0].value, "target");
    assert_eq!(t.items[0].kind, CompletionKind::Placeholder);
    let m = tree.complete(CompletionRequest { line: "tellraw @a ", cursor: 11 });
    assert_eq!(m.items[0].value, "message");
}

#[test]
fn tellraw_needs_its_target_then_its_message() {
    match tellraw_arguments::<Vec<&str>, &str>(None, Some("hi")) {
        Err(CommandError::InvalidConsumption(Some(name))) => assert_eq!(name, "target"),
        _ => panic!("expected a missing target"),
    }
    match tellraw_arguments::<Vec<&str>, &str>(Some(vec!["Notch"]), None) {
        Err(CommandError::InvalidConsumption(Some(name))) => assert_eq!(name, "message"),
        _ => panic!("expected a missing message"),
    }
    match tellraw_arguments(Some(vec!["Notch"]), Some("hi")) {
        Ok((targets, message)) => {
            assert_eq!(targets, ["Notch"]);
            assert_eq!(message, "hi");
        }
        Err(_) => panic!("expected both arguments"),
    }
}

#[test]
fn no_escape_survives_stripping() {
    let cleaned = strip_ansi("\u{1b}[1m\u{1b}[31mred\u{1b}[0m \u{1b}(B plain \u{1b}");
    assert!(!cleaned.contains('\u{1b}'));
    assert_eq!(cleaned, "red B plain ");
}

#[test]
fn stripping_only_removes_and_is_idempotent() {
    let raw = "a\u{1b}[1;31mb\u{1b}Xc\u{1b}[0md";
    let once = strip_ansi(raw);
    assert_eq!(once, "abcd");
    assert_eq!(strip_ansi(&once), once);
    let mut rest = raw.chars();
    for c in once.chars() {
        assert!(rest.any(|r| r == c));
    }
}
