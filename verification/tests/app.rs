use pumpkin_tui::app::{App, ConsoleConfig, Key, KeyCode, Mode, ServerEvent, TerminalEvent};
use pumpkin_tui::backend::{ConsoleInput, Level, LogRecord, PlayerInfo};
use pumpkin_tui::completion::{
    CommandTree, Completer, Completion, CompletionKind, CompletionRequest, Completions, Node,
};

fn app() -> App<CommandTree> {
    let tree = CommandTree::new()
        .with(
            Node::literal("gamemode").and_then(Node::argument("<mode>").suggest(&[
                "survival",
                "creative",
                "spectator",
            ])),
        )
        .with(Node::literal("gamerule"))
        .with(Node::literal("stop"));
    App::new(ConsoleConfig { history_file: None, ..ConsoleConfig::default() }, tree)
}

fn type_text(app: &mut App<CommandTree>, text: &str) {
    for c in text.chars() {
        app.on_normal_key(Key::plain(KeyCode::Char(c)), 0);
    }
}

fn press(app: &mut App<CommandTree>, code: KeyCode) -> Vec<ConsoleInput> {
    app.on_normal_key(Key::plain(code), 0)
}

#[test]
fn tab_fills_the_common_prefix_and_opens_the_popup() {
    let mut app = app();
    type_text(&mut app, "game");
    press(&mut app, KeyCode::Tab);
    assert_eq!(app.editor.text(), "game");
    assert!(app.completion.open);
    assert_eq!(app.completion.items.items.len(), 2);
}

#[test]
fn tab_completes_a_unique_match() {
    let mut app = app();
    type_text(&mut app, "sto");
    press(&mut app, KeyCode::Tab);
    assert_eq!(app.editor.text(), "stop ");
    assert!(!app.completion.open);
}

#[test]
fn enter_accepts_the_selected_candidate_instead_of_submitting() {
    let mut app = app();
    type_text(&mut app, "gamemode ");
    press(&mut app, KeyCode::Tab);
    assert!(app.completion.open);
    press(&mut app, KeyCode::Down);
    let sent = press(&mut app, KeyCode::Enter);
    assert!(sent.is_empty());
    assert_eq!(app.editor.text(), "gamemode creative ");
}

#[test]
fn enter_submits_and_echoes() {
    let mut app = app();
    type_text(&mut app, "/stop");
    let sent = press(&mut app, KeyCode::Enter);
    assert!(matches!(&sent[..], [ConsoleInput::Command(cmd)] if cmd == "stop"));
    assert!(app.editor.is_empty());
    assert_eq!(app.history.entries(), ["/stop"]);
    assert!(app.records.back().is_some_and(|r| r.message == "> stop"));
}

#[test]
fn right_arrow_accepts_the_ghost_hint() {
    let mut app = app();
    type_text(&mut app, "sto");
    assert_eq!(app.completion.hint.as_deref(), Some("p"));
    press(&mut app, KeyCode::Right);
    assert_eq!(app.editor.text(), "stop");
}

#[test]
fn filters_hide_records_below_the_level() {
    let mut app = app();
    app.push_record(LogRecord::new(Level::Debug, "chunk saved"));
    app.push_record(LogRecord::new(Level::Warn, "can't keep up"));
    assert_eq!(app.visible_records().len(), 1);
    app.min_level = Level::Trace;
    assert_eq!(app.visible_records().len(), 2);
    app.search.set("chunk");
    assert_eq!(app.visible_records().len(), 1);
}

#[test]
fn ctrl_c_clears_the_line_then_asks_to_quit() {
    let mut app = app();
    type_text(&mut app, "say hi");
    app.on_normal_key(Key::ctrl(KeyCode::Char('c')), 0);
    assert!(app.editor.is_empty());
    assert_eq!(app.mode, Mode::Normal);
    app.on_normal_key(Key::ctrl(KeyCode::Char('c')), 0);
    assert_eq!(app.mode, Mode::ConfirmQuit);
    let sent = app.on_confirm_key(Key::plain(KeyCode::Char('y')));
    assert!(matches!(&sent[..], [ConsoleInput::Quit]));
    assert!(app.should_quit);
}

#[test]
fn any_other_key_backs_out_of_the_quit_prompt() {
    let mut app = app();
    app.on_normal_key(Key::ctrl(KeyCode::Char('d')), 0);
    assert_eq!(app.mode, Mode::ConfirmQuit);
    let sent = app.on_key(Key::plain(KeyCode::Char('n')), 0);
    assert!(sent.is_empty());
    assert_eq!(app.mode, Mode::Normal);
    assert!(!app.should_quit);
}

#[test]
fn blank_and_slash_only_lines_send_nothing() {
    let mut app = app();
    type_text(&mut app, "  //  ");
    let sent = press(&mut app, KeyCode::Enter);
    assert!(sent.is_empty());
    assert!(app.editor.is_empty());
    assert!(app.history.entries().is_empty());
}

#[test]
fn submitted_lines_are_trimmed_into_the_history() {
    let mut app = app();
    type_text(&mut app, "  say hi  ");
    let sent = press(&mut app, KeyCode::Enter);
    assert!(matches!(&sent[..], [ConsoleInput::Command(cmd)] if cmd == "say hi"));
    assert_eq!(app.history.entries(), ["say hi"]);
    assert_eq!(app.scroll, 0);
}

#[test]
fn up_then_down_restores_the_typed_line() {
    let mut app = app();
    type_text(&mut app, "stop");
    press(&mut app, KeyCode::Enter);
    type_text(&mut app, "say");
    press(&mut app, KeyCode::Up);
    assert_eq!(app.editor.text(), "stop");
    press(&mut app, KeyCode::Down);
    assert_eq!(app.editor.text(), "say");
    assert_eq!(app.editor.cursor(), 3);
}

#[test]
fn the_echo_lines_up_with_stamped_records() {
    let mut app = app();
    app.push_record(LogRecord::new(Level::Info, "started").with_time("12:03:41"));
    type_text(&mut app, "stop");
    press(&mut app, KeyCode::Enter);
    let echo = app.records.back().unwrap();
    assert_eq!(echo.time, "        ");
    assert_eq!(echo.target.as_deref(), Some("console"));
}

#[test]
fn scrollback_drops_the_oldest_record() {
    let mut app = App::new(
        ConsoleConfig { scrollback: 2, ..ConsoleConfig::default() },
        CommandTree::new(),
    );
    app.push_record(LogRecord::new(Level::Info, "a"));
    app.push_record(LogRecord::new(Level::Info, "b"));
    app.push_record(LogRecord::new(Level::Info, "c"));
    let messages: Vec<&str> = app.records.iter().map(|r| r.message.as_str()).collect();
    assert_eq!(messages, ["b", "c"]);
}

#[test]
fn paging_and_the_wheel_scroll_the_log() {
    let mut app = app();
    app.log_height = 10;
    press(&mut app, KeyCode::PageUp);
    assert_eq!(app.scroll, 9);
    assert!(!app.is_following());
    app.handle_event(TerminalEvent::ScrollDown, 0);
    assert_eq!(app.scroll, 6);
    app.handle_event(TerminalEvent::ScrollUp, 0);
    assert_eq!(app.scroll, 9);
    press(&mut app, KeyCode::PageDown);
    press(&mut app, KeyCode::PageDown);
    assert_eq!(app.scroll, 0);
    assert!(app.is_following());
    app.on_normal_key(Key::ctrl(KeyCode::Home), 0);
    assert_eq!(app.scroll, usize::MAX / 2);
    app.on_normal_key(Key::ctrl(KeyCode::End), 0);
    assert_eq!(app.scroll, 0);
}

#[test]
fn f4_cycles_the_level_and_says_so() {
    let mut app = app();
    assert_eq!(app.min_level, Level::Info);
    press(&mut app, KeyCode::F(4));
    assert_eq!(app.min_level, Level::Warn);
    assert_eq!(app.notice_text(0), Some("showing WARN and above"));
    assert_eq!(app.notice_text(3_999), Some("showing WARN and above"));
    assert_eq!(app.notice_text(4_000), None);
    press(&mut app, KeyCode::F(4));
    press(&mut app, KeyCode::F(4));
    assert_eq!(app.min_level, Level::Trace);
}

#[test]
fn search_mode_edits_the_query_and_follows_the_tail() {
    let mut app = app();
    app.scroll = 5;
    press(&mut app, KeyCode::F(3));
    assert_eq!(app.mode, Mode::Search);
    app.on_key(Key::plain(KeyCode::Char('a')), 0);
    app.on_key(Key::plain(KeyCode::Char('b')), 0);
    assert_eq!(app.search.text(), "ab");
    assert_eq!(app.scroll, 0);
    app.on_key(Key::plain(KeyCode::Esc), 0);
    assert_eq!(app.search.text(), "");
    assert_eq!(app.mode, Mode::Normal);
}

#[test]
fn help_closes_on_any_key() {
    let mut app = app();
    press(&mut app, KeyCode::F(1));
    assert_eq!(app.mode, Mode::Help);
    app.on_key(Key::plain(KeyCode::Char('x')), 0);
    assert_eq!(app.mode, Mode::Normal);
    assert!(app.editor.is_empty());
}

#[test]
fn escape_closes_the_popup_then_the_notice() {
    let mut app = app();
    type_text(&mut app, "game");
    press(&mut app, KeyCode::Tab);
    assert!(app.completion.open);
    press(&mut app, KeyCode::Esc);
    assert!(!app.completion.open);
    app.notify("hello", 0);
    press(&mut app, KeyCode::Esc);
    assert_eq!(app.notice_text(0), None);
}

#[test]
fn shift_tab_selects_backwards_with_wrap() {
    let mut app = app();
    type_text(&mut app, "gamemode ");
    app.on_normal_key(Key::plain(KeyCode::BackTab), 0);
    assert!(app.completion.open);
    assert_eq!(app.completion.selected, 2);
    press(&mut app, KeyCode::Tab);
    assert_eq!(app.completion.selected, 0);
}

#[test]
fn tab_on_a_placeholder_says_what_is_expected() {
    let tree = CommandTree::new().with(Node::literal("kick").and_then(Node::argument("<player>")));
    let mut app = App::new(ConsoleConfig::default(), tree);
    type_text(&mut app, "kick ");
    app.on_normal_key(Key::plain(KeyCode::Tab), 7);
    assert_eq!(app.notice_text(7), Some("expects <player>"));
    assert_eq!(app.editor.text(), "kick ");
}

#[test]
fn ctrl_l_clears_the_log_and_ctrl_w_deletes_a_word() {
    let mut app = app();
    app.push_record(LogRecord::new(Level::Info, "x"));
    app.on_normal_key(Key::ctrl(KeyCode::Char('l')), 0);
    assert!(app.records.is_empty());
    type_text(&mut app, "say hello");
    app.on_normal_key(Key::ctrl(KeyCode::Char('w')), 0);
    assert_eq!(app.editor.text(), "say ");
    app.on_normal_key(Key::ctrl(KeyCode::Char('u')), 0);
    assert!(app.editor.is_empty());
}

#[test]
fn server_events_feed_the_console() {
    let mut app = app();
    app.on_server_event(ServerEvent::Log(LogRecord::new(Level::Info, "hi")));
    assert_eq!(app.records.len(), 1);
    app.on_server_event(ServerEvent::Players(vec![PlayerInfo {
        name: "Notch".to_owned(),
        world: "overworld".to_owned(),
        ping_ms: 42,
    }]));
    assert_eq!(app.players.len(), 1);
    for t in 0..130u64 {
        app.on_server_event(ServerEvent::Tick(t));
    }
    assert_eq!(app.mspt_samples.len(), 120);
    assert_eq!(app.mspt_samples[0], 10);
    app.on_server_event(ServerEvent::Close);
    assert!(app.should_quit);
}

#[test]
fn f2_toggles_the_sidebar_and_f5_follows() {
    let mut app = app();
    let shown = app.show_players;
    press(&mut app, KeyCode::F(2));
    assert_eq!(app.show_players, !shown);
    app.scroll = 3;
    press(&mut app, KeyCode::F(5));
    assert_eq!(app.scroll, 0);
    assert_eq!(app.notice_text(0), Some("following log tail"));
}

#[test]
fn default_config_matches_the_documented_knobs() {
    let c = ConsoleConfig::default();
    assert_eq!(c.title, "Pumpkin");
    assert_eq!(c.scrollback, 5000);
    assert_eq!(c.history_limit, 500);
    assert_eq!(c.tick_ms, 50);
    assert!(c.show_players && c.mouse && c.echo_commands);
    assert_eq!(c.min_level, Level::Info);
}

#[test]
fn five_level_steps_come_back_around() {
    let mut app = app();
    let start = app.min_level;
    for _ in 0..5 {
        press(&mut app, KeyCode::F(4));
    }
    assert_eq!(app.min_level, start);
}

/// Answers every query with one candidate that starts past the line's end.
struct FarStart;

impl Completer for FarStart {
    fn complete(&self, _request: CompletionRequest) -> Completions {
        Completions::new(usize::MAX, vec![Completion::new("alpha", CompletionKind::Argument)])
    }
}

#[test]
fn a_start_past_the_line_end_hints_the_whole_candidate() {
    let mut app = App::new(ConsoleConfig { history_file: None, ..ConsoleConfig::default() }, FarStart);
    app.on_normal_key(Key::plain(KeyCode::Char('x')), 0);
    assert_eq!(app.completion.hint.as_deref(), Some("alpha"));
}
