use std::sync::{Arc, Mutex};

use pumpkin_tui::completion::{
    CommandTree, Completer, Completion, CompletionKind, CompletionRequest, Completions, Node,
    NoCompleter,
};

fn tree() -> CommandTree {
    CommandTree::new()
        .with(
            Node::literal("gamemode")
                .detail("Change a player's game mode")
                .and_then(
                    Node::argument("<mode>")
                        .suggest(&["survival", "creative", "spectator"])
                        .and_then(Node::argument("<player>").suggest(&["Notch", "Steve"])),
                ),
        )
        .with(Node::literal("gamerule").and_then(Node::argument("<rule>")))
        .with(Node::literal("stop").detail("Stop the server"))
}

fn complete(line: &str) -> Vec<String> {
    tree()
        .complete(CompletionRequest { line, cursor: line.len() })
        .items
        .into_iter()
        .map(|item| item.value)
        .collect()
}

#[test]
fn completes_root_commands_by_prefix() {
    assert_eq!(complete("game"), vec!["gamemode", "gamerule"]);
    assert_eq!(complete(""), vec!["gamemode", "gamerule", "stop"]);
}

#[test]
fn tolerates_leading_slash() {
    assert_eq!(complete("/sto"), vec!["stop"]);
}

#[test]
fn walks_into_arguments() {
    assert_eq!(complete("gamemode "), vec!["survival", "creative", "spectator"]);
    assert_eq!(complete("gamemode c"), vec!["creative"]);
    assert_eq!(complete("gamemode creative "), vec!["Notch", "Steve"]);
}

#[test]
fn offers_placeholder_when_no_values_are_known() {
    let items = tree().complete(CompletionRequest { line: "gamerule ", cursor: 9 });
    assert_eq!(items.items.len(), 1);
    assert_eq!(items.items[0].kind, CompletionKind::Placeholder);
    assert!(!items.items[0].insertable());
}

#[test]
fn unknown_command_yields_nothing() {
    assert!(complete("nonsense ").is_empty());
}

#[test]
fn start_offset_points_at_the_word() {
    let line = "gamemode cre";
    let completions = tree().complete(CompletionRequest { line, cursor: line.len() });
    assert_eq!(completions.start, 9);
    assert_eq!(completions.common_prefix().as_deref(), Some("creative"));
}

#[test]
fn leading_slash_shifts_the_start_by_one() {
    let bare = tree().complete(CompletionRequest { line: "gamemode cre", cursor: 12 });
    let slashed = tree().complete(CompletionRequest { line: "/gamemode cre", cursor: 13 });
    assert_eq!(slashed.start, bare.start + 1);
    assert_eq!(slashed.items.len(), bare.items.len());
    assert_eq!(slashed.items[0].value, "creative");
}

#[test]
fn text_after_the_caret_is_ignored() {
    let c = tree().complete(CompletionRequest { line: "gamemode cre xyz", cursor: 12 });
    assert_eq!(c.start, 9);
    assert_eq!(c.items.len(), 1);
    assert_eq!(c.items[0].value, "creative");
}

#[test]
fn root_commands_are_command_kind_and_keep_details() {
    let c = tree().complete(CompletionRequest { line: "st", cursor: 2 });
    assert_eq!(c.items.len(), 1);
    assert_eq!(c.items[0].kind, CompletionKind::Command);
    assert_eq!(c.items[0].detail.as_deref(), Some("Stop the server"));
}

#[test]
fn arguments_are_argument_kind() {
    let c = tree().complete(CompletionRequest { line: "gamemode s", cursor: 10 });
    let values: Vec<&str> = c.items.iter().map(|i| i.value.as_str()).collect();
    assert_eq!(values, ["survival", "spectator"]);
    assert!(c.items.iter().all(|i| i.kind == CompletionKind::Argument));
}

#[test]
fn nested_literal_is_literal_kind() {
    let t = CommandTree::new().with(Node::literal("time").and_then(Node::literal("set")));
    let c = t.complete(CompletionRequest { line: "time s", cursor: 6 });
    assert_eq!(c.items.len(), 1);
    assert_eq!(c.items[0].value, "set");
    assert_eq!(c.items[0].kind, CompletionKind::Literal);
    assert_eq!(c.start, 5);
}

#[test]
fn dynamic_suggestions_are_asked_each_time() {
    let t = CommandTree::new().with(
        Node::literal("kick").and_then(
            Node::argument("<player>").suggest_with(|| vec!["Alex".to_owned(), "Bob".to_owned()]),
        ),
    );
    let c = t.complete(CompletionRequest { line: "kick A", cursor: 6 });
    assert_eq!(c.items.len(), 1);
    assert_eq!(c.items[0].value, "Alex");
    let all = t.complete(CompletionRequest { line: "kick ", cursor: 5 });
    assert_eq!(all.items.len(), 2);
}

#[test]
fn caret_past_the_end_is_clamped() {
    let c = tree().complete(CompletionRequest { line: "sto", cursor: 99 });
    assert_eq!(c.start, 0);
    assert_eq!(c.items[0].value, "stop");
}

#[test]
fn common_prefix_skips_placeholders_and_needs_a_shared_start() {
    let c = Completions::new(
        0,
        vec![
            Completion::new("gamemode", CompletionKind::Command),
            Completion::new("<x>", CompletionKind::Placeholder),
            Completion::new("gamerule", CompletionKind::Command),
        ],
    );
    assert_eq!(c.common_prefix().as_deref(), Some("game"));
    let none = Completions::new(
        0,
        vec![
            Completion::new("alpha", CompletionKind::Argument),
            Completion::new("beta", CompletionKind::Argument),
        ],
    );
    assert_eq!(none.common_prefix(), None);
    let only_placeholder =
        Completions::new(0, vec![Completion::new("<x>", CompletionKind::Placeholder)]);
    assert_eq!(only_placeholder.common_prefix(), None);
    assert!(Completions::default().is_empty());
}

#[test]
fn request_prefix_word_and_start() {
    let r = CompletionRequest { line: "gamemode cre", cursor: 12 };
    assert_eq!(r.prefix(), "gamemode cre");
    assert_eq!(r.word(), "cre");
    assert_eq!(r.word_start(), 9);
    let mid = CompletionRequest { line: "say Grüße", cursor: 6 };
    assert_eq!(mid.prefix(), "say Gr");
    assert_eq!(mid.word(), "Gr");
    assert_eq!(mid.word_start(), 4);
}

#[test]
fn no_completer_answers_nothing() {
    let c = NoCompleter.complete(CompletionRequest { line: "stop", cursor: 4 });
    assert!(c.is_empty());
}

#[test]
fn completion_builders_keep_their_parts() {
    let c = Completion::new("stop", CompletionKind::Command).with_detail("Stop the server");
    assert_eq!(c.value, "stop");
    assert_eq!(c.detail.as_deref(), Some("Stop the server"));
    assert!(c.insertable());
}

#[test]
fn a_value_source_is_asked_at_completion_time() {
    let calls = Arc::new(Mutex::new(0usize));
    let seen = Arc::clone(&calls);
    let t = CommandTree::new().with(Node::literal("tp").and_then(Node::argument("<player>").suggest_with(
        move || {
            *seen.lock().unwrap() += 1;
            vec!["Notch".to_owned(), "Alex".to_owned()]
        },
    )));
    let c = t.complete(CompletionRequest { line: "tp ", cursor: 3 });
    assert_eq!(*calls.lock().unwrap(), 1);
    assert_eq!(c.start, 3);
    let values: Vec<&str> = c.items.iter().map(|i| i.value.as_str()).collect();
    assert_eq!(values, ["Notch", "Alex"]);
    assert!(c.items.iter().all(|i| i.kind == CompletionKind::Argument));

    let empty = CommandTree::new()
        .with(Node::literal("tp").and_then(Node::argument("<player>").suggest_with(Vec::new)));
    let e = empty.complete(CompletionRequest { line: "tp ", cursor: 3 });
    assert_eq!(e.items.len(), 1);
    assert_eq!(e.items[0].value, "<player>");
    assert_eq!(e.items[0].kind, CompletionKind::Placeholder);
}

#[test]
fn candidates_from_given_values() {
    let word: Vec<char> = "cr".chars().collect();
    let n = Node::argument("<mode>");
    let values = vec!["survival".to_owned(), "creative".to_owned()];
    let c = n.candidates_from(1, &word, &values);
    assert_eq!(c.len(), 1);
    assert_eq!(c[0].value, "creative");
    let none = n.candidates_from(1, &word, &Vec::new());
    assert_eq!(none.len(), 1);
    assert_eq!(none[0].kind, CompletionKind::Placeholder);
}
