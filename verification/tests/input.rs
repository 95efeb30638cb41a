use pumpkin_tui::input::LineEditor;

#[test]
fn edits_and_motions() {
    let mut editor = LineEditor::default();
    editor.set("gamemode creative");
    assert_eq!(editor.cursor(), 17);

    editor.move_word_left();
    assert_eq!(editor.cursor(), 9);

    editor.delete_word_left();
    assert_eq!(editor.text(), "creative");

    editor.move_home();
    editor.insert_str("say ");
    assert_eq!(editor.text(), "say creative");
    assert_eq!(editor.cursor(), 4);

    editor.kill_to_end();
    assert_eq!(editor.text(), "say ");
}

#[test]
fn handles_multibyte_text() {
    let mut editor = LineEditor::default();
    editor.set("say Grüße");
    editor.backspace();
    assert_eq!(editor.text(), "say Grüß");
    editor.move_left();
    editor.delete();
    assert_eq!(editor.text(), "say Grü");
    assert_eq!(editor.cursor_column(), 7);
}

#[test]
fn replaces_completion_range() {
    let mut editor = LineEditor::default();
    editor.set("gamemode cre");
    editor.replace_range(9, 12, "creative");
    assert_eq!(editor.text(), "gamemode creative");
    assert!(editor.at_end());
}

#[test]
fn backspace_undoes_an_insert() {
    let mut editor = LineEditor::new();
    editor.set("say hi");
    editor.move_left();
    editor.insert('!');
    assert_eq!(editor.text(), "say h!i");
    editor.backspace();
    assert_eq!(editor.text(), "say hi");
    assert_eq!(editor.cursor(), 5);
}

#[test]
fn word_motions_skip_spaces() {
    let mut editor = LineEditor::new();
    editor.set("tp  Notch   Steve");
    editor.move_home();
    editor.move_word_right();
    assert_eq!(editor.cursor(), 2);
    editor.move_word_right();
    assert_eq!(editor.cursor(), 9);
    editor.delete_word_right();
    assert_eq!(editor.text(), "tp  Notch");
    editor.move_word_left();
    assert_eq!(editor.cursor(), 4);
    editor.kill_to_start();
    assert_eq!(editor.text(), "Notch");
    assert_eq!(editor.cursor(), 0);
}

#[test]
fn take_empties_the_line() {
    let mut editor = LineEditor::new();
    editor.set("stop");
    assert_eq!(editor.take(), "stop");
    assert!(editor.is_empty());
    assert_eq!(editor.cursor(), 0);
    editor.insert('x');
    editor.clear();
    assert!(editor.is_empty());
}

#[test]
fn motions_stop_at_the_ends() {
    let mut editor = LineEditor::new();
    editor.move_left();
    editor.move_right();
    editor.backspace();
    editor.delete();
    assert_eq!(editor.cursor(), 0);
    editor.set("ab");
    editor.move_right();
    assert_eq!(editor.cursor(), 2);
    editor.move_end();
    assert!(editor.at_end());
}

#[test]
fn replace_range_clamps_and_moves_the_caret_after_the_text() {
    let mut editor = LineEditor::new();
    editor.set("gamemode cre");
    editor.move_home();
    editor.replace_range(9, 99, "creative");
    assert_eq!(editor.text(), "gamemode creative");
    assert_eq!(editor.cursor(), 17);
    editor.replace_range(0, 8, "gm");
    assert_eq!(editor.text(), "gm creative");
    assert_eq!(editor.cursor(), 2);
}

#[test]
fn cursor_column_counts_display_columns() {
    let mut editor = LineEditor::new();
    editor.set("日本");
    assert_eq!(editor.cursor(), 6);
    assert_eq!(editor.cursor_column(), 4);
}

#[test]
fn delete_undoes_an_insert_before_the_caret_moves_back() {
    let mut editor = LineEditor::new();
    editor.set("sy");
    editor.move_left();
    editor.insert('a');
    editor.move_left();
    editor.delete();
    assert_eq!(editor.text(), "sy");
    assert_eq!(editor.cursor(), 1);
}

#[test]
fn inserting_moves_the_caret_by_the_character_length() {
    let mut e = LineEditor::new();
    e.insert('a');
    assert_eq!(e.cursor(), 1);
    e.insert('é');
    assert_eq!(e.cursor(), 3);
    e.insert('€');
    assert_eq!(e.cursor(), 6);
    e.move_left();
    e.insert('😀');
    assert_eq!(e.text(), "aé😀€");
    assert_eq!(e.cursor(), 7);
}

#[test]
fn replace_range_splices_bytes() {
    let mut e = LineEditor::new();
    e.set("héllo wörld");
    // Bytes 0..6 are "héllo"; replace them.
    e.replace_range(0, 6, "hi");
    assert_eq!(e.text(), "hi wörld");
    assert_eq!(e.cursor(), 2);
    e.replace_range(3, 100, "x");
    assert_eq!(e.text(), "hi x");
    assert_eq!(e.cursor(), 4);
}
