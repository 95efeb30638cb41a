//! Console state and how it reacts to the operator's keys.
//!
//! The terminal, the clock and the server stay with the host: it hands this
//! state key presses (with the current time in milliseconds) and sends the
//! returned inputs on to the server. Completion answers come from a
//! [`Completer`] the host supplies; since those are the host's, the contracts
//! here hold for whatever answers it gives (`ans` below).

use std::collections::VecDeque;
use vstd::prelude::*;

use crate::backend::{
    level_at, level_label, searchable_text, severity, ConsoleInput, Level, LogRecord, PlayerInfo,
};
use crate::completion::{
    cviews, kind_insertable, opt_view, spec_common_prefix, CView, Completer, CompletionRequest,
    Completions, request_ok,
};
use crate::history::{pushed, History, HistoryState};
use crate::input::{
    ed_backspace, ed_delete, ed_insert, ed_remove, ed_replace, replace_bounds, word_end,
    word_start, EditorState, LineEditor,
};
use crate::text::{
    at_boundary, blen, byte_len, char_offset, chars_within, chars_of, contains, contains_seq,
    has_prefix, lowercase, slice, starts_with, string_of, to_lowercase, trim, trimmed, extend,
    char_len, copy_str,
};

verus! {

// ---------------------------------------------------------------- config --

/// Knobs a host can turn without reimplementing the console.
#[derive(Clone, Debug)]
pub struct ConsoleConfig {
    /// Shown in the header; usually the server brand.
    pub title: String,
    /// How many log records to keep in memory.
    pub scrollback: usize,
    /// How many command lines to remember.
    pub history_limit: usize,
    /// Where to persist command history, if anywhere.
    pub history_file: Option<String>,
    /// Redraw/poll interval in milliseconds.
    pub tick_ms: u64,
    /// Start with the player sidebar visible.
    pub show_players: bool,
    /// Records below this level are hidden (F4 cycles it).
    pub min_level: Level,
    /// Let the mouse wheel scroll the log.
    pub mouse: bool,
    /// Echo submitted commands into the log pane.
    pub echo_commands: bool,
    /// The prompt marker drawn before the input line.
    pub prompt: String,
}

impl Default for ConsoleConfig {
    fn default() -> (r: ConsoleConfig)
        ensures
            r.title@ == "Pumpkin"@,
            r.scrollback == 5000,
            r.history_limit == 500,
            r.history_file is None,
            r.tick_ms == 50,
            r.show_players,
            r.min_level == Level::Info,
            r.mouse,
            r.echo_commands,
            r.prompt@ == "\u{276f}"@,
    {
        ConsoleConfig {
            title: copy_str("Pumpkin"),
            scrollback: 5000,
            history_limit: 500,
            history_file: None,
            tick_ms: 50,
            show_players: true,
            min_level: Level::Info,
            mouse: true,
            echo_commands: true,
            prompt: copy_str("\u{276f}"),
        }
    }
}

/// Which overlay, if any, is grabbing input.
#[derive(Clone, Copy, PartialEq, Eq, Structural, Debug)]
pub enum Mode {
    Normal,
    Search,
    Help,
    ConfirmQuit,
}

/// The completion popup and the inline hint.
#[derive(Debug)]
pub struct CompletionState {
    pub open: bool,
    pub items: Completions,
    pub selected: usize,
    /// Remainder of the best candidate, drawn dimmed after the caret.
    pub hint: Option<String>,
}

impl Default for CompletionState {
    fn default() -> (r: CompletionState)
        ensures
            !r.open,
            r.items.start == 0,
            r.items.items@.len() == 0,
            r.selected == 0,
            r.hint is None,
    {
        CompletionState { open: false, items: Completions::default(), selected: 0, hint: None }
    }
}

// ---------------------------------------------------------------- keys --

/// A key, as the terminal reports it.
#[derive(Clone, Copy, PartialEq, Eq, Structural, Debug)]
pub enum KeyCode {
    Char(char),
    F(u8),
    Enter,
    Esc,
    Tab,
    BackTab,
    Backspace,
    Delete,
    Left,
    Right,
    Up,
    Down,
    Home,
    End,
    PageUp,
    PageDown,
    Other,
}

/// A key press with its modifiers.
#[derive(Clone, Copy, PartialEq, Eq, Structural, Debug)]
pub struct Key {
    pub code: KeyCode,
    pub ctrl: bool,
    pub shift: bool,
    pub alt: bool,
}

impl Key {
    /// The key with no modifier.
    pub fn plain(code: KeyCode) -> (r: Key)
        ensures
            r == (Key { code, ctrl: false, shift: false, alt: false }),
    {
        Key { code, ctrl: false, shift: false, alt: false }
    }

    /// The key with Ctrl held.
    pub fn ctrl(code: KeyCode) -> (r: Key)
        ensures
            r == (Key { code, ctrl: true, shift: false, alt: false }),
    {
        Key { code, ctrl: true, shift: false, alt: false }
    }
}

/// What the terminal reported, as far as the console cares.
#[derive(Clone, Copy, PartialEq, Eq, Structural, Debug)]
pub enum TerminalEvent {
    /// A key press or repeat (releases are not reported).
    Key(Key),
    ScrollUp,
    ScrollDown,
    Other,
}

// ---------------------------------------------------------------- views --

/// A completion answer as plain values: the replacement start and the candidates.
pub type CsView = (nat, Seq<CView>);

pub open spec fn cs_view(c: Completions) -> CsView {
    (c.start as nat, cviews(c.items@))
}

/// The completion popup as plain values.
pub struct CompletionView {
    pub open: bool,
    pub start: nat,
    pub items: Seq<CView>,
    pub selected: nat,
    pub hint: Option<Seq<char>>,
}

/// A log record as plain values: level, time, target, message.
pub type RecordView = (Level, Seq<char>, Option<Seq<char>>, Seq<char>);

pub open spec fn record_view(r: LogRecord) -> RecordView {
    (r.level, r.time@, opt_view(r.target), r.message@)
}

pub open spec fn record_views(rs: Seq<LogRecord>) -> Seq<RecordView> {
    rs.map_values(|r: LogRecord| record_view(r))
}

/// Operator input as plain values: `Some(command)` or `None` for quit.
pub open spec fn input_view(i: ConsoleInput) -> Option<Seq<char>> {
    match i {
        ConsoleInput::Command(c) => Some(c@),
        ConsoleInput::Quit => None,
    }
}

pub open spec fn input_views(v: Seq<ConsoleInput>) -> Seq<Option<Seq<char>>> {
    v.map_values(|i: ConsoleInput| input_view(i))
}

/// The console's state as plain values.
pub struct AppView {
    pub editor: EditorState,
    pub search: EditorState,
    pub history: HistoryState,
    pub history_limit: nat,
    pub completion: CompletionView,
    pub mode: Mode,
    pub min_level: Level,
    pub scroll: nat,
    pub show_players: bool,
    pub should_quit: bool,
    pub notice: Option<(Seq<char>, u64)>,
    pub records: Seq<RecordView>,
    pub scrollback: nat,
    pub echo: bool,
    pub log_height: nat,
    /// Every completion query so far, oldest first: the line, the caret's
    /// byte offset, and the answer.
    pub asked: Seq<(Seq<char>, nat, CsView)>,
}

// ---------------------------------------------------------------- transitions --

/// Byte offset of the caret.
pub open spec fn caret_bytes(e: EditorState) -> int {
    blen(e.0.take(e.1 as int)) as int
}

/// Where the word the hint extends starts: the answer's start, clamped to
/// the caret.
pub open spec fn hint_start(e: EditorState, c: CsView) -> int {
    if c.0 < caret_bytes(e) {
        c.0 as int
    } else {
        caret_bytes(e)
    }
}

/// The inline hint for an editor state and a completion answer: when the caret
/// is at the end, the first insertable candidate longer (in bytes) than the
/// typed word (from the answer's start, clamped to the line, to the caret)
/// offers its remainder, if it starts with the word. A start that is not a
/// character boundary gives none.
pub open spec fn spec_hint(e: EditorState, c: CsView) -> Option<Seq<char>> {
    let start = hint_start(e, c);
    if e.1 != e.0.len() {
        None
    } else if !at_boundary(e.0, start) {
        None
    } else {
        let word = e.0.subrange(chars_within(e.0, start) as int, e.1 as int);
        match first_longer(c.1, blen(word)) {
            None => None,
            Some(k) => if has_prefix(c.1[k].0, word) {
                Some(c.1[k].0.skip(word.len() as int))
            } else {
                None
            },
        }
    }
}

/// Whether a candidate is insertable and longer than `n` bytes.
pub open spec fn longer_insertable(c: CView, n: nat) -> bool {
    kind_insertable(c.2) && blen(c.0) > n
}

/// Index of the first insertable candidate whose text is longer than `n` bytes.
pub open spec fn first_longer(items: Seq<CView>, n: nat) -> Option<int> {
    if exists|k: int| 0 <= k < items.len() && #[trigger] longer_insertable(items[k], n) {
        Some(
            choose|k: int|
                0 <= k < items.len() && #[trigger] longer_insertable(items[k], n) && (forall|j: int|
                    0 <= j < k ==> !longer_insertable(items[j], n)),
        )
    } else {
        None
    }
}

proof fn lemma_first_longer_at(items: Seq<CView>, n: nat, k: int)
    requires
        0 <= k < items.len(),
        longer_insertable(items[k], n),
        forall|j: int| 0 <= j < k ==> !longer_insertable(items[j], n),
    ensures
        first_longer(items, n) == Some(k),
{
    let f = choose|x: int|
        0 <= x < items.len() && #[trigger] longer_insertable(items[x], n) && (forall|j: int|
            0 <= j < x ==> !longer_insertable(items[j], n));
    assert(0 <= f < items.len() && longer_insertable(items[f], n) && (forall|j: int|
        0 <= j < f ==> !longer_insertable(items[j], n)));
    if f < k {
        assert(!longer_insertable(items[f], n));
    } else if f > k {
        assert(!longer_insertable(items[k], n));
    }
}

proof fn lemma_first_longer_exists(items: Seq<CView>, n: nat, w: int)
    requires
        0 <= w < items.len(),
        longer_insertable(items[w], n),
    ensures
        exists|k: int|
            0 <= k < items.len() && #[trigger] longer_insertable(items[k], n) && (forall|j: int|
                0 <= j < k ==> !longer_insertable(items[j], n)),
    decreases w,
{
    if exists|j: int| 0 <= j < w && #[trigger] longer_insertable(items[j], n) {
        let j = choose|j: int| 0 <= j < w && #[trigger] longer_insertable(items[j], n);
        lemma_first_longer_exists(items, n, j);
    } else {
        assert(forall|j: int| 0 <= j < w ==> !longer_insertable(items[j], n));
    }
}

proof fn lemma_first_longer_none(items: Seq<CView>, n: nat)
    requires
        forall|j: int| 0 <= j < items.len() ==> !longer_insertable(items[j], n),
    ensures
        first_longer(items, n) is None,
{
}

/// The popup after asking the completer again and getting `c`.
pub open spec fn refreshed(e: EditorState, c: CsView, keep_open: bool) -> CompletionView {
    CompletionView {
        open: keep_open && c.1.len() > 0,
        start: c.0,
        items: c.1,
        selected: 0,
        hint: spec_hint(e, c),
    }
}

/// Ask the completer about the line and caret, get `c`, refresh the popup.
pub open spec fn refresh(v: AppView, c: CsView, keep_open: bool) -> AppView {
    AppView {
        completion: refreshed(v.editor, c, keep_open),
        asked: v.asked.push((v.editor.0, caret_bytes(v.editor) as nat, c)),
        ..v
    }
}

pub open spec fn notify(v: AppView, text: Seq<char>, now: u64) -> AppView {
    AppView { notice: Some((text, now)), ..v }
}

/// Scroll towards older lines, never past `usize::MAX / 2`.
pub open spec fn scroll_up(v: AppView, amount: nat) -> AppView {
    let s = v.scroll + amount;
    AppView {
        scroll: if s < usize::MAX / 2 {
            s
        } else {
            (usize::MAX / 2) as nat
        },
        ..v
    }
}

/// Scroll towards the newest line, stopping at it.
pub open spec fn scroll_down(v: AppView, amount: nat) -> AppView {
    AppView {
        scroll: if v.scroll > amount {
            (v.scroll - amount) as nat
        } else {
            0
        },
        ..v
    }
}

/// Move the popup selection by `delta`, wrapping around.
pub open spec fn move_sel(v: AppView, delta: int) -> AppView {
    let count = v.completion.items.len();
    if count == 0 {
        v
    } else {
        AppView {
            completion: CompletionView {
                selected: ((v.completion.selected + delta) % (count as int)) as nat,
                ..v.completion
            },
            ..v
        }
    }
}

/// An edit whose result fits: insert `t` at the caret.
pub open spec fn ed_insert_g(e: EditorState, t: Seq<char>) -> EditorState {
    if blen(e.0) + blen(t) <= usize::MAX {
        ed_insert(e, t)
    } else {
        e
    }
}

/// The whole line replaced by `t`, caret at its end.
pub open spec fn ed_set(t: Seq<char>) -> EditorState {
    (t, t.len())
}

/// A completion's replacement of `[start, end)` by `t` can be made: both
/// clamped ends are character boundaries and the result fits.
pub open spec fn replace_ok(e: EditorState, start: int, end: int, t: Seq<char>) -> bool {
    &&& at_boundary(e.0, replace_bounds(e, start, end).0)
    &&& at_boundary(e.0, replace_bounds(e, start, end).1)
    &&& blen(ed_replace(e, start, end, t).0) <= usize::MAX
}

/// After an edit: browsing stops and the completion is refreshed, keeping the
/// popup open if it was.
pub open spec fn after_edit(v: AppView, c: CsView) -> AppView {
    refresh(
        AppView { history: (v.history.0, None, v.history.2), ..v },
        c,
        v.completion.open,
    )
}

/// Edit the line, then refresh.
pub open spec fn edit(v: AppView, e: EditorState, c: CsView) -> AppView {
    after_edit(AppView { editor: e, ..v }, c)
}

/// Accept candidate `idx`: placeholders just close the popup; otherwise the
/// word is replaced by the candidate, a space follows when the caret is at the
/// end, and the completion is refreshed with the popup closed.
pub open spec fn accept_index(v: AppView, idx: int, ans: Seq<CsView>) -> AppView {
    if !(0 <= idx < v.completion.items.len()) {
        v
    } else if !kind_insertable(v.completion.items[idx].2) {
        AppView { completion: CompletionView { open: false, ..v.completion }, ..v }
    } else {
        let value = v.completion.items[idx].0;
        let start = v.completion.start as int;
        let cur = caret_bytes(v.editor);
        let e1 = if replace_ok(v.editor, start, cur, value) {
            ed_replace(v.editor, start, cur, value)
        } else {
            v.editor
        };
        let e2 = if e1.1 == e1.0.len() {
            ed_insert_g(e1, seq![' '])
        } else {
            e1
        };
        refresh(AppView { editor: e2, ..v }, ans[0], false)
    }
}

pub open spec fn count_insertable(items: Seq<CView>) -> nat
    decreases items.len(),
{
    if items.len() == 0 {
        0
    } else {
        count_insertable(items.drop_last()) + if kind_insertable(items.last().2) {
            1nat
        } else {
            0nat
        }
    }
}

/// Index of the first insertable candidate (0 when there is none).
pub open spec fn first_insertable(items: Seq<CView>) -> int {
    if exists|k: int| 0 <= k < items.len() && kind_insertable(items[k].2) {
        choose|k: int|
            0 <= k < items.len() && kind_insertable(items[k].2) && (forall|j: int|
                0 <= j < k ==> !kind_insertable(items[j].2))
    } else {
        0
    }
}

/// Tab: with the popup open, select the next candidate. Otherwise ask again;
/// with no insertable candidate say what is expected, with one accept it,
/// with several fill in their common prefix (when it is longer than the typed
/// word) and open the popup.
pub open spec fn complete_forward(v: AppView, now: u64, ans: Seq<CsView>) -> AppView {
    if v.completion.open {
        move_sel(v, 1)
    } else {
        let c = ans[0];
        let v1 = refresh(v, c, false);
        let n = count_insertable(c.1);
        if n == 0 {
            if c.1.len() > 0 {
                notify(v1, "expects "@ + c.1[0].0, now)
            } else {
                v1
            }
        } else if n == 1 {
            accept_index(v1, first_insertable(c.1), ans.skip(1))
        } else {
            let start = c.0 as int;
            let cur = caret_bytes(v1.editor);
            let typed = if cur > start {
                cur - start
            } else {
                0
            };
            let v2 = match spec_common_prefix(c.1) {
                Some(p) => if blen(p) > typed && replace_ok(v1.editor, start, cur, p) {
                    let e = ed_replace(v1.editor, start, cur, p);
                    refresh(AppView { editor: e, ..v1 }, ans[1], false)
                } else {
                    v1
                },
                None => v1,
            };
            AppView {
                completion: CompletionView { open: v2.completion.items.len() > 0, ..v2.completion },
                ..v2
            }
        }
    }
}

/// Shift+Tab: select the previous candidate, opening the popup first if needed.
pub open spec fn complete_backward(v: AppView, ans: Seq<CsView>) -> AppView {
    if v.completion.open {
        move_sel(v, -1)
    } else {
        let v1 = refresh(v, ans[0], true);
        if v1.completion.open {
            move_sel(v1, -1)
        } else {
            v1
        }
    }
}

/// Drop leading slashes.
pub open spec fn strip_slashes(s: Seq<char>) -> Seq<char>
    decreases s.len(),
{
    if s.len() > 0 && s[0] == '/' {
        strip_slashes(s.drop_first())
    } else {
        s
    }
}

/// The records after appending `r`; the oldest drops off at the scrollback.
pub open spec fn records_pushed(rs: Seq<RecordView>, scrollback: nat, r: RecordView) -> Seq<RecordView> {
    if rs.len() >= scrollback && rs.len() > 0 {
        rs.drop_first().push(r)
    } else {
        rs.push(r)
    }
}

/// Index of the newest record with a timestamp, if any.
pub open spec fn last_stamped(rs: Seq<RecordView>) -> Option<int>
    decreases rs.len(),
{
    if rs.len() == 0 {
        None
    } else if rs.last().1.len() > 0 {
        Some(rs.len() - 1)
    } else {
        last_stamped(rs.drop_last())
    }
}

/// The echo's time column: as many spaces as the newest stamp has characters.
pub open spec fn echo_pad(rs: Seq<RecordView>) -> Seq<char> {
    match last_stamped(rs) {
        Some(k) => Seq::new(rs[k].1.len(), |i: int| ' '),
        None => Seq::empty(),
    }
}

pub open spec fn closed_popup() -> CompletionView {
    CompletionView { open: false, start: 0, items: Seq::empty(), selected: 0, hint: None }
}

/// Enter: with the popup open, accept the selected candidate. Otherwise take
/// the line; a line that is empty once trimmed and stripped of leading `/`s
/// sends nothing; a command is recorded in the history (trimmed), echoed when
/// configured, the log follows its tail again, and the command is sent.
pub open spec fn submit(v: AppView, ans: Seq<CsView>) -> (AppView, Seq<Option<Seq<char>>>) {
    if v.completion.open {
        (accept_index(v, v.completion.selected as int, ans), Seq::empty())
    } else {
        let line = v.editor.0;
        let command = strip_slashes(trimmed(line));
        let v1 = AppView { editor: (Seq::empty(), 0), completion: closed_popup(), ..v };
        if command.len() == 0 {
            (v1, Seq::empty())
        } else {
            let h = (pushed(v.history.0, v.history_limit, trimmed(line)), None, v.history.2);
            let v2 = AppView { history: h, ..v1 };
            let v3 = if v.echo {
                AppView {
                    records: records_pushed(
                        v.records,
                        v.scrollback,
                        (Level::Info, echo_pad(v.records), Some("console"@), "> "@ + command),
                    ),
                    ..v2
                }
            } else {
                v2
            };
            (AppView { scroll: 0, ..v3 }, seq![Some(command)])
        }
    }
}

/// F4: show the next louder level and above.
pub open spec fn cycle_level(v: AppView, now: u64) -> AppView {
    let next = level_at(((severity(v.min_level) + 1) % 5) as nat);
    notify(
        AppView { min_level: next, scroll: 0, ..v },
        "showing "@ + trimmed(level_label(next)) + " and above"@,
        now,
    )
}

/// Lines a page scroll moves: the pane height less one, at least one.
pub open spec fn page_size(v: AppView) -> nat {
    if v.log_height <= 1 {
        1
    } else {
        (v.log_height - 1) as nat
    }
}

/// Right/End at the end of the line with a hint: take the hint.
pub open spec fn take_hint(v: AppView, ans: Seq<CsView>) -> AppView {
    edit(v, ed_insert_g(v.editor, v.completion.hint->0), ans[0])
}

/// A character key in normal mode.
pub open spec fn char_key(v: AppView, key: Key, ch: char, ans: Seq<CsView>) -> (
    AppView,
    Seq<Option<Seq<char>>>,
) {
    let e = v.editor;
    let none = Seq::<Option<Seq<char>>>::empty();
    if key.ctrl && ch == 'c' {
        if e.0.len() == 0 {
            (AppView { mode: Mode::ConfirmQuit, ..v }, none)
        } else {
            (refresh(AppView { editor: (Seq::empty(), 0), ..v }, ans[0], false), none)
        }
    } else if key.ctrl && ch == 'd' && e.0.len() == 0 {
        (AppView { mode: Mode::ConfirmQuit, ..v }, none)
    } else if key.ctrl && ch == 'l' {
        (AppView { records: Seq::empty(), scroll: 0, ..v }, none)
    } else if key.ctrl && ch == 'a' {
        (AppView { editor: (e.0, 0), ..v }, none)
    } else if key.ctrl && ch == 'e' {
        (AppView { editor: (e.0, e.0.len()), ..v }, none)
    } else if key.ctrl && ch == 'u' {
        (edit(v, ed_remove(e, 0, e.1, 0), ans[0]), none)
    } else if key.ctrl && ch == 'k' {
        (edit(v, (e.0.take(e.1 as int), e.1), ans[0]), none)
    } else if key.ctrl && ch == 'w' {
        (edit(v, ed_remove(e, word_start(e.0, e.1), e.1, word_start(e.0, e.1)), ans[0]), none)
    } else if !key.ctrl && !key.alt {
        (edit(v, ed_insert_g(e, seq![ch]), ans[0]), none)
    } else {
        (v, none)
    }
}

/// A function key in normal mode: F1 help, F2 sidebar, F3 search, F4 level,
/// F5 follow the tail.
pub open spec fn f_key(v: AppView, n: u8, now: u64) -> AppView {
    if n == 1 {
        AppView { mode: Mode::Help, ..v }
    } else if n == 2 {
        AppView { show_players: !v.show_players, ..v }
    } else if n == 3 {
        AppView { mode: Mode::Search, ..v }
    } else if n == 4 {
        cycle_level(v, now)
    } else if n == 5 {
        notify(AppView { scroll: 0, ..v }, "following log tail"@, now)
    } else {
        v
    }
}

/// Up in normal mode: Shift scrolls, the open popup moves its selection,
/// otherwise the line is replaced by the previous history entry.
pub open spec fn up_key(v: AppView, key: Key, ans: Seq<CsView>) -> AppView {
    if key.shift {
        scroll_up(v, 1)
    } else if v.completion.open {
        move_sel(v, -1)
    } else {
        let (h, r) = crate::history::spec_older(v.history, v.editor.0);
        match r {
            Some(entry) => refresh(
                AppView { history: h, editor: ed_set(entry), ..v },
                ans[0],
                false,
            ),
            None => AppView { history: h, ..v },
        }
    }
}

/// Down in normal mode: Shift scrolls, the open popup moves its selection,
/// otherwise the line is replaced by the next history entry (or the draft).
pub open spec fn down_key(v: AppView, key: Key, ans: Seq<CsView>) -> AppView {
    if key.shift {
        scroll_down(v, 1)
    } else if v.completion.open {
        move_sel(v, 1)
    } else {
        let (h, r) = crate::history::spec_newer(v.history);
        match r {
            Some(entry) => refresh(
                AppView { history: h, editor: ed_set(entry), ..v },
                ans[0],
                false,
            ),
            None => AppView { history: h, ..v },
        }
    }
}

/// A key in normal mode: the new state and what is sent to the server.
pub open spec fn normal_key(v: AppView, key: Key, now: u64, ans: Seq<CsView>) -> (
    AppView,
    Seq<Option<Seq<char>>>,
) {
    let e = v.editor;
    let none = Seq::<Option<Seq<char>>>::empty();
    let at_end_hint = e.1 == e.0.len() && v.completion.hint is Some;
    match key.code {
        KeyCode::Char(ch) => char_key(v, key, ch, ans),
        KeyCode::F(n) => (f_key(v, n, now), none),
        KeyCode::PageUp => (scroll_up(v, page_size(v)), none),
        KeyCode::PageDown => (scroll_down(v, page_size(v)), none),
        KeyCode::Up => (up_key(v, key, ans), none),
        KeyCode::Down => (down_key(v, key, ans), none),
        KeyCode::Home => if key.ctrl {
            (scroll_up(v, (usize::MAX / 2) as nat), none)
        } else {
            (AppView { editor: (e.0, 0), ..v }, none)
        },
        KeyCode::End => if key.ctrl {
            (AppView { scroll: 0, ..v }, none)
        } else if at_end_hint {
            (take_hint(v, ans), none)
        } else {
            (AppView { editor: (e.0, e.0.len()), ..v }, none)
        },
        KeyCode::Tab => (complete_forward(v, now, ans), none),
        KeyCode::BackTab => (complete_backward(v, ans), none),
        KeyCode::Esc => if v.completion.open {
            (AppView { completion: CompletionView { open: false, ..v.completion }, ..v }, none)
        } else {
            (AppView { notice: None, ..v }, none)
        },
        KeyCode::Enter => submit(v, ans),
        KeyCode::Backspace => (edit(v, ed_backspace(e), ans[0]), none),
        KeyCode::Delete => (edit(v, ed_delete(e), ans[0]), none),
        KeyCode::Left => if key.ctrl {
            (AppView { editor: (e.0, word_start(e.0, e.1)), ..v }, none)
        } else {
            (AppView { editor: (e.0, if e.1 > 0 { (e.1 - 1) as nat } else { e.1 }), ..v }, none)
        },
        KeyCode::Right => if key.ctrl {
            (AppView { editor: (e.0, word_end(e.0, e.1)), ..v }, none)
        } else if at_end_hint {
            (take_hint(v, ans), none)
        } else {
            (
                AppView {
                    editor: (e.0, if e.1 < e.0.len() {
                        e.1 + 1
                    } else {
                        e.1
                    }),
                    ..v
                },
                none,
            )
        },
        KeyCode::Other => (v, none),
    }
}

/// A key while the search box has focus: editing keys edit the query, Esc
/// clears it, Enter keeps it; either way the log follows its tail again.
pub open spec fn search_key(v: AppView, key: Key) -> AppView {
    let s = v.search;
    let v1 = match key.code {
        KeyCode::Esc => AppView { search: (Seq::empty(), 0), mode: Mode::Normal, ..v },
        KeyCode::Enter => AppView { mode: Mode::Normal, ..v },
        KeyCode::Backspace => AppView { search: ed_backspace(s), ..v },
        KeyCode::Delete => AppView { search: ed_delete(s), ..v },
        KeyCode::Left => AppView {
            search: (s.0, if s.1 > 0 {
                (s.1 - 1) as nat
            } else {
                s.1
            }),
            ..v
        },
        KeyCode::Right => AppView {
            search: (s.0, if s.1 < s.0.len() {
                s.1 + 1
            } else {
                s.1
            }),
            ..v
        },
        KeyCode::Home => AppView { search: (s.0, 0), ..v },
        KeyCode::End => AppView { search: (s.0, s.0.len()), ..v },
        KeyCode::Char(ch) => if key.ctrl && ch == 'u' {
            AppView { search: ed_remove(s, 0, s.1, 0), ..v }
        } else if key.ctrl && ch == 'w' {
            AppView { search: ed_remove(s, word_start(s.0, s.1), s.1, word_start(s.0, s.1)), ..v }
        } else if !key.ctrl {
            AppView { search: ed_insert_g(s, seq![ch]), ..v }
        } else {
            v
        },
        _ => v,
    };
    AppView { scroll: 0, ..v1 }
}

/// A key while the quit confirmation is up: y, Y or Enter quits (and tells the
/// server); anything else goes back.
pub open spec fn confirm_key(v: AppView, key: Key) -> (AppView, Seq<Option<Seq<char>>>) {
    let yes = match key.code {
        KeyCode::Char(ch) => ch == 'y' || ch == 'Y',
        KeyCode::Enter => true,
        _ => false,
    };
    if yes {
        (AppView { should_quit: true, ..v }, seq![None])
    } else {
        (AppView { mode: Mode::Normal, ..v }, Seq::empty())
    }
}

/// A key in whatever mode the console is in.
pub open spec fn any_key(v: AppView, key: Key, now: u64, ans: Seq<CsView>) -> (
    AppView,
    Seq<Option<Seq<char>>>,
) {
    match v.mode {
        Mode::Help => (AppView { mode: Mode::Normal, ..v }, Seq::empty()),
        Mode::ConfirmQuit => confirm_key(v, key),
        Mode::Search => (search_key(v, key), Seq::empty()),
        Mode::Normal => normal_key(v, key, now, ans),
    }
}

/// A terminal event: keys as above; the wheel scrolls three lines (at most a
/// pane's height).
pub open spec fn on_event(v: AppView, event: TerminalEvent, now: u64, ans: Seq<CsView>) -> (
    AppView,
    Seq<Option<Seq<char>>>,
) {
    let page: nat = if v.log_height < 1 {
        1
    } else {
        v.log_height
    };
    let step: nat = if page < 3 {
        page
    } else {
        3
    };
    match event {
        TerminalEvent::Key(k) => any_key(v, k, now, ans),
        TerminalEvent::ScrollUp => (scroll_up(v, step), Seq::empty()),
        TerminalEvent::ScrollDown => (scroll_down(v, step), Seq::empty()),
        TerminalEvent::Other => (v, Seq::empty()),
    }
}

/// Whether a record passes the level filter and the (lowercased) search query.
pub open spec fn record_visible(r: LogRecord, min: Level, query: Seq<char>) -> bool {
    &&& severity(r.level) >= severity(min)
    &&& (query.len() == 0 || contains_seq(lowercase(searchable_text(r)), query))
}

pub open spec fn visible_filter(rs: Seq<LogRecord>, min: Level, query: Seq<char>) -> Seq<LogRecord>
    decreases rs.len(),
{
    if rs.len() == 0 {
        Seq::empty()
    } else {
        let rest = visible_filter(rs.drop_last(), min, query);
        if record_visible(rs.last(), min, query) {
            rest.push(rs.last())
        } else {
            rest
        }
    }
}

// ---------------------------------------------------------------- laws --

/// Ctrl+C on a non-empty line clears it and stays put; Ctrl+C on the empty
/// line asks to quit; answering `y` then quits and tells the server. None of
/// the first two sends anything.
pub proof fn law_ctrl_c_clears_then_asks_to_quit(
    v: AppView,
    now: u64,
    a1: Seq<CsView>,
    a2: Seq<CsView>,
)
    requires
        v.editor.0.len() > 0,
    ensures
        ({
            let ctrl_c = Key { code: KeyCode::Char('c'), ctrl: true, shift: false, alt: false };
            let yes = Key { code: KeyCode::Char('y'), ctrl: false, shift: false, alt: false };
            let (v1, s1) = normal_key(v, ctrl_c, now, a1);
            let (v2, s2) = normal_key(v1, ctrl_c, now, a2);
            let (v3, s3) = confirm_key(v2, yes);
            &&& v1.editor.0.len() == 0
            &&& v1.mode == v.mode
            &&& s1.len() == 0
            &&& v2.mode == Mode::ConfirmQuit
            &&& s2.len() == 0
            &&& v3.should_quit
            &&& s3 == seq![None::<Seq<char>>]
        }),
{
}

/// While the quit confirmation is up, `y`, `Y` or Enter quits and tells the
/// server; any other key goes back to the normal mode and sends nothing.
pub proof fn law_confirm_quits_only_on_yes(v: AppView, key: Key)
    ensures
        ({
            let yes = match key.code {
                KeyCode::Char(ch) => ch == 'y' || ch == 'Y',
                KeyCode::Enter => true,
                _ => false,
            };
            let (v1, sent) = confirm_key(v, key);
            &&& yes ==> v1.should_quit && sent == seq![None::<Seq<char>>]
            &&& !yes ==> v1.mode == Mode::Normal && sent.len() == 0 && v1.should_quit
                == v.should_quit
        }),
{
}

proof fn lemma_strip_slashes(s: Seq<char>)
    ensures
        strip_slashes(s).len() <= s.len(),
        strip_slashes(s).len() > 0 ==> strip_slashes(s)[0] != '/',
        strip_slashes(s).len() > 0 ==> s.len() > 0,
    decreases s.len(),
{
    if s.len() > 0 && s[0] == '/' {
        lemma_strip_slashes(s.drop_first());
    }
}

/// Enter with the popup open accepts the selected candidate and sends
/// nothing; the history and the log stay as they were. Enter with the popup
/// closed takes the line: the input is emptied and the popup closed. The
/// command sent is the trimmed line without its leading slashes, never empty
/// and never starting with `/`; a line that leaves nothing sends nothing. A
/// sent command's trimmed line becomes the newest history entry, browsing
/// stops, and the log follows its tail again.
pub proof fn law_submit_takes_the_line(v: AppView, ans: Seq<CsView>)
    requires
        v.history_limit >= 1,
    ensures
        ({
            let (v1, sent) = submit(v, ans);
            v.completion.open ==> {
                &&& sent.len() == 0
                &&& v1 == accept_index(v, v.completion.selected as int, ans)
                &&& v1.history == v.history
                &&& v1.records == v.records
            }
        }),
        ({
            let command = strip_slashes(trimmed(v.editor.0));
            let (v1, sent) = submit(v, ans);
            !v.completion.open ==> {
                &&& v1.editor == (Seq::<char>::empty(), 0nat)
                &&& !v1.completion.open
                &&& command.len() == 0 ==> sent.len() == 0 && v1.history == v.history
                &&& command.len() > 0 ==> {
                    &&& sent == seq![Some(command)]
                    &&& command[0] != '/'
                    &&& v1.scroll == 0
                    &&& v1.history.0.last() == trimmed(v.editor.0)
                    &&& v1.history.1 is None
                }
            }
        }),
{
    let line = v.editor.0;
    let command = strip_slashes(trimmed(line));
    lemma_strip_slashes(trimmed(line));
    if command.len() > 0 {
        let t = trimmed(line);
        let es = v.history.0;
        crate::text::lemma_trimmed_idem(line);
        if !(es.len() > 0 && es.last() == t) {
            let p = es.push(t);
            if p.len() > v.history_limit {
                assert(p.skip(p.len() - v.history_limit).last() == t);
            }
        }
    }
}

/// A placeholder is guidance only: accepting one never touches the line, and
/// Tab with nothing insertable on offer leaves the line as it was.
pub proof fn law_placeholders_are_never_inserted(v: AppView, idx: int, now: u64, ans: Seq<CsView>)
    ensures
        0 <= idx < v.completion.items.len() && !kind_insertable(v.completion.items[idx].2)
            ==> accept_index(v, idx, ans).editor == v.editor,
        !v.completion.open && count_insertable(ans[0].1) == 0 ==> complete_forward(
            v,
            now,
            ans,
        ).editor == v.editor,
{
}

/// Every key in the search box leaves the input line, the history and the log
/// alone, and makes the log follow its tail again.
pub proof fn law_search_keys_follow_the_tail(v: AppView, key: Key)
    ensures
        search_key(v, key).scroll == 0,
        search_key(v, key).editor == v.editor,
        search_key(v, key).history == v.history,
        search_key(v, key).records == v.records,
{
}

/// Scrolling up never goes past half the address space, scrolling down stops
/// at the newest line, and scrolling down undoes scrolling up by as much.
pub proof fn law_scroll_down_undoes_scroll_up(v: AppView, amount: nat)
    ensures
        scroll_up(v, amount).scroll <= usize::MAX / 2,
        scroll_down(v, amount).scroll <= v.scroll,
        v.scroll + amount <= usize::MAX / 2 ==> scroll_down(scroll_up(v, amount), amount) == v,
{
}

/// Appending a record keeps the log within its scrollback (at least the new
/// record is kept), puts the record last, and only ever drops the oldest.
pub proof fn law_records_stay_within_scrollback(rs: Seq<RecordView>, scrollback: nat, r: RecordView)
    requires
        rs.len() <= scrollback || rs.len() <= 1,
    ensures
        records_pushed(rs, scrollback, r).len() <= scrollback || records_pushed(
            rs,
            scrollback,
            r,
        ).len() == 1,
        records_pushed(rs, scrollback, r).last() == r,
        records_pushed(rs, scrollback, r).drop_last() == rs || records_pushed(
            rs,
            scrollback,
            r,
        ).drop_last() == rs.drop_first(),
{
    let p = records_pushed(rs, scrollback, r);
    if rs.len() >= scrollback && rs.len() > 0 {
        assert(p.drop_last() =~= rs.drop_first());
    } else {
        assert(p.drop_last() =~= rs);
    }
}

/// The visible records are exactly the records that pass the level filter and
/// the search query, in their order.
pub proof fn law_visible_records_are_the_passing_ones(
    rs: Seq<LogRecord>,
    min: Level,
    query: Seq<char>,
)
    ensures
        visible_filter(rs, min, query) == rs.filter(|r: LogRecord| record_visible(r, min, query)),
        forall|i: int|
            0 <= i < visible_filter(rs, min, query).len() ==> record_visible(
                #[trigger] visible_filter(rs, min, query)[i],
                min,
                query,
            ),
        forall|i: int|
            0 <= i < rs.len() && record_visible(rs[i], min, query) ==> visible_filter(
                rs,
                min,
                query,
            ).contains(#[trigger] rs[i]),
    decreases rs.len(),
{
    let pred = |r: LogRecord| record_visible(r, min, query);
    reveal(Seq::filter);
    if rs.len() > 0 {
        law_visible_records_are_the_passing_ones(rs.drop_last(), min, query);
    }
    assert(visible_filter(rs, min, query) == rs.filter(pred));
    broadcast use vstd::seq_lib::group_filter_ensures;
    assert forall|i: int| 0 <= i < rs.filter(pred).len() implies record_visible(
        #[trigger] rs.filter(pred)[i],
        min,
        query,
    ) by {
        rs.lemma_filter_pred(pred, i);
    }
    assert forall|i: int| 0 <= i < rs.len() && record_visible(rs[i], min, query) implies rs.filter(
        pred,
    ).contains(#[trigger] rs[i]) by {
        rs.lemma_filter_contains(pred, i);
    }
}

/// A hint is only offered with the caret at the end of the line, is never
/// empty, and is what an insertable candidate adds to the typed word: the
/// word followed by the hint is that candidate.
pub proof fn law_hint_completes_the_word(e: EditorState, c: CsView)
    ensures
        spec_hint(e, c) matches Some(h) ==> {
            &&& e.1 == e.0.len()
            &&& h.len() > 0
            &&& exists|k: int|
                0 <= k < c.1.len() && kind_insertable(c.1[k].2) && #[trigger] c.1[k].0
                    == e.0.subrange(chars_within(e.0, hint_start(e, c)) as int, e.1 as int) + h
        },
{
    if let Some(h) = spec_hint(e, c) {
        let word = e.0.subrange(chars_within(e.0, hint_start(e, c)) as int, e.1 as int);
        let k = first_longer(c.1, blen(word))->0;
        assert(first_longer(c.1, blen(word)) is Some);
        assert(exists|x: int| 0 <= x < c.1.len() && #[trigger] longer_insertable(c.1[x], blen(word)));
        let x = choose|x: int|
            0 <= x < c.1.len() && #[trigger] longer_insertable(c.1[x], blen(word)) && (forall|j: int|
                0 <= j < x ==> !longer_insertable(c.1[j], blen(word)));
        let w = choose|x: int| 0 <= x < c.1.len() && #[trigger] longer_insertable(c.1[x], blen(word));
        lemma_first_longer_exists(c.1, blen(word), w);
        assert(k == x);
        assert(0 <= k < c.1.len() && longer_insertable(c.1[k], blen(word)));
        let val = c.1[k].0;
        assert(has_prefix(val, word));
        assert(h == val.skip(word.len() as int));
        assert(val =~= word + h);
        if val.len() == word.len() {
            assert(val =~= word);
        }
        assert(kind_insertable(c.1[k].2) && c.1[k].0 == word + h);
    }
}

/// Taking the hint with the caret at the end of the line appends it.
pub proof fn law_taking_the_hint_appends_it(v: AppView, ans: Seq<CsView>)
    requires
        v.completion.hint is Some,
        v.editor.1 == v.editor.0.len(),
        blen(v.editor.0) + blen(v.completion.hint->0) <= usize::MAX,
    ensures
        take_hint(v, ans).editor.0 == v.editor.0 + v.completion.hint->0,
        take_hint(v, ans).editor.1 == take_hint(v, ans).editor.0.len(),
{
    let e = v.editor;
    let h = v.completion.hint->0;
    assert(e.0.take(e.1 as int) + h + e.0.skip(e.1 as int) =~= e.0 + h);
}

/// Up then Down on a fresh line brings back exactly the line that was being
/// typed (caret at its end) and leaves browsing, the entries untouched.
pub proof fn law_up_then_down_restores_the_line(
    v: AppView,
    now: u64,
    a1: Seq<CsView>,
    a2: Seq<CsView>,
)
    requires
        !v.completion.open,
        v.history.1 is None,
        v.history.0.len() > 0,
    ensures
        ({
            let up = Key { code: KeyCode::Up, ctrl: false, shift: false, alt: false };
            let down = Key { code: KeyCode::Down, ctrl: false, shift: false, alt: false };
            let v2 = normal_key(normal_key(v, up, now, a1).0, down, now, a2).0;
            &&& v2.editor == (v.editor.0, v.editor.0.len())
            &&& v2.history.0 == v.history.0
            &&& v2.history.1 is None
        }),
{
}

/// F4 steps through the five levels and comes back after five presses.
pub proof fn law_level_cycle_returns(v: AppView, now: u64)
    ensures
        cycle_level(cycle_level(cycle_level(cycle_level(cycle_level(v, now), now), now), now), now).min_level
            == v.min_level,
        cycle_level(v, now).min_level != v.min_level,
        cycle_level(v, now).scroll == 0,
{
}

/// Moving the popup selection keeps it on one of the candidates.
pub proof fn law_selection_stays_in_range(v: AppView, delta: int)
    requires
        v.completion.items.len() > 0,
    ensures
        move_sel(v, delta).completion.selected < v.completion.items.len(),
        move_sel(v, delta).completion.items == v.completion.items,
{
}

// ---------------------------------------------------------------- state --

/// How many tick-time samples the header's chart keeps.
pub const MSPT_SAMPLES: usize = 120;

/// The samples after recording `sample`; the oldest drops off when full.
pub open spec fn samples_pushed(s: Seq<u64>, sample: u64) -> Seq<u64> {
    if s.len() >= MSPT_SAMPLES {
        s.drop_first().push(sample)
    } else {
        s.push(sample)
    }
}

/// What the server hands the console between frames, as the console uses it.
pub enum ServerEvent {
    /// A log record for the log pane.
    Log(LogRecord),
    /// The players now online.
    Players(Vec<PlayerInfo>),
    /// A new status report's milliseconds per tick, rounded (negative as zero).
    Tick(u64),
    /// The server is going away; the console should close.
    Close,
}

/// The console's state.
pub struct App<C: Completer> {
    pub config: ConsoleConfig,
    /// Log records, oldest first; at most `scrollback` of them (at least one
    /// once any was pushed).
    pub records: VecDeque<LogRecord>,
    pub players: Vec<PlayerInfo>,
    /// Recent milliseconds-per-tick samples, oldest first, at most
    /// [`MSPT_SAMPLES`] of them.
    pub mspt_samples: VecDeque<u64>,
    pub editor: LineEditor,
    pub history: History,
    pub completer: C,
    pub completion: CompletionState,
    pub search: LineEditor,
    pub mode: Mode,
    pub min_level: Level,
    /// Rendered lines between the newest record and the bottom of the pane;
    /// zero means "following the tail".
    pub scroll: usize,
    pub show_players: bool,
    pub should_quit: bool,
    /// A notice for the footer and the time (ms) it was posted.
    pub notice: Option<(String, u64)>,
    /// Height of the log pane, recorded by the renderer.
    pub log_height: u16,
    /// Every completion query so far (see [`AppView::asked`]).
    pub asked: Ghost<Seq<(Seq<char>, nat, CsView)>>,
}

impl<C: Completer> App<C> {
    /// Every answer recorded is one the completer may give for its query.
    pub open spec fn answered(&self) -> bool {
        forall|i: int|
            0 <= i < self.asked@.len() ==> self.completer.answers(
                #[trigger] self.asked@[i].0,
                self.asked@[i].1,
                self.asked@[i].2,
            )
    }
}

/// The parts a key never changes.
pub open spec fn same_frame<C: Completer>(a: &App<C>, b: &App<C>) -> bool {
    &&& a.config == b.config
    &&& a.players == b.players
    &&& a.mspt_samples == b.mspt_samples
    &&& a.completer == b.completer
}

/// Whether `t` can be added to a line of `len` bytes.
fn fits(len: usize, t: &Vec<char>) -> (r: bool)
    ensures
        r == (len + blen(t@) <= usize::MAX),
{
    let room = usize::MAX - len;
    match crate::text::byte_len_within(t, room) {
        Some(_) => true,
        None => false,
    }
}

/// Whether `replace_range(start, end, t)` can be made on `e`.
fn replace_fits(e: &LineEditor, start: usize, end: usize, t: &Vec<char>) -> (r: bool)
    ensures
        r == replace_ok(e@, start as int, end as int, t@),
{
    let ok = e.state_ok();
    let cs = chars_of(e.text());
    let len = byte_len(&cs);
    let s = if start < len {
        start
    } else {
        len
    };
    let e0 = if end < s {
        s
    } else {
        end
    };
    let en = if e0 < len {
        e0
    } else {
        len
    };
    let si = char_offset(&cs, s);
    let ei = char_offset(&cs, en);
    proof {
        crate::text::lemma_chars_within(cs@, s as int);
        crate::text::lemma_chars_within(cs@, en as int);
    }
    let sb = crate::text::byte_offset(&cs, si);
    let eb = crate::text::byte_offset(&cs, ei);
    if sb != s || eb != en {
        return false;
    }
    proof {
        crate::text::lemma_at_boundary_index(cs@, s as int);
        crate::text::lemma_at_boundary_index(cs@, en as int);
        if ei < si {
            crate::text::lemma_blen_take_strict(cs@, ei as int, si as int);
        }
        crate::text::lemma_blen_split(cs@, ei as int);
        let head = cs@.take(si as int);
        let tail = cs@.skip(ei as int);
        crate::text::lemma_blen_concat(head + t@, tail);
        crate::text::lemma_blen_concat(head, t@);
    }
    let kept = sb + (len - eb);
    fits(kept, t)
}

impl<C: Completer> App<C> {
    /// The state as plain values.
    pub open spec fn view(&self) -> AppView {
        AppView {
            editor: self.editor@,
            search: self.search@,
            history: self.history.state(),
            history_limit: self.history.limit(),
            completion: CompletionView {
                open: self.completion.open,
                start: self.completion.items.start as nat,
                items: cviews(self.completion.items.items@),
                selected: self.completion.selected as nat,
                hint: opt_view(self.completion.hint),
            },
            mode: self.mode,
            min_level: self.min_level,
            scroll: self.scroll as nat,
            show_players: self.show_players,
            should_quit: self.should_quit,
            notice: match self.notice {
                Some(n) => Some((n.0@, n.1)),
                None => None,
            },
            records: record_views(self.records@),
            scrollback: self.config.scrollback as nat,
            echo: self.config.echo_commands,
            log_height: self.log_height as nat,
            asked: self.asked@,
        }
    }

    /// A fresh console over `completer`.
    pub fn new(config: ConsoleConfig, completer: C) -> (r: App<C>)
        ensures
            r.config == config,
            r.completer == completer,
            r.view() == (AppView {
                editor: (Seq::empty(), 0),
                search: (Seq::empty(), 0),
                history: (Seq::empty(), None, Seq::empty()),
                history_limit: if config.history_limit < 1 {
                    1
                } else {
                    config.history_limit as nat
                },
                completion: closed_popup(),
                mode: Mode::Normal,
                min_level: config.min_level,
                scroll: 0,
                show_players: config.show_players,
                should_quit: false,
                notice: None,
                records: Seq::empty(),
                scrollback: config.scrollback as nat,
                echo: config.echo_commands,
                log_height: 0,
                asked: Seq::empty(),
            }),
            r.answered(),
            r.players@.len() == 0,
            r.mspt_samples@.len() == 0,
    {
        let history = History::new(config.history_limit);
        let min_level = config.min_level;
        let show_players = config.show_players;
        let r = App {
            config,
            records: VecDeque::new(),
            players: Vec::new(),
            mspt_samples: VecDeque::new(),
            editor: LineEditor::new(),
            history,
            completer,
            completion: CompletionState::default(),
            search: LineEditor::new(),
            mode: Mode::Normal,
            min_level,
            scroll: 0,
            show_players,
            should_quit: false,
            notice: None,
            log_height: 0,
            asked: Ghost(Seq::empty()),
        };
        proof {
            assert(cviews(r.completion.items.items@) =~= Seq::<CView>::empty());
            assert(record_views(r.records@) =~= Seq::<RecordView>::empty());
            assert(r.editor@.0 =~= Seq::<char>::empty());
            assert(r.search@.0 =~= Seq::<char>::empty());
            assert(r.history.state().0 =~= Seq::<Seq<char>>::empty());
            assert(r.history.state().2 =~= Seq::<char>::empty());
        }
        r
    }

    /// Append a record; the oldest drops off once the scrollback is full.
    pub fn push_record(&mut self, record: LogRecord)
        ensures
            final(self).view() == (AppView {
                records: records_pushed(
                    old(self).view().records,
                    old(self).view().scrollback,
                    record_view(record),
                ),
                ..old(self).view()
            }),
            same_frame(&*final(self), &*old(self)),
    {
        let ghost rv = record_view(record);
        if self.records.len() >= self.config.scrollback && self.records.len() > 0 {
            let _ = self.records.pop_front();
        }
        self.records.push_back(record);
        proof {
            let o = record_views(old(self).records@);
            if old(self).records@.len() >= old(self).config.scrollback && old(self).records@.len()
                > 0 {
                assert(record_views(self.records@) =~= o.drop_first().push(rv));
            } else {
                assert(record_views(self.records@) =~= o.push(rv));
            }
        }
    }

    /// Record a tick-time sample for the header's chart.
    pub fn record_mspt(&mut self, sample: u64)
        ensures
            final(self).mspt_samples@ == samples_pushed(old(self).mspt_samples@, sample),
            final(self).view() == old(self).view(),
            final(self).config == old(self).config,
            final(self).players == old(self).players,
            final(self).completer == old(self).completer,
    {
        if self.mspt_samples.len() >= MSPT_SAMPLES {
            let _ = self.mspt_samples.pop_front();
        }
        self.mspt_samples.push_back(sample);
        proof {
            let o = old(self).mspt_samples@;
            if o.len() >= MSPT_SAMPLES {
                assert(self.mspt_samples@ =~= o.drop_first().push(sample));
            }
        }
    }

    /// Take in what the server sent: a record goes to the log, the player list
    /// is replaced, a tick sample goes to the chart, and a close ends the console.
    pub fn on_server_event(&mut self, event: ServerEvent)
        ensures
            match event {
                ServerEvent::Log(r) => final(self).view() == (AppView {
                    records: records_pushed(
                        old(self).view().records,
                        old(self).view().scrollback,
                        record_view(r),
                    ),
                    ..old(self).view()
                }) && final(self).players == old(self).players
                    && final(self).mspt_samples == old(self).mspt_samples,
                ServerEvent::Players(p) => final(self).view() == old(self).view()
                    && final(self).players == p && final(self).mspt_samples
                    == old(self).mspt_samples,
                ServerEvent::Tick(t) => final(self).view() == old(self).view()
                    && final(self).players == old(self).players && final(self).mspt_samples@
                    == samples_pushed(old(self).mspt_samples@, t),
                ServerEvent::Close => final(self).view() == (AppView {
                    should_quit: true,
                    ..old(self).view()
                }) && final(self).players == old(self).players
                    && final(self).mspt_samples == old(self).mspt_samples,
            },
            final(self).config == old(self).config,
            final(self).completer == old(self).completer,
    {
        match event {
            ServerEvent::Log(r) => self.push_record(r),
            ServerEvent::Players(p) => self.players = p,
            ServerEvent::Tick(t) => self.record_mspt(t),
            ServerEvent::Close => self.should_quit = true,
        }
    }

    /// Records passing the level filter and the (case-insensitive) search query.
    pub fn visible_records(&self) -> (r: Vec<&LogRecord>)
        ensures
            r@.map_values(|x: &LogRecord| *x) == visible_filter(
                self.records@,
                self.min_level,
                lowercase(self.search@.0),
            ),
    {
        let q = to_lowercase(self.search.text());
        let query = chars_of(q.as_str());
        let min = self.min_level.severity();
        let mut out: Vec<&LogRecord> = Vec::new();
        let mut i: usize = 0;
        assert(self.records@.take(0) =~= Seq::<LogRecord>::empty());
        while i < self.records.len()
            invariant
                i <= self.records@.len(),
                query@ == lowercase(self.search@.0),
                min == severity(self.min_level),
                out@.map_values(|x: &LogRecord| *x) == visible_filter(
                    self.records@.take(i as int),
                    self.min_level,
                    query@,
                ),
            decreases self.records@.len() - i,
        {
            let record = &self.records[i];
            proof {
                assert(self.records@.take(i + 1).drop_last() =~= self.records@.take(i as int));
                assert(self.records@.take(i + 1).last() == self.records@[i as int]);
            }
            let mut keep = record.level.severity() >= min;
            if keep && query.len() > 0 {
                let text = record.searchable();
                let low = to_lowercase(text.as_str());
                let hay = chars_of(low.as_str());
                keep = contains(&hay, &query);
            }
            let ghost before = out@;
            if keep {
                out.push(record);
                proof {
                    assert(out@.map_values(|x: &LogRecord| *x) =~= before.map_values(
                        |x: &LogRecord| *x,
                    ).push(*record));
                }
            }
            i += 1;
        }
        proof {
            assert(self.records@.take(self.records@.len() as int) =~= self.records@);
        }
        out
    }

    /// Whether the log follows its newest line.
    pub fn is_following(&self) -> (r: bool)
        ensures
            r == (self.scroll == 0),
    {
        self.scroll == 0
    }

    /// Show `message` in the footer, stamped `now` (ms).
    pub fn notify(&mut self, message: &str, now: u64)
        ensures
            final(self).view() == notify(old(self).view(), message@, now),
            same_frame(&*final(self), &*old(self)),
    {
        self.notice = Some((copy_str(message), now));
    }

    /// The footer notice, for four seconds after it was posted.
    pub fn notice_text(&self, now: u64) -> (r: Option<&str>)
        ensures
            match self.notice {
                Some(n) => if (if now >= n.1 {
                    now - n.1
                } else {
                    0
                }) < 4000 {
                    r matches Some(t) && t@ == n.0@
                } else {
                    r is None
                },
                None => r is None,
            },
    {
        match &self.notice {
            Some((text, at)) => {
                let elapsed = if now >= *at {
                    now - *at
                } else {
                    0
                };
                if elapsed < 4000 {
                    Some(text.as_str())
                } else {
                    None
                }
            },
            None => None,
        }
    }

    /// Ask the completer for the current line and refresh popup and hint.
    fn refresh_completions(&mut self, keep_open: bool) -> (g: Ghost<CsView>)
        ensures
            old(self).answered() ==> final(self).answered(),
            final(self).view() == refresh(old(self).view(), g@, keep_open),
            same_frame(&*final(self), &*old(self)),
    {
        let ok = self.editor.state_ok();
        let line = copy_str(self.editor.text());
        let cursor = self.editor.cursor();
        proof {
            crate::text::lemma_blen_take_le(self.editor@.0, self.editor@.1 as int);
            crate::text::lemma_chars_within_of_take(self.editor@.0, self.editor@.1 as int);
        }
        let items = self.completer.complete(CompletionRequest { line: line.as_str(), cursor });
        let hint = hint_for(&self.editor, &items);
        let ghost c = cs_view(items);
        let open = keep_open && !items.is_empty();
        self.completion = CompletionState { open, items, selected: 0, hint };
        proof {
            self.asked@ = self.asked@.push((line@, cursor as nat, c));
        }
        Ghost(c)
    }

    fn after_edit(&mut self) -> (g: Ghost<CsView>)
        ensures
            old(self).answered() ==> final(self).answered(),
            final(self).view() == after_edit(old(self).view(), g@),
            same_frame(&*final(self), &*old(self)),
    {
        self.history.reset();
        let keep = self.completion.open;
        self.refresh_completions(keep)
    }

    fn insert_char(&mut self, c: char)
        ensures
            final(self).view() == (AppView {
                editor: ed_insert_g(old(self).view().editor, seq![c]),
                ..old(self).view()
            }),
            same_frame(&*final(self), &*old(self)),
    {
        let ok = self.editor.state_ok();
        let cs = chars_of(self.editor.text());
        let len = byte_len(&cs);
        let mut t: Vec<char> = Vec::new();
        t.push(c);
        proof {
            assert(t@ =~= seq![c]);
            crate::text::lemma_blen_single(c);
        }
        if fits(len, &t) {
            self.editor.insert(c);
        }
    }

    fn insert_text(&mut self, text: &str)
        ensures
            final(self).view() == (AppView {
                editor: ed_insert_g(old(self).view().editor, text@),
                ..old(self).view()
            }),
            same_frame(&*final(self), &*old(self)),
    {
        let ok = self.editor.state_ok();
        let cs = chars_of(self.editor.text());
        let len = byte_len(&cs);
        let t = chars_of(text);
        if fits(len, &t) {
            self.editor.insert_str(text);
        }
    }

    fn set_line(&mut self, text: &str)
        ensures
            final(self).view() == (AppView {
                editor: ed_set(text@),
                ..old(self).view()
            }),
            same_frame(&*final(self), &*old(self)),
    {
        self.editor.set(text);
    }

    fn move_selection(&mut self, forward: bool)
        ensures
            final(self).view() == move_sel(old(self).view(), if forward {
                1int
            } else {
                -1int
            }),
            same_frame(&*final(self), &*old(self)),
    {
        let count = self.completion.items.items.len();
        if count == 0 {
            return;
        }
        let s = self.completion.selected % count;
        let next = if forward {
            if s + 1 == count {
                0
            } else {
                s + 1
            }
        } else {
            if s == 0 {
                count - 1
            } else {
                s - 1
            }
        };
        proof {
            let sel = self.completion.selected as int;
            let n = count as int;
            let d: int = if forward {
                1
            } else {
                -1
            };
            let q = sel / n;
            vstd::arithmetic::div_mod::lemma_fundamental_div_mod(sel, n);
            assert(sel + d == n * q + ((s as int) + d));
            vstd::arithmetic::div_mod::lemma_mod_multiples_vanish(q, (s as int) + d, n);
            if forward {
                if s + 1 == count {
                    vstd::arithmetic::div_mod::lemma_mod_self_0(n);
                } else {
                    vstd::arithmetic::div_mod::lemma_small_mod((s + 1) as nat, n as nat);
                }
            } else {
                if s == 0 {
                    vstd::arithmetic::div_mod::lemma_mod_add_multiples_vanish(-1, n);
                    vstd::arithmetic::div_mod::lemma_small_mod((n - 1) as nat, n as nat);
                } else {
                    vstd::arithmetic::div_mod::lemma_small_mod((s - 1) as nat, n as nat);
                }
            }
        }
        self.completion.selected = next;
    }

    fn scroll_up(&mut self, amount: usize)
        ensures
            final(self).view() == scroll_up(old(self).view(), amount as nat),
            same_frame(&*final(self), &*old(self)),
    {
        let limit = usize::MAX / 2;
        self.scroll = if self.scroll >= limit || amount >= limit - self.scroll {
            limit
        } else {
            self.scroll + amount
        };
    }

    fn scroll_down(&mut self, amount: usize)
        ensures
            final(self).view() == scroll_down(old(self).view(), amount as nat),
            same_frame(&*final(self), &*old(self)),
    {
        self.scroll = if self.scroll > amount {
            self.scroll - amount
        } else {
            0
        };
    }

    fn accept_index(&mut self, idx: usize) -> (g: Ghost<Seq<CsView>>)
        ensures
            old(self).answered() ==> final(self).answered(),
            final(self).view() == accept_index(old(self).view(), idx as int, g@),
            same_frame(&*final(self), &*old(self)),
    {
        if idx >= self.completion.items.items.len() {
            return Ghost(Seq::empty());
        }
        if !self.completion.items.items[idx].insertable() {
            self.completion.open = false;
            return Ghost(Seq::empty());
        }
        let value = copy_str(self.completion.items.items[idx].value.as_str());
        let t = chars_of(value.as_str());
        let start = self.completion.items.start;
        let cursor = self.editor.cursor();
        if replace_fits(&self.editor, start, cursor, &t) {
            self.editor.replace_range(start, cursor, value.as_str());
        }
        if self.editor.at_end() {
            self.insert_char(' ');
        }
        let g = self.refresh_completions(false);
        Ghost(Seq::empty().push(g@))
    }

    fn complete_forward(&mut self, now: u64) -> (g: Ghost<Seq<CsView>>)
        ensures
            old(self).answered() ==> final(self).answered(),
            final(self).view() == complete_forward(old(self).view(), now, g@),
            same_frame(&*final(self), &*old(self)),
    {
        if self.completion.open {
            self.move_selection(true);
            return Ghost(Seq::empty());
        }
        let g0 = self.refresh_completions(false);
        let ghost v1 = self.view();
        let count = count_insertable_exec(&self.completion.items.items);
        if count == 0 {
            if self.completion.items.items.len() > 0 {
                let first = chars_of(self.completion.items.items[0].value.as_str());
                let mut msg = chars_of("expects ");
                extend(&mut msg, &first);
                let text = string_of(&msg);
                self.notify(text.as_str(), now);
            }
            return Ghost(Seq::empty().push(g0@));
        }
        if count == 1 {
            let idx = first_insertable_exec(&self.completion.items.items);
            let g1 = self.accept_index(idx);
            proof {
                assert(Seq::<CsView>::empty().push(g0@).add(g1@).skip(1) =~= g1@);
            }
            return Ghost(Seq::empty().push(g0@).add(g1@));
        }
        let start = self.completion.items.start;
        let cursor = self.editor.cursor();
        let typed = if cursor > start {
            cursor - start
        } else {
            0
        };
        let mut ans: Ghost<Seq<CsView>> = Ghost(Seq::empty().push(g0@));
        match self.completion.items.common_prefix() {
            Some(prefix) => {
                let p = chars_of(prefix.as_str());
                let longer = match crate::text::byte_len_within(&p, typed) {
                    Some(_) => false,
                    None => true,
                };
                if longer && replace_fits(&self.editor, start, cursor, &p) {
                    self.editor.replace_range(start, cursor, prefix.as_str());
                    let g1 = self.refresh_completions(false);
                    ans = Ghost(Seq::empty().push(g0@).push(g1@));
                }
            },
            None => {},
        }
        self.completion.open = !self.completion.items.is_empty();
        ans
    }

    fn complete_backward(&mut self) -> (g: Ghost<Seq<CsView>>)
        ensures
            old(self).answered() ==> final(self).answered(),
            final(self).view() == complete_backward(old(self).view(), g@),
            same_frame(&*final(self), &*old(self)),
    {
        if self.completion.open {
            self.move_selection(false);
            Ghost(Seq::empty())
        } else {
            let g0 = self.refresh_completions(true);
            if self.completion.open {
                self.move_selection(false);
            }
            Ghost(Seq::empty().push(g0@))
        }
    }

    fn submit(&mut self) -> (r: (Vec<ConsoleInput>, Ghost<Seq<CsView>>))
        ensures
            old(self).answered() ==> final(self).answered(),
            (final(self).view(), input_views(r.0@)) == submit(old(self).view(), r.1@),
            same_frame(&*final(self), &*old(self)),
    {
        if self.completion.open {
            let sel = self.completion.selected;
            let g = self.accept_index(sel);
            let out: Vec<ConsoleInput> = Vec::new();
            proof {
                assert(input_views(out@) =~= Seq::<Option<Seq<char>>>::empty());
            }
            return (out, g);
        }
        let line = self.editor.take();
        proof {
            assert(self.editor@.0 =~= Seq::<char>::empty());
        }
        let lc = chars_of(line.as_str());
        let t = trim(&lc);
        let command = strip_slashes_exec(&t);
        self.completion = CompletionState::default();
        proof {
            assert(cviews(self.completion.items.items@) =~= Seq::<CView>::empty());
        }
        if command.len() == 0 {
            let out: Vec<ConsoleInput> = Vec::new();
            proof {
                assert(input_views(out@) =~= Seq::<Option<Seq<char>>>::empty());
            }
            return (out, Ghost(Seq::empty()));
        }
        let entry = string_of(&t);
        self.history.push(entry.as_str());
        if self.config.echo_commands {
            let pad = echo_pad_exec(&self.records);
            let mut msg = chars_of("> ");
            extend(&mut msg, &command);
            let text = string_of(&msg);
            proof {
                assert(text@ == "> "@ + command@);
            }
            let record = LogRecord::new(Level::Info, text.as_str()).with_time(pad.as_str()).with_target(
                "console",
            );
            self.push_record(record);
        }
        self.scroll = 0;
        let mut out: Vec<ConsoleInput> = Vec::new();
        out.push(ConsoleInput::Command(string_of(&command)));
        proof {
            assert(input_views(out@) =~= seq![Some(command@)]);
        }
        (out, Ghost(Seq::empty()))
    }

    fn cycle_level(&mut self, now: u64)
        ensures
            final(self).view() == cycle_level(old(self).view(), now),
            same_frame(&*final(self), &*old(self)),
    {
        let next = self.min_level.next();
        self.min_level = next;
        self.scroll = 0;
        let label = chars_of(next.label());
        let name = trim(&label);
        let mut msg = chars_of("showing ");
        extend(&mut msg, &name);
        let tail = chars_of(" and above");
        extend(&mut msg, &tail);
        let text = string_of(&msg);
        self.notify(text.as_str(), now);
    }

    fn take_hint(&mut self) -> (g: Ghost<Seq<CsView>>)
        requires
            old(self).completion.hint is Some,
        ensures
            old(self).answered() ==> final(self).answered(),
            final(self).view() == take_hint(old(self).view(), g@),
            same_frame(&*final(self), &*old(self)),
    {
        let hint = match &self.completion.hint {
            Some(h) => copy_str(h.as_str()),
            None => String::new(),
        };
        self.insert_text(hint.as_str());
        let g = self.after_edit();
        Ghost(Seq::empty().push(g@))
    }

    fn char_key_exec(&mut self, key: Key, ch: char) -> (g: Ghost<Seq<CsView>>)
        ensures
            old(self).answered() ==> final(self).answered(),
            final(self).view() == char_key(old(self).view(), key, ch, g@).0,
            same_frame(&*final(self), &*old(self)),
    {
        let no_ans: Ghost<Seq<CsView>> = Ghost(Seq::empty());
        let ok = self.editor.state_ok();
        if key.ctrl && ch == 'c' {
            if self.editor.is_empty() {
                self.mode = Mode::ConfirmQuit;
                no_ans
            } else {
                self.editor.clear();
                proof {
                    assert(self.editor@.0 =~= Seq::<char>::empty());
                }
                let g = self.refresh_completions(false);
                Ghost(Seq::empty().push(g@))
            }
        } else if key.ctrl && ch == 'd' && self.editor.is_empty() {
            self.mode = Mode::ConfirmQuit;
            no_ans
        } else if key.ctrl && ch == 'l' {
            self.records.clear();
            self.scroll = 0;
            proof {
                assert(record_views(self.records@) =~= Seq::<RecordView>::empty());
            }
            no_ans
        } else if key.ctrl && ch == 'a' {
            self.editor.move_home();
            no_ans
        } else if key.ctrl && ch == 'e' {
            self.editor.move_end();
            no_ans
        } else if key.ctrl && ch == 'u' {
            self.editor.kill_to_start();
            let g = self.after_edit();
            Ghost(Seq::empty().push(g@))
        } else if key.ctrl && ch == 'k' {
            self.editor.kill_to_end();
            let g = self.after_edit();
            Ghost(Seq::empty().push(g@))
        } else if key.ctrl && ch == 'w' {
            self.editor.delete_word_left();
            let g = self.after_edit();
            Ghost(Seq::empty().push(g@))
        } else if !key.ctrl && !key.alt {
            self.insert_char(ch);
            let g = self.after_edit();
            Ghost(Seq::empty().push(g@))
        } else {
            no_ans
        }
    }

    fn f_key_exec(&mut self, n: u8, now: u64)
        ensures
            final(self).view() == f_key(old(self).view(), n, now),
            same_frame(&*final(self), &*old(self)),
    {
        if n == 1 {
            self.mode = Mode::Help;
        } else if n == 2 {
            self.show_players = !self.show_players;
        } else if n == 3 {
            self.mode = Mode::Search;
        } else if n == 4 {
            self.cycle_level(now);
        } else if n == 5 {
            self.scroll = 0;
            self.notify("following log tail", now);
        }
    }

    fn up_key_exec(&mut self, key: Key) -> (g: Ghost<Seq<CsView>>)
        ensures
            old(self).answered() ==> final(self).answered(),
            final(self).view() == up_key(old(self).view(), key, g@),
            same_frame(&*final(self), &*old(self)),
    {
        let no_ans: Ghost<Seq<CsView>> = Ghost(Seq::empty());
        if key.shift {
            self.scroll_up(1);
            no_ans
        } else if self.completion.open {
            self.move_selection(false);
            no_ans
        } else {
            let current = copy_str(self.editor.text());
            let entry = match self.history.older(current.as_str()) {
                Some(e) => Some(copy_str(e)),
                None => None,
            };
            match entry {
                Some(e) => {
                    self.set_line(e.as_str());
                    let g = self.refresh_completions(false);
                    Ghost(Seq::empty().push(g@))
                },
                None => no_ans,
            }
        }
    }

    fn down_key_exec(&mut self, key: Key) -> (g: Ghost<Seq<CsView>>)
        ensures
            old(self).answered() ==> final(self).answered(),
            final(self).view() == down_key(old(self).view(), key, g@),
            same_frame(&*final(self), &*old(self)),
    {
        let no_ans: Ghost<Seq<CsView>> = Ghost(Seq::empty());
        if key.shift {
            self.scroll_down(1);
            no_ans
        } else if self.completion.open {
            self.move_selection(true);
            no_ans
        } else {
            let entry = match self.history.newer() {
                Some(e) => Some(copy_str(e)),
                None => None,
            };
            match entry {
                Some(e) => {
                    self.set_line(e.as_str());
                    let g = self.refresh_completions(false);
                    Ghost(Seq::empty().push(g@))
                },
                None => no_ans,
            }
        }
    }

    #[verifier::rlimit(80)]
    fn normal_key_core(&mut self, key: Key, now: u64) -> (r: (Vec<ConsoleInput>, Ghost<Seq<CsView>>))
        ensures
            old(self).answered() ==> final(self).answered(),
            (final(self).view(), input_views(r.0@)) == normal_key(old(self).view(), key, now, r.1@),
            same_frame(&*final(self), &*old(self)),
    {
        let none: Vec<ConsoleInput> = Vec::new();
        proof {
            assert(input_views(none@) =~= Seq::<Option<Seq<char>>>::empty());
        }
        let no_ans: Ghost<Seq<CsView>> = Ghost(Seq::empty());
        let ok = self.editor.state_ok();
        let at_end_hint = self.editor.at_end() && self.completion.hint.is_some();
        match key.code {
            KeyCode::Char(ch) => {
                let g = self.char_key_exec(key, ch);
                (none, g)
            },
            KeyCode::F(n) => {
                self.f_key_exec(n, now);
                (none, no_ans)
            },
            KeyCode::PageUp => {
                let page = page_size_exec(self.log_height);
                self.scroll_up(page);
                (none, no_ans)
            },
            KeyCode::PageDown => {
                let page = page_size_exec(self.log_height);
                self.scroll_down(page);
                (none, no_ans)
            },
            KeyCode::Up => {
                let g = self.up_key_exec(key);
                (none, g)
            },
            KeyCode::Down => {
                let g = self.down_key_exec(key);
                (none, g)
            },
            KeyCode::Home => {
                if key.ctrl {
                    self.scroll_up(usize::MAX / 2);
                } else {
                    self.editor.move_home();
                }
                (none, no_ans)
            },
            KeyCode::End => {
                if key.ctrl {
                    self.scroll = 0;
                    (none, no_ans)
                } else if at_end_hint {
                    let g = self.take_hint();
                    (none, g)
                } else {
                    self.editor.move_end();
                    (none, no_ans)
                }
            },
            KeyCode::Tab => {
                let g = self.complete_forward(now);
                (none, g)
            },
            KeyCode::BackTab => {
                let g = self.complete_backward();
                (none, g)
            },
            KeyCode::Esc => {
                if self.completion.open {
                    self.completion.open = false;
                } else {
                    self.notice = None;
                }
                (none, no_ans)
            },
            KeyCode::Enter => self.submit(),
            KeyCode::Backspace => {
                self.editor.backspace();
                let g = self.after_edit();
                (none, Ghost(Seq::empty().push(g@)))
            },
            KeyCode::Delete => {
                self.editor.delete();
                let g = self.after_edit();
                (none, Ghost(Seq::empty().push(g@)))
            },
            KeyCode::Left => {
                if key.ctrl {
                    self.editor.move_word_left();
                } else {
                    self.editor.move_left();
                }
                (none, no_ans)
            },
            KeyCode::Right => {
                if key.ctrl {
                    self.editor.move_word_right();
                    (none, no_ans)
                } else if at_end_hint {
                    let g = self.take_hint();
                    (none, g)
                } else {
                    self.editor.move_right();
                    (none, no_ans)
                }
            },
            KeyCode::Other => (none, no_ans),
        }
    }

    /// A key in normal mode. What the server is sent is returned.
    pub fn on_normal_key(&mut self, key: Key, now: u64) -> (r: Vec<ConsoleInput>)
        ensures
            old(self).answered() ==> final(self).answered(),
            exists|ans: Seq<CsView>|
                (final(self).view(), input_views(r@)) == #[trigger] normal_key(
                    old(self).view(),
                    key,
                    now,
                    ans,
                ),
            same_frame(&*final(self), &*old(self)),
    {
        let (r, g) = self.normal_key_core(key, now);
        r
    }

    /// A key while the search box has focus.
    pub fn on_search_key(&mut self, key: Key)
        ensures
            final(self).view() == search_key(old(self).view(), key),
            same_frame(&*final(self), &*old(self)),
    {
        match key.code {
            KeyCode::Esc => {
                self.search.clear();
                self.mode = Mode::Normal;
                proof {
                    assert(self.search@.0 =~= Seq::<char>::empty());
                }
            },
            KeyCode::Enter => {
                self.mode = Mode::Normal;
            },
            KeyCode::Backspace => self.search.backspace(),
            KeyCode::Delete => self.search.delete(),
            KeyCode::Left => self.search.move_left(),
            KeyCode::Right => self.search.move_right(),
            KeyCode::Home => self.search.move_home(),
            KeyCode::End => self.search.move_end(),
            KeyCode::Char(ch) => {
                if key.ctrl && ch == 'u' {
                    self.search.kill_to_start();
                } else if key.ctrl && ch == 'w' {
                    self.search.delete_word_left();
                } else if !key.ctrl {
                    let ok = self.search.state_ok();
                    let cs = chars_of(self.search.text());
                    let len = byte_len(&cs);
                    let mut t: Vec<char> = Vec::new();
                    t.push(ch);
                    proof {
                        assert(t@ =~= seq![ch]);
                        crate::text::lemma_blen_single(ch);
                    }
                    if fits(len, &t) {
                        self.search.insert(ch);
                    }
                }
            },
            _ => {},
        }
        self.scroll = 0;
    }

    /// A key while the quit confirmation is up.
    pub fn on_confirm_key(&mut self, key: Key) -> (r: Vec<ConsoleInput>)
        ensures
            (final(self).view(), input_views(r@)) == confirm_key(old(self).view(), key),
            same_frame(&*final(self), &*old(self)),
    {
        let yes = match key.code {
            KeyCode::Char(ch) => ch == 'y' || ch == 'Y',
            KeyCode::Enter => true,
            _ => false,
        };
        let mut out: Vec<ConsoleInput> = Vec::new();
        if yes {
            self.should_quit = true;
            out.push(ConsoleInput::Quit);
            proof {
                assert(input_views(out@) =~= seq![None::<Seq<char>>]);
            }
        } else {
            self.mode = Mode::Normal;
            proof {
                assert(input_views(out@) =~= Seq::<Option<Seq<char>>>::empty());
            }
        }
        out
    }

    /// A key in whatever mode the console is in.
    pub fn on_key(&mut self, key: Key, now: u64) -> (r: Vec<ConsoleInput>)
        ensures
            old(self).answered() ==> final(self).answered(),
            exists|ans: Seq<CsView>|
                (final(self).view(), input_views(r@)) == #[trigger] any_key(
                    old(self).view(),
                    key,
                    now,
                    ans,
                ),
            same_frame(&*final(self), &*old(self)),
    {
        let none: Vec<ConsoleInput> = Vec::new();
        proof {
            assert(input_views(none@) =~= Seq::<Option<Seq<char>>>::empty());
        }
        match self.mode {
            Mode::Help => {
                self.mode = Mode::Normal;
                proof {
                    assert(any_key(old(self).view(), key, now, Seq::empty()) == (
                        final(self).view(),
                        input_views(none@),
                    ));
                }
                none
            },
            Mode::ConfirmQuit => {
                let r = self.on_confirm_key(key);
                proof {
                    assert(any_key(old(self).view(), key, now, Seq::empty()) == (
                        final(self).view(),
                        input_views(r@),
                    ));
                }
                r
            },
            Mode::Search => {
                self.on_search_key(key);
                proof {
                    assert(any_key(old(self).view(), key, now, Seq::empty()) == (
                        final(self).view(),
                        input_views(none@),
                    ));
                }
                none
            },
            Mode::Normal => {
                let (r, g) = self.normal_key_core(key, now);
                proof {
                    assert(any_key(old(self).view(), key, now, g@) == (
                        final(self).view(),
                        input_views(r@),
                    ));
                }
                r
            },
        }
    }

    /// A terminal event. What the server is sent is returned.
    pub fn handle_event(&mut self, event: TerminalEvent, now: u64) -> (r: Vec<ConsoleInput>)
        ensures
            old(self).answered() ==> final(self).answered(),
            exists|ans: Seq<CsView>|
                (final(self).view(), input_views(r@)) == #[trigger] on_event(
                    old(self).view(),
                    event,
                    now,
                    ans,
                ),
            same_frame(&*final(self), &*old(self)),
    {
        let none: Vec<ConsoleInput> = Vec::new();
        proof {
            assert(input_views(none@) =~= Seq::<Option<Seq<char>>>::empty());
        }
        let page: usize = if self.log_height < 1 {
            1
        } else {
            self.log_height as usize
        };
        let step = if page < 3 {
            page
        } else {
            3
        };
        match event {
            TerminalEvent::Key(k) => {
                let r = self.on_key(k, now);
                proof {
                    let ans = choose|ans: Seq<CsView>|
                        (final(self).view(), input_views(r@)) == #[trigger] any_key(
                            old(self).view(),
                            k,
                            now,
                            ans,
                        );
                    assert(on_event(old(self).view(), event, now, ans) == (
                        final(self).view(),
                        input_views(r@),
                    ));
                }
                r
            },
            TerminalEvent::ScrollUp => {
                self.scroll_up(step);
                proof {
                    assert(on_event(old(self).view(), event, now, Seq::empty()) == (
                        final(self).view(),
                        input_views(none@),
                    ));
                }
                none
            },
            TerminalEvent::ScrollDown => {
                self.scroll_down(step);
                proof {
                    assert(on_event(old(self).view(), event, now, Seq::empty()) == (
                        final(self).view(),
                        input_views(none@),
                    ));
                }
                none
            },
            TerminalEvent::Other => {
                proof {
                    assert(on_event(old(self).view(), event, now, Seq::empty()) == (
                        final(self).view(),
                        input_views(none@),
                    ));
                }
                none
            },
        }
    }
}

/// Lines a page scroll moves.
fn page_size_exec(log_height: u16) -> (r: usize)
    ensures
        r as nat == (if log_height <= 1 {
            1nat
        } else {
            (log_height - 1) as nat
        }),
{
    if log_height <= 1 {
        1
    } else {
        (log_height - 1) as usize
    }
}

/// How many candidates are insertable.
fn count_insertable_exec(items: &Vec<crate::completion::Completion>) -> (r: usize)
    ensures
        r == count_insertable(cviews(items@)),
{
    let mut n: usize = 0;
    let mut i: usize = 0;
    assert(cviews(items@).take(0) =~= Seq::<CView>::empty());
    while i < items.len()
        invariant
            i <= items@.len(),
            n <= i,
            n == count_insertable(cviews(items@).take(i as int)),
        decreases items@.len() - i,
    {
        proof {
            let cs = cviews(items@);
            assert(cs.take(i + 1).drop_last() =~= cs.take(i as int));
            assert(cs.take(i + 1).last() == cs[i as int]);
        }
        if items[i].insertable() {
            n += 1;
        }
        i += 1;
    }
    assert(cviews(items@).take(items@.len() as int) =~= cviews(items@));
    n
}

/// Index of the first insertable candidate (0 when there is none).
fn first_insertable_exec(items: &Vec<crate::completion::Completion>) -> (r: usize)
    ensures
        r as int == first_insertable(cviews(items@)),
{
    let ghost cs = cviews(items@);
    let mut i: usize = 0;
    while i < items.len()
        invariant
            i <= items@.len(),
            cs == cviews(items@),
            forall|j: int| 0 <= j < i ==> !kind_insertable(cs[j].2),
        decreases items@.len() - i,
    {
        if items[i].insertable() {
            proof {
                let k = choose|k: int|
                    0 <= k < cs.len() && kind_insertable(cs[k].2) && (forall|j: int|
                        0 <= j < k ==> !kind_insertable(cs[j].2));
                assert(kind_insertable(cs[i as int].2));
                if k < i {
                } else if k > i {
                }
            }
            return i;
        }
        i += 1;
    }
    0
}

/// Drop leading slashes.
fn strip_slashes_exec(s: &Vec<char>) -> (r: Vec<char>)
    ensures
        r@ == strip_slashes(s@),
{
    let mut i: usize = 0;
    assert(s@.skip(0) =~= s@);
    while i < s.len() && s[i] == '/'
        invariant
            i <= s.len(),
            strip_slashes(s@) == strip_slashes(s@.skip(i as int)),
        decreases s.len() - i,
    {
        assert(s@.skip(i as int).drop_first() =~= s@.skip(i + 1));
        i += 1;
    }
    if i < s.len() {
        assert(s@.skip(i as int)[0] == s@[i as int]);
    }
    let r = slice(s, i, s.len());
    assert(r@ =~= s@.skip(i as int));
    r
}

/// Spaces as wide (in characters) as the newest timestamp.
fn echo_pad_exec(records: &VecDeque<LogRecord>) -> (r: String)
    ensures
        r@ == echo_pad(record_views(records@)),
{
    let ghost rv = record_views(records@);
    let mut k = records.len();
    assert(rv.take(k as int) =~= rv);
    while k > 0 && records[k - 1].time.as_str().is_empty()
        invariant
            k <= records@.len(),
            rv == record_views(records@),
            last_stamped(rv) == last_stamped(rv.take(k as int)),
        decreases k,
    {
        proof {
            assert(rv.take(k as int).drop_last() =~= rv.take(k - 1));
            assert(rv.take(k as int).last() == rv[k - 1]);
        }
        k -= 1;
    }
    let mut out: Vec<char> = Vec::new();
    if k > 0 {
        proof {
            assert(rv.take(k as int).last() == rv[k - 1]);
        }
        let time = chars_of(records[k - 1].time.as_str());
        let n = time.len();
        let mut i: usize = 0;
        while i < n
            invariant
                i <= n,
                out@ == Seq::new(i as nat, |j: int| ' '),
            decreases n - i,
        {
            out.push(' ');
            i += 1;
            proof {
                assert(out@ =~= Seq::new(i as nat, |j: int| ' '));
            }
        }
    } else {
        proof {
            assert(rv.take(0) =~= Seq::<RecordView>::empty());
            assert(out@ =~= Seq::<char>::empty());
        }
    }
    string_of(&out)
}

/// The inline hint for `editor` given the answer `c` (see [`spec_hint`]).
fn hint_for(editor: &LineEditor, c: &Completions) -> (r: Option<String>)
    ensures
        opt_view(r) == spec_hint(editor@, cs_view(*c)),
{
    let ok = editor.state_ok();
    if !editor.at_end() {
        return None;
    }
    let cs = chars_of(editor.text());
    let cur = editor.cursor();
    let start = if c.start < cur {
        c.start
    } else {
        cur
    };
    let si = char_offset(&cs, start);
    proof {
        crate::text::lemma_chars_within(cs@, start as int);
        crate::text::lemma_blen_take_le(cs@, si as int);
    }
    let sb = crate::text::byte_offset(&cs, si);
    if sb != start {
        return None;
    }
    let word = slice(&cs, si, cs.len());
    proof {
        crate::text::lemma_blen_split(cs@, si as int);
    }
    let wlen = byte_len(&word);
    match first_longer_exec(&c.items, wlen) {
        None => None,
        Some(k) => {
            let v = chars_of(c.items[k].value.as_str());
            if starts_with(&v, &word) {
                let rest = slice(&v, word.len(), v.len());
                proof {
                    assert(rest@ =~= v@.skip(word@.len() as int));
                }
                Some(string_of(&rest))
            } else {
                None
            }
        }
    }
}

/// Finds the first insertable candidate longer than `n` bytes.
fn first_longer_exec(items: &Vec<crate::completion::Completion>, n: usize) -> (r: Option<usize>)
    ensures
        match r {
            None => first_longer(cviews(items@), n as nat) is None,
            Some(k) => k < items@.len() && first_longer(cviews(items@), n as nat) == Some(k as int),
        },
{
    let ghost cv = cviews(items@);
    let mut k: usize = 0;
    while k < items.len()
        invariant
            k <= items@.len(),
            cv == cviews(items@),
            forall|j: int| 0 <= j < k ==> !longer_insertable(cv[j], n as nat),
        decreases items@.len() - k,
    {
        let v = chars_of(items[k].value.as_str());
        let longer = match crate::text::byte_len_within(&v, n) {
            Some(_) => false,
            None => true,
        };
        if items[k].insertable() && longer {
            proof {
                assert(longer_insertable(cv[k as int], n as nat));
                lemma_first_longer_at(cv, n as nat, k as int);
            }
            return Some(k);
        }
        assert(!longer_insertable(cv[k as int], n as nat));
        k += 1;
    }
    proof {
        lemma_first_longer_none(cv, n as nat);
    }
    None
}

} // verus!
