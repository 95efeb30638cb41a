//! Geometry of the console's panes: which wrapped log lines the log pane
//! shows, how a record is laid out, where the completion popup scrolls to,
//! and how search matches split a line. The host draws what these decide.

use vstd::prelude::*;

use crate::backend::LogRecord;
use crate::completion::Completion;
use crate::text::{at_boundary, blen, byte_prefix, char_offset, chars_of, extend, slice, string_of};
use crate::width::{display_width, str_width};
use crate::wrap::{
    find_matches, match_ranges, part_strings, range_views, spec_find_matches, spec_wrap, wrap,
};
use crate::text::occurs_at;

verus! {

// ---------------------------------------------------------------- log window --

/// Total of `s`.
pub open spec fn sum_lines(s: Seq<nat>) -> nat
    decreases s.len(),
{
    if s.len() == 0 {
        0
    } else {
        s[0] + sum_lines(s.drop_first())
    }
}

/// Counts as numbers.
pub open spec fn nats(s: Seq<usize>) -> Seq<nat> {
    s.map_values(|c: usize| c as nat)
}

/// Lines taken by the newest `k` records, given each record's line count
/// (oldest first).
pub open spec fn newest_lines(counts: Seq<nat>, k: nat) -> nat {
    sum_lines(counts.skip(counts.len() - k))
}

/// How many of the newest records the pane has to render: records are taken
/// newest first until their lines reach `needed`, or all of them.
pub open spec fn taken_from(counts: Seq<nat>, needed: nat, k: nat) -> nat
    decreases counts.len() - k,
{
    if k >= counts.len() {
        counts.len()
    } else if newest_lines(counts, k + 1) >= needed {
        k + 1
    } else {
        taken_from(counts, needed, k + 1)
    }
}

/// What the log pane shows of the visible records.
pub struct LogWindow {
    /// How many of the newest records are rendered.
    pub records: usize,
    /// How many lines those records wrap to.
    pub lines: usize,
    /// The scroll offset after clamping.
    pub scroll: usize,
    /// The rendered lines `[start, end)` are shown...
    pub start: usize,
    pub end: usize,
    /// ...below this many blank lines, so the newest line sits at the bottom.
    pub pad: usize,
}

/// The window as plain values: records, lines, scroll, start, end, pad.
pub type WindowView = (nat, nat, nat, nat, nat, nat);

/// The window onto records with these line counts (oldest first), scrolled
/// `scroll` lines up from the newest, in a pane `height` lines tall. Scrolling
/// past the oldest line pins the window to it.
pub open spec fn spec_log_window(counts: Seq<nat>, scroll: nat, height: nat) -> WindowView {
    let needed = if scroll + height > usize::MAX {
        usize::MAX as nat
    } else {
        scroll + height
    };
    let k = taken_from(counts, needed, 0);
    let lines = newest_lines(counts, k);
    let s: nat = if lines < needed {
        if lines > height {
            (lines - height) as nat
        } else {
            0
        }
    } else {
        scroll
    };
    let end: nat = if lines > s {
        (lines - s) as nat
    } else {
        0
    };
    let start: nat = if end > height {
        (end - height) as nat
    } else {
        0
    };
    (k, lines, s, start, end, (height - (end - start)) as nat)
}

pub open spec fn window_view(w: LogWindow) -> WindowView {
    (w.records as nat, w.lines as nat, w.scroll as nat, w.start as nat, w.end as nat, w.pad as nat)
}

proof fn lemma_newest_step(counts: Seq<nat>, k: nat)
    requires
        k < counts.len(),
    ensures
        newest_lines(counts, k + 1) == counts[counts.len() - 1 - k] + newest_lines(counts, k),
{
    let t = counts.skip(counts.len() - (k + 1));
    assert(t.drop_first() =~= counts.skip(counts.len() - k));
    assert(t[0] == counts[counts.len() - 1 - k]);
}

proof fn lemma_newest_le(counts: Seq<nat>, k: nat)
    requires
        k <= counts.len(),
    ensures
        newest_lines(counts, k) <= sum_lines(counts),
    decreases counts.len() - k,
{
    if k < counts.len() {
        lemma_newest_step(counts, k);
        lemma_newest_le(counts, k + 1);
    } else {
        assert(counts.skip(0) =~= counts);
    }
}

/// The window the log pane shows: records are rendered newest first until
/// they fill the scroll offset plus the pane (or run out), the offset is
/// clamped when it reaches past the oldest line, and the lines shown are
/// padded from the top so the newest sits just above the prompt.
pub fn log_window(counts: &[usize], scroll: usize, height: usize) -> (w: LogWindow)
    requires
        sum_lines(nats(counts@)) <= usize::MAX,
    ensures
        window_view(w) == spec_log_window(nats(counts@), scroll as nat, height as nat),
{
    let ghost cs = nats(counts@);
    let needed = scroll.saturating_add(height);
    let n = counts.len();
    let mut k: usize = 0;
    let mut lines: usize = 0;
    assert(cs.skip(n as int) =~= Seq::<nat>::empty());
    while k < n && (k == 0 || lines < needed)
        invariant
            n == counts@.len(),
            cs == nats(counts@),
            k <= n,
            lines == newest_lines(cs, k as nat),
            sum_lines(cs) <= usize::MAX,
            taken_from(cs, needed as nat, 0) == if k > 0 && lines >= needed {
                k as nat
            } else {
                taken_from(cs, needed as nat, k as nat)
            },
        decreases n - k,
    {
        proof {
            lemma_newest_step(cs, k as nat);
            lemma_newest_le(cs, (k + 1) as nat);
        }
        lines = lines + counts[n - 1 - k];
        k += 1;
    }
    window_of(k, lines, scroll, height)
}

/// The window once `k` records of `lines` lines are taken.
fn window_of(k: usize, lines: usize, scroll: usize, height: usize) -> (w: LogWindow)
    ensures
        ({
            let needed = if scroll + height > usize::MAX {
                usize::MAX as nat
            } else {
                (scroll + height) as nat
            };
            let s: nat = if lines < needed {
                if lines > height {
                    (lines - height) as nat
                } else {
                    0
                }
            } else {
                scroll as nat
            };
            let end: nat = if lines > s {
                (lines - s) as nat
            } else {
                0
            };
            let start: nat = if end > height {
                (end - height) as nat
            } else {
                0
            };
            window_view(w) == (k as nat, lines as nat, s, start, end, (height - (end - start)) as nat)
        }),
{
    let needed = scroll.saturating_add(height);
    let s = if lines < needed {
        lines.saturating_sub(height)
    } else {
        scroll
    };
    let end = lines.saturating_sub(s);
    let start = end.saturating_sub(height);
    let pad = height - (end - start);
    LogWindow { records: k, lines, scroll: s, start, end, pad }
}

/// Not scrolled, the newest line is the last one shown and the pane is full
/// from its bottom; the window never shows more than the pane holds nor lines
/// that were not rendered; scrolled past the oldest line, the window starts at
/// the oldest line.
pub proof fn law_newest_line_sits_at_the_bottom(counts: Seq<nat>, scroll: nat, height: nat)
    ensures
        ({
            let (k, lines, s, start, end, pad) = spec_log_window(counts, scroll, height);
            &&& start <= end <= lines
            &&& end - start <= height
            &&& pad + (end - start) == height
            &&& s == 0 ==> end == lines
            &&& s <= scroll
            &&& lines < scroll + height ==> start == 0
        }),
{
}

// ---------------------------------------------------------------- records --

/// Columns before a record's text: the timestamp and a space (when there is
/// one), the five-column level label and a space.
pub open spec fn gutter(time: Seq<char>) -> nat {
    if time.len() == 0 {
        6
    } else {
        (str_width(time) + 7) as nat
    }
}

/// Columns a record's text wraps to in a pane `width` columns wide: what the
/// gutter leaves, but at least eight.
pub open spec fn body_width(width: nat, gutter: nat) -> nat {
    if width > gutter + 8 {
        (width - gutter) as nat
    } else {
        8
    }
}

/// The `target: ` prefix of a record's text, if it has a target.
pub open spec fn target_prefix(r: LogRecord) -> Seq<char> {
    match r.target {
        Some(t) => t@ + ": "@,
        None => Seq::empty(),
    }
}

/// How a record is drawn.
pub struct RecordLayout {
    /// Columns before the text (later lines are indented by as much).
    pub gutter: usize,
    /// The record's text (`target: message`) wrapped to what the gutter leaves.
    pub lines: Vec<String>,
    /// Length in bytes of the `target: ` prefix the first line starts with,
    /// drawn dimmed; zero when there is no target or wrapping broke it.
    pub prefix: usize,
}

/// `l` is how `r` is drawn in a pane `width` columns wide: the gutter its
/// timestamp asks for, its text (`target: message`) wrapped to what the
/// gutter leaves, and the `target: ` prefix dimmed while the first line still
/// starts with it.
pub open spec fn laid_out(l: RecordLayout, r: LogRecord, width: nat) -> bool {
    &&& l.gutter == gutter(r.time@)
    &&& part_strings(l.lines@) == spec_wrap(
        target_prefix(r) + r.message@,
        body_width(width, gutter(r.time@)),
    )
    &&& l.prefix == if target_prefix(r).len() > 0 && crate::text::has_prefix(
        part_strings(l.lines@)[0],
        target_prefix(r),
    ) {
        blen(target_prefix(r))
    } else {
        0
    }
}

/// Lines `r` takes in a pane `width` columns wide.
pub open spec fn line_count(r: LogRecord, width: nat) -> nat {
    spec_wrap(target_prefix(r) + r.message@, body_width(width, gutter(r.time@))).len()
}

pub open spec fn line_counts(rs: Seq<&LogRecord>, width: nat) -> Seq<nat> {
    rs.map_values(|r: &LogRecord| line_count(*r, width))
}

/// Every record's text has a UTF-8 length that fits a `usize`.
pub open spec fn texts_fit(rs: Seq<&LogRecord>) -> bool {
    forall|i: int| 0 <= i < rs.len() ==> blen(target_prefix(*#[trigger] rs[i]) + rs[i].message@) <= usize::MAX
}

/// Every record's timestamp leaves room to count its gutter.
pub open spec fn stamps_fit(rs: Seq<&LogRecord>) -> bool {
    forall|i: int| 0 <= i < rs.len() ==> str_width((#[trigger] rs[i]).time@) + 7 <= usize::MAX
}

/// Lay out `record` for a pane `width` columns wide.
pub fn record_layout(record: &LogRecord, width: usize) -> (r: RecordLayout)
    requires
        str_width(record.time@) + 7 <= usize::MAX,
        blen(target_prefix(*record) + record.message@) <= usize::MAX,
    ensures
        laid_out(r, *record, width as nat),
{
    let time = chars_of(record.time.as_str());
    let g = if time.len() == 0 {
        6
    } else {
        display_width(record.time.as_str()) + 7
    };
    let bw = if width > g && width - g > 8 {
        width - g
    } else {
        8
    };
    let mut body: Vec<char> = Vec::new();
    match &record.target {
        Some(t) => {
            let tc = chars_of(t.as_str());
            extend(&mut body, &tc);
            body.push(':');
            body.push(' ');
            proof {
                reveal_strlit(": ");
                assert(body@ =~= t@ + ": "@);
            }
        },
        None => {
            proof {
                assert(body@ =~= Seq::<char>::empty());
            }
        },
    }
    let plen = body.len();
    let ghost pre = body@;
    proof {
        crate::text::lemma_blen_concat(pre, record.message@);
    }
    let pre_bytes = crate::text::byte_len(&body);
    let msg = chars_of(record.message.as_str());
    extend(&mut body, &msg);
    proof {
        crate::text::lemma_blen_concat(pre, msg@);
    }
    let text = string_of(&body);
    let lines = wrap(text.as_str(), bw);
    let first = chars_of(lines[0].as_str());
    let prefix = if plen > 0 && crate::text::starts_with(&first, &crate::text::slice(&body, 0, plen)) {
        proof {
            assert(body@.subrange(0, plen as int) =~= pre);
        }
        pre_bytes
    } else {
        proof {
            assert(body@.subrange(0, plen as int) =~= pre);
        }
        0
    };
    RecordLayout { gutter: g, lines, prefix }
}

/// The log pane's content: the layouts of the newest records the window
/// needs, newest first, and the window onto their lines.
pub struct LogView {
    pub layouts: Vec<RecordLayout>,
    pub window: LogWindow,
}

/// Lay out the visible records (oldest first) newest first, only as many as
/// the window needs, and place the window as [`log_window`] does. `None` when
/// a timestamp is too wide for its gutter to be counted or the lines taken
/// cannot be counted in a `usize`.
pub fn log_view(records: &Vec<&LogRecord>, width: usize, scroll: usize, height: usize) -> (r: Option<
    LogView,
>)
    requires
        texts_fit(records@),
    ensures
        r matches Some(v) ==> {
            &&& v.layouts@.len() == v.window.records
            &&& v.window.records <= records@.len()
            &&& forall|j: int|
                0 <= j < v.layouts@.len() ==> laid_out(
                    #[trigger] v.layouts@[j],
                    *records@[records@.len() - 1 - j],
                    width as nat,
                )
            &&& window_view(v.window) == spec_log_window(
                line_counts(records@, width as nat),
                scroll as nat,
                height as nat,
            )
        },
        r is None ==> !stamps_fit(records@) || sum_lines(line_counts(records@, width as nat))
            > usize::MAX,
{
    let ghost cs = line_counts(records@, width as nat);
    let needed = scroll.saturating_add(height);
    let n = records.len();
    let mut k: usize = 0;
    let mut lines: usize = 0;
    let mut layouts: Vec<RecordLayout> = Vec::new();
    assert(cs.skip(n as int) =~= Seq::<nat>::empty());
    while k < n && (k == 0 || lines < needed)
        invariant
            n == records@.len(),
            cs == line_counts(records@, width as nat),
            texts_fit(records@),
            k <= n,
            layouts@.len() == k,
            forall|j: int|
                0 <= j < k ==> laid_out(#[trigger] layouts@[j], *records@[n - 1 - j], width as nat),
            lines == newest_lines(cs, k as nat),
            taken_from(cs, needed as nat, 0) == if k > 0 && lines >= needed {
                k as nat
            } else {
                taken_from(cs, needed as nat, k as nat)
            },
        decreases n - k,
    {
        let record = records[n - 1 - k];
        let tw = display_width(record.time.as_str());
        if tw > usize::MAX - 7 {
            proof {
                assert(str_width(records@[n - 1 - k].time@) + 7 > usize::MAX);
            }
            return None;
        }
        proof {
            assert(blen(target_prefix(*records@[n - 1 - k]) + records@[n - 1 - k].message@)
                <= usize::MAX);
        }
        let layout = record_layout(record, width);
        let c = layout.lines.len();
        proof {
            lemma_newest_step(cs, k as nat);
            assert(cs[n - 1 - k] == c);
        }
        if c > usize::MAX - lines {
            proof {
                lemma_newest_le(cs, (k + 1) as nat);
            }
            return None;
        }
        lines = lines + c;
        layouts.push(layout);
        k += 1;
    }
    Some(LogView { layouts, window: window_of(k, lines, scroll, height) })
}

// ---------------------------------------------------------------- popup --

/// The completion popup shows at most this many candidates at once.
pub const POPUP_MAX_ROWS: usize = 8;

/// Rows the popup shows for `len` candidates.
pub open spec fn popup_rows(len: nat) -> nat {
    if len < POPUP_MAX_ROWS {
        len
    } else {
        POPUP_MAX_ROWS as nat
    }
}

/// The first candidate shown: the popup scrolls just enough to keep the
/// selection on its last row, and never past the end of the list.
pub open spec fn popup_first(len: nat, selected: nat) -> nat {
    let rows = popup_rows(len);
    let above: nat = if selected + 1 > rows {
        (selected + 1 - rows) as nat
    } else {
        0
    };
    if above < len - rows {
        above
    } else {
        (len - rows) as nat
    }
}

/// Rows shown, the first candidate shown, and how many are hidden.
pub fn popup_window(len: usize, selected: usize) -> (r: (usize, usize, usize))
    ensures
        r.0 == popup_rows(len as nat),
        r.1 == popup_first(len as nat, selected as nat),
        r.2 == len - popup_rows(len as nat),
{
    let rows = if len < POPUP_MAX_ROWS {
        len
    } else {
        POPUP_MAX_ROWS
    };
    let above = selected.saturating_sub(rows.saturating_sub(1));
    let last = len - rows;
    let first = if above < last {
        above
    } else {
        last
    };
    (rows, first, len - rows)
}

/// The popup always shows the selected candidate, and never runs past the
/// last candidate.
pub proof fn law_popup_keeps_the_selection_visible(len: nat, selected: nat)
    requires
        selected < len,
    ensures
        popup_first(len, selected) <= selected < popup_first(len, selected) + popup_rows(len),
        popup_first(len, selected) + popup_rows(len) <= len,
        popup_rows(len) >= 1,
{
}

/// Widest display width among `vals` (zero for none).
pub open spec fn max_width(vals: Seq<Seq<char>>) -> nat
    decreases vals.len(),
{
    if vals.len() == 0 {
        0
    } else {
        let rest = max_width(vals.drop_last());
        let w = str_width(vals.last()) as nat;
        if w > rest {
            w
        } else {
            rest
        }
    }
}

pub open spec fn item_values(items: Seq<Completion>) -> Seq<Seq<char>> {
    items.map_values(|c: Completion| c.value@)
}

/// The details of the candidates that have one.
pub open spec fn item_details(items: Seq<Completion>) -> Seq<Seq<char>>
    decreases items.len(),
{
    if items.len() == 0 {
        Seq::empty()
    } else {
        let rest = item_details(items.drop_last());
        match items.last().detail {
            Some(d) => rest.push(d@),
            None => rest,
        }
    }
}

/// Columns the popup's content needs: the widest value, then (when any
/// candidate has a detail) two columns and the widest detail, plus two.
pub open spec fn popup_content_width(items: Seq<Completion>) -> nat {
    let d = item_details(items);
    max_width(item_values(items)) + (if d.len() > 0 {
        max_width(d) + 2
    } else {
        0
    }) + 2
}

/// Widest value and widest detail (plus two) of `items`.
pub fn popup_content(items: &Vec<Completion>) -> (r: usize)
    requires
        max_width(item_values(items@)) + max_width(item_details(items@)) + 4 <= usize::MAX,
    ensures
        r == popup_content_width(items@),
{
    let mut vw: usize = 0;
    let mut dw: usize = 0;
    let mut any_detail = false;
    let mut i: usize = 0;
    while i < items.len()
        invariant
            i <= items@.len(),
            max_width(item_values(items@)) + max_width(item_details(items@)) + 4 <= usize::MAX,
            vw == max_width(item_values(items@.take(i as int))),
            dw == max_width(item_details(items@.take(i as int))),
            any_detail == (item_details(items@.take(i as int)).len() > 0),
        decreases items@.len() - i,
    {
        proof {
            let t = items@.take(i + 1);
            assert(t.drop_last() =~= items@.take(i as int));
            assert(item_values(t).drop_last() =~= item_values(items@.take(i as int)));
            lemma_max_width_prefix(item_values(items@), i + 1);
            lemma_details_prefix(items@, i + 1);
            assert(t.last() == items@[i as int]);
            match items@[i as int].detail {
                Some(d) => {
                    let dd = item_details(items@.take(i as int));
                    assert(item_details(t) == dd.push(d@));
                    assert(dd.push(d@).drop_last() =~= dd);
                    assert(dd.push(d@).last() == d@);
                },
                None => assert(item_details(t) == item_details(items@.take(i as int))),
            }
        }
        let w = display_width(items[i].value.as_str());
        if w > vw {
            vw = w;
        }
        match &items[i].detail {
            Some(d) => {
                let x = display_width(d.as_str());
                if x > dw {
                    dw = x;
                }
                any_detail = true;
            },
            None => {},
        }
        i += 1;
    }
    proof {
        assert(items@.take(items@.len() as int) =~= items@);
    }
    let extra = if any_detail {
        dw + 2
    } else {
        0
    };
    vw + extra + 2
}

/// Widest value and widest detail of `items`, in display columns.
fn widest(items: &Vec<Completion>) -> (r: (usize, usize))
    ensures
        r.0 == max_width(item_values(items@)),
        r.1 == max_width(item_details(items@)),
{
    let mut vw: usize = 0;
    let mut dw: usize = 0;
    let mut i: usize = 0;
    while i < items.len()
        invariant
            i <= items@.len(),
            vw == max_width(item_values(items@.take(i as int))),
            dw == max_width(item_details(items@.take(i as int))),
        decreases items@.len() - i,
    {
        proof {
            let t = items@.take(i + 1);
            assert(t.drop_last() =~= items@.take(i as int));
            assert(item_values(t).drop_last() =~= item_values(items@.take(i as int)));
            lemma_max_width_prefix(item_values(items@), i + 1);
            lemma_details_prefix(items@, i + 1);
            assert(t.last() == items@[i as int]);
            match items@[i as int].detail {
                Some(d) => {
                    let dd = item_details(items@.take(i as int));
                    assert(item_details(t) == dd.push(d@));
                    assert(dd.push(d@).drop_last() =~= dd);
                    assert(dd.push(d@).last() == d@);
                },
                None => assert(item_details(t) == item_details(items@.take(i as int))),
            }
        }
        let w = display_width(items[i].value.as_str());
        if w > vw {
            vw = w;
        }
        match &items[i].detail {
            Some(d) => {
                let x = display_width(d.as_str());
                if x > dw {
                    dw = x;
                }
            },
            None => {},
        }
        i += 1;
    }
    proof {
        assert(items@.take(items@.len() as int) =~= items@);
    }
    (vw, dw)
}

/// The popup's content width, or `None` when the widest value and detail
/// (plus the four columns around them) do not fit a `usize`.
pub fn popup_content_checked(items: &Vec<Completion>) -> (r: Option<usize>)
    ensures
        r is Some <==> max_width(item_values(items@)) + max_width(item_details(items@)) + 4
            <= usize::MAX,
        r matches Some(w) ==> w == popup_content_width(items@),
{
    let (vw, dw) = widest(items);
    if vw > usize::MAX - 4 || dw > usize::MAX - 4 - vw {
        None
    } else {
        Some(popup_content(items))
    }
}

/// Column where the popup's left edge goes: past the prompt area's left
/// border, the prompt, a space and the part of the line before the word
/// being completed (the line's first `start` bytes, clamped to the line);
/// `None` when that column does not fit a `usize`.
pub fn popup_anchor(px: u16, prompt: &str, line: &str, start: usize) -> (r: Option<usize>)
    requires
        at_boundary(line@, if start < blen(line@) {
            start as int
        } else {
            blen(line@) as int
        }),
    ensures
        ({
            let m = if start < blen(line@) {
                start as int
            } else {
                blen(line@) as int
            };
            let total = px + 1 + str_width(prompt@) + 1 + str_width(byte_prefix(line@, m));
            &&& r is Some <==> total <= usize::MAX
            &&& r matches Some(a) ==> a == total
        }),
{
    let cs = chars_of(line);
    let len = crate::text::utf8_len(line);
    let m = if start < len {
        start
    } else {
        len
    };
    let k = char_offset(&cs, m);
    proof {
        crate::text::lemma_chars_within(cs@, m as int);
    }
    let typed = slice(&cs, 0, k);
    proof {
        assert(typed@ =~= byte_prefix(line@, m as int));
    }
    let tw = display_width(string_of(&typed).as_str());
    let pw = display_width(prompt);
    let base: usize = px as usize + 2;
    if pw > usize::MAX - base || tw > usize::MAX - base - pw {
        None
    } else {
        Some(base + pw + tw)
    }
}

/// Column of the terminal cursor in the prompt: past the prompt's `marker`
/// and the editor's `column` display columns, as a `u16` (its maximum when the
/// sum does not fit), but never past the last column of the prompt area.
pub fn prompt_cursor_x(inner_x: u16, inner_width: u16, marker: &str, column: usize) -> (r: u16)
    ensures
        r == ({
            let offset = to_u16_or_max(str_width(marker@) + column);
            let x = if inner_x + offset <= u16::MAX {
                inner_x + offset
            } else {
                u16::MAX as int
            };
            let right = to_u16_or_max(inner_x + inner_width);
            let last = if right >= 1 {
                right - 1
            } else {
                0
            };
            if x < last {
                x
            } else {
                last
            }
        }),
{
    let mw = display_width(marker);
    let offset: u16 = if mw > 65535 || column > 65535 - mw {
        65535
    } else {
        (mw + column) as u16
    };
    let x = inner_x.saturating_add(offset);
    let last = inner_x.saturating_add(inner_width).saturating_sub(1);
    if x < last {
        x
    } else {
        last
    }
}

/// `n` as a `u16`, or `u16::MAX` when it does not fit.
pub open spec fn to_u16_or_max(n: int) -> int {
    if n <= u16::MAX {
        n
    } else {
        u16::MAX as int
    }
}

/// Where the completion popup goes, as (x, y, width, height): its borders
/// around `content_width` columns, at most as wide as the prompt area and
/// `rows` plus its borders tall; its left edge at the `anchor` column (the
/// prompt's left edge when that does not fit a `u16`), pulled left so that
/// it ends inside the prompt area; right above the prompt, clipped at the
/// top of the screen.
pub fn popup_area(px: u16, py: u16, pwidth: u16, anchor: usize, content_width: usize, rows: usize) -> (r: (
    u16,
    u16,
    u16,
    u16,
))
    requires
        content_width + 2 <= usize::MAX,
        rows + 2 <= usize::MAX,
    ensures
        r.2 == (if to_u16_or_max(content_width + 2) < pwidth {
            to_u16_or_max(content_width + 2)
        } else {
            pwidth as int
        }),
        r.3 == to_u16_or_max(rows + 2),
        r.0 == ({
            let right = to_u16_or_max(px + pwidth);
            let limit = if right > r.2 {
                right - r.2
            } else {
                0
            };
            let left = if anchor <= u16::MAX {
                anchor as int
            } else {
                px as int
            };
            if left < limit {
                left
            } else {
                limit
            }
        }),
        r.1 == (if py > r.3 {
            py - r.3
        } else {
            0
        }),
        r.0 + r.2 <= u16::MAX,
{
    let cw = content_width + 2;
    let w16: u16 = if cw <= 65535 {
        cw as u16
    } else {
        65535
    };
    let width = if w16 < pwidth {
        w16
    } else {
        pwidth
    };
    let rh = rows + 2;
    let height: u16 = if rh <= 65535 {
        rh as u16
    } else {
        65535
    };
    let right = px.saturating_add(pwidth);
    let limit = right.saturating_sub(width);
    let left: u16 = if anchor <= 65535 {
        anchor as u16
    } else {
        px
    };
    let x = if left < limit {
        left
    } else {
        limit
    };
    let y = py.saturating_sub(height);
    (x, y, width, height)
}

proof fn lemma_max_width_prefix(vals: Seq<Seq<char>>, k: int)
    requires
        0 <= k <= vals.len(),
    ensures
        max_width(vals.take(k)) <= max_width(vals),
    decreases vals.len() - k,
{
    if k < vals.len() {
        lemma_max_width_prefix(vals, k + 1);
        assert(vals.take(k + 1).drop_last() =~= vals.take(k));
    } else {
        assert(vals.take(k) =~= vals);
    }
}

proof fn lemma_details_prefix(items: Seq<Completion>, k: int)
    requires
        0 <= k <= items.len(),
    ensures
        max_width(item_details(items.take(k))) <= max_width(item_details(items)),
    decreases items.len() - k,
{
    if k < items.len() {
        lemma_details_prefix(items, k + 1);
        assert(items.take(k + 1).drop_last() =~= items.take(k));
        let d = item_details(items.take(k));
        match items.take(k + 1).last().detail {
            Some(x) => {
                assert(item_details(items.take(k + 1)).drop_last() =~= d);
            },
            None => {},
        }
    } else {
        assert(items.take(k) =~= items);
    }
}

// ---------------------------------------------------------------- overlays --

/// A box of at most `w` by `h` cells centred in the area at `(x, y)` of
/// `aw` by `ah` cells: position and size.
pub fn centered(x: u16, y: u16, aw: u16, ah: u16, w: u16, h: u16) -> (r: (u16, u16, u16, u16))
    requires
        x + aw <= u16::MAX,
        y + ah <= u16::MAX,
    ensures
        r.2 == if w < aw {
            w
        } else {
            aw
        },
        r.3 == if h < ah {
            h
        } else {
            ah
        },
        r.0 == x + (aw - r.2) / 2,
        r.1 == y + (ah - r.3) / 2,
        x <= r.0 && r.0 + r.2 <= x + aw,
        y <= r.1 && r.1 + r.3 <= y + ah,
{
    let w = if w < aw {
        w
    } else {
        aw
    };
    let h = if h < ah {
        h
    } else {
        ah
    };
    (x + (aw - w) / 2, y + (ah - h) / 2, w, h)
}

// ---------------------------------------------------------------- header --

/// The newest `width` samples, oldest first: what the load chart draws.
pub fn chart_samples(samples: &Vec<u64>, width: usize) -> (r: Vec<u64>)
    ensures
        r@ == samples@.skip(samples@.len() - if width < samples@.len() {
            width as int
        } else {
            samples@.len() as int
        }),
{
    let n = samples.len();
    let take = if width < n {
        width
    } else {
        n
    };
    let mut out: Vec<u64> = Vec::new();
    let mut i: usize = n - take;
    while i < n
        invariant
            n == samples@.len(),
            take <= n,
            n - take <= i <= n,
            out@ == samples@.subrange(n - take, i as int),
        decreases n - i,
    {
        out.push(samples[i]);
        i += 1;
        proof {
            assert(samples@.subrange(n - take, i as int) =~= samples@.subrange(n - take, i - 1).push(
                samples@[i - 1],
            ));
        }
    }
    proof {
        assert(samples@.subrange(n - take, n as int) =~= samples@.skip(n - take));
    }
    out
}

// ---------------------------------------------------------------- highlight --

/// A piece of a drawn line: byte range and whether it is a search match.
pub type Segment = (int, int, bool);

/// Pieces of a `len`-byte line from `cursor` on, given the match ranges still
/// to come: the text before each match, the match, and what is left after.
pub open spec fn segments_from(cursor: int, ms: Seq<(int, int)>, len: int) -> Seq<Segment>
    decreases ms.len(),
{
    if ms.len() == 0 {
        if cursor < len {
            seq![(cursor, len, false)]
        } else {
            Seq::empty()
        }
    } else {
        let m = ms[0];
        (if m.0 > cursor {
            seq![(cursor, m.0, false)]
        } else {
            Seq::empty()
        }) + seq![(m.0, m.1, true)] + segments_from(m.1, ms.drop_first(), len)
    }
}

/// How `text` is drawn with `query` highlighted: one plain piece when nothing
/// matches, else the pieces around and on the matches.
pub open spec fn spec_highlight(text: Seq<char>, query: Seq<char>) -> Seq<Segment> {
    let ms = spec_find_matches(text, query);
    if ms.len() == 0 {
        seq![(0, blen(text) as int, false)]
    } else {
        segments_from(0, ms, blen(text) as int)
    }
}

pub open spec fn segment_views(v: Seq<(usize, usize, bool)>) -> Seq<Segment> {
    v.map_values(|s: (usize, usize, bool)| (s.0 as int, s.1 as int, s.2))
}

/// Split `text` into the pieces to draw, the case-insensitive matches of
/// `query` marked.
pub fn highlight_segments(text: &str, query: &str) -> (r: Vec<(usize, usize, bool)>)
    ensures
        segment_views(r@) == spec_highlight(text@, query@),
{
    let ms = find_matches(text, query);
    let len = crate::text::utf8_len(text);
    let mut out: Vec<(usize, usize, bool)> = Vec::new();
    if ms.len() == 0 {
        out.push((0, len, false));
        proof {
            assert(segment_views(out@) =~= seq![(0int, blen(text@) as int, false)]);
        }
        return out;
    }
    let ghost mv = range_views(ms@);
    let mut cursor: usize = 0;
    let mut i: usize = 0;
    proof {
        assert(mv.skip(0) =~= mv);
        assert(segment_views(out@) + segments_from(0, mv, len as int) =~= segments_from(0, mv, len as int));
    }
    while i < ms.len()
        invariant
            i <= ms@.len(),
            mv == range_views(ms@),
            len == blen(text@),
            segment_views(out@) + segments_from(cursor as int, mv.skip(i as int), len as int)
                == segments_from(0, mv, len as int),
        decreases ms@.len() - i,
    {
        let (s, e) = ms[i];
        let ghost before = out@;
        proof {
            let rest = mv.skip(i as int);
            assert(rest[0] == (s as int, e as int));
            assert(rest.drop_first() =~= mv.skip(i + 1));
        }
        if s > cursor {
            out.push((cursor, s, false));
        }
        out.push((s, e, true));
        proof {
            let pre: Seq<Segment> = if s > cursor {
                seq![(cursor as int, s as int, false)]
            } else {
                Seq::empty()
            };
            assert(segment_views(out@) =~= segment_views(before) + pre + seq![(s as int, e as int, true)]);
            assert(segments_from(cursor as int, mv.skip(i as int), len as int) == pre + seq![
                (s as int, e as int, true),
            ] + segments_from(e as int, mv.skip(i + 1), len as int));
            assert(segment_views(out@) + segments_from(e as int, mv.skip(i + 1), len as int)
                =~= segment_views(before) + segments_from(cursor as int, mv.skip(i as int), len as int));
        }
        cursor = e;
        i += 1;
    }
    let ghost before = out@;
    if cursor < len {
        out.push((cursor, len, false));
    }
    proof {
        assert(mv.skip(ms@.len() as int) =~= Seq::<(int, int)>::empty());
        if cursor < len {
            assert(segment_views(out@) =~= segment_views(before) + seq![(cursor as int, len as int, false)]);
        } else {
            assert(segment_views(out@) =~= segment_views(before) + Seq::<Segment>::empty());
        }
    }
    out
}

/// The pieces run from `a` to `b`, each starting where the previous ended,
/// none running backwards.
pub open spec fn tiles(segs: Seq<Segment>, a: int, b: int) -> bool {
    if segs.len() == 0 {
        a == b
    } else {
        &&& segs[0].0 == a
        &&& segs.last().1 == b
        &&& forall|i: int| 0 <= i < segs.len() ==> (#[trigger] segs[i]).0 <= segs[i].1
        &&& forall|i: int| 0 < i < segs.len() ==> segs[i - 1].1 == (#[trigger] segs[i]).0
    }
}

proof fn lemma_tiles_concat(x: Seq<Segment>, y: Seq<Segment>, a: int, b: int, c: int)
    requires
        tiles(x, a, b),
        tiles(y, b, c),
    ensures
        tiles(x + y, a, c),
{
    let z = x + y;
    if x.len() == 0 {
        assert(z =~= y);
    } else if y.len() == 0 {
        assert(z =~= x);
    } else {
        assert forall|i: int| 0 <= i < z.len() implies (#[trigger] z[i]).0 <= z[i].1 by {
            if i < x.len() {
                assert(z[i] == x[i]);
            } else {
                assert(z[i] == y[i - x.len()]);
            }
        }
        assert forall|i: int| 0 < i < z.len() implies z[i - 1].1 == (#[trigger] z[i]).0 by {
            if i < x.len() {
                assert(z[i] == x[i]);
                assert(z[i - 1] == x[i - 1]);
            } else if i == x.len() {
                assert(z[i] == y[0]);
                assert(z[i - 1] == x.last());
            } else {
                assert(z[i] == y[i - x.len()]);
                assert(z[i - 1] == y[i - 1 - x.len()]);
            }
        }
        assert(z[0] == x[0]);
        assert(z.last() == y.last());
    }
}

/// Match ranges that run left to right, none backwards, all within `len`.
pub open spec fn ordered_within(ms: Seq<(int, int)>, len: int) -> bool {
    &&& forall|i: int| 0 <= i < ms.len() ==> (#[trigger] ms[i]).0 <= ms[i].1 <= len
    &&& forall|i: int, j: int| 0 <= i < j < ms.len() ==> (#[trigger] ms[i]).1 <= (#[trigger] ms[j]).0
}

proof fn lemma_segments_tile(cursor: int, ms: Seq<(int, int)>, len: int)
    requires
        ordered_within(ms, len),
        ms.len() > 0 ==> cursor <= ms[0].0,
        cursor <= len,
    ensures
        tiles(segments_from(cursor, ms, len), cursor, len),
    decreases ms.len(),
{
    if ms.len() > 0 {
        let m = ms[0];
        let rest = ms.drop_first();
        assert forall|i: int| 0 <= i < rest.len() implies (#[trigger] rest[i]).0 <= rest[i].1 <= len by {
            assert(rest[i] == ms[i + 1]);
        }
        assert forall|i: int, j: int| 0 <= i < j < rest.len() implies (#[trigger] rest[i]).1 <= (
        #[trigger] rest[j]).0 by {
            assert(rest[i] == ms[i + 1]);
            assert(rest[j] == ms[j + 1]);
        }
        if rest.len() > 0 {
            assert(rest[0] == ms[1]);
        }
        lemma_segments_tile(m.1, rest, len);
        let pre: Seq<Segment> = if m.0 > cursor {
            seq![(cursor, m.0, false)]
        } else {
            Seq::empty()
        };
        let mid: Seq<Segment> = seq![(m.0, m.1, true)];
        lemma_tiles_concat(pre, mid, cursor, m.0, m.1);
        lemma_tiles_concat(pre + mid, segments_from(m.1, rest, len), cursor, m.1, len);
    }
}

proof fn lemma_ranges_within(hay: Seq<char>, pin: Seq<char>)
    requires
        pin.len() > 0,
    ensures
        ordered_within(match_ranges(hay, pin), blen(hay) as int),
{
    let m = match_ranges(hay, pin);
    crate::wrap::law_matches_are_ordered_occurrences(hay, pin);
    assert forall|i: int| 0 <= i < m.len() implies (#[trigger] m[i]).0 <= m[i].1 <= blen(hay) by {
        let k = choose|k: int| occurs_at(hay, pin, k) && m[i].0 == blen(hay.take(k));
        let e = k + pin.len();
        assert(hay.take(e) =~= hay.take(k) + hay.subrange(k, e));
        crate::text::lemma_blen_concat(hay.take(k), pin);
        crate::text::lemma_blen_take_le(hay, e);
    }
}

/// The pieces a line is drawn in cover it exactly: they run from its start
/// to its end, each where the previous one stopped.
pub proof fn law_highlight_covers_the_line(text: Seq<char>, query: Seq<char>)
    ensures
        tiles(spec_highlight(text, query), 0, blen(text) as int),
{
    let ms = spec_find_matches(text, query);
    if ms.len() > 0 {
        let hay = crate::text::lowercase(text);
        let pin = crate::text::lowercase(query);
        crate::text::lemma_blen_take_le(query, query.len() as int);
        assert(query.take(query.len() as int) =~= query);
        if blen(hay) == blen(text) && blen(pin) == blen(query) {
            assert(pin.len() > 0);
            lemma_ranges_within(hay, pin);
        } else {
            lemma_ranges_within(text, query);
        }
        crate::wrap::law_matches_are_ordered_occurrences(
            if blen(hay) == blen(text) && blen(pin) == blen(query) { hay } else { text },
            if blen(hay) == blen(text) && blen(pin) == blen(query) { pin } else { query },
        );
        assert(ms[0].0 >= 0);
        lemma_segments_tile(0, ms, blen(text) as int);
    }
}

} // verus!
