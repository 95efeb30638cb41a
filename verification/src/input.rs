//! A small readline-style line editor: the buffer, the caret, and the motions
//! an operator expects from a server console.
//!
//! The abstract state is the pair (characters, caret) where the caret is a
//! character index; the public offsets (`cursor`, `replace_range`) are byte
//! offsets, which always sit on a character boundary.

use vstd::prelude::*;

use crate::text::{
    after_last_ws, at_boundary, blen, byte_len, byte_offset, byte_prefix, char_len, char_offset, chars_of,
    chars_within, concat, count_lead_ws, extend, first_ws, last_ws_end, lead_ws,
    lemma_after_last_ws, lemma_at_boundary_index, lemma_blen_concat, lemma_blen_single,
    lemma_blen_split, lemma_blen_take_le, lemma_blen_take_strict, lemma_first_ws, lemma_lead_ws,
    lemma_trim_end_len, next_ws, slice, string_of, trim_end_len, trimmed_end,
};
use crate::width::{display_width, str_width};

verus! {

/// Abstract editor state: the line's characters and the caret's character index.
pub type EditorState = (Seq<char>, nat);

/// The caret lies within the line and the line's UTF-8 length fits a `usize`.
pub open spec fn ed_ok(v: EditorState) -> bool {
    v.1 <= v.0.len() && blen(v.0) <= usize::MAX
}

/// Insert `t` at the caret and park the caret after it.
pub open spec fn ed_insert(v: EditorState, t: Seq<char>) -> EditorState {
    (v.0.take(v.1 as int) + t + v.0.skip(v.1 as int), v.1 + t.len())
}

/// Remove the characters in `[a, b)`; the caret moves to `caret`.
pub open spec fn ed_remove(v: EditorState, a: nat, b: nat, caret: nat) -> EditorState {
    (v.0.take(a as int) + v.0.skip(b as int), caret)
}

/// Backspace: drop the character before the caret, if any.
pub open spec fn ed_backspace(v: EditorState) -> EditorState {
    if v.1 > 0 {
        ed_remove(v, (v.1 - 1) as nat, v.1, (v.1 - 1) as nat)
    } else {
        v
    }
}

/// Delete: drop the character under the caret, if any.
pub open spec fn ed_delete(v: EditorState) -> EditorState {
    if v.1 < v.0.len() {
        ed_remove(v, v.1, v.1 + 1, v.1)
    } else {
        v
    }
}

/// Start of the word before the caret: trailing whitespace before the caret is
/// skipped, then the caret goes just past the previous whitespace (or to 0).
pub open spec fn word_start(s: Seq<char>, caret: nat) -> nat {
    after_last_ws(s.take(trim_end_len(s.take(caret as int)) as int))
}

/// End of the word after the caret: leading whitespace is skipped, then the
/// caret goes to the next whitespace (or to the end).
pub open spec fn word_end(s: Seq<char>, caret: nat) -> nat {
    let lead = lead_ws(s.skip(caret as int));
    caret + lead + first_ws(s.skip((caret + lead) as int))
}

/// Replace the byte range `[start, end)` — clamped to the line the way
/// `LineEditor::replace_range` clamps it — with `t`, caret after `t`.
pub open spec fn ed_replace(v: EditorState, start: int, end: int, t: Seq<char>) -> EditorState {
    let len = blen(v.0) as int;
    let s = if start < len { start } else { len };
    let e0 = if end < s { s } else { end };
    let e = if e0 < len { e0 } else { len };
    let si = chars_within(v.0, s);
    let ei = chars_within(v.0, e);
    (v.0.take(si as int) + t + v.0.skip(ei as int), si + t.len())
}

/// The byte offsets a `replace_range(start, end, _)` call slices the line at.
pub open spec fn replace_bounds(v: EditorState, start: int, end: int) -> (int, int) {
    let len = blen(v.0) as int;
    let s = if start < len { start } else { len };
    let e0 = if end < s { s } else { end };
    let e = if e0 < len { e0 } else { len };
    (s, e)
}

/// Editable input line.
#[derive(Debug)]
pub struct LineEditor {
    buffer: String,
    chars: Vec<char>,
    caret: usize,
}

impl View for LineEditor {
    type V = EditorState;

    closed spec fn view(&self) -> EditorState {
        (self.chars@, self.caret as nat)
    }
}

impl Clone for LineEditor {
    fn clone(&self) -> (r: LineEditor)
        ensures
            r@ == self@,
    {
        proof {
            use_type_invariant(self);
        }
        let cs = slice(&self.chars, 0, self.chars.len());
        assert(cs@ =~= self@.0);
        LineEditor::build(cs, self.caret)
    }
}

impl Default for LineEditor {
    fn default() -> (r: LineEditor)
        ensures
            r@.0.len() == 0,
            r@.1 == 0,
    {
        LineEditor::new()
    }
}

impl LineEditor {
    #[verifier::type_invariant]
    spec fn inv(&self) -> bool {
        &&& self.buffer@ == self.chars@
        &&& self.caret <= self.chars.len()
        &&& blen(self.chars@) <= usize::MAX
    }

    fn build(chars: Vec<char>, caret: usize) -> (r: LineEditor)
        requires
            caret <= chars.len(),
            blen(chars@) <= usize::MAX,
        ensures
            r@ == (chars@, caret as nat),
    {
        LineEditor { buffer: string_of(&chars), chars, caret }
    }

    /// An empty line.
    pub fn new() -> (r: LineEditor)
        ensures
            r@.0.len() == 0,
            r@.1 == 0,
    {
        proof {
            reveal_with_fuel(blen, 1);
        }
        LineEditor::build(Vec::new(), 0)
    }

    /// The state invariant, visible to callers.
    pub fn state_ok(&self) -> (r: bool)
        ensures
            r,
            ed_ok(self@),
    {
        proof {
            use_type_invariant(self);
        }
        true
    }

    pub fn text(&self) -> (r: &str)
        ensures
            r@ == self@.0,
    {
        proof {
            use_type_invariant(self);
        }
        self.buffer.as_str()
    }

    /// Byte offset of the caret; it always sits on a character boundary.
    pub fn cursor(&self) -> (r: usize)
        ensures
            r == blen(self@.0.take(self@.1 as int)),
            at_boundary(self@.0, r as int),
    {
        proof {
            use_type_invariant(self);
            crate::text::lemma_chars_within_of_take(self@.0, self@.1 as int);
        }
        byte_offset(&self.chars, self.caret)
    }

    pub fn is_empty(&self) -> (r: bool)
        ensures
            r == (self@.0.len() == 0),
    {
        self.chars.len() == 0
    }

    /// Display columns between the start of the line and the caret.
    pub fn cursor_column(&self) -> (r: usize)
        ensures
            r == str_width(self@.0.take(self@.1 as int)),
    {
        proof {
            use_type_invariant(self);
        }
        let before = slice(&self.chars, 0, self.caret);
        let s = string_of(&before);
        display_width(s.as_str())
    }

    /// Replace the whole line; the caret goes to its end.
    pub fn set(&mut self, text: &str)
        ensures
            final(self)@ == (text@, text@.len()),
    {
        let _ = crate::text::utf8_len(text);
        let cs = chars_of(text);
        let n = cs.len();
        *self = LineEditor::build(cs, n);
    }

    pub fn clear(&mut self)
        ensures
            final(self)@.0.len() == 0,
            final(self)@.1 == 0,
    {
        *self = LineEditor::new();
    }

    /// Take the line, leaving the editor empty.
    pub fn take(&mut self) -> (r: String)
        ensures
            r@ == old(self)@.0,
            final(self)@.0.len() == 0,
            final(self)@.1 == 0,
    {
        proof {
            use_type_invariant(&*self);
        }
        let r = string_of(&self.chars);
        *self = LineEditor::new();
        r
    }

    fn splice(&mut self, a: usize, b: usize, t: &Vec<char>, caret: usize)
        requires
            a <= b <= old(self)@.0.len(),
            caret <= a + t@.len(),
            blen(old(self)@.0.take(a as int) + t@ + old(self)@.0.skip(b as int)) <= usize::MAX,
        ensures
            final(self)@ == (old(self)@.0.take(a as int) + t@ + old(self)@.0.skip(b as int), caret as nat),
    {
        proof {
            use_type_invariant(&*self);
        }
        let head = slice(&self.chars, 0, a);
        let tail = slice(&self.chars, b, self.chars.len());
        let mut cs = concat(&head, t);
        extend(&mut cs, &tail);
        assert(cs@ == self@.0.take(a as int) + t@ + self@.0.skip(b as int)) by {
            assert(head@ =~= self@.0.take(a as int));
            assert(tail@ =~= self@.0.skip(b as int));
        }
        *self = LineEditor::build(cs, caret);
    }

    pub fn insert(&mut self, c: char)
        requires
            blen(old(self)@.0) + char_len(c) <= usize::MAX,
        ensures
            final(self)@ == ed_insert(old(self)@, seq![c]),
    {
        proof {
            use_type_invariant(&*self);
            lemma_insert_len(self@, seq![c]);
            lemma_blen_single(c);
            lemma_len_le_blen(self@.0);
        }
        let mut t: Vec<char> = Vec::new();
        t.push(c);
        let at = self.caret;
        self.splice(at, at, &t, at + 1);
    }

    pub fn insert_str(&mut self, text: &str)
        requires
            blen(old(self)@.0) + blen(text@) <= usize::MAX,
        ensures
            final(self)@ == ed_insert(old(self)@, text@),
    {
        proof {
            use_type_invariant(&*self);
            lemma_insert_len(self@, text@);
            lemma_len_le_blen(self@.0);
            lemma_len_le_blen(text@);
        }
        let t = chars_of(text);
        let at = self.caret;
        self.splice(at, at, &t, at + t.len());
    }

    /// Replace the byte range `[start, end)` with `text` and park the caret
    /// after it. `start` is clamped to the line, `end` to `start..=len`; both
    /// must then sit on character boundaries.
    pub fn replace_range(&mut self, start: usize, end: usize, text: &str)
        requires
            at_boundary(old(self)@.0, replace_bounds(old(self)@, start as int, end as int).0),
            at_boundary(old(self)@.0, replace_bounds(old(self)@, start as int, end as int).1),
            blen(ed_replace(old(self)@, start as int, end as int, text@).0) <= usize::MAX,
        ensures
            final(self)@ == ed_replace(old(self)@, start as int, end as int, text@),
            final(self).cursor_bytes() == replace_bounds(old(self)@, start as int, end as int).0
                + blen(text@),
    {
        proof {
            use_type_invariant(&*self);
        }
        let len = byte_len(&self.chars);
        let s = if start < len {
            start
        } else {
            len
        };
        let e0 = if end < s {
            s
        } else {
            end
        };
        let e = if e0 < len {
            e0
        } else {
            len
        };
        let si = char_offset(&self.chars, s);
        let ei = char_offset(&self.chars, e);
        proof {
            lemma_at_boundary_index(self@.0, s as int);
            lemma_at_boundary_index(self@.0, e as int);
            if ei < si {
                lemma_blen_take_strict(self@.0, ei as int, si as int);
            }
        }
        let t = chars_of(text);
        proof {
            lemma_len_le_blen(ed_replace(self@, start as int, end as int, text@).0);
            assert(ed_replace(self@, start as int, end as int, text@).0.len() == si + t@.len() + (
            self@.0.len() - ei));
        }
        let caret = si + t.len();
        self.splice(si, ei, &t, caret);
        proof {
            let n = self@.0;
            let old_s = old(self)@.0;
            assert(n.take(caret as int) =~= old_s.take(si as int) + t@);
            lemma_blen_concat(old_s.take(si as int), t@);
        }
    }

    /// Byte offset of the caret, in spec.
    pub open spec fn cursor_bytes(&self) -> nat {
        blen(self@.0.take(self@.1 as int))
    }

    pub fn backspace(&mut self)
        ensures
            final(self)@ == ed_backspace(old(self)@),
    {
        proof {
            use_type_invariant(&*self);
        }
        if let Some(prev) = self.prev_boundary() {
            let at = self.caret;
            let t: Vec<char> = Vec::new();
            proof {
                lemma_remove_len(self@, prev as nat, at as nat);
            }
            self.splice(prev, at, &t, prev);
        }
    }

    pub fn delete(&mut self)
        ensures
            final(self)@ == ed_delete(old(self)@),
    {
        proof {
            use_type_invariant(&*self);
        }
        if let Some(next) = self.next_boundary() {
            let at = self.caret;
            let t: Vec<char> = Vec::new();
            proof {
                lemma_remove_len(self@, at as nat, next as nat);
            }
            self.splice(at, next, &t, at);
        }
    }

    fn move_to(&mut self, caret: usize)
        requires
            caret <= old(self)@.0.len(),
        ensures
            final(self)@ == (old(self)@.0, caret as nat),
    {
        proof {
            use_type_invariant(&*self);
        }
        let cs = slice(&self.chars, 0, self.chars.len());
        assert(cs@ =~= self@.0);
        *self = LineEditor::build(cs, caret);
    }

    pub fn move_left(&mut self)
        ensures
            final(self)@ == (old(self)@.0, if old(self)@.1 > 0 {
                (old(self)@.1 - 1) as nat
            } else {
                old(self)@.1
            }),
    {
        proof {
            use_type_invariant(&*self);
        }
        if let Some(prev) = self.prev_boundary() {
            self.move_to(prev);
        }
    }

    pub fn move_right(&mut self)
        ensures
            final(self)@ == (old(self)@.0, if old(self)@.1 < old(self)@.0.len() {
                old(self)@.1 + 1
            } else {
                old(self)@.1
            }),
    {
        proof {
            use_type_invariant(&*self);
        }
        if let Some(next) = self.next_boundary() {
            self.move_to(next);
        }
    }

    pub fn move_home(&mut self)
        ensures
            final(self)@ == (old(self)@.0, 0nat),
    {
        self.move_to(0);
    }

    pub fn move_end(&mut self)
        ensures
            final(self)@ == (old(self)@.0, old(self)@.0.len()),
    {
        proof {
            use_type_invariant(&*self);
        }
        let n = self.chars.len();
        self.move_to(n);
    }

    pub fn move_word_left(&mut self)
        ensures
            final(self)@ == (old(self)@.0, word_start(old(self)@.0, old(self)@.1)),
    {
        proof {
            use_type_invariant(&*self);
        }
        let w = self.word_start();
        self.move_to(w);
    }

    pub fn move_word_right(&mut self)
        ensures
            final(self)@ == (old(self)@.0, word_end(old(self)@.0, old(self)@.1)),
    {
        proof {
            use_type_invariant(&*self);
        }
        let w = self.word_end();
        self.move_to(w);
    }

    /// Ctrl+W: delete the word before the caret.
    pub fn delete_word_left(&mut self)
        ensures
            final(self)@ == ed_remove(
                old(self)@,
                word_start(old(self)@.0, old(self)@.1),
                old(self)@.1,
                word_start(old(self)@.0, old(self)@.1),
            ),
    {
        proof {
            use_type_invariant(&*self);
        }
        let start = self.word_start();
        let at = self.caret;
        let t: Vec<char> = Vec::new();
        proof {
            lemma_remove_len(self@, start as nat, at as nat);
        }
        self.splice(start, at, &t, start);
    }

    /// Alt+D: delete the word after the caret.
    pub fn delete_word_right(&mut self)
        ensures
            final(self)@ == ed_remove(
                old(self)@,
                old(self)@.1,
                word_end(old(self)@.0, old(self)@.1),
                old(self)@.1,
            ),
    {
        proof {
            use_type_invariant(&*self);
        }
        let end = self.word_end();
        let at = self.caret;
        let t: Vec<char> = Vec::new();
        proof {
            lemma_remove_len(self@, at as nat, end as nat);
        }
        self.splice(at, end, &t, at);
    }

    /// Ctrl+U: drop everything before the caret.
    pub fn kill_to_start(&mut self)
        ensures
            final(self)@ == ed_remove(old(self)@, 0, old(self)@.1, 0),
    {
        proof {
            use_type_invariant(&*self);
        }
        let at = self.caret;
        let t: Vec<char> = Vec::new();
        proof {
            lemma_remove_len(self@, 0, at as nat);
        }
        self.splice(0, at, &t, 0);
    }

    /// Ctrl+K: drop everything after the caret.
    pub fn kill_to_end(&mut self)
        ensures
            final(self)@ == (old(self)@.0.take(old(self)@.1 as int), old(self)@.1),
    {
        proof {
            use_type_invariant(&*self);
        }
        let at = self.caret;
        let n = self.chars.len();
        let t: Vec<char> = Vec::new();
        proof {
            lemma_remove_len(self@, at as nat, n as nat);
        }
        self.splice(at, n, &t, at);
        assert(self@.0 =~= old(self)@.0.take(old(self)@.1 as int));
    }

    /// Whether the caret sits at the very end.
    pub fn at_end(&self) -> (r: bool)
        ensures
            r == (self@.1 == self@.0.len()),
    {
        self.caret == self.chars.len()
    }

    /// Character index of the boundary before the caret, if any.
    fn prev_boundary(&self) -> (r: Option<usize>)
        ensures
            self@.1 > 0 ==> r == Some((self@.1 - 1) as usize),
            self@.1 == 0 ==> r is None,
    {
        if self.caret > 0 {
            Some(self.caret - 1)
        } else {
            None
        }
    }

    /// Character index of the boundary after the caret, if any.
    fn next_boundary(&self) -> (r: Option<usize>)
        ensures
            self@.1 < self@.0.len() ==> r == Some((self@.1 + 1) as usize),
            self@.1 >= self@.0.len() ==> r is None,
    {
        if self.caret < self.chars.len() {
            Some(self.caret + 1)
        } else {
            None
        }
    }

    fn word_start(&self) -> (r: usize)
        ensures
            r == word_start(self@.0, self@.1),
            r <= self@.1,
    {
        proof {
            use_type_invariant(self);
        }
        let te = trimmed_end(&self.chars, self.caret);
        proof {
            lemma_trim_end_len(self@.0.take(self@.1 as int));
            assert(self@.0.take(self@.1 as int).take(te as int) =~= self@.0.take(te as int));
        }
        let r = last_ws_end(&self.chars, te);
        proof {
            lemma_after_last_ws(self@.0.take(te as int));
        }
        r
    }

    fn word_end(&self) -> (r: usize)
        ensures
            r == word_end(self@.0, self@.1),
            self@.1 <= r <= self@.0.len(),
    {
        proof {
            use_type_invariant(self);
        }
        let lead = count_lead_ws(&self.chars, self.caret);
        proof {
            lemma_lead_ws(self@.0.skip(self@.1 as int));
        }
        let w = next_ws(&self.chars, self.caret + lead);
        proof {
            lemma_first_ws(self@.0.skip(self@.1 + lead));
        }
        self.caret + lead + w
    }
}

pub proof fn lemma_len_le_blen(s: Seq<char>)
    ensures
        s.len() <= blen(s),
{
    lemma_blen_take_le(s, s.len() as int);
    assert(s.take(s.len() as int) =~= s);
}

pub proof fn lemma_insert_len(v: EditorState, t: Seq<char>)
    requires
        v.1 <= v.0.len(),
    ensures
        blen(ed_insert(v, t).0) == blen(v.0) + blen(t),
        ed_insert(v, t).1 <= ed_insert(v, t).0.len(),
{
    let a = v.0.take(v.1 as int);
    let b = v.0.skip(v.1 as int);
    lemma_blen_concat(a + t, b);
    lemma_blen_concat(a, t);
    lemma_blen_split(v.0, v.1 as int);
}

pub proof fn lemma_remove_len(v: EditorState, a: nat, b: nat)
    requires
        a <= b <= v.0.len(),
    ensures
        blen(v.0.take(a as int) + Seq::<char>::empty() + v.0.skip(b as int)) <= blen(v.0),
{
    let x = v.0.take(a as int);
    let y = v.0.skip(b as int);
    assert(x + Seq::<char>::empty() =~= x);
    lemma_blen_concat(x, y);
    lemma_blen_split(v.0, b as int);
    lemma_blen_take_le(v.0.take(b as int), a as int);
    assert(v.0.take(b as int).take(a as int) =~= x);
}

// ------------------------------------------------------------------ laws --

/// Typing a character and then pressing Backspace gives back exactly the line
/// and caret there were before.
pub proof fn law_backspace_undoes_insert(v: EditorState, c: char)
    requires
        ed_ok(v),
    ensures
        ed_backspace(ed_insert(v, seq![c])) == v,
{
    let w = ed_insert(v, seq![c]);
    assert(w.0.take(v.1 as int) + w.0.skip((v.1 + 1) as int) =~= v.0);
}

/// Pressing Delete after moving one character left undoes a typed character:
/// inserting and then deleting the inserted character restores the line.
pub proof fn law_delete_undoes_insert(v: EditorState, c: char)
    requires
        ed_ok(v),
    ensures
        ed_delete((ed_insert(v, seq![c]).0, v.1)) == v,
{
    let w = ed_insert(v, seq![c]);
    assert(w.0.take(v.1 as int) + w.0.skip((v.1 + 1) as int) =~= v.0);
}

/// Word motions never leave the line: the word start lies between the line
/// start and the caret, the word end between the caret and the line end.
pub proof fn law_word_motions_stay_in_line(s: Seq<char>, caret: nat)
    requires
        caret <= s.len(),
    ensures
        word_start(s, caret) <= caret,
        caret <= word_end(s, caret) <= s.len(),
{
    lemma_trim_end_len(s.take(caret as int));
    let te = trim_end_len(s.take(caret as int));
    lemma_after_last_ws(s.take(te as int));
    lemma_lead_ws(s.skip(caret as int));
    let lead = lead_ws(s.skip(caret as int));
    lemma_first_ws(s.skip((caret + lead) as int));
}

/// Deleting the word before the caret removes exactly what moving a word left
/// passes over: the result is the line before the word start followed by the
/// line from the old caret on, with the caret at the word start.
pub proof fn law_delete_word_left_matches_motion(v: EditorState)
    requires
        ed_ok(v),
    ensures
        ed_remove(v, word_start(v.0, v.1), v.1, word_start(v.0, v.1)).0 == v.0.take(
            word_start(v.0, v.1) as int,
        ) + v.0.skip(v.1 as int),
        ed_remove(v, word_start(v.0, v.1), v.1, word_start(v.0, v.1)).1 == word_start(v.0, v.1),
{
}

/// Replacing a range splices bytes: the new line is the old line's bytes
/// before the (clamped) start, then the text, then the old line's bytes from
/// the (clamped) end on; the caret sits on a character boundary right after
/// the text, at the range start plus the text's byte length.
pub proof fn law_replace_splices_bytes(v: EditorState, start: int, end: int, t: Seq<char>)
    requires
        ed_ok(v),
        at_boundary(v.0, replace_bounds(v, start, end).0),
        at_boundary(v.0, replace_bounds(v, start, end).1),
    ensures
        ed_replace(v, start, end, t).0 == byte_prefix(v.0, replace_bounds(v, start, end).0) + t
            + v.0.skip(chars_within(v.0, replace_bounds(v, start, end).1) as int),
        blen(byte_prefix(v.0, replace_bounds(v, start, end).0)) == replace_bounds(v, start, end).0,
        blen(v.0.take(chars_within(v.0, replace_bounds(v, start, end).1) as int))
            == replace_bounds(v, start, end).1,
        blen(ed_replace(v, start, end, t).0.take(ed_replace(v, start, end, t).1 as int))
            == replace_bounds(v, start, end).0 + blen(t),
        at_boundary(ed_replace(v, start, end, t).0, replace_bounds(v, start, end).0 + blen(t)),
{
    let s = replace_bounds(v, start, end).0;
    let e = replace_bounds(v, start, end).1;
    let si = chars_within(v.0, s);
    lemma_at_boundary_index(v.0, s);
    lemma_at_boundary_index(v.0, e);
    let w = ed_replace(v, start, end, t);
    assert(w.0.take(w.1 as int) =~= v.0.take(si as int) + t);
    lemma_blen_concat(v.0.take(si as int), t);
    crate::text::lemma_chars_within_of_take(w.0, w.1 as int);
}

/// Typing a character splices it in at the caret and moves the caret, which
/// stays on a character boundary, forward by the character's UTF-8 length.
pub proof fn law_insert_advances_caret_bytes(v: EditorState, c: char)
    requires
        ed_ok(v),
    ensures
        ed_insert(v, seq![c]).0 == v.0.take(v.1 as int) + seq![c] + v.0.skip(v.1 as int),
        blen(ed_insert(v, seq![c]).0.take(ed_insert(v, seq![c]).1 as int)) == blen(
            v.0.take(v.1 as int),
        ) + char_len(c),
        at_boundary(
            ed_insert(v, seq![c]).0,
            blen(ed_insert(v, seq![c]).0.take(ed_insert(v, seq![c]).1 as int)) as int,
        ),
{
    let w = ed_insert(v, seq![c]);
    assert(w.0.take(w.1 as int) =~= v.0.take(v.1 as int) + seq![c]);
    lemma_blen_concat(v.0.take(v.1 as int), seq![c]);
    lemma_blen_single(c);
    crate::text::lemma_chars_within_of_take(w.0, w.1 as int);
}

} // verus!
