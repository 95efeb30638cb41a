//! Width-aware word wrapping and case-insensitive match finding for the log
//! pane.

use vstd::prelude::*;

use crate::text::{
    all_ascii, all_ws, ascii_lower, blen, byte_len, byte_len_within, char_len, chars_of, extend,
    is_all_ws, is_whitespace, is_ws, lemma_ascii_lower, lemma_blen_take_le, lemma_blen_take_strict,
    len_utf8, lowercase, matches_at, occurs_at, slice, string_of, to_lowercase,
};
use crate::width::{char_display_width, char_width, display_width, str_width};

verus! {

// ---------------------------------------------------------------- runs --

/// Length of the run at the front of `s` whose characters share the
/// whitespace-ness of `s[0]`.
pub open spec fn run_len(s: Seq<char>) -> nat
    decreases s.len(),
{
    if s.len() <= 1 {
        s.len()
    } else if is_ws(s[1]) == is_ws(s[0]) {
        1 + run_len(s.drop_first())
    } else {
        1
    }
}

/// `s` split into alternating maximal runs of whitespace and non-whitespace.
pub open spec fn runs(s: Seq<char>) -> Seq<Seq<char>>
    decreases s.len(),
{
    if s.len() == 0 {
        Seq::empty()
    } else {
        proof {
            lemma_run_len(s);
        }
        seq![s.take(run_len(s) as int)] + runs(s.skip(run_len(s) as int))
    }
}

pub proof fn lemma_run_len(s: Seq<char>)
    ensures
        s.len() > 0 ==> 1 <= run_len(s) <= s.len(),
        forall|i: int| 0 <= i < run_len(s) ==> is_ws(#[trigger] s[i]) == is_ws(s[0]),
        run_len(s) < s.len() ==> is_ws(s[run_len(s) as int]) != is_ws(s[0]),
    decreases s.len(),
{
    if s.len() > 1 && is_ws(s[1]) == is_ws(s[0]) {
        let t = s.drop_first();
        lemma_run_len(t);
        assert forall|i: int| 0 <= i < run_len(s) implies is_ws(#[trigger] s[i]) == is_ws(s[0]) by {
            if i > 0 {
                assert(s[i] == t[i - 1]);
            }
        }
        if run_len(s) < s.len() {
            assert(s[run_len(s) as int] == t[run_len(t) as int]);
        }
    }
}

/// Concatenation of a sequence of character sequences.
pub open spec fn flatten(parts: Seq<Seq<char>>) -> Seq<char>
    decreases parts.len(),
{
    if parts.len() == 0 {
        Seq::empty()
    } else {
        flatten(parts.drop_last()) + parts.last()
    }
}

pub open spec fn part_views(v: Seq<Vec<char>>) -> Seq<Seq<char>> {
    v.map_values(|p: Vec<char>| p@)
}

/// Split into alternating runs of whitespace and non-whitespace, so wrapping
/// can keep interior spacing intact.
pub fn split_keeping_spaces(text: &Vec<char>) -> (r: Vec<Vec<char>>)
    ensures
        part_views(r@) == runs(text@),
{
    let mut parts: Vec<Vec<char>> = Vec::new();
    let mut start: usize = 0;
    assert(text@.skip(0) =~= text@);
    while start < text.len()
        invariant
            start <= text.len(),
            runs(text@) == part_views(parts@) + runs(text@.skip(start as int)),
        decreases text.len() - start,
    {
        let kind = is_whitespace(text[start]);
        let mut end = start + 1;
        let ghost rest = text@.skip(start as int);
        proof {
            lemma_run_len(rest);
        }
        while end < text.len() && is_whitespace(text[end]) == kind
            invariant
                start < end <= text.len(),
                rest == text@.skip(start as int),
                kind == is_ws(rest[0]),
                end - start <= run_len(rest),
            decreases text.len() - end,
        {
            proof {
                lemma_run_len(rest);
                if end - start == run_len(rest) {
                    assert(rest[run_len(rest) as int] == text@[end as int]);
                }
            }
            end += 1;
        }
        proof {
            if end < text.len() {
                if end - start < run_len(rest) {
                    assert(rest[(end - start) as int] == text@[end as int]);
                }
            }
            assert(end - start == run_len(rest));
        }
        let run = slice(text, start, end);
        proof {
            assert(run@ =~= rest.take(run_len(rest) as int));
            assert(rest.skip(run_len(rest) as int) =~= text@.skip(end as int));
            assert(part_views(parts@.push(run)) =~= part_views(parts@).push(run@));
            assert(part_views(parts@).push(run@) + runs(text@.skip(end as int)) =~= part_views(
                parts@,
            ) + (seq![run@] + runs(text@.skip(end as int))));
        }
        parts.push(run);
        start = end;
    }
    proof {
        assert(text@.skip(text.len() as int) =~= Seq::<char>::empty());
        assert(part_views(parts@) + Seq::<Seq<char>>::empty() =~= part_views(parts@));
    }
    parts
}

// ---------------------------------------------------------------- wrapping --

/// Wrapping state: finished lines, the line being filled, and its width.
pub type WrapState = (Seq<Seq<char>>, Seq<char>, int);

/// Columns a character takes when hard-splitting (control characters: none).
pub open spec fn col_width(c: char) -> int {
    match char_width(c) {
        Some(w) => w as int,
        None => 0,
    }
}

/// Start a new line.
pub open spec fn break_line(st: WrapState) -> WrapState {
    (st.0.push(st.1), Seq::empty(), 0)
}

/// Hard-split step: break first if `c` does not fit, then place it.
pub open spec fn place_char(st: WrapState, c: char, width: int) -> WrapState {
    let st1 = if st.2 + col_width(c) > width {
        break_line(st)
    } else {
        st
    };
    (st1.0, st1.1.push(c), st1.2 + col_width(c))
}

/// Hard-split a word character by character.
pub open spec fn place_chars(st: WrapState, word: Seq<char>, width: int) -> WrapState
    decreases word.len(),
{
    if word.len() == 0 {
        st
    } else {
        place_char(place_chars(st, word.drop_last(), width), word.last(), width)
    }
}

/// Place one run: a whitespace run that overflows ends the line and is
/// dropped; a run that fits is appended; otherwise the line is broken and the
/// run starts the next one, hard-split if it can never fit.
pub open spec fn place_word(st: WrapState, word: Seq<char>, width: int) -> WrapState {
    let ww = str_width(word) as int;
    if all_ws(word) && st.2 + ww > width {
        break_line(st)
    } else if st.2 + ww <= width {
        (st.0, st.1 + word, st.2 + ww)
    } else {
        let st1 = if st.1.len() > 0 {
            break_line(st)
        } else {
            st
        };
        if ww <= width {
            (st1.0, st1.1 + word, ww)
        } else {
            place_chars(st1, word, width)
        }
    }
}

/// Place every run, in order.
pub open spec fn place_words(words: Seq<Seq<char>>, width: int) -> WrapState
    decreases words.len(),
{
    if words.len() == 0 {
        (Seq::empty(), Seq::empty(), 0)
    } else {
        place_word(place_words(words.drop_last(), width), words.last(), width)
    }
}

/// The lines `wrap(text, width)` returns.
pub open spec fn spec_wrap(text: Seq<char>, width: nat) -> Seq<Seq<char>> {
    if width == 0 {
        seq![Seq::empty()]
    } else {
        let st = place_words(runs(text), width as int);
        st.0.push(st.1)
    }
}

/// Wrap `text` to `width` display columns, breaking on whitespace where
/// possible and splitting words that are too long to ever fit. Returns at
/// least one (possibly empty) line.
pub fn wrap(text: &str, width: usize) -> (r: Vec<String>)
    ensures
        part_strings(r@) == spec_wrap(text@, width as nat),
        r@.len() >= 1,
{
    if width == 0 {
        let mut r: Vec<String> = Vec::new();
        r.push(String::new());
        proof {
            assert(part_strings(r@) =~= seq![Seq::<char>::empty()]);
        }
        return r;
    }
    let cs = chars_of(text);
    let words = split_keeping_spaces(&cs);
    let ghost ws = part_views(words@);
    let mut lines: Vec<String> = Vec::new();
    let mut current: Vec<char> = Vec::new();
    let mut current_width: usize = 0;
    let mut k: usize = 0;
    proof {
        assert(ws.take(0) =~= Seq::<Seq<char>>::empty());
        assert(part_strings(lines@) =~= Seq::<Seq<char>>::empty());
    }
    while k < words.len()
        invariant
            k <= words@.len(),
            ws == part_views(words@),
            width > 0,
            (part_strings(lines@), current@, current_width as int) == place_words(
                ws.take(k as int),
                width as int,
            ),
        decreases words@.len() - k,
    {
        let word = &words[k];
        let ghost st = (part_strings(lines@), current@, current_width as int);
        proof {
            assert(ws.take(k + 1).drop_last() =~= ws.take(k as int));
            assert(ws.take(k + 1).last() == word@);
        }
        let word_str = string_of(word);
        let word_width = display_width(word_str.as_str());
        let fits = word_width <= width && current_width <= width - word_width;
        if is_all_ws(word) && !fits {
            let line = string_of(&current);
            lines.push(line);
            current = Vec::new();
            current_width = 0;
            proof {
                assert(part_strings(lines@) =~= st.0.push(st.1));
            }
        } else if fits {
            extend(&mut current, word);
            current_width = current_width + word_width;
        } else {
            if current.len() > 0 {
                let line = string_of(&current);
                lines.push(line);
                current = Vec::new();
                current_width = 0;
                proof {
                    assert(part_strings(lines@) =~= st.0.push(st.1));
                }
            }
            if word_width <= width {
                extend(&mut current, word);
                current_width = word_width;
            } else {
                let ghost st1 = (part_strings(lines@), current@, current_width as int);
                let mut j: usize = 0;
                proof {
                    assert(word@.take(0) =~= Seq::<char>::empty());
                }
                while j < word.len()
                    invariant
                        j <= word@.len(),
                        width > 0,
                        (part_strings(lines@), current@, current_width as int) == place_chars(
                            st1,
                            word@.take(j as int),
                            width as int,
                        ),
                    decreases word@.len() - j,
                {
                    let c = word[j];
                    proof {
                        assert(word@.take(j + 1).drop_last() =~= word@.take(j as int));
                        assert(word@.take(j + 1).last() == c);
                    }
                    let char_width = match char_display_width(c) {
                        Some(w) => w,
                        None => 0,
                    };
                    let ghost sj = (part_strings(lines@), current@, current_width as int);
                    if !(char_width <= width && current_width <= width - char_width) {
                        let line = string_of(&current);
                        lines.push(line);
                        current = Vec::new();
                        current_width = 0;
                        proof {
                            assert(part_strings(lines@) =~= sj.0.push(sj.1));
                        }
                    }
                    current.push(c);
                    current_width = current_width + char_width;
                    j += 1;
                }
                proof {
                    assert(word@.take(word@.len() as int) =~= word@);
                }
            }
        }
        k += 1;
    }
    proof {
        assert(ws.take(words@.len() as int) =~= ws);
    }
    let last = string_of(&current);
    lines.push(last);
    proof {
        assert(part_strings(lines@) =~= place_words(ws, width as int).0.push(place_words(ws, width as int).1));
    }
    lines
}

// ---------------------------------------------------------------- wrap laws --

/// The characters of `s` that are not whitespace, in order.
pub open spec fn visible_chars(s: Seq<char>) -> Seq<char> {
    s.filter(|c: char| !is_ws(c))
}

/// What a wrapping state holds so far: its finished lines, then the open one.
pub open spec fn placed(st: WrapState) -> Seq<char> {
    flatten(st.0) + st.1
}

proof fn lemma_flatten_push(parts: Seq<Seq<char>>, x: Seq<char>)
    ensures
        flatten(parts.push(x)) == flatten(parts) + x,
{
    assert(parts.push(x).drop_last() =~= parts);
}

proof fn lemma_flatten_front(a: Seq<char>, rest: Seq<Seq<char>>)
    ensures
        flatten(seq![a] + rest) == a + flatten(rest),
    decreases rest.len(),
{
    if rest.len() == 0 {
        let one: Seq<Seq<char>> = seq![a];
        assert(one + rest =~= one);
        assert(one.drop_last() =~= Seq::<Seq<char>>::empty());
        assert(flatten(one.drop_last()) == Seq::<char>::empty());
        assert(one.last() == a);
        assert(flatten(one) == flatten(one.drop_last()) + one.last());
        assert(Seq::<char>::empty() + a =~= a);
        assert(flatten(rest) == Seq::<char>::empty());
        assert(a + Seq::<char>::empty() =~= a);
    } else {
        lemma_flatten_front(a, rest.drop_last());
        assert((seq![a] + rest).drop_last() =~= seq![a] + rest.drop_last());
        assert((seq![a] + rest).last() == rest.last());
        assert(a + flatten(rest.drop_last()) + rest.last() =~= a + (flatten(rest.drop_last())
            + rest.last()));
    }
}

/// The runs of `s` put back together are `s`.
proof fn lemma_flatten_runs(s: Seq<char>)
    ensures
        flatten(runs(s)) == s,
    decreases s.len(),
{
    if s.len() == 0 {
        assert(runs(s) =~= Seq::<Seq<char>>::empty());
    } else {
        lemma_run_len(s);
        let n = run_len(s) as int;
        lemma_flatten_runs(s.skip(n));
        lemma_flatten_front(s.take(n), runs(s.skip(n)));
        assert(s.take(n) + s.skip(n) =~= s);
    }
}

proof fn lemma_place_chars(st: WrapState, word: Seq<char>, width: int)
    ensures
        placed(place_chars(st, word, width)) == placed(st) + word,
    decreases word.len(),
{
    if word.len() == 0 {
        assert(placed(st) + word =~= placed(st));
    } else {
        let st0 = place_chars(st, word.drop_last(), width);
        lemma_place_chars(st, word.drop_last(), width);
        let c = word.last();
        let st1 = if st0.2 + col_width(c) > width {
            break_line(st0)
        } else {
            st0
        };
        lemma_flatten_push(st0.0, st0.1);
        assert(placed(st1) =~= placed(st0));
        assert(placed(place_char(st0, c, width)) =~= placed(st1) + seq![c]);
        assert(placed(st) + word.drop_last() + seq![c] =~= placed(st) + word);
    }
}

proof fn lemma_visible_ws(w: Seq<char>)
    requires
        all_ws(w),
    ensures
        visible_chars(w) == Seq::<char>::empty(),
    decreases w.len(),
{
    reveal(Seq::filter);
    if w.len() > 0 {
        lemma_visible_ws(w.drop_last());
        assert(is_ws(w[w.len() - 1]));
    }
}

proof fn lemma_visible_add(a: Seq<char>, b: Seq<char>)
    ensures
        visible_chars(a + b) == visible_chars(a) + visible_chars(b),
    decreases b.len(),
{
    reveal(Seq::filter);
    if b.len() == 0 {
        assert(a + b =~= a);
        assert(visible_chars(a) + visible_chars(b) =~= visible_chars(a));
    } else {
        lemma_visible_add(a, b.drop_last());
        assert((a + b).drop_last() =~= a + b.drop_last());
        assert((a + b).last() == b.last());
        if !is_ws(b.last()) {
            assert(visible_chars(a) + visible_chars(b.drop_last()).push(b.last()) =~= (visible_chars(
                a,
            ) + visible_chars(b.drop_last())).push(b.last()));
        }
    }
}

proof fn lemma_place_word(st: WrapState, word: Seq<char>, width: int)
    ensures
        visible_chars(placed(place_word(st, word, width))) == visible_chars(placed(st))
            + visible_chars(word),
{
    let ww = str_width(word) as int;
    lemma_flatten_push(st.0, st.1);
    assert(placed(break_line(st)) =~= placed(st));
    if all_ws(word) && st.2 + ww > width {
        lemma_visible_ws(word);
        assert(visible_chars(placed(st)) + Seq::<char>::empty() =~= visible_chars(placed(st)));
    } else {
        let pw = place_word(st, word, width);
        if st.2 + ww <= width {
            assert(placed(pw) =~= placed(st) + word);
        } else {
            let st1 = if st.1.len() > 0 {
                break_line(st)
            } else {
                st
            };
            assert(placed(st1) =~= placed(st));
            if ww <= width {
                assert(placed(pw) =~= placed(st1) + word);
            } else {
                lemma_place_chars(st1, word, width);
            }
        }
        assert(placed(pw) == placed(st) + word);
        lemma_visible_add(placed(st), word);
    }
}

proof fn lemma_place_words(words: Seq<Seq<char>>, width: int)
    ensures
        visible_chars(placed(place_words(words, width))) == visible_chars(flatten(words)),
    decreases words.len(),
{
    if words.len() == 0 {
        assert(placed(place_words(words, width)) =~= Seq::<char>::empty());
        assert(flatten(words) =~= Seq::<char>::empty());
    } else {
        lemma_place_words(words.drop_last(), width);
        lemma_place_word(place_words(words.drop_last(), width), words.last(), width);
        lemma_visible_add(flatten(words.drop_last()), words.last());
    }
}

/// Wrapping to a positive width loses no character but whitespace, and keeps
/// the order: the lines put together hold the text's other characters exactly.
pub proof fn law_wrap_keeps_every_visible_character(text: Seq<char>, width: nat)
    requires
        width > 0,
    ensures
        visible_chars(flatten(spec_wrap(text, width))) == visible_chars(text),
{
    let st = place_words(runs(text), width as int);
    lemma_flatten_push(st.0, st.1);
    lemma_place_words(runs(text), width as int);
    lemma_flatten_runs(text);
}

/// The parts whose flag is set, in order.
pub open spec fn select_parts(parts: Seq<Seq<char>>, keep: Seq<bool>) -> Seq<Seq<char>>
    decreases parts.len(),
{
    if parts.len() == 0 {
        Seq::empty()
    } else {
        let rest = select_parts(parts.drop_last(), keep.drop_last());
        if keep.last() {
            rest.push(parts.last())
        } else {
            rest
        }
    }
}

proof fn placed_keep(words: Seq<Seq<char>>, width: int) -> (keep: Seq<bool>)
    ensures
        keep.len() == words.len(),
        forall|i: int| 0 <= i < keep.len() && !#[trigger] keep[i] ==> all_ws(words[i]),
        placed(place_words(words, width)) == flatten(select_parts(words, keep)),
    decreases words.len(),
{
    if words.len() == 0 {
        assert(placed(place_words(words, width)) =~= Seq::<char>::empty());
        Seq::empty()
    } else {
        let init = words.drop_last();
        let word = words.last();
        let k0 = placed_keep(init, width);
        let st = place_words(init, width);
        let ww = str_width(word) as int;
        lemma_flatten_push(st.0, st.1);
        assert(placed(break_line(st)) =~= placed(st));
        let dropped = all_ws(word) && st.2 + ww > width;
        let keep = k0.push(!dropped);
        assert(keep.drop_last() =~= k0);
        let pw = place_word(st, word, width);
        if !dropped {
            if st.2 + ww <= width {
                assert(placed(pw) =~= placed(st) + word);
            } else {
                let st1 = if st.1.len() > 0 {
                    break_line(st)
                } else {
                    st
                };
                assert(placed(st1) =~= placed(st));
                if ww <= width {
                    assert(placed(pw) =~= placed(st1) + word);
                } else {
                    lemma_place_chars(st1, word, width);
                }
            }
            lemma_flatten_push(select_parts(init, k0), word);
        }
        assert forall|i: int| 0 <= i < keep.len() && !#[trigger] keep[i] implies all_ws(words[i]) by {
            if i < k0.len() {
                assert(keep[i] == k0[i]);
                assert(words[i] == init[i]);
            }
        }
        keep
    }
}

/// Wrapping to a positive width drops only whole whitespace runs: the lines
/// put together are the text's maximal runs, in order, with some of its
/// whitespace runs left out; nothing else is changed or added.
pub proof fn law_wrap_drops_only_whitespace_runs(text: Seq<char>, width: nat)
    requires
        width > 0,
    ensures
        exists|keep: Seq<bool>|
            {
                &&& keep.len() == runs(text).len()
                &&& forall|i: int|
                    0 <= i < keep.len() && !#[trigger] keep[i] ==> all_ws(runs(text)[i])
                &&& flatten(spec_wrap(text, width)) == flatten(select_parts(runs(text), keep))
            },
{
    let st = place_words(runs(text), width as int);
    lemma_flatten_push(st.0, st.1);
    let keep = placed_keep(runs(text), width as int);
    assert(flatten(spec_wrap(text, width)) == flatten(select_parts(runs(text), keep)));
}

/// Total display columns of a sequence of runs, each measured on its own.
pub open spec fn run_widths(words: Seq<Seq<char>>) -> nat
    decreases words.len(),
{
    if words.len() == 0 {
        0
    } else {
        run_widths(words.drop_last()) + str_width(words.last()) as nat
    }
}

/// A run, whitespace or not, that fits in the columns left on the open line
/// is appended to it as it is: whitespace is dropped only where it does not
/// fit, at the edge.
pub proof fn law_a_fitting_run_is_kept(st: WrapState, word: Seq<char>, width: int)
    requires
        st.2 + str_width(word) <= width,
    ensures
        place_word(st, word, width) == (st.0, st.1 + word, st.2 + str_width(word)),
{
}

proof fn lemma_place_fitting(words: Seq<Seq<char>>, width: int)
    requires
        run_widths(words) <= width,
    ensures
        place_words(words, width) == (Seq::<Seq<char>>::empty(), flatten(words), run_widths(
            words,
        ) as int),
    decreases words.len(),
{
    if words.len() > 0 {
        lemma_place_fitting(words.drop_last(), width);
    } else {
        assert(flatten(words) =~= Seq::<char>::empty());
    }
}

/// Text whose runs fit the width side by side comes back as one line equal
/// to the text, leading and interior spacing included.
pub proof fn law_text_that_fits_is_one_line(text: Seq<char>, width: nat)
    requires
        width > 0,
        run_widths(runs(text)) <= width,
    ensures
        spec_wrap(text, width) == seq![text],
{
    lemma_place_fitting(runs(text), width as int);
    lemma_flatten_runs(text);
    let st = place_words(runs(text), width as int);
    assert(st.0.push(st.1) =~= seq![text]);
}

/// A wrapping state together with the columns counted for each finished line.
pub type ColState = (WrapState, Seq<int>);

pub open spec fn cbreak(cs: ColState) -> ColState {
    (break_line(cs.0), cs.1.push(cs.0.2))
}

pub open spec fn cplace_char(cs: ColState, c: char, width: int) -> ColState {
    let cs1 = if cs.0.2 + col_width(c) > width {
        cbreak(cs)
    } else {
        cs
    };
    ((cs1.0.0, cs1.0.1.push(c), cs1.0.2 + col_width(c)), cs1.1)
}

pub open spec fn cplace_chars(cs: ColState, word: Seq<char>, width: int) -> ColState
    decreases word.len(),
{
    if word.len() == 0 {
        cs
    } else {
        cplace_char(cplace_chars(cs, word.drop_last(), width), word.last(), width)
    }
}

pub open spec fn cplace_word(cs: ColState, word: Seq<char>, width: int) -> ColState {
    let st = cs.0;
    let ww = str_width(word) as int;
    if all_ws(word) && st.2 + ww > width {
        cbreak(cs)
    } else if st.2 + ww <= width {
        ((st.0, st.1 + word, st.2 + ww), cs.1)
    } else {
        let cs1 = if st.1.len() > 0 {
            cbreak(cs)
        } else {
            cs
        };
        if ww <= width {
            ((cs1.0.0, cs1.0.1 + word, ww), cs1.1)
        } else {
            cplace_chars(cs1, word, width)
        }
    }
}

pub open spec fn cplace_words(words: Seq<Seq<char>>, width: int) -> ColState
    decreases words.len(),
{
    if words.len() == 0 {
        ((Seq::empty(), Seq::empty(), 0), Seq::empty())
    } else {
        cplace_word(cplace_words(words.drop_last(), width), words.last(), width)
    }
}

/// The columns wrapping counts for each line of [`spec_wrap`]: a run of the
/// text by its display width, a character split off a long word by its own.
pub open spec fn wrap_cols(text: Seq<char>, width: nat) -> Seq<int> {
    if width == 0 {
        seq![0]
    } else {
        let cs = cplace_words(runs(text), width as int);
        cs.1.push(cs.0.2)
    }
}

/// Every counted line fits `width`, but for a line of one character that is
/// wider by itself; the open line too; an empty open line counts nothing.
pub open spec fn cols_ok(cs: ColState, width: int) -> bool {
    &&& cs.1.len() == cs.0.0.len()
    &&& forall|i: int|
        0 <= i < cs.1.len() ==> 0 <= #[trigger] cs.1[i] && (cs.1[i] <= width || cs.0.0[i].len()
            == 1)
    &&& 0 <= cs.0.2
    &&& (cs.0.2 <= width || cs.0.1.len() == 1)
    &&& (cs.0.1.len() == 0 ==> cs.0.2 == 0)
}

proof fn lemma_cbreak(cs: ColState, width: int)
    requires
        cols_ok(cs, width),
        width >= 0,
    ensures
        cols_ok(cbreak(cs), width),
        cbreak(cs).0 == break_line(cs.0),
{
    let n = cbreak(cs);
    assert forall|i: int| 0 <= i < n.1.len() implies 0 <= #[trigger] n.1[i] && (n.1[i] <= width
        || n.0.0[i].len() == 1) by {
        if i < cs.1.len() {
            assert(n.1[i] == cs.1[i]);
            assert(n.0.0[i] == cs.0.0[i]);
        } else {
            assert(n.1[i] == cs.0.2);
            assert(n.0.0[i] == cs.0.1);
        }
    }
}

proof fn lemma_cplace_chars(cs: ColState, word: Seq<char>, width: int)
    requires
        cols_ok(cs, width),
        width >= 0,
    ensures
        cols_ok(cplace_chars(cs, word, width), width),
        cplace_chars(cs, word, width).0 == place_chars(cs.0, word, width),
    decreases word.len(),
{
    if word.len() > 0 {
        let c0 = cplace_chars(cs, word.drop_last(), width);
        lemma_cplace_chars(cs, word.drop_last(), width);
        let c = word.last();
        let cw = col_width(c);
        assert(cw >= 0);
        if c0.0.2 + cw > width {
            lemma_cbreak(c0, width);
        }
        let cs1 = if c0.0.2 + cw > width {
            cbreak(c0)
        } else {
            c0
        };
        let r = cplace_char(c0, c, width);
        assert(r.0.0 == cs1.0.0);
        assert(r.1 == cs1.1);
        if cs1.0.1.len() == 0 {
            assert(r.0.1.len() == 1);
        }
    }
}

proof fn lemma_cplace_word(cs: ColState, word: Seq<char>, width: int)
    requires
        cols_ok(cs, width),
        width >= 0,
        word.len() > 0,
    ensures
        cols_ok(cplace_word(cs, word, width), width),
        cplace_word(cs, word, width).0 == place_word(cs.0, word, width),
{
    let st = cs.0;
    let ww = str_width(word) as int;
    lemma_cbreak(cs, width);
    if all_ws(word) && st.2 + ww > width {
    } else if st.2 + ww <= width {
    } else {
        let cs1 = if st.1.len() > 0 {
            cbreak(cs)
        } else {
            cs
        };
        if ww <= width {
        } else {
            lemma_cplace_chars(cs1, word, width);
        }
    }
}

proof fn lemma_runs_nonempty(s: Seq<char>)
    ensures
        forall|i: int| 0 <= i < runs(s).len() ==> (#[trigger] runs(s)[i]).len() > 0,
    decreases s.len(),
{
    if s.len() > 0 {
        lemma_run_len(s);
        let n = run_len(s) as int;
        lemma_runs_nonempty(s.skip(n));
        let r = runs(s);
        assert forall|i: int| 0 <= i < r.len() implies (#[trigger] r[i]).len() > 0 by {
            if i > 0 {
                assert(r[i] == runs(s.skip(n))[i - 1]);
            }
        }
    }
}

proof fn lemma_runs_shape(s: Seq<char>)
    ensures
        runs(s).len() == 0 <==> s.len() == 0,
        s.len() > 0 ==> runs(s)[0].len() > 0 && runs(s)[0][0] == s[0],
        forall|i: int, j: int|
            0 <= i < runs(s).len() && 0 <= j < runs(s)[i].len() ==> is_ws(#[trigger] runs(s)[i][j])
                == is_ws(runs(s)[i][0]),
        forall|i: int|
            0 <= i < runs(s).len() - 1 ==> is_ws(#[trigger] runs(s)[i][0]) != is_ws(
                runs(s)[i + 1][0],
            ),
    decreases s.len(),
{
    if s.len() > 0 {
        lemma_run_len(s);
        let n = run_len(s) as int;
        let t = s.skip(n);
        lemma_runs_shape(t);
        let r = runs(s);
        assert(r == seq![s.take(n)] + runs(t));
        assert forall|i: int, j: int|
            0 <= i < r.len() && 0 <= j < r[i].len() implies is_ws(#[trigger] r[i][j]) == is_ws(
                r[i][0],
            ) by {
            if i > 0 {
                assert(r[i] == runs(t)[i - 1]);
            } else {
                assert(r[0][j] == s[j]);
            }
        }
        assert forall|i: int| 0 <= i < r.len() - 1 implies is_ws(#[trigger] r[i][0]) != is_ws(
            r[i + 1][0],
        ) by {
            assert(r[i + 1] == runs(t)[i]);
            if i > 0 {
                assert(r[i] == runs(t)[i - 1]);
            } else {
                assert(t[0] == s[n]);
            }
        }
    }
}

/// Splitting into runs loses nothing and cuts only where the kind changes:
/// the runs put back together are the text, none is empty, each is all
/// whitespace or has none, neighbours differ in kind, and there are none
/// exactly when the text is empty.
pub proof fn law_runs_partition(s: Seq<char>)
    ensures
        flatten(runs(s)) == s,
        runs(s).len() == 0 <==> s.len() == 0,
        forall|i: int| 0 <= i < runs(s).len() ==> (#[trigger] runs(s)[i]).len() > 0,
        forall|i: int, j: int|
            0 <= i < runs(s).len() && 0 <= j < runs(s)[i].len() ==> is_ws(#[trigger] runs(s)[i][j])
                == is_ws(runs(s)[i][0]),
        forall|i: int|
            0 <= i < runs(s).len() - 1 ==> is_ws(#[trigger] runs(s)[i][0]) != is_ws(
                runs(s)[i + 1][0],
            ),
{
    lemma_flatten_runs(s);
    lemma_runs_nonempty(s);
    lemma_runs_shape(s);
}

proof fn lemma_cplace_words(words: Seq<Seq<char>>, width: int)
    requires
        width >= 0,
        forall|i: int| 0 <= i < words.len() ==> (#[trigger] words[i]).len() > 0,
    ensures
        cols_ok(cplace_words(words, width), width),
        cplace_words(words, width).0 == place_words(words, width),
    decreases words.len(),
{
    if words.len() > 0 {
        let init = words.drop_last();
        assert forall|i: int| 0 <= i < init.len() implies (#[trigger] init[i]).len() > 0 by {
            assert(init[i] == words[i]);
        }
        lemma_cplace_words(init, width);
        assert(words.last() == words[words.len() - 1]);
        lemma_cplace_word(cplace_words(init, width), words.last(), width);
    }
}

/// Wrapping keeps every line within the width, counting columns as the
/// wrapping does; only a single character wider than the pane gets a line of
/// its own that overflows it.
pub proof fn law_wrapped_lines_fit(text: Seq<char>, width: nat)
    ensures
        wrap_cols(text, width).len() == spec_wrap(text, width).len(),
        forall|i: int|
            0 <= i < wrap_cols(text, width).len() ==> #[trigger] wrap_cols(text, width)[i] <= width
                || spec_wrap(text, width)[i].len() == 1,
{
    if width > 0 {
        lemma_runs_nonempty(text);
        lemma_cplace_words(runs(text), width as int);
        let cs = cplace_words(runs(text), width as int);
        let cols = wrap_cols(text, width);
        let lines = spec_wrap(text, width);
        assert forall|i: int| 0 <= i < cols.len() implies #[trigger] cols[i] <= width
            || lines[i].len() == 1 by {
            if i < cs.1.len() {
                assert(cols[i] == cs.1[i]);
                assert(lines[i] == cs.0.0[i]);
            } else {
                assert(cols[i] == cs.0.2);
                assert(lines[i] == cs.0.1);
            }
        }
    }
}

pub open spec fn part_strings(v: Seq<String>) -> Seq<Seq<char>> {
    v.map_values(|s: String| s@)
}

// ---------------------------------------------------------------- matching --

/// The first index at or after `from` where `pin` occurs in `hay`.
#[verifier::opaque]
pub open spec fn first_match(hay: Seq<char>, pin: Seq<char>, from: int) -> Option<int> {
    if exists|i: int| from <= i && occurs_at(hay, pin, i) {
        Some(
            choose|i: int|
                from <= i && occurs_at(hay, pin, i) && forall|j: int|
                    from <= j < i ==> !occurs_at(hay, pin, j),
        )
    } else {
        None
    }
}

pub proof fn lemma_first_match(hay: Seq<char>, pin: Seq<char>, from: int)
    ensures
        first_match(hay, pin, from) matches Some(i) ==> from <= i && occurs_at(hay, pin, i)
            && forall|j: int| from <= j < i ==> !occurs_at(hay, pin, j),
        first_match(hay, pin, from) is None ==> forall|j: int| from <= j ==> !occurs_at(hay, pin, j),
{
    reveal(first_match);
    if exists|i: int| from <= i && occurs_at(hay, pin, i) {
        let w = choose|i: int| from <= i && occurs_at(hay, pin, i);
        lemma_least_match(hay, pin, from, w);
    }
}

proof fn lemma_least_match(hay: Seq<char>, pin: Seq<char>, from: int, w: int)
    requires
        from <= w,
        occurs_at(hay, pin, w),
    ensures
        exists|i: int|
            from <= i && occurs_at(hay, pin, i) && forall|j: int|
                from <= j < i ==> !occurs_at(hay, pin, j),
    decreases w - from,
{
    if exists|j: int| from <= j < w && occurs_at(hay, pin, j) {
        let j = choose|j: int| from <= j < w && occurs_at(hay, pin, j);
        lemma_least_match(hay, pin, from, j);
    } else {
        assert(forall|j: int| from <= j < w ==> !occurs_at(hay, pin, j));
    }
}

/// Start indices of the successive non-overlapping occurrences of `pin` in
/// `hay` at or after `from`, scanning left to right.
pub open spec fn match_starts(hay: Seq<char>, pin: Seq<char>, from: int) -> Seq<int>
    decreases hay.len() - from,
{
    if pin.len() == 0 || from < 0 || from > hay.len() {
        Seq::empty()
    } else {
        match first_match(hay, pin, from) {
            None => Seq::empty(),
            Some(i) => {
                proof {
                    lemma_first_match(hay, pin, from);
                }
                seq![i] + match_starts(hay, pin, i + pin.len())
            },
        }
    }
}

/// Byte range of the occurrence of `pin` starting at character index `i`.
pub open spec fn range_of(hay: Seq<char>, pin: Seq<char>, i: int) -> (int, int) {
    (blen(hay.take(i)) as int, (blen(hay.take(i)) + blen(pin)) as int)
}

/// Byte ranges of the successive occurrences at or after `from`.
pub open spec fn ranges_from(hay: Seq<char>, pin: Seq<char>, from: int) -> Seq<(int, int)> {
    match_starts(hay, pin, from).map_values(|i: int| range_of(hay, pin, i))
}

/// The byte ranges of the successive occurrences of `pin` in `hay`.
pub open spec fn match_ranges(hay: Seq<char>, pin: Seq<char>) -> Seq<(int, int)> {
    ranges_from(hay, pin, 0)
}

proof fn lemma_ranges_step(hay: Seq<char>, pin: Seq<char>, from: int, i: int)
    requires
        pin.len() > 0,
        0 <= from <= hay.len(),
        first_match(hay, pin, from) == Some(i),
    ensures
        ranges_from(hay, pin, from) == seq![range_of(hay, pin, i)] + ranges_from(
            hay,
            pin,
            i + pin.len(),
        ),
{
    let rest = match_starts(hay, pin, i + pin.len());
    assert(match_starts(hay, pin, from) == seq![i] + rest);
    assert((seq![i] + rest).map_values(|k: int| range_of(hay, pin, k)) =~= seq![
        range_of(hay, pin, i),
    ] + rest.map_values(|k: int| range_of(hay, pin, k)));
}

proof fn lemma_match_starts(hay: Seq<char>, pin: Seq<char>, from: int)
    requires
        pin.len() > 0,
        0 <= from <= hay.len(),
    ensures
        forall|i: int|
            0 <= i < match_starts(hay, pin, from).len() ==> from <= #[trigger] match_starts(
                hay,
                pin,
                from,
            )[i] && occurs_at(hay, pin, match_starts(hay, pin, from)[i]),
        forall|i: int, j: int|
            0 <= i < j < match_starts(hay, pin, from).len() ==> #[trigger] match_starts(
                hay,
                pin,
                from,
            )[i] + pin.len() <= #[trigger] match_starts(hay, pin, from)[j],
    decreases hay.len() - from,
{
    lemma_first_match(hay, pin, from);
    if let Some(k) = first_match(hay, pin, from) {
        let next = k + pin.len();
        let rest = match_starts(hay, pin, next);
        let st = match_starts(hay, pin, from);
        assert(st == seq![k] + rest);
        lemma_match_starts(hay, pin, next);
        assert forall|i: int| 0 <= i < st.len() implies from <= #[trigger] st[i] && occurs_at(
            hay,
            pin,
            st[i],
        ) by {
            if i > 0 {
                assert(st[i] == rest[i - 1]);
            }
        }
        assert forall|i: int, j: int| 0 <= i < j < st.len() implies #[trigger] st[i] + pin.len()
            <= #[trigger] st[j] by {
            assert(st[j] == rest[j - 1]);
            if i > 0 {
                assert(st[i] == rest[i - 1]);
            }
        }
    }
}

proof fn lemma_range_before(hay: Seq<char>, pin: Seq<char>, a: int, b: int)
    requires
        occurs_at(hay, pin, a),
        a + pin.len() <= b <= hay.len(),
    ensures
        range_of(hay, pin, a).1 <= range_of(hay, pin, b).0,
{
    let e = a + pin.len();
    assert(hay.take(e) =~= hay.take(a) + hay.subrange(a, e));
    crate::text::lemma_blen_concat(hay.take(a), pin);
    if e < b {
        crate::text::lemma_blen_take_strict(hay, e, b);
    }
}

/// The occurrences found run left to right without overlapping; each range
/// spans as many bytes as the needle and starts where the needle occurs.
pub proof fn law_matches_are_ordered_occurrences(hay: Seq<char>, pin: Seq<char>)
    requires
        pin.len() > 0,
    ensures
        forall|i: int|
            0 <= i < match_ranges(hay, pin).len() ==> (#[trigger] match_ranges(hay, pin)[i]).1
                - match_ranges(hay, pin)[i].0 == blen(pin) && exists|k: int|
                occurs_at(hay, pin, k) && match_ranges(hay, pin)[i].0 == blen(hay.take(k)),
        forall|i: int, j: int|
            0 <= i < j < match_ranges(hay, pin).len() ==> (#[trigger] match_ranges(hay, pin)[i]).1
                <= (#[trigger] match_ranges(hay, pin)[j]).0,
{
    let st = match_starts(hay, pin, 0);
    let m = match_ranges(hay, pin);
    lemma_match_starts(hay, pin, 0);
    assert forall|i: int| 0 <= i < m.len() implies (#[trigger] m[i]).1 - m[i].0 == blen(pin)
        && exists|k: int| occurs_at(hay, pin, k) && m[i].0 == blen(hay.take(k)) by {
        assert(m[i] == range_of(hay, pin, st[i]));
        assert(occurs_at(hay, pin, st[i]));
    }
    assert forall|i: int, j: int| 0 <= i < j < m.len() implies (#[trigger] m[i]).1 <= (
    #[trigger] m[j]).0 by {
        assert(st[i] + pin.len() <= st[j]);
        assert(occurs_at(hay, pin, st[j]));
        lemma_range_before(hay, pin, st[i], st[j]);
    }
}

proof fn lemma_match_starts_greedy(hay: Seq<char>, pin: Seq<char>, from: int)
    requires
        pin.len() > 0,
        0 <= from <= hay.len(),
    ensures
        ({
            let st = match_starts(hay, pin, from);
            &&& st.len() == 0 ==> forall|p: int| from <= p ==> !occurs_at(hay, pin, p)
            &&& st.len() > 0 ==> forall|p: int| from <= p < st[0] ==> !occurs_at(hay, pin, p)
            &&& forall|i: int, p: int|
                #![trigger st[i], occurs_at(hay, pin, p)]
                0 <= i < st.len() - 1 && st[i] + pin.len() <= p < st[i + 1] ==> !occurs_at(
                    hay,
                    pin,
                    p,
                )
            &&& st.len() > 0 ==> forall|p: int|
                st.last() + pin.len() <= p ==> !occurs_at(hay, pin, p)
        }),
    decreases hay.len() - from,
{
    lemma_first_match(hay, pin, from);
    if let Some(k) = first_match(hay, pin, from) {
        let next = k + pin.len();
        let rest = match_starts(hay, pin, next);
        let st = match_starts(hay, pin, from);
        assert(st == seq![k] + rest);
        lemma_match_starts_greedy(hay, pin, next);
        assert forall|i: int, p: int|
            #![trigger st[i], occurs_at(hay, pin, p)]
            0 <= i < st.len() - 1 && st[i] + pin.len() <= p < st[i + 1] implies !occurs_at(
            hay,
            pin,
            p,
        ) by {
            assert(st[i + 1] == rest[i]);
            if i > 0 {
                assert(st[i] == rest[i - 1]);
            }
        }
        if rest.len() > 0 {
            assert(st.last() == rest.last());
        }
    }
}

/// The matching scans left to right and takes each occurrence it meets,
/// then goes on after it: the first match is the leftmost occurrence, no
/// occurrence starts between the end of one match and the start of the
/// next, none starts after the end of the last, and there are no matches
/// exactly when the needle does not occur.
pub proof fn law_matches_are_greedy_leftmost(hay: Seq<char>, pin: Seq<char>)
    requires
        pin.len() > 0,
    ensures
        ({
            let st = match_starts(hay, pin, 0);
            &&& match_ranges(hay, pin) == st.map_values(|i: int| range_of(hay, pin, i))
            &&& forall|i: int| 0 <= i < st.len() ==> occurs_at(hay, pin, #[trigger] st[i])
            &&& st.len() == 0 <==> forall|p: int| !occurs_at(hay, pin, p)
            &&& st.len() > 0 ==> forall|p: int| p < st[0] ==> !occurs_at(hay, pin, p)
            &&& forall|i: int, p: int|
                #![trigger st[i], occurs_at(hay, pin, p)]
                0 <= i < st.len() - 1 && st[i] + pin.len() <= p < st[i + 1] ==> !occurs_at(
                    hay,
                    pin,
                    p,
                )
            &&& st.len() > 0 ==> forall|p: int|
                st.last() + pin.len() <= p ==> !occurs_at(hay, pin, p)
        }),
{
    lemma_match_starts(hay, pin, 0);
    lemma_match_starts_greedy(hay, pin, 0);
    let st = match_starts(hay, pin, 0);
    if st.len() > 0 {
        assert(occurs_at(hay, pin, st[0]));
    }
}

/// What `find_matches(haystack, needle)` returns: the byte ranges of every
/// case-insensitive occurrence, or of every exact occurrence when lowercasing
/// changes the byte length of either string (offsets would not line up).
pub open spec fn spec_find_matches(haystack: Seq<char>, needle: Seq<char>) -> Seq<(int, int)> {
    if needle.len() == 0 {
        Seq::empty()
    } else {
        let hay = lowercase(haystack);
        let pin = lowercase(needle);
        if blen(hay) == blen(haystack) && blen(pin) == blen(needle) {
            match_ranges(hay, pin)
        } else {
            match_ranges(haystack, needle)
        }
    }
}

pub open spec fn range_views(v: Seq<(usize, usize)>) -> Seq<(int, int)> {
    v.map_values(|r: (usize, usize)| (r.0 as int, r.1 as int))
}

/// First index at or after `from` where `pin` occurs in `hay`.
fn find_from(hay: &Vec<char>, pin: &Vec<char>, from: usize) -> (r: Option<usize>)
    requires
        from <= hay.len(),
    ensures
        match r {
            Some(i) => first_match(hay@, pin@, from as int) == Some(i as int),
            None => first_match(hay@, pin@, from as int) is None,
        },
{
    reveal(first_match);
    if pin.len() > hay.len() {
        proof {
            assert(forall|i: int| !occurs_at(hay@, pin@, i));
        }
        return None;
    }
    let last = hay.len() - pin.len();
    let mut i = from;
    while i <= last
        invariant
            from <= i,
            last == hay.len() - pin.len(),
            forall|j: int| from <= j < i ==> !occurs_at(hay@, pin@, j),
        decreases last + 1 - i,
    {
        if matches_at(hay, pin, i) {
            proof {
                reveal(first_match);
                lemma_first_match(hay@, pin@, from as int);
                let f = first_match(hay@, pin@, from as int);
                assert(f is Some);
                let k = f->0;
                if k < i {
                } else if k > i {
                }
            }
            return Some(i);
        }
        if i == last {
            proof {
                assert forall|j: int| from <= j implies !occurs_at(hay@, pin@, j) by {
                    if j < i {
                    } else if j == i {
                    } else {
                    }
                }
                assert(!(exists|j: int| from <= j && occurs_at(hay@, pin@, j)));
                reveal(first_match);
            }
            return None;
        }
        i += 1;
    }
    proof {
        assert(forall|j: int| from <= j ==> !occurs_at(hay@, pin@, j));
    }
    None
}

/// Byte ranges of the successive occurrences of `pin` in `hay`.
pub fn ranges_of(hay: &Vec<char>, pin: &Vec<char>) -> (r: Vec<(usize, usize)>)
    requires
        pin@.len() > 0,
        blen(hay@) <= usize::MAX,
        blen(pin@) <= usize::MAX,
    ensures
        range_views(r@) == match_ranges(hay@, pin@),
{
    let pin_len = crate::text::byte_len(pin);
    let mut out: Vec<(usize, usize)> = Vec::new();
    let mut from: usize = 0;
    proof {
        assert(range_views(out@) + ranges_from(hay@, pin@, 0) =~= ranges_from(hay@, pin@, 0));
    }
    while from <= hay.len()
        invariant
            from <= hay.len() + pin@.len(),
            pin@.len() > 0,
            blen(hay@) <= usize::MAX,
            pin_len == blen(pin@),
            match_ranges(hay@, pin@) == range_views(out@) + ranges_from(hay@, pin@, from as int),
        decreases hay.len() + 1 - from,
    {
        match find_from(hay, pin, from) {
            None => {
                proof {
                    assert(ranges_from(hay@, pin@, from as int) =~= Seq::<(int, int)>::empty());
                    assert(range_views(out@) + Seq::<(int, int)>::empty() =~= range_views(out@));
                }
                return out;
            },
            Some(i) => {
                proof {
                    lemma_first_match(hay@, pin@, from as int);
                    lemma_ranges_step(hay@, pin@, from as int, i as int);
                    lemma_blen_take_le(hay@, i as int);
                    lemma_blen_take_le(hay@, i + pin@.len());
                    assert(hay@.take(i + pin@.len()) =~= hay@.take(i as int) + pin@);
                    crate::text::lemma_blen_concat(hay@.take(i as int), pin@);
                }
                let start = crate::text::byte_offset(hay, i);
                let end = start + pin_len;
                let ghost before = range_views(out@);
                out.push((start, end));
                proof {
                    assert(range_views(out@) =~= before.push(range_of(hay@, pin@, i as int)));
                    assert(before + (seq![range_of(hay@, pin@, i as int)] + ranges_from(
                        hay@,
                        pin@,
                        i + pin@.len(),
                    )) =~= before.push(range_of(hay@, pin@, i as int)) + ranges_from(
                        hay@,
                        pin@,
                        i + pin@.len(),
                    ));
                }
                from = i + pin.len();
            },
        }
    }
    proof {
        assert(ranges_from(hay@, pin@, from as int) =~= Seq::<(int, int)>::empty());
        assert(range_views(out@) + Seq::<(int, int)>::empty() =~= range_views(out@));
    }
    out
}

/// Byte ranges of every case-insensitive occurrence of `needle` in `haystack`.
/// On ASCII text these are the occurrences in the ASCII-lowercased strings.
pub fn find_matches(haystack: &str, needle: &str) -> (r: Vec<(usize, usize)>)
    ensures
        range_views(r@) == spec_find_matches(haystack@, needle@),
        all_ascii(haystack@) && all_ascii(needle@) && needle@.len() > 0 ==> range_views(r@)
            == match_ranges(ascii_lower(haystack@), ascii_lower(needle@)),
{
    let _ = crate::text::utf8_len(haystack);
    let _ = crate::text::utf8_len(needle);
    if needle.is_empty() {
        let r: Vec<(usize, usize)> = Vec::new();
        proof {
            assert(range_views(r@) =~= Seq::<(int, int)>::empty());
        }
        return r;
    }
    let hay_orig = chars_of(haystack);
    let pin_orig = chars_of(needle);
    let hay_len = crate::text::byte_len(&hay_orig);
    let pin_len = crate::text::byte_len(&pin_orig);
    let hay_low = chars_of(to_lowercase(haystack).as_str());
    let pin_low = chars_of(to_lowercase(needle).as_str());
    proof {
        if all_ascii(haystack@) && all_ascii(needle@) {
            lemma_ascii_lower(haystack@);
            lemma_ascii_lower(needle@);
            crate::text::lemma_blen_ascii(haystack@);
            crate::text::lemma_blen_ascii(needle@);
        }
    }
    let same = match (byte_len_within(&hay_low, hay_len), byte_len_within(&pin_low, pin_len)) {
        (Some(a), Some(b)) => a == hay_len && b == pin_len,
        _ => false,
    };
    if same {
        if pin_low.len() == 0 {
            proof {
                assert(blen(pin_low@) == 0);
                crate::text::lemma_blen_take_le(pin_orig@, 1);
            }
            let r: Vec<(usize, usize)> = Vec::new();
            return r;
        }
        ranges_of(&hay_low, &pin_low)
    } else {
        ranges_of(&hay_orig, &pin_orig)
    }
}

} // verus!
