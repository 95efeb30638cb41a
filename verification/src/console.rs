//! Glue between the server and the console: cleaning log text, turning a
//! command reply into log records, the uptime readout, chunk totals, and how
//! a completion query against the server's dispatcher is decided and answered.

use vstd::prelude::*;

use crate::backend::{Level, LogRecord};
use crate::completion::{
    cview, cviews, CView, CommandTree, Completion, CompletionKind, CompletionRequest, Completions,
    Node, clamp_cursor, req_prefix, request_ok, node_name, node_detail, node_children, is_literal,
    node_executes, values_fit,
};
use crate::history::split_newlines;
use crate::text::{blen, chars_of, copy_str, slice, string_of, trimmed, trim, chars_eq};

verus! {

// ---------------------------------------------------------------- ANSI --

/// Index just past the final byte (U+0040..U+007E) of a CSI sequence whose
/// parameters start `s`, or `s.len()` when it never ends.
pub open spec fn csi_end(s: Seq<char>) -> nat
    decreases s.len(),
{
    if s.len() == 0 {
        0
    } else if 0x40 <= (s[0] as u32) <= 0x7E {
        1
    } else {
        1 + csi_end(s.drop_first())
    }
}

/// `s` with ANSI escape sequences removed: a CSI sequence (`ESC [` up to and
/// including its final byte) or any other two-character escape (`ESC x`); a
/// lone `ESC` at the end is dropped.
pub open spec fn strip(s: Seq<char>) -> Seq<char>
    decreases s.len(),
{
    if s.len() == 0 {
        Seq::empty()
    } else if s[0] != '\u{1b}' {
        seq![s[0]] + strip(s.drop_first())
    } else if s.len() == 1 {
        Seq::empty()
    } else if s[1] != '[' {
        strip(s.skip(2))
    } else {
        proof {
            lemma_csi_end(s.skip(2));
        }
        strip(s.skip(2).skip(csi_end(s.skip(2)) as int))
    }
}

pub proof fn lemma_csi_end(s: Seq<char>)
    ensures
        csi_end(s) <= s.len(),
    decreases s.len(),
{
    if s.len() > 0 && !(0x40 <= (s[0] as u32) <= 0x7E) {
        lemma_csi_end(s.drop_first());
    }
}

/// Drop ANSI escape sequences, so coloured chat components show as plain text.
pub fn strip_ansi(text: &str) -> (r: String)
    ensures
        r@ == strip(text@),
{
    let cs = chars_of(text);
    let mut out: Vec<char> = Vec::new();
    let mut i: usize = 0;
    assert(cs@.skip(0) =~= cs@);
    while i < cs.len()
        invariant
            i <= cs.len(),
            strip(cs@) == out@ + strip(cs@.skip(i as int)),
        decreases cs.len() - i,
    {
        let ghost rest = cs@.skip(i as int);
        let c = cs[i];
        proof {
            assert(rest[0] == c);
        }
        if c != '\u{1b}' {
            out.push(c);
            i += 1;
            proof {
                assert(rest.drop_first() =~= cs@.skip(i as int));
                assert(out@ + strip(cs@.skip(i as int)) =~= out@.drop_last() + (seq![c] + strip(
                    rest.drop_first(),
                )));
            }
        } else if i + 1 == cs.len() {
            i += 1;
            proof {
                assert(cs@.skip(i as int) =~= Seq::<char>::empty());
            }
        } else if cs[i + 1] != '[' {
            proof {
                assert(rest[1] == cs@[i + 1]);
                assert(rest.skip(2) =~= cs@.skip(i + 2));
            }
            i += 2;
        } else {
            proof {
                assert(rest[1] == cs@[i + 1]);
                assert(rest.skip(2) =~= cs@.skip(i + 2));
            }
            let mut j = i + 2;
            let ghost params = cs@.skip(i + 2);
            proof {
                assert(params.skip(0) =~= params);
            }
            while j < cs.len() && !(0x40 <= (cs[j] as u32) && (cs[j] as u32) <= 0x7E)
                invariant
                    i + 2 <= j <= cs.len(),
                    params == cs@.skip(i + 2),
                    csi_end(params) == (j - (i + 2)) + csi_end(cs@.skip(j as int)),
                decreases cs.len() - j,
            {
                proof {
                    assert(cs@.skip(j as int)[0] == cs@[j as int]);
                    assert(cs@.skip(j as int).drop_first() =~= cs@.skip(j + 1));
                }
                j += 1;
            }
            if j < cs.len() {
                proof {
                    assert(cs@.skip(j as int)[0] == cs@[j as int]);
                }
                j += 1;
            } else {
                proof {
                    assert(cs@.skip(j as int) =~= Seq::<char>::empty());
                }
            }
            proof {
                lemma_csi_end(params);
                assert(params.skip(csi_end(params) as int) =~= cs@.skip(j as int));
            }
            i = j;
        }
    }
    proof {
        assert(cs@.skip(i as int) =~= Seq::<char>::empty());
        assert(out@ + Seq::<char>::empty() =~= out@);
    }
    string_of(&out)
}

/// Stripping leaves no escape character behind.
pub proof fn law_strip_removes_every_escape(s: Seq<char>)
    ensures
        forall|i: int| 0 <= i < strip(s).len() ==> strip(s)[i] != '\u{1b}',
    decreases s.len(),
{
    if s.len() == 0 {
    } else if s[0] != '\u{1b}' {
        law_strip_removes_every_escape(s.drop_first());
        assert forall|i: int| 0 <= i < strip(s).len() implies strip(s)[i] != '\u{1b}' by {
            if i > 0 {
                assert(strip(s)[i] == strip(s.drop_first())[i - 1]);
            }
        }
    } else if s.len() == 1 {
        assert(strip(s).len() == 0);
    } else if s[1] != '[' {
        law_strip_removes_every_escape(s.skip(2));
        assert(strip(s) == strip(s.skip(2)));
    } else {
        lemma_csi_end(s.skip(2));
        law_strip_removes_every_escape(s.skip(2).skip(csi_end(s.skip(2)) as int));
        assert(strip(s) == strip(s.skip(2).skip(csi_end(s.skip(2)) as int)));
    }
}

/// Text without escape characters passes through unchanged.
pub proof fn law_strip_keeps_plain_text(s: Seq<char>)
    requires
        forall|i: int| 0 <= i < s.len() ==> s[i] != '\u{1b}',
    ensures
        strip(s) == s,
    decreases s.len(),
{
    if s.len() > 0 {
        assert(s[0] != '\u{1b}');
        law_strip_keeps_plain_text(s.drop_first());
        assert(seq![s[0]] + s.drop_first() =~= s);
    }
}

/// `idx` places each character of `a`, in order, at a position of `b`
/// holding the same character.
pub open spec fn subseq_at(a: Seq<char>, b: Seq<char>, idx: Seq<int>) -> bool {
    &&& idx.len() == a.len()
    &&& forall|k: int| 0 <= k < idx.len() ==> 0 <= #[trigger] idx[k] < b.len() && a[k] == b[idx[k]]
    &&& forall|k: int, l: int| 0 <= k < l < idx.len() ==> idx[k] < idx[l]
}

/// `a` is `b` with some characters removed (none added or reordered).
pub open spec fn is_subseq(a: Seq<char>, b: Seq<char>) -> bool {
    exists|idx: Seq<int>| subseq_at(a, b, idx)
}

spec fn shifted(idx: Seq<int>, k: int) -> Seq<int> {
    idx.map_values(|i: int| i + k)
}

proof fn lemma_subseq_shift(a: Seq<char>, b: Seq<char>, k: int, idx: Seq<int>)
    requires
        0 <= k <= b.len(),
        subseq_at(a, b.skip(k), idx),
    ensures
        subseq_at(a, b, shifted(idx, k)),
{
    let m = shifted(idx, k);
    assert forall|j: int| 0 <= j < m.len() implies 0 <= #[trigger] m[j] < b.len() && a[j] == b[m[j]] by {
        assert(b.skip(k)[idx[j]] == b[idx[j] + k]);
    }
    assert forall|j: int, l: int| 0 <= j < l < m.len() implies m[j] < m[l] by {
        assert(idx[j] < idx[l]);
    }
}

proof fn lemma_subseq_cons(a: Seq<char>, b: Seq<char>, idx: Seq<int>)
    requires
        b.len() > 0,
        subseq_at(a, b.drop_first(), idx),
    ensures
        subseq_at(seq![b[0]] + a, b, seq![0int] + shifted(idx, 1)),
{
    assert(b.drop_first() =~= b.skip(1));
    lemma_subseq_shift(a, b, 1, idx);
    let m = shifted(idx, 1);
    let n = seq![0int] + m;
    let x = seq![b[0]] + a;
    assert forall|j: int| 0 <= j < n.len() implies 0 <= #[trigger] n[j] < b.len() && x[j] == b[n[j]] by {
        if j > 0 {
            assert(n[j] == m[j - 1]);
            assert(x[j] == a[j - 1]);
        }
    }
    assert forall|j: int, l: int| 0 <= j < l < n.len() implies n[j] < n[l] by {
        if j > 0 {
            assert(n[j] == m[j - 1] && n[l] == m[l - 1]);
        } else {
            assert(n[l] == m[l - 1]);
        }
    }
}

proof fn strip_indices(s: Seq<char>) -> (idx: Seq<int>)
    ensures
        subseq_at(strip(s), s, idx),
    decreases s.len(),
{
    if s.len() == 0 {
        Seq::empty()
    } else if s[0] != '\u{1b}' {
        let rest = strip_indices(s.drop_first());
        lemma_subseq_cons(strip(s.drop_first()), s, rest);
        seq![0int] + shifted(rest, 1)
    } else if s.len() == 1 {
        Seq::empty()
    } else if s[1] != '[' {
        let rest = strip_indices(s.skip(2));
        lemma_subseq_shift(strip(s.skip(2)), s, 2, rest);
        shifted(rest, 2)
    } else {
        lemma_csi_end(s.skip(2));
        let k = csi_end(s.skip(2)) as int;
        let rest = strip_indices(s.skip(2).skip(k));
        assert(s.skip(2).skip(k) =~= s.skip(2 + k));
        lemma_subseq_shift(strip(s.skip(2 + k)), s, 2 + k, rest);
        shifted(rest, 2 + k)
    }
}

/// Stripping only removes characters: the result is a subsequence of the
/// input, nothing added and nothing reordered.
pub proof fn law_strip_is_subsequence(s: Seq<char>)
    ensures
        is_subseq(strip(s), s),
{
    let idx = strip_indices(s);
}

/// Stripping twice is stripping once.
pub proof fn law_strip_idempotent(s: Seq<char>)
    ensures
        strip(strip(s)) == strip(s),
{
    law_strip_removes_every_escape(s);
    law_strip_keeps_plain_text(strip(s));
}

// ---------------------------------------------------------------- lines --

/// `piece` without one trailing carriage return.
pub open spec fn strip_cr(piece: Seq<char>) -> Seq<char> {
    if piece.len() > 0 && piece.last() == '\r' {
        piece.drop_last()
    } else {
        piece
    }
}

/// The lines `str::lines` yields: split at `'\n'`, each line that ended in
/// `"\r\n"` loses the `'\r'`, and a final empty line is not a line.
pub open spec fn text_lines(s: Seq<char>) -> Seq<Seq<char>> {
    let pieces = split_newlines(s);
    let body = pieces.drop_last().map_values(|p: Seq<char>| strip_cr(p));
    if pieces.last().len() == 0 {
        body
    } else {
        body.push(pieces.last())
    }
}

/// The log records a command reply becomes: one `Info` record per line of
/// the reply (escape sequences stripped), each stamped with `stamp`.
pub open spec fn reply_lines(message: Seq<char>) -> Seq<Seq<char>> {
    text_lines(strip(message))
}

/// A command reply as log records, one per line, stamped with `stamp`.
pub fn reply_records(message: &str, stamp: &str) -> (r: Vec<LogRecord>)
    ensures
        r@.len() == reply_lines(message@).len(),
        forall|i: int|
            0 <= i < r@.len() ==> {
                &&& (#[trigger] r@[i]).level == Level::Info
                &&& r@[i].message@ == reply_lines(message@)[i]
                &&& r@[i].time@ == stamp@
                &&& r@[i].target is None
            },
{
    let clean = strip_ansi(message);
    let cs = chars_of(clean.as_str());
    let mut out: Vec<LogRecord> = Vec::new();
    let mut start: usize = 0;
    let mut i: usize = 0;
    let ghost lines = reply_lines(message@);
    proof {
        assert(cs@.take(0) =~= Seq::<char>::empty());
        assert(cs@.subrange(0, 0) =~= Seq::<char>::empty());
    }
    while i < cs.len()
        invariant
            start <= i <= cs.len(),
            cs@ == strip(message@),
            lines == reply_lines(message@),
            split_newlines(cs@.take(i as int)).len() >= 1,
            split_newlines(cs@.take(i as int)).last() == cs@.subrange(start as int, i as int),
            out@.len() == split_newlines(cs@.take(i as int)).len() - 1,
            forall|k: int|
                0 <= k < out@.len() ==> {
                    &&& (#[trigger] out@[k]).level == Level::Info
                    &&& out@[k].message@ == strip_cr(split_newlines(cs@.take(i as int))[k])
                    &&& out@[k].time@ == stamp@
                    &&& out@[k].target is None
                },
        decreases cs.len() - i,
    {
        let ghost pieces = split_newlines(cs@.take(i as int));
        proof {
            assert(cs@.take(i + 1).drop_last() =~= cs@.take(i as int));
            assert(cs@.take(i + 1).last() == cs@[i as int]);
        }
        if cs[i] == '\n' {
            let end = if i > start && cs[i - 1] == '\r' {
                i - 1
            } else {
                i
            };
            let piece = slice(&cs, start, end);
            let text = string_of(&piece);
            let rec = LogRecord::new(Level::Info, text.as_str()).with_time(stamp);
            proof {
                let line = cs@.subrange(start as int, i as int);
                assert(piece@ =~= strip_cr(line));
                assert(split_newlines(cs@.take(i + 1)) == pieces.push(Seq::empty()));
            }
            out.push(rec);
            start = i + 1;
            i += 1;
            proof {
                assert(cs@.subrange(start as int, i as int) =~= Seq::<char>::empty());
                let np = split_newlines(cs@.take(i as int));
                assert forall|k: int| 0 <= k < out@.len() implies out@[k].message@ == strip_cr(
                    np[k],
                ) by {
                    if k < out@.len() - 1 {
                        assert(np[k] == pieces[k]);
                    }
                }
            }
        } else {
            proof {
                let np = split_newlines(cs@.take(i + 1));
                assert(np == pieces.update(pieces.len() - 1, pieces.last().push(cs@[i as int])));
                assert(np.last() =~= cs@.subrange(start as int, i + 1));
                assert forall|k: int| 0 <= k < out@.len() implies out@[k].message@ == strip_cr(
                    np[k],
                ) by {
                    assert(np[k] == pieces[k]);
                }
            }
            i += 1;
        }
    }
    let ghost pieces = split_newlines(cs@.take(i as int));
    proof {
        assert(cs@.take(cs.len() as int) =~= cs@);
    }
    if start < cs.len() {
        let piece = slice(&cs, start, cs.len());
        let text = string_of(&piece);
        let rec = LogRecord::new(Level::Info, text.as_str()).with_time(stamp);
        out.push(rec);
    }
    proof {
        let body = pieces.drop_last().map_values(|p: Seq<char>| strip_cr(p));
        assert(lines == text_lines(cs@));
        if pieces.last().len() == 0 {
            assert(lines == body);
        } else {
            assert(lines == body.push(pieces.last()));
        }
        assert forall|k: int| 0 <= k < out@.len() implies out@[k].message@ == lines[k] by {
            if k < pieces.len() - 1 {
                assert(lines[k] == body[k]);
            }
        }
    }
    out
}

// ---------------------------------------------------------------- uptime --

pub open spec fn digit(d: nat) -> char {
    if d == 0 {
        '0'
    } else if d == 1 {
        '1'
    } else if d == 2 {
        '2'
    } else if d == 3 {
        '3'
    } else if d == 4 {
        '4'
    } else if d == 5 {
        '5'
    } else if d == 6 {
        '6'
    } else if d == 7 {
        '7'
    } else if d == 8 {
        '8'
    } else {
        '9'
    }
}

/// Decimal digits of `n`.
pub open spec fn decimal(n: nat) -> Seq<char>
    decreases n,
{
    if n < 10 {
        seq![digit(n)]
    } else {
        decimal(n / 10).push(digit(n % 10))
    }
}

/// `n` in decimal, zero-padded to at least two digits (`{:02}`).
pub open spec fn pad2(n: nat) -> Seq<char> {
    if n < 10 {
        seq!['0', digit(n)]
    } else {
        decimal(n)
    }
}

/// The `HH:MM:SS` readout of an uptime of `total` seconds.
pub open spec fn uptime_text(total: nat) -> Seq<char> {
    pad2(total / 3600) + seq![':'] + pad2((total / 60) % 60) + seq![':'] + pad2(total % 60)
}

/// The number a decimal digit character stands for.
pub open spec fn digit_value(c: char) -> int {
    (c as u32) - ('0' as u32)
}

/// The number a string of decimal digits reads as.
pub open spec fn digits_value(s: Seq<char>) -> int
    decreases s.len(),
{
    if s.len() == 0 {
        0
    } else {
        digits_value(s.drop_last()) * 10 + digit_value(s.last())
    }
}

proof fn lemma_digit_value(d: nat)
    requires
        d < 10,
    ensures
        digit_value(digit(d)) == d,
{
}

proof fn lemma_decimal_value(n: nat)
    ensures
        digits_value(decimal(n)) == n,
        decimal(n).len() >= 1,
        n >= 10 ==> decimal(n).len() >= 2,
        10 <= n < 100 ==> decimal(n).len() == 2,
    decreases n,
{
    if n < 10 {
        lemma_digit_value(n);
        let d = seq![digit(n)];
        assert(d.drop_last() =~= Seq::<char>::empty());
        assert(digits_value(Seq::<char>::empty()) == 0);
        assert(digits_value(d) == digits_value(d.drop_last()) * 10 + digit_value(d.last()));
    } else {
        lemma_decimal_value(n / 10);
        lemma_digit_value(n % 10);
        let d = decimal(n / 10);
        let e = d.push(digit(n % 10));
        assert(e.drop_last() =~= d);
        assert(digits_value(e) == digits_value(d) * 10 + digit_value(e.last()));
        assert((n / 10) * 10 + n % 10 == n) by (nonlinear_arith);
    }
}

proof fn lemma_pad2_value(n: nat)
    ensures
        digits_value(pad2(n)) == n,
        pad2(n).len() >= 2,
        n < 100 ==> pad2(n).len() == 2,
{
    if n < 10 {
        lemma_digit_value(n);
        let p = seq!['0', digit(n)];
        let z = seq!['0'];
        assert(p.drop_last() =~= z);
        assert(z.drop_last() =~= Seq::<char>::empty());
        assert(digits_value(Seq::<char>::empty()) == 0);
        assert(digits_value(z) == digits_value(z.drop_last()) * 10 + digit_value(z.last()));
        assert(digit_value('0') == 0);
        assert(digits_value(p) == digits_value(p.drop_last()) * 10 + digit_value(p.last()));
    } else {
        lemma_decimal_value(n);
    }
}

/// The uptime readout reads back as the uptime: its last two digits are the
/// seconds and the two before the second colon the minutes (each below 60),
/// and everything before the first colon the hours, so that hours, minutes
/// and seconds add up to exactly `total` seconds.
pub proof fn law_uptime_reads_back(total: nat)
    ensures
        ({
            let t = uptime_text(total);
            let n = t.len() as int;
            &&& n >= 8
            &&& t[n - 3] == ':'
            &&& t[n - 6] == ':'
            &&& digits_value(t.subrange(n - 5, n - 3)) < 60
            &&& digits_value(t.skip(n - 2)) < 60
            &&& digits_value(t.take(n - 6)) * 3600 + digits_value(t.subrange(n - 5, n - 3)) * 60
                + digits_value(t.skip(n - 2)) == total
        }),
{
    let h = total / 3600;
    let m = (total / 60) % 60;
    let sec = total % 60;
    lemma_pad2_value(h);
    lemma_pad2_value(m);
    lemma_pad2_value(sec);
    let a = pad2(h);
    let b = pad2(m);
    let c = pad2(sec);
    let t = uptime_text(total);
    assert(a.len() >= 2);
    let n = t.len() as int;
    assert(t == a + seq![':'] + b + seq![':'] + c);
    assert(t.skip(n - 2) =~= c);
    assert(t.subrange(n - 5, n - 3) =~= b);
    assert(t.take(n - 6) =~= a);
    assert(h * 3600 + m * 60 + sec == total) by (nonlinear_arith)
        requires
            h == total / 3600,
            m == (total / 60) % 60,
            sec == total % 60,
    ;
}

fn digit_char(d: u64) -> (r: char)
    requires
        d < 10,
    ensures
        r == digit(d as nat),
{
    if d == 0 {
        '0'
    } else if d == 1 {
        '1'
    } else if d == 2 {
        '2'
    } else if d == 3 {
        '3'
    } else if d == 4 {
        '4'
    } else if d == 5 {
        '5'
    } else if d == 6 {
        '6'
    } else if d == 7 {
        '7'
    } else if d == 8 {
        '8'
    } else {
        '9'
    }
}

fn push_decimal(out: &mut Vec<char>, n: u64)
    ensures
        final(out)@ == old(out)@ + decimal(n as nat),
    decreases n,
{
    if n < 10 {
        out.push(digit_char(n));
    } else {
        push_decimal(out, n / 10);
        out.push(digit_char(n % 10));
        proof {
            assert(old(out)@ + decimal(n as nat) =~= old(out)@ + decimal((n / 10) as nat) + seq![
                digit((n % 10) as nat),
            ]);
        }
    }
}

fn push_pad2(out: &mut Vec<char>, n: u64)
    ensures
        final(out)@ == old(out)@ + pad2(n as nat),
{
    if n < 10 {
        out.push('0');
        out.push(digit_char(n));
        proof {
            assert(final(out)@ =~= old(out)@ + pad2(n as nat));
        }
    } else {
        push_decimal(out, n);
    }
}

/// Uptime as `HH:MM:SS`; hours keep growing past 99.
pub fn format_uptime(total_secs: u64) -> (r: String)
    ensures
        r@ == uptime_text(total_secs as nat),
{
    let mut out: Vec<char> = Vec::new();
    push_pad2(&mut out, total_secs / 3600);
    out.push(':');
    push_pad2(&mut out, (total_secs / 60) % 60);
    out.push(':');
    push_pad2(&mut out, total_secs % 60);
    proof {
        assert(out@ =~= uptime_text(total_secs as nat));
    }
    string_of(&out)
}

// ---------------------------------------------------------------- chunks --

pub open spec fn sum_counts(counts: Seq<usize>) -> nat
    decreases counts.len(),
{
    if counts.len() == 0 {
        0
    } else {
        sum_counts(counts.drop_last()) + counts.last() as nat
    }
}

/// Total of the loaded-chunk counts of every world. Overflowing `u64` is the
/// one input the sum cannot take.
pub fn total_chunks(counts: &[usize]) -> (r: u64)
    requires
        sum_counts(counts@) <= u64::MAX,
    ensures
        r == sum_counts(counts@),
{
    let mut total: u64 = 0;
    let mut i: usize = 0;
    assert(counts@.take(0) =~= Seq::<usize>::empty());
    while i < counts.len()
        invariant
            i <= counts@.len(),
            total == sum_counts(counts@.take(i as int)),
            sum_counts(counts@) <= u64::MAX,
        decreases counts@.len() - i,
    {
        proof {
            assert(counts@.take(i + 1).drop_last() =~= counts@.take(i as int));
            lemma_sum_prefix(counts@, i + 1);
        }
        total = total + counts[i] as u64;
        i += 1;
    }
    assert(counts@.take(counts@.len() as int) =~= counts@);
    total
}

proof fn lemma_sum_prefix(s: Seq<usize>, k: int)
    requires
        0 <= k <= s.len(),
    ensures
        sum_counts(s.take(k)) <= sum_counts(s),
    decreases s.len() - k,
{
    if k < s.len() {
        lemma_sum_prefix(s, k + 1);
        assert(s.take(k + 1).drop_last() =~= s.take(k));
    } else {
        assert(s.take(k) =~= s);
    }
}

// ---------------------------------------------------------------- dispatcher --

/// What to ask the server's command dispatcher for a completion request.
pub enum DispatcherQuery {
    /// Nothing typed yet: list every command; candidates replace from `start`.
    ListCommands { start: usize },
    /// Parse `typed` (the prefix without its leading `/`) and ask for
    /// suggestions at `cursor`; `slash` is whether a `/` was skipped.
    Suggest { typed: String, cursor: usize, slash: bool },
}

/// The query a request becomes: an empty (or blank) prefix lists every
/// command; anything else is parsed by the dispatcher.
pub fn dispatcher_query(request: CompletionRequest) -> (r: DispatcherQuery)
    requires
        request_ok(request.line@, request.cursor as int),
    ensures
        ({
            let p = req_prefix(request.line@, request.cursor as int);
            let slash = p.len() > 0 && p[0] == '/';
            let typed = if slash {
                p.drop_first()
            } else {
                p
            };
            if trimmed(typed).len() == 0 {
                r matches DispatcherQuery::ListCommands { start } && start == blen(p)
            } else {
                r matches DispatcherQuery::Suggest { typed: t, cursor, slash: s } && t@ == typed
                    && s == slash && cursor == request.cursor - (if slash {
                    1int
                } else {
                    0int
                })
            }
        }),
{
    let line = chars_of(request.line);
    let len = crate::text::utf8_len(request.line);
    let c = if request.cursor < len {
        request.cursor
    } else {
        len
    };
    let n = crate::text::char_offset(&line, c);
    proof {
        crate::text::lemma_at_boundary_index(line@, c as int);
    }
    let p = slice(&line, 0, n);
    let slash = p.len() > 0 && p[0] == '/';
    let typed = if slash {
        slice(&p, 1, p.len())
    } else {
        slice(&p, 0, p.len())
    };
    proof {
        if slash {
            assert(typed@ =~= p@.drop_first());
        } else {
            assert(typed@ =~= p@);
        }
    }
    let t = trim(&typed);
    if t.len() == 0 {
        let start = crate::text::byte_len(&p);
        DispatcherQuery::ListCommands { start }
    } else {
        proof {
            if slash {
                crate::text::lemma_blen_take_le(p@, 1);
                assert(p@.take(1) =~= seq!['/']);
                crate::text::lemma_blen_single('/');
                crate::text::lemma_blen_take_le(line@, n as int);
            }
        }
        let cursor = if slash {
            request.cursor - 1
        } else {
            request.cursor
        };
        DispatcherQuery::Suggest { typed: string_of(&typed), cursor, slash }
    }
}

/// The candidates for a blank line: every command, with its description.
pub fn command_list_completions(start: usize, commands: &Vec<(String, String)>) -> (r: Completions)
    ensures
        r.start == start,
        cviews(r.items@) == commands@.map_values(
            |c: (String, String)| (c.0@, Some(c.1@), CompletionKind::Command),
        ),
{
    let mut items: Vec<Completion> = Vec::new();
    let mut i: usize = 0;
    while i < commands.len()
        invariant
            i <= commands@.len(),
            cviews(items@) == commands@.take(i as int).map_values(
                |c: (String, String)| (c.0@, Some(c.1@), CompletionKind::Command),
            ),
        decreases commands@.len() - i,
    {
        let item = Completion::new(commands[i].0.as_str(), CompletionKind::Command).with_detail(
            commands[i].1.as_str(),
        );
        let ghost before = cviews(items@);
        items.push(item);
        i += 1;
        proof {
            assert(cviews(items@) =~= before.push(cview(item)));
            assert(commands@.take(i as int).map_values(
                |c: (String, String)| (c.0@, Some(c.1@), CompletionKind::Command),
            ) =~= commands@.take(i - 1).map_values(
                |c: (String, String)| (c.0@, Some(c.1@), CompletionKind::Command),
            ).push(cview(item)));
        }
    }
    proof {
        assert(commands@.take(commands@.len() as int) =~= commands@);
    }
    Completions::new(start, items)
}

pub open spec fn seq_has(names: Seq<String>, s: Seq<char>) -> bool {
    exists|i: int| 0 <= i < names.len() && names[i]@ == s
}

/// The candidates the dispatcher's suggestions become: online player names
/// are marked as players, everything else as argument values; the range start
/// is shifted past a skipped `/`. No suggestions means no completions.
pub fn suggestion_completions(
    range_start: usize,
    slash: bool,
    texts: &Vec<String>,
    online: &Vec<String>,
) -> (r: Completions)
    requires
        range_start + (if slash {
            1int
        } else {
            0int
        }) <= usize::MAX,
    ensures
        texts@.len() == 0 ==> r.start == 0 && r.items@.len() == 0,
        texts@.len() > 0 ==> r.start == range_start + (if slash {
            1int
        } else {
            0int
        }),
        cviews(r.items@) == texts@.map_values(
            |t: String|
                (t@, None::<Seq<char>>, if seq_has(online@, t@) {
                    CompletionKind::Player
                } else {
                    CompletionKind::Argument
                }),
        ),
{
    let ghost f = |t: String|
        (t@, None::<Seq<char>>, if seq_has(online@, t@) {
            CompletionKind::Player
        } else {
            CompletionKind::Argument
        });
    if texts.len() == 0 {
        let r = Completions::default();
        proof {
            assert(cviews(r.items@) =~= texts@.map_values(f));
        }
        return r;
    }
    let mut items: Vec<Completion> = Vec::new();
    let mut i: usize = 0;
    while i < texts.len()
        invariant
            i <= texts@.len(),
            f == (|t: String|
                (t@, None::<Seq<char>>, if seq_has(online@, t@) {
                    CompletionKind::Player
                } else {
                    CompletionKind::Argument
                })),
            cviews(items@) == texts@.take(i as int).map_values(f),
        decreases texts@.len() - i,
    {
        let t = chars_of(texts[i].as_str());
        let mut known = false;
        let mut j: usize = 0;
        while j < online.len()
            invariant
                j <= online@.len(),
                t@ == texts@[i as int]@,
                known == exists|k: int| 0 <= k < j && online@[k]@ == t@,
            decreases online@.len() - j,
        {
            let o = chars_of(online[j].as_str());
            if chars_eq(&o, &t) {
                known = true;
            }
            j += 1;
        }
        let kind = if known {
            CompletionKind::Player
        } else {
            CompletionKind::Argument
        };
        let item = Completion::new(texts[i].as_str(), kind);
        let ghost before = cviews(items@);
        items.push(item);
        i += 1;
        proof {
            assert(cviews(items@) =~= before.push(cview(item)));
            assert(texts@.take(i as int).map_values(f) =~= texts@.take(i - 1).map_values(f).push(
                f(texts@[i - 1]),
            ));
        }
    }
    proof {
        assert(texts@.take(texts@.len() as int) =~= texts@);
    }
    let start = if slash {
        range_start + 1
    } else {
        range_start
    };
    Completions::new(start, items)
}

// ---------------------------------------------------------------- tellraw --

/// Completion tree of the `tellraw` command: `tellraw <target> <message>`,
/// which runs once the message is given.
pub fn init_command_tree() -> (r: CommandTree)
    ensures
        r.roots().len() == 1,
        is_literal(r.roots()[0]),
        node_name(r.roots()[0]) == "tellraw"@,
        node_detail(r.roots()[0]) == Some("Send a raw message to a player."@),
        !node_executes(r.roots()[0]),
        node_children(r.roots()[0]).len() == 1,
        !is_literal(node_children(r.roots()[0])[0]),
        node_name(node_children(r.roots()[0])[0]) == "target"@,
        !node_executes(node_children(r.roots()[0])[0]),
        node_children(node_children(r.roots()[0])[0]).len() == 1,
        !is_literal(node_children(node_children(r.roots()[0])[0])[0]),
        node_name(node_children(node_children(r.roots()[0])[0])[0]) == "message"@,
        node_executes(node_children(node_children(r.roots()[0])[0])[0]),
        node_children(node_children(node_children(r.roots()[0])[0])[0]).len() == 0,
        node_detail(node_children(r.roots()[0])[0]) is None,
        node_detail(node_children(node_children(r.roots()[0])[0])[0]) is None,
        forall|v: Seq<Seq<char>>|
            values_fit(node_children(r.roots()[0])[0], v) <==> v.len() == 0,
        forall|v: Seq<Seq<char>>|
            values_fit(node_children(node_children(r.roots()[0])[0])[0], v) <==> v.len() == 0,
{
    let message = Node::argument("message").execute();
    let target = Node::argument("target").and_then(message);
    let root = Node::literal("tellraw").detail("Send a raw message to a player.").and_then(target);
    CommandTree::new().with(root)
}

/// Why a command could not run: an argument it needs was not consumed.
pub enum CommandError {
    /// The argument (by name, when known) the command could not find.
    InvalidConsumption(Option<String>),
}

/// What `tellraw` sends and to whom: its targets and its message, or the
/// error naming the first of them that was not consumed (targets first).
pub fn tellraw_arguments<T, M>(targets: Option<T>, message: Option<M>) -> (r: Result<(T, M), CommandError>)
    ensures
        targets is None ==> (r matches Err(CommandError::InvalidConsumption(Some(a))) && a@
            == "target"@),
        targets is Some && message is None ==> (r matches Err(
            CommandError::InvalidConsumption(Some(a)),
        ) && a@ == "message"@),
        targets is Some && message is Some ==> r == Ok::<(T, M), CommandError>(
            (targets->0, message->0),
        ),
{
    let Some(targets) = targets else {
        return Err(CommandError::InvalidConsumption(Some(copy_str("target"))));
    };
    let Some(message) = message else {
        return Err(CommandError::InvalidConsumption(Some(copy_str("message"))));
    };
    Ok((targets, message))
}

} // verus!
