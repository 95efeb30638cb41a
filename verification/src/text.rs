//! Character-level text helpers shared by the editor, completion and wrapping.
//!
//! Strings are reasoned about as `Seq<char>` (the view vstd gives `str` and
//! `String`). Byte offsets into a line are the UTF-8 offsets the public API
//! speaks in; [`blen`] is the UTF-8 length of a character sequence.

use vstd::prelude::*;

verus! {

// ---------------------------------------------------------------- whitespace --

/// The Unicode `White_Space` property, which `char::is_whitespace` tests.
pub open spec fn is_ws(c: char) -> bool {
    let u = c as u32;
    ||| 0x09 <= u <= 0x0D
    ||| u == 0x20
    ||| u == 0x85
    ||| u == 0xA0
    ||| u == 0x1680
    ||| 0x2000 <= u <= 0x200A
    ||| u == 0x2028
    ||| u == 0x2029
    ||| u == 0x202F
    ||| u == 0x205F
    ||| u == 0x3000
}

/// Whether `c` has the Unicode `White_Space` property.
pub fn is_whitespace(c: char) -> (r: bool)
    ensures
        r == is_ws(c),
{
    let u = c as u32;
    (0x09 <= u && u <= 0x0D) || u == 0x20 || u == 0x85 || u == 0xA0 || u == 0x1680 || (0x2000 <= u
        && u <= 0x200A) || u == 0x2028 || u == 0x2029 || u == 0x202F || u == 0x205F || u == 0x3000
}

/// Every character of `s` is whitespace (true of the empty sequence).
pub open spec fn all_ws(s: Seq<char>) -> bool {
    forall|i: int| 0 <= i < s.len() ==> is_ws(#[trigger] s[i])
}

/// Number of whitespace characters at the front of `s`.
pub open spec fn lead_ws(s: Seq<char>) -> nat
    decreases s.len(),
{
    if s.len() == 0 {
        0
    } else if is_ws(s[0]) {
        1 + lead_ws(s.drop_first())
    } else {
        0
    }
}

/// Length of `s` once trailing whitespace is removed.
pub open spec fn trim_end_len(s: Seq<char>) -> nat
    decreases s.len(),
{
    if s.len() == 0 {
        0
    } else if is_ws(s.last()) {
        trim_end_len(s.drop_last())
    } else {
        s.len()
    }
}

/// `s` with leading and trailing whitespace removed, as `str::trim` does.
pub open spec fn trimmed(s: Seq<char>) -> Seq<char> {
    let t = s.take(trim_end_len(s) as int);
    t.skip(lead_ws(t) as int)
}

/// Index just past the last whitespace character of `s`, or 0 if there is none.
pub open spec fn after_last_ws(s: Seq<char>) -> nat
    decreases s.len(),
{
    if s.len() == 0 {
        0
    } else if is_ws(s.last()) {
        s.len()
    } else {
        after_last_ws(s.drop_last())
    }
}

/// Index of the first whitespace character of `s`, or `s.len()` if there is none.
pub open spec fn first_ws(s: Seq<char>) -> nat
    decreases s.len(),
{
    if s.len() == 0 {
        0
    } else if is_ws(s[0]) {
        0
    } else {
        1 + first_ws(s.drop_first())
    }
}

pub proof fn lemma_lead_ws(s: Seq<char>)
    ensures
        lead_ws(s) <= s.len(),
        forall|i: int| 0 <= i < lead_ws(s) ==> is_ws(#[trigger] s[i]),
        lead_ws(s) < s.len() ==> !is_ws(s[lead_ws(s) as int]),
    decreases s.len(),
{
    if s.len() > 0 && is_ws(s[0]) {
        lemma_lead_ws(s.drop_first());
        assert forall|i: int| 0 <= i < lead_ws(s) implies is_ws(#[trigger] s[i]) by {
            if i > 0 {
                assert(s[i] == s.drop_first()[i - 1]);
            }
        }
    }
}

pub proof fn lemma_trim_end_len(s: Seq<char>)
    ensures
        trim_end_len(s) <= s.len(),
        forall|i: int| trim_end_len(s) <= i < s.len() ==> is_ws(#[trigger] s[i]),
        trim_end_len(s) > 0 ==> !is_ws(s[trim_end_len(s) - 1]),
    decreases s.len(),
{
    if s.len() > 0 && is_ws(s.last()) {
        lemma_trim_end_len(s.drop_last());
        assert forall|i: int| trim_end_len(s) <= i < s.len() implies is_ws(#[trigger] s[i]) by {
            if i < s.len() - 1 {
                assert(s[i] == s.drop_last()[i]);
            }
        }
    }
}

/// Trimming twice is trimming once.
pub proof fn lemma_trimmed_idem(s: Seq<char>)
    ensures
        trimmed(trimmed(s)) == trimmed(s),
{
    let u = s.take(trim_end_len(s) as int);
    let t = trimmed(s);
    lemma_trim_end_len(s);
    lemma_lead_ws(u);
    if t.len() == 0 {
        assert(t.take(0) =~= t);
    } else {
        assert(t.last() == s[trim_end_len(s) - 1]);
        assert(trim_end_len(t) == t.len());
        assert(t[0] == u[lead_ws(u) as int]);
        assert(lead_ws(t) == 0);
        assert(t.take(t.len() as int) =~= t);
        assert(t.take(t.len() as int).skip(0) =~= t);
    }
}

pub proof fn lemma_after_last_ws(s: Seq<char>)
    ensures
        after_last_ws(s) <= s.len(),
        after_last_ws(s) > 0 ==> is_ws(s[after_last_ws(s) - 1]),
        forall|i: int| after_last_ws(s) <= i < s.len() ==> !is_ws(#[trigger] s[i]),
    decreases s.len(),
{
    if s.len() > 0 && !is_ws(s.last()) {
        lemma_after_last_ws(s.drop_last());
        assert forall|i: int| after_last_ws(s) <= i < s.len() implies !is_ws(#[trigger] s[i]) by {
            if i < s.len() - 1 {
                assert(s[i] == s.drop_last()[i]);
            }
        }
    }
}

pub proof fn lemma_first_ws(s: Seq<char>)
    ensures
        first_ws(s) <= s.len(),
        first_ws(s) < s.len() ==> is_ws(s[first_ws(s) as int]),
        forall|i: int| 0 <= i < first_ws(s) ==> !is_ws(#[trigger] s[i]),
    decreases s.len(),
{
    if s.len() > 0 && !is_ws(s[0]) {
        lemma_first_ws(s.drop_first());
        assert forall|i: int| 0 <= i < first_ws(s) implies !is_ws(#[trigger] s[i]) by {
            if i > 0 {
                assert(s[i] == s.drop_first()[i - 1]);
            }
        }
    }
}

/// Count of leading whitespace characters.
pub fn count_lead_ws(s: &Vec<char>, from: usize) -> (r: usize)
    requires
        from <= s.len(),
    ensures
        r == lead_ws(s@.skip(from as int)),
{
    let mut i = from;
    while i < s.len() && is_whitespace(s[i])
        invariant
            from <= i <= s.len(),
            lead_ws(s@.skip(from as int)) == (i - from) + lead_ws(s@.skip(i as int)),
        decreases s.len() - i,
    {
        assert(s@.skip(i as int).drop_first() == s@.skip(i + 1));
        i += 1;
    }
    proof { r_lead_ws_end(s@, i as int); }
    i - from
}

proof fn r_lead_ws_end(s: Seq<char>, i: int)
    requires
        0 <= i <= s.len(),
        i < s.len() ==> !is_ws(s[i]),
    ensures
        lead_ws(s.skip(i)) == 0,
{
    if i < s.len() {
        assert(s.skip(i)[0] == s[i]);
    }
}

/// Length of `s[..end]` once trailing whitespace is removed.
pub fn trimmed_end(s: &Vec<char>, end: usize) -> (r: usize)
    requires
        end <= s.len(),
    ensures
        r == trim_end_len(s@.take(end as int)),
{
    let mut k = end;
    while k > 0 && is_whitespace(s[k - 1])
        invariant
            k <= end <= s.len(),
            trim_end_len(s@.take(end as int)) == trim_end_len(s@.take(k as int)),
        decreases k,
    {
        assert(s@.take(k as int).drop_last() == s@.take(k - 1));
        k -= 1;
    }
    k
}

/// Index just past the last whitespace character of `s[..end]`, or 0.
pub fn last_ws_end(s: &Vec<char>, end: usize) -> (r: usize)
    requires
        end <= s.len(),
    ensures
        r == after_last_ws(s@.take(end as int)),
{
    let mut k = end;
    while k > 0 && !is_whitespace(s[k - 1])
        invariant
            k <= end <= s.len(),
            after_last_ws(s@.take(end as int)) == after_last_ws(s@.take(k as int)),
        decreases k,
    {
        assert(s@.take(k as int).drop_last() == s@.take(k - 1));
        k -= 1;
    }
    k
}

/// Offset (from `from`) of the first whitespace character of `s[from..]`.
pub fn next_ws(s: &Vec<char>, from: usize) -> (r: usize)
    requires
        from <= s.len(),
    ensures
        r == first_ws(s@.skip(from as int)),
{
    let mut i = from;
    while i < s.len() && !is_whitespace(s[i])
        invariant
            from <= i <= s.len(),
            first_ws(s@.skip(from as int)) == (i - from) + first_ws(s@.skip(i as int)),
        decreases s.len() - i,
    {
        assert(s@.skip(i as int).drop_first() == s@.skip(i + 1));
        i += 1;
    }
    if i < s.len() {
        assert(s@.skip(i as int)[0] == s@[i as int]);
    }
    i - from
}

/// Whether every character of `s` is whitespace.
pub fn is_all_ws(s: &Vec<char>) -> (r: bool)
    ensures
        r == all_ws(s@),
{
    let mut i: usize = 0;
    while i < s.len()
        invariant
            i <= s.len(),
            forall|j: int| 0 <= j < i ==> is_ws(#[trigger] s@[j]),
        decreases s.len() - i,
    {
        if !is_whitespace(s[i]) {
            return false;
        }
        i += 1;
    }
    true
}

/// `s` with leading and trailing whitespace removed.
pub fn trim(s: &Vec<char>) -> (r: Vec<char>)
    ensures
        r@ == trimmed(s@),
{
    let end = trimmed_end(s, s.len());
    assert(s@.take(s.len() as int) == s@);
    proof { lemma_trim_end_len(s@); }
    let t = slice(s, 0, end);
    let start = count_lead_ws(&t, 0);
    proof { lemma_lead_ws(t@); }
    assert(t@.skip(0) == t@);
    let r = slice(&t, start, end);
    assert(r@ == t@.skip(start as int));
    r
}

// ---------------------------------------------------------------- sequences --

/// Copy of `s[start..end]`.
pub fn slice(s: &Vec<char>, start: usize, end: usize) -> (r: Vec<char>)
    requires
        start <= end <= s.len(),
    ensures
        r@ == s@.subrange(start as int, end as int),
{
    let mut r: Vec<char> = Vec::new();
    let mut i = start;
    while i < end
        invariant
            start <= i <= end <= s.len(),
            r@ == s@.subrange(start as int, i as int),
        decreases end - i,
    {
        r.push(s[i]);
        i += 1;
    }
    r
}

/// Append all of `b` to `a`.
pub fn extend(a: &mut Vec<char>, b: &Vec<char>)
    ensures
        final(a)@ == old(a)@ + b@,
{
    let mut i: usize = 0;
    while i < b.len()
        invariant
            i <= b.len(),
            a@ == old(a)@ + b@.take(i as int),
        decreases b.len() - i,
    {
        a.push(b[i]);
        i += 1;
        assert(b@.take(i as int) == b@.take(i - 1).push(b@[i - 1]));
    }
    assert(b@.take(b.len() as int) == b@);
}

/// `a` followed by `b`.
pub fn concat(a: &Vec<char>, b: &Vec<char>) -> (r: Vec<char>)
    ensures
        r@ == a@ + b@,
{
    let mut r = slice(a, 0, a.len());
    assert(a@.subrange(0, a.len() as int) == a@);
    extend(&mut r, b);
    r
}

/// Whether `s` starts with `p`.
pub open spec fn has_prefix(s: Seq<char>, p: Seq<char>) -> bool {
    p.len() <= s.len() && s.take(p.len() as int) == p
}

/// Whether `s` starts with `p`.
pub fn starts_with(s: &Vec<char>, p: &Vec<char>) -> (r: bool)
    ensures
        r == has_prefix(s@, p@),
{
    if p.len() > s.len() {
        return false;
    }
    let mut i: usize = 0;
    while i < p.len()
        invariant
            p.len() <= s.len(),
            i <= p.len(),
            forall|j: int| 0 <= j < i ==> s@[j] == p@[j],
        decreases p.len() - i,
    {
        if s[i] != p[i] {
            assert(s@.take(p.len() as int)[i as int] != p@[i as int]);
            return false;
        }
        i += 1;
    }
    assert(s@.take(p.len() as int) =~= p@);
    true
}

/// Whether `a` and `b` hold the same characters.
pub fn chars_eq(a: &Vec<char>, b: &Vec<char>) -> (r: bool)
    ensures
        r == (a@ == b@),
{
    if a.len() != b.len() {
        return false;
    }
    assert(a@ =~= a@.take(b.len() as int));
    starts_with(a, b)
}

/// `pin` occurs in `hay` at index `i`.
pub open spec fn occurs_at(hay: Seq<char>, pin: Seq<char>, i: int) -> bool {
    0 <= i && i + pin.len() <= hay.len() && hay.subrange(i, i + pin.len()) == pin
}

/// Whether `pin` occurs in `hay` starting at `i`.
pub fn matches_at(hay: &Vec<char>, pin: &Vec<char>, i: usize) -> (r: bool)
    ensures
        r == occurs_at(hay@, pin@, i as int),
{
    if i > hay.len() || pin.len() > hay.len() - i {
        return false;
    }
    let mut j: usize = 0;
    while j < pin.len()
        invariant
            i + pin.len() <= hay.len(),
            j <= pin.len(),
            forall|k: int| 0 <= k < j ==> hay@[i + k] == pin@[k],
        decreases pin.len() - j,
    {
        if hay[i + j] != pin[j] {
            assert(hay@.subrange(i as int, i + pin.len())[j as int] != pin@[j as int]);
            return false;
        }
        j += 1;
    }
    assert(hay@.subrange(i as int, i + pin.len()) =~= pin@);
    true
}

/// Whether `pin` occurs anywhere in `hay`.
pub open spec fn contains_seq(hay: Seq<char>, pin: Seq<char>) -> bool {
    exists|i: int| occurs_at(hay, pin, i)
}

/// Whether `pin` occurs anywhere in `hay`, as `str::contains` answers.
pub fn contains(hay: &Vec<char>, pin: &Vec<char>) -> (r: bool)
    ensures
        r == contains_seq(hay@, pin@),
{
    if pin.len() > hay.len() {
        return false;
    }
    let last = hay.len() - pin.len();
    let mut i: usize = 0;
    while i < last
        invariant
            pin.len() <= hay.len(),
            last == hay.len() - pin.len(),
            i <= last,
            forall|k: int| 0 <= k < i ==> !occurs_at(hay@, pin@, k),
        decreases last - i,
    {
        if matches_at(hay, pin, i) {
            return true;
        }
        i += 1;
    }
    if matches_at(hay, pin, last) {
        return true;
    }
    assert forall|k: int| !occurs_at(hay@, pin@, k) by {
        if 0 <= k < i {
        }
    }
    false
}

// ---------------------------------------------------------------- UTF-8 --

/// Number of bytes `c` takes in UTF-8, as `char::len_utf8` reports.
pub open spec fn char_len(c: char) -> nat {
    let u = c as u32;
    if u < 0x80 {
        1
    } else if u < 0x800 {
        2
    } else if u < 0x10000 {
        3
    } else {
        4
    }
}

/// Number of bytes `c` takes in UTF-8.
pub fn len_utf8(c: char) -> (r: usize)
    ensures
        r == char_len(c),
        1 <= r <= 4,
{
    let u = c as u32;
    if u < 0x80 {
        1
    } else if u < 0x800 {
        2
    } else if u < 0x10000 {
        3
    } else {
        4
    }
}

/// UTF-8 length of a character sequence: the byte length of a `str` whose view it is.
pub open spec fn blen(s: Seq<char>) -> nat
    decreases s.len(),
{
    if s.len() == 0 {
        0
    } else {
        char_len(s[0]) + blen(s.drop_first())
    }
}

/// The number of leading characters of `s` that fit in `b` bytes.
pub open spec fn chars_within(s: Seq<char>, b: int) -> nat
    decreases s.len(),
{
    if s.len() == 0 {
        0
    } else if char_len(s[0]) <= b {
        1 + chars_within(s.drop_first(), b - char_len(s[0]))
    } else {
        0
    }
}

/// The leading characters of `s` that occupy its first `b` bytes.
pub open spec fn byte_prefix(s: Seq<char>, b: int) -> Seq<char> {
    s.take(chars_within(s, b) as int)
}

/// Byte offset `b` lies on a character boundary of `s` (and within it).
pub open spec fn at_boundary(s: Seq<char>, b: int) -> bool {
    blen(byte_prefix(s, b)) == b
}

/// `blen` is the length of vstd's UTF-8 encoding, which `str::len` reports.
pub proof fn lemma_blen_is_encoding(s: Seq<char>)
    ensures
        blen(s) == vstd::utf8::encode_utf8(s).len(),
    decreases s.len(),
{
    if s.len() > 0 {
        lemma_blen_is_encoding(s.drop_first());
        let u = s[0] as u32;
        vstd::utf8::char_is_scalar(s[0]);
        assert(vstd::utf8::encode_scalar(u).len() == char_len(s[0]));
    }
}

pub proof fn lemma_blen_single(c: char)
    ensures
        blen(seq![c]) == char_len(c),
{
    reveal_with_fuel(blen, 2);
    assert(seq![c].drop_first() =~= Seq::<char>::empty());
}

pub proof fn lemma_blen_concat(a: Seq<char>, b: Seq<char>)
    ensures
        blen(a + b) == blen(a) + blen(b),
    decreases a.len(),
{
    if a.len() == 0 {
        assert(a + b =~= b);
    } else {
        lemma_blen_concat(a.drop_first(), b);
        assert((a + b).drop_first() =~= a.drop_first() + b);
        assert((a + b)[0] == a[0]);
    }
}

pub proof fn lemma_blen_take_step(s: Seq<char>, i: int)
    requires
        0 <= i < s.len(),
    ensures
        blen(s.take(i + 1)) == blen(s.take(i)) + char_len(s[i]),
{
    assert(s.take(i + 1) =~= s.take(i) + seq![s[i]]);
    lemma_blen_concat(s.take(i), seq![s[i]]);
    lemma_blen_single(s[i]);
}

pub proof fn lemma_blen_split(s: Seq<char>, i: int)
    requires
        0 <= i <= s.len(),
    ensures
        blen(s) == blen(s.take(i)) + blen(s.skip(i)),
{
    assert(s =~= s.take(i) + s.skip(i));
    lemma_blen_concat(s.take(i), s.skip(i));
}

pub proof fn lemma_blen_take_strict(s: Seq<char>, i: int, j: int)
    requires
        0 <= i < j <= s.len(),
    ensures
        blen(s.take(i)) < blen(s.take(j)),
        blen(s.take(i)) + j - i <= blen(s.take(j)),
    decreases j - i,
{
    lemma_blen_take_step(s, j - 1);
    if i < j - 1 {
        lemma_blen_take_strict(s, i, j - 1);
    }
}

pub proof fn lemma_blen_take_le(s: Seq<char>, i: int)
    requires
        0 <= i <= s.len(),
    ensures
        blen(s.take(i)) <= blen(s),
        i <= blen(s.take(i)),
{
    lemma_blen_split(s, i);
    if i > 0 {
        lemma_blen_take_strict(s, 0, i);
    }
    assert(s.take(0) =~= Seq::<char>::empty());
}

pub proof fn lemma_chars_within(s: Seq<char>, b: int)
    ensures
        chars_within(s, b) <= s.len(),
        blen(s.take(chars_within(s, b) as int)) <= b || chars_within(s, b) == 0,
        b >= 0 ==> blen(s.take(chars_within(s, b) as int)) <= b,
        chars_within(s, b) < s.len() ==> blen(s.take(chars_within(s, b) as int)) + char_len(
            s[chars_within(s, b) as int],
        ) > b,
    decreases s.len(),
{
    let n = chars_within(s, b) as int;
    if s.len() == 0 {
        assert(s.take(0) =~= Seq::<char>::empty());
    } else if char_len(s[0]) <= b {
        let t = s.drop_first();
        let b2 = b - char_len(s[0]);
        lemma_chars_within(t, b2);
        assert(s.take(n) =~= seq![s[0]] + t.take(n - 1));
        lemma_blen_concat(seq![s[0]], t.take(n - 1));
        lemma_blen_single(s[0]);
        if n < s.len() {
            assert(s[n] == t[n - 1]);
        }
    } else {
        assert(s.take(0) =~= Seq::<char>::empty());
    }
}

/// Byte offset of a character index, seen from the other side: `chars_within`
/// recovers the index from its byte offset.
pub proof fn lemma_chars_within_of_take(s: Seq<char>, i: int)
    requires
        0 <= i <= s.len(),
    ensures
        chars_within(s, blen(s.take(i)) as int) == i,
        at_boundary(s, blen(s.take(i)) as int),
    decreases i,
{
    if i == 0 {
        assert(s.take(0) =~= Seq::<char>::empty());
        if s.len() > 0 {
            assert(char_len(s[0]) >= 1);
        }
    } else {
        let t = s.drop_first();
        assert(s.take(i) =~= seq![s[0]] + t.take(i - 1));
        lemma_blen_concat(seq![s[0]], t.take(i - 1));
        lemma_blen_single(s[0]);
        lemma_chars_within_of_take(t, i - 1);
    }
    assert(byte_prefix(s, blen(s.take(i)) as int) == s.take(i));
}

/// A byte offset is a boundary exactly when it is the byte length of some prefix.
pub proof fn lemma_at_boundary_index(s: Seq<char>, b: int)
    requires
        at_boundary(s, b),
    ensures
        0 <= b <= blen(s),
        chars_within(s, b) <= s.len(),
        blen(s.take(chars_within(s, b) as int)) == b,
{
    lemma_chars_within(s, b);
    lemma_blen_take_le(s, chars_within(s, b) as int);
}

/// UTF-8 byte length of `s[..n]`.
pub fn byte_offset(s: &Vec<char>, n: usize) -> (r: usize)
    requires
        n <= s.len(),
        blen(s@) <= usize::MAX,
    ensures
        r == blen(s@.take(n as int)),
{
    let mut acc: usize = 0;
    let mut i: usize = 0;
    assert(s@.take(0) =~= Seq::<char>::empty());
    while i < n
        invariant
            i <= n <= s.len(),
            blen(s@) <= usize::MAX,
            acc == blen(s@.take(i as int)),
        decreases n - i,
    {
        proof {
            lemma_blen_take_step(s@, i as int);
            lemma_blen_take_le(s@, i + 1);
        }
        acc = acc + len_utf8(s[i]);
        i += 1;
    }
    acc
}

/// UTF-8 byte length of `s`.
pub fn byte_len(s: &Vec<char>) -> (r: usize)
    requires
        blen(s@) <= usize::MAX,
    ensures
        r == blen(s@),
{
    assert(s@.take(s.len() as int) =~= s@);
    byte_offset(s, s.len())
}

/// The number of leading characters of `s` that fit in `b` bytes.
pub fn char_offset(s: &Vec<char>, b: usize) -> (r: usize)
    ensures
        r == chars_within(s@, b as int),
{
    let mut i: usize = 0;
    let mut left: usize = b;
    assert(s@.skip(0) =~= s@);
    while i < s.len() && len_utf8(s[i]) <= left
        invariant
            i <= s.len(),
            left <= b,
            chars_within(s@, b as int) == i + chars_within(s@.skip(i as int), left as int),
        decreases s.len() - i,
    {
        let c = len_utf8(s[i]);
        assert(s@.skip(i as int).drop_first() =~= s@.skip(i + 1));
        assert(s@.skip(i as int)[0] == s@[i as int]);
        left = left - c;
        i += 1;
    }
    if i < s.len() {
        assert(s@.skip(i as int)[0] == s@[i as int]);
    }
    i
}

/// UTF-8 length of `s` if it is at most `cap`.
pub fn byte_len_within(s: &Vec<char>, cap: usize) -> (r: Option<usize>)
    ensures
        match r {
            Some(n) => n == blen(s@) && n <= cap,
            None => blen(s@) > cap,
        },
{
    let mut acc: usize = 0;
    let mut i: usize = 0;
    assert(s@.take(0) =~= Seq::<char>::empty());
    while i < s.len()
        invariant
            i <= s.len(),
            acc <= cap,
            acc == blen(s@.take(i as int)),
        decreases s.len() - i,
    {
        proof {
            lemma_blen_take_step(s@, i as int);
        }
        let c = len_utf8(s[i]);
        if c > cap - acc {
            proof {
                lemma_blen_take_le(s@, i + 1);
            }
            return None;
        }
        acc = acc + c;
        i += 1;
    }
    assert(s@.take(s.len() as int) =~= s@);
    Some(acc)
}

// ---------------------------------------------------------------- conversion --

/// The characters of `s`.
pub fn chars_of(s: &str) -> (out: Vec<char>)
    ensures
        out@ == s@,
{
    let mut out: Vec<char> = Vec::new();
    for c in it: s.chars()
        invariant
            out@ == it.seq().take(it.index() as int),
    {
        out.push(c);
    }
    out
}

/// Appends `c`, as `String::push` does.
#[verifier::external_body]
pub(crate) fn push_char(s: &mut String, c: char)
    ensures
        final(s)@ == old(s)@.push(c),
{
    s.push(c);
}

/// The string holding exactly the characters `cs`.
pub fn string_of(cs: &Vec<char>) -> (out: String)
    ensures
        out@ == cs@,
{
    let mut out = String::new();
    let mut i: usize = 0;
    while i < cs.len()
        invariant
            i <= cs.len(),
            out@ == cs@.take(i as int),
        decreases cs.len() - i,
    {
        push_char(&mut out, cs[i]);
        i += 1;
        assert(cs@.take(i as int) =~= cs@.take(i - 1).push(cs@[i - 1]));
    }
    assert(cs@.take(cs.len() as int) =~= cs@);
    out
}

/// UTF-8 length of `s`, which is the length of its bytes and so fits a `usize`.
pub fn utf8_len(s: &str) -> (r: usize)
    ensures
        r == blen(s@),
{
    let bytes = s.as_bytes();
    proof {
        lemma_blen_is_encoding(s@);
    }
    bytes.len()
}

/// A fresh copy of `s`.
pub fn copy_str(s: &str) -> (out: String)
    ensures
        out@ == s@,
{
    let cs = chars_of(s);
    string_of(&cs)
}

// ---------------------------------------------------------------- case --

/// What `str::to_lowercase` returns for a string with these characters. The
/// Unicode lowercase mapping (with its context-sensitive final sigma) is
/// std's; nothing here restates it.
pub uninterp spec fn lowercase(s: Seq<char>) -> Seq<char>;

/// Whether every character is ASCII.
pub open spec fn all_ascii(s: Seq<char>) -> bool {
    forall|i: int| 0 <= i < s.len() ==> (#[trigger] s[i] as u32) < 0x80
}

/// `c` with `A`..=`Z` mapped to `a`..=`z`.
pub open spec fn ascii_lower_char(c: char) -> char {
    if 'A' <= c <= 'Z' {
        ((c as u32) + 32) as char
    } else {
        c
    }
}

/// `s` with each ASCII capital letter lowered.
pub open spec fn ascii_lower(s: Seq<char>) -> Seq<char> {
    s.map_values(|c: char| ascii_lower_char(c))
}

/// An all-ASCII text takes one byte per character.
pub proof fn lemma_blen_ascii(s: Seq<char>)
    requires
        all_ascii(s),
    ensures
        blen(s) == s.len(),
    decreases s.len(),
{
    if s.len() > 0 {
        assert((s[0] as u32) < 0x80);
        assert(all_ascii(s.drop_first())) by {
            assert forall|i: int| 0 <= i < s.drop_first().len() implies (
            #[trigger] s.drop_first()[i] as u32) < 0x80 by {
                assert(s.drop_first()[i] == s[i + 1]);
            }
        }
        lemma_blen_ascii(s.drop_first());
    }
}

/// Lowering ASCII capitals keeps an all-ASCII text all-ASCII and as long.
pub proof fn lemma_ascii_lower(s: Seq<char>)
    requires
        all_ascii(s),
    ensures
        ascii_lower(s).len() == s.len(),
        all_ascii(ascii_lower(s)),
        blen(ascii_lower(s)) == blen(s),
{
    let l = ascii_lower(s);
    assert forall|i: int| 0 <= i < l.len() implies (#[trigger] l[i] as u32) < 0x80 by {
        assert(l[i] == ascii_lower_char(s[i]));
        assert((s[i] as u32) < 0x80);
    }
    lemma_blen_ascii(s);
    lemma_blen_ascii(l);
}

/// Calls `str::to_lowercase`; the result is named [`lowercase`] of the input.
/// Claimed beyond the name: on ASCII text the Unicode lowercase mapping
/// lowers `A`..=`Z` to `a`..=`z` and leaves every other character alone.
#[verifier::external_body]
pub(crate) fn to_lowercase(s: &str) -> (r: String)
    ensures
        r@ == lowercase(s@),
        all_ascii(s@) ==> r@ == ascii_lower(s@),
{
    s.to_lowercase()
}

} // verus!
