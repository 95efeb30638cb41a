//! Command history: the scrollback of submitted commands and the browsing
//! position, with the half-typed line kept aside while browsing.
//!
//! Reading and writing the history file is I/O and lives with the host; this
//! module parses the file's contents and produces what to write back.

use vstd::prelude::*;

use crate::text::{
    all_ws, chars_of, copy_str, lemma_trim_end_len, slice, string_of, trim, trim_end_len, trimmed,
    trimmed_end,
};

verus! {

/// Keep only the newest `limit` entries.
pub open spec fn trim_to(s: Seq<Seq<char>>, limit: nat) -> Seq<Seq<char>> {
    if s.len() > limit {
        s.skip(s.len() - limit)
    } else {
        s
    }
}

/// The entries after pushing `entry`: blank lines and a repeat of the newest
/// entry are skipped, and the oldest entries fall off past `limit`.
pub open spec fn pushed(entries: Seq<Seq<char>>, limit: nat, entry: Seq<char>) -> Seq<Seq<char>> {
    if trimmed(entry).len() == 0 {
        entries
    } else if entries.len() > 0 && entries.last() == entry {
        entries
    } else {
        trim_to(entries.push(entry), limit)
    }
}

/// The pieces of `s` between `'\n'` characters.
pub open spec fn split_newlines(s: Seq<char>) -> Seq<Seq<char>>
    decreases s.len(),
{
    if s.len() == 0 {
        seq![Seq::empty()]
    } else {
        let rest = split_newlines(s.drop_last());
        if s.last() == '\n' {
            rest.push(Seq::empty())
        } else {
            rest.update(rest.len() - 1, rest.last().push(s.last()))
        }
    }
}

/// Each line with trailing whitespace removed, empty lines dropped.
pub open spec fn kept_lines(lines: Seq<Seq<char>>) -> Seq<Seq<char>>
    decreases lines.len(),
{
    if lines.len() == 0 {
        Seq::empty()
    } else {
        let rest = kept_lines(lines.drop_last());
        let line = lines.last().take(trim_end_len(lines.last()) as int);
        if line.len() == 0 {
            rest
        } else {
            rest.push(line)
        }
    }
}

/// The entries a history file with these contents holds.
pub open spec fn parse_history(contents: Seq<char>) -> Seq<Seq<char>> {
    kept_lines(split_newlines(contents))
}

/// Entries joined by `'\n'`, the form the history file is written in.
pub open spec fn join_lines(entries: Seq<Seq<char>>) -> Seq<char>
    decreases entries.len(),
{
    if entries.len() == 0 {
        Seq::empty()
    } else if entries.len() == 1 {
        entries[0]
    } else {
        join_lines(entries.drop_last()) + seq!['\n'] + entries.last()
    }
}

/// Browsing state: the entries, the position, the kept-aside draft.
pub type HistoryState = (Seq<Seq<char>>, Option<nat>, Seq<char>);

pub open spec fn str_opt_view(r: Option<&str>) -> Option<Seq<char>> {
    match r {
        Some(s) => Some(s@),
        None => None,
    }
}

/// One step towards older entries with `current` being edited: the new state
/// and the line to show.
pub open spec fn spec_older(h: HistoryState, current: Seq<char>) -> (HistoryState, Option<Seq<char>>) {
    if h.0.len() == 0 {
        (h, None)
    } else {
        let next: nat = match h.1 {
            None => (h.0.len() - 1) as nat,
            Some(i) => if i == 0 {
                0
            } else {
                (i - 1) as nat
            },
        };
        let draft = if h.1 is None {
            current
        } else {
            h.2
        };
        ((h.0, Some(next), draft), Some(h.0[next as int]))
    }
}

/// One step towards newer entries: the new state and the line to show.
pub open spec fn spec_newer(h: HistoryState) -> (HistoryState, Option<Seq<char>>) {
    match h.1 {
        None => (h, None),
        Some(i) => if i + 1 < h.0.len() {
            ((h.0, Some(i + 1), h.2), Some(h.0[(i + 1) as int]))
        } else {
            ((h.0, None, h.2), Some(h.2))
        },
    }
}

/// Scrollback of previously submitted commands.
///
/// Navigation keeps the half-typed line around, so Up/Down/Up returns the
/// operator to exactly what they were writing.
#[derive(Debug)]
pub struct History {
    entries: Vec<String>,
    /// `None` means "editing a fresh line"; otherwise an index into `entries`.
    position: Option<usize>,
    draft: String,
    limit: usize,
}

impl History {
    #[verifier::type_invariant]
    spec fn inv(&self) -> bool {
        &&& 1 <= self.limit
        &&& self.entries@.len() <= self.limit
        &&& self.position matches Some(i) ==> i < self.entries@.len()
        &&& forall|i: int| 0 <= i < self.entries@.len() ==> !all_ws(#[trigger] self.entries@[i]@)
    }

    /// The remembered commands, oldest first.
    pub closed spec fn entries_view(&self) -> Seq<Seq<char>> {
        self.entries@.map_values(|e: String| e@)
    }

    /// The entry being shown while browsing, if any.
    pub closed spec fn position(&self) -> Option<nat> {
        match self.position {
            Some(i) => Some(i as nat),
            None => None,
        }
    }

    /// The line that was being edited when browsing started.
    pub closed spec fn draft(&self) -> Seq<char> {
        self.draft@
    }

    /// How many entries are kept.
    pub closed spec fn limit(&self) -> nat {
        self.limit as nat
    }

    /// Entries, position and draft together.
    pub open spec fn state(&self) -> HistoryState {
        (self.entries_view(), self.position(), self.draft())
    }

    /// What every history keeps: a limit of at least one, no more entries
    /// than the limit, no blank entry, and a browsing position (if any) that
    /// names an entry.
    pub open spec fn well_formed(&self) -> bool {
        &&& 1 <= self.limit()
        &&& self.entries_view().len() <= self.limit()
        &&& forall|i: int|
            0 <= i < self.entries_view().len() ==> !all_ws(#[trigger] self.entries_view()[i])
        &&& self.position() matches Some(i) ==> i < self.entries_view().len()
    }

    /// The history's invariant, visible to callers.
    pub fn state_ok(&self) -> (r: bool)
        ensures
            r,
            self.well_formed(),
    {
        proof {
            use_type_invariant(self);
            assert forall|i: int| 0 <= i < self.entries_view().len() implies !all_ws(
                #[trigger] self.entries_view()[i],
            ) by {
                assert(self.entries_view()[i] == self.entries@[i]@);
            }
        }
        true
    }

    pub fn new(limit: usize) -> (r: History)
        ensures
            r.entries_view().len() == 0,
            r.position() is None,
            r.draft().len() == 0,
            r.limit() == if limit < 1 {
                1
            } else {
                limit
            },
    {
        let limit = if limit < 1 {
            1
        } else {
            limit
        };
        let r = History { entries: Vec::new(), position: None, draft: String::new(), limit };
        proof {
            assert(r.entries_view() =~= Seq::<Seq<char>>::empty());
        }
        r
    }

    /// Replace the entries with those of a history file's contents (each line
    /// trimmed at the end, empty lines dropped, the oldest past the limit
    /// dropped). The browsing position is kept while it still names an
    /// entry; otherwise browsing stops.
    pub fn load_contents(&mut self, contents: &str)
        ensures
            final(self).entries_view() == trim_to(parse_history(contents@), old(self).limit()),
            final(self).position() == (match old(self).position() {
                Some(i) => if i < final(self).entries_view().len() {
                    Some(i)
                } else {
                    None::<nat>
                },
                None => None::<nat>,
            }),
            final(self).draft() == old(self).draft(),
            final(self).limit() == old(self).limit(),
    {
        proof {
            use_type_invariant(&*self);
        }
        let cs = chars_of(contents);
        let lines = parse_lines(&cs);
        let kept = keep_newest(lines, self.limit);
        let n = kept.len();
        self.position = match self.position {
            Some(i) => if i < n {
                Some(i)
            } else {
                None
            },
            None => None,
        };
        self.entries = kept;
    }

    /// What to write to the history file: the entries joined by newlines.
    pub fn file_contents(&self) -> (r: String)
        ensures
            r@ == join_lines(self.entries_view()),
    {
        let mut out: Vec<char> = Vec::new();
        let mut i: usize = 0;
        while i < self.entries.len()
            invariant
                i <= self.entries@.len(),
                out@ == join_lines(self.entries_view().take(i as int)),
            decreases self.entries@.len() - i,
        {
            let ghost v = self.entries_view();
            proof {
                assert(v.take(i + 1).drop_last() =~= v.take(i as int));
                assert(v.take(i + 1).last() == v[i as int]);
                if i == 0 {
                    assert(v.take(0) =~= Seq::<Seq<char>>::empty());
                }
            }
            if i > 0 {
                out.push('\n');
            }
            let e = chars_of(self.entries[i].as_str());
            let mut j: usize = 0;
            let ghost before = out@;
            while j < e.len()
                invariant
                    j <= e@.len(),
                    out@ == before + e@.take(j as int),
                decreases e@.len() - j,
            {
                out.push(e[j]);
                j += 1;
                proof {
                    assert(e@.take(j as int) =~= e@.take(j - 1).push(e@[j - 1]));
                }
            }
            proof {
                assert(e@.take(e@.len() as int) =~= e@);
                if i == 0 {
                    assert(out@ =~= v.take(1)[0]);
                }
            }
            i += 1;
        }
        proof {
            assert(self.entries_view().take(self.entries@.len() as int) =~= self.entries_view());
        }
        string_of(&out)
    }

    /// Record a submitted line. Browsing stops; blank lines and a repeat of
    /// the newest entry are not recorded; the oldest entries fall off past the
    /// limit.
    pub fn push(&mut self, entry: &str)
        ensures
            final(self).entries_view() == pushed(old(self).entries_view(), old(self).limit(), entry@),
            final(self).position() is None,
            final(self).draft() == old(self).draft(),
            final(self).limit() == old(self).limit(),
    {
        self.reset();
        proof {
            use_type_invariant(&*self);
        }
        let cs = chars_of(entry);
        let t = trim(&cs);
        if t.len() == 0 {
            return;
        }
        let n = self.entries.len();
        if n > 0 {
            let last = chars_of(self.entries[n - 1].as_str());
            if crate::text::chars_eq(&last, &cs) {
                return;
            }
        }
        proof {
            lemma_trimmed_blank(cs@);
        }
        let mut all: Vec<String> = Vec::new();
        let mut i: usize = 0;
        while i < n
            invariant
                n == self.entries@.len(),
                i <= n,
                all@.len() == i,
                forall|j: int| 0 <= j < i ==> (#[trigger] all@[j])@ == self.entries@[j]@,
            decreases n - i,
        {
            all.push(copy_str(self.entries[i].as_str()));
            i += 1;
        }
        all.push(copy_str(entry));
        proof {
            assert forall|j: int| 0 <= j < all@.len() implies !all_ws(#[trigger] all@[j]@) by {
                if j < n {
                    assert(all@[j]@ == self.entries@[j]@);
                }
            }
            assert(all@.map_values(|e: String| e@) =~= self.entries_view().push(entry@));
        }
        let kept = keep_newest(all, self.limit);
        self.entries = kept;
    }

    /// Step towards older entries. `current` is the line being edited; it is
    /// kept aside when browsing starts and handed back by [`Self::newer`].
    pub fn older(&mut self, current: &str) -> (r: Option<&str>)
        ensures
            (final(self).state(), str_opt_view(r)) == spec_older(old(self).state(), current@),
            final(self).limit() == old(self).limit(),
    {
        proof {
            use_type_invariant(&*self);
        }
        if self.entries.len() == 0 {
            return None;
        }
        let next = match self.position {
            None => {
                self.draft = copy_str(current);
                self.entries.len() - 1
            },
            Some(0) => 0,
            Some(index) => index - 1,
        };
        self.position = Some(next);
        Some(self.entries[next].as_str())
    }

    /// Step towards newer entries, ending on the preserved draft.
    pub fn newer(&mut self) -> (r: Option<&str>)
        ensures
            (final(self).state(), str_opt_view(r)) == spec_newer(old(self).state()),
            final(self).limit() == old(self).limit(),
    {
        proof {
            use_type_invariant(&*self);
        }
        match self.position {
            None => None,
            Some(index) => {
                if index + 1 < self.entries.len() {
                    self.position = Some(index + 1);
                    Some(self.entries[index + 1].as_str())
                } else {
                    self.position = None;
                    Some(self.draft.as_str())
                }
            },
        }
    }

    /// Forget where we were browsing (called on any edit).
    pub fn reset(&mut self)
        ensures
            final(self).position() is None,
            final(self).entries_view() == old(self).entries_view(),
            final(self).draft() == old(self).draft(),
            final(self).limit() == old(self).limit(),
    {
        proof {
            use_type_invariant(&*self);
        }
        self.position = None;
    }

    /// The remembered commands, oldest first. There are never more than the
    /// limit, and none is blank.
    pub fn entries(&self) -> (r: &[String])
        ensures
            r@.map_values(|e: String| e@) == self.entries_view(),
            r@.len() <= self.limit(),
            forall|i: int| 0 <= i < r@.len() ==> !all_ws(#[trigger] r@[i]@),
    {
        proof {
            use_type_invariant(self);
        }
        self.entries.as_slice()
    }
}

/// Up then Down from a fresh line gives back exactly the line that was being
/// typed, and leaves browsing.
pub proof fn law_older_then_newer_restores_draft(h: HistoryState, current: Seq<char>)
    requires
        h.1 is None,
        h.0.len() > 0,
    ensures
        spec_newer(spec_older(h, current).0) == ((h.0, None::<nat>, current), Some(current)),
{
}

/// While browsing (not at the oldest entry), Up then Down returns to the same
/// entry and shows it again.
pub proof fn law_newer_undoes_older(h: HistoryState, current: Seq<char>)
    requires
        h.1 matches Some(i) && 0 < i < h.0.len(),
    ensures
        spec_newer(spec_older(h, current).0) == (h, Some(h.0[h.1->0 as int])),
{
}

/// The state after `k` steps towards older entries, each made while `current`
/// is on the line.
pub open spec fn older_times(h: HistoryState, current: Seq<char>, k: nat) -> HistoryState
    decreases k,
{
    if k == 0 {
        h
    } else {
        spec_older(older_times(h, current, (k - 1) as nat), current).0
    }
}

/// The state after `k` steps towards newer entries.
pub open spec fn newer_times(h: HistoryState, k: nat) -> HistoryState
    decreases k,
{
    if k == 0 {
        h
    } else {
        spec_newer(newer_times(h, (k - 1) as nat)).0
    }
}

proof fn lemma_older_times(h: HistoryState, d: Seq<char>, j: nat)
    requires
        h.1 is None,
        1 <= j <= h.0.len(),
    ensures
        older_times(h, d, j) == (h.0, Some((h.0.len() - j) as nat), d),
    decreases j,
{
    if j > 1 {
        lemma_older_times(h, d, (j - 1) as nat);
    } else {
        assert(older_times(h, d, 0) == h);
    }
}

proof fn lemma_newer_times(h: HistoryState, d: Seq<char>, k: nat, j: nat)
    requires
        1 <= k <= h.0.len(),
        j <= k,
    ensures
        j < k ==> newer_times((h.0, Some((h.0.len() - k) as nat), d), j) == (
            h.0,
            Some((h.0.len() - k + j) as nat),
            d,
        ),
        j == k ==> newer_times((h.0, Some((h.0.len() - k) as nat), d), j) == (h.0, None::<nat>, d),
    decreases j,
{
    if j > 0 {
        lemma_newer_times(h, d, k, (j - 1) as nat);
    } else {
        assert(newer_times((h.0, Some((h.0.len() - k) as nat), d), 0) == (
            h.0,
            Some((h.0.len() - k) as nat),
            d,
        ));
    }
}

/// Walking `k` entries up from a fresh line (at most as many as there are)
/// and then down again: each step down shows the next newer entry, the
/// `k`-th gives back the draft and leaves browsing, and one more shows
/// nothing. The entries never change.
pub proof fn law_walk_back_to_draft(h: HistoryState, d: Seq<char>, k: nat)
    requires
        h.1 is None,
        1 <= k <= h.0.len(),
    ensures
        older_times(h, d, k) == (h.0, Some((h.0.len() - k) as nat), d),
        forall|j: nat|
            1 <= j < k ==> #[trigger] spec_newer(newer_times(older_times(h, d, k), (j - 1) as nat)).1
                == Some(h.0[h.0.len() - k + j]),
        spec_newer(newer_times(older_times(h, d, k), (k - 1) as nat)).1 == Some(d),
        newer_times(older_times(h, d, k), k) == (h.0, None::<nat>, d),
        spec_newer(newer_times(older_times(h, d, k), k)).1 is None,
{
    lemma_older_times(h, d, k);
    let top = older_times(h, d, k);
    assert forall|j: nat| 1 <= j < k implies #[trigger] spec_newer(
        newer_times(top, (j - 1) as nat),
    ).1 == Some(h.0[h.0.len() - k + j]) by {
        lemma_newer_times(h, d, k, (j - 1) as nat);
    }
    lemma_newer_times(h, d, k, (k - 1) as nat);
    lemma_newer_times(h, d, k, k);
}

/// Browsing never changes the entries.
pub proof fn law_browsing_keeps_entries(h: HistoryState, current: Seq<char>)
    ensures
        spec_older(h, current).0.0 == h.0,
        spec_newer(h).0.0 == h.0,
{
}

/// Pushing keeps at most `limit` entries, and a recorded line becomes the
/// newest entry.
pub proof fn law_push_keeps_limit(entries: Seq<Seq<char>>, limit: nat, entry: Seq<char>)
    requires
        1 <= limit,
        entries.len() <= limit,
    ensures
        pushed(entries, limit, entry).len() <= limit,
        trimmed(entry).len() > 0 && !(entries.len() > 0 && entries.last() == entry) ==> pushed(
            entries,
            limit,
            entry,
        ).last() == entry,
{
}

/// Keeping at most `limit` entries keeps exactly the newest ones: as many as
/// there are, up to `limit`, and they are the last ones, in order.
pub proof fn law_trim_keeps_the_newest(s: Seq<Seq<char>>, limit: nat)
    ensures
        trim_to(s, limit).len() == (if s.len() < limit {
            s.len()
        } else {
            limit
        }),
        forall|i: int|
            0 <= i < trim_to(s, limit).len() ==> #[trigger] trim_to(s, limit)[i] == s[s.len()
                - trim_to(s, limit).len() + i],
{
}

/// Recording a line appends it; when the history is already full, exactly
/// the oldest entry falls off to make room.
pub proof fn law_full_history_drops_only_the_oldest(
    entries: Seq<Seq<char>>,
    limit: nat,
    entry: Seq<char>,
)
    requires
        1 <= limit,
        entries.len() <= limit,
        trimmed(entry).len() > 0,
        !(entries.len() > 0 && entries.last() == entry),
    ensures
        entries.len() < limit ==> pushed(entries, limit, entry) == entries.push(entry),
        entries.len() == limit ==> pushed(entries, limit, entry) == entries.drop_first().push(
            entry,
        ),
{
    let p = entries.push(entry);
    if entries.len() == limit {
        assert(p.skip(p.len() - limit) =~= entries.drop_first().push(entry));
    }
}

/// No line break in `s`.
pub open spec fn single_line(s: Seq<char>) -> bool {
    forall|i: int| 0 <= i < s.len() ==> #[trigger] s[i] != '\n'
}

proof fn lemma_split_single(b: Seq<char>)
    requires
        single_line(b),
    ensures
        split_newlines(b) == seq![b],
    decreases b.len(),
{
    if b.len() == 0 {
        assert(b =~= Seq::<char>::empty());
    } else {
        lemma_split_single(b.drop_last());
        assert(b.last() == b[b.len() - 1]);
        assert(b.drop_last().push(b.last()) =~= b);
        assert(seq![b.drop_last()].update(0, b.drop_last().push(b.last())) =~~= seq![b]);
    }
}

proof fn lemma_split_after_break(a: Seq<char>, b: Seq<char>)
    requires
        single_line(b),
    ensures
        split_newlines(a + seq!['\n'] + b) == split_newlines(a).push(b),
    decreases b.len(),
{
    let x = a + seq!['\n'] + b;
    if b.len() == 0 {
        assert(x.drop_last() =~= a);
        assert(x.last() == '\n');
        assert(b =~= Seq::<char>::empty());
    } else {
        lemma_split_after_break(a, b.drop_last());
        assert(x.drop_last() =~= a + seq!['\n'] + b.drop_last());
        assert(x.last() == b[b.len() - 1]);
        let rest = split_newlines(a).push(b.drop_last());
        assert(b.drop_last().push(b.last()) =~= b);
        assert(rest.update(rest.len() - 1, rest.last().push(b.last())) =~~= split_newlines(a).push(b));
    }
}

proof fn lemma_split_join(es: Seq<Seq<char>>)
    requires
        es.len() > 0,
        forall|i: int| 0 <= i < es.len() ==> single_line(#[trigger] es[i]),
    ensures
        split_newlines(join_lines(es)) == es,
    decreases es.len(),
{
    if es.len() == 1 {
        lemma_split_single(es[0]);
        assert(seq![es[0]] =~= es);
    } else {
        let init = es.drop_last();
        assert forall|i: int| 0 <= i < init.len() implies single_line(#[trigger] init[i]) by {
            assert(init[i] == es[i]);
        }
        lemma_split_join(init);
        assert(single_line(es[es.len() - 1]));
        lemma_split_after_break(join_lines(init), es.last());
        assert(init.push(es.last()) =~= es);
    }
}

proof fn lemma_kept_plain(es: Seq<Seq<char>>)
    requires
        forall|i: int|
            0 <= i < es.len() ==> #[trigger] es[i].len() > 0 && trim_end_len(es[i]) == es[i].len(),
    ensures
        kept_lines(es) == es,
    decreases es.len(),
{
    if es.len() > 0 {
        let init = es.drop_last();
        assert forall|i: int| 0 <= i < init.len() implies #[trigger] init[i].len() > 0
            && trim_end_len(init[i]) == init[i].len() by {
            assert(init[i] == es[i]);
        }
        lemma_kept_plain(init);
        let l = es[es.len() - 1];
        assert(l.take(l.len() as int) =~= l);
        assert(init.push(l) =~= es);
    }
}

/// Writing the history file and reading it back gives the same entries, for
/// entries that hold no line break and end in no whitespace (as the lines the
/// console records, which are trimmed, do).
pub proof fn law_saved_history_loads_back(es: Seq<Seq<char>>)
    requires
        forall|i: int|
            0 <= i < es.len() ==> #[trigger] es[i].len() > 0 && trim_end_len(es[i]) == es[i].len()
                && single_line(es[i]),
    ensures
        parse_history(join_lines(es)) == es,
{
    if es.len() == 0 {
        let e = Seq::<char>::empty();
        let one: Seq<Seq<char>> = seq![e];
        assert(join_lines(es) == e);
        assert(split_newlines(e) == one);
        assert(one.drop_last() =~= Seq::<Seq<char>>::empty());
        assert(one.last() == e);
        assert(e.take(0) =~= e);
        assert(kept_lines(one) == kept_lines(one.drop_last()));
        assert(es =~= Seq::<Seq<char>>::empty());
    } else {
        lemma_split_join(es);
        lemma_kept_plain(es);
    }
}

proof fn lemma_trimmed_blank(s: Seq<char>)
    requires
        trimmed(s).len() > 0,
    ensures
        !all_ws(s),
{
    let t = s.take(trim_end_len(s) as int);
    crate::text::lemma_lead_ws(t);
    lemma_trim_end_len(s);
    let l = crate::text::lead_ws(t);
    assert(t[l as int] == s[l as int]);
}

/// The newest `limit` of `entries`.
fn keep_newest(entries: Vec<String>, limit: usize) -> (r: Vec<String>)
    requires
        limit >= 1,
        forall|i: int| 0 <= i < entries@.len() ==> !all_ws(#[trigger] entries@[i]@),
    ensures
        r@.map_values(|e: String| e@) == trim_to(entries@.map_values(|e: String| e@), limit as nat),
        r@.len() <= limit,
        forall|i: int| 0 <= i < r@.len() ==> !all_ws(#[trigger] r@[i]@),
{
    if entries.len() <= limit {
        return entries;
    }
    let excess = entries.len() - limit;
    let mut r: Vec<String> = Vec::new();
    let mut i = excess;
    while i < entries.len()
        invariant
            excess <= i <= entries@.len(),
            r@.len() == i - excess,
            forall|j: int| 0 <= j < r@.len() ==> (#[trigger] r@[j])@ == entries@[j + excess]@,
        decreases entries@.len() - i,
    {
        r.push(copy_str(entries[i].as_str()));
        i += 1;
    }
    proof {
        assert(r@.map_values(|e: String| e@) =~= entries@.map_values(|e: String| e@).skip(
            excess as int,
        ));
        assert forall|j: int| 0 <= j < r@.len() implies !all_ws(#[trigger] r@[j]@) by {
            assert(r@[j]@ == entries@[j + excess]@);
        }
    }
    r
}

/// The lines of a history file's contents: split at newlines, trimmed at the
/// end, empty ones dropped.
fn parse_lines(cs: &Vec<char>) -> (r: Vec<String>)
    ensures
        r@.map_values(|e: String| e@) == parse_history(cs@),
        forall|i: int| 0 <= i < r@.len() ==> !all_ws(#[trigger] r@[i]@),
{
    let mut out: Vec<String> = Vec::new();
    let mut start: usize = 0;
    let mut i: usize = 0;
    proof {
        assert(cs@.take(0) =~= Seq::<char>::empty());
        assert(split_newlines(Seq::<char>::empty()) == seq![Seq::<char>::empty()]);
        assert(cs@.subrange(0, 0) =~= Seq::<char>::empty());
    }
    while i < cs.len()
        invariant
            start <= i <= cs.len(),
            split_newlines(cs@.take(i as int)).len() >= 1,
            split_newlines(cs@.take(i as int)).last() == cs@.subrange(start as int, i as int),
            out@.map_values(|e: String| e@) == kept_lines(
                split_newlines(cs@.take(i as int)).drop_last(),
            ),
            forall|j: int| 0 <= j < out@.len() ==> !all_ws(#[trigger] out@[j]@),
        decreases cs.len() - i,
    {
        let ghost pieces = split_newlines(cs@.take(i as int));
        proof {
            assert(cs@.take(i + 1).drop_last() =~= cs@.take(i as int));
            assert(cs@.take(i + 1).last() == cs@[i as int]);
        }
        if cs[i] == '\n' {
            let end = trimmed_end(cs, i);
            proof {
                lemma_trim_end_len(cs@.take(i as int));
            }
            proof {
                let line = cs@.subrange(start as int, i as int);
                lemma_trim_end_sub(cs@, start as int, i as int);
                assert(split_newlines(cs@.take(i + 1)) == pieces.push(Seq::empty()));
                assert(split_newlines(cs@.take(i + 1)).drop_last() =~= pieces);
                assert(pieces.drop_last().push(pieces.last()) =~= pieces);
            }
            if end > start {
                let piece = slice(cs, start, end);
                proof {
                    lemma_trim_end_len(cs@.subrange(start as int, i as int));
                    let line = cs@.subrange(start as int, i as int);
                    assert(piece@ =~= line.take(trim_end_len(line) as int));
                    assert(!crate::text::is_ws(piece@[piece@.len() - 1]));
                }
                out.push(string_of(&piece));
                proof {
                    assert(out@.map_values(|e: String| e@) =~= kept_lines(pieces.drop_last()).push(
                        piece@,
                    ));
                }
            }
            start = i + 1;
            i += 1;
            proof {
                assert(cs@.subrange(start as int, i as int) =~= Seq::<char>::empty());
            }
        } else {
            proof {
                let np = split_newlines(cs@.take(i + 1));
                assert(np == pieces.update(pieces.len() - 1, pieces.last().push(cs@[i as int])));
                assert(np.drop_last() =~= pieces.drop_last());
                assert(np.last() =~= cs@.subrange(start as int, i + 1));
            }
            i += 1;
        }
    }
    let end = trimmed_end(cs, cs.len());
    proof {
        lemma_trim_end_len(cs@.take(cs.len() as int));
    }
    let ghost pieces = split_newlines(cs@.take(i as int));
    proof {
        lemma_trim_end_sub(cs@, start as int, cs.len() as int);
        assert(cs@.take(cs.len() as int) =~= cs@);
        assert(pieces.drop_last().push(pieces.last()) =~= pieces);
    }
    if end > start {
        let piece = slice(cs, start, end);
        proof {
            let line = cs@.subrange(start as int, cs.len() as int);
            lemma_trim_end_len(line);
            assert(piece@ =~= line.take(trim_end_len(line) as int));
            assert(!crate::text::is_ws(piece@[piece@.len() - 1]));
        }
        out.push(string_of(&piece));
        proof {
            assert(out@.map_values(|e: String| e@) =~= kept_lines(pieces));
        }
    }
    out
}

/// Trimming the end of `s[start..end]` is trimming `s[..end]` down to no
/// further than `start`.
proof fn lemma_trim_end_sub(s: Seq<char>, start: int, end: int)
    requires
        0 <= start <= end <= s.len(),
    ensures
        ({
            let te = trim_end_len(s.take(end));
            let line = s.subrange(start, end);
            if te > start {
                trim_end_len(line) == te - start
            } else {
                trim_end_len(line) == 0
            }
        }),
    decreases end - start,
{
    let line = s.subrange(start, end);
    if end > start {
        assert(s.take(end).last() == s[end - 1]);
        assert(line.last() == s[end - 1]);
        assert(s.take(end).drop_last() =~= s.take(end - 1));
        assert(line.drop_last() =~= s.subrange(start, end - 1));
        if crate::text::is_ws(s[end - 1]) {
            lemma_trim_end_sub(s, start, end - 1);
        }
    } else {
        assert(line.len() == 0);
        lemma_trim_end_len(s.take(end));
    }
}

} // verus!
