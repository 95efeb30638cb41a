//! Command completion: the trait the console asks, plus a tree implementation
//! for hosts that do not already have a dispatcher able to answer completion
//! queries.

use vstd::prelude::*;

use crate::text::{
    after_last_ws, at_boundary, blen, byte_len, byte_offset, byte_prefix, char_len, char_offset,
    chars_eq, chars_of, chars_within, copy_str, count_lead_ws, first_ws, has_prefix, last_ws_end,
    lead_ws, lemma_after_last_ws, lemma_at_boundary_index, lemma_blen_take_le, lemma_first_ws,
    lemma_lead_ws, next_ws, slice, starts_with, string_of,
};

verus! {

// ---------------------------------------------------------------- requests --

/// What the operator has typed so far.
#[derive(Clone, Copy, Debug)]
pub struct CompletionRequest<'a> {
    /// The full input line (a leading `/` is tolerated).
    pub line: &'a str,
    /// Byte offset of the caret within `line`.
    pub cursor: usize,
}

/// The byte offset completion reads up to: the caret, clamped to the line.
pub open spec fn clamp_cursor(line: Seq<char>, cursor: int) -> int {
    if cursor < blen(line) {
        cursor
    } else {
        blen(line) as int
    }
}

/// A request can be served: the clamped caret sits on a character boundary
/// (slicing there is what the console does).
pub open spec fn request_ok(line: Seq<char>, cursor: int) -> bool {
    at_boundary(line, clamp_cursor(line, cursor))
}

/// The line up to the caret.
pub open spec fn req_prefix(line: Seq<char>, cursor: int) -> Seq<char> {
    byte_prefix(line, clamp_cursor(line, cursor))
}

/// Character index where the word under the caret starts, within the prefix.
pub open spec fn word_index(line: Seq<char>, cursor: int) -> nat {
    after_last_ws(req_prefix(line, cursor))
}

impl<'a> CompletionRequest<'a> {
    /// The line up to the caret; completion never looks past it.
    pub fn prefix(&self) -> (r: String)
        requires
            request_ok(self.line@, self.cursor as int),
        ensures
            r@ == req_prefix(self.line@, self.cursor as int),
    {
        let p = prefix_chars(self.line, self.cursor);
        string_of(&p)
    }

    /// Byte offset where the word under the caret starts.
    pub fn word_start(&self) -> (r: usize)
        requires
            request_ok(self.line@, self.cursor as int),
        ensures
            r == blen(
                req_prefix(self.line@, self.cursor as int).take(
                    word_index(self.line@, self.cursor as int) as int,
                ),
            ),
    {
        let p = prefix_chars(self.line, self.cursor);
        let w = last_ws_end(&p, p.len());
        proof {
            assert(p@.take(p.len() as int) =~= p@);
            lemma_after_last_ws(p@);
        }
        byte_offset(&p, w)
    }

    /// The (possibly empty) word under the caret.
    pub fn word(&self) -> (r: String)
        requires
            request_ok(self.line@, self.cursor as int),
        ensures
            r@ == req_prefix(self.line@, self.cursor as int).skip(
                word_index(self.line@, self.cursor as int) as int,
            ),
    {
        let p = prefix_chars(self.line, self.cursor);
        let w = last_ws_end(&p, p.len());
        proof {
            assert(p@.take(p.len() as int) =~= p@);
            lemma_after_last_ws(p@);
        }
        let word = slice(&p, w, p.len());
        string_of(&word)
    }
}

/// The characters of `line` before the (clamped) byte offset `cursor`.
fn prefix_chars(line: &str, cursor: usize) -> (r: Vec<char>)
    requires
        request_ok(line@, cursor as int),
    ensures
        r@ == req_prefix(line@, cursor as int),
        blen(r@) == clamp_cursor(line@, cursor as int),
        blen(r@) <= usize::MAX,
{
    let cs = chars_of(line);
    let len = crate::text::utf8_len(line);
    let c = if cursor < len {
        cursor
    } else {
        len
    };
    let n = char_offset(&cs, c);
    proof {
        lemma_at_boundary_index(cs@, c as int);
    }
    slice(&cs, 0, n)
}

// ---------------------------------------------------------------- candidates --

/// What a candidate represents, used purely for colouring the popup.
#[derive(Clone, Copy, PartialEq, Eq, Structural, Debug)]
pub enum CompletionKind {
    /// A root command name.
    Command,
    /// A fixed sub-command word.
    Literal,
    /// A concrete value for an argument.
    Argument,
    /// An online player (or any entity selector target).
    Player,
    /// A `<placeholder>` describing the expected argument; never inserted.
    Placeholder,
}

/// One candidate.
#[derive(Clone, Debug)]
pub struct Completion {
    pub value: String,
    pub detail: Option<String>,
    pub kind: CompletionKind,
}

/// A candidate as plain values: its text, its detail, its kind.
pub type CView = (Seq<char>, Option<Seq<char>>, CompletionKind);

pub open spec fn opt_view(o: Option<String>) -> Option<Seq<char>> {
    match o {
        Some(s) => Some(s@),
        None => None,
    }
}

pub open spec fn cview(c: Completion) -> CView {
    (c.value@, opt_view(c.detail), c.kind)
}

pub open spec fn cviews(items: Seq<Completion>) -> Seq<CView> {
    items.map_values(|c: Completion| cview(c))
}

/// Whether accepting a candidate of this kind rewrites the line.
pub open spec fn kind_insertable(kind: CompletionKind) -> bool {
    kind != CompletionKind::Placeholder
}

fn clone_opt(o: &Option<String>) -> (r: Option<String>)
    ensures
        opt_view(r) == opt_view(*o),
{
    match o {
        Some(s) => Some(copy_str(s.as_str())),
        None => None,
    }
}

impl Completion {
    pub fn new(value: &str, kind: CompletionKind) -> (r: Completion)
        ensures
            cview(r) == (value@, None::<Seq<char>>, kind),
    {
        Completion { value: copy_str(value), detail: None, kind }
    }

    pub fn with_detail(self, detail: &str) -> (r: Completion)
        ensures
            cview(r) == (self.value@, Some(detail@), self.kind),
    {
        let mut r = self;
        r.detail = Some(copy_str(detail));
        r
    }

    /// Whether accepting this candidate should rewrite the line.
    pub fn insertable(&self) -> (r: bool)
        ensures
            r == kind_insertable(self.kind),
    {
        match self.kind {
            CompletionKind::Placeholder => false,
            _ => true,
        }
    }
}

/// A completion result: the candidates, plus where in the line they go.
#[derive(Clone, Debug)]
pub struct Completions {
    /// Byte offset in the line that a chosen `value` replaces from.
    pub start: usize,
    pub items: Vec<Completion>,
}

impl Default for Completions {
    fn default() -> (r: Completions)
        ensures
            r.start == 0,
            r.items@.len() == 0,
    {
        Completions { start: 0, items: Vec::new() }
    }
}

/// Values of the insertable candidates, in order.
pub open spec fn insertable_values(items: Seq<CView>) -> Seq<Seq<char>>
    decreases items.len(),
{
    if items.len() == 0 {
        Seq::empty()
    } else {
        let rest = insertable_values(items.drop_last());
        if kind_insertable(items.last().2) {
            rest.push(items.last().0)
        } else {
            rest
        }
    }
}

/// Length of the longest common prefix of `a` and `b`.
pub open spec fn common_len(a: Seq<char>, b: Seq<char>) -> nat
    decreases a.len(),
{
    if a.len() == 0 || b.len() == 0 || a[0] != b[0] {
        0
    } else {
        1 + common_len(a.drop_first(), b.drop_first())
    }
}

/// Longest prefix shared by all of `vals` (which must be non-empty).
pub open spec fn lcp_all(vals: Seq<Seq<char>>) -> Seq<char>
    decreases vals.len(),
{
    if vals.len() <= 1 {
        vals[0]
    } else {
        let p = lcp_all(vals.drop_last());
        p.take(common_len(p, vals.last()) as int)
    }
}

/// What `Completions::common_prefix` answers for these candidates.
pub open spec fn spec_common_prefix(items: Seq<CView>) -> Option<Seq<char>> {
    let vals = insertable_values(items);
    if vals.len() == 0 {
        None
    } else if lcp_all(vals).len() == 0 {
        None
    } else {
        Some(lcp_all(vals))
    }
}

pub proof fn lemma_common_len(a: Seq<char>, b: Seq<char>)
    ensures
        common_len(a, b) <= a.len(),
        common_len(a, b) <= b.len(),
        a.take(common_len(a, b) as int) == b.take(common_len(a, b) as int),
        common_len(a, b) < a.len() && common_len(a, b) < b.len() ==> a[common_len(a, b) as int]
            != b[common_len(a, b) as int],
    decreases a.len(),
{
    if !(a.len() == 0 || b.len() == 0 || a[0] != b[0]) {
        lemma_common_len(a.drop_first(), b.drop_first());
        let n = common_len(a, b) as int;
        assert(a.take(n) =~= seq![a[0]] + a.drop_first().take(n - 1));
        assert(b.take(n) =~= seq![b[0]] + b.drop_first().take(n - 1));
        if n < a.len() && n < b.len() {
            assert(a[n] == a.drop_first()[n - 1]);
            assert(b[n] == b.drop_first()[n - 1]);
        }
    } else {
        assert(a.take(0) =~= b.take(0));
    }
}

proof fn lemma_lcp_all(vals: Seq<Seq<char>>, q: Seq<char>)
    requires
        vals.len() > 0,
    ensures
        forall|i: int| 0 <= i < vals.len() ==> has_prefix(#[trigger] vals[i], lcp_all(vals)),
        (forall|i: int| 0 <= i < vals.len() ==> has_prefix(#[trigger] vals[i], q)) ==> has_prefix(
            lcp_all(vals),
            q,
        ),
    decreases vals.len(),
{
    if vals.len() == 1 {
        assert(vals[0].take(vals[0].len() as int) =~= vals[0]);
        if forall|i: int| 0 <= i < vals.len() ==> has_prefix(#[trigger] vals[i], q) {
            assert(has_prefix(vals[0], q));
        }
    } else {
        let init = vals.drop_last();
        let last = vals.last();
        let p = lcp_all(init);
        lemma_lcp_all(init, q);
        lemma_common_len(p, last);
        let n = common_len(p, last) as int;
        let l = p.take(n);
        assert(lcp_all(vals) == l);
        assert forall|i: int| 0 <= i < vals.len() implies has_prefix(#[trigger] vals[i], l) by {
            if i < vals.len() - 1 {
                assert(vals[i] == init[i]);
                assert(has_prefix(init[i], p));
                assert(vals[i].take(n) =~= vals[i].take(p.len() as int).take(n));
            } else {
                assert(last.take(n) == p.take(n));
            }
        }
        if forall|i: int| 0 <= i < vals.len() ==> has_prefix(#[trigger] vals[i], q) {
            assert forall|i: int| 0 <= i < init.len() implies has_prefix(#[trigger] init[i], q) by {
                assert(init[i] == vals[i]);
            }
            assert(has_prefix(p, q));
            assert(has_prefix(vals[vals.len() - 1], q));
            if q.len() > n {
                assert(p[n] == q[n]);
                assert(last[n] == last.take(q.len() as int)[n]);
                assert(p[n] == p.take(q.len() as int)[n]);
                assert(false);
            }
            assert(l.take(q.len() as int) =~= p.take(q.len() as int));
        }
    }
}

/// The common prefix Tab fills in is shared by every insertable candidate and
/// is the longest such; there is none exactly when no candidate is insertable
/// or the insertable ones share no character.
pub proof fn law_common_prefix_is_the_longest_shared(items: Seq<CView>, q: Seq<char>)
    ensures
        spec_common_prefix(items) matches Some(p) ==> forall|i: int|
            0 <= i < insertable_values(items).len() ==> has_prefix(
                #[trigger] insertable_values(items)[i],
                p,
            ),
        (forall|i: int|
            0 <= i < insertable_values(items).len() ==> has_prefix(
                #[trigger] insertable_values(items)[i],
                q,
            )) ==> match spec_common_prefix(items) {
            Some(p) => has_prefix(p, q),
            None => insertable_values(items).len() == 0 || q.len() == 0,
        },
{
    let vals = insertable_values(items);
    if vals.len() > 0 {
        lemma_lcp_all(vals, q);
    }
}

impl Completions {
    pub fn new(start: usize, items: Vec<Completion>) -> (r: Completions)
        ensures
            r.start == start,
            r.items == items,
    {
        Completions { start, items }
    }

    pub fn is_empty(&self) -> (r: bool)
        ensures
            r == (self.items@.len() == 0),
    {
        self.items.len() == 0
    }

    /// Longest prefix shared by every insertable candidate — what Tab fills in
    /// when the choice is still ambiguous. `None` when there is no insertable
    /// candidate or they share nothing.
    pub fn common_prefix(&self) -> (r: Option<String>)
        ensures
            match r {
                Some(s) => spec_common_prefix(cviews(self.items@)) == Some(s@),
                None => spec_common_prefix(cviews(self.items@)) is None,
            },
    {
        let mut prefix: Option<Vec<char>> = None;
        let mut i: usize = 0;
        while i < self.items.len()
            invariant
                i <= self.items.len(),
                insertable_values(cviews(self.items@).take(i as int)).len() == 0 <==> prefix is None,
                prefix matches Some(p) ==> p@ == lcp_all(
                    insertable_values(cviews(self.items@).take(i as int)),
                ),
            decreases self.items.len() - i,
        {
            let item = &self.items[i];
            proof {
                let cs = cviews(self.items@);
                assert(cs.take(i + 1).drop_last() =~= cs.take(i as int));
                assert(cs.take(i + 1).last() == cview(self.items@[i as int]));
            }
            let ghost old_vals = insertable_values(cviews(self.items@).take(i as int));
            let ghost new_vals = insertable_values(cviews(self.items@).take(i + 1));
            if item.insertable() {
                let v = chars_of(item.value.as_str());
                proof {
                    assert(new_vals == old_vals.push(v@));
                    assert(new_vals.drop_last() =~= old_vals);
                }
                match prefix {
                    None => {
                        prefix = Some(v);
                        proof {
                            assert(new_vals.len() == 1);
                        }
                    },
                    Some(p) => {
                        let n = common_count(&p, &v);
                        prefix = Some(slice(&p, 0, n));
                        proof {
                            lemma_common_len(p@, v@);
                            assert(p@.subrange(0, n as int) =~= p@.take(n as int));
                            assert(new_vals.len() >= 2);
                        }
                    },
                }
            } else {
                proof {
                    assert(new_vals == old_vals);
                }
            }
            i += 1;
        }
        proof {
            assert(cviews(self.items@).take(self.items.len() as int) =~= cviews(self.items@));
        }
        match prefix {
            None => None,
            Some(p) => {
                if p.len() == 0 {
                    None
                } else {
                    Some(string_of(&p))
                }
            },
        }
    }
}

/// Number of leading characters `a` and `b` share.
fn common_count(a: &Vec<char>, b: &Vec<char>) -> (r: usize)
    ensures
        r == common_len(a@, b@),
        r <= a@.len(),
{
    let mut i: usize = 0;
    assert(a@.skip(0) =~= a@);
    assert(b@.skip(0) =~= b@);
    while i < a.len() && i < b.len() && a[i] == b[i]
        invariant
            i <= a.len(),
            i <= b.len(),
            common_len(a@, b@) == i + common_len(a@.skip(i as int), b@.skip(i as int)),
        decreases a.len() - i,
    {
        assert(a@.skip(i as int).drop_first() =~= a@.skip(i + 1));
        assert(b@.skip(i as int).drop_first() =~= b@.skip(i + 1));
        i += 1;
    }
    proof {
        lemma_common_len(a@, b@);
        if i < a.len() && i < b.len() {
            assert(a@.skip(i as int)[0] == a@[i as int]);
            assert(b@.skip(i as int)[0] == b@[i as int]);
        }
    }
    i
}

/// Answers completion queries for the console.
///
/// Implement this over your own command dispatcher; it is called on every
/// keystroke, so keep it cheap and never block on I/O.
pub trait Completer: Send + Sync {
    /// `c` (replacement start, candidates) is an answer this completer may
    /// give for `line` with the caret at byte `cursor`. A completer that does
    /// not say promises nothing of its answers.
    open spec fn answers(&self, line: Seq<char>, cursor: nat, c: (nat, Seq<CView>)) -> bool {
        true
    }

    fn complete(&self, request: CompletionRequest) -> (r: Completions)
        requires
            request_ok(request.line@, request.cursor as int),
        ensures
            self.answers(request.line@, request.cursor as nat, (r.start as nat, cviews(r.items@))),
    ;
}

/// A completer that never suggests anything.
pub struct NoCompleter;

impl Completer for NoCompleter {
    /// Nothing, replacing from the line start.
    open spec fn answers(&self, line: Seq<char>, cursor: nat, c: (nat, Seq<CView>)) -> bool {
        c.0 == 0 && c.1.len() == 0
    }

    fn complete(&self, request: CompletionRequest) -> (r: Completions)
        ensures
            r.start == 0,
            r.items@.len() == 0,
    {
        Completions::default()
    }
}

// ---------------------------------------------------------------- tree --

/// A source of argument values computed at completion time (online players,
/// loaded worlds).
pub trait SuggestSource: Send + Sync {
    /// `vals` is a list of values this source may give when asked.
    spec fn gives(&self, vals: Seq<Seq<char>>) -> bool;

    /// Ask the source for its values now.
    fn values(&self) -> (r: Vec<String>)
        ensures
            self.gives(string_views(r@)),
    ;
}

/// A closure as a source of values.
pub struct FnSource<F: Fn() -> Vec<String> + Send + Sync> {
    source: F,
}

impl<F: Fn() -> Vec<String> + Send + Sync> FnSource<F> {
    /// The closure asked for values.
    pub closed spec fn closure(&self) -> F {
        self.source
    }

    /// The closure can be called whenever it is asked.
    #[verifier::type_invariant]
    spec fn callable(&self) -> bool {
        call_requires(self.source, ())
    }
}

impl<F: Fn() -> Vec<String> + Send + Sync> SuggestSource for FnSource<F> {
    /// Whatever the closure may return.
    open spec fn gives(&self, vals: Seq<Seq<char>>) -> bool {
        exists|v: Vec<String>| call_ensures(self.closure(), (), v) && string_views(v@) == vals
    }

    /// What the closure returns when called.
    fn values(&self) -> (r: Vec<String>)
        ensures
            call_ensures(self.closure(), (), r),
    {
        proof {
            use_type_invariant(self);
        }
        (self.source)()
    }
}

enum Suggest {
    Nothing,
    Static(Vec<String>),
    Dynamic(Box<dyn SuggestSource>),
}

#[derive(Clone, Copy, PartialEq, Eq, Structural)]
enum NodeKind {
    Literal,
    Argument,
}

/// One node of a [`CommandTree`]: either a fixed word or an argument slot.
pub struct Node {
    kind: NodeKind,
    name: String,
    detail: Option<String>,
    suggest: Suggest,
    children: Vec<Node>,
    runs: bool,
}

pub open spec fn string_views(v: Seq<String>) -> Seq<Seq<char>> {
    v.map_values(|s: String| s@)
}

/// The values a node's argument offers can be `vals`: exactly its static
/// values, none when it has no source, a list its value source may give.
pub closed spec fn values_fit(n: Node, vals: Seq<Seq<char>>) -> bool {
    match n.suggest {
        Suggest::Nothing => vals.len() == 0,
        Suggest::Static(v) => vals == string_views(v@),
        Suggest::Dynamic(source) => source.gives(vals),
    }
}

/// Whether a node's argument asks a value source at completion time; its
/// values are then exactly the lists that source gives (see [`values_fit`]).
pub closed spec fn asks_source(n: Node) -> bool {
    n.suggest is Dynamic
}

/// Whether a node is a fixed word.
pub closed spec fn is_literal(n: Node) -> bool {
    n.kind == NodeKind::Literal
}

/// A node's word (literal) or placeholder (argument).
pub closed spec fn node_name(n: Node) -> Seq<char> {
    n.name@
}

/// A node's help text.
pub closed spec fn node_detail(n: Node) -> Option<Seq<char>> {
    opt_view(n.detail)
}

/// A node's follow-up nodes.
pub closed spec fn node_children(n: Node) -> Seq<Node> {
    n.children@
}

/// Whether the command can run once the line has reached this node.
pub closed spec fn node_executes(n: Node) -> bool {
    n.runs
}

/// Candidates a node offers at `depth`, given the values its argument offers.
pub open spec fn node_cands(n: Node, depth: nat, vals: Seq<Seq<char>>) -> Seq<CView> {
    if is_literal(n) {
        seq![
            (
                node_name(n),
                node_detail(n),
                if depth == 0 {
                    CompletionKind::Command
                } else {
                    CompletionKind::Literal
                },
            ),
        ]
    } else if vals.len() == 0 {
        seq![(node_name(n), node_detail(n), CompletionKind::Placeholder)]
    } else {
        vals.map_values(|v: Seq<char>| (v, node_detail(n), CompletionKind::Argument))
    }
}

/// A candidate survives the word filter: placeholders always, values that
/// start with the word.
pub open spec fn keeps(c: CView, word: Seq<char>) -> bool {
    c.2 == CompletionKind::Placeholder || has_prefix(c.0, word)
}

pub open spec fn filter_keeps(cs: Seq<CView>, word: Seq<char>) -> Seq<CView>
    decreases cs.len(),
{
    if cs.len() == 0 {
        Seq::empty()
    } else {
        let rest = filter_keeps(cs.drop_last(), word);
        if keeps(cs.last(), word) {
            rest.push(cs.last())
        } else {
            rest
        }
    }
}

/// The filtered candidates of every node of `level`, in order.
pub open spec fn level_items(
    level: Seq<Node>,
    depth: nat,
    word: Seq<char>,
    vals: Seq<Seq<Seq<char>>>,
) -> Seq<CView>
    decreases level.len(),
{
    if level.len() == 0 {
        Seq::empty()
    } else {
        level_items(level.drop_last(), depth, word, vals.drop_last()) + filter_keeps(
            node_cands(level.last(), depth, vals.last()),
            word,
        )
    }
}

/// The whitespace-separated tokens of `s`, as `str::split_whitespace` yields them.
pub open spec fn split_ws(s: Seq<char>) -> Seq<Seq<char>>
    decreases s.len(),
{
    let l = lead_ws(s);
    if l >= s.len() {
        Seq::empty()
    } else {
        let rest = s.skip(l as int);
        let n = first_ws(rest);
        proof {
            lemma_lead_ws(s);
            lemma_first_ws(rest);
            assert(n >= 1);
        }
        seq![rest.take(n as int)] + split_ws(rest.skip(n as int))
    }
}

/// The node a settled token selects among `level`: the first literal with that
/// exact word, otherwise the first argument slot.
pub open spec fn pick(level: Seq<Node>, token: Seq<char>) -> Option<int> {
    if exists|i: int| 0 <= i < level.len() && is_literal(level[i]) && node_name(level[i]) == token {
        Some(
            choose|i: int|
                0 <= i < level.len() && is_literal(level[i]) && node_name(level[i]) == token && (
                forall|j: int|
                    0 <= j < i ==> !(is_literal(level[j]) && node_name(level[j]) == token)),
        )
    } else if exists|i: int| 0 <= i < level.len() && !is_literal(level[i]) {
        Some(
            choose|i: int|
                0 <= i < level.len() && !is_literal(level[i]) && (forall|j: int|
                    0 <= j < i ==> is_literal(level[j])),
        )
    } else {
        None
    }
}

/// A settled word selects the first literal of the level spelled exactly
/// like it, whatever argument slots the level also holds.
pub proof fn law_pick_prefers_a_matching_literal(level: Seq<Node>, token: Seq<char>, k: int)
    requires
        0 <= k < level.len(),
        is_literal(level[k]),
        node_name(level[k]) == token,
        forall|j: int| 0 <= j < k ==> !(is_literal(level[j]) && node_name(level[j]) == token),
    ensures
        pick(level, token) == Some(k),
        forall|rest: Seq<Seq<char>>|
            walk(level, seq![token] + rest) == walk(node_children(level[k]), rest),
{
    let c = choose|i: int|
        0 <= i < level.len() && is_literal(level[i]) && node_name(level[i]) == token && (forall|
            j: int,
        |
            0 <= j < i ==> !(is_literal(level[j]) && node_name(level[j]) == token));
    assert(0 <= c < level.len() && is_literal(level[c]) && node_name(level[c]) == token && (forall|
        j: int,
    |
        0 <= j < c ==> !(is_literal(level[j]) && node_name(level[j]) == token)));
    if c < k {
        assert(!(is_literal(level[c]) && node_name(level[c]) == token));
    } else if c > k {
        assert(!(is_literal(level[k]) && node_name(level[k]) == token));
    }
    assert forall|rest: Seq<Seq<char>>|
        walk(level, seq![token] + rest) == walk(node_children(level[k]), rest) by {
        let ts = seq![token] + rest;
        assert(ts[0] == token);
        assert(ts.drop_first() =~= rest);
    }
}

/// With no literal spelled like the settled word, the word fills the level's
/// first argument slot; with no slot either, the walk stops.
pub proof fn law_pick_falls_back_to_an_argument(level: Seq<Node>, token: Seq<char>)
    requires
        forall|i: int| 0 <= i < level.len() ==> !(is_literal(level[i]) && node_name(level[i]) == token),
    ensures
        forall|k: int|
            0 <= k < level.len() && !is_literal(level[k]) && (forall|j: int|
                0 <= j < k ==> is_literal(level[j])) ==> pick(level, token) == Some(k),
        (forall|i: int| 0 <= i < level.len() ==> is_literal(level[i])) ==> pick(level, token)
            is None,
{
    assert forall|k: int|
        0 <= k < level.len() && !is_literal(level[k]) && (forall|j: int|
            0 <= j < k ==> is_literal(level[j])) implies pick(level, token) == Some(k) by {
        let c = choose|i: int|
            0 <= i < level.len() && !is_literal(level[i]) && (forall|j: int|
                0 <= j < i ==> is_literal(level[j]));
        assert(0 <= c < level.len() && !is_literal(level[c]) && (forall|j: int|
            0 <= j < c ==> is_literal(level[j])));
        if c < k {
            assert(is_literal(level[c]));
        } else if c > k {
            assert(is_literal(level[k]));
        }
    }
}

/// The nodes the next word is completed against after walking `tokens`.
pub open spec fn walk(level: Seq<Node>, tokens: Seq<Seq<char>>) -> Option<Seq<Node>>
    decreases tokens.len(),
{
    if tokens.len() == 0 {
        Some(level)
    } else {
        match pick(level, tokens[0]) {
            None => None,
            Some(k) => walk(node_children(level[k]), tokens.drop_first()),
        }
    }
}

/// Characters of the line the tree walks over: the prefix, less a leading `/`.
pub open spec fn slash_skip(p: Seq<char>) -> nat {
    if p.len() > 0 && p[0] == '/' {
        1
    } else {
        0
    }
}

/// Character index of the word being completed: after the last whitespace,
/// but never inside the leading `/`.
pub open spec fn tree_word_index(p: Seq<char>) -> nat {
    let w = after_last_ws(p);
    if w < slash_skip(p) {
        slash_skip(p)
    } else {
        w
    }
}

/// The settled tokens before the word being completed.
pub open spec fn settled_tokens(p: Seq<char>) -> Seq<Seq<char>> {
    split_ws(p.subrange(slash_skip(p) as int, tree_word_index(p) as int))
}

/// `items` are the filtered candidates of `level` at `depth` for `word`, for
/// some choice of the values each node's argument offered (see [`values_fit`]).
pub open spec fn level_answer(level: Seq<Node>, depth: nat, word: Seq<char>, items: Seq<CView>) -> bool {
    exists|vals: Seq<Seq<Seq<char>>>|
        {
            &&& vals.len() == level.len()
            &&& forall|i: int| 0 <= i < level.len() ==> values_fit(level[i], #[trigger] vals[i])
            &&& items == level_items(level, depth, word, vals)
        }
}

/// What `CommandTree::complete` answers for the prefix `p` (the line up to the
/// caret): the replacement start and the candidates.
pub open spec fn tree_answer(roots: Seq<Node>, p: Seq<char>, start: nat, items: Seq<CView>) -> bool {
    &&& start == blen(p.take(tree_word_index(p) as int))
    &&& match walk(roots, settled_tokens(p)) {
        None => items.len() == 0,
        Some(level) => level_answer(
            level,
            settled_tokens(p).len(),
            p.skip(tree_word_index(p) as int),
            items,
        ),
    }
}

impl Node {
    /// A fixed word, e.g. `gamemode` or `add`.
    pub fn literal(name: &str) -> (r: Node)
        ensures
            is_literal(r),
            node_name(r) == name@,
            node_detail(r) is None,
            node_children(r).len() == 0,
            !node_executes(r),
            !asks_source(r),
            values_fit(r, Seq::empty()),
    {
        Node {
            kind: NodeKind::Literal,
            name: copy_str(name),
            detail: None,
            suggest: Suggest::Nothing,
            children: Vec::new(),
            runs: false,
        }
    }

    /// An argument slot; `placeholder` is shown when no values are known.
    pub fn argument(placeholder: &str) -> (r: Node)
        ensures
            !is_literal(r),
            node_name(r) == placeholder@,
            node_detail(r) is None,
            node_children(r).len() == 0,
            !node_executes(r),
            !asks_source(r),
            forall|v: Seq<Seq<char>>| values_fit(r, v) <==> v.len() == 0,
    {
        Node {
            kind: NodeKind::Argument,
            name: copy_str(placeholder),
            detail: None,
            suggest: Suggest::Nothing,
            children: Vec::new(),
            runs: false,
        }
    }

    /// Help text shown next to the candidate.
    pub fn detail(self, detail: &str) -> (r: Node)
        ensures
            is_literal(r) == is_literal(self),
            node_name(r) == node_name(self),
            node_detail(r) == Some(detail@),
            node_children(r) == node_children(self),
            node_executes(r) == node_executes(self),
            asks_source(r) == asks_source(self),
            forall|v: Seq<Seq<char>>| values_fit(r, v) <==> values_fit(self, v),
    {
        let mut r = self;
        r.detail = Some(copy_str(detail));
        r
    }

    /// Fixed set of values for an argument node.
    pub fn suggest(self, values: &[&str]) -> (r: Node)
        ensures
            is_literal(r) == is_literal(self),
            node_name(r) == node_name(self),
            node_detail(r) == node_detail(self),
            node_children(r) == node_children(self),
            node_executes(r) == node_executes(self),
            !asks_source(r),
            forall|v: Seq<Seq<char>>|
                values_fit(r, v) <==> v == values@.map_values(|s: &str| s@),
    {
        let mut owned: Vec<String> = Vec::new();
        let mut i: usize = 0;
        while i < values.len()
            invariant
                i <= values@.len(),
                owned@.len() == i,
                forall|j: int| 0 <= j < i ==> (#[trigger] owned@[j])@ == values@[j]@,
            decreases values@.len() - i,
        {
            owned.push(copy_str(values[i]));
            i += 1;
        }
        proof {
            assert(string_views(owned@) =~= values@.map_values(|s: &str| s@));
        }
        let mut r = self;
        r.suggest = Suggest::Static(owned);
        r
    }

    /// Values computed at completion time: the node now asks a value source
    /// ([`asks_source`]), which is asked once per completion that reaches the
    /// node, and offers exactly what that source gives (see [`values_fit`]).
    /// That this source is `source` is left unsaid: it is kept as a
    /// `Box<dyn SuggestSource>`, and Verus relates such a box, once stored in
    /// the node, to nothing that was known of it before.
    pub fn suggest_with<F: Fn() -> Vec<String> + Send + Sync + 'static>(self, source: F) -> (r: Node)
        requires
            call_requires(source, ()),
        ensures
            is_literal(r) == is_literal(self),
            node_name(r) == node_name(self),
            node_detail(r) == node_detail(self),
            node_children(r) == node_children(self),
            node_executes(r) == node_executes(self),
            asks_source(r),
    {
        let mut r = self;
        let boxed: Box<dyn SuggestSource> = Box::new(FnSource { source });
        r.suggest = Suggest::Dynamic(boxed);
        r
    }

    /// Mark the node as one at which the command can run.
    pub fn execute(self) -> (r: Node)
        ensures
            is_literal(r) == is_literal(self),
            node_name(r) == node_name(self),
            node_detail(r) == node_detail(self),
            node_children(r) == node_children(self),
            node_executes(r),
            asks_source(r) == asks_source(self),
            forall|v: Seq<Seq<char>>| values_fit(r, v) <==> values_fit(self, v),
    {
        let mut r = self;
        r.runs = true;
        r
    }

    /// Attach a follow-up node.
    pub fn and_then(self, child: Node) -> (r: Node)
        ensures
            is_literal(r) == is_literal(self),
            node_name(r) == node_name(self),
            node_detail(r) == node_detail(self),
            node_children(r) == node_children(self).push(child),
            node_executes(r) == node_executes(self),
            asks_source(r) == asks_source(self),
            forall|v: Seq<Seq<char>>| values_fit(r, v) <==> values_fit(self, v),
    {
        let mut r = self;
        r.children.push(child);
        r
    }

    /// Whether a settled token selects this node.
    fn matches(&self, token: &Vec<char>) -> (r: bool)
        ensures
            r == (!is_literal(*self) || node_name(*self) == token@),
    {
        match self.kind {
            NodeKind::Literal => {
                let name = chars_of(self.name.as_str());
                chars_eq(&name, token)
            },
            NodeKind::Argument => true,
        }
    }

    /// The values this node's argument offers right now.
    fn values(&self) -> (r: Vec<String>)
        ensures
            values_fit(*self, string_views(r@)),
    {
        match &self.suggest {
            Suggest::Nothing => Vec::new(),
            Suggest::Static(values) => {
                let mut out: Vec<String> = Vec::new();
                let mut i: usize = 0;
                while i < values.len()
                    invariant
                        i <= values@.len(),
                        out@.len() == i,
                        forall|j: int| 0 <= j < i ==> (#[trigger] out@[j])@ == values@[j]@,
                    decreases values@.len() - i,
                {
                    out.push(copy_str(values[i].as_str()));
                    i += 1;
                }
                proof {
                    assert(string_views(out@) =~= string_views(values@));
                }
                out
            },
            Suggest::Dynamic(source) => source.values(),
        }
    }

    /// Candidates this node offers at `depth`, filtered by `word`, asking its
    /// value source (if any) once.
    fn candidates(&self, depth: usize, word: &Vec<char>) -> (r: Vec<Completion>)
        ensures
            exists|vals: Seq<Seq<char>>|
                values_fit(*self, vals) && cviews(r@) == filter_keeps(
                    node_cands(*self, depth as nat, vals),
                    word@,
                ),
    {
        let values = self.values();
        self.candidates_from(depth, word, &values)
    }

    /// Candidates this node offers at `depth`, filtered by `word`, when its
    /// argument offers `values`: a literal offers its word; an argument offers
    /// each value, or its placeholder when there are none.
    pub fn candidates_from(&self, depth: usize, word: &Vec<char>, values: &Vec<String>) -> (r: Vec<
        Completion,
    >)
        ensures
            cviews(r@) == filter_keeps(
                node_cands(*self, depth as nat, string_views(values@)),
                word@,
            ),
    {
        let ghost vals = string_views(values@);
        let mut out: Vec<Completion> = Vec::new();
        match self.kind {
            NodeKind::Literal => {
                let kind = if depth == 0 {
                    CompletionKind::Command
                } else {
                    CompletionKind::Literal
                };
                let c = Completion {
                    value: copy_str(self.name.as_str()),
                    detail: clone_opt(&self.detail),
                    kind,
                };
                let ghost cs = node_cands(*self, depth as nat, vals);
                proof {
                    assert(cs.len() == 1);
                    assert(cs.drop_last() =~= Seq::<CView>::empty());
                    assert(filter_keeps(cs.drop_last(), word@) =~= Seq::<CView>::empty());
                    assert(cs.last() == cview(c));
                }
                let v = chars_of(c.value.as_str());
                let keep = starts_with(&v, word);
                if keep {
                    out.push(c);
                }
                proof {
                    assert(keeps(cs.last(), word@) == keep);
                    assert(cviews(out@) =~= filter_keeps(cs, word@));
                }
            },
            NodeKind::Argument => {
                if values.len() == 0 {
                    let c = Completion {
                        value: copy_str(self.name.as_str()),
                        detail: clone_opt(&self.detail),
                        kind: CompletionKind::Placeholder,
                    };
                    let ghost cv = cview(c);
                    out.push(c);
                    proof {
                        let cs = node_cands(*self, depth as nat, vals);
                        assert(cs.len() == 1);
                        assert(cs.drop_last() =~= Seq::<CView>::empty());
                        assert(filter_keeps(cs.drop_last(), word@) =~= Seq::<CView>::empty());
                        assert(cs.last() == cv);
                        assert(keeps(cv, word@));
                        assert(cviews(out@) =~= filter_keeps(cs, word@));
                    }
                } else {
                    let mut i: usize = 0;
                    while i < values.len()
                        invariant
                            i <= values@.len(),
                            vals == string_views(values@),
                            vals.len() > 0,
                            !is_literal(*self),
                            cviews(out@) == filter_keeps(
                                node_cands(*self, depth as nat, vals).take(i as int),
                                word@,
                            ),
                        decreases values@.len() - i,
                    {
                        let v = chars_of(values[i].as_str());
                        let ghost cs = node_cands(*self, depth as nat, vals);
                        proof {
                            assert(cs.take(i + 1).drop_last() =~= cs.take(i as int));
                            assert(cs.take(i + 1).last() == cs[i as int]);
                        }
                        if starts_with(&v, word) {
                            out.push(
                                Completion {
                                    value: copy_str(values[i].as_str()),
                                    detail: clone_opt(&self.detail),
                                    kind: CompletionKind::Argument,
                                },
                            );
                        }
                        i += 1;
                        proof {
                            assert(cviews(out@) =~= filter_keeps(cs.take(i as int), word@));
                        }
                    }
                    proof {
                        let cs = node_cands(*self, depth as nat, vals);
                        assert(cs.take(values@.len() as int) =~= cs);
                    }
                }
            },
        }
        out
    }
}

proof fn lemma_after_last_ws_slash(p: Seq<char>)
    ensures
        after_last_ws(seq!['/'] + p) == if after_last_ws(p) > 0 {
            1 + after_last_ws(p)
        } else {
            0
        },
    decreases p.len(),
{
    let q = seq!['/'] + p;
    assert(('/' as u32) == 47);
    assert(!crate::text::is_ws('/'));
    if p.len() == 0 {
        assert(q.drop_last() =~= Seq::<char>::empty());
        assert(q.last() == '/');
        assert(after_last_ws(Seq::<char>::empty()) == 0);
    } else {
        assert(q.last() == p.last());
        assert(q.drop_last() =~= seq!['/'] + p.drop_last());
        lemma_after_last_ws_slash(p.drop_last());
    }
}

proof fn lemma_chars_within_append(s: Seq<char>, t: Seq<char>, b: int)
    requires
        0 <= b <= blen(s),
    ensures
        chars_within(s + t, b) == chars_within(s, b),
        (s + t).take(chars_within(s, b) as int) == s.take(chars_within(s, b) as int),
    decreases s.len(),
{
    crate::text::lemma_chars_within(s, b);
    if s.len() == 0 {
        assert(s + t =~= t);
        if t.len() > 0 {
            assert(char_len(t[0]) >= 1);
        }
        assert(t.take(0) =~= s.take(0));
    } else {
        let u = s + t;
        assert(u[0] == s[0]);
        assert(u.drop_first() =~= s.drop_first() + t);
        if char_len(s[0]) <= b {
            lemma_chars_within_append(s.drop_first(), t, b - char_len(s[0]));
        }
        let n = chars_within(s, b) as int;
        assert(u.take(n) =~= s.take(n));
    }
}

proof fn lemma_filter_keeps(cs: Seq<CView>, word: Seq<char>)
    ensures
        forall|i: int|
            0 <= i < filter_keeps(cs, word).len() ==> keeps(#[trigger] filter_keeps(cs, word)[i], word),
    decreases cs.len(),
{
    if cs.len() > 0 {
        lemma_filter_keeps(cs.drop_last(), word);
        let rest = filter_keeps(cs.drop_last(), word);
        assert forall|i: int| 0 <= i < filter_keeps(cs, word).len() implies keeps(
            #[trigger] filter_keeps(cs, word)[i],
            word,
        ) by {
            if i < rest.len() {
                assert(filter_keeps(cs, word)[i] == rest[i]);
            }
        }
    }
}

proof fn lemma_level_items_keep(
    level: Seq<Node>,
    depth: nat,
    word: Seq<char>,
    vals: Seq<Seq<Seq<char>>>,
)
    ensures
        forall|i: int|
            0 <= i < level_items(level, depth, word, vals).len() ==> keeps(
                #[trigger] level_items(level, depth, word, vals)[i],
                word,
            ),
    decreases level.len(),
{
    if level.len() > 0 {
        let a = level_items(level.drop_last(), depth, word, vals.drop_last());
        let b = filter_keeps(node_cands(level.last(), depth, vals.last()), word);
        lemma_level_items_keep(level.drop_last(), depth, word, vals.drop_last());
        lemma_filter_keeps(node_cands(level.last(), depth, vals.last()), word);
        assert forall|i: int| 0 <= i < (a + b).len() implies keeps(#[trigger] (a + b)[i], word) by {
            if i < a.len() {
                assert((a + b)[i] == a[i]);
            } else {
                assert((a + b)[i] == b[i - a.len()]);
            }
        }
    }
}

/// Every candidate the tree answers is a placeholder or starts with the word
/// under the caret (the prefix from the replacement start on).
pub proof fn law_candidates_start_with_the_word(
    roots: Seq<Node>,
    p: Seq<char>,
    start: nat,
    items: Seq<CView>,
)
    requires
        tree_answer(roots, p, start, items),
    ensures
        forall|i: int|
            0 <= i < items.len() ==> (#[trigger] items[i]).2 == CompletionKind::Placeholder
                || has_prefix(items[i].0, p.skip(tree_word_index(p) as int)),
{
    let word = p.skip(tree_word_index(p) as int);
    match walk(roots, settled_tokens(p)) {
        None => {},
        Some(level) => {
            let vals = choose|vals: Seq<Seq<Seq<char>>>|
                {
                    &&& vals.len() == level.len()
                    &&& forall|i: int| 0 <= i < level.len() ==> values_fit(level[i], #[trigger] vals[i])
                    &&& items == level_items(level, settled_tokens(p).len(), word, vals)
                };
            lemma_level_items_keep(level, settled_tokens(p).len(), word, vals);
        },
    }
}

/// Completion never looks past the caret: whatever follows it in the line,
/// the request reads the same prefix and the tree answers the same.
pub proof fn law_completion_ignores_text_after_the_caret(
    roots: Seq<Node>,
    line: Seq<char>,
    rest: Seq<char>,
    cursor: int,
    start: nat,
    items: Seq<CView>,
)
    requires
        0 <= cursor <= blen(line),
    ensures
        req_prefix(line + rest, cursor) == req_prefix(line, cursor),
        tree_answer(roots, req_prefix(line + rest, cursor), start, items) == tree_answer(
            roots,
            req_prefix(line, cursor),
            start,
            items,
        ),
{
    crate::text::lemma_blen_concat(line, rest);
    assert(clamp_cursor(line + rest, cursor) == cursor);
    assert(clamp_cursor(line, cursor) == cursor);
    lemma_chars_within_append(line, rest, cursor);
}

/// A leading `/` is tolerated: completing `/` followed by a line that does
/// not itself start with `/` answers the same candidates as the bare line,
/// with the replacement start one byte further on.
pub proof fn law_leading_slash_is_tolerated(
    roots: Seq<Node>,
    p: Seq<char>,
    start: nat,
    items: Seq<CView>,
)
    requires
        p.len() == 0 || p[0] != '/',
    ensures
        tree_answer(roots, seq!['/'] + p, start + 1, items) == tree_answer(roots, p, start, items),
{
    let q = seq!['/'] + p;
    lemma_after_last_ws_slash(p);
    crate::text::lemma_after_last_ws(p);
    let w = after_last_ws(p) as int;
    assert(slash_skip(q) == 1);
    assert(slash_skip(p) == 0);
    assert(tree_word_index(q) == 1 + w);
    assert(tree_word_index(p) == w);
    assert(q.subrange(1, 1 + w) =~= p.subrange(0, w));
    assert(settled_tokens(q) == settled_tokens(p));
    assert(q.skip(1 + w) =~= p.skip(w));
    assert(q.take(1 + w) =~= seq!['/'] + p.take(w));
    crate::text::lemma_blen_concat(seq!['/'], p.take(w));
    crate::text::lemma_blen_single('/');
    assert(blen(q.take(tree_word_index(q) as int)) == 1 + blen(p.take(tree_word_index(p) as int)));
}

/// A static command tree — enough to drive completion for a demo, a plugin's
/// own sub-commands, or a server whose dispatcher cannot be queried directly.
pub struct CommandTree {
    roots: Vec<Node>,
}

impl CommandTree {
    /// The root commands, in registration order.
    pub closed spec fn roots(&self) -> Seq<Node> {
        self.roots@
    }

    pub fn new() -> (r: CommandTree)
        ensures
            r.roots().len() == 0,
    {
        CommandTree { roots: Vec::new() }
    }

    /// Register a root command.
    pub fn with(self, node: Node) -> (r: CommandTree)
        ensures
            r.roots() == self.roots().push(node),
    {
        let mut r = self;
        r.roots.push(node);
        r
    }

    /// Complete the word under the caret: walk the settled tokens down the
    /// tree, then offer the candidates of the level reached that start with
    /// the word (placeholders always).
    pub fn complete_request(&self, request: CompletionRequest) -> (r: Completions)
        requires
            request_ok(request.line@, request.cursor as int),
        ensures
            tree_answer(
                self.roots(),
                req_prefix(request.line@, request.cursor as int),
                r.start as nat,
                cviews(r.items@),
            ),
    {
        let p = prefix_chars(request.line, request.cursor);
        let (start, word, tokens) = locate_word(&p);
        match walk_tokens(&self.roots, &tokens) {
            None => {
                proof {
                    assert(cviews(Seq::<Completion>::empty()) =~= Seq::<CView>::empty());
                }
                Completions::new(start, Vec::new())
            },
            Some(level) => {
                let items = level_candidates(level, tokens.len(), &word);
                Completions::new(start, items)
            },
        }
    }
}

/// Splits the prefix `p` into the replacement start (bytes), the word being
/// completed and the settled tokens before it.
fn locate_word(p: &Vec<char>) -> (r: (usize, Vec<char>, Vec<Vec<char>>))
    requires
        blen(p@) <= usize::MAX,
    ensures
        r.0 == blen(p@.take(tree_word_index(p@) as int)),
        r.1@ == p@.skip(tree_word_index(p@) as int),
        token_views(r.2@) == settled_tokens(p@),
{
    let skip: usize = if p.len() > 0 && p[0] == '/' {
        1
    } else {
        0
    };
    let w0 = last_ws_end(p, p.len());
    proof {
        assert(p@.take(p.len() as int) =~= p@);
        lemma_after_last_ws(p@);
    }
    let ws = if w0 < skip {
        skip
    } else {
        w0
    };
    let start = byte_offset(p, ws);
    let word = slice(p, ws, p.len());
    let settled = slice(p, skip, ws);
    let tokens = split_whitespace(&settled);
    proof {
        assert(skip == slash_skip(p@));
        assert(ws == tree_word_index(p@));
        assert(word@ =~= p@.skip(ws as int));
    }
    (start, word, tokens)
}

/// Walks the settled tokens down from `roots`.
fn walk_tokens<'a>(roots: &'a Vec<Node>, tokens: &Vec<Vec<char>>) -> (r: Option<&'a Vec<Node>>)
    ensures
        match r {
            Some(level) => walk(roots@, token_views(tokens@)) == Some(level@),
            None => walk(roots@, token_views(tokens@)) is None,
        },
{
    let ghost toks = token_views(tokens@);
    let mut level: &Vec<Node> = roots;
    let mut t: usize = 0;
    proof {
        assert(toks.skip(0) =~= toks);
    }
    while t < tokens.len()
        invariant
            t <= tokens@.len(),
            toks == token_views(tokens@),
            toks.len() == tokens@.len(),
            walk(roots@, toks) == walk(level@, toks.skip(t as int)),
        decreases tokens@.len() - t,
    {
        let found = pick_node(level, &tokens[t]);
        proof {
            assert(toks.skip(t as int)[0] == toks[t as int]);
            assert(toks.skip(t as int).drop_first() =~= toks.skip(t + 1));
        }
        match found {
            None => {
                return None;
            },
            Some(k) => {
                level = &level[k].children;
            },
        }
        t += 1;
    }
    proof {
        assert(toks.skip(toks.len() as int) =~= Seq::<Seq<char>>::empty());
    }
    Some(level)
}

/// The filtered candidates of every node of `level`.
fn level_candidates(level: &Vec<Node>, depth: usize, word: &Vec<char>) -> (r: Vec<Completion>)
    ensures
        level_answer(level@, depth as nat, word@, cviews(r@)),
{
    let mut items: Vec<Completion> = Vec::new();
    let ghost mut vals: Seq<Seq<Seq<char>>> = Seq::empty();
    let mut i: usize = 0;
    while i < level.len()
        invariant
            i <= level@.len(),
            vals.len() == i,
            forall|j: int| 0 <= j < i ==> values_fit(level@[j], #[trigger] vals[j]),
            cviews(items@) == level_items(level@.take(i as int), depth as nat, word@, vals),
        decreases level@.len() - i,
    {
        let mut cands = level[i].candidates(depth, word);
        let ghost chosen = choose|v: Seq<Seq<char>>|
            values_fit(level@[i as int], v) && cviews(cands@) == filter_keeps(
                node_cands(level@[i as int], depth as nat, v),
                word@,
            );
        let ghost before = items@;
        let ghost added = cands@;
        items.append(&mut cands);
        proof {
            let lv = level@.take(i + 1);
            assert(lv.drop_last() =~= level@.take(i as int));
            assert(lv.last() == level@[i as int]);
            let nv = vals.push(chosen);
            assert(nv.drop_last() =~= vals);
            assert(cviews(items@) =~= cviews(before) + cviews(added));
            vals = nv;
        }
        i += 1;
    }
    proof {
        assert(level@.take(level@.len() as int) =~= level@);
    }
    items
}

impl Completer for CommandTree {
    /// The tree's answer for the line up to the caret.
    open spec fn answers(&self, line: Seq<char>, cursor: nat, c: (nat, Seq<CView>)) -> bool {
        tree_answer(self.roots(), req_prefix(line, cursor as int), c.0, c.1)
    }

    fn complete(&self, request: CompletionRequest) -> (r: Completions)
        ensures
            tree_answer(
                self.roots(),
                req_prefix(request.line@, request.cursor as int),
                r.start as nat,
                cviews(r.items@),
            ),
    {
        self.complete_request(request)
    }
}

pub open spec fn token_views(v: Seq<Vec<char>>) -> Seq<Seq<char>> {
    v.map_values(|t: Vec<char>| t@)
}

/// The whitespace-separated tokens of `s`.
pub fn split_whitespace(s: &Vec<char>) -> (r: Vec<Vec<char>>)
    ensures
        token_views(r@) == split_ws(s@),
{
    let mut out: Vec<Vec<char>> = Vec::new();
    let mut i: usize = 0;
    assert(s@.skip(0) =~= s@);
    loop
        invariant
            i <= s.len(),
            split_ws(s@) == token_views(out@) + split_ws(s@.skip(i as int)),
        decreases s.len() - i,
    {
        let lead = count_lead_ws(s, i);
        proof {
            lemma_lead_ws(s@.skip(i as int));
        }
        if i + lead == s.len() {
            proof {
                assert(split_ws(s@.skip(i as int)) =~= Seq::<Seq<char>>::empty());
                assert(token_views(out@) + Seq::<Seq<char>>::empty() =~= token_views(out@));
            }
            return out;
        }
        let from = i + lead;
        let n = next_ws(s, from);
        proof {
            lemma_first_ws(s@.skip(from as int));
            assert(s@.skip(i as int).skip(lead as int) =~= s@.skip(from as int));
            assert(s@.skip(from as int)[0] == s@[from as int]);
        }
        let tok = slice(s, from, from + n);
        proof {
            let rest = s@.skip(from as int);
            assert(tok@ =~= rest.take(n as int));
            assert(rest.skip(n as int) =~= s@.skip(from + n));
            assert(token_views(out@.push(tok)) =~= token_views(out@).push(tok@));
            assert(token_views(out@).push(tok@) + split_ws(s@.skip(from + n)) =~= token_views(out@)
                + (seq![tok@] + split_ws(s@.skip(from + n))));
        }
        out.push(tok);
        i = from + n;
    }
}

/// Index of the node among `level` that `token` selects (see [`pick`]).
fn pick_node(level: &Vec<Node>, token: &Vec<char>) -> (r: Option<usize>)
    ensures
        match r {
            Some(k) => pick(level@, token@) == Some(k as int) && k < level@.len(),
            None => pick(level@, token@) is None,
        },
{
    let mut i: usize = 0;
    while i < level.len()
        invariant
            i <= level@.len(),
            forall|j: int| 0 <= j < i ==> !(is_literal(level@[j]) && node_name(level@[j]) == token@),
        decreases level@.len() - i,
    {
        let node = &level[i];
        if node.kind == NodeKind::Literal && node.matches(token) {
            proof {
                let k = i as int;
                let p = choose|x: int|
                    0 <= x < level@.len() && is_literal(level@[x]) && node_name(level@[x]) == token@
                        && (forall|j: int|
                        0 <= j < x ==> !(is_literal(level@[j]) && node_name(level@[j]) == token@));
                assert(0 <= k < level@.len() && is_literal(level@[k]) && node_name(level@[k])
                    == token@);
                if p < k {
                } else if p > k {
                }
            }
            return Some(i);
        }
        i += 1;
    }
    let mut i: usize = 0;
    while i < level.len()
        invariant
            i <= level@.len(),
            forall|j: int| 0 <= j < level@.len() ==> !(is_literal(level@[j]) && node_name(level@[j]) == token@),
            forall|j: int| 0 <= j < i ==> is_literal(level@[j]),
        decreases level@.len() - i,
    {
        let node = &level[i];
        if node.kind == NodeKind::Argument {
            proof {
                let k = i as int;
                let p = choose|x: int|
                    0 <= x < level@.len() && !is_literal(level@[x]) && (forall|j: int|
                        0 <= j < x ==> is_literal(level@[j]));
                assert(0 <= k < level@.len() && !is_literal(level@[k]));
                if p < k {
                } else if p > k {
                }
            }
            return Some(i);
        }
        i += 1;
    }
    None
}

} // verus!
