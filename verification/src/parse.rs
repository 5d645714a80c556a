//! Parser and resolver for the query language.
//!
//! The grammar is fixed: `Identifier Link Identifier Is What` resolves the
//! pair of identifiers against a [`Relation`] store; when the final token is
//! an identifier instead of the terminal marker, the statement is a
//! definition that inserts the pair into the store and then resolves to the
//! freshly defined entry.

use vstd::prelude::*;
use vstd::std_specs::convert::FromSpec;
use vstd::string::*;

use crate::lexer::char_utf8_width;
use crate::lexer::lex_from;
use crate::lexer::lexer;
use crate::lexer::views_of;
use crate::lexer::Error;
use crate::lexer::ErrorView;
use crate::lexer::Span;
use crate::lexer::Token;
use crate::lexer::TokenKind;
use crate::lexer::TokenKindView;
use crate::lexer::TokenView;

verus! {

/// One stored relation: `(first, second)` resolves to `result`.
#[derive(Debug)]
struct Entry {
    first: String,
    second: String,
    result: String,
}

/// The key under which an entry is stored.
spec fn entry_key(e: Entry) -> (Seq<char>, Seq<char>) {
    (e.first@, e.second@)
}

/// The mapping described by a list of entries; a later entry with the same
/// key overwrites an earlier one.
spec fn map_of(entries: Seq<Entry>) -> Map<(Seq<char>, Seq<char>), Seq<char>>
    decreases entries.len(),
{
    if entries.len() == 0 {
        Map::empty()
    } else {
        map_of(entries.drop_last()).insert(entry_key(entries.last()), entries.last().result@)
    }
}

/// Whether all entries in the list carry distinct keys.
spec fn distinct_keys(entries: Seq<Entry>) -> bool {
    forall|p: int, q: int|
        0 <= p < q < entries.len() ==> entry_key(#[trigger] entries[p]) != entry_key(
            #[trigger] entries[q],
        )
}

/// The mapping of a duplicate-free entry list: membership, size and values.
proof fn lemma_map_of(entries: Seq<Entry>)
    ensures
        map_of(entries).dom().finite(),
        forall|k: (Seq<char>, Seq<char>)|
            #[trigger] map_of(entries).contains_key(k) <==> exists|idx: int|
                0 <= idx < entries.len() && entry_key(#[trigger] entries[idx]) == k,
        distinct_keys(entries) ==> map_of(entries).dom().len() == entries.len(),
        distinct_keys(entries) ==> forall|idx: int|
            0 <= idx < entries.len() ==> map_of(entries)[entry_key(#[trigger] entries[idx])]
                == entries[idx].result@,
    decreases entries.len(),
{
    if entries.len() > 0 {
        let prefix = entries.drop_last();
        lemma_map_of(prefix);
        assert forall|k: (Seq<char>, Seq<char>)| #[trigger]
            map_of(entries).contains_key(k) implies exists|idx: int|
            0 <= idx < entries.len() && entry_key(#[trigger] entries[idx]) == k by {
            if k == entry_key(entries.last()) {
                assert(entry_key(entries[entries.len() - 1]) == k);
            } else {
                let idx = choose|idx: int|
                    0 <= idx < prefix.len() && entry_key(#[trigger] prefix[idx]) == k;
                assert(entry_key(entries[idx]) == k);
            }
        }
        assert forall|k: (Seq<char>, Seq<char>)|
            (exists|idx: int|
                0 <= idx < entries.len() && entry_key(#[trigger] entries[idx]) == k) implies
            #[trigger] map_of(entries).contains_key(k) by {
            let idx = choose|idx: int|
                0 <= idx < entries.len() && entry_key(#[trigger] entries[idx]) == k;
            if idx < entries.len() - 1 {
                assert(entry_key(prefix[idx]) == k);
            }
        }
        if distinct_keys(entries) {
            assert(distinct_keys(prefix));
            assert(!map_of(prefix).contains_key(entry_key(entries.last()))) by {
                if map_of(prefix).contains_key(entry_key(entries.last())) {
                    let idx = choose|idx: int|
                        0 <= idx < prefix.len() && entry_key(#[trigger] prefix[idx])
                            == entry_key(entries.last());
                    assert(entry_key(entries[idx]) == entry_key(entries[entries.len() - 1]));
                }
            }
            assert(map_of(entries).dom() =~= map_of(prefix).dom().insert(
                entry_key(entries.last()),
            ));
            assert forall|idx: int| 0 <= idx < entries.len() implies map_of(entries)[entry_key(
                #[trigger] entries[idx],
            )] == entries[idx].result@ by {
                if idx < entries.len() - 1 {
                    assert(entry_key(prefix[idx]) == entry_key(entries[idx]));
                    assert(entry_key(entries[idx]) != entry_key(entries[entries.len() - 1]));
                }
            }
        }
    }
}

/// Updating an entry in place with one that carries the same key acts on the
/// mapping as an overwrite of that key.
proof fn lemma_map_of_update(entries: Seq<Entry>, idx: int, e: Entry)
    requires
        0 <= idx < entries.len(),
        distinct_keys(entries),
        entry_key(entries[idx]) == entry_key(e),
    ensures
        map_of(entries.update(idx, e)) == map_of(entries).insert(entry_key(e), e.result@),
    decreases entries.len(),
{
    let updated = entries.update(idx, e);
    if idx == entries.len() - 1 {
        assert(updated.drop_last() =~= entries.drop_last());
        assert(updated.last() == e);
        assert(map_of(entries).insert(entry_key(e), e.result@) =~= map_of(
            entries.drop_last(),
        ).insert(entry_key(e), e.result@));
    } else {
        let last = entries.last();
        assert(updated.drop_last() =~= entries.drop_last().update(idx, e));
        assert(updated.last() == last);
        assert(distinct_keys(entries.drop_last()));
        assert(entry_key(entries.drop_last()[idx]) == entry_key(e));
        lemma_map_of_update(entries.drop_last(), idx, e);
        assert(entry_key(entries[idx]) != entry_key(entries[entries.len() - 1]));
        assert(map_of(entries.drop_last()).insert(entry_key(e), e.result@).insert(
            entry_key(last),
            last.result@,
        ) =~= map_of(entries.drop_last()).insert(entry_key(last), last.result@).insert(
            entry_key(e),
            e.result@,
        ));
    }
}

/// Appending an entry acts on the mapping as an insertion of its key.
proof fn lemma_map_of_push(entries: Seq<Entry>, e: Entry)
    ensures
        map_of(entries.push(e)) == map_of(entries).insert(entry_key(e), e.result@),
{
    assert(entries.push(e).drop_last() =~= entries);
    assert(entries.push(e).last() == e);
}

/// The exact-match store of relations: an ordered pair of role names maps to
/// the role name it resolves to.  Later insertions overwrite earlier ones;
/// the store never holds two entries with the same key.
#[derive(Debug)]
pub struct Relation {
    entries: Vec<Entry>,
}

impl View for Relation {
    type V = Map<(Seq<char>, Seq<char>), Seq<char>>;

    closed spec fn view(&self) -> Map<(Seq<char>, Seq<char>), Seq<char>> {
        map_of(self.entries@)
    }
}

/// The built-in seed mapping.
pub open spec fn seed_map() -> Map<(Seq<char>, Seq<char>), Seq<char>> {
    Map::empty().insert(("爸爸"@, "爸爸"@), "爷爷"@).insert(("爸爸"@, "妈妈"@), "奶奶"@).insert(
        ("爸爸"@, "老大"@),
        "大哥或自己"@,
    )
}

impl Relation {
    /// The store's internal invariant: no two entries share a key.
    pub closed spec fn wf(&self) -> bool {
        distinct_keys(self.entries@)
    }

    /// An empty store.
    pub fn new() -> (r: Relation)
        ensures
            r.wf(),
            r@ == Map::<(Seq<char>, Seq<char>), Seq<char>>::empty(),
    {
        Relation { entries: Vec::new() }
    }

    /// Inserts `(first, second) -> result`, overwriting any entry already
    /// stored under that key.
    pub fn insert(&mut self, first: String, second: String, result: String)
        requires
            old(self).wf(),
        ensures
            final(self).wf(),
            final(self)@ == old(self)@.insert((first@, second@), result@),
    {
        let ghost key = (first@, second@);
        let n = self.entries.len();
        let mut idx: usize = 0;
        while idx < n
            invariant
                self == old(self),
                old(self).wf(),
                n == self.entries@.len(),
                idx <= n,
                forall|p: int| 0 <= p < idx ==> entry_key(#[trigger] self.entries@[p]) != key,
                key == (first@, second@),
            decreases n - idx,
        {
            let same = self.entries[idx].first.eq(&first) && self.entries[idx].second.eq(&second);
            if same {
                let ghost old_entries = self.entries@;
                let e = Entry { first, second, result };
                proof {
                    assert(entry_key(old_entries[idx as int]) == entry_key(e));
                    lemma_map_of_update(old_entries, idx as int, e);
                    assert forall|p: int, q: int|
                        0 <= p < q < old_entries.update(idx as int, e).len() implies entry_key(
                        #[trigger] old_entries.update(idx as int, e)[p],
                    ) != entry_key(#[trigger] old_entries.update(idx as int, e)[q]) by {
                        assert(entry_key(old_entries.update(idx as int, e)[p]) == entry_key(
                            old_entries[p],
                        ));
                        assert(entry_key(old_entries.update(idx as int, e)[q]) == entry_key(
                            old_entries[q],
                        ));
                    }
                }
                self.entries.set(idx, e);
                return ;
            }
            idx = idx + 1;
        }
        let ghost old_entries = self.entries@;
        let e = Entry { first, second, result };
        proof {
            lemma_map_of_push(old_entries, e);
        }
        self.entries.push(e);
    }

    /// Looks up the exact pair `(first, second)`; returns the stored result
    /// role name, or `None` when the pair was never stored.
    pub fn get(&self, first: &String, second: &String) -> (r: Option<String>)
        requires
            self.wf(),
        ensures
            match r {
                Some(v) => self@.contains_key((first@, second@)) && v@ == self@[(first@, second@)],
                None => !self@.contains_key((first@, second@)),
            },
    {
        proof {
            lemma_map_of(self.entries@);
        }
        let ghost key = (first@, second@);
        let n = self.entries.len();
        let mut idx: usize = 0;
        while idx < n
            invariant
                self.wf(),
                n == self.entries@.len(),
                idx <= n,
                forall|p: int| 0 <= p < idx ==> entry_key(#[trigger] self.entries@[p]) != key,
                key == (first@, second@),
            decreases n - idx,
        {
            let same = self.entries[idx].first.eq(first) && self.entries[idx].second.eq(second);
            if same {
                proof {
                    lemma_map_of(self.entries@);
                    assert(entry_key(self.entries@[idx as int]) == key);
                }
                return Some(self.entries[idx].result.clone());
            }
            idx = idx + 1;
        }
        None
    }

    /// Merges every entry of `other` into this store, in `other`'s order:
    /// where both stores hold a key, `other`'s entry wins.
    pub fn merge(&mut self, other: &Relation)
        requires
            old(self).wf(),
            other.wf(),
        ensures
            final(self).wf(),
            final(self)@ == old(self)@.union_prefer_right(other@),
    {
        let ghost m0 = self@;
        let n = other.entries.len();
        let mut idx: usize = 0;
        proof {
            assert(m0.union_prefer_right(map_of(other.entries@.take(0))) =~= m0);
        }
        while idx < n
            invariant
                self.wf(),
                m0 == old(self)@,
                n == other.entries@.len(),
                idx <= n,
                other.wf(),
                self@ == m0.union_prefer_right(map_of(other.entries@.take(idx as int))),
            decreases n - idx,
        {
            let e = &other.entries[idx];
            let ghost before = self@;
            self.insert(e.first.clone(), e.second.clone(), e.result.clone());
            proof {
                let prefix = other.entries@.take(idx as int + 1);
                assert(prefix.drop_last() =~= other.entries@.take(idx as int));
                assert(prefix.last() == other.entries@[idx as int]);
                assert(before.insert(entry_key(other.entries@[idx as int]),
                    other.entries@[idx as int].result@) =~= m0.union_prefer_right(map_of(prefix)));
            }
            idx = idx + 1;
        }
        proof {
            assert(other.entries@.take(n as int) =~= other.entries@);
        }
    }

    /// Number of entries stored, which equals the number of distinct keys.
    pub fn len(&self) -> (n: usize)
        requires
            self.wf(),
        ensures
            n == self@.dom().len(),
    {
        proof {
            lemma_map_of(self.entries@);
        }
        self.entries.len()
    }
}

/// Total byte length of the first `k` tokens.
pub open spec fn tokens_len(ts: Seq<TokenView>, k: int) -> int
    decreases k when 0 <= k <= ts.len()
{
    if k <= 0 {
        0
    } else {
        tokens_len(ts, k - 1) + ts[k - 1].length
    }
}

/// Splitting off the head token splits the byte count.
proof fn lemma_tokens_len_cons(t: TokenView, rest: Seq<TokenView>, k: int)
    requires
        1 <= k <= rest.len() + 1,
    ensures
        tokens_len(seq![t] + rest, k) == t.length + tokens_len(rest, k - 1),
    decreases k,
{
    let ts = seq![t] + rest;
    if k == 1 {
        assert(tokens_len(ts, 0) == 0);
    } else {
        lemma_tokens_len_cons(t, rest, k - 1);
        assert(ts[k - 1] == rest[k - 2]);
    }
}

/// The byte count of a token prefix grows with the prefix.
proof fn lemma_tokens_len_mono(ts: Seq<TokenView>, k1: int, k2: int)
    requires
        0 <= k1 <= k2 <= ts.len(),
        forall|k: int| 0 <= k < ts.len() ==> (#[trigger] ts[k]).length >= 0,
    ensures
        tokens_len(ts, k1) <= tokens_len(ts, k2),
    decreases k2 - k1,
{
    if k1 < k2 {
        lemma_tokens_len_mono(ts, k1, k2 - 1);
    }
}

/// Structure of a successful scan: every character is three bytes wide,
/// tokens are adjacent (each starts where the previous one ended), spans are
/// non-empty, and together they cover the rest of the input exactly.
pub proof fn lemma_lex_adjacent(s: Seq<char>, i: int)
    requires
        0 <= i <= s.len(),
        lex_from(s, i) is Ok,
    ensures
        ({
            let ts = lex_from(s, i)->Ok_0;
            &&& forall|k: int| i <= k < s.len() ==> char_utf8_width(#[trigger] s[k]) == 3
            &&& forall|k: int| 0 <= k < ts.len() ==> (#[trigger] ts[k]).length > 0
            &&& forall|k: int| 0 <= k < ts.len() ==> (#[trigger] ts[k]).start == 3 * i
                + tokens_len(ts, k)
            &&& tokens_len(ts, ts.len() as int) == 3 * (s.len() - i)
        }),
    decreases s.len() - i,
{
    let ts = lex_from(s, i)->Ok_0;
    if i >= s.len() {
        assert(ts.len() == 0);
    } else {
        let c = s[i];
        if c == '的' || c == '是' {
            let t = ts[0];
            let next = i + 1;
            lemma_lex_adjacent(s, next);
            let rts = lex_from(s, next)->Ok_0;
            assert(ts =~= seq![ts[0]] + rts);
            lemma_lex_step(s, i, next, rts, ts);
        } else if c == '什' {
            let next = i + 2;
            lemma_lex_adjacent(s, next);
            let rts = lex_from(s, next)->Ok_0;
            assert(ts =~= seq![ts[0]] + rts);
            lemma_lex_step(s, i, next, rts, ts);
        } else {
            crate::lexer::lemma_ident_end(s, i);
            let next = crate::lexer::ident_end(s, i);
            assert forall|k: int| i <= k < next implies char_utf8_width(#[trigger] s[k])
                == 3 by {
                crate::lexer::lemma_alphabet_char_width(s[k]);
            }
            lemma_lex_adjacent(s, next);
            let rts = lex_from(s, next)->Ok_0;
            assert(ts =~= seq![ts[0]] + rts);
            lemma_lex_step(s, i, next, rts, ts);
        }
    }
}

/// Shared step of [`lemma_lex_adjacent`]: the head token covers the input up
/// to `next`, and the tail tokens have the stated structure from `next` on.
proof fn lemma_lex_step(s: Seq<char>, i: int, next: int, rts: Seq<TokenView>, ts: Seq<TokenView>)
    requires
        0 <= i < next <= s.len(),
        lex_from(s, next) is Ok,
        rts == lex_from(s, next)->Ok_0,
        ts.len() == rts.len() + 1,
        ts == seq![ts[0]] + rts,
        ts[0].start == 3 * i,
        ts[0].length == 3 * (next - i),
        forall|k: int| 0 <= k < rts.len() ==> (#[trigger] rts[k]).length > 0,
        forall|k: int| 0 <= k < rts.len() ==> (#[trigger] rts[k]).start == 3 * next
            + tokens_len(rts, k),
        tokens_len(rts, rts.len() as int) == 3 * (s.len() - next),
    ensures
        forall|k: int| 0 <= k < ts.len() ==> (#[trigger] ts[k]).length > 0,
        forall|k: int| 0 <= k < ts.len() ==> (#[trigger] ts[k]).start == 3 * i + tokens_len(
            ts,
            k,
        ),
        tokens_len(ts, ts.len() as int) == 3 * (s.len() - i),
{
    assert forall|k: int| 0 <= k < ts.len() implies (#[trigger] ts[k]).length > 0 by {
        if k > 0 {
            assert(ts[k] == rts[k - 1]);
        }
    }
    assert forall|k: int| 0 <= k < ts.len() implies (#[trigger] ts[k]).start == 3 * i
        + tokens_len(ts, k) by {
        if k == 0 {
            assert(tokens_len(ts, 0) == 0);
        } else {
            assert(ts[k] == rts[k - 1]);
            lemma_tokens_len_cons(ts[0], rts, k);
        }
    }
    lemma_tokens_len_cons(ts[0], rts, ts.len() as int);
}

/// What remains of a statement after the two role names: either the terminal
/// marker (a pure query) or a trailing identifier (a definition).
pub enum TailView {
    What,
    Define(Seq<char>),
}

/// A fully parsed statement: two role names and the statement's tail.
pub struct StatementView {
    pub first: Seq<char>,
    pub second: Seq<char>,
    pub tail: TailView,
}

/// The text of an identifier token kind, empty for any other kind.
pub open spec fn ident_text(k: TokenKindView) -> Seq<char> {
    match k {
        TokenKindView::Ident(s) => s,
        _ => Seq::empty(),
    }
}

/// Checks the fixed grammar `Identifier Link Identifier Is (What | Identifier)`
/// against the token list: exactly five tokens, no trailing input.  A missing
/// token is reported at the end of the consumed input with a one-byte span; a
/// wrong token is reported at its own span.
pub open spec fn parse_tokens(ts: Seq<TokenView>) -> Result<StatementView, ErrorView> {
    if ts.len() < 1 {
        Err(ErrorView { start: 0, length: 1, message: "找不到第一个称呼"@ })
    } else if !(ts[0].kind is Ident) {
        Err(ErrorView { start: ts[0].start, length: ts[0].length, message: "期望一个称呼"@ })
    } else if ts.len() < 2 {
        Err(ErrorView { start: tokens_len(ts, 1), length: 1, message: "找不到 `的`"@ })
    } else if !(ts[1].kind is Link) {
        Err(ErrorView { start: ts[1].start, length: ts[1].length, message: "期望 `的`"@ })
    } else if ts.len() < 3 {
        Err(ErrorView { start: tokens_len(ts, 2), length: 1, message: "找不到第二个称呼"@ })
    } else if !(ts[2].kind is Ident) {
        Err(ErrorView { start: ts[2].start, length: ts[2].length, message: "期望一个称呼"@ })
    } else if ts.len() < 4 {
        Err(ErrorView { start: tokens_len(ts, 3), length: 1, message: "找不到 `是`"@ })
    } else if !(ts[3].kind is Is) {
        Err(ErrorView { start: ts[3].start, length: ts[3].length, message: "期望 `是`"@ })
    } else if ts.len() < 5 {
        Err(ErrorView { start: tokens_len(ts, 4), length: 1, message: "找不到 `什么`"@ })
    } else if ts[4].kind is What {
        if ts.len() > 5 {
            Err(ErrorView { start: ts[5].start, length: ts[5].length, message: "语法错误"@ })
        } else {
            Ok(
                StatementView {
                    first: ident_text(ts[0].kind),
                    second: ident_text(ts[2].kind),
                    tail: TailView::What,
                },
            )
        }
    } else if ts[4].kind is Ident {
        if ts.len() > 5 {
            Err(ErrorView { start: ts[5].start, length: ts[5].length, message: "语法错误"@ })
        } else {
            Ok(
                StatementView {
                    first: ident_text(ts[0].kind),
                    second: ident_text(ts[2].kind),
                    tail: TailView::Define(ident_text(ts[4].kind)),
                },
            )
        }
    } else {
        Err(
            ErrorView {
                start: ts[4].start,
                length: ts[4].length,
                message: "语法错误，期望 `什么`"@,
            },
        )
    }
}

/// A resolved query: the two role names and the role they resolve to,
/// rendered as `{first}的{second}是{result}`.
#[derive(Debug, PartialEq, Eq)]
pub struct Appellation {
    first: String,
    second: String,
    result: String,
}

/// Mathematical model of an [`Appellation`].
pub struct AppellationView {
    pub first: Seq<char>,
    pub second: Seq<char>,
    pub result: Seq<char>,
}

impl View for Appellation {
    type V = AppellationView;

    closed spec fn view(&self) -> AppellationView {
        AppellationView { first: self.first@, second: self.second@, result: self.result@ }
    }
}

impl Appellation {
    /// The resolved role name.
    pub fn result(&self) -> (r: &String)
        ensures
            r@ == self@.result,
    {
        &self.result
    }

    /// Renders the appellation as `{first}的{second}是{result}`.
    pub fn to_text(&self) -> (r: String)
        ensures
            r@ == self@.first + "的"@ + self@.second + "是"@ + self@.result,
    {
        let mut text = self.first.clone();
        text.append("的");
        text.append(self.second.as_str());
        text.append("是");
        text.append(self.result.as_str());
        text
    }
}

/// Failure of a whole query: a positioned lexical or grammatical error, or a
/// well-formed query whose pair is simply not in the store.
#[derive(Debug)]
pub enum ParserError {
    Lexer { span: Span, message: String },
    NoResult,
}

/// Mathematical model of a [`ParserError`].
pub enum ParserErrorView {
    Lexer { start: int, length: int, message: Seq<char> },
    NoResult,
}

impl View for ParserError {
    type V = ParserErrorView;

    open spec fn view(&self) -> ParserErrorView {
        match self {
            ParserError::Lexer { span, message } => ParserErrorView::Lexer {
                start: span.start as int,
                length: span.length as int,
                message: message@,
            },
            ParserError::NoResult => ParserErrorView::NoResult,
        }
    }
}

impl From<Error> for ParserError {
    fn from(e: Error) -> (r: ParserError) {
        ParserError::Lexer { span: e.span, message: e.message }
    }
}

impl vstd::std_specs::convert::FromSpecImpl<Error> for ParserError {
    open spec fn obeys_from_spec() -> bool {
        true
    }

    open spec fn from_spec(e: Error) -> ParserError {
        ParserError::Lexer { span: e.span, message: e.message }
    }
}

/// The model of a lexical error wrapped as a parser error.
pub open spec fn lexer_error_view(e: ErrorView) -> ParserErrorView {
    ParserErrorView::Lexer { start: e.start, length: e.length, message: e.message }
}

/// Resolves a parsed statement against the mapping `m`: a pure query looks
/// its pair up and leaves `m` alone; a definition inserts its entry into `m`
/// and resolves to it.
pub open spec fn resolve_statement(
    st: StatementView,
    m: Map<(Seq<char>, Seq<char>), Seq<char>>,
) -> (Result<AppellationView, ParserErrorView>, Map<(Seq<char>, Seq<char>), Seq<char>>) {
    match st.tail {
        TailView::What => {
            if m.contains_key((st.first, st.second)) {
                (
                    Ok(
                        AppellationView {
                            first: st.first,
                            second: st.second,
                            result: m[(st.first, st.second)],
                        },
                    ),
                    m,
                )
            } else {
                (Err(ParserErrorView::NoResult), m)
            }
        },
        TailView::Define(r) => {
            (
                Ok(AppellationView { first: st.first, second: st.second, result: r }),
                m.insert((st.first, st.second), r),
            )
        },
    }
}

/// The outcome of one whole query against the mapping `m`: scan, parse, then
/// resolve; and the mapping afterwards.
pub open spec fn query_model(s: Seq<char>, m: Map<(Seq<char>, Seq<char>), Seq<char>>) -> (Result<
    AppellationView,
    ParserErrorView,
>, Map<(Seq<char>, Seq<char>), Seq<char>>) {
    match lex_from(s, 0) {
        Err(e) => (Err(lexer_error_view(e)), m),
        Ok(ts) => match parse_tokens(ts) {
            Err(e) => (Err(lexer_error_view(e)), m),
            Ok(st) => resolve_statement(st, m),
        },
    }
}

/// The model of a query's outcome.
pub open spec fn outcome_view(r: Result<Appellation, ParserError>) -> Result<
    AppellationView,
    ParserErrorView,
> {
    match r {
        Ok(a) => Ok(a@),
        Err(e) => Err(e@),
    }
}

impl Relation {
    /// The store holding the built-in seed entries, such as father's father
    /// resolving to the paternal grandfather.
    pub fn seed() -> (r: Relation)
        ensures
            r.wf(),
            r@ == seed_map(),
    {
        let mut r = Relation::new();
        r.insert(String::from_str("爸爸"), String::from_str("爸爸"), String::from_str("爷爷"));
        r.insert(String::from_str("爸爸"), String::from_str("妈妈"), String::from_str("奶奶"));
        r.insert(
            String::from_str("爸爸"),
            String::from_str("老大"),
            String::from_str("大哥或自己"),
        );
        r
    }
}

/// Parses one query string and resolves it against a [`Relation`] store.
pub struct Parser {
    source: String,
    current_offset: usize,
    tokens: Vec<Token>,
}

impl View for Parser {
    type V = Seq<char>;

    closed spec fn view(&self) -> Seq<char> {
        self.source@
    }
}

impl Parser {
    /// A parser over `source`; nothing is scanned until [`Parser::parse`].
    pub fn new(source: &str) -> (p: Parser)
        ensures
            p@ == source@,
    {
        Parser { source: String::from_str(source), current_offset: 0, tokens: Vec::new() }
    }

    /// Scans, parses and resolves the query against `relation`.  Outcome and
    /// the state of the store afterwards are exactly those of
    /// [`query_model`]; a definition statement is the only path that changes
    /// the store.
    pub fn parse(&mut self, relation: &mut Relation) -> (r: Result<Appellation, ParserError>)
        requires
            old(relation).wf(),
        ensures
            final(self)@ == old(self)@,
            final(relation).wf(),
            outcome_view(r) == query_model(old(self)@, old(relation)@).0,
            final(relation)@ == query_model(old(self)@, old(relation)@).1,
    {
        let ghost s = self.source@;
        self.current_offset = 0;
        let toks = match lexer(self.source.as_str()) {
            Ok(toks) => toks,
            Err(e) => {
                return Err(ParserError::from(e));
            },
        };
        self.tokens = toks;
        let ghost ts = views_of(self.tokens@);
        let total = crate::lexer::byte_len(self.source.as_str());
        proof {
            lemma_lex_adjacent(s, 0);
            crate::lexer::lemma_width3_prefix_bytes(s, s.len() as int);
            assert(3 * s.len() <= total);
            assert(tokens_len(ts, ts.len() as int) == 3 * s.len());
        }
        let n = self.tokens.len();
        if n < 1 {
            return Err(
                ParserError::Lexer {
                    span: Span { start: 0, length: 1 },
                    message: String::from_str("找不到第一个称呼"),
                },
            );
        }
        let first: String = match &self.tokens[0].kind {
            TokenKind::Ident(name) => name.clone(),
            _ => {
                return Err(
                    ParserError::Lexer {
                        span: self.tokens[0].span,
                        message: String::from_str("期望一个称呼"),
                    },
                );
            },
        };
        proof {
            lemma_tokens_len_mono(ts, 1, ts.len() as int);
        }
        self.current_offset = self.tokens[0].span.length;
        assert(self.current_offset as int == tokens_len(ts, 1));
        if n < 2 {
            return Err(
                ParserError::Lexer {
                    span: Span { start: self.current_offset, length: 1 },
                    message: String::from_str("找不到 `的`"),
                },
            );
        }
        match &self.tokens[1].kind {
            TokenKind::Link => {},
            _ => {
                return Err(
                    ParserError::Lexer {
                        span: self.tokens[1].span,
                        message: String::from_str("期望 `的`"),
                    },
                );
            },
        }
        proof {
            lemma_tokens_len_mono(ts, 2, ts.len() as int);
        }
        self.current_offset = self.current_offset + self.tokens[1].span.length;
        assert(self.current_offset as int == tokens_len(ts, 2));
        proof {
            if ts.len() >= 3 {
                lemma_tokens_len_mono(ts, 3, ts.len() as int);
            }
        }
        let second: String = match self.parser_second_name() {
            Ok(name) => name,
            Err(e) => {
                return Err(e);
            },
        };
        assert(self.current_offset as int == tokens_len(ts, 3));
        if n < 4 {
            return Err(
                ParserError::Lexer {
                    span: Span { start: self.current_offset, length: 1 },
                    message: String::from_str("找不到 `是`"),
                },
            );
        }
        match &self.tokens[3].kind {
            TokenKind::Is => {},
            _ => {
                return Err(
                    ParserError::Lexer {
                        span: self.tokens[3].span,
                        message: String::from_str("期望 `是`"),
                    },
                );
            },
        }
        proof {
            lemma_tokens_len_mono(ts, 4, ts.len() as int);
        }
        self.current_offset = self.current_offset + self.tokens[3].span.length;
        assert(self.current_offset as int == tokens_len(ts, 4));
        if n < 5 {
            return Err(
                ParserError::Lexer {
                    span: Span { start: self.current_offset, length: 1 },
                    message: String::from_str("找不到 `什么`"),
                },
            );
        }
        match &self.tokens[4].kind {
            TokenKind::What => {
                if n > 5 {
                    return Err(
                        ParserError::Lexer {
                            span: self.tokens[5].span,
                            message: String::from_str("语法错误"),
                        },
                    );
                }
                match relation.get(&first, &second) {
                    Some(result) => Ok(Appellation { first, second, result }),
                    None => Err(ParserError::NoResult),
                }
            },
            TokenKind::Ident(name) => {
                if n > 5 {
                    return Err(
                        ParserError::Lexer {
                            span: self.tokens[5].span,
                            message: String::from_str("语法错误"),
                        },
                    );
                }
                let result = name.clone();
                relation.insert(first.clone(), second.clone(), result.clone());
                Ok(Appellation { first, second, result })
            },
            _ => {
                return Err(
                    ParserError::Lexer {
                        span: self.tokens[4].span,
                        message: String::from_str("语法错误，期望 `什么`"),
                    },
                );
            },
        }
    }

    /// Consumes the token that must hold the second role name, advancing the
    /// running byte offset past it.
    fn parser_second_name(&mut self) -> (r: Result<String, ParserError>)
        requires
            old(self).current_offset as int == tokens_len(views_of(old(self).tokens@), 2),
            views_of(old(self).tokens@).len() >= 3 ==> old(self).current_offset + views_of(
                old(self).tokens@,
            )[2].length <= usize::MAX,
        ensures
            final(self).source == old(self).source,
            final(self).tokens == old(self).tokens,
            ({
                let ts = views_of(old(self).tokens@);
                match r {
                    Ok(name) => ts.len() >= 3 && ts[2].kind is Ident && name@ == ident_text(
                        ts[2].kind,
                    ) && final(self).current_offset as int == tokens_len(ts, 3),
                    Err(e) => if ts.len() < 3 {
                        e@ == (ParserErrorView::Lexer {
                            start: tokens_len(ts, 2),
                            length: 1,
                            message: "找不到第二个称呼"@,
                        })
                    } else {
                        !(ts[2].kind is Ident) && e@ == (ParserErrorView::Lexer {
                            start: ts[2].start,
                            length: ts[2].length,
                            message: "期望一个称呼"@,
                        })
                    },
                }
            }),
    {
        if self.tokens.len() < 3 {
            return Err(
                ParserError::Lexer {
                    span: Span { start: self.current_offset, length: 1 },
                    message: String::from_str("找不到第二个称呼"),
                },
            );
        }
        let second = match &self.tokens[2].kind {
            TokenKind::Ident(name) => name.clone(),
            _ => {
                return Err(
                    ParserError::Lexer {
                        span: self.tokens[2].span,
                        message: String::from_str("期望一个称呼"),
                    },
                );
            },
        };
        self.current_offset = self.current_offset + self.tokens[2].span.length;
        Ok(second)
    }

    /// Scans, parses and resolves the query against the built-in seed store
    /// alone; a definition statement extends only a store local to this call.
    pub fn to_appellation(&self) -> (r: Result<Appellation, ParserError>)
        ensures
            outcome_view(r) == query_model(self@, seed_map()).0,
    {
        let mut parser = Parser::new(self.source.as_str());
        let mut store = Relation::seed();
        parser.parse(&mut store)
    }
}

/// Law: unless the input is a definition statement, resolving it leaves the
/// store untouched, so resolving the same string a second time yields the
/// identical outcome — resolution of a pure query is idempotent.
pub proof fn lemma_pure_query_idempotent(s: Seq<char>, m: Map<(Seq<char>, Seq<char>), Seq<char>>)
    requires
        !(lex_from(s, 0) is Ok && parse_tokens(lex_from(s, 0)->Ok_0) is Ok && parse_tokens(
            lex_from(s, 0)->Ok_0,
        )->Ok_0.tail is Define),
    ensures
        query_model(s, m).1 == m,
        query_model(s, query_model(s, m).1) == query_model(s, m),
{
}

/// Law: a definition statement — one whose final token is an identifier
/// rather than the terminal marker — inserts that identifier under the pair
/// of roles it names, and the same call's appellation carries exactly that
/// identifier as its result.
pub proof fn lemma_define_inserts(s: Seq<char>, m: Map<(Seq<char>, Seq<char>), Seq<char>>)
    requires
        lex_from(s, 0) is Ok,
        parse_tokens(lex_from(s, 0)->Ok_0) is Ok,
        parse_tokens(lex_from(s, 0)->Ok_0)->Ok_0.tail is Define,
    ensures
        ({
            let st = parse_tokens(lex_from(s, 0)->Ok_0)->Ok_0;
            let defined = st.tail->Define_0;
            let (outcome, after) = query_model(s, m);
            &&& after == m.insert((st.first, st.second), defined)
            &&& after.contains_key((st.first, st.second))
            &&& after[(st.first, st.second)] == defined
            &&& outcome == Ok::<AppellationView, ParserErrorView>(
                AppellationView { first: st.first, second: st.second, result: defined },
            )
        }),
{
}

} // verus!
