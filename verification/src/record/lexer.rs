//! Tokenizer for the relation-definition format.
//!
//! Unlike the query tokenizer it never fails: anything unrecognized becomes
//! an [`TokenKind::Unknown`] token for the parser to reject, and the token
//! list always ends with [`TokenKind::Eof`].

use vstd::prelude::*;
use vstd::string::*;

use crate::lexer::check_keyword;
use crate::lexer::ident_end;
use crate::lexer::is_alphabet_char;
use crate::lexer::lemma_ident_end;
use crate::lexer::Span;

verus! {

/// The kinds of token the relation-definition format can contain.
#[derive(Debug, PartialEq, Eq)]
pub enum TokenKind {
    /// A run of horizontal whitespace.
    Whitespace,
    /// `>`.
    Link,
    /// `=`.
    Is,
    /// A role name: a maximal run of alphabet characters, e.g. `爸爸`.
    Name(String),
    /// A run of line breaks.
    Delimiter,
    /// `#` up to and including the next line break.
    Comment,
    /// A single unrecognized character.
    Unknown,
    /// End of input.
    Eof,
}

/// Mathematical model of a record [`TokenKind`].
pub enum TokenKindView {
    Whitespace,
    Link,
    Is,
    Name(Seq<char>),
    Delimiter,
    Comment,
    Unknown,
    Eof,
}

impl View for TokenKind {
    type V = TokenKindView;

    open spec fn view(&self) -> TokenKindView {
        match self {
            TokenKind::Whitespace => TokenKindView::Whitespace,
            TokenKind::Link => TokenKindView::Link,
            TokenKind::Is => TokenKindView::Is,
            TokenKind::Name(s) => TokenKindView::Name(s@),
            TokenKind::Delimiter => TokenKindView::Delimiter,
            TokenKind::Comment => TokenKindView::Comment,
            TokenKind::Unknown => TokenKindView::Unknown,
            TokenKind::Eof => TokenKindView::Eof,
        }
    }
}

/// A record token together with a byte span; the record scanner itself hands
/// out bare kinds, since record diagnostics carry no positions.
#[derive(Debug, PartialEq, Eq)]
pub struct Token {
    pub kind: TokenKind,
    pub span: Span,
}

/// Whether `c` counts as horizontal whitespace.
pub open spec fn is_whitespace_char(c: char) -> bool {
    ||| c == '\u{0009}'
    ||| c == '\u{000B}'
    ||| c == '\u{000C}'
    ||| c == '\u{0020}'
    ||| c == '\u{200E}'
    ||| c == '\u{200F}'
    ||| c == '\u{2029}'
}

/// Whether `c` counts as a line break.
pub open spec fn is_delimiter_char(c: char) -> bool {
    ||| c == '\u{000A}'
    ||| c == '\u{000D}'
    ||| c == '\u{0085}'
    ||| c == '\u{2028}'
}

/// Decides whether `c` is horizontal whitespace.
fn is_whitespace(c: char) -> (r: bool)
    ensures
        r == is_whitespace_char(c),
{
    matches!(
        c,
        '\u{0009}' | '\u{000B}' | '\u{000C}' | '\u{0020}' | '\u{200E}' | '\u{200F}' | '\u{2029}'
    )
}

/// Decides whether `c` is a line break.
fn is_delimiter(c: char) -> (r: bool)
    ensures
        r == is_delimiter_char(c),
{
    matches!(c, '\u{000A}' | '\u{000D}' | '\u{0085}' | '\u{2028}')
}

/// Exclusive end of the whitespace run starting at `i`.
pub open spec fn ws_end(s: Seq<char>, i: int) -> int
    decreases s.len() - i when 0 <= i <= s.len()
{
    if i >= s.len() || !is_whitespace_char(s[i]) {
        i
    } else {
        ws_end(s, i + 1)
    }
}

/// Bounds and characterization of [`ws_end`].
pub proof fn lemma_ws_end(s: Seq<char>, i: int)
    requires
        0 <= i <= s.len(),
    ensures
        i <= ws_end(s, i) <= s.len(),
        i < s.len() && is_whitespace_char(s[i]) ==> ws_end(s, i) > i,
        ws_end(s, i) < s.len() ==> !is_whitespace_char(s[ws_end(s, i)]),
    decreases s.len() - i,
{
    if i < s.len() && is_whitespace_char(s[i]) {
        lemma_ws_end(s, i + 1);
    }
}

/// Exclusive end of the line-break run starting at `i`.
pub open spec fn delim_end(s: Seq<char>, i: int) -> int
    decreases s.len() - i when 0 <= i <= s.len()
{
    if i >= s.len() || !is_delimiter_char(s[i]) {
        i
    } else {
        delim_end(s, i + 1)
    }
}

/// Bounds and characterization of [`delim_end`].
pub proof fn lemma_delim_end(s: Seq<char>, i: int)
    requires
        0 <= i <= s.len(),
    ensures
        i <= delim_end(s, i) <= s.len(),
        i < s.len() && is_delimiter_char(s[i]) ==> delim_end(s, i) > i,
        delim_end(s, i) < s.len() ==> !is_delimiter_char(s[delim_end(s, i)]),
    decreases s.len() - i,
{
    if i < s.len() && is_delimiter_char(s[i]) {
        lemma_delim_end(s, i + 1);
    }
}

/// Position of the first line feed at or after `i`, or the end of `s`: where
/// the body of a comment ends.
pub open spec fn comment_end(s: Seq<char>, i: int) -> int
    decreases s.len() - i when 0 <= i <= s.len()
{
    if i >= s.len() || s[i] == '\n' {
        i
    } else {
        comment_end(s, i + 1)
    }
}

/// Bounds and characterization of [`comment_end`].
pub proof fn lemma_comment_end(s: Seq<char>, i: int)
    requires
        0 <= i <= s.len(),
    ensures
        i <= comment_end(s, i) <= s.len(),
        comment_end(s, i) < s.len() ==> s[comment_end(s, i)] == '\n',
    decreases s.len() - i,
{
    if i < s.len() && s[i] != '\n' {
        lemma_comment_end(s, i + 1);
    }
}

/// The token kinds obtained by scanning `s` from position `i` on, ending
/// with `Eof`.  A `#` comment extends to the next line feed and swallows it;
/// whitespace, line breaks and names are maximal runs; `>` and `=` stand for
/// themselves; any other character is a single `Unknown` token.
pub open spec fn rec_lex_from(s: Seq<char>, i: int) -> Seq<TokenKindView>
    decreases s.len() - i when 0 <= i <= s.len()
{
    if i >= s.len() {
        seq![TokenKindView::Eof]
    } else {
        let c = s[i];
        if c == '#' {
            let j = comment_end(s, i + 1);
            proof {
                lemma_comment_end(s, i + 1);
            }
            let next = if j < s.len() {
                j + 1
            } else {
                j
            };
            seq![TokenKindView::Comment] + rec_lex_from(s, next)
        } else if is_whitespace_char(c) {
            proof {
                lemma_ws_end(s, i);
            }
            seq![TokenKindView::Whitespace] + rec_lex_from(s, ws_end(s, i))
        } else if is_delimiter_char(c) {
            proof {
                lemma_delim_end(s, i);
            }
            seq![TokenKindView::Delimiter] + rec_lex_from(s, delim_end(s, i))
        } else if c == '>' {
            seq![TokenKindView::Link] + rec_lex_from(s, i + 1)
        } else if c == '=' {
            seq![TokenKindView::Is] + rec_lex_from(s, i + 1)
        } else if is_alphabet_char(c) {
            let j = ident_end(s, i);
            proof {
                lemma_ident_end(s, i);
            }
            seq![TokenKindView::Name(s.subrange(i, j))] + rec_lex_from(s, j)
        } else {
            seq![TokenKindView::Unknown] + rec_lex_from(s, i + 1)
        }
    }
}

/// The models of a sequence of record token kinds.
pub open spec fn rec_views_of(tokens: Seq<TokenKind>) -> Seq<TokenKindView> {
    Seq::new(tokens.len(), |k: int| tokens[k]@)
}

/// One scanned token extends the accumulated prefix.
proof fn lemma_rec_prefix_step(
    s: Seq<char>,
    i: int,
    j: int,
    acc: Seq<TokenKindView>,
    t: TokenKindView,
)
    requires
        0 <= i <= s.len(),
        0 <= j <= s.len(),
        rec_lex_from(s, i) == seq![t] + rec_lex_from(s, j),
    ensures
        acc + rec_lex_from(s, i) == acc.push(t) + rec_lex_from(s, j),
{
    assert(acc + (seq![t] + rec_lex_from(s, j)) =~= acc.push(t) + rec_lex_from(s, j));
}

/// Scans the whole of `source` into record token kinds; the result is
/// exactly the mathematical scan [`rec_lex_from`] of the whole string, so it
/// always ends with `Eof` and never fails.
pub fn lexer(source: &str) -> (r: Vec<TokenKind>)
    ensures
        rec_views_of(r@) == rec_lex_from(source@, 0),
{
    let ghost s = source@;
    let n = source.unicode_len();
    let mut tokens: Vec<TokenKind> = Vec::new();
    let mut i: usize = 0;
    while i < n
        invariant
            s == source@,
            n == s.len(),
            i <= n,
            rec_lex_from(s, 0) == rec_views_of(tokens@) + rec_lex_from(s, i as int),
        decreases n - i,
    {
        let ghost acc = rec_views_of(tokens@);
        let c = source.get_char(i);
        if c == '#' {
            let mut j = i + 1;
            proof {
                lemma_comment_end(s, i as int + 1);
            }
            while j < n && source.get_char(j) != '\n'
                invariant
                    s == source@,
                    n == s.len(),
                    i < j <= n,
                    comment_end(s, i as int + 1) == comment_end(s, j as int),
                decreases n - j,
            {
                j = j + 1;
            }
            proof {
                assert(comment_end(s, j as int) == j);
            }
            let next = if j < n {
                j + 1
            } else {
                j
            };
            tokens.push(TokenKind::Comment);
            proof {
                assert(rec_views_of(tokens@) =~= acc.push(TokenKindView::Comment));
                lemma_rec_prefix_step(s, i as int, next as int, acc, TokenKindView::Comment);
            }
            i = next;
        } else if is_whitespace(c) {
            let mut j = i + 1;
            proof {
                lemma_ws_end(s, i as int);
            }
            while j < n && is_whitespace(source.get_char(j))
                invariant
                    s == source@,
                    n == s.len(),
                    i < j <= n,
                    forall|k: int| i <= k < j ==> is_whitespace_char(#[trigger] s[k]),
                    ws_end(s, i as int) == ws_end(s, j as int),
                decreases n - j,
            {
                j = j + 1;
            }
            proof {
                assert(ws_end(s, j as int) == j);
            }
            tokens.push(TokenKind::Whitespace);
            proof {
                assert(rec_views_of(tokens@) =~= acc.push(TokenKindView::Whitespace));
                lemma_rec_prefix_step(s, i as int, j as int, acc, TokenKindView::Whitespace);
            }
            i = j;
        } else if is_delimiter(c) {
            let mut j = i + 1;
            proof {
                lemma_delim_end(s, i as int);
            }
            while j < n && is_delimiter(source.get_char(j))
                invariant
                    s == source@,
                    n == s.len(),
                    i < j <= n,
                    forall|k: int| i <= k < j ==> is_delimiter_char(#[trigger] s[k]),
                    delim_end(s, i as int) == delim_end(s, j as int),
                decreases n - j,
            {
                j = j + 1;
            }
            proof {
                assert(delim_end(s, j as int) == j);
            }
            tokens.push(TokenKind::Delimiter);
            proof {
                assert(rec_views_of(tokens@) =~= acc.push(TokenKindView::Delimiter));
                lemma_rec_prefix_step(s, i as int, j as int, acc, TokenKindView::Delimiter);
            }
            i = j;
        } else if c == '>' {
            tokens.push(TokenKind::Link);
            proof {
                assert(rec_views_of(tokens@) =~= acc.push(TokenKindView::Link));
                lemma_rec_prefix_step(s, i as int, i as int + 1, acc, TokenKindView::Link);
            }
            i = i + 1;
        } else if c == '=' {
            tokens.push(TokenKind::Is);
            proof {
                assert(rec_views_of(tokens@) =~= acc.push(TokenKindView::Is));
                lemma_rec_prefix_step(s, i as int, i as int + 1, acc, TokenKindView::Is);
            }
            i = i + 1;
        } else if check_keyword(c) {
            let mut j = i + 1;
            proof {
                lemma_ident_end(s, i as int);
            }
            while j < n && check_keyword(source.get_char(j))
                invariant
                    s == source@,
                    n == s.len(),
                    i < j <= n,
                    forall|k: int| i <= k < j ==> is_alphabet_char(#[trigger] s[k]),
                    ident_end(s, i as int) == ident_end(s, j as int),
                decreases n - j,
            {
                j = j + 1;
            }
            proof {
                assert(ident_end(s, j as int) == j);
            }
            let text = source.substring_char(i, j);
            let t = TokenKind::Name(String::from_str(text));
            let ghost tv = t@;
            tokens.push(t);
            proof {
                assert(s.subrange(i as int, j as int) == text@);
                assert(rec_views_of(tokens@) =~= acc.push(tv));
                lemma_rec_prefix_step(s, i as int, j as int, acc, tv);
            }
            i = j;
        } else {
            tokens.push(TokenKind::Unknown);
            proof {
                assert(rec_views_of(tokens@) =~= acc.push(TokenKindView::Unknown));
                lemma_rec_prefix_step(s, i as int, i as int + 1, acc, TokenKindView::Unknown);
            }
            i = i + 1;
        }
    }
    let ghost acc = rec_views_of(tokens@);
    tokens.push(TokenKind::Eof);
    proof {
        assert(rec_lex_from(s, n as int) == seq![TokenKindView::Eof]);
        assert(rec_views_of(tokens@) =~= acc + seq![TokenKindView::Eof]);
    }
    tokens
}

} // verus!
