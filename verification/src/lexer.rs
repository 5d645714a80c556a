//! Tokenizer for the query language.
//!
//! A query is scanned greedily, left to right, into a sequence of [`Token`]s:
//! the link word `的`, the copula `是`, the terminal marker `什么`, and
//! maximal runs of kinship-role characters as identifiers.  Every token
//! carries a [`Span`] of byte offsets into the source for diagnostics.
//! The scanner accepts only characters whose UTF-8 encoding is exactly three
//! bytes wide, a deliberate, script-specific assumption: it keeps byte
//! offsets in lockstep with character counts.

use vstd::prelude::*;
use vstd::string::*;
use vstd::utf8::*;

verus! {

/// Whether `c` belongs to the closed alphabet of kinship-role characters.
pub open spec fn is_alphabet_char(c: char) -> bool {
    ||| c == '爸'
    ||| c == '妈'
    ||| c == '爷'
    ||| c == '奶'
    ||| c == '姑'
    ||| c == '父'
    ||| c == '母'
    ||| c == '舅'
    ||| c == '妗'
    ||| c == '子'
    ||| c == '伯'
    ||| c == '叔'
    ||| c == '婶'
    ||| c == '哥'
    ||| c == '妹'
    ||| c == '姐'
    ||| c == '弟'
    ||| c == '姥'
    ||| c == '姨'
    ||| c == '女'
    ||| c == '儿'
}

/// Number of bytes the UTF-8 encoding of `c` occupies.
pub open spec fn char_utf8_width(c: char) -> int {
    if (c as u32) < 0x80 {
        1
    } else if (c as u32) < 0x800 {
        2
    } else if (c as u32) < 0x10000 {
        3
    } else {
        4
    }
}

/// Decides membership in the kinship-role alphabet.
pub fn check_keyword(c: char) -> (r: bool)
    ensures
        r == is_alphabet_char(c),
{
    matches!(
        c,
        '爸' | '妈'
            | '爷'
            | '奶'
            | '姑'
            | '父'
            | '母'
            | '舅'
            | '妗'
            | '子'
            | '伯'
            | '叔'
            | '婶'
            | '哥'
            | '妹'
            | '姐'
            | '弟'
            | '姥'
            | '姨'
            | '女'
            | '儿'
    )
}

/// Computes the UTF-8 byte width of `c`.
pub fn char_width(c: char) -> (n: usize)
    ensures
        n as int == char_utf8_width(c),
{
    let v = c as u32;
    if v < 0x80 {
        1
    } else if v < 0x800 {
        2
    } else if v < 0x10000 {
        3
    } else {
        4
    }
}

/// Every alphabet character is three bytes wide in UTF-8.
pub proof fn lemma_alphabet_char_width(c: char)
    requires
        is_alphabet_char(c),
    ensures
        char_utf8_width(c) == 3,
{
}

/// A byte-offset range locating a token or an error in the source string.
#[derive(Debug, Clone, Copy, PartialEq, Eq, Structural)]
pub struct Span {
    pub start: usize,
    pub length: usize,
}

impl Span {
    /// One past the last byte covered.
    pub open spec fn spec_end(&self) -> int {
        self.start + self.length
    }

    /// Display width of the covered text: two terminal columns per
    /// three-byte character, never less than one column.
    pub open spec fn spec_len(&self) -> int {
        let w = self.length as int / 3 * 2;
        if w < 1 {
            1
        } else {
            w
        }
    }

    /// Number of caret columns needed to underline the span.
    pub fn len(&self) -> (n: usize)
        ensures
            n as int == self.spec_len(),
    {
        let w: usize = self.length / 3 * 2;
        if w == 0 {
            1
        } else {
            w
        }
    }

    /// Byte offset one past the end of the span.
    pub fn end(&self) -> (n: usize)
        requires
            self.start + self.length <= usize::MAX,
        ensures
            n as int == self.spec_end(),
    {
        self.start + self.length
    }
}

/// The kinds of token a query can contain.
#[derive(Debug, PartialEq, Eq)]
pub enum TokenKind {
    /// `的` in `爸爸的爸爸`.
    Link,
    /// `是` in `爸爸的爸爸是什么`.
    Is,
    /// The terminal marker `什么`.
    What,
    /// An identifier: a maximal run of alphabet characters, e.g. `爸爸`.
    Ident(String),
}

/// Mathematical model of a [`TokenKind`]: identifier text as a character
/// sequence.
pub enum TokenKindView {
    Link,
    Is,
    What,
    Ident(Seq<char>),
}

impl View for TokenKind {
    type V = TokenKindView;

    open spec fn view(&self) -> TokenKindView {
        match self {
            TokenKind::Link => TokenKindView::Link,
            TokenKind::Is => TokenKindView::Is,
            TokenKind::What => TokenKindView::What,
            TokenKind::Ident(s) => TokenKindView::Ident(s@),
        }
    }
}

/// A token together with the byte span of the text it was scanned from.
#[derive(Debug, PartialEq, Eq)]
pub struct Token {
    pub kind: TokenKind,
    pub span: Span,
}

/// Mathematical model of a [`Token`].
pub struct TokenView {
    pub kind: TokenKindView,
    pub start: int,
    pub length: int,
}

impl View for Token {
    type V = TokenView;

    open spec fn view(&self) -> TokenView {
        TokenView { kind: self.kind@, start: self.span.start as int, length: self.span.length as int }
    }
}

impl Token {
    /// Builds a token covering `length` bytes starting at byte `start`.
    pub fn new(kind: TokenKind, start: usize, length: usize) -> (t: Token)
        ensures
            t@ == (TokenView { kind: kind@, start: start as int, length: length as int }),
    {
        Token { kind, span: Span { start, length } }
    }

    /// The token's kind.
    pub fn kind(&self) -> (k: &TokenKind)
        ensures
            k@ == self@.kind,
    {
        &self.kind
    }

    /// Whether the token's kind equals `kind`.
    pub fn is_kind(&self, kind: &TokenKind) -> (r: bool)
        ensures
            r == (self@.kind == kind@),
    {
        match (&self.kind, kind) {
            (TokenKind::Link, TokenKind::Link) => true,
            (TokenKind::Is, TokenKind::Is) => true,
            (TokenKind::What, TokenKind::What) => true,
            (TokenKind::Ident(a), TokenKind::Ident(b)) => a.eq(b),
            _ => false,
        }
    }

    /// Byte offset one past the end of the token's span.
    pub fn end_span(&self) -> (n: usize)
        requires
            self.span.start + self.span.length <= usize::MAX,
        ensures
            n as int == self@.start + self@.length,
    {
        self.span.end()
    }
}

/// A positioned lexical or syntactic error.
#[derive(Debug, PartialEq, Eq)]
pub struct Error {
    pub span: Span,
    pub message: String,
}

/// Mathematical model of an [`Error`].
pub struct ErrorView {
    pub start: int,
    pub length: int,
    pub message: Seq<char>,
}

impl View for Error {
    type V = ErrorView;

    open spec fn view(&self) -> ErrorView {
        ErrorView {
            start: self.span.start as int,
            length: self.span.length as int,
            message: self.message@,
        }
    }
}

impl Error {
    /// Builds an error covering `length` bytes starting at byte `start`.
    pub fn new(message: &str, start: usize, length: usize) -> (e: Error)
        ensures
            e@ == (ErrorView { start: start as int, length: length as int, message: message@ }),
    {
        Error { span: Span { start, length }, message: String::from_str(message) }
    }

    /// Builds an error whose span is the span of `token`.
    pub fn from_token(message: &str, token: &Token) -> (e: Error)
        ensures
            e@ == (ErrorView {
                start: token@.start,
                length: token@.length,
                message: message@,
            }),
    {
        Error { span: token.span.clone(), message: String::from_str(message) }
    }
}

/// First position at or after `i` that does not hold an alphabet character,
/// or the end of `s`: the exclusive end of the identifier starting at `i`.
pub open spec fn ident_end(s: Seq<char>, i: int) -> int
    decreases s.len() - i when 0 <= i <= s.len()
{
    if i >= s.len() || !is_alphabet_char(s[i]) {
        i
    } else {
        ident_end(s, i + 1)
    }
}

/// Bounds and characterization of [`ident_end`].
pub proof fn lemma_ident_end(s: Seq<char>, i: int)
    requires
        0 <= i <= s.len(),
    ensures
        i <= ident_end(s, i) <= s.len(),
        forall|k: int| i <= k < ident_end(s, i) ==> is_alphabet_char(s[k]),
        ident_end(s, i) < s.len() ==> !is_alphabet_char(s[ident_end(s, i)]),
        i < s.len() && is_alphabet_char(s[i]) ==> ident_end(s, i) > i,
    decreases s.len() - i,
{
    if i < s.len() && is_alphabet_char(s[i]) {
        lemma_ident_end(s, i + 1);
    }
}

/// Prepends token `t` to a lexing outcome, passing an error through.
pub open spec fn lex_cons(
    t: TokenView,
    rest: Result<Seq<TokenView>, ErrorView>,
) -> Result<Seq<TokenView>, ErrorView> {
    match rest {
        Ok(ts) => Ok(seq![t] + ts),
        Err(e) => Err(e),
    }
}

/// The token sequence obtained by scanning `s` greedily from position `i`
/// (a character index), or the first lexical error.  Byte offsets equal three
/// bytes per character scanned, since every accepted character is three bytes
/// wide and a wider or narrower one stops the scan.
pub open spec fn lex_from(s: Seq<char>, i: int) -> Result<Seq<TokenView>, ErrorView>
    decreases s.len() - i when 0 <= i <= s.len()
{
    if i >= s.len() {
        Ok(Seq::empty())
    } else if char_utf8_width(s[i]) != 3 {
        Err(ErrorView { start: 3 * i, length: char_utf8_width(s[i]), message: "只允许汉字"@ })
    } else if s[i] == '的' {
        lex_cons(
            TokenView { kind: TokenKindView::Link, start: 3 * i, length: 3 },
            lex_from(s, i + 1),
        )
    } else if s[i] == '是' {
        lex_cons(
            TokenView { kind: TokenKindView::Is, start: 3 * i, length: 3 },
            lex_from(s, i + 1),
        )
    } else if s[i] == '什' {
        if i + 1 >= s.len() {
            Err(ErrorView { start: 3 * i, length: 3, message: "不能以 `什` 作为结尾"@ })
        } else if s[i + 1] == '么' {
            lex_cons(
                TokenView { kind: TokenKindView::What, start: 3 * i, length: 6 },
                lex_from(s, i + 2),
            )
        } else {
            Err(ErrorView { start: 3 * i, length: 3, message: "期望在 `什` 后面是的 `么`"@ })
        }
    } else if is_alphabet_char(s[i]) {
        let j = ident_end(s, i);
        proof {
            lemma_ident_end(s, i);
        }
        lex_cons(
            TokenView {
                kind: TokenKindView::Ident(s.subrange(i, j)),
                start: 3 * i,
                length: 3 * (j - i),
            },
            lex_from(s, j),
        )
    } else {
        Err(ErrorView { start: 3 * i, length: 3, message: "未定义字符"@ })
    }
}

/// The models of a sequence of tokens.
pub open spec fn views_of(tokens: Seq<Token>) -> Seq<TokenView> {
    Seq::new(tokens.len(), |k: int| tokens[k]@)
}

/// Lexing outcome from position `i` with the already-produced tokens `acc`
/// prepended: the loop invariant shape of [`lexer`].
pub open spec fn lex_prefix(
    s: Seq<char>,
    i: int,
    acc: Seq<TokenView>,
) -> Result<Seq<TokenView>, ErrorView> {
    match lex_from(s, i) {
        Ok(rest) => Ok(acc + rest),
        Err(e) => Err(e),
    }
}

/// Peeling one token off the remaining input extends the accumulator.
proof fn lemma_prefix_step(s: Seq<char>, i: int, j: int, acc: Seq<TokenView>, t: TokenView)
    requires
        lex_from(s, i) == lex_cons(t, lex_from(s, j)),
    ensures
        lex_prefix(s, i, acc) == lex_prefix(s, j, acc.push(t)),
{
    match lex_from(s, j) {
        Ok(rest) => {
            assert(acc + (seq![t] + rest) =~= acc.push(t) + rest);
        },
        Err(_) => {},
    }
}

/// A prefix of three-byte-wide characters occupies three bytes each in the
/// UTF-8 encoding, so the encoding is at least `3 * i` bytes long.
pub(crate) proof fn lemma_width3_prefix_bytes(s: Seq<char>, i: int)
    requires
        0 <= i <= s.len(),
        forall|k: int| 0 <= k < i ==> char_utf8_width(#[trigger] s[k]) == 3,
    ensures
        encode_utf8(s).len() >= 3 * i,
    decreases i,
{
    if i > 0 {
        assert(char_utf8_width(s[0]) == 3);
        assert(encode_scalar(s[0] as u32).len() >= 3);
        let rest = s.drop_first();
        assert(forall|k: int| 0 <= k < i - 1 ==> char_utf8_width(#[trigger] rest[k]) == 3);
        lemma_width3_prefix_bytes(rest, i - 1);
    }
}

/// Relies on `str::len`: it returns the slice's byte length as a `usize`,
/// so that length fits in `usize`.
#[verifier::external_body]
pub(crate) fn byte_len(s: &str) -> (n: usize)
    ensures
        n as nat == s.spec_bytes().len(),
{
    s.len()
}

/// Scans `source` into its token sequence, or reports the first lexical
/// error.  The result is exactly the mathematical scan [`lex_from`] applied
/// to the whole string.
pub fn lexer(source: &str) -> (r: Result<Vec<Token>, Error>)
    ensures
        match r {
            Ok(tokens) => lex_from(source@, 0) == Ok::<Seq<TokenView>, ErrorView>(
                views_of(tokens@),
            ),
            Err(e) => lex_from(source@, 0) == Err::<Seq<TokenView>, ErrorView>(e@),
        },
{
    let ghost s = source@;
    let n = source.unicode_len();
    let bytes_total = byte_len(source);
    let mut tokens: Vec<Token> = Vec::new();
    let mut i: usize = 0;
    while i < n
        invariant
            s == source@,
            n == s.len(),
            bytes_total as nat == encode_utf8(s).len(),
            i <= n,
            forall|k: int| 0 <= k < i ==> char_utf8_width(#[trigger] s[k]) == 3,
            lex_from(s, 0) == lex_prefix(s, i as int, views_of(tokens@)),
        decreases n - i,
    {
        let ghost acc = views_of(tokens@);
        proof {
            lemma_width3_prefix_bytes(s, i as int);
        }
        let c = source.get_char(i);
        let w = char_width(c);
        let start = 3 * i;
        if w != 3 {
            return Err(Error::new("只允许汉字", start, w));
        }
        if c == '的' {
            let t = Token::new(TokenKind::Link, start, 3);
            tokens.push(t);
            proof {
                assert(views_of(tokens@) =~= acc.push(t@));
                lemma_prefix_step(s, i as int, i as int + 1, acc, t@);
            }
            i = i + 1;
        } else if c == '是' {
            let t = Token::new(TokenKind::Is, start, 3);
            tokens.push(t);
            proof {
                assert(views_of(tokens@) =~= acc.push(t@));
                lemma_prefix_step(s, i as int, i as int + 1, acc, t@);
            }
            i = i + 1;
        } else if c == '什' {
            if i + 1 >= n {
                return Err(Error::new("不能以 `什` 作为结尾", start, 3));
            }
            let c2 = source.get_char(i + 1);
            if c2 == '么' {
                let t = Token::new(TokenKind::What, start, 6);
                tokens.push(t);
                proof {
                    assert(views_of(tokens@) =~= acc.push(t@));
                    lemma_prefix_step(s, i as int, i as int + 2, acc, t@);
                }
                i = i + 2;
            } else {
                return Err(Error::new("期望在 `什` 后面是的 `么`", start, 3));
            }
        } else if check_keyword(c) {
            let mut j = i + 1;
            proof {
                lemma_ident_end(s, i as int);
            }
            while j < n && check_keyword(source.get_char(j))
                invariant
                    s == source@,
                    n == s.len(),
                    i < j <= n,
                    forall|k: int| i <= k < j ==> is_alphabet_char(#[trigger] s[k]),
                    ident_end(s, i as int) == ident_end(s, j as int),
                decreases n - j,
            {
                j = j + 1;
            }
            proof {
                assert(ident_end(s, j as int) == j);
                assert forall|k: int| i <= k < j implies char_utf8_width(#[trigger] s[k]) == 3 by {
                    lemma_alphabet_char_width(s[k]);
                }
                lemma_width3_prefix_bytes(s, j as int);
            }
            let text = source.substring_char(i, j);
            let t = Token::new(TokenKind::Ident(String::from_str(text)), start, 3 * (j - i));
            tokens.push(t);
            proof {
                assert(s.subrange(i as int, j as int) == text@);
                assert(views_of(tokens@) =~= acc.push(t@));
                lemma_prefix_step(s, i as int, j as int, acc, t@);
            }
            i = j;
        } else {
            return Err(Error::new("未定义字符", start, 3));
        }
    }
    proof {
        assert(lex_from(s, n as int) == Ok::<Seq<TokenView>, ErrorView>(Seq::empty()));
        assert(views_of(tokens@) + Seq::<TokenView>::empty() =~= views_of(tokens@));
    }
    Ok(tokens)
}

/// Law: a non-empty string composed solely of alphabet characters always
/// lexes without error, to exactly one identifier token whose text is the
/// whole input and whose span covers all of its bytes.
pub proof fn lemma_lex_all_alphabet(s: Seq<char>)
    requires
        s.len() > 0,
        forall|k: int| 0 <= k < s.len() ==> is_alphabet_char(#[trigger] s[k]),
    ensures
        lex_from(s, 0) == Ok::<Seq<TokenView>, ErrorView>(
            seq![
                TokenView {
                    kind: TokenKindView::Ident(s),
                    start: 0,
                    length: 3 * s.len() as int,
                },
            ],
        ),
{
    lemma_alphabet_char_width(s[0]);
    lemma_ident_end(s, 0);
    let j = ident_end(s, 0);
    assert(j == s.len());
    assert(s.subrange(0, j) =~= s);
    assert(lex_from(s, j) == Ok::<Seq<TokenView>, ErrorView>(Seq::empty()));
    let t = TokenView { kind: TokenKindView::Ident(s), start: 0, length: 3 * s.len() as int };
    assert(seq![t] + Seq::<TokenView>::empty() =~= seq![t]);
}

/// Law: when the input opens with a two-character identifier followed
/// immediately by the link character, the identifier token's span covers
/// exactly the first two characters' bytes, and the link token's span starts
/// exactly at the identifier's end offset.
pub proof fn lemma_two_char_ident_span(s: Seq<char>, tokens: Seq<TokenView>)
    requires
        s.len() >= 3,
        is_alphabet_char(s[0]),
        is_alphabet_char(s[1]),
        s[2] == '的',
        lex_from(s, 0) == Ok::<Seq<TokenView>, ErrorView>(tokens),
    ensures
        tokens.len() >= 2,
        tokens[0] == (TokenView { kind: TokenKindView::Ident(s.subrange(0, 2)), start: 0, length: 6 }),
        tokens[1].kind == TokenKindView::Link,
        tokens[1].start == tokens[0].start + tokens[0].length,
{
    lemma_alphabet_char_width(s[0]);
    lemma_alphabet_char_width(s[1]);
    assert(ident_end(s, 2) == 2);
    assert(ident_end(s, 1) == 2);
    assert(ident_end(s, 0) == 2);
    let t0 = TokenView { kind: TokenKindView::Ident(s.subrange(0, 2)), start: 0, length: 6 };
    assert(lex_from(s, 0) == lex_cons(t0, lex_from(s, 2)));
    let t1 = TokenView { kind: TokenKindView::Link, start: 6, length: 3 };
    assert(lex_from(s, 2) == lex_cons(t1, lex_from(s, 3)));
    let rest = lex_from(s, 3);
    match rest {
        Ok(ts) => {
            assert(tokens == seq![t0] + (seq![t1] + ts));
            assert(tokens[0] == t0);
            assert(tokens[1] == t1);
        },
        Err(_) => {
            assert(false);
        },
    }
}

} // verus!

