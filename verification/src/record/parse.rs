//! Parser for the relation-definition format.
//!
//! A file holds statements of the shape `Name > Name = Name`.  Whitespace is
//! transparently skippable before every expected token; a trailing line
//! break after a statement is consumed; comments and whitespace between
//! statements are ignored.  Any structural violation aborts the whole parse:
//! no partial table is ever produced.

use vstd::prelude::*;
use vstd::string::*;

use super::lexer::lexer;
use super::lexer::rec_views_of;
use super::lexer::rec_lex_from;
use super::lexer::TokenKind;
use super::lexer::TokenKindView;
use crate::parse::Relation as RelationMap;

verus! {

/// The text of a name token kind, empty for any other kind.
pub open spec fn name_text(k: TokenKindView) -> Seq<char> {
    match k {
        TokenKindView::Name(s) => s,
        _ => Seq::empty(),
    }
}

/// Position after one optional whitespace token at `i`.
pub open spec fn skip_ws(ts: Seq<TokenKindView>, i: int) -> int {
    if 0 <= i < ts.len() && ts[i] is Whitespace {
        i + 1
    } else {
        i
    }
}

/// Position after one optional whitespace token and one optional line-break
/// token at `i`.
pub open spec fn skip_delim(ts: Seq<TokenKindView>, i: int) -> int {
    let j = skip_ws(ts, i);
    if 0 <= j < ts.len() && ts[j] is Delimiter {
        j + 1
    } else {
        j
    }
}

/// One parsed statement: `(first, second)` shall resolve to `result`.
pub struct TripleView {
    pub first: Seq<char>,
    pub second: Seq<char>,
    pub result: Seq<char>,
}

/// Checks the statement shape `Link Name Is Name` from position `i`, the
/// first role name having already been consumed: either the completed triple
/// and the position after its last token, or the message naming the first
/// missing piece.
pub open spec fn parse_stmt(ts: Seq<TokenKindView>, i: int, first: Seq<char>) -> Result<
    (TripleView, int),
    Seq<char>,
> {
    let j1 = skip_ws(ts, i);
    if !(j1 < ts.len() && ts[j1] is Link) {
        Err("找不到连接词"@)
    } else {
        let j2 = skip_ws(ts, j1 + 1);
        if !(j2 < ts.len() && ts[j2] is Name) {
            Err("找不到第二个称呼"@)
        } else {
            let j3 = skip_ws(ts, j2 + 1);
            if !(j3 < ts.len() && ts[j3] is Is) {
                Err("找不到结论词"@)
            } else {
                let j4 = skip_ws(ts, j3 + 1);
                if !(j4 < ts.len() && ts[j4] is Name) {
                    Err("找不到结论称呼"@)
                } else {
                    Ok(
                        (
                            TripleView {
                                first,
                                second: name_text(ts[j2]),
                                result: name_text(ts[j4]),
                            },
                            j4 + 1,
                        ),
                    )
                }
            }
        }
    }
}

/// A successfully parsed statement ends strictly after where it began and
/// within the token list.
pub proof fn lemma_parse_stmt_bounds(ts: Seq<TokenKindView>, i: int, first: Seq<char>)
    requires
        0 <= i,
        parse_stmt(ts, i, first) is Ok,
    ensures
        i < parse_stmt(ts, i, first)->Ok_0.1 <= ts.len(),
{
}

/// The list of triples parsed from position `i` to the end-of-input marker,
/// or the message of the error that aborted the parse.  Comments and
/// whitespace before a statement are skipped; a statement must open with a
/// name; a stray structural token or an unrecognized character is fatal.
pub open spec fn advance_from(ts: Seq<TokenKindView>, i: int) -> Result<Seq<TripleView>, Seq<char>>
    decreases ts.len() - i when 0 <= i
{
    if i >= ts.len() {
        Err("语法错误"@)
    } else {
        match ts[i] {
            TokenKindView::Comment => advance_from(ts, i + 1),
            TokenKindView::Whitespace => advance_from(ts, i + 1),
            TokenKindView::Name(first) => match parse_stmt(ts, i + 1, first) {
                Err(m) => Err(m),
                Ok((t, j)) => {
                    proof {
                        lemma_parse_stmt_bounds(ts, i + 1, first);
                    }
                    match advance_from(ts, skip_delim(ts, j)) {
                        Ok(rest) => Ok(seq![t] + rest),
                        Err(m) => Err(m),
                    }
                },
            },
            TokenKindView::Delimiter => Err("语法错误"@),
            TokenKindView::Link => Err("语法错误"@),
            TokenKindView::Is => Err("语法错误"@),
            TokenKindView::Eof => Ok(Seq::empty()),
            TokenKindView::Unknown => Err("未知字符"@),
        }
    }
}

/// The mapping described by a list of triples; a later triple with the same
/// key overwrites an earlier one.
pub open spec fn triples_map(ts: Seq<TripleView>) -> Map<(Seq<char>, Seq<char>), Seq<char>>
    decreases ts.len(),
{
    if ts.len() == 0 {
        Map::empty()
    } else {
        triples_map(ts.drop_last()).insert(
            (ts.last().first, ts.last().second),
            ts.last().result,
        )
    }
}

/// Consumes one whitespace token, if one stands at the cursor.
fn eat_if_whitespace(list: &Vec<TokenKind>, pos: &mut usize)
    requires
        *old(pos) <= list@.len(),
    ensures
        *final(pos) as int == skip_ws(rec_views_of(list@), *old(pos) as int),
        *final(pos) <= list@.len(),
{
    if *pos < list.len() {
        match &list[*pos] {
            TokenKind::Whitespace => {
                *pos = *pos + 1;
            },
            _ => {},
        }
    }
}

/// Consumes optional whitespace, then the next token, which must be a name.
fn eat_name(list: &Vec<TokenKind>, pos: &mut usize) -> (r: Option<String>)
    requires
        *old(pos) <= list@.len(),
    ensures
        ({
            let ts = rec_views_of(list@);
            let j = skip_ws(ts, *old(pos) as int);
            match r {
                Some(name) => j < ts.len() && ts[j] is Name && name@ == name_text(ts[j])
                    && *final(pos) as int == j + 1 && *final(pos) <= list@.len(),
                None => !(j < ts.len() && ts[j] is Name),
            }
        }),
{
    eat_if_whitespace(list, pos);
    if *pos < list.len() {
        match &list[*pos] {
            TokenKind::Name(s) => {
                let name = s.clone();
                *pos = *pos + 1;
                return Some(name);
            },
            _ => {
                *pos = *pos + 1;
                return None;
            },
        }
    }
    None
}

/// Consumes optional whitespace, then the next token, which must be `>`.
fn eat_link(list: &Vec<TokenKind>, pos: &mut usize) -> (r: Result<(), String>)
    requires
        *old(pos) <= list@.len(),
    ensures
        ({
            let ts = rec_views_of(list@);
            let j = skip_ws(ts, *old(pos) as int);
            match r {
                Ok(_) => j < ts.len() && ts[j] is Link && *final(pos) as int == j + 1
                    && *final(pos) <= list@.len(),
                Err(m) => !(j < ts.len() && ts[j] is Link) && m@ == "找不到连接词"@,
            }
        }),
{
    eat_if_whitespace(list, pos);
    if *pos < list.len() {
        match &list[*pos] {
            TokenKind::Link => {
                *pos = *pos + 1;
                return Ok(());
            },
            _ => {
                *pos = *pos + 1;
                return Err(String::from_str("找不到连接词"));
            },
        }
    }
    Err(String::from_str("找不到连接词"))
}

/// Consumes optional whitespace, then the next token, which must be `=`.
fn eat_is(list: &Vec<TokenKind>, pos: &mut usize) -> (r: Result<(), String>)
    requires
        *old(pos) <= list@.len(),
    ensures
        ({
            let ts = rec_views_of(list@);
            let j = skip_ws(ts, *old(pos) as int);
            match r {
                Ok(_) => j < ts.len() && ts[j] is Is && *final(pos) as int == j + 1 && *final(pos)
                    <= list@.len(),
                Err(m) => !(j < ts.len() && ts[j] is Is) && m@ == "找不到结论词"@,
            }
        }),
{
    eat_if_whitespace(list, pos);
    if *pos < list.len() {
        match &list[*pos] {
            TokenKind::Is => {
                *pos = *pos + 1;
                return Ok(());
            },
            _ => {
                *pos = *pos + 1;
                return Err(String::from_str("找不到结论词"));
            },
        }
    }
    Err(String::from_str("找不到结论词"))
}

/// Consumes optional whitespace and then one line-break token, if present.
fn eat_delimiter(list: &Vec<TokenKind>, pos: &mut usize)
    requires
        *old(pos) <= list@.len(),
    ensures
        *final(pos) as int == skip_delim(rec_views_of(list@), *old(pos) as int),
        *final(pos) <= list@.len(),
{
    eat_if_whitespace(list, pos);
    if *pos < list.len() {
        match &list[*pos] {
            TokenKind::Delimiter => {
                *pos = *pos + 1;
            },
            _ => {},
        }
    }
}

/// One parsed statement: `(first, second)` resolves to `result`.
#[derive(Debug, PartialEq, Eq)]
pub struct Relation {
    first: String,
    second: String,
    result: String,
}

impl View for Relation {
    type V = TripleView;

    closed spec fn view(&self) -> TripleView {
        TripleView { first: self.first@, second: self.second@, result: self.result@ }
    }
}

/// The models of a sequence of triples.
pub open spec fn triple_views_of(list: Seq<Relation>) -> Seq<TripleView> {
    Seq::new(list.len(), |k: int| list[k]@)
}

impl Relation {
    /// Parses the remainder of one statement, `first` having already been
    /// consumed: exactly the mathematical check [`parse_stmt`].
    pub fn parse(first: String, list: &Vec<TokenKind>, pos: &mut usize) -> (r: Result<
        Relation,
        String,
    >)
        requires
            *old(pos) <= list@.len(),
        ensures
            ({
                let res = parse_stmt(rec_views_of(list@), *old(pos) as int, first@);
                match r {
                    Ok(t) => res is Ok && t@ == res->Ok_0.0 && *final(pos) as int == res->Ok_0.1
                        && *final(pos) <= list@.len(),
                    Err(m) => res is Err && m@ == res->Err_0,
                }
            }),
    {
        match eat_link(list, pos) {
            Err(m) => {
                return Err(m);
            },
            Ok(_) => {},
        }
        let second = match eat_name(list, pos) {
            Some(s) => s,
            None => {
                return Err(String::from_str("找不到第二个称呼"));
            },
        };
        match eat_is(list, pos) {
            Err(m) => {
                return Err(m);
            },
            Ok(_) => {},
        }
        let result = match eat_name(list, pos) {
            Some(s) => s,
            None => {
                return Err(String::from_str("找不到结论称呼"));
            },
        };
        Ok(Relation { first, second, result })
    }
}

/// Parses statements from the cursor to the end-of-input marker: exactly the
/// mathematical parse [`advance_from`].
pub fn advance_token(list: &Vec<TokenKind>, pos: &mut usize) -> (r: Result<Vec<Relation>, String>)
    requires
        *old(pos) <= list@.len(),
    ensures
        ({
            let res = advance_from(rec_views_of(list@), *old(pos) as int);
            match r {
                Ok(triples) => res is Ok && triple_views_of(triples@) == res->Ok_0,
                Err(m) => res is Err && m@ == res->Err_0,
            }
        }),
{
    let ghost ts = rec_views_of(list@);
    let ghost p0 = *pos as int;
    let mut res_list: Vec<Relation> = Vec::new();
    proof {
        match advance_from(ts, p0) {
            Ok(rest) => {
                assert(triple_views_of(res_list@) + rest =~= rest);
            },
            Err(_) => {},
        }
    }
    while *pos < list.len()
        invariant
            ts == rec_views_of(list@),
            p0 == *old(pos) as int,
            *pos <= list@.len(),
            match advance_from(ts, *pos as int) {
                Ok(rest) => advance_from(ts, p0) == Ok::<Seq<TripleView>, Seq<char>>(
                    triple_views_of(res_list@) + rest,
                ),
                Err(m) => advance_from(ts, p0) == Err::<Seq<TripleView>, Seq<char>>(m),
            },
        decreases list@.len() - *pos,
    {
        let ghost i = *pos as int;
        let ghost acc = triple_views_of(res_list@);
        match &list[*pos] {
            TokenKind::Comment => {
                *pos = *pos + 1;
            },
            TokenKind::Whitespace => {
                *pos = *pos + 1;
            },
            TokenKind::Name(first) => {
                let f = first.clone();
                let ghost fv = f@;
                *pos = *pos + 1;
                proof {
                    assert(ts[i] == TokenKindView::Name(fv));
                }
                match Relation::parse(f, list, pos) {
                    Err(m) => {
                        proof {
                            assert(parse_stmt(ts, i + 1, fv) is Err);
                            assert(advance_from(ts, i) == Err::<Seq<TripleView>, Seq<char>>(m@));
                        }
                        return Err(m);
                    },
                    Ok(t) => {
                        let ghost tv = t@;
                        res_list.push(t);
                        eat_delimiter(list, pos);
                        proof {
                            lemma_parse_stmt_bounds(ts, i + 1, fv);
                            assert(triple_views_of(res_list@) =~= acc.push(tv));
                            match advance_from(ts, *pos as int) {
                                Ok(rest) => {
                                    assert(acc + (seq![tv] + rest) =~= acc.push(tv) + rest);
                                },
                                Err(_) => {},
                            }
                        }
                    },
                }
            },
            TokenKind::Delimiter => {
                return Err(String::from_str("语法错误"));
            },
            TokenKind::Link => {
                return Err(String::from_str("语法错误"));
            },
            TokenKind::Is => {
                return Err(String::from_str("语法错误"));
            },
            TokenKind::Eof => {
                proof {
                    assert(acc + Seq::<TripleView>::empty() =~= acc);
                }
                return Ok(res_list);
            },
            TokenKind::Unknown => {
                return Err(String::from_str("未知字符"));
            },
        }
    }
    proof {
        assert(advance_from(ts, *pos as int) == Err::<Seq<TripleView>, Seq<char>>("语法错误"@));
    }
    Err(String::from_str("语法错误"))
}

/// Reads a whole definition text into a relation store: scans it, parses its
/// statements, and folds the triples into the store in file order, later
/// entries overwriting earlier ones under the same key.  A parse error
/// aborts the load: no partial store is returned.
pub fn parse_str(source: &str) -> (r: Result<RelationMap, String>)
    ensures
        ({
            let res = advance_from(rec_lex_from(source@, 0), 0);
            match r {
                Ok(rel) => res is Ok && rel.wf() && rel@ == triples_map(res->Ok_0),
                Err(m) => res is Err && m@ == res->Err_0,
            }
        }),
{
    let tokens = lexer(source);
    let mut pos: usize = 0;
    let list = match advance_token(&tokens, &mut pos) {
        Ok(list) => list,
        Err(m) => {
            return Err(m);
        },
    };
    let ghost triples = triple_views_of(list@);
    let mut rel = RelationMap::new();
    let mut idx: usize = 0;
    while idx < list.len()
        invariant
            idx <= list@.len(),
            triples == triple_views_of(list@),
            rel.wf(),
            rel@ == triples_map(triples.take(idx as int)),
        decreases list@.len() - idx,
    {
        let t = &list[idx];
        rel.insert(t.first.clone(), t.second.clone(), t.result.clone());
        proof {
            assert(triples.take(idx as int + 1).drop_last() =~= triples.take(idx as int));
            assert(triples.take(idx as int + 1).last() == triples[idx as int]);
        }
        idx = idx + 1;
    }
    proof {
        assert(triples.take(list@.len() as int) =~= triples);
    }
    Ok(rel)
}

} // verus!
