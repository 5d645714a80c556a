use kinship::lexer::lexer;
use kinship::lexer::Span;
use kinship::lexer::Token;
use kinship::lexer::TokenKind;

#[test]
fn test_lexer() {
    let res = lexer("的").unwrap();
    assert_eq!(res[0].kind(), &TokenKind::Link);

    let res = lexer("是").unwrap();
    assert_eq!(res[0].kind(), &TokenKind::Is);

    let res = lexer("什么").unwrap();
    assert_eq!(res[0].kind(), &TokenKind::What);

    let res = lexer("爸爸").unwrap();
    assert_eq!(res[0].kind(), &TokenKind::Ident(String::from("爸爸")));

    let res = lexer("爸叔").unwrap();
    assert_eq!(res[0].kind(), &TokenKind::Ident(String::from("爸叔")));

    let res = lexer("爸爸的爷爷").unwrap();
    assert!(res[0].is_kind(&TokenKind::Ident(String::from("爸爸"))));
    assert!(res[1].is_kind(&TokenKind::Link));
    assert!(res[2].is_kind(&TokenKind::Ident(String::from("爷爷"))));
}

#[test]
fn lex_single_keywords() {
    let res = lexer("的").unwrap();
    assert_eq!(res.len(), 1);
    assert_eq!(res[0].span, Span { start: 0, length: 3 });

    let res = lexer("是").unwrap();
    assert_eq!(res.len(), 1);
    assert_eq!(res[0].span, Span { start: 0, length: 3 });

    let res = lexer("什么").unwrap();
    assert_eq!(res.len(), 1);
    assert_eq!(res[0].kind, TokenKind::What);
    assert_eq!(res[0].span, Span { start: 0, length: 6 });
}

#[test]
fn lex_dangling_what_part() {
    let err = lexer("什").unwrap_err();
    assert_eq!(err.message, "不能以 `什` 作为结尾");
    assert_eq!(err.span, Span { start: 0, length: 3 });

    let err = lexer("什x").unwrap_err();
    assert_eq!(err.message, "期望在 `什` 后面是的 `么`");
    assert_eq!(err.span, Span { start: 0, length: 3 });
}

#[test]
fn lex_rejects_narrow_characters() {
    let err = lexer("爸爸x").unwrap_err();
    assert_eq!(err.message, "只允许汉字");
    assert_eq!(err.span, Span { start: 6, length: 1 });

    let err = lexer("é").unwrap_err();
    assert_eq!(err.message, "只允许汉字");
    assert_eq!(err.span, Span { start: 0, length: 2 });
}

#[test]
fn lex_rejects_undefined_characters() {
    let err = lexer("郑").unwrap_err();
    assert_eq!(err.message, "未定义字符");
    assert_eq!(err.span, Span { start: 0, length: 3 });
}

#[test]
fn lex_all_alphabet_is_one_identifier() {
    let res = lexer("爸妈爷奶姑父母舅妗子伯叔婶哥妹姐弟姥姨女儿").unwrap();
    assert_eq!(res.len(), 1);
    assert_eq!(
        res[0].kind,
        TokenKind::Ident(String::from("爸妈爷奶姑父母舅妗子伯叔婶哥妹姐弟姥姨女儿"))
    );
    assert_eq!(res[0].span, Span { start: 0, length: 63 });
}

#[test]
fn two_char_identifier_span_meets_link() {
    let res = lexer("爸爸的").unwrap();
    assert_eq!(res.len(), 2);
    assert_eq!(res[0].kind, TokenKind::Ident(String::from("爸爸")));
    assert_eq!(res[0].span, Span { start: 0, length: 6 });
    assert_eq!(res[1].kind, TokenKind::Link);
    assert_eq!(res[1].span.start, 6);
}

#[test]
fn span_len_and_end() {
    let span = Span { start: 6, length: 6 };
    assert_eq!(span.len(), 4);
    assert_eq!(span.end(), 12);

    let span = Span { start: 0, length: 1 };
    assert_eq!(span.len(), 1);
    assert_eq!(span.end(), 1);

    let span = Span { start: 3, length: 3 };
    assert_eq!(span.len(), 2);
    assert_eq!(span.end(), 6);
}

#[test]
fn token_accessors() {
    let t = Token::new(TokenKind::Link, 3, 3);
    assert_eq!(t.kind(), &TokenKind::Link);
    assert_eq!(t.end_span(), 6);
    assert!(t.is_kind(&TokenKind::Link));
    assert!(!t.is_kind(&TokenKind::Is));
    assert!(!t.is_kind(&TokenKind::Ident(String::from("爸爸"))));
}
