use kinship::record::lexer::lexer;
use kinship::record::lexer::TokenKind;
use kinship::record::parse::parse_str;

#[test]
fn test_base() {
    let tokens = lexer("#abc\n \t   \n\r\n\r\n\n爷爷爷 > 爸爸");
    assert_eq!(
        tokens,
        vec![
            TokenKind::Comment,
            TokenKind::Whitespace,
            TokenKind::Delimiter,
            TokenKind::Name(String::from("爷爷爷")),
            TokenKind::Whitespace,
            TokenKind::Link,
            TokenKind::Whitespace,
            TokenKind::Name(String::from("爸爸")),
            TokenKind::Eof,
        ]
    );

    let tokens = lexer("#abc");
    assert_eq!(tokens, vec![TokenKind::Comment, TokenKind::Eof]);

    let tokens = lexer("郑");
    assert_eq!(tokens, vec![TokenKind::Unknown, TokenKind::Eof]);

    let tokens = lexer("");
    assert_eq!(tokens, vec![TokenKind::Eof]);
}

#[test]
fn test_parse() {
    let str = "爸爸 > 妈妈 = 爷爷 \n        爸爸 > 爸爸 = 爷爷";
    let res = parse_str(str).unwrap();
    assert!(res.len() == 2);
}

#[test]
fn single_statement_round_trip() {
    let table = parse_str("爸爸 > 妈妈 = 奶奶").unwrap();
    assert_eq!(table.len(), 1);
    let got = table.get(&String::from("爸爸"), &String::from("妈妈"));
    assert_eq!(got, Some(String::from("奶奶")));
}

#[test]
fn comments_and_blank_lines_are_ignored() {
    let text = "# 注释\n爸爸 > 妈妈 = 奶奶\n\n爸爸 > 爸爸 = 爷爷\n# 注释\n";
    let table = parse_str(text).unwrap();
    assert_eq!(table.len(), 2);
    let got = table.get(&String::from("爸爸"), &String::from("妈妈"));
    assert_eq!(got, Some(String::from("奶奶")));
    let got = table.get(&String::from("爸爸"), &String::from("爸爸"));
    assert_eq!(got, Some(String::from("爷爷")));
}

#[test]
fn later_statements_overwrite_earlier_ones() {
    let table = parse_str("爸爸 > 妈妈 = 奶奶\n爸爸 > 妈妈 = 姥姥").unwrap();
    assert_eq!(table.len(), 1);
    let got = table.get(&String::from("爸爸"), &String::from("妈妈"));
    assert_eq!(got, Some(String::from("姥姥")));
}

#[test]
fn statement_shape_errors() {
    let err = parse_str("爸爸").unwrap_err();
    assert_eq!(err, "找不到连接词");

    let err = parse_str("爸爸 >").unwrap_err();
    assert_eq!(err, "找不到第二个称呼");

    let err = parse_str("爸爸 > 妈妈").unwrap_err();
    assert_eq!(err, "找不到结论词");

    let err = parse_str("爸爸 > 妈妈 =").unwrap_err();
    assert_eq!(err, "找不到结论称呼");

    let err = parse_str("> 妈妈").unwrap_err();
    assert_eq!(err, "语法错误");

    let err = parse_str("郑").unwrap_err();
    assert_eq!(err, "未知字符");
}

#[test]
fn comment_without_line_break_reaches_eof() {
    let table = parse_str("爸爸 > 妈妈 = 奶奶\n# 结尾注释").unwrap();
    assert_eq!(table.len(), 1);
}
